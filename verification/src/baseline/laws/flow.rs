//! Control flow: phi copies, branches, returns.
use vstd::prelude::*;
use crate::baseline::Gen;
use crate::body::{
    branch, edge, edge_step, goto_block, jump, move_of, moves_from, note_copies, noted_edge,
    phi_copies, run_copies,
};
use crate::cfg::{
    back_edge, block_sym, copy_order, hinders, law_copy_order_is_proper, lemma_every_copy,
    proper_order, Move, PhiCopy,
};
use crate::emit::{goto_tmp, label_tmp, note_z, St};
use crate::ir::{Block, BrCond, Ret, SrcLoc, Val};
use crate::line::{BitOp, Imm, Line, LitOp, Op, Sym};
use crate::machine::{exec, group_exec, lemma_joined, step, Flow, Machine};
use crate::meaning::{apart, kept, passed_over, passes, seeking, word};

verus! {

impl<'a> Gen<'a> {
    /// Where a phi copy writes.
    pub open spec fn copy_dst(&self, c: PhiCopy) -> u32 {
        self.cx.slot(self.cx.fname(), c.dst@)->0
    }

    /// Whether the slots of phi copies can be told apart: no two are written
    /// to the same byte, and a slot that is read is written whole or not at
    /// all.
    pub open spec fn copies_apart(&self, cs: Seq<PhiCopy>) -> bool {
        &&& forall|i: int|
            0 <= i < cs.len() ==> self.plain(*(#[trigger] cs[i]).val, cs[i].ty.bytes()) && self.cx.slot(
                self.cx.fname(),
                cs[i].dst@,
            ) is Some && self.fits(*cs[i].val, self.copy_dst(cs[i]), cs[i].ty.bytes())
        &&& forall|i: int, j: int|
            0 <= i < cs.len() && 0 <= j < cs.len() && i != j ==> {
                let d = self.copy_dst(#[trigger] cs[i]);
                let n = cs[i].ty.bytes() as int;
                &&& apart(self.copy_dst(#[trigger] cs[j]), cs[j].ty.bytes() as int, d, n)
                &&& self.slot_of(*cs[j].val) matches Some(s) ==> s == d || apart(
                    s,
                    cs[j].ty.bytes() as int,
                    d,
                    n,
                )
            }
    }

    /// The slots that copies write and read.
    pub open spec fn copy_moves(&self, cs: Seq<PhiCopy>) -> Seq<Move> {
        cs.map_values(|c: PhiCopy| Move { dst: self.copy_dst(c), src: self.slot_of(*c.val) })
    }

    proof fn lemma_moves(&self, st: St, cs: Seq<PhiCopy>, i: int)
        requires
            self.copies_apart(cs),
            0 <= i <= cs.len(),
        ensures
            moves_from(&self.cx, st, cs, self.copy_moves(cs).take(i), i) == (
                st,
                self.copy_moves(cs),
            ),
        decreases cs.len() - i,
    {
        let ms = self.copy_moves(cs);
        if i < cs.len() {
            let m = move_of(&self.cx, st, cs[i]).1;
            assert(self.plain(*cs[i].val, cs[i].ty.bytes()));
            assert(m == ms[i]);
            assert(ms.take(i).push(m) =~= ms.take(i + 1));
            self.lemma_moves(st, cs, i + 1);
        } else {
            assert(ms.take(i) =~= ms);
        }
    }

    /// What a copy has done: on a back edge its slot holds what the operand
    /// was at first, on a forward edge what the operand is now.
    pub open spec fn copied_value(&self, back: bool, c: PhiCopy, b: Machine, a: Machine) -> bool {
        word(a, self.copy_dst(c), c.ty.bytes()) == self.word_of(
            if back {
                b
            } else {
                a
            },
            *c.val,
            c.ty.bytes(),
        )
    }

    /// Whether a byte is written by none of the copies.
    pub open spec fn not_copied(&self, cs: Seq<PhiCopy>, x: u32) -> bool {
        forall|i: int|
            0 <= i < cs.len() ==> x < self.copy_dst(#[trigger] cs[i]) || x >= self.copy_dst(cs[i])
                + cs[i].ty.bytes()
    }

    /// A later write leaves what a copy has done alone.
    proof fn lemma_copy_stays(
        &self,
        back: bool,
        cs: Seq<PhiCopy>,
        i: int,
        j: int,
        b: Machine,
        c: Machine,
        a: Machine,
    )
        requires
            self.copies_apart(cs),
            0 <= i < cs.len(),
            0 <= j < cs.len(),
            i != j,
            !hinders(self.copy_moves(cs), back, i, j),
            kept(c, a, self.copy_dst(cs[j]), cs[j].ty.bytes() as int),
            self.copied_value(back, cs[i], b, c),
        ensures
            self.copied_value(back, cs[i], b, a),
    {
        let d = self.copy_dst(cs[j]);
        let n = cs[i].ty.bytes();
        assert(apart(self.copy_dst(cs[i]), n as int, d, cs[j].ty.bytes() as int));
        assert(self.fits(*cs[i].val, self.copy_dst(cs[i]), n));
        assert(word(a, self.copy_dst(cs[i]), n) == word(c, self.copy_dst(cs[i]), n));
        if !back {
            if let Some(s) = self.slot_of(*cs[i].val) {
                assert(s != d);
                assert(apart(s, n as int, d, cs[j].ty.bytes() as int));
            }
            assert(self.word_of(a, *cs[i].val, n) == self.word_of(c, *cs[i].val, n));
        }
    }

    /// A write leaves alone what later copies on a back edge read.
    proof fn lemma_source_stays(
        &self,
        cs: Seq<PhiCopy>,
        i: int,
        j: int,
        c: Machine,
        a: Machine,
    )
        requires
            self.copies_apart(cs),
            0 <= i < cs.len(),
            0 <= j < cs.len(),
            i != j,
            !hinders(self.copy_moves(cs), true, i, j),
            kept(c, a, self.copy_dst(cs[i]), cs[i].ty.bytes() as int),
        ensures
            self.word_of(a, *cs[j].val, cs[j].ty.bytes()) == self.word_of(
                c,
                *cs[j].val,
                cs[j].ty.bytes(),
            ),
    {
        assert(self.plain(*cs[j].val, cs[j].ty.bytes()));
        if let Some(s) = self.slot_of(*cs[j].val) {
            let d = self.copy_dst(cs[i]);
            assert(s != d);
            assert(apart(s, cs[j].ty.bytes() as int, d, cs[i].ty.bytes() as int));
        }
    }

    proof fn lemma_run_copies(
        &self,
        st: St,
        cs: Seq<PhiCopy>,
        back: bool,
        order: Seq<usize>,
        k: int,
        b: Machine,
        base: int,
        m: Machine,
    )
        requires
            self.at_row(st, base, m),
            self.copies_apart(cs),
            proper_order(self.copy_moves(cs), back, order),
            0 <= k <= order.len(),
            forall|j: int|
                0 <= j < k ==> self.copied_value(
                    back,
                    cs[#[trigger] order[j] as int],
                    b,
                    exec(st.rows, base, m),
                ),
            back ==> forall|j: int|
                k <= j < order.len() ==> self.word_of(
                    exec(st.rows, base, m),
                    *cs[#[trigger] order[j] as int].val,
                    cs[order[j] as int].ty.bytes(),
                ) == self.word_of(b, *cs[order[j] as int].val, cs[order[j] as int].ty.bytes()),
        ensures
            ({
                let s = run_copies(self, st, cs, self.copy_moves(cs), order, k);
                let c = exec(st.rows, base, m);
                let a = exec(s.rows, base, m);
                &&& self.at_row(s, base, m)
                &&& passes(c, a)
                &&& forall|j: int|
                    0 <= j < order.len() ==> self.copied_value(
                        back,
                        cs[#[trigger] order[j] as int],
                        b,
                        a,
                    )
                &&& forall|x: u32| self.not_copied(cs, x) ==> #[trigger] a.ram[x] == c.ram[x]
            }),
        decreases order.len() - k,
    {
        let ms = self.copy_moves(cs);
        if k < order.len() {
            let i = order[k] as int;
            let c = exec(st.rows, base, m);
            let n = cs[i].ty.bytes();
            let d = self.copy_dst(cs[i]);
            let s1 = self.move_val(st, *cs[i].val, cs[i].ty, d);
            assert(self.plain(*cs[i].val, cs[i].ty.bytes()));
            self.lemma_moved(st, *cs[i].val, n, d, base, m);
            let a = exec(s1.rows, base, m);
            assert(self.fits(*cs[i].val, d, n));
            assert(self.copied_value(back, cs[i], b, a)) by {
                if !back {
                    if let Some(s) = self.slot_of(*cs[i].val) {
                        if s != d {
                            assert(self.word_of(a, *cs[i].val, n) == self.word_of(
                                c,
                                *cs[i].val,
                                n,
                            ));
                        }
                    }
                }
            }
            assert forall|j: int| 0 <= j < k + 1 implies self.copied_value(
                back,
                cs[#[trigger] order[j] as int],
                b,
                a,
            ) by {
                if j < k {
                    assert(order[j] != order[k]);
                    self.lemma_copy_kept(back, cs, order, j, k, b, c, a);
                }
            }
            if back {
                assert forall|j: int| k + 1 <= j < order.len() implies self.word_of(
                    a,
                    *cs[#[trigger] order[j] as int].val,
                    cs[order[j] as int].ty.bytes(),
                ) == self.word_of(
                    b,
                    *cs[order[j] as int].val,
                    cs[order[j] as int].ty.bytes(),
                ) by {
                    assert(order[j] != order[k]);
                    self.lemma_source_stays(cs, i, order[j] as int, c, a);
                }
            }
            self.lemma_run_copies(s1, cs, back, order, k + 1, b, base, m);
            let z = exec(run_copies(self, st, cs, ms, order, k).rows, base, m);
            assert forall|x: u32| self.not_copied(cs, x) implies #[trigger] z.ram[x] == c.ram[x] by {
                assert(x < self.copy_dst(cs[i]) || x >= self.copy_dst(cs[i]) + n);
                assert(a.ram[x] == c.ram[x]);
            }
        }
    }

    /// What copy `j` has done stays when copy `k` runs.
    proof fn lemma_copy_kept(
        &self,
        back: bool,
        cs: Seq<PhiCopy>,
        order: Seq<usize>,
        j: int,
        k: int,
        b: Machine,
        c: Machine,
        a: Machine,
    )
        requires
            self.copies_apart(cs),
            proper_order(self.copy_moves(cs), back, order),
            0 <= j < k < order.len(),
            kept(
                c,
                a,
                self.copy_dst(cs[order[k] as int]),
                cs[order[k] as int].ty.bytes() as int,
            ),
            self.copied_value(back, cs[order[j] as int], b, c),
        ensures
            self.copied_value(back, cs[order[j] as int], b, a),
    {
        assert(order[j] != order[k]);
        self.lemma_copy_stays(back, cs, order[j] as int, order[k] as int, b, c, a);
    }

    /// The copies of an edge. On a back edge all of them take effect at once:
    /// every slot ends up with what its operand was before. On a forward edge
    /// every slot ends up equal to its operand.
    pub proof fn law_phi_copies_take_effect(
        &self,
        st: St,
        cs: Seq<PhiCopy>,
        back: bool,
        base: int,
        m: Machine,
    )
        requires
            self.at_row(st, base, m),
            self.copies_apart(cs),
            cs.len() <= usize::MAX,
            copy_order(self.copy_moves(cs), back) is Some,
        ensures
            ({
                let s = phi_copies(self, &self.cx, st, cs, back);
                let b = exec(st.rows, base, m);
                let a = exec(s.rows, base, m);
                &&& self.at_row(s, base, m)
                &&& passes(b, a)
                &&& forall|i: int|
                    0 <= i < cs.len() ==> self.copied_value(back, #[trigger] cs[i], b, a)
                &&& forall|x: u32| self.not_copied(cs, x) ==> #[trigger] a.ram[x] == b.ram[x]
            }),
    {
        reveal(phi_copies);
        let ms = self.copy_moves(cs);
        assert(ms.take(0) =~= Seq::<Move>::empty());
        self.lemma_moves(st, cs, 0);
        law_copy_order_is_proper(ms, back);
        let order = copy_order(ms, back)->0;
        let b = exec(st.rows, base, m);
        self.lemma_run_copies(st, cs, back, order, 0, b, base, m);
        let s = phi_copies(self, &self.cx, st, cs, back);
        let a = exec(s.rows, base, m);
        assert forall|i: int| 0 <= i < cs.len() implies self.copied_value(
            back,
            #[trigger] cs[i],
            b,
            a,
        ) by {
            lemma_every_copy(ms, back, order, i);
            let j = choose|j: int| 0 <= j < order.len() && order[j] == i as usize;
            assert(self.copied_value(back, cs[order[j] as int], b, a));
        }
    }

    proof fn lemma_run_over(
        &self,
        st: St,
        cs: Seq<PhiCopy>,
        order: Seq<usize>,
        k: int,
        base: int,
        m: Machine,
    )
        requires
            seeking(st, base, m),
            self.copies_apart(cs),
            0 <= k,
            forall|j: int| 0 <= j < order.len() ==> (#[trigger] order[j]) < cs.len(),
        ensures
            passed_over(st, run_copies(self, st, cs, self.copy_moves(cs), order, k), base, m),
            run_copies(self, st, cs, self.copy_moves(cs), order, k).next == st.next,
        decreases order.len() - k,
    {
        if k < order.len() {
            let i = order[k] as int;
            assert(self.plain(*cs[i].val, cs[i].ty.bytes()));
            let s1 = self.move_val(st, *cs[i].val, cs[i].ty, self.copy_dst(cs[i]));
            self.lemma_move_dropped(
                st,
                *cs[i].val,
                cs[i].ty.bytes(),
                self.copy_dst(cs[i]),
                0,
                base,
                m,
            );
            self.lemma_run_over(s1, cs, order, k + 1, base, m);
        }
    }

    /// Whether the copies of the edge from block `b` to `to` can be run.
    pub open spec fn edge_runs(&self, blocks: Seq<Block>, b: int, to: Seq<char>) -> bool {
        let cs = edge(blocks, b, to);
        let back = back_edge(blocks, blocks[b].label@, to);
        &&& cs.len() <= usize::MAX
        &&& self.copies_apart(cs)
        &&& copy_order(self.copy_moves(cs), back) is Some
    }

    proof fn lemma_edge_over(
        &self,
        st: St,
        blocks: Seq<Block>,
        b: int,
        to: Seq<char>,
        base: int,
        m: Machine,
    )
        requires
            seeking(st, base, m),
            self.edge_runs(blocks, b, to),
        ensures
            passed_over(st, edge_step(self, &self.cx, st, blocks, b, to), base, m),
    {
        reveal(phi_copies);
        let cs = edge(blocks, b, to);
        let back = back_edge(blocks, blocks[b].label@, to);
        let ms = self.copy_moves(cs);
        assert(ms.take(0) =~= Seq::<Move>::empty());
        let m1 = exec(st.rows, base, m);
        lemma_joined(st, phi_copies(self, &self.cx, st.fresh(), cs, back), None, base, m);
        self.lemma_moves(st.fresh(), cs, 0);
        law_copy_order_is_proper(ms, back);
        self.lemma_run_over(st.fresh(), cs, copy_order(ms, back)->0, 0, 0, m1);
    }

    proof fn lemma_noted_over(
        &self,
        st: St,
        fi: usize,
        blocks: Seq<Block>,
        b: int,
        to: Seq<char>,
        base: int,
        m: Machine,
    )
        requires
            seeking(st, base, m),
            self.edge_runs(blocks, b, to),
        ensures
            passed_over(st, noted_edge(self, &self.cx, st, fi, blocks, b, to), base, m),
    {
        let s1 = note_copies(st, fi, blocks, b);
        assert(passed_over(st, s1, base, m)) by {
            broadcast use group_exec;

        }
        self.lemma_edge_over(s1, blocks, b, to, base, m);
    }

    /// The copies of an edge run, and the jump to its end.
    proof fn lemma_edge_taken(
        &self,
        st: St,
        blocks: Seq<Block>,
        b: int,
        to: Seq<char>,
        l: Sym,
        loc: Option<SrcLoc>,
        base: int,
        m: Machine,
    )
        requires
            self.at_row(st, base, m),
            self.edge_runs(blocks, b, to),
        ensures
            ({
                let s = goto_block(edge_step(self, &self.cx, st, blocks, b, to), Some(l), loc);
                let back = back_edge(blocks, blocks[b].label@, to);
                seeking(s, base, m) && arrives(
                    self,
                    edge(blocks, b, to),
                    back,
                    l,
                    exec(st.rows, base, m),
                    exec(s.rows, base, m),
                )
            }),
    {
        let cs = edge(blocks, b, to);
        let back = back_edge(blocks, blocks[b].label@, to);
        lemma_joined(st, phi_copies(self, &self.cx, st.fresh(), cs, back), None, base, m);
        self.law_phi_copies_take_effect(st.fresh(), cs, back, 0, exec(st.rows, base, m));
        let s1 = edge_step(self, &self.cx, st, blocks, b, to);
        let c = exec(s1.rows, base, m);
        let a = exec(s1.emit_at(Line::Goto(l), loc).rows, base, m);
        assert(a == (Machine { flow: Flow::Seek(l), cycles: a.cycles, ..c })) by {
            broadcast use group_exec;

        }
        let b0 = exec(st.rows, base, m);
        assert forall|i: int| 0 <= i < cs.len() implies self.copied_value(
            back,
            #[trigger] cs[i],
            b0,
            a,
        ) by {
            assert(self.copied_value(back, cs[i], b0, c));
            assert(self.word_of(a, *cs[i].val, cs[i].ty.bytes()) == self.word_of(
                c,
                *cs[i].val,
                cs[i].ty.bytes(),
            ));
            assert(word(a, self.copy_dst(cs[i]), cs[i].ty.bytes()) == word(
                c,
                self.copy_dst(cs[i]),
                cs[i].ty.bytes(),
            ));
        }
    }

    proof fn lemma_noted_taken(
        &self,
        st: St,
        fi: usize,
        blocks: Seq<Block>,
        b: int,
        to: Seq<char>,
        l: Sym,
        loc: Option<SrcLoc>,
        base: int,
        m: Machine,
    )
        requires
            self.at_row(st, base, m),
            self.edge_runs(blocks, b, to),
            block_sym(fi, blocks, blocks[b].label@) is Some,
        ensures
            ({
                let s = goto_block(noted_edge(self, &self.cx, st, fi, blocks, b, to), Some(l), loc);
                let back = back_edge(blocks, blocks[b].label@, to);
                seeking(s, base, m) && arrives(
                    self,
                    edge(blocks, b, to),
                    back,
                    l,
                    exec(st.rows, base, m),
                    exec(s.rows, base, m),
                )
            }),
    {
        let b0 = exec(st.rows, base, m);
        if edge(blocks, b, to).len() > 0 {
            let s1 = note_copies(st, fi, blocks, b);
            assert(self.at_row(s1, base, m) && exec(s1.rows, base, m) == b0) by {
                broadcast use group_exec;

                reveal(step);
            }
            self.lemma_edge_taken(s1, blocks, b, to, l, loc, base, m);
        } else {
            let a = exec(st.emit_at(Line::Goto(l), loc).rows, base, m);
            assert(a == (Machine { flow: Flow::Seek(l), cycles: a.cycles, ..b0 })) by {
                broadcast use group_exec;

            }
        }
    }

    /// A branch runs the copies of its edge and goes to its block.
    pub proof fn law_jump_arrives(
        &self,
        st: St,
        fi: usize,
        blocks: Seq<Block>,
        b: int,
        to: Seq<char>,
        loc: Option<SrcLoc>,
        base: int,
        m: Machine,
    )
        requires
            self.at_row(st, base, m),
            self.edge_runs(blocks, b, to),
            block_sym(fi, blocks, blocks[b].label@) is Some,
            block_sym(fi, blocks, to) is Some,
        ensures
            ({
                let s = jump(self, &self.cx, st, fi, blocks, b, to, loc);
                arrives(
                    self,
                    edge(blocks, b, to),
                    back_edge(blocks, blocks[b].label@, to),
                    block_sym(fi, blocks, to)->0,
                    exec(st.rows, base, m),
                    exec(s.rows, base, m),
                )
            }),
    {
        self.lemma_noted_taken(st, fi, blocks, b, to, block_sym(fi, blocks, to)->0, loc, base, m);
    }

    /// Both edges have copies.
    proof fn lemma_branch_both(
        &self,
        st: St,
        fi: usize,
        blocks: Seq<Block>,
        b: int,
        x: BrCond,
        l: u32,
        lt: Sym,
        lf: Sym,
        base: int,
        m: Machine,
    )
        requires
            self.at_row(st, base, m),
            st.w is None,
            self.edge_runs(blocks, b, x.t@),
            self.edge_runs(blocks, b, x.f@),
            block_sym(fi, blocks, blocks[b].label@) is Some,
            lt != Sym::Tmp(l),
            lf != Sym::Tmp(l),
        ensures
            ({
                let s0 = st.emit_at(note_z(BitOp::Btfss), x.loc).emit_at(goto_tmp(l), x.loc);
                let s1 = noted_edge(self, &self.cx, s0, fi, blocks, b, x.f@);
                let s2 = goto_block(s1, Some(lf), x.loc).emit(label_tmp(l));
                let s = goto_block(edge_step(self, &self.cx, s2, blocks, b, x.t@), Some(lt), x.loc);
                let c = exec(st.rows, base, m);
                let to = if c.z {
                    x.f@
                } else {
                    x.t@
                };
                arrives(
                    self,
                    edge(blocks, b, to),
                    back_edge(blocks, blocks[b].label@, to),
                    if c.z {
                        lf
                    } else {
                        lt
                    },
                    c,
                    exec(s.rows, base, m),
                )
            }),
    {
        let c = exec(st.rows, base, m);
        let s0 = st.emit_at(note_z(BitOp::Btfss), x.loc).emit_at(goto_tmp(l), x.loc);
        let m0 = exec(s0.rows, base, m);
        assert(m0 == (Machine {
            flow: if c.z {
                Flow::Next
            } else {
                Flow::Seek(Sym::Tmp(l))
            },
            cycles: m0.cycles,
            ..c
        })) by {
            broadcast use group_exec;

        }
        let s1 = noted_edge(self, &self.cx, s0, fi, blocks, b, x.f@);
        let s1g = s1.emit_at(Line::Goto(lf), x.loc);
        let s2 = s1g.emit(label_tmp(l));
        if c.z {
            self.lemma_noted_taken(s0, fi, blocks, b, x.f@, lf, x.loc, base, m);
            assert(passed_over(s1g, s2, base, m)) by {
                broadcast use group_exec;

            }
            self.lemma_edge_over(s2, blocks, b, x.t@, base, m);
            let s3 = edge_step(self, &self.cx, s2, blocks, b, x.t@);
            assert(passed_over(s3, s3.emit_at(Line::Goto(lt), x.loc), base, m)) by {
                broadcast use group_exec;

            }
            let a = exec(s3.emit_at(Line::Goto(lt), x.loc).rows, base, m);
            self.lemma_arrives_from(edge(blocks, b, x.f@), back_edge(blocks, blocks[b].label@, x.f@), lf, m0, c, a);
        } else {
            self.lemma_noted_over(s0, fi, blocks, b, x.f@, base, m);
            assert(exec(s2.rows, base, m) == (Machine { flow: Flow::Next, ..m0 })) by {
                broadcast use group_exec;

            }
            self.lemma_edge_taken(s2, blocks, b, x.t@, lt, x.loc, base, m);
            let s3 = edge_step(self, &self.cx, s2, blocks, b, x.t@);
            let a = exec(s3.emit_at(Line::Goto(lt), x.loc).rows, base, m);
            let m2 = exec(s2.rows, base, m);
            self.lemma_arrives_from(edge(blocks, b, x.t@), back_edge(blocks, blocks[b].label@, x.t@), lt, m2, c, a);
        }
    }

    /// Where a run arrives depends on the RAM alone.
    proof fn lemma_arrives_from(
        &self,
        cs: Seq<PhiCopy>,
        back: bool,
        to: Sym,
        b: Machine,
        c: Machine,
        a: Machine,
    )
        requires
            arrives(self, cs, back, to, b, a),
            c.ram == b.ram,
            c.core == b.core,
        ensures
            arrives(self, cs, back, to, c, a),
    {
        assert forall|i: int| 0 <= i < cs.len() implies self.copied_value(
            back,
            #[trigger] cs[i],
            c,
            a,
        ) by {
            assert(self.copied_value(back, cs[i], b, a));
            assert(self.word_of(c, *cs[i].val, cs[i].ty.bytes()) == self.word_of(
                b,
                *cs[i].val,
                cs[i].ty.bytes(),
            ));
        }
    }

    /// One jump comes first, for `z` as `first` says; the other edge, with its
    /// copies, follows.
    proof fn lemma_branch_one(
        &self,
        st: St,
        fi: usize,
        blocks: Seq<Block>,
        b: int,
        op: BitOp,
        away: Sym,
        to: Seq<char>,
        l: Sym,
        loc: Option<SrcLoc>,
        base: int,
        m: Machine,
    )
        requires
            self.at_row(st, base, m),
            op == BitOp::Btfss || op == BitOp::Btfsc,
            self.edge_runs(blocks, b, to),
            block_sym(fi, blocks, blocks[b].label@) is Some,
        ensures
            ({
                let s0 = st.emit_at(note_z(op), loc).emit_at(Line::Goto(away), loc);
                let s = goto_block(noted_edge(self, &self.cx, s0, fi, blocks, b, to), Some(l), loc);
                let c = exec(st.rows, base, m);
                let a = exec(s.rows, base, m);
                if c.z == (op == BitOp::Btfss) {
                    arrives(
                        self,
                        edge(blocks, b, to),
                        back_edge(blocks, blocks[b].label@, to),
                        l,
                        c,
                        a,
                    )
                } else {
                    a == (Machine { flow: Flow::Seek(away), cycles: a.cycles, ..c })
                }
            }),
    {
        let c = exec(st.rows, base, m);
        let s0 = st.emit_at(note_z(op), loc).emit_at(Line::Goto(away), loc);
        let m0 = exec(s0.rows, base, m);
        let falls = c.z == (op == BitOp::Btfss);
        assert(m0 == (Machine {
            flow: if falls {
                Flow::Next
            } else {
                Flow::Seek(away)
            },
            cycles: m0.cycles,
            ..c
        })) by {
            broadcast use group_exec;

        }
        let s1 = noted_edge(self, &self.cx, s0, fi, blocks, b, to);
        if falls {
            self.lemma_noted_taken(s0, fi, blocks, b, to, l, loc, base, m);
            let a = exec(s1.emit_at(Line::Goto(l), loc).rows, base, m);
            self.lemma_arrives_from(edge(blocks, b, to), back_edge(blocks, blocks[b].label@, to), l, m0, c, a);
        } else {
            self.lemma_noted_over(s0, fi, blocks, b, to, base, m);
            assert(passed_over(s1, s1.emit_at(Line::Goto(l), loc), base, m)) by {
                broadcast use group_exec;

            }
        }
    }

    /// A conditional branch goes where its condition says, and only the
    /// copies of the edge it takes take effect.
    pub proof fn law_branch_goes_by_its_condition(
        &self,
        st: St,
        fi: usize,
        blocks: Seq<Block>,
        b: int,
        x: BrCond,
        base: int,
        m: Machine,
    )
        requires
            self.at_row(st, base, m),
            self.edge_runs(blocks, b, x.t@),
            self.edge_runs(blocks, b, x.f@),
            block_sym(fi, blocks, blocks[b].label@) is Some,
            block_sym(fi, blocks, x.t@) is Some,
            block_sym(fi, blocks, x.f@) is Some,
            x.cond matches Val::Reg(r) ==> (self.cx.slot(self.cx.fname(), r@) matches Some(ca)
                && self.sound(ca)),
            !(x.cond is Global),
        ensures
            ({
                let s = branch(self, &self.cx, st, fi, blocks, b, x);
                let c = exec(st.rows, base, m);
                let to = if self.chosen(c, x.cond) {
                    x.t@
                } else {
                    x.f@
                };
                arrives(
                    self,
                    edge(blocks, b, to),
                    back_edge(blocks, blocks[b].label@, to),
                    block_sym(fi, blocks, to)->0,
                    c,
                    exec(s.rows, base, m),
                )
            }),
    {
        reveal(branch);
        let c = exec(st.rows, base, m);
        let lt = block_sym(fi, blocks, x.t@)->0;
        let lf = block_sym(fi, blocks, x.f@)->0;
        match x.cond {
            Val::Const(k) => {
                if k != 0 {
                    self.lemma_noted_taken(st, fi, blocks, b, x.t@, lt, x.loc, base, m);
                } else {
                    self.lemma_noted_taken(st, fi, blocks, b, x.f@, lf, x.loc, base, m);
                }
            },
            Val::Reg(r) => {
                let ca = self.cx.slot(self.cx.fname(), r@)->0;
                let s0 = self.acc_w(st.fresh(), Op::Movf, ca);
                let s1 = st.join(s0, x.loc);
                lemma_joined(st, s0, x.loc, base, m);
                self.lemma_acc_w(st.fresh(), Op::Movf, ca, 0, c);
                let m1 = exec(s1.rows, base, m);
                let on = self.chosen(c, x.cond);
                assert(m1.ram == c.ram && m1.core == c.core && m1.z == !on);
                let has_t = edge(blocks, b, x.t@).len() > 0;
                let has_f = edge(blocks, b, x.f@).len() > 0;
                let s = branch(self, &self.cx, st, fi, blocks, b, x);
                let a = exec(s.rows, base, m);
                let to = if on {
                    x.t@
                } else {
                    x.f@
                };
                let l = if on {
                    lt
                } else {
                    lf
                };
                if !has_t && !has_f {
                    assert(a == (Machine { flow: Flow::Seek(l), cycles: a.cycles, ..m1 })) by {
                        broadcast use group_exec;

                    }
                } else if has_t && has_f {
                    let s2 = s1.bump();
                    self.lemma_branch_both(s2, fi, blocks, b, x, s1.next, lt, lf, base, m);
                } else if has_f {
                    self.lemma_branch_one(
                        s1,
                        fi,
                        blocks,
                        b,
                        BitOp::Btfss,
                        lt,
                        x.f@,
                        lf,
                        x.loc,
                        base,
                        m,
                    );
                } else {
                    self.lemma_branch_one(
                        s1,
                        fi,
                        blocks,
                        b,
                        BitOp::Btfsc,
                        lf,
                        x.t@,
                        lt,
                        x.loc,
                        base,
                        m,
                    );
                }
                self.lemma_arrives_from(
                    edge(blocks, b, to),
                    back_edge(blocks, blocks[b].label@, to),
                    l,
                    m1,
                    c,
                    a,
                );
            },
            Val::Global(_) => {},
        }
    }

    /// A return leaves its value in the result bytes.
    pub proof fn law_return_leaves_its_value(&self, st: St, x: Ret, base: int, m: Machine)
        requires
            self.at_row(st, base, m),
            x.val matches Some(v) ==> self.plain(v.1, v.0.bytes()) && self.fits(
                v.1,
                self.retval,
                v.0.bytes(),
            ),
        ensures
            ({
                let b = exec(st.rows, base, m);
                let a = exec(self.ret(st, x).rows, base, m);
                a.flow is Gone && match x.val {
                    Some(v) => kept(b, a, self.retval, v.0.bytes() as int) && word(
                        a,
                        self.retval,
                        v.0.bytes(),
                    ) == self.word_of(b, v.1, v.0.bytes()),
                    None => a.ram == b.ram,
                }
            }),
    {
        let s1 = match x.val {
            Some(v) => self.move_from(st, v.1, v.0.bytes(), self.retval, 0),
            None => st,
        };
        if let Some(v) = x.val {
            self.lemma_moved(st, v.1, v.0.bytes(), self.retval, base, m);
        }
        let c = exec(s1.rows, base, m);
        let a = exec(s1.emit(Line::Lit(LitOp::Retlw, Imm::Byte(0))).rows, base, m);
        assert(a == (Machine { w: 0, flow: Flow::Gone, cycles: a.cycles, ..c })) by {
            broadcast use group_exec;

        }
    }
}

/// What a branch leaves: the run goes on at `to`, the copies of its edge have
/// taken effect, and nothing else changed.
pub open spec fn arrives(
    g: &Gen,
    cs: Seq<PhiCopy>,
    back: bool,
    to: Sym,
    b: Machine,
    a: Machine,
) -> bool {
    &&& a.flow == Flow::Seek(to)
    &&& a.core == b.core
    &&& forall|i: int| 0 <= i < cs.len() ==> g.copied_value(back, #[trigger] cs[i], b, a)
    &&& forall|x: u32| g.not_copied(cs, x) ==> #[trigger] a.ram[x] == b.ram[x]
}

} // verus!
