//! A copy whose length is known only when it runs.
use vstd::prelude::*;
use crate::emit::{
    at, clrf, f_op, goto_tmp, hi8, label_tmp, lo8, movf, movlw, movwf, on_c, on_z, w_op, St,
};
use crate::ir::{Pointer, Term, Val};
use crate::line::{BitOp, Line, Op, Reg};
use crate::machine::{exec, group_exec, group_exec_pointer, runs_to, settle, unlinear, Flow, Machine};
use crate::meaning::word;
use crate::pic14e::laws::float_int::{tmp, under_way};
use crate::pic14e::laws::float_order::lemma_masks;
use crate::pic14e::laws::memory::{fsr_of, points};
use crate::pic14e::laws::{lemma_movf, lemma_movlw, lemma_movwf, ready};
use crate::pic14e::pointer::{from_indf, fsr_high, offset_of, to_indf, Addr};
use crate::pic14e::span::base_for;
use crate::pic14e::{Gen, COPY_INDEX, HOLD};

verus! {

/// The byte that the pointer value `p` plus `j` leads to.
pub open spec fn cell(p: int, j: int) -> u32 {
    unlinear(p + j)
}

impl<'a> Gen<'a> {
    /// Whether a pointer starts at an object of its own and has no run-time terms.
    pub open spec fn is_fixed(&self, p: Pointer) -> bool {
        &&& p.terms@ == Seq::<Term>::empty()
        &&& !self.is_held(p)
        &&& self.home_of(p) is Some
        &&& self.span_of(p) is Some
        &&& base_for(self.cx.device, self.home_of(p)->0, self.span_of(p)->0) matches Ok(a) && a
            + p.k <= 0xFFFF
    }

    /// The value of such a pointer.
    pub open spec fn fixed_start(&self, p: Pointer) -> int {
        base_for(self.cx.device, self.home_of(p)->0, self.span_of(p)->0)->Ok_0 + p.k
    }

    /// Whether a copy of `n` bytes from `s` to `d` runs into neither itself nor the
    /// bytes that it counts with.
    pub open spec fn copy_is_clear(&self, s: int, d: int, n: int) -> bool {
        &&& forall|j: int| 0 <= j < n ==> self.off_count(#[trigger] cell(s, j))
        &&& forall|j: int| 0 <= j < n ==> self.off_count(#[trigger] cell(d, j))
        &&& forall|i: int, j: int|
            0 <= i < n && 0 <= j < n ==> #[trigger] cell(s, i) != #[trigger] cell(d, j)
        &&& forall|i: int, j: int|
            #![trigger cell(d, i), cell(d, j)]
            0 <= i < j < n ==> cell(d, i) != cell(d, j)
    }

    pub open spec fn off_count(&self, x: u32) -> bool {
        x != HOLD && x != COPY_INDEX && x != self.retval && x != at(self.retval, 1) && x != at(
            self.retval,
            2,
        )
    }

    /// How many bytes a copy has moved.
    pub open spec fn index_of(&self, m: Machine) -> int {
        m.ram[COPY_INDEX] + 256 * m.ram[at(self.retval, 2)]
    }

    proof fn lemma_copy_fsr(&self, st: St, v: Val, p: Pointer, base: int, m: Machine)
        requires
            ready(st, base, m),
            self.behind(v, p),
            self.is_fixed(p),
            self.fixed_start(p) + self.index_of(exec(st.rows, base, m)) <= 0xFFFF,
        ensures
            ({
                let b = exec(st.rows, base, m);
                let s = self.copy_fsr(st, v);
                let a = exec(s.rows, base, m);
                &&& ready(s, base, m)
                &&& s.next == st.next
                &&& points(b, a)
                &&& a.ram == b.ram
                &&& fsr_of(a) == self.fixed_start(p) + self.index_of(b)
            }),
    {
        let b = exec(st.rows, base, m);
        let q = base_for(self.cx.device, self.home_of(p)->0, self.span_of(p)->0)->Ok_0;
        let kk = offset_of(p.k, 0);
        assert(lo8(kk) == p.k) by {
            assert(kk <= 0xFF ==> (kk & 0xFF) as u8 == kk) by (bit_vector);
        }
        let s1 = st.emit(movlw(lo8(q))).emit(Line::Movwf(Reg::Fsr0L)).emit(movlw(hi8(q))).emit(
            Line::Movwf(Reg::Fsr0H),
        );
        self.lemma_fsr_set(st, q, base, m);
        let s2 = s1.emit(movlw(p.k));
        lemma_movlw(s1, p.k, base, m);
        let s3 = self.fsr_add(s2);
        self.lemma_fsr_add(s2, base, m);
        let s4 = s3.emit(movf(COPY_INDEX));
        lemma_movf(s3, COPY_INDEX, base, m);
        let s5 = self.fsr_add(s4);
        self.lemma_fsr_add(s4, base, m);
        let c5 = exec(s5.rows, base, m);
        let s6 = s5.emit(movf(at(self.retval, 2)));
        lemma_movf(s5, at(self.retval, 2), base, m);
        let c6 = exec(s6.rows, base, m);
        let s7 = s6.emit(fsr_high(Op::Addwf));
        let c7 = exec(s7.rows, base, m);
        assert(ready(s7, base, m) && points(c6, c7) && c7.ram == c6.ram && fsr_of(c7) == fsr_of(c6) + 256
            * c6.w) by {
            broadcast use group_exec_pointer;

        }
        self.lemma_copy_fsr_rows(st, v, p);
    }

    /// The rows that point FSR0.
    pub open spec fn fixed_fsr(&self, st: St, p: Pointer) -> St {
        let q = base_for(self.cx.device, self.home_of(p)->0, self.span_of(p)->0)->Ok_0;
        let s = st.emit(movlw(lo8(q))).emit(Line::Movwf(Reg::Fsr0L)).emit(movlw(hi8(q))).emit(
            Line::Movwf(Reg::Fsr0H),
        ).emit(movlw(lo8(offset_of(p.k, 0))));
        self.fsr_add(self.fsr_add(s).emit(movf(COPY_INDEX))).emit(movf(at(self.retval, 2))).emit(
            fsr_high(Op::Addwf),
        )
    }

    proof fn lemma_copy_fsr_rows(&self, st: St, v: Val, p: Pointer)
        requires
            self.behind(v, p),
            self.is_fixed(p),
        ensures
            self.copy_fsr(st, v) == self.fixed_fsr(st, p),
    {
        assert(offset_of(p.k, 0) <= 0xFF);
    }

    proof fn lemma_copy_fsr_over(&self, st: St, v: Val, p: Pointer, base: int, m: Machine)
        requires
            under_way(st, base, m),
            exec(st.rows, base, m).flow is Seek,
            self.behind(v, p),
            self.is_fixed(p),
        ensures
            under_way(self.copy_fsr(st, v), base, m),
            self.copy_fsr(st, v).next == st.next,
            exec(self.copy_fsr(st, v).rows, base, m) == exec(st.rows, base, m),
    {
        self.lemma_copy_fsr_rows(st, v, p);
        let s = self.fixed_fsr(st, p);
        assert(base <= s.rows.len() && exec(s.rows, base, m) == exec(st.rows, base, m)) by {
            broadcast use group_exec;

        }
    }

    /// One byte moved.
    pub open spec fn move_one(&self, st: St, dst: Val, src: Val) -> St {
        let st = self.copy_fsr(st, src).emit(from_indf()).emit(movwf(HOLD));
        self.copy_fsr(st, dst).emit(movf(HOLD)).emit(to_indf())
    }

    proof fn lemma_move_one(
        &self,
        st: St,
        dst: Val,
        src: Val,
        p: Pointer,
        q: Pointer,
        base: int,
        m: Machine,
    )
        requires
            ready(st, base, m),
            self.behind(dst, p),
            self.behind(src, q),
            self.is_fixed(p),
            self.is_fixed(q),
            ({
                let i = self.index_of(exec(st.rows, base, m));
                &&& self.off_count(cell(self.fixed_start(q), i))
                &&& self.fixed_start(q) + i <= 0xFFFF
                &&& self.fixed_start(p) + i <= 0xFFFF
            }),
            self.retval + 3 <= COPY_INDEX,
        ensures
            ({
                let b = exec(st.rows, base, m);
                let s = self.move_one(st, dst, src);
                let a = exec(s.rows, base, m);
                let i = self.index_of(b);
                let x = b.ram[cell(self.fixed_start(q), i)];
                &&& ready(s, base, m)
                &&& s.next == st.next
                &&& a.ram == b.ram.insert(HOLD, x).insert(cell(self.fixed_start(p), i), x)
            }),
    {
        let b = exec(st.rows, base, m);
        let s1 = self.copy_fsr(st, src);
        self.lemma_copy_fsr(st, src, q, base, m);
        let s2 = s1.emit(from_indf());
        self.lemma_finish_load(s1, Addr::Indirect, base, m);
        let c2 = exec(s2.rows, base, m);
        let s3 = s2.emit(movwf(HOLD));
        lemma_movwf(s2, HOLD, base, m);
        let c3 = exec(s3.rows, base, m);
        let s4 = self.copy_fsr(s3, dst);
        self.lemma_copy_fsr(s3, dst, p, base, m);
        let c4 = exec(s4.rows, base, m);
        let s5 = s4.emit(movf(HOLD));
        lemma_movf(s4, HOLD, base, m);
        self.lemma_finish_store(s5, Addr::Indirect, base, m);
    }

    proof fn lemma_move_one_over(
        &self,
        st: St,
        dst: Val,
        src: Val,
        p: Pointer,
        q: Pointer,
        base: int,
        m: Machine,
    )
        requires
            under_way(st, base, m),
            exec(st.rows, base, m).flow is Seek,
            self.behind(dst, p),
            self.behind(src, q),
            self.is_fixed(p),
            self.is_fixed(q),
        ensures
            under_way(self.move_one(st, dst, src), base, m),
            self.move_one(st, dst, src).next == st.next,
            exec(self.move_one(st, dst, src).rows, base, m) == exec(st.rows, base, m),
    {
        let b = exec(st.rows, base, m);
        let s1 = self.copy_fsr(st, src);
        self.lemma_copy_fsr_over(st, src, q, base, m);
        let s2 = s1.emit(from_indf()).emit(movwf(HOLD));
        assert(base <= s2.rows.len() && exec(s2.rows, base, m) == b) by {
            broadcast use group_exec;

        }
        let s3 = self.copy_fsr(s2, dst);
        self.lemma_copy_fsr_over(s2, dst, p, base, m);
        let s4 = s3.emit(movf(HOLD)).emit(to_indf());
        assert(base <= s4.rows.len() && exec(s4.rows, base, m) == b) by {
            broadcast use group_exec;

        }
    }

    /// The test for a count of zero.
    pub open spec fn count_test(&self, st: St, again: u32, done: u32) -> St {
        st.emit(label_tmp(again)).emit(movf(self.retval)).emit(
            w_op(Op::Iorwf, at(self.retval, 1)),
        ).emit(on_z(BitOp::Btfsc)).emit(goto_tmp(done))
    }

    proof fn lemma_count_test(&self, st: St, again: u32, done: u32, base: int, m: Machine)
        requires
            under_way(st, base, m),
            exec(st.rows, base, m).flow is Next || exec(st.rows, base, m).flow == tmp(again, 0),
        ensures
            ({
                let b = exec(st.rows, base, m);
                let s = self.count_test(st, again, done);
                let a = exec(s.rows, base, m);
                &&& under_way(s, base, m)
                &&& a.ram == b.ram
                &&& if word(b, self.retval, 2) == 0 {
                    a.flow == tmp(done, 0)
                } else {
                    ready(s, base, m)
                }
            }),
    {
        let b = exec(st.rows, base, m);
        let s = self.count_test(st, again, done);
        let a = exec(s.rows, base, m);
        lemma_masks();
        assert(base <= s.rows.len() && s.w is None && a.core == b.core && a.ram == b.ram && a.flow == (
        if b.ram[self.retval] == 0 && b.ram[at(self.retval, 1)] == 0 {
            tmp(done, 0)
        } else {
            Flow::Next
        })) by {
            broadcast use group_exec;

        }
    }

    /// The index one up, the count one down, and the way back.
    pub open spec fn count_step(&self, st: St, again: u32) -> St {
        st.emit(f_op(Op::Incf, COPY_INDEX)).emit(on_z(BitOp::Btfsc)).emit(
            f_op(Op::Incf, at(self.retval, 2)),
        ).emit(movlw(1)).emit(f_op(Op::Subwf, self.retval)).emit(on_c(BitOp::Btfss)).emit(f_op(Op::Subwf, at(self.retval, 1))).emit(goto_tmp(again))
    }

    proof fn lemma_count_step(&self, st: St, again: u32, base: int, m: Machine)
        requires
            under_way(st, base, m),
            exec(st.rows, base, m).flow is Next,
            self.retval + 3 <= COPY_INDEX,
            word(exec(st.rows, base, m), self.retval, 2) > 0,
        ensures
            ({
                let b = exec(st.rows, base, m);
                let s = self.count_step(st, again);
                let a = exec(s.rows, base, m);
                &&& under_way(s, base, m)
                &&& a.flow == tmp(again, 0)
                &&& self.index_of(a) == (self.index_of(b) + 1) % 0x1_0000
                &&& word(a, self.retval, 2) == word(b, self.retval, 2) - 1
                &&& forall|x: u32|
                    self.off_count(x) || x == HOLD ==> #[trigger] a.ram[x] == b.ram[x]
            }),
    {
        let b = exec(st.rows, base, m);
        let s = self.count_step(st, again);
        let a = exec(s.rows, base, m);
        let (r0, r1) = (self.retval, at(self.retval, 1));
        let (x, y) = (b.ram[r0], b.ram[r1]);
        let up = at(self.retval, 2);
        let s1 = st.emit(f_op(Op::Incf, COPY_INDEX)).emit(on_z(BitOp::Btfsc)).emit(
            f_op(Op::Incf, up),
        );
        let c1 = exec(s1.rows, base, m);
        let (i, u) = (b.ram[COPY_INDEX], b.ram[up]);
        assert(base <= s1.rows.len() && c1.core == b.core && c1.flow is Next && (if i < 255 {
            c1.ram == b.ram.insert(COPY_INDEX, (i + 1) as u8)
        } else {
            c1.ram == b.ram.insert(COPY_INDEX, 0).insert(up, ((u + 1) % 256) as u8)
        })) by {
            broadcast use group_exec;

        }
        assert(self.index_of(c1) == (self.index_of(b) + 1) % 0x1_0000);
        assert(c1.ram[r0] == x && c1.ram[r1] == y);
        assert(base <= s.rows.len());
        if x > 0 {
            assert(a.core == b.core && a.flow == tmp(again, 0) && a.ram == c1.ram.insert(
                r0,
                (x - 1) as u8,
            )) by {
                broadcast use group_exec;

            }
        } else {
            assert(y > 0);
            assert(a.core == b.core && a.flow == tmp(again, 0) && a.ram == c1.ram.insert(r0, 255).insert(
                r1,
                (y - 1) as u8,
            )) by {
                broadcast use group_exec;

            }
        }
    }

    /// The rows before the loop.
    pub open spec fn copy_head(&self, st: St, len: Val) -> St {
        let (s, la) = self.cx.val_step(st.bump().bump(), len);
        self.copy2(s, la, self.retval).emit(clrf(COPY_INDEX)).emit(clrf(at(self.retval, 2)))
    }

    proof fn lemma_copy_rows(&self, st: St, dst: Val, src: Val, len: Val)
        requires
            st.next <= u32::MAX - 4,
        ensures
            self.copy_loop(st, dst, src, len) == self.count_step(
                self.move_one(
                    self.count_test(
                        self.copy_head(st, len),
                        st.next,
                        (st.next + 1) as u32,
                    ),
                    dst,
                    src,
                ),
                st.next,
            ).emit(label_tmp((st.next + 1) as u32)),
    {
    }

    /// How far a copy has got: `k` of `n` bytes of `o` are moved.
    pub open spec fn copied_so_far(&self, m: Machine, o: Machine, s: int, d: int, n: int, k: int) -> bool {
        &&& m.core is Enhanced
        &&& 0 <= k <= n <= 0xFFFF
        &&& s + n <= 0x1_0000
        &&& d + n <= 0x1_0000
        &&& self.index_of(m) == k
        &&& word(m, self.retval, 2) == n - k
        &&& forall|j: int| 0 <= j < k ==> m.ram[#[trigger] cell(d, j)] == o.ram[cell(s, j)]
        &&& forall|j: int| 0 <= j < n ==> m.ram[#[trigger] cell(s, j)] == o.ram[cell(s, j)]
    }

    /// One pass over the rows of a copy, from its test on.
    #[verifier::rlimit(50)]
    proof fn lemma_copy_pass(
        &self,
        st: St,
        dst: Val,
        src: Val,
        p: Pointer,
        q: Pointer,
        again: u32,
        o: Machine,
        n: int,
        k: int,
        base: int,
        m: Machine,
    )
        requires
            under_way(st, base, m),
            exec(st.rows, base, m).flow is Next || exec(st.rows, base, m).flow == tmp(again, 0),
            again < u32::MAX,
            self.retval + 3 <= COPY_INDEX,
            self.behind(dst, p),
            self.behind(src, q),
            self.is_fixed(p),
            self.is_fixed(q),
            self.copy_is_clear(self.fixed_start(q), self.fixed_start(p), n),
            self.copied_so_far(
                exec(st.rows, base, m),
                o,
                self.fixed_start(q),
                self.fixed_start(p),
                n,
                k,
            ),
        ensures
            ({
                let done = (again + 1) as u32;
                let s = self.count_step(
                    self.move_one(self.count_test(st, again, done), dst, src),
                    again,
                ).emit(label_tmp(done));
                let a = exec(s.rows, base, m);
                let (f, t) = (self.fixed_start(q), self.fixed_start(p));
                if k == n {
                    a.flow is Next && self.copied_so_far(a, o, f, t, n, n)
                } else {
                    a.flow == tmp(again, 0) && self.copied_so_far(a, o, f, t, n, k + 1)
                }
            }),
    {
        let b = exec(st.rows, base, m);
        let done = (again + 1) as u32;
        let (f, t) = (self.fixed_start(q), self.fixed_start(p));
        let s1 = self.count_test(st, again, done);
        self.lemma_count_test(st, again, done, base, m);
        let c1 = exec(s1.rows, base, m);
        let s2 = self.move_one(s1, dst, src);
        let c2 = exec(s2.rows, base, m);
        let s3 = self.count_step(s2, again);
        let c3 = exec(s3.rows, base, m);
        let s4 = s3.emit(label_tmp(done));
        let a = exec(s4.rows, base, m);
        if k == n {
            self.lemma_move_one_over(s1, dst, src, p, q, base, m);
            assert(base <= s3.rows.len() && c3 == c1) by {
                broadcast use group_exec;

            }
            assert(a.core == c3.core && a.flow is Next && a.ram == c3.ram) by {
                broadcast use group_exec;

            }
        } else {
            assert(self.off_count(cell(f, k)) && self.off_count(cell(t, k)));
            self.lemma_move_one(s1, dst, src, p, q, base, m);
            self.lemma_count_step(s2, again, base, m);
            assert(a == c3) by {
                broadcast use group_exec;

            }
            assert forall|j: int| 0 <= j < n implies a.ram[#[trigger] cell(f, j)] == o.ram[cell(f, j)] by {
                assert(self.off_count(cell(f, j)));
                assert(cell(f, j) != cell(t, k));
            }
            assert forall|j: int| 0 <= j < k + 1 implies a.ram[#[trigger] cell(t, j)] == o.ram[cell(f, j)] by {
                assert(self.off_count(cell(t, j)));
                if j < k {
                    assert(cell(t, j) != cell(t, k));
                }
            }
        }
    }

    proof fn lemma_copy_passes(
        &self,
        st: St,
        dst: Val,
        src: Val,
        len: Val,
        p: Pointer,
        q: Pointer,
        o: Machine,
        n: int,
        k: int,
        m: Machine,
    )
        requires
            st.next <= u32::MAX - 4,
            m.flow == tmp(st.next, 0),
            self.retval + 3 <= COPY_INDEX,
            self.behind(dst, p),
            self.behind(src, q),
            self.is_fixed(p),
            self.is_fixed(q),
            self.copy_is_clear(self.fixed_start(q), self.fixed_start(p), n),
            self.copied_so_far(m, o, self.fixed_start(q), self.fixed_start(p), n, k),
        ensures
            ({
                let a = settle(
                    self.copy_loop(st, dst, src, len).rows,
                    st.rows.len() as int,
                    m,
                    (n - k + 1) as nat,
                );
                a.flow is Next && self.copied_so_far(
                    a,
                    o,
                    self.fixed_start(q),
                    self.fixed_start(p),
                    n,
                    n,
                )
            }),
        decreases n - k,
    {
        let base = st.rows.len() as int;
        let s0 = self.copy_head(st, len);
        assert(base <= s0.rows.len() && exec(s0.rows, base, m) == m) by {
            broadcast use group_exec;

        }
        self.lemma_copy_rows(st, dst, src, len);
        self.lemma_copy_pass(s0, dst, src, p, q, st.next, o, n, k, base, m);
        if k < n {
            let a = exec(self.copy_loop(st, dst, src, len).rows, base, m);
            self.lemma_copy_passes(st, dst, src, len, p, q, o, n, k + 1, a);
        }
    }

    /// A copy of as many bytes as the two bytes of a register say leaves every
    /// byte behind the source in its place behind the destination. Both objects
    /// lie in the 64 K that a pointer reaches.
    pub proof fn law_run_time_copy_copies(
        &self,
        st: St,
        dst: Val,
        src: Val,
        len: Val,
        p: Pointer,
        q: Pointer,
        m: Machine,
    )
        requires
            st.next <= u32::MAX - 4,
            m.flow is Next,
            m.core is Enhanced,
            self.retval + 3 <= COPY_INDEX,
            self.behind(dst, p),
            self.behind(src, q),
            self.is_fixed(p),
            self.is_fixed(q),
            self.slot_of(len) matches Some(a) && a <= 0xFFFF && self.off_count(a) && self.off_count(
                at(a, 1),
            ) && self.fixed_start(q) + word(m, a, 2) <= 0x1_0000 && self.fixed_start(p) + word(
                m,
                a,
                2,
            ) <= 0x1_0000 && self.copy_is_clear(
                self.fixed_start(q),
                self.fixed_start(p),
                word(m, a, 2),
            ),
        ensures
            exists|z: Machine| #[trigger]
                runs_to(self.copy_loop(st, dst, src, len).rows, st.rows.len() as int, m, z)
                    && z.flow is Next && (forall|j: int|
                    0 <= j < word(m, self.slot_of(len)->0, 2) ==> z.ram[#[trigger] cell(
                        self.fixed_start(p),
                        j,
                    )] == m.ram[cell(self.fixed_start(q), j)]),
    {
        let base = st.rows.len() as int;
        let la = self.slot_of(len)->0;
        let n = word(m, la, 2);
        let rows = self.copy_loop(st, dst, src, len).rows;
        let s0 = self.copy_head(st, len);
        let c = exec(s0.rows, base, m);
        let r0 = self.retval;
        assert(base <= s0.rows.len() && c.core == m.core && c.flow is Next && c.ram == m.ram.insert(
            r0,
            m.ram[la],
        ).insert(at(r0, 1), m.ram[at(la, 1)]).insert(COPY_INDEX, 0).insert(at(r0, 2), 0)) by {
            broadcast use group_exec;

        }
        self.lemma_copy_rows(st, dst, src, len);
        let (f, t) = (self.fixed_start(q), self.fixed_start(p));
        assert forall|j: int| 0 <= j < n implies c.ram[#[trigger] cell(f, j)] == m.ram[cell(f, j)] by {
            assert(self.off_count(cell(f, j)));
        }
        assert(self.copied_so_far(c, m, f, t, n, 0));
        self.lemma_copy_pass(s0, dst, src, p, q, st.next, m, n, 0, base, m);
        let a = exec(rows, base, m);
        if n == 0 {
            assert(settle(rows, base, m, 1) == a);
            assert(runs_to(rows, base, m, a));
        } else {
            self.lemma_copy_passes(st, dst, src, len, p, q, m, n, 1, a);
            let z = settle(rows, base, a, n as nat);
            assert(settle(rows, base, m, (n + 1) as nat) == z);
            assert(runs_to(rows, base, m, z));
        }
    }
}

} // verus!
