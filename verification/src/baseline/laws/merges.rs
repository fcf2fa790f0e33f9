//! What a phi holds behind an edge, whatever its operand is: a number, a register, or the
//! address of something.
use vstd::prelude::*;
use crate::baseline::Gen;
use crate::body::{move_of, moves_from, phi_copies, run_copies};
use crate::cfg::{
    copy_order, law_copy_order_is_proper, lemma_every_copy, proper_order, Move, PhiCopy,
};
use crate::emit::St;
use crate::ir::Val;
use crate::machine::{exec, Machine};
use crate::meaning::{apart, passes, word};

verus! {

impl<'a> Gen<'a> {
    /// Whether two states differ at most in `n` bytes at `d` and in the fixed bytes.
    pub open spec fn same_but(&self, b: Machine, a: Machine, d: u32, n: int) -> bool {
        &&& a.links == b.links
        &&& forall|x: u32|
            (x < d || x >= d + n) && !self.is_fixed(x) ==> #[trigger] a.ram[x] == b.ram[x]
    }

    /// Whether the value of an operand does not depend on the `k` bytes at `d`.
    pub open spec fn unmoved(&self, v: Val, n: u8, d: u32, k: int) -> bool {
        forall|b: Machine, a: Machine| #[trigger]
            self.same_but(b, a, d, k) ==> self.value(a, v, n) == self.value(b, v, n)
                && self.has_bytes(a, v, n) == self.has_bytes(b, v, n)
    }

    /// Whether an operand can be copied to the slot of its phi.
    pub open spec fn copyable(&self, c: PhiCopy) -> bool {
        let n = c.ty.bytes();
        &&& self.cx.slot(self.cx.fname(), c.dst@) is Some
        &&& *c.val matches Val::Reg(r) ==> self.cx.pointer(r@) is Some || self.cx.slot(
            self.cx.fname(),
            r@,
        ) is Some
        &&& self.stays(*c.val, n, self.copy_dst(c))
        &&& forall|x: u32|
            self.copy_dst(c) <= x < self.copy_dst(c) + n ==> !#[trigger] self.is_fixed(x)
    }

    /// Whether no copy writes what another writes or reads.
    pub open spec fn copies_free(&self, cs: Seq<PhiCopy>) -> bool {
        &&& forall|i: int| 0 <= i < cs.len() ==> self.copyable(#[trigger] cs[i])
        &&& forall|i: int, j: int|
            0 <= i < cs.len() && 0 <= j < cs.len() && i != j ==> {
                let d = self.copy_dst(#[trigger] cs[i]);
                let n = cs[i].ty.bytes() as int;
                &&& apart(self.copy_dst(#[trigger] cs[j]), cs[j].ty.bytes() as int, d, n)
                &&& self.unmoved(*cs[j].val, cs[j].ty.bytes(), d, n)
            }
    }

    /// What copies write, and the slots that they read whole.
    pub open spec fn any_moves(&self, cs: Seq<PhiCopy>) -> Seq<Move> {
        cs.map_values(|c: PhiCopy| move_of(&self.cx, St::start(0), c).1)
    }

    proof fn lemma_any_moves(&self, st: St, cs: Seq<PhiCopy>, i: int)
        requires
            self.copies_free(cs),
            0 <= i <= cs.len(),
        ensures
            moves_from(&self.cx, st, cs, self.any_moves(cs).take(i), i) == (
                st,
                self.any_moves(cs),
            ),
        decreases cs.len() - i,
    {
        let ms = self.any_moves(cs);
        if i < cs.len() {
            assert(self.copyable(cs[i]));
            let m = move_of(&self.cx, st, cs[i]);
            assert(m == (st, ms[i]));
            assert(ms.take(i).push(m.1) =~= ms.take(i + 1));
            self.lemma_any_moves(st, cs, i + 1);
        } else {
            assert(ms.take(i) =~= ms);
        }
    }

    /// Whether a phi holds what its operand was.
    pub open spec fn received(&self, c: PhiCopy, b: Machine, a: Machine) -> bool {
        word(a, self.copy_dst(c), c.ty.bytes()) == self.value(b, *c.val, c.ty.bytes())
    }

    proof fn lemma_received(&self, c: PhiCopy, b: Machine, x: Machine, a: Machine, d: u32, n: int)
        requires
            self.received(c, b, x),
            self.copyable(c),
            self.same_but(x, a, d, n),
            apart(self.copy_dst(c), c.ty.bytes() as int, d, n),
        ensures
            self.received(c, b, a),
    {
        let z = self.copy_dst(c);
        assert(word(a, z, c.ty.bytes()) == word(x, z, c.ty.bytes()));
    }

    proof fn lemma_any_run(
        &self,
        st: St,
        cs: Seq<PhiCopy>,
        back: bool,
        order: Seq<usize>,
        k: int,
        b: Machine,
        base: int,
        m: Machine,
    )
        requires
            self.at_row(st, base, m),
            st.err is None,
            self.copies_free(cs),
            proper_order(self.any_moves(cs), back, order),
            0 <= k <= order.len(),
            forall|j: int|
                0 <= j < k ==> self.received(
                    cs[#[trigger] order[j] as int],
                    b,
                    exec(st.rows, base, m),
                ),
            forall|j: int|
                k <= j < order.len() ==> self.value(
                    exec(st.rows, base, m),
                    *cs[#[trigger] order[j] as int].val,
                    cs[order[j] as int].ty.bytes(),
                ) == self.value(b, *cs[order[j] as int].val, cs[order[j] as int].ty.bytes())
                    && self.has_bytes(
                    exec(st.rows, base, m),
                    *cs[order[j] as int].val,
                    cs[order[j] as int].ty.bytes(),
                ),
        ensures
            ({
                let s = run_copies(self, st, cs, self.any_moves(cs), order, k);
                let c = exec(st.rows, base, m);
                let a = exec(s.rows, base, m);
                &&& self.at_row(s, base, m)
                &&& s.err is None
                &&& passes(c, a)
                &&& forall|j: int|
                    0 <= j < order.len() ==> self.received(cs[#[trigger] order[j] as int], b, a)
                &&& forall|x: u32|
                    self.not_copied(cs, x) && !self.is_fixed(x) ==> #[trigger] a.ram[x] == c.ram[x]
            }),
        decreases order.len() - k,
    {
        let ms = self.any_moves(cs);
        if k < order.len() {
            let i = order[k] as int;
            assert(self.copyable(cs[i]));
            let c = exec(st.rows, base, m);
            let n = cs[i].ty.bytes();
            let d = self.copy_dst(cs[i]);
            assert(ms[i].dst == d);
            self.lemma_value_moved(st, *cs[i].val, n, d, base, m);
            let s1 = self.move_val(st, *cs[i].val, cs[i].ty, d);
            let a = exec(s1.rows, base, m);
            assert(self.same_but(c, a, d, n as int));
            assert forall|j: int| 0 <= j < k + 1 implies self.received(
                cs[#[trigger] order[j] as int],
                b,
                a,
            ) by {
                if j < k {
                    assert(order[j] != order[k]);
                    let o = order[j] as int;
                    assert(apart(self.copy_dst(cs[o]), cs[o].ty.bytes() as int, d, n as int));
                    assert(self.copyable(cs[o]));
                    self.lemma_received(cs[o], b, c, a, d, n as int);
                }
            }
            assert forall|j: int| k + 1 <= j < order.len() implies self.value(
                a,
                *cs[#[trigger] order[j] as int].val,
                cs[order[j] as int].ty.bytes(),
            ) == self.value(b, *cs[order[j] as int].val, cs[order[j] as int].ty.bytes())
                && self.has_bytes(
                a,
                *cs[order[j] as int].val,
                cs[order[j] as int].ty.bytes(),
            ) by {
                assert(order[j] != order[k]);
                let o = order[j] as int;
                assert(self.unmoved(*cs[o].val, cs[o].ty.bytes(), d, n as int));
            }
            self.lemma_any_run(s1, cs, back, order, k + 1, b, base, m);
            let z = exec(run_copies(self, st, cs, ms, order, k).rows, base, m);
            assert forall|x: u32| self.not_copied(cs, x) && !self.is_fixed(x) implies #[trigger] z.ram[x]
                == c.ram[x] by {
                assert(x < self.copy_dst(cs[i]) || x >= self.copy_dst(cs[i]) + n);
                assert(a.ram[x] == c.ram[x]);
            }
        }
    }

    /// Where no phi of a block is an operand of another, each of them holds behind the
    /// edge what its operand was before it, be that a number, a register, the address of a
    /// global or of a function, or what a folded pointer points to; and nothing else has
    /// changed but the fixed bytes.
    pub proof fn law_phis_take_any_value(
        &self,
        st: St,
        cs: Seq<PhiCopy>,
        back: bool,
        base: int,
        m: Machine,
    )
        requires
            self.at_row(st, base, m),
            st.err is None,
            self.copies_free(cs),
            forall|i: int|
                0 <= i < cs.len() ==> self.has_bytes(
                    exec(st.rows, base, m),
                    *(#[trigger] cs[i]).val,
                    cs[i].ty.bytes(),
                ),
            cs.len() <= usize::MAX,
            copy_order(self.any_moves(cs), back) is Some,
        ensures
            ({
                let s = phi_copies(self, &self.cx, st, cs, back);
                let b = exec(st.rows, base, m);
                let a = exec(s.rows, base, m);
                &&& self.at_row(s, base, m)
                &&& s.err is None
                &&& passes(b, a)
                &&& forall|i: int| 0 <= i < cs.len() ==> self.received(#[trigger] cs[i], b, a)
                &&& forall|x: u32|
                    self.not_copied(cs, x) && !self.is_fixed(x) ==> #[trigger] a.ram[x] == b.ram[x]
            }),
    {
        reveal(phi_copies);
        let ms = self.any_moves(cs);
        assert(ms.take(0) =~= Seq::<Move>::empty());
        self.lemma_any_moves(st, cs, 0);
        law_copy_order_is_proper(ms, back);
        let order = copy_order(ms, back)->0;
        let b = exec(st.rows, base, m);
        self.lemma_any_run(st, cs, back, order, 0, b, base, m);
        let a = exec(phi_copies(self, &self.cx, st, cs, back).rows, base, m);
        assert forall|i: int| 0 <= i < cs.len() implies self.received(#[trigger] cs[i], b, a) by {
            lemma_every_copy(ms, back, order, i);
            let j = choose|j: int| 0 <= j < order.len() && order[j] == i as usize;
            assert(self.received(cs[order[j] as int], b, a));
        }
    }
}

} // verus!
