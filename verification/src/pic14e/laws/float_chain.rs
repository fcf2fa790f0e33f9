//! Steps that the float routines share: three-byte sums and differences, shifts
//! of three bytes, and the parts of normal operands.
use vstd::prelude::*;
use crate::emit::{at, f_op, goto_tmp, label_tmp, lit, movf, movlw, movwf, on_c, on_z, w_op, St};
use crate::line::{BitOp, LitOp, Op};
use crate::machine::{exec, group_exec, Flow, Machine};
use crate::meaning::{apart, flag};
use crate::pic14e::laws::float_int::{tmp, under_way};
use crate::pic14e::laws::ready;
use crate::pic14e::Gen;

verus! {

/// The number in the three bytes at `p`.
pub open spec fn three(m: Machine, p: u32) -> int {
    m.ram[p] + 0x100 * m.ram[at(p, 1)] + 0x1_0000 * m.ram[at(p, 2)]
}

/// Whether nothing outside the three bytes at `p` changed.
pub open spec fn kept3(b: Machine, a: Machine, p: u32) -> bool {
    forall|y: u32| y < p || y >= p + 3 ==> #[trigger] a.ram[y] == b.ram[y]
}

impl<'a> Gen<'a> {
    /// The byte at `s` and the carry added to the byte at `d`.
    pub open spec fn add_with(&self, st: St, s: u32, d: u32) -> St {
        st.emit(movf(s)).emit(on_c(BitOp::Btfsc)).emit(w_op(Op::Incfsz, s)).emit(f_op(Op::Addwf, d))
    }

    /// The byte at `s` and the borrow taken from the byte at `d`.
    pub open spec fn take_with(&self, st: St, s: u32, d: u32) -> St {
        st.emit(movf(s)).emit(on_c(BitOp::Btfss)).emit(w_op(Op::Incfsz, s)).emit(f_op(Op::Subwf, d))
    }

    proof fn lemma_add_with(&self, st: St, s: u32, d: u32, base: int, m: Machine)
        requires
            ready(st, base, m),
            s != d,
        ensures
            ({
                let b = exec(st.rows, base, m);
                let e = self.add_with(st, s, d);
                let a = exec(e.rows, base, m);
                &&& ready(e, base, m)
                &&& e.w is None
                &&& a.core == b.core
                &&& a.ram[d] + 256 * flag(a.c) == b.ram[d] + b.ram[s] + flag(b.c)
                &&& forall|y: u32| y != d ==> #[trigger] a.ram[y] == b.ram[y]
            }),
    {
        broadcast use group_exec;

    }

    proof fn lemma_take_with(&self, st: St, s: u32, d: u32, base: int, m: Machine)
        requires
            ready(st, base, m),
            s != d,
        ensures
            ({
                let b = exec(st.rows, base, m);
                let e = self.take_with(st, s, d);
                let a = exec(e.rows, base, m);
                &&& ready(e, base, m)
                &&& e.w is None
                &&& a.core == b.core
                &&& a.ram[d] + 256 * (flag(a.c) - 1) == b.ram[d] - b.ram[s] + (flag(b.c) - 1)
                &&& forall|y: u32| y != d ==> #[trigger] a.ram[y] == b.ram[y]
            }),
    {
        broadcast use group_exec;

    }

    /// The three bytes at `s` added to those at `d`.
    pub open spec fn add3(&self, st: St, s: u32, d: u32) -> St {
        self.add_with(
            self.add_with(st.emit(movf(s)).emit(f_op(Op::Addwf, d)), at(s, 1), at(d, 1)),
            at(s, 2),
            at(d, 2),
        )
    }

    /// The three bytes at `s` taken from those at `d`.
    pub open spec fn take3(&self, st: St, s: u32, d: u32) -> St {
        self.take_with(
            self.take_with(st.emit(movf(s)).emit(f_op(Op::Subwf, d)), at(s, 1), at(d, 1)),
            at(s, 2),
            at(d, 2),
        )
    }

    pub(crate) proof fn lemma_add3(&self, st: St, s: u32, d: u32, base: int, m: Machine)
        requires
            ready(st, base, m),
            s <= 0x1_FFFF,
            d <= 0x1_FFFF,
            apart(s, 3, d, 3),
        ensures
            ({
                let b = exec(st.rows, base, m);
                let e = self.add3(st, s, d);
                let a = exec(e.rows, base, m);
                &&& ready(e, base, m)
                &&& e.w is None
                &&& a.core == b.core
                &&& three(a, d) + 0x100_0000 * flag(a.c) == three(b, d) + three(b, s)
                &&& kept3(b, a, d)
            }),
    {
        let b = exec(st.rows, base, m);
        let s1 = st.emit(movf(s)).emit(f_op(Op::Addwf, d));
        let c1 = exec(s1.rows, base, m);
        assert(ready(s1, base, m) && c1.core == b.core && c1.ram[d] + 256 * flag(c1.c) == b.ram[d]
            + b.ram[s] && (forall|y: u32| y != d ==> #[trigger] c1.ram[y] == b.ram[y])) by {
            broadcast use group_exec;

        }
        let s2 = self.add_with(s1, at(s, 1), at(d, 1));
        self.lemma_add_with(s1, at(s, 1), at(d, 1), base, m);
        let c2 = exec(s2.rows, base, m);
        self.lemma_add_with(s2, at(s, 2), at(d, 2), base, m);
        let a = exec(self.add3(st, s, d).rows, base, m);
        assert(c2.ram[d] == c1.ram[d] && a.ram[d] == c1.ram[d] && a.ram[at(d, 1)] == c2.ram[at(d, 1)]);
        assert(c1.ram[at(s, 1)] == b.ram[at(s, 1)] && c2.ram[at(s, 2)] == b.ram[at(s, 2)]);
        assert(c1.ram[at(d, 1)] == b.ram[at(d, 1)] && c2.ram[at(d, 2)] == b.ram[at(d, 2)]);
    }

    pub(crate) proof fn lemma_take3(&self, st: St, s: u32, d: u32, base: int, m: Machine)
        requires
            ready(st, base, m),
            s <= 0x1_FFFF,
            d <= 0x1_FFFF,
            apart(s, 3, d, 3),
        ensures
            ({
                let b = exec(st.rows, base, m);
                let e = self.take3(st, s, d);
                let a = exec(e.rows, base, m);
                &&& ready(e, base, m)
                &&& e.w is None
                &&& a.core == b.core
                &&& three(a, d) + 0x100_0000 * (flag(a.c) - 1) == three(b, d) - three(b, s)
                &&& kept3(b, a, d)
            }),
    {
        let b = exec(st.rows, base, m);
        let s1 = st.emit(movf(s)).emit(f_op(Op::Subwf, d));
        let c1 = exec(s1.rows, base, m);
        assert(ready(s1, base, m) && c1.core == b.core && c1.ram[d] + 256 * (flag(c1.c) - 1)
            == b.ram[d] - b.ram[s] && (forall|y: u32| y != d ==> #[trigger] c1.ram[y] == b.ram[y])) by {
            broadcast use group_exec;

        }
        let s2 = self.take_with(s1, at(s, 1), at(d, 1));
        self.lemma_take_with(s1, at(s, 1), at(d, 1), base, m);
        let c2 = exec(s2.rows, base, m);
        self.lemma_take_with(s2, at(s, 2), at(d, 2), base, m);
        let a = exec(self.take3(st, s, d).rows, base, m);
        assert(c2.ram[d] == c1.ram[d] && a.ram[d] == c1.ram[d] && a.ram[at(d, 1)] == c2.ram[at(d, 1)]);
        assert(c1.ram[at(s, 1)] == b.ram[at(s, 1)] && c2.ram[at(s, 2)] == b.ram[at(s, 2)]);
        assert(c1.ram[at(d, 1)] == b.ram[at(d, 1)] && c2.ram[at(d, 2)] == b.ram[at(d, 2)]);
    }

    /// The carry rotated into the three bytes at `p` from below.
    pub open spec fn left3(&self, st: St, p: u32) -> St {
        st.emit(f_op(Op::Rlf, p)).emit(f_op(Op::Rlf, at(p, 1))).emit(f_op(Op::Rlf, at(p, 2)))
    }

    /// The carry rotated into the three bytes at `p` from above.
    pub open spec fn right3(&self, st: St, p: u32) -> St {
        st.emit(f_op(Op::Rrf, at(p, 2))).emit(f_op(Op::Rrf, at(p, 1))).emit(f_op(Op::Rrf, p))
    }

    pub(crate) proof fn lemma_left3(&self, st: St, p: u32, base: int, m: Machine)
        requires
            ready(st, base, m),
            p <= 0x1_FFFF,
        ensures
            ({
                let b = exec(st.rows, base, m);
                let e = self.left3(st, p);
                let a = exec(e.rows, base, m);
                &&& ready(e, base, m)
                &&& e.w is None
                &&& a.core == b.core
                &&& three(a, p) + 0x100_0000 * flag(a.c) == 2 * three(b, p) + flag(b.c)
                &&& kept3(b, a, p)
            }),
    {
        let b = exec(st.rows, base, m);
        let e = self.left3(st, p);
        let a = exec(e.rows, base, m);
        let (x, y, z) = (b.ram[p], b.ram[at(p, 1)], b.ram[at(p, 2)]);
        assert(ready(e, base, m) && a.core == b.core && a.ram[p] + 256 * flag(x >= 128) == 2 * x
            + flag(b.c) && a.ram[at(p, 1)] + 256 * flag(y >= 128) == 2 * y + flag(x >= 128) && a.ram[at(
            p,
            2,
        )] + 256 * flag(z >= 128) == 2 * z + flag(y >= 128) && a.c == (z >= 128) && kept3(b, a, p)) by {
            broadcast use group_exec;

        }
    }

    pub(crate) proof fn lemma_right3(&self, st: St, p: u32, base: int, m: Machine)
        requires
            ready(st, base, m),
            p <= 0x1_FFFF,
        ensures
            ({
                let b = exec(st.rows, base, m);
                let e = self.right3(st, p);
                let a = exec(e.rows, base, m);
                &&& ready(e, base, m)
                &&& e.w is None
                &&& a.core == b.core
                &&& 2 * three(a, p) + flag(a.c) == three(b, p) + 0x100_0000 * flag(b.c)
                &&& kept3(b, a, p)
            }),
    {
        let b = exec(st.rows, base, m);
        let e = self.right3(st, p);
        let a = exec(e.rows, base, m);
        let (x, y, z) = (b.ram[p] as int, b.ram[at(p, 1)] as int, b.ram[at(p, 2)] as int);
        assert(ready(e, base, m) && a.core == b.core && a.ram[at(p, 2)] == z / 2 + 128 * flag(b.c)
            && a.ram[at(p, 1)] == y / 2 + 128 * (z % 2) && a.ram[p] == x / 2 + 128 * (y % 2) && flag(
            a.c,
        ) == x % 2 && kept3(b, a, p)) by {
            broadcast use group_exec;

        }
    }

    /// The exponent at `exp` becomes one if the number at `p` has exponent zero
    /// and a fraction.
    pub open spec fn small_fix(&self, st: St, p: u32, exp: u32, t: u32, l_done: u32) -> St {
        st.emit(movf(exp)).emit(on_z(BitOp::Btfss)).emit(goto_tmp(l_done)).emit(movf(p)).emit(
            movwf(t),
        ).emit(movf(at(p, 1))).emit(w_op(Op::Iorwf, t)).emit(movwf(t)).emit(movf(at(p, 2))).emit(
            lit(LitOp::Andlw, 0x7F),
        ).emit(w_op(Op::Iorwf, t)).emit(on_z(BitOp::Btfsc)).emit(goto_tmp(l_done)).emit(
            movlw(0x01),
        ).emit(movwf(exp)).emit(label_tmp(l_done))
    }

    /// The rows that test the fraction.
    pub open spec fn small_rest(&self, st: St, p: u32, exp: u32, t: u32, l_done: u32) -> St {
        st.emit(movf(p)).emit(movwf(t)).emit(movf(at(p, 1))).emit(w_op(Op::Iorwf, t)).emit(
            movwf(t),
        ).emit(movf(at(p, 2))).emit(lit(LitOp::Andlw, 0x7F)).emit(w_op(Op::Iorwf, t)).emit(
            on_z(BitOp::Btfsc),
        ).emit(goto_tmp(l_done)).emit(movlw(0x01)).emit(movwf(exp))
    }

    proof fn lemma_small_rest_over(
        &self,
        st: St,
        p: u32,
        exp: u32,
        t: u32,
        l_done: u32,
        base: int,
        m: Machine,
    )
        requires
            0 <= base <= st.rows.len(),
            exec(st.rows, base, m).flow is Seek,
        ensures
            base <= self.small_rest(st, p, exp, t, l_done).rows.len(),
            exec(self.small_rest(st, p, exp, t, l_done).rows, base, m) == exec(st.rows, base, m),
    {
        broadcast use group_exec;

    }

    pub(crate) proof fn lemma_small_fix(
        &self,
        st: St,
        p: u32,
        exp: u32,
        t: u32,
        l: u32,
        i: u32,
        base: int,
        m: Machine,
    )
        requires
            under_way(st, base, m),
            l + i <= u32::MAX,
        ensures
            ({
                let b = exec(st.rows, base, m);
                let e = self.small_fix(st, p, exp, t, (l + i) as u32);
                let a = exec(e.rows, base, m);
                &&& base <= e.rows.len()
                &&& e.w is None
                &&& b.flow is Next && b.ram[exp] != 0 ==> a.flow is Next && a.core == b.core && a.ram
                    == b.ram
                &&& b.flow is Seek && b.flow != tmp(l, i) ==> a == b
            }),
    {
        let b = exec(st.rows, base, m);
        let l_done = (l + i) as u32;
        let s1 = st.emit(movf(exp)).emit(on_z(BitOp::Btfss)).emit(goto_tmp(l_done));
        let c1 = exec(s1.rows, base, m);
        assert(base <= s1.rows.len());
        assert(b.flow is Next && b.ram[exp] != 0 ==> c1.flow == tmp(l, i) && c1.core == b.core && c1.ram
            == b.ram) by {
            broadcast use group_exec;

        }
        assert(b.flow is Seek ==> c1 == b) by {
            broadcast use group_exec;

        }
        let s2 = self.small_rest(s1, p, exp, t, l_done);
        if c1.flow is Seek {
            self.lemma_small_rest_over(s1, p, exp, t, l_done, base, m);
        }
        let e = self.small_fix(st, p, exp, t, l_done);
        assert(e == s2.emit(label_tmp(l_done)));
        let a = exec(e.rows, base, m);
        assert(base <= e.rows.len() && e.w is None);
        assert(c1.flow is Seek ==> a == (if c1.flow == tmp(l, i) {
            Machine { flow: Flow::Next, ..c1 }
        } else {
            c1
        })) by {
            broadcast use group_exec;

        }
    }
}

} // verus!
