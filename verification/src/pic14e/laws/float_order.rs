//! The comparison routine orders single-precision numbers.
use vstd::arithmetic::div_mod::lemma_fundamental_div_mod_converse;
use vstd::prelude::*;
use crate::emit::{
    at, goto_tmp, label_at, label_tmp, lit, movf, movwf, on_c, on_z, ram_bit, w_op, St,
};
use crate::line::{BitOp, LitOp, Op, Sym};
use crate::machine::{exec, group_exec, step, Flow, Machine};
use crate::meaning::{apart, passed_over, seeking, word};
use crate::pic14e::laws::ready;
use crate::pic14e::Gen;

verus! {

/// The sign of the number that four bytes write.
pub open spec fn negative(x: int) -> bool {
    x >= 0x8000_0000
}

/// Its biased exponent.
pub open spec fn exponent(x: int) -> int {
    x / 0x80_0000 % 256
}

/// Its 23 bits of fraction.
pub open spec fn fraction(x: int) -> int {
    x % 0x80_0000
}

pub open spec fn is_nan(x: int) -> bool {
    exponent(x) == 255 && fraction(x) != 0
}

/// The number without its sign, which orders as the magnitudes do.
pub open spec fn unsigned(x: int) -> int {
    x % 0x8000_0000
}

/// What orders as the numbers do; both zeros have it zero.
pub open spec fn rank(x: int) -> int {
    if negative(x) {
        -unsigned(x)
    } else {
        unsigned(x)
    }
}

/// How two numbers compare: 0 equal, 1 less, 2 greater, 3 unordered. Numbers
/// with exponent zero count as zero among themselves.
pub open spec fn float_order(x: int, y: int) -> int {
    if is_nan(x) || is_nan(y) {
        3
    } else if exponent(x) == 0 && exponent(y) == 0 || rank(x) == rank(y) {
        0
    } else if rank(x) < rank(y) {
        1
    } else {
        2
    }
}

/// What the masks and the bitwise tests of the float routines say.
pub(crate) proof fn lemma_masks()
    ensures
        forall|x: u8| #[trigger] (x & 0x7Fu8) == x % 128,
        forall|x: u8| #[trigger] (x & 0x80u8) == (if x >= 128 {
            128u8
        } else {
            0u8
        }),
        forall|x: u8, y: u8| #[trigger] (x | y) == 0 <==> x == 0 && y == 0,
        forall|x: u8, y: u8| #[trigger] (x ^ y) == 0 <==> x == y,
        forall|x: u8, y: u8| (#[trigger] (x ^ y) & 0x80u8) == 0 <==> (x >= 128) == (y >= 128),
{
    assert(forall|x: u8| #[trigger] (x & 0x7Fu8) == x % 128) by (bit_vector);
    assert(forall|x: u8| #[trigger] (x & 0x80u8) == (if x >= 128 {
        128u8
    } else {
        0u8
    })) by (bit_vector);
    assert(forall|x: u8, y: u8| #[trigger] (x | y) == 0 <==> x == 0 && y == 0) by (bit_vector);
    assert(forall|x: u8, y: u8|
        (#[trigger] (x ^ y) == 0 <==> x == y) && ((x ^ y) & 0x80u8 == 0 <==> (x >= 128) == (y
            >= 128))) by (bit_vector);
}

/// The parts of a number, by its bytes.
pub(crate) proof fn lemma_parts(m: Machine, p: u32)
    ensures
        ({
            let x = word(m, p, 4);
            let (b2, b3) = (m.ram[at(p, 2)], m.ram[at(p, 3)]);
            &&& negative(x) == (b3 >= 128)
            &&& exponent(x) == 2 * (b3 % 128) + b2 / 128
            &&& fraction(x) == m.ram[p] + 0x100 * m.ram[at(p, 1)] + 0x1_0000 * (b2 % 128)
            &&& unsigned(x) == m.ram[p] + 0x100 * m.ram[at(p, 1)] + 0x1_0000 * b2 + 0x100_0000 * (b3
                % 128)
        }),
{
    let x = word(m, p, 4);
    let (b2, b3) = (m.ram[at(p, 2)] as int, m.ram[at(p, 3)] as int);
    let f = m.ram[p] + 0x100 * m.ram[at(p, 1)] + 0x1_0000 * (b2 % 128);
    let e = 2 * (b3 % 128) + b2 / 128;
    let n = b3 / 128;
    assert(x == 0x80_0000 * (e + 256 * n) + f);
    lemma_fundamental_div_mod_converse(x, 0x80_0000, e + 256 * n, f);
    lemma_fundamental_div_mod_converse(e + 256 * n, 256, n, e);
    lemma_fundamental_div_mod_converse(x, 0x8000_0000, n, 0x80_0000 * e + f);
}

/// Four bytes write one number each.
pub(crate) proof fn lemma_same_bytes(a: Machine, p: u32, b: Machine, q: u32)
    ensures
        word(a, p, 4) == word(b, q, 4) <==> a.ram[p] == b.ram[q] && a.ram[at(p, 1)] == b.ram[at(q, 1)]
            && a.ram[at(p, 2)] == b.ram[at(q, 2)] && a.ram[at(p, 3)] == b.ram[at(q, 3)],
{
}

impl<'a> Gen<'a> {
    /// The jump to `l_nan` if the number at `p` is none.
    pub open spec fn nan_test(&self, st: St, p: u32, l_done: u32, l_nan: u32) -> St {
        st.emit(movf(at(p, 3))).emit(lit(LitOp::Andlw, 0x7F)).emit(lit(LitOp::Sublw, 0x7F)).emit(
            on_z(BitOp::Btfss),
        ).emit(goto_tmp(l_done)).emit(ram_bit(BitOp::Btfss, at(p, 2), 7)).emit(goto_tmp(l_done))
            .emit(movf(at(p, 2))).emit(lit(LitOp::Andlw, 0x7F)).emit(w_op(Op::Iorwf, at(p, 1)))
            .emit(w_op(Op::Iorwf, p)).emit(on_z(BitOp::Btfss)).emit(goto_tmp(l_nan)).emit(
            label_tmp(l_done),
        )
    }

    proof fn lemma_nan_test(&self, st: St, p: u32, l_done: u32, l_nan: u32, base: int, m: Machine)
        requires
            0 <= base <= st.rows.len(),
            exec(st.rows, base, m).core is Enhanced,
            l_done != l_nan,
        ensures
            ({
                let b = exec(st.rows, base, m);
                let s = self.nan_test(st, p, l_done, l_nan);
                let a = exec(s.rows, base, m);
                &&& base <= s.rows.len()
                &&& b.flow is Next ==> a.core == b.core && a.ram == b.ram && a.flow == (if is_nan(
                    word(b, p, 4),
                ) {
                    Flow::Seek(Sym::Tmp(l_nan))
                } else {
                    Flow::Next
                })
                &&& b.flow is Seek && b.flow != Flow::Seek(Sym::Tmp(l_done)) ==> a == b
            }),
    {
        broadcast use group_exec;

        lemma_masks();
        lemma_parts(exec(st.rows, base, m), p);
    }

    #[verifier::rlimit(50)]
    proof fn lemma_order_zeros(&self, st: St, pa: u32, pb: u32, l: u32, base: int, m: Machine)
        requires
            0 <= base <= st.rows.len(),
            exec(st.rows, base, m).core is Enhanced,
            l <= u32::MAX - 9,
        ensures
            ({
                let b = exec(st.rows, base, m);
                let s = self.orderf_zeros(st, pa, pb, l);
                let a = exec(s.rows, base, m);
                let (x, y) = (word(b, pa, 4), word(b, pb, 4));
                &&& base <= s.rows.len()
                &&& b.flow is Next ==> a.core == b.core && a.ram == b.ram && a.flow == (if exponent(
                    x,
                ) == 0 && exponent(y) == 0 {
                    Flow::Seek(Sym::Tmp((l + 4) as u32))
                } else if negative(x) != negative(y) {
                    Flow::Seek(Sym::Tmp((l + 5) as u32))
                } else {
                    Flow::Next
                })
                &&& b.flow is Seek && b.flow != Flow::Seek(Sym::Tmp((l + 3) as u32)) ==> a == b
            }),
    {
        broadcast use group_exec;

        lemma_masks();
        lemma_parts(exec(st.rows, base, m), pa);
        lemma_parts(exec(st.rows, base, m), pb);
    }

    /// Both numbers without their signs, the sign set aside in the byte at `s`.
    pub open spec fn bare(&self, st: St, pa: u32, pb: u32, s: u32) -> St {
        st.emit(movf(at(pa, 3))).emit(lit(LitOp::Andlw, 0x80)).emit(movwf(s)).emit(
            ram_bit(BitOp::Bcf, at(pa, 3), 7),
        ).emit(ram_bit(BitOp::Bcf, at(pb, 3), 7))
    }

    /// The byte at `t` becomes zero if the numbers are the same.
    pub open spec fn differ(&self, st: St, pa: u32, pb: u32, t: u32) -> St {
        st.emit(movf(pa)).emit(w_op(Op::Xorwf, pb)).emit(movwf(t)).emit(movf(at(pa, 1))).emit(
            w_op(Op::Xorwf, at(pb, 1)),
        ).emit(w_op(Op::Iorwf, t)).emit(movwf(t)).emit(movf(at(pa, 2))).emit(
            w_op(Op::Xorwf, at(pb, 2)),
        ).emit(w_op(Op::Iorwf, t)).emit(movwf(t)).emit(movf(at(pa, 3))).emit(
            w_op(Op::Xorwf, at(pb, 3)),
        ).emit(w_op(Op::Iorwf, t)).emit(movwf(t))
    }

    /// C becomes whether the number at `pa` is not the smaller one.
    pub open spec fn borrow(&self, st: St, pa: u32, pb: u32) -> St {
        st.emit(movf(pb)).emit(w_op(Op::Subwf, pa)).emit(movf(at(pb, 1))).emit(on_c(BitOp::Btfss))
            .emit(w_op(Op::Incfsz, at(pb, 1))).emit(w_op(Op::Subwf, at(pa, 1))).emit(
            movf(at(pb, 2)),
        ).emit(on_c(BitOp::Btfss)).emit(w_op(Op::Incfsz, at(pb, 2))).emit(
            w_op(Op::Subwf, at(pa, 2)),
        ).emit(movf(at(pb, 3))).emit(on_c(BitOp::Btfss)).emit(w_op(Op::Incfsz, at(pb, 3))).emit(
            w_op(Op::Subwf, at(pa, 3)),
        )
    }

    /// The jump that the comparison asks for.
    pub open spec fn verdict(&self, st: St, t: u32, s: u32, l: u32) -> St {
        let l_ret0 = label_at(l, 4);
        let l_ret1 = label_at(l, 6);
        let l_ret2 = label_at(l, 7);
        let l_mag_lt = label_at(l, 8);
        st.emit(movf(t)).emit(on_z(BitOp::Btfsc)).emit(goto_tmp(l_ret0)).emit(on_c(BitOp::Btfss))
            .emit(goto_tmp(l_mag_lt)).emit(ram_bit(BitOp::Btfss, s, 7)).emit(goto_tmp(l_ret2))
            .emit(goto_tmp(l_ret1)).emit(label_tmp(l_mag_lt)).emit(ram_bit(BitOp::Btfss, s, 7))
            .emit(goto_tmp(l_ret1)).emit(goto_tmp(l_ret2))
    }

    proof fn lemma_bare(&self, st: St, pa: u32, pb: u32, s: u32, base: int, m: Machine)
        requires
            ready(st, base, m),
            order_slots(pa, pb, s),
        ensures
            ({
                let b = exec(st.rows, base, m);
                let t = self.bare(st, pa, pb, s);
                let a = exec(t.rows, base, m);
                &&& ready(t, base, m)
                &&& a.core == b.core
                &&& word(a, pa, 4) == unsigned(word(b, pa, 4))
                &&& word(a, pb, 4) == unsigned(word(b, pb, 4))
                &&& (a.ram[s] >= 128) == negative(word(b, pa, 4))
            }),
    {
        let b = exec(st.rows, base, m);
        let t = self.bare(st, pa, pb, s);
        let a = exec(t.rows, base, m);
        let (x, y) = (b.ram[at(pa, 3)], b.ram[at(pb, 3)]);
        lemma_masks();
        assert(ready(t, base, m) && a.core == b.core && a.ram == b.ram.insert(s, x & 0x80).insert(
            at(pa, 3),
            (x % 128) as u8,
        ).insert(at(pb, 3), (y % 128) as u8)) by {
            broadcast use group_exec;

        }
        lemma_parts(b, pa);
        lemma_parts(b, pb);
    }

    proof fn lemma_differ(&self, st: St, pa: u32, pb: u32, t: u32, base: int, m: Machine)
        requires
            ready(st, base, m),
            order_slots(pa, pb, t),
        ensures
            ({
                let b = exec(st.rows, base, m);
                let s = self.differ(st, pa, pb, t);
                let a = exec(s.rows, base, m);
                &&& ready(s, base, m)
                &&& a.core == b.core
                &&& forall|x: u32| x != t ==> #[trigger] a.ram[x] == b.ram[x]
                &&& (a.ram[t] == 0) == (word(b, pa, 4) == word(b, pb, 4))
            }),
    {
        let b = exec(st.rows, base, m);
        let s = self.differ(st, pa, pb, t);
        let a = exec(s.rows, base, m);
        let d0 = b.ram[pb] ^ b.ram[pa];
        let d1 = b.ram[at(pb, 1)] ^ b.ram[at(pa, 1)];
        let d2 = b.ram[at(pb, 2)] ^ b.ram[at(pa, 2)];
        let d3 = b.ram[at(pb, 3)] ^ b.ram[at(pa, 3)];
        assert(ready(s, base, m) && a.core == b.core && (forall|x: u32|
            x != t ==> #[trigger] a.ram[x] == b.ram[x]) && a.ram[t] == (((d0 | d1) | d2) | d3)) by {
            broadcast use group_exec;

        }
        lemma_masks();
        lemma_same_bytes(b, pa, b, pb);
    }

    proof fn lemma_borrow(&self, st: St, pa: u32, pb: u32, base: int, m: Machine)
        requires
            ready(st, base, m),
        ensures
            ({
                let b = exec(st.rows, base, m);
                let s = self.borrow(st, pa, pb);
                let a = exec(s.rows, base, m);
                &&& ready(s, base, m)
                &&& a.core == b.core
                &&& a.ram == b.ram
                &&& a.c == (word(b, pa, 4) >= word(b, pb, 4))
            }),
    {
        broadcast use group_exec;

    }

    proof fn lemma_verdict(&self, st: St, t: u32, s: u32, l: u32, base: int, m: Machine)
        requires
            ready(st, base, m),
            l <= u32::MAX - 9,
        ensures
            ({
                let b = exec(st.rows, base, m);
                let e = self.verdict(st, t, s, l);
                let a = exec(e.rows, base, m);
                &&& base <= e.rows.len()
                &&& a.core == b.core
                &&& a.ram == b.ram
                &&& a.flow == Flow::Seek(Sym::Tmp((if b.ram[t] == 0 {
                    l + 4
                } else if b.c == (b.ram[s] >= 128) {
                    l + 6
                } else {
                    l + 7
                }) as u32))
            }),
    {
        broadcast use group_exec;

    }

    #[verifier::rlimit(50)]
    proof fn lemma_order_magnitudes(
        &self,
        st: St,
        pa: u32,
        pb: u32,
        scr: u32,
        l: u32,
        base: int,
        m: Machine,
    )
        requires
            0 <= base <= st.rows.len(),
            st.w is None,
            exec(st.rows, base, m).core is Enhanced,
            l <= u32::MAX - 9,
            order_slots(pa, pb, scr),
            order_slots(pa, pb, at(scr, 1)),
            scr <= 0xFFFF,
        ensures
            ({
                let b = exec(st.rows, base, m);
                let s = self.orderf_magnitudes(st, pa, pb, scr, l);
                let a = exec(s.rows, base, m);
                let (x, y) = (word(b, pa, 4), word(b, pb, 4));
                &&& base <= s.rows.len()
                &&& b.flow is Next ==> a.core == b.core && a.flow == Flow::Seek(Sym::Tmp((if unsigned(
                    x,
                ) == unsigned(y) {
                    l + 4
                } else if (unsigned(x) >= unsigned(y)) == negative(x) {
                    l + 6
                } else {
                    l + 7
                }) as u32))
                &&& b.flow is Seek && b.flow != Flow::Seek(Sym::Tmp((l + 8) as u32)) ==> a == b
            }),
    {
        let b = exec(st.rows, base, m);
        let s1 = self.bare(st, pa, pb, at(scr, 1));
        let s2 = self.differ(s1, pa, pb, scr);
        let s3 = self.borrow(s2, pa, pb);
        let s4 = self.verdict(s3, scr, at(scr, 1), l);
        assert(self.orderf_magnitudes(st, pa, pb, scr, l) == s4);
        if b.flow is Next {
            self.lemma_bare(st, pa, pb, at(scr, 1), base, m);
            self.lemma_differ(s1, pa, pb, scr, base, m);
            self.lemma_borrow(s2, pa, pb, base, m);
            self.lemma_verdict(s3, scr, at(scr, 1), l, base, m);
            let m1 = exec(s1.rows, base, m);
            let m2 = exec(s2.rows, base, m);
            assert(m2.ram[at(scr, 1)] == m1.ram[at(scr, 1)]);
            assert(word(m2, pa, 4) == word(m1, pa, 4) && word(m2, pb, 4) == word(m1, pb, 4));
        } else if b.flow is Seek && b.flow != Flow::Seek(Sym::Tmp((l + 8) as u32)) {
            assert(passed_over(st, s1, base, m)) by {
                broadcast use group_exec;

            }
            assert(passed_over(s1, s2, base, m)) by {
                broadcast use group_exec;

            }
            assert(passed_over(s2, s3, base, m)) by {
                broadcast use group_exec;

            }
            assert(passed_over(s3, s4, base, m)) by {
                broadcast use group_exec;

            }
        } else {
            assert(s1.rows.len() >= st.rows.len());
        }
    }

    #[verifier::rlimit(50)]
    proof fn lemma_order_results(&self, st: St, pa: u32, l: u32, base: int, m: Machine)
        requires
            seeking(st, base, m),
            exec(st.rows, base, m).core is Enhanced,
            l <= u32::MAX - 9,
        ensures
            ({
                let b = exec(st.rows, base, m);
                let a = exec(self.orderf_results(st, pa, l).rows, base, m);
                &&& b.flow == Flow::Seek(Sym::Tmp((l + 2) as u32)) ==> a.flow is Gone && a.ram[self.retval]
                    == 3
                &&& b.flow == Flow::Seek(Sym::Tmp((l + 4) as u32)) ==> a.flow is Gone && a.ram[self.retval]
                    == 0
                &&& b.flow == Flow::Seek(Sym::Tmp((l + 5) as u32)) ==> a.flow is Gone && a.ram[self.retval]
                    == (if b.ram[at(pa, 3)] >= 128 {
                    1
                } else {
                    2int
                })
                &&& b.flow == Flow::Seek(Sym::Tmp((l + 6) as u32)) ==> a.flow is Gone && a.ram[self.retval]
                    == 1
                &&& b.flow == Flow::Seek(Sym::Tmp((l + 7) as u32)) ==> a.flow is Gone && a.ram[self.retval]
                    == 2
            }),
    {
        broadcast use group_exec;

        reveal(step);
    }

    /// The comparison routine leaves how its two numbers compare in the first
    /// result byte.
    pub proof fn law_float_comparison_orders(
        &self,
        st: St,
        pa: u32,
        pb: u32,
        scr: u32,
        m: Machine,
    )
        requires
            st.w is None,
            st.next <= u32::MAX - 9,
            order_slots(pa, pb, scr),
            order_slots(pa, pb, at(scr, 1)),
            scr <= 0xFFFF,
            m.flow is Next,
            m.core is Enhanced,
        ensures
            ({
                let a = exec(self.orderf(st, pa, pb, scr).rows, st.rows.len() as int, m);
                a.flow is Gone && a.ram[self.retval] == float_order(word(m, pa, 4), word(m, pb, 4))
            }),
    {
        let base = st.rows.len() as int;
        let l = st.next;
        let s0 = st.reserve(9);
        assert(exec(s0.rows, base, m) == m) by {
            broadcast use group_exec;

        }
        let s1 = self.nan_test(s0, pa, label_at(l, 0), label_at(l, 2));
        self.lemma_nan_test(s0, pa, label_at(l, 0), label_at(l, 2), base, m);
        let s2 = self.nan_test(s1, pb, label_at(l, 1), label_at(l, 2));
        self.lemma_nan_test(s1, pb, label_at(l, 1), label_at(l, 2), base, m);
        assert(self.orderf_nans(s0, pa, pb, l) == s2);
        let s3 = self.orderf_zeros(s2, pa, pb, l);
        self.lemma_order_zeros(s2, pa, pb, l, base, m);
        let s4 = self.orderf_magnitudes(s3, pa, pb, scr, l);
        self.lemma_order_magnitudes(s3, pa, pb, scr, l, base, m);
        self.lemma_order_results(s4, pa, l, base, m);
        lemma_parts(m, pa);
        lemma_parts(m, pb);
    }
}

/// Whether two numbers and a byte share nothing.
pub open spec fn order_slots(pa: u32, pb: u32, s: u32) -> bool {
    &&& pa <= 0xFFFF && pb <= 0xFFFF && s <= 0x1_FFFF
    &&& apart(pa, 4, pb, 4)
    &&& apart(pa, 4, s, 1)
    &&& apart(pb, 4, s, 1)
}

} // verus!
