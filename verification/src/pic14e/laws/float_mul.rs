//! The float product: its operands in place, and the loop that multiplies.
use vstd::prelude::*;
use crate::emit::{
    at, clrf, f_op, goto_tmp, label_at, label_tmp, lit, movf, movlw, movwf, on_c, on_z, ram_bit, w_op, St,
};
use crate::line::{BitOp, LitOp, Op};
use crate::machine::{exec, group_exec, wrap, Flow, Machine};
use crate::meaning::{apart, flag, word};
use crate::pic14e::laws::float_chain::{kept3, three};
use crate::pic14e::laws::float_int::{tmp, under_way};
use crate::pic14e::laws::float_order::{exponent, lemma_masks, lemma_parts, negative};
use crate::pic14e::laws::float_parts::{full_mantissa, is_finite_nonzero, scale};
use crate::pic14e::laws::multiply::lemma_count_down;
use crate::pic14e::laws::ready;
use crate::pic14e::Gen;

verus! {

/// Whether the slots of a product share no byte.
pub open spec fn product_slots(pa: u32, pb: u32, scr: u32, r: u32) -> bool {
    &&& pa <= 0xFFFF && pb <= 0xFFFF && scr <= 0xFFFF && r <= 0xFFFF
    &&& apart(pa, 4, pb, 4)
    &&& apart(pa, 4, scr, 14)
    &&& apart(pb, 4, scr, 14)
    &&& apart(r, 4, scr, 14)
}

/// Whether nothing outside the working bytes changed.
pub open spec fn outside_kept(b: Machine, a: Machine, scr: u32) -> bool {
    forall|y: u32| y < scr || y >= scr + 14 ==> #[trigger] a.ram[y] == b.ram[y]
}

/// The biased exponent of a product before it is normalised.
pub open spec fn joint_exponent(x: int, y: int) -> int {
    scale(x) + scale(y) - 127
}

/// Whether the two bytes of a product's exponent hold `e`.
pub open spec fn holds_exponent(m: Machine, scr: u32, e: int) -> bool {
    &&& -256 < e < 512
    &&& m.ram[at(scr, 1)] == e % 256
    &&& m.ram[at(scr, 2)] == (if e < 0 {
        255int
    } else if e < 256 {
        0
    } else {
        1
    })
}

/// Whether a product jumps back: to its loop, or to its normalisation.
pub open spec fn again(f: Flow, l: u32) -> bool {
    f == tmp(l, 0) || f == tmp(l, 3)
}

/// A number of 47 bits halved in two parts: the bit that leaves the upper part
/// enters the lower one.
proof fn lemma_halved(m: Machine, p: u32, lo: int, hi2: int, lo2: int, c: int, d: int)
    requires
        2 * hi2 + c == three(m, p),
        2 * lo2 + d == lo,
        0 <= c <= 1,
        0 <= d <= 1,
    ensures
        0x80_0000 * hi2 + lo2 + (if m.ram[p] % 2 == 1 {
            0x40_0000int
        } else {
            0
        }) == (0x80_0000 * three(m, p) + lo) / 2,
{
    assert(three(m, p) == m.ram[p] + 2 * (0x80 * m.ram[at(p, 1)] + 0x8000 * m.ram[at(p, 2)]));
    assert(c == m.ram[p] % 2);
}

impl<'a> Gen<'a> {
    /// The 16-bit exponent of a product from the exponents of its factors.
    pub open spec fn fmul_bias(&self, st: St, scr: u32, l: u32) -> St {
        let e = at(scr, 1);
        let m3 = at(scr, 10);
        let low0 = at(scr, 11);
        let low1 = at(scr, 12);
        st.emit(movf(low1)).emit(w_op(Op::Addwf, low0)).emit(movwf(low0)).emit(clrf(m3)).emit(
            on_c(BitOp::Btfsc),
        ).emit(ram_bit(BitOp::Bsf, m3, 0)).emit(movlw(0x81)).emit(w_op(Op::Addwf, low0)).emit(
            movwf(e),
        ).emit(movlw(0x00)).emit(on_c(BitOp::Btfss)).emit(goto_tmp(label_at(l, 13))).emit(
            ram_bit(BitOp::Btfsc, m3, 0),
        ).emit(movlw(0x01)).emit(goto_tmp(label_at(l, 14))).emit(label_tmp(label_at(l, 13))).emit(
            ram_bit(BitOp::Btfsc, m3, 0),
        ).emit(goto_tmp(label_at(l, 14))).emit(movlw(0xFF)).emit(label_tmp(label_at(l, 14))).emit(
            movwf(at(e, 1)),
        )
    }

    /// The high byte of the exponent.
    pub open spec fn fmul_bias_high(&self, st: St, scr: u32, l: u32) -> St {
        let m3 = at(scr, 10);
        st.emit(on_c(BitOp::Btfss)).emit(goto_tmp(label_at(l, 13))).emit(
            ram_bit(BitOp::Btfsc, m3, 0),
        ).emit(movlw(0x01)).emit(goto_tmp(label_at(l, 14))).emit(label_tmp(label_at(l, 13))).emit(
            ram_bit(BitOp::Btfsc, m3, 0),
        ).emit(goto_tmp(label_at(l, 14))).emit(movlw(0xFF)).emit(label_tmp(label_at(l, 14))).emit(
            movwf(at(scr, 2)),
        )
    }

    /// The high byte counts the carries: none, one or two.
    #[verifier::rlimit(50)]
    proof fn lemma_fmul_bias_high(&self, st: St, scr: u32, l: u32, base: int, m: Machine)
        requires
            under_way(st, base, m),
            exec(st.rows, base, m).flow is Next,
            exec(st.rows, base, m).w == 0,
            scr <= 0xFFFF,
            l <= u32::MAX - 40,
        ensures
            ({
                let b = exec(st.rows, base, m);
                let a = exec(self.fmul_bias_high(st, scr, l).rows, base, m);
                let first = b.ram[at(scr, 10)] % 2 == 1;
                a.flow is Next && a.core == b.core && a.ram == b.ram.insert(
                    at(scr, 2),
                    if first && b.c {
                        1u8
                    } else if first || b.c {
                        0u8
                    } else {
                        255u8
                    },
                )
            }),
    {
        let b = exec(st.rows, base, m);
        if b.c {
            if b.ram[at(scr, 10)] % 2 == 1 {
                broadcast use group_exec;

            } else {
                broadcast use group_exec;

            }
        } else {
            if b.ram[at(scr, 10)] % 2 == 1 {
                broadcast use group_exec;

            } else {
                broadcast use group_exec;

            }
        }
    }

    #[verifier::rlimit(50)]
    proof fn lemma_fmul_bias(&self, st: St, scr: u32, l: u32, base: int, m: Machine)
        requires
            under_way(st, base, m),
            scr <= 0xFFFF,
            l <= u32::MAX - 40,
        ensures
            ({
                let b = exec(st.rows, base, m);
                let s = self.fmul_bias(st, scr, l);
                let a = exec(s.rows, base, m);
                let t = b.ram[at(scr, 11)] + b.ram[at(scr, 12)] - 127;
                &&& base <= s.rows.len()
                &&& b.flow is Next ==> {
                    &&& a.flow is Next
                    &&& a.core == b.core
                    &&& holds_exponent(a, scr, t)
                    &&& a.ram[scr] == b.ram[scr]
                    &&& outside_kept(b, a, scr)
                }
                &&& again(b.flow, l) ==> a == b
            }),
    {
        let b = exec(st.rows, base, m);
        let e = at(scr, 1);
        let m3 = at(scr, 10);
        let low0 = at(scr, 11);
        let low1 = at(scr, 12);
        let s1 = st.emit(movf(low1)).emit(w_op(Op::Addwf, low0)).emit(movwf(low0)).emit(clrf(m3)).emit(
            on_c(BitOp::Btfsc),
        ).emit(ram_bit(BitOp::Bsf, m3, 0));
        let c1 = exec(s1.rows, base, m);
        let s2 = s1.emit(movlw(0x81)).emit(w_op(Op::Addwf, low0)).emit(movwf(e)).emit(movlw(0x00));
        let c2 = exec(s2.rows, base, m);
        let s3 = self.fmul_bias(st, scr, l);
        let a = exec(s3.rows, base, m);
        assert(base <= s1.rows.len() <= s2.rows.len() <= s3.rows.len());
        let sum = b.ram[low0] + b.ram[low1];
        if b.flow is Next {
            assert(c1.flow is Next && c1.core == b.core && c1.ram[low0] == sum % 256 && c1.ram[m3] == (
            if sum >= 256 {
                1int
            } else {
                0
            }) && c1.ram[scr] == b.ram[scr] && outside_kept(b, c1, scr)) by {
                broadcast use group_exec;

            }
            let x = c1.ram[low0] as int;
            assert(c2.flow is Next && c2.core == b.core && c2.w == 0 && c2.c == (x >= 127) && c2.ram
                == c1.ram.insert(e, ((x + 129) % 256) as u8)) by {
                broadcast use group_exec;

            }
            assert(s3 == self.fmul_bias_high(s2, scr, l));
            assert(c2.ram[m3] == c1.ram[m3]);
            self.lemma_fmul_bias_high(s2, scr, l, base, m);
        } else if again(b.flow, l) {
            assert(c2 == b) by {
                broadcast use group_exec;

            }
            assert(a == b) by {
                broadcast use group_exec;

            }
        }
    }

    proof fn lemma_fmul_exponent(
        &self,
        st: St,
        pa: u32,
        pb: u32,
        scr: u32,
        l: u32,
        base: int,
        m: Machine,
    )
        requires
            under_way(st, base, m),
            product_slots(pa, pb, scr, self.retval),
            l <= u32::MAX - 40,
            ({
                let b = exec(st.rows, base, m);
                ||| again(b.flow, l)
                ||| b.flow is Next && is_finite_nonzero(word(b, pa, 4)) && is_finite_nonzero(
                    word(b, pb, 4),
                )
            }),
        ensures
            ({
                let b = exec(st.rows, base, m);
                let s = self.mulf_exponent(st, pa, pb, scr, l);
                let a = exec(s.rows, base, m);
                let (x, y) = (word(b, pa, 4), word(b, pb, 4));
                &&& under_way(s, base, m)
                &&& s.next == st.next
                &&& b.flow is Next ==> {
                    &&& a.flow is Next
                    &&& (a.ram[scr] >= 128) == (negative(x) != negative(y))
                    &&& holds_exponent(a, scr, joint_exponent(x, y))
                    &&& outside_kept(b, a, scr)
                }
                &&& again(b.flow, l) ==> a == b
            }),
    {
        let b = exec(st.rows, base, m);
        let low0 = at(scr, 11);
        let low1 = at(scr, 12);
        let low2 = at(scr, 13);
        let s1 = self.joint_sign(st, pa, pb, scr);
        self.lemma_joint_sign(st, pa, pb, scr, base, m);
        let s2 = self.unpack_exponent(s1, pa, low0);
        self.lemma_unpack_exponent(s1, pa, low0, base, m);
        let s3 = self.unpack_exponent(s2, pb, low1);
        self.lemma_unpack_exponent(s2, pb, low1, base, m);
        let s4 = self.small_fix(s3, pa, low0, low2, label_at(l, 15));
        let c1 = exec(s1.rows, base, m);
        let c2 = exec(s2.rows, base, m);
        let c3 = exec(s3.rows, base, m);
        if b.flow is Next {
            assert(word(c1, pa, 4) == word(b, pa, 4));
            assert(word(c2, pb, 4) == word(b, pb, 4));
            assert(c3.ram[low0] == exponent(word(b, pa, 4)) && c3.ram[low1] == exponent(
                word(b, pb, 4),
            ));
            assert(outside_kept(b, c3, scr));
            assert(c3.ram[scr] == c1.ram[scr]);
        }
        let s5 = self.small_fix(s4, pb, low1, low2, label_at(l, 16));
        if b.flow is Next {
            assert(word(c3, pa, 4) == word(b, pa, 4));
            self.lemma_small_fix_any(s3, pa, low0, low2, l, 15, base, m);
            let c4 = exec(s4.rows, base, m);
            assert(word(c4, pb, 4) == word(b, pb, 4));
            self.lemma_small_fix_any(s4, pb, low1, low2, l, 16, base, m);
            let c5 = exec(s5.rows, base, m);
            assert(c5.ram[low0] == scale(word(b, pa, 4)) && c5.ram[low1] == scale(word(b, pb, 4)));
        } else {
            self.lemma_small_fix(s3, pa, low0, low2, l, 15, base, m);
            self.lemma_small_fix(s4, pb, low1, low2, l, 16, base, m);
        }
        self.lemma_fmul_bias(s5, scr, l, base, m);
        assert(self.mulf_exponent(st, pa, pb, scr, l) == self.fmul_bias(s5, scr, l)) by {
            reveal(Gen::mulf_exponent);
        }
    }

    #[verifier::rlimit(50)]
    pub(crate) proof fn lemma_fmul_specials(
        &self,
        st: St,
        pa: u32,
        pb: u32,
        scr: u32,
        l: u32,
        base: int,
        m: Machine,
    )
        requires
            under_way(st, base, m),
            l <= u32::MAX - 40,
            ({
                let b = exec(st.rows, base, m);
                ||| again(b.flow, l)
                ||| b.flow is Next && exponent(word(b, pa, 4)) <= 254 && exponent(
                    word(b, pb, 4),
                ) <= 254
            }),
        ensures
            ({
                let b = exec(st.rows, base, m);
                let s = self.mulf_specials(st, pa, pb, scr, l);
                let a = exec(s.rows, base, m);
                &&& under_way(s, base, m)
                &&& s.next == st.next
                &&& a.flow == b.flow
                &&& a.ram == b.ram
                &&& again(b.flow, l) ==> a == b
            }),
    {
        let b = exec(st.rows, base, m);
        let t = at(scr, 13);
        let l_nan = label_at(l, 30);
        let l_inf = label_at(l, 31);
        let s1 = self.not_ff(st, pa, t, label_at(l, 19), label_at(l, 20), l_nan);
        self.lemma_not_ff(st, pa, t, l, 19, label_at(l, 20), l_nan, base, m);
        let s2 = s1.emit(label_tmp(label_at(l, 19)));
        let c1 = exec(s1.rows, base, m);
        let c2 = exec(s2.rows, base, m);
        assert(base <= s2.rows.len() && (b.flow is Next ==> c2 == (Machine { flow: Flow::Next, ..c1 }))
            && (b.flow is Seek ==> c2 == b)) by {
            broadcast use group_exec;

        }
        assert(word(c2, pb, 4) == word(b, pb, 4));
        let s3 = self.not_ff(s2, pb, t, label_at(l, 21), label_at(l, 22), l_nan);
        self.lemma_not_ff(s2, pb, t, l, 21, label_at(l, 22), l_nan, base, m);
        let c3 = exec(s3.rows, base, m);
        let s4 = s3.emit(label_tmp(label_at(l, 20)));
        assert(under_way(s4, base, m) && exec(s4.rows, base, m) == c3) by {
            broadcast use group_exec;

        }
        let s5 = self.inf_pair(s4, pb, t, l_inf, l_nan, label_at(l, 23));
        self.lemma_inf_pair_over(s4, pb, t, l_inf, l_nan, label_at(l, 23), base, m);
        let s6 = s5.emit(label_tmp(label_at(l, 23)));
        assert(under_way(s6, base, m) && exec(s6.rows, base, m) == c3) by {
            broadcast use group_exec;

        }
        let s7 = self.inf_single(s6, pb, t, l_inf, l_inf, l_nan);
        self.lemma_inf_single_over(s6, pb, t, l_inf, l_inf, l_nan, base, m);
        let s8 = s7.emit(label_tmp(label_at(l, 22)));
        assert(under_way(s8, base, m) && exec(s8.rows, base, m) == c3) by {
            broadcast use group_exec;

        }
        let s9 = self.inf_single(s8, pa, t, label_at(l, 24), l_inf, l_nan);
        self.lemma_inf_single_over(s8, pa, t, label_at(l, 24), l_inf, l_nan, base, m);
        let s10 = s9.emit(label_tmp(label_at(l, 24)));
        assert(under_way(s10, base, m) && exec(s10.rows, base, m) == c3) by {
            broadcast use group_exec;

        }
        let s11 = self.inf_single(s10, pa, t, l_inf, l_inf, l_nan);
        self.lemma_inf_single_over(s10, pa, t, l_inf, l_inf, l_nan, base, m);
        let s12 = s11.emit(label_tmp(label_at(l, 21)));
        assert(base <= s12.rows.len() && (b.flow is Next ==> exec(s12.rows, base, m) == (Machine {
            flow: Flow::Next,
            ..c3
        })) && (b.flow is Seek ==> exec(s12.rows, base, m) == b)) by {
            broadcast use group_exec;

        }
        assert(self.mulf_specials(st, pa, pb, scr, l) == s12) by {
            reveal(Gen::mulf_specials);
        }
    }

    #[verifier::rlimit(50)]
    proof fn lemma_fmul_zeros(
        &self,
        st: St,
        pa: u32,
        pb: u32,
        scr: u32,
        l: u32,
        base: int,
        m: Machine,
    )
        requires
            under_way(st, base, m),
            product_slots(pa, pb, scr, self.retval),
            l <= u32::MAX - 40,
            ({
                let b = exec(st.rows, base, m);
                ||| again(b.flow, l)
                ||| b.flow is Next && is_finite_nonzero(word(b, pa, 4)) && is_finite_nonzero(
                    word(b, pb, 4),
                )
            }),
        ensures
            ({
                let b = exec(st.rows, base, m);
                let s = self.mulf_zeros(st, pa, pb, scr, l);
                let a = exec(s.rows, base, m);
                &&& under_way(s, base, m)
                &&& s.next == st.next
                &&& b.flow is Next ==> {
                    &&& a.flow == tmp(l, 18)
                    &&& forall|y: u32| y != at(scr, 13) ==> #[trigger] a.ram[y] == b.ram[y]
                }
                &&& again(b.flow, l) ==> a == b
            }),
    {
        let b = exec(st.rows, base, m);
        let t = at(scr, 13);
        let s1 = self.nonzero(st, pa, t, label_at(l, 17));
        if b.flow is Next {
            self.lemma_nonzero_any(st, pa, t, label_at(l, 17), base, m);
        } else {
            self.lemma_nonzero(st, pa, t, l, 17, base, m);
        }
        let c1 = exec(s1.rows, base, m);
        let s2 = s1.emit(goto_tmp(label_at(l, 29))).emit(label_tmp(label_at(l, 17)));
        let c2 = exec(s2.rows, base, m);
        assert(base <= s2.rows.len() && (b.flow is Next ==> c2 == (Machine { flow: Flow::Next, ..c1 }))
            && (b.flow is Seek ==> c2 == b)) by {
            broadcast use group_exec;

        }
        if b.flow is Next {
            assert(word(c2, pb, 4) == word(b, pb, 4));
        }
        let s3 = self.nonzero(s2, pb, t, label_at(l, 18));
        if b.flow is Next {
            self.lemma_nonzero_any(s2, pb, t, label_at(l, 18), base, m);
        } else {
            self.lemma_nonzero(s2, pb, t, l, 18, base, m);
        }
        let s4 = s3.emit(goto_tmp(label_at(l, 29)));
        assert(under_way(s4, base, m) && exec(s4.rows, base, m) == exec(s3.rows, base, m)) by {
            broadcast use group_exec;

        }
        self.lemma_results_over(s4, scr, label_at(l, 30), label_at(l, 31), base, m);
        assert(self.mulf_zeros(st, pa, pb, scr, l) == self.infinity(
            self.quiet_nan(s4.emit(label_tmp(label_at(l, 30))), scr).emit(
                label_tmp(label_at(l, 31)),
            ),
            scr,
        )) by {
            reveal(Gen::mulf_zeros);
        }
    }

    /// The implicit bit of the first factor.
    pub open spec fn fmul_first(&self, st: St, pa: u32, l: u32) -> St {
        st.emit(label_tmp(label_at(l, 18))).emit(movf(at(pa, 3))).emit(lit(LitOp::Andlw, 0x7F)).emit(
            on_z(BitOp::Btfss),
        ).emit(goto_tmp(label_at(l, 25))).emit(ram_bit(BitOp::Btfsc, at(pa, 2), 7)).emit(
            goto_tmp(label_at(l, 25)),
        ).emit(movf(at(pa, 2))).emit(lit(LitOp::Andlw, 0x7F)).emit(movwf(at(pa, 2))).emit(
            goto_tmp(label_at(l, 26)),
        ).emit(label_tmp(label_at(l, 25))).emit(movf(at(pa, 2))).emit(lit(LitOp::Andlw, 0x7F)).emit(
            lit(LitOp::Iorlw, 0x80),
        ).emit(movwf(at(pa, 2))).emit(label_tmp(label_at(l, 26)))
    }

    /// The second factor, with its implicit bit, into the multiplier.
    pub open spec fn fmul_second(&self, st: St, pb: u32, scr: u32, l: u32) -> St {
        let bk2 = at(scr, 5);
        st.emit(movf(pb)).emit(movwf(at(scr, 3))).emit(movf(at(pb, 1))).emit(movwf(at(scr, 4))).emit(
            movf(at(pb, 2)),
        ).emit(lit(LitOp::Andlw, 0x7F)).emit(movwf(bk2)).emit(movf(at(pb, 3))).emit(
            lit(LitOp::Andlw, 0x7F),
        ).emit(on_z(BitOp::Btfss)).emit(goto_tmp(label_at(l, 27))).emit(
            ram_bit(BitOp::Btfsc, at(pb, 2), 7),
        ).emit(goto_tmp(label_at(l, 27))).emit(goto_tmp(label_at(l, 28))).emit(
            label_tmp(label_at(l, 27)),
        ).emit(movf(at(pb, 2))).emit(lit(LitOp::Andlw, 0x7F)).emit(lit(LitOp::Iorlw, 0x80)).emit(
            movwf(bk2),
        ).emit(label_tmp(label_at(l, 28)))
    }

    /// The product and the low part of the addend cleared, the turns counted.
    pub open spec fn fmul_clear(&self, st: St, pb: u32, scr: u32) -> St {
        st.emit(clrf(pb)).emit(clrf(at(pb, 1))).emit(clrf(at(pb, 2))).emit(clrf(at(scr, 7))).emit(
            clrf(at(scr, 8)),
        ).emit(clrf(at(scr, 9))).emit(clrf(at(scr, 10))).emit(clrf(at(scr, 11))).emit(
            clrf(at(scr, 12)),
        ).emit(clrf(at(scr, 13))).emit(movlw(0x18)).emit(movwf(at(scr, 6)))
    }

    #[verifier::rlimit(50)]
    proof fn lemma_fmul_first(&self, st: St, pa: u32, l: u32, base: int, m: Machine)
        requires
            under_way(st, base, m),
            exec(st.rows, base, m).flow is Seek,
            pa <= 0xFFFF,
            l <= u32::MAX - 40,
        ensures
            ({
                let b = exec(st.rows, base, m);
                let s = self.fmul_first(st, pa, l);
                let a = exec(s.rows, base, m);
                &&& base <= s.rows.len()
                &&& b.flow == tmp(l, 18) ==> {
                    &&& a.flow is Next
                    &&& a.core == b.core
                    &&& three(a, pa) == full_mantissa(word(b, pa, 4))
                    &&& forall|y: u32| y != at(pa, 2) ==> #[trigger] a.ram[y] == b.ram[y]
                }
                &&& again(b.flow, l) ==> a == b
            }),
    {
        let b = exec(st.rows, base, m);
        let s = self.fmul_first(st, pa, l);
        let a = exec(s.rows, base, m);
        assert(base <= s.rows.len());
        if b.flow == tmp(l, 18) && exponent(word(b, pa, 4)) == 0 {
            lemma_parts(b, pa);
            lemma_masks();
            let y = b.ram[at(pa, 2)];
            assert(b.ram[at(pa, 3)] % 128 == 0 && y < 128);
            assert(a.flow is Next && a.core == b.core && a.ram == b.ram.insert(at(pa, 2), y)) by {
                broadcast use group_exec;

            }
        } else if b.flow == tmp(l, 18) {
            lemma_parts(b, pa);
            lemma_masks();
            let (x, y) = (b.ram[at(pa, 3)], b.ram[at(pa, 2)]);
            assert((y & 0x7Fu8) | 0x80u8 == 128 + y % 128) by (bit_vector);
            assert(x % 128 != 0 || y >= 128);
            let s1 = st.emit(label_tmp(label_at(l, 18))).emit(movf(at(pa, 3))).emit(
                lit(LitOp::Andlw, 0x7F),
            ).emit(on_z(BitOp::Btfss)).emit(goto_tmp(label_at(l, 25))).emit(
                ram_bit(BitOp::Btfsc, at(pa, 2), 7),
            ).emit(goto_tmp(label_at(l, 25)));
            let c1 = exec(s1.rows, base, m);
            assert(base <= s1.rows.len() && c1.flow == tmp(l, 25) && c1.core == b.core && c1.ram == b.ram) by {
                broadcast use group_exec;

            }
            let s2 = s1.emit(movf(at(pa, 2))).emit(lit(LitOp::Andlw, 0x7F)).emit(movwf(at(pa, 2))).emit(
                goto_tmp(label_at(l, 26)),
            );
            assert(base <= s2.rows.len() && exec(s2.rows, base, m) == c1) by {
                broadcast use group_exec;

            }
            assert(a.flow is Next && a.core == b.core && a.ram == b.ram.insert(
                at(pa, 2),
                (128 + y % 128) as u8,
            )) by {
                broadcast use group_exec;

            }
        } else if again(b.flow, l) {
            assert(a == b) by {
                broadcast use group_exec;

            }
        }
    }

    #[verifier::rlimit(50)]
    proof fn lemma_fmul_second(
        &self,
        st: St,
        pa: u32,
        pb: u32,
        scr: u32,
        l: u32,
        base: int,
        m: Machine,
    )
        requires
            under_way(st, base, m),
            product_slots(pa, pb, scr, self.retval),
            l <= u32::MAX - 40,
        ensures
            ({
                let b = exec(st.rows, base, m);
                let s = self.fmul_second(st, pb, scr, l);
                let a = exec(s.rows, base, m);
                &&& base <= s.rows.len()
                &&& b.flow is Next ==> {
                    &&& a.flow is Next
                    &&& a.core == b.core
                    &&& three(a, at(scr, 3)) == full_mantissa(word(b, pb, 4))
                    &&& kept3(b, a, at(scr, 3))
                }
                &&& again(b.flow, l) ==> a == b
            }),
    {
        let b = exec(st.rows, base, m);
        let s = self.fmul_second(st, pb, scr, l);
        let a = exec(s.rows, base, m);
        let s1 = st.emit(movf(pb)).emit(movwf(at(scr, 3))).emit(movf(at(pb, 1))).emit(
            movwf(at(scr, 4)),
        ).emit(movf(at(pb, 2))).emit(lit(LitOp::Andlw, 0x7F)).emit(movwf(at(scr, 5)));
        let c = exec(s1.rows, base, m);
        assert(base <= s1.rows.len() <= s.rows.len());
        if b.flow is Next {
            lemma_parts(b, pb);
            lemma_masks();
            let (x, y) = (b.ram[at(pb, 3)], b.ram[at(pb, 2)]);
            assert((y & 0x7Fu8) | 0x80u8 == 128 + y % 128) by (bit_vector);
            assert(c.flow is Next && c.core == b.core && c.ram == b.ram.insert(
                at(scr, 3),
                b.ram[pb],
            ).insert(at(scr, 4), b.ram[at(pb, 1)]).insert(at(scr, 5), y & 0x7F)) by {
                broadcast use group_exec;

            }
            assert(c.ram[at(pb, 3)] == x && c.ram[at(pb, 2)] == y);
            if exponent(word(b, pb, 4)) == 0 {
                assert(x % 128 == 0 && y < 128);
                assert(a.flow is Next && a.core == b.core && a.ram == c.ram) by {
                    broadcast use group_exec;

                }
            } else {
                assert(x % 128 != 0 || y >= 128);
                assert(a.flow is Next && a.core == b.core && a.ram == c.ram.insert(
                    at(scr, 5),
                    (128 + y % 128) as u8,
                )) by {
                    broadcast use group_exec;

                }
            }
        } else if again(b.flow, l) {
            assert(c == b) by {
                broadcast use group_exec;

            }
            assert(a == b) by {
                broadcast use group_exec;

            }
        }
    }

    #[verifier::rlimit(50)]
    proof fn lemma_fmul_clear(
        &self,
        st: St,
        pa: u32,
        pb: u32,
        scr: u32,
        l: u32,
        base: int,
        m: Machine,
    )
        requires
            under_way(st, base, m),
            product_slots(pa, pb, scr, self.retval),
        ensures
            ({
                let b = exec(st.rows, base, m);
                let s = self.fmul_clear(st, pb, scr);
                let a = exec(s.rows, base, m);
                &&& base <= s.rows.len()
                &&& b.flow is Next ==> {
                    &&& a.flow is Next
                    &&& a.core == b.core
                    &&& three(a, pb) == 0
                    &&& word(a, at(scr, 7), 4) == 0
                    &&& three(a, at(scr, 11)) == 0
                    &&& a.ram[at(scr, 6)] == 24
                    &&& forall|y: u32|
                        (y < pb || y >= pb + 3) && (y < scr + 6 || y >= scr + 14)
                            ==> #[trigger] a.ram[y] == b.ram[y]
                }
                &&& again(b.flow, l) ==> a == b
            }),
    {
        let b = exec(st.rows, base, m);
        let s = self.fmul_clear(st, pb, scr);
        let a = exec(s.rows, base, m);
        if b.flow is Next {
            assert(base <= s.rows.len() && a.flow is Next && a.core == b.core && a.ram == b.ram.insert(
                pb,
                0,
            ).insert(at(pb, 1), 0).insert(at(pb, 2), 0).insert(at(scr, 7), 0).insert(at(scr, 8), 0).insert(
                at(scr, 9),
                0,
            ).insert(at(scr, 10), 0).insert(at(scr, 11), 0).insert(at(scr, 12), 0).insert(
                at(scr, 13),
                0,
            ).insert(at(scr, 6), 24)) by {
                broadcast use group_exec;

            }
        } else if again(b.flow, l) {
            assert(a == b) by {
                broadcast use group_exec;

            }
        }
        assert(base <= s.rows.len());
    }

    /// What is multiplied so far: the product in seven bytes.
    pub open spec fn product_so_far(&self, m: Machine, scr: u32) -> int {
        0x80_0000 * word(m, at(scr, 7), 4) + three(m, at(scr, 11))
    }

    /// The addend of the next turn.
    pub open spec fn addend(&self, m: Machine, pa: u32, pb: u32) -> int {
        0x80_0000 * three(m, pa) + three(m, pb)
    }

    /// The top bit of the multiplier, out.
    pub open spec fn fmul_bit(&self, st: St, scr: u32, l: u32) -> St {
        self.left3(st.emit(label_tmp(label_at(l, 0))).emit(on_c(BitOp::Bcf)), at(scr, 3)).emit(
            on_c(BitOp::Btfss),
        ).emit(goto_tmp(label_at(l, 1)))
    }

    #[verifier::rlimit(50)]
    proof fn lemma_fmul_bit(&self, st: St, scr: u32, l: u32, base: int, m: Machine)
        requires
            under_way(st, base, m),
            scr <= 0xFFFF,
            l <= u32::MAX - 40,
            exec(st.rows, base, m).flow is Next || exec(st.rows, base, m).flow == tmp(l, 0),
        ensures
            ({
                let b = exec(st.rows, base, m);
                let s = self.fmul_bit(st, scr, l);
                let a = exec(s.rows, base, m);
                let v = three(b, at(scr, 3));
                &&& base <= s.rows.len()
                &&& s.w is None
                &&& a.core == b.core
                &&& kept3(b, a, at(scr, 3))
                &&& three(a, at(scr, 3)) == (if v >= 0x80_0000 {
                    2 * v - 0x100_0000
                } else {
                    2 * v
                })
                &&& a.flow == (if v >= 0x80_0000 {
                    Flow::Next
                } else {
                    tmp(l, 1)
                })
            }),
    {
        let b = exec(st.rows, base, m);
        let s1 = st.emit(label_tmp(label_at(l, 0))).emit(on_c(BitOp::Bcf));
        let c1 = exec(s1.rows, base, m);
        assert(ready(s1, base, m) && c1.core == b.core && c1.ram == b.ram && !c1.c) by {
            broadcast use group_exec;

        }
        let s2 = self.left3(s1, at(scr, 3));
        self.lemma_left3(s1, at(scr, 3), base, m);
        let c2 = exec(s2.rows, base, m);
        assert(three(c1, at(scr, 3)) == three(b, at(scr, 3)));
        let a = exec(self.fmul_bit(st, scr, l).rows, base, m);
        assert(a.core == b.core && a.ram == c2.ram && a.flow == (if c2.c {
            Flow::Next
        } else {
            tmp(l, 1)
        })) by {
            broadcast use group_exec;

        }
        assert(three(a, at(scr, 3)) == three(c2, at(scr, 3)));
    }

    /// The carry out of 23 bits into the high part.
    pub open spec fn fmul_carry(&self, st: St, scr: u32, l: u32) -> St {
        let m0 = at(scr, 7);
        let m1 = at(scr, 8);
        let m2 = at(scr, 9);
        let m3 = at(scr, 10);
        let low2 = at(scr, 13);
        st.emit(ram_bit(BitOp::Btfsc, low2, 7)).emit(goto_tmp(label_at(l, 11))).emit(
            goto_tmp(label_at(l, 12)),
        ).emit(label_tmp(label_at(l, 11))).emit(ram_bit(BitOp::Bcf, low2, 7)).emit(
            f_op(Op::Incf, m0),
        ).emit(on_z(BitOp::Btfsc)).emit(f_op(Op::Incf, m1)).emit(on_z(BitOp::Btfsc)).emit(
            f_op(Op::Incf, m2),
        ).emit(on_z(BitOp::Btfsc)).emit(f_op(Op::Incf, m3)).emit(label_tmp(label_at(l, 12)))
    }

    #[verifier::rlimit(50)]
    proof fn lemma_fmul_carry(&self, st: St, scr: u32, l: u32, base: int, m: Machine)
        requires
            ready(st, base, m),
            scr <= 0xFFFF,
            l <= u32::MAX - 40,
            word(exec(st.rows, base, m), at(scr, 7), 4) < 0xFFFF_FFFF,
        ensures
            ({
                let b = exec(st.rows, base, m);
                let s = self.fmul_carry(st, scr, l);
                let a = exec(s.rows, base, m);
                &&& ready(s, base, m)
                &&& s.w is None
                &&& a.core == b.core
                &&& self.product_so_far(a, scr) == self.product_so_far(b, scr)
                &&& three(a, at(scr, 11)) < 0x80_0000
                &&& word(a, at(scr, 7), 4) <= word(b, at(scr, 7), 4) + 1
                &&& forall|y: u32| y < scr + 7 || y >= scr + 14 ==> #[trigger] a.ram[y] == b.ram[y]
            }),
    {
        let b = exec(st.rows, base, m);
        let m0 = at(scr, 7);
        let m1 = at(scr, 8);
        let m2 = at(scr, 9);
        let m3 = at(scr, 10);
        let low2 = at(scr, 13);
        let s = self.fmul_carry(st, scr, l);
        let a = exec(s.rows, base, m);
        let (x0, x1, x2, x3, y) = (b.ram[m0], b.ram[m1], b.ram[m2], b.ram[m3], b.ram[low2]);
        let s1 = st.emit(ram_bit(BitOp::Btfsc, low2, 7)).emit(goto_tmp(label_at(l, 11))).emit(
            goto_tmp(label_at(l, 12)),
        );
        let c = exec(s1.rows, base, m);
        assert(base <= s1.rows.len() && c.core == b.core && c.ram == b.ram && c.flow == (if y >= 128 {
            tmp(l, 11)
        } else {
            tmp(l, 12)
        })) by {
            broadcast use group_exec;

        }
        if y < 128 {
            assert(ready(s, base, m) && a.core == b.core && a.ram == b.ram) by {
                broadcast use group_exec;

            }
        } else {
            let z1 = if x0 == 255 {
                wrap(x1 + 1)
            } else {
                x1
            };
            let z2 = if x0 == 255 && x1 == 255 {
                wrap(x2 + 1)
            } else {
                x2
            };
            let z3 = if x0 == 255 && x1 == 255 && x2 == 255 {
                wrap(x3 + 1)
            } else {
                x3
            };
            assert(ready(s, base, m) && a.core == b.core && a.ram[m0] == wrap(x0 + 1) && a.ram[m1] == z1
                && a.ram[m2] == z2 && a.ram[m3] == z3 && a.ram[low2] == y - 128 && a.ram[at(scr, 11)]
                == b.ram[at(scr, 11)] && a.ram[at(scr, 12)] == b.ram[at(scr, 12)] && (forall|z: u32|
                z < scr + 7 || z >= scr + 14 ==> #[trigger] a.ram[z] == b.ram[z])) by {
                broadcast use group_exec;

            }
        }
    }

    /// The high part of the addend into the product.
    pub open spec fn fmul_high(&self, st: St, pa: u32, scr: u32) -> St {
        self.add3(st, pa, at(scr, 7)).emit(movlw(0x00)).emit(on_c(BitOp::Btfsc)).emit(
            lit(LitOp::Addlw, 0x01),
        ).emit(f_op(Op::Addwf, at(scr, 10)))
    }

    proof fn lemma_fmul_high(&self, st: St, pa: u32, scr: u32, base: int, m: Machine)
        requires
            ready(st, base, m),
            scr <= 0xFFFF,
            pa <= 0xFFFF,
            apart(pa, 4, scr, 14),
            word(exec(st.rows, base, m), at(scr, 7), 4) + three(exec(st.rows, base, m), pa)
                <= 0xFFFF_FFFF,
        ensures
            ({
                let b = exec(st.rows, base, m);
                let s = self.fmul_high(st, pa, scr);
                let a = exec(s.rows, base, m);
                &&& ready(s, base, m)
                &&& s.w is None
                &&& a.core == b.core
                &&& word(a, at(scr, 7), 4) == word(b, at(scr, 7), 4) + three(b, pa)
                &&& forall|y: u32| y < scr + 7 || y >= scr + 11 ==> #[trigger] a.ram[y] == b.ram[y]
            }),
    {
        let b = exec(st.rows, base, m);
        let s1 = self.add3(st, pa, at(scr, 7));
        self.lemma_add3(st, pa, at(scr, 7), base, m);
        let c = exec(s1.rows, base, m);
        let s2 = self.fmul_high(st, pa, scr);
        let a = exec(s2.rows, base, m);
        let m3 = at(scr, 10);
        assert(c.ram[m3] == b.ram[m3]);
        assert(ready(s2, base, m) && a.core == b.core && a.ram == c.ram.insert(
            m3,
            wrap(c.ram[m3] + flag(c.c)),
        )) by {
            broadcast use group_exec;

        }
        assert(three(c, at(scr, 7)) == c.ram[at(scr, 7)] + 0x100 * c.ram[at(scr, 8)] + 0x1_0000 * c.ram[at(
            scr,
            9,
        )]);
        assert(b.ram[m3] + flag(c.c) <= 255);
    }

    /// The addend halved.
    pub open spec fn fmul_halve(&self, st: St, pa: u32, pb: u32, l: u32) -> St {
        self.right3(
            self.right3(st.emit(label_tmp(label_at(l, 1))).emit(on_c(BitOp::Bcf)), pb).emit(
                ram_bit(BitOp::Btfsc, pa, 0),
            ).emit(ram_bit(BitOp::Bsf, at(pb, 2), 6)).emit(on_c(BitOp::Bcf)),
            pa,
        )
    }

    #[verifier::rlimit(50)]
    proof fn lemma_fmul_halve(&self, st: St, pa: u32, pb: u32, l: u32, base: int, m: Machine)
        requires
            0 <= base <= st.rows.len(),
            exec(st.rows, base, m).core is Enhanced,
            exec(st.rows, base, m).flow is Next || exec(st.rows, base, m).flow == tmp(l, 1),
            pa <= 0xFFFF,
            pb <= 0xFFFF,
            apart(pa, 4, pb, 4),
            l <= u32::MAX - 40,
            three(exec(st.rows, base, m), pb) < 0x80_0000,
        ensures
            ({
                let b = exec(st.rows, base, m);
                let s = self.fmul_halve(st, pa, pb, l);
                let a = exec(s.rows, base, m);
                &&& ready(s, base, m)
                &&& s.w is None
                &&& a.core == b.core
                &&& self.addend(a, pa, pb) == self.addend(b, pa, pb) / 2
                &&& three(a, pb) < 0x80_0000
                &&& forall|y: u32|
                    (y < pa || y >= pa + 3) && (y < pb || y >= pb + 3) ==> #[trigger] a.ram[y]
                        == b.ram[y]
            }),
    {
        let b = exec(st.rows, base, m);
        let s1 = st.emit(label_tmp(label_at(l, 1))).emit(on_c(BitOp::Bcf));
        let c1 = exec(s1.rows, base, m);
        assert(ready(s1, base, m) && c1.core == b.core && c1.ram == b.ram && !c1.c) by {
            broadcast use group_exec;

        }
        let s2 = self.right3(s1, pb);
        self.lemma_right3(s1, pb, base, m);
        let c2 = exec(s2.rows, base, m);
        assert(three(c1, pb) == three(b, pb));
        assert(three(c2, pb) < 0x40_0000);
        assert(c2.ram[at(pb, 2)] < 0x40);
        let s3 = s2.emit(ram_bit(BitOp::Btfsc, pa, 0)).emit(ram_bit(BitOp::Bsf, at(pb, 2), 6)).emit(
            on_c(BitOp::Bcf),
        );
        let c3 = exec(s3.rows, base, m);
        let odd = b.ram[pa] % 2 == 1;
        assert(c2.ram[pa] == b.ram[pa]);
        assert(ready(s3, base, m) && c3.core == b.core && !c3.c && c3.ram == (if odd {
            c2.ram.insert(at(pb, 2), (c2.ram[at(pb, 2)] + 64) as u8)
        } else {
            c2.ram
        })) by {
            broadcast use group_exec;

        }
        assert(three(c3, pb) == three(c2, pb) + (if odd {
            0x40_0000int
        } else {
            0
        }));
        let s4 = self.right3(s3, pa);
        self.lemma_right3(s3, pa, base, m);
        let a = exec(s4.rows, base, m);
        assert(three(c3, pa) == three(b, pa));
        assert(three(a, pb) == three(c3, pb));
        lemma_halved(b, pa, three(b, pb), three(a, pa), three(c2, pb), flag(a.c), flag(c2.c));
    }

    /// One turn of the loop.
    pub open spec fn fmul_turn(&self, st: St, pa: u32, pb: u32, scr: u32, l: u32) -> St {
        let s1 = self.add3(self.fmul_bit(st, scr, l), pb, at(scr, 11));
        let s2 = self.fmul_high(self.fmul_carry(s1, scr, l), pa, scr);
        self.fmul_halve(s2, pa, pb, l).emit(f_op(Op::Decfsz, at(scr, 6))).emit(
            goto_tmp(label_at(l, 0)),
        )
    }

    /// The rows that add are passed over when the bit is clear.
    #[verifier::rlimit(50)]
    proof fn lemma_adding_over(&self, st: St, pa: u32, pb: u32, scr: u32, l: u32, base: int, m: Machine)
        requires
            0 <= base <= st.rows.len(),
            exec(st.rows, base, m).flow == tmp(l, 1),
            l <= u32::MAX - 40,
        ensures
            ({
                let s1 = self.add3(st, pb, at(scr, 11));
                let s2 = self.fmul_high(self.fmul_carry(s1, scr, l), pa, scr);
                s2.rows.len() >= base && exec(s2.rows, base, m) == exec(st.rows, base, m)
            }),
    {
        let b = exec(st.rows, base, m);
        let s1 = self.add3(st, pb, at(scr, 11));
        assert(s1.rows.len() >= base && exec(s1.rows, base, m) == b) by {
            broadcast use group_exec;

        }
        let s2 = self.fmul_carry(s1, scr, l);
        assert(s2.rows.len() >= base && exec(s2.rows, base, m) == b) by {
            broadcast use group_exec;

        }
        let s3 = self.fmul_high(s2, pa, scr);
        assert(s3.rows.len() >= base && exec(s3.rows, base, m) == b) by {
            broadcast use group_exec;

        }
    }

    /// The rows that add: the addend is added.
    proof fn lemma_adding(&self, st: St, pa: u32, pb: u32, scr: u32, l: u32, base: int, m: Machine)
        requires
            ready(st, base, m),
            product_slots(pa, pb, scr, self.retval),
            l <= u32::MAX - 40,
            ({
                let b = exec(st.rows, base, m);
                &&& three(b, pb) < 0x80_0000
                &&& three(b, at(scr, 11)) < 0x80_0000
                &&& word(b, at(scr, 7), 4) <= 0x1FF_FFFF
            }),
        ensures
            ({
                let s1 = self.add3(st, pb, at(scr, 11));
                let s2 = self.fmul_high(self.fmul_carry(s1, scr, l), pa, scr);
                let b = exec(st.rows, base, m);
                let a = exec(s2.rows, base, m);
                &&& ready(s2, base, m)
                &&& s2.w is None
                &&& a.core == b.core
                &&& self.product_so_far(a, scr) == self.product_so_far(b, scr) + self.addend(b, pa, pb)
                &&& three(a, at(scr, 11)) < 0x80_0000
                &&& forall|y: u32| y < scr + 7 || y >= scr + 14 ==> #[trigger] a.ram[y] == b.ram[y]
            }),
    {
        let b = exec(st.rows, base, m);
        let s1 = self.add3(st, pb, at(scr, 11));
        self.lemma_add3(st, pb, at(scr, 11), base, m);
        let c1 = exec(s1.rows, base, m);
        assert(word(c1, at(scr, 7), 4) == word(b, at(scr, 7), 4));
        let s2 = self.fmul_carry(s1, scr, l);
        self.lemma_fmul_carry(s1, scr, l, base, m);
        let c2 = exec(s2.rows, base, m);
        assert(three(c2, pa) == three(b, pa));
        self.lemma_fmul_high(s2, pa, scr, base, m);
        let s3 = self.fmul_high(s2, pa, scr);
        let a = exec(s3.rows, base, m);
        assert(three(a, at(scr, 11)) == three(c2, at(scr, 11)));
    }

    pub(crate) proof fn lemma_fmul_turn(
        &self,
        st: St,
        pa: u32,
        pb: u32,
        scr: u32,
        l: u32,
        base: int,
        m: Machine,
    )
        requires
            under_way(st, base, m),
            exec(st.rows, base, m).flow is Next || exec(st.rows, base, m).flow == tmp(l, 0),
            product_slots(pa, pb, scr, self.retval),
            l <= u32::MAX - 40,
            ({
                let b = exec(st.rows, base, m);
                &&& three(b, pb) < 0x80_0000
                &&& three(b, at(scr, 11)) < 0x80_0000
                &&& word(b, at(scr, 7), 4) <= 0x1FF_FFFF
                &&& b.ram[at(scr, 6)] > 0
            }),
        ensures
            ({
                let b = exec(st.rows, base, m);
                let s = self.fmul_turn(st, pa, pb, scr, l);
                let a = exec(s.rows, base, m);
                let v = three(b, at(scr, 3));
                let bit = v >= 0x80_0000;
                &&& under_way(s, base, m)
                &&& s.next == st.next
                &&& s.w is None
                &&& a.flow == (if b.ram[at(scr, 6)] == 1 {
                    Flow::Next
                } else {
                    tmp(l, 0)
                })
                &&& a.ram[at(scr, 6)] == b.ram[at(scr, 6)] - 1
                &&& three(a, at(scr, 3)) == (if bit {
                    2 * v - 0x100_0000
                } else {
                    2 * v
                })
                &&& self.product_so_far(a, scr) == self.product_so_far(b, scr) + (if bit {
                    self.addend(b, pa, pb)
                } else {
                    0
                })
                &&& self.addend(a, pa, pb) == self.addend(b, pa, pb) / 2
                &&& three(a, pb) < 0x80_0000
                &&& three(a, at(scr, 11)) < 0x80_0000
                &&& a.ram[scr] == b.ram[scr] && a.ram[at(scr, 1)] == b.ram[at(scr, 1)] && a.ram[at(
                    scr,
                    2,
                )] == b.ram[at(scr, 2)]
            }),
    {
        let b = exec(st.rows, base, m);
        let s1 = self.fmul_bit(st, scr, l);
        self.lemma_fmul_bit(st, scr, l, base, m);
        let c1 = exec(s1.rows, base, m);
        let s2 = self.fmul_high(
            self.fmul_carry(self.add3(s1, pb, at(scr, 11)), scr, l),
            pa,
            scr,
        );
        let c2 = exec(s2.rows, base, m);
        assert(three(c1, pb) == three(b, pb) && three(c1, pa) == three(b, pa));
        assert(three(c1, at(scr, 11)) == three(b, at(scr, 11)));
        assert(word(c1, at(scr, 7), 4) == word(b, at(scr, 7), 4));
        if three(b, at(scr, 3)) >= 0x80_0000 {
            self.lemma_adding(s1, pa, pb, scr, l, base, m);
            assert(three(c2, at(scr, 3)) == three(c1, at(scr, 3)));
            assert(three(c2, pb) == three(b, pb) && three(c2, pa) == three(b, pa));
        } else {
            self.lemma_adding_over(s1, pa, pb, scr, l, base, m);
        }
        let s3 = self.fmul_halve(s2, pa, pb, l);
        self.lemma_fmul_halve(s2, pa, pb, l, base, m);
        let c3 = exec(s3.rows, base, m);
        lemma_count_down(s3, at(scr, 6), label_at(l, 0), base, m);
        let a = exec(self.fmul_turn(st, pa, pb, scr, l).rows, base, m);
        assert(c3.ram[at(scr, 6)] == b.ram[at(scr, 6)]);
        assert(three(a, at(scr, 3)) == three(c2, at(scr, 3)));
        assert(three(a, at(scr, 11)) == three(c2, at(scr, 11)));
        assert(word(a, at(scr, 7), 4) == word(c2, at(scr, 7), 4));
        assert(three(a, pa) == three(c3, pa) && three(a, pb) == three(c3, pb));
        assert(a.ram[scr] == b.ram[scr] && a.ram[at(scr, 1)] == b.ram[at(scr, 1)] && a.ram[at(scr, 2)]
            == b.ram[at(scr, 2)]);
    }

    proof fn lemma_fmul_mantissas(
        &self,
        st: St,
        pa: u32,
        pb: u32,
        scr: u32,
        l: u32,
        base: int,
        m: Machine,
    )
        requires
            under_way(st, base, m),
            product_slots(pa, pb, scr, self.retval),
            l <= u32::MAX - 40,
            ({
                let b = exec(st.rows, base, m);
                ||| again(b.flow, l)
                ||| b.flow == tmp(l, 18)
            }),
        ensures
            ({
                let b = exec(st.rows, base, m);
                let s = self.mulf_mantissas(st, pa, pb, scr, l);
                let a = exec(s.rows, base, m);
                &&& under_way(s, base, m)
                &&& s.next == st.next
                &&& b.flow == tmp(l, 18) ==> {
                    &&& a.flow is Next
                    &&& a.ram[scr] == b.ram[scr]
                    &&& a.ram[at(scr, 1)] == b.ram[at(scr, 1)]
                    &&& a.ram[at(scr, 2)] == b.ram[at(scr, 2)]
                    &&& three(a, pa) == full_mantissa(word(b, pa, 4))
                    &&& three(a, at(scr, 3)) == full_mantissa(word(b, pb, 4))
                    &&& three(a, pb) == 0
                    &&& word(a, at(scr, 7), 4) == 0
                    &&& three(a, at(scr, 11)) == 0
                    &&& a.ram[at(scr, 6)] == 24
                }
                &&& again(b.flow, l) ==> a == b
            }),
    {
        let b = exec(st.rows, base, m);
        let s4 = self.fmul_first(st, pa, l);
        self.lemma_fmul_first(st, pa, l, base, m);
        let c4 = exec(s4.rows, base, m);
        if b.flow == tmp(l, 18) {
            assert(word(c4, pb, 4) == word(b, pb, 4));
        }
        let s5 = self.fmul_second(s4, pb, scr, l);
        self.lemma_fmul_second(s4, pa, pb, scr, l, base, m);
        let c5 = exec(s5.rows, base, m);
        let s6 = self.fmul_clear(s5, pb, scr);
        self.lemma_fmul_clear(s5, pa, pb, scr, l, base, m);
        assert(self.mulf_mantissas(st, pa, pb, scr, l) == s6) by {
            reveal(Gen::mulf_mantissas);
        }
        let a = exec(s6.rows, base, m);
        if b.flow == tmp(l, 18) {
            assert(three(a, pa) == three(c4, pa));
            assert(three(a, at(scr, 3)) == three(c5, at(scr, 3)));
        }
    }

    /// What a product does before its loop.
    pub open spec fn fmul_head(&self, st: St, pa: u32, pb: u32, scr: u32, l: u32) -> St {
        let st = self.mulf_exponent(st, pa, pb, scr, l);
        let st = self.mulf_specials(st, pa, pb, scr, l);
        let st = self.mulf_zeros(st, pa, pb, scr, l);
        self.mulf_mantissas(st, pa, pb, scr, l)
    }

    pub(crate) proof fn lemma_fmul_head(
        &self,
        st: St,
        pa: u32,
        pb: u32,
        scr: u32,
        l: u32,
        base: int,
        m: Machine,
    )
        requires
            under_way(st, base, m),
            product_slots(pa, pb, scr, self.retval),
            l <= u32::MAX - 40,
            ({
                let b = exec(st.rows, base, m);
                ||| again(b.flow, l)
                ||| b.flow is Next && is_finite_nonzero(word(b, pa, 4)) && is_finite_nonzero(
                    word(b, pb, 4),
                )
            }),
        ensures
            ({
                let b = exec(st.rows, base, m);
                let s = self.fmul_head(st, pa, pb, scr, l);
                let a = exec(s.rows, base, m);
                let (x, y) = (word(b, pa, 4), word(b, pb, 4));
                &&& under_way(s, base, m)
                &&& s.next == st.next
                &&& b.flow is Next ==> {
                    &&& a.flow is Next
                    &&& (a.ram[scr] >= 128) == (negative(x) != negative(y))
                    &&& holds_exponent(a, scr, joint_exponent(x, y))
                    &&& three(a, pa) == full_mantissa(x)
                    &&& three(a, at(scr, 3)) == full_mantissa(y)
                    &&& three(a, pb) == 0
                    &&& word(a, at(scr, 7), 4) == 0
                    &&& three(a, at(scr, 11)) == 0
                    &&& a.ram[at(scr, 6)] == 24
                }
                &&& again(b.flow, l) ==> a == b
            }),
    {
        let b = exec(st.rows, base, m);
        let (x, y) = (word(b, pa, 4), word(b, pb, 4));
        let s1 = self.mulf_exponent(st, pa, pb, scr, l);
        self.lemma_fmul_exponent(st, pa, pb, scr, l, base, m);
        let c1 = exec(s1.rows, base, m);
        if b.flow is Next {
            assert(word(c1, pa, 4) == x && word(c1, pb, 4) == y);
        }
        let s2 = self.mulf_specials(s1, pa, pb, scr, l);
        self.lemma_fmul_specials(s1, pa, pb, scr, l, base, m);
        let c2 = exec(s2.rows, base, m);
        assert(word(c2, pa, 4) == word(c1, pa, 4) && word(c2, pb, 4) == word(c1, pb, 4));
        let s3 = self.mulf_zeros(s2, pa, pb, scr, l);
        self.lemma_fmul_zeros(s2, pa, pb, scr, l, base, m);
        let c3 = exec(s3.rows, base, m);
        if b.flow is Next {
            assert(word(c3, pa, 4) == x && word(c3, pb, 4) == y);
        }
        self.lemma_fmul_mantissas(s3, pa, pb, scr, l, base, m);
    }
}

} // verus!
