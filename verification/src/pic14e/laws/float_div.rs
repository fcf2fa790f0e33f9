//! The float quotient: its operands in place, and one step of the division.
use vstd::prelude::*;
use crate::emit::{
    at, clrf, f_op, goto_tmp, label_at, label_tmp, lit, movf, movlw, movwf, on_c, on_z, ram_bit, w_op, St,
};
use crate::line::{BitOp, Line, LitOp, Op, Sym};
use crate::machine::{exec, group_exec, wrap, Flow, Machine};
use crate::meaning::{apart, flag, pow2, word};
use crate::pic14e::laws::float_chain::three;
use crate::pic14e::laws::float_int::{tmp, under_way};
use crate::pic14e::laws::float_mul::holds_exponent;
use crate::pic14e::laws::float_order::{exponent, fraction, lemma_masks, lemma_parts, negative};
use crate::pic14e::laws::float_parts::{full_mantissa, is_finite_nonzero, scale};
use crate::pic14e::laws::ready;
use crate::pic14e::Gen;

verus! {

/// Whether the slots of a quotient share no byte.
pub open spec fn quotient_slots(pa: u32, pb: u32, scr: u32, r: u32) -> bool {
    &&& pa <= 0xFFFF && pb <= 0xFFFF && scr <= 0xFFFF && r <= 0xFFFF
    &&& apart(pa, 4, pb, 4)
    &&& apart(pa, 4, scr, 12)
    &&& apart(pb, 4, scr, 12)
    &&& apart(r, 4, scr, 12)
    &&& apart(pa, 4, r, 4)
}

/// The biased difference of two exponents.
pub open spec fn apart_exponent(x: int, y: int) -> int {
    exponent(x) - exponent(y) + 127
}

/// How often a mantissa is doubled until its top bit is set.
pub open spec fn lead(v: int) -> int
    decreases 0x100_0000 - v,
{
    if v >= 0x80_0000 || v <= 0 {
        0
    } else {
        1 + lead(2 * v)
    }
}

/// The mantissa doubled that often.
pub open spec fn led(v: int) -> int
    decreases 0x100_0000 - v,
{
    if v >= 0x80_0000 || v <= 0 {
        v
    } else {
        led(2 * v)
    }
}

pub(crate) proof fn lemma_lead(v: int, p: int, j: int)
    requires
        0 < p <= v < 0x100_0000,
        0 <= j <= 23,
        p * pow2(23 - j) == 0x80_0000,
    ensures
        0 <= lead(v) <= 23 - j,
        0x80_0000 <= led(v) < 0x100_0000,
    decreases 23 - j,
{
    if v < 0x80_0000 {
        if j == 23 {
            assert(pow2(0) == 1);
            assert(p * 1 == p);
        } else {
            let h = pow2(23 - j - 1);
            assert(pow2(23 - j) == 2 * h);
            assert((2 * p) * h == p * (2 * h)) by (nonlinear_arith);
            lemma_lead(2 * v, 2 * p, j + 1);
        }
    } else {
        assert(23 - j >= 0);
    }
}

/// Bounds of the shifts.
pub(crate) proof fn lemma_lead_bounds(v: int)
    requires
        0 < v < 0x100_0000,
    ensures
        0 <= lead(v) <= 23,
        0x80_0000 <= led(v) < 0x100_0000,
{
    assert(pow2(23) == 0x80_0000) by {
        reveal_with_fuel(pow2, 25);
    }
    lemma_lead(v, 1, 0);
}

/// The dividend in its shifts, `n` of them done; the divisor untouched.
pub open spec fn first_part(
    m: Machine,
    pa: u32,
    pb: u32,
    scr: u32,
    v: int,
    n: int,
    y: int,
    e: int,
    neg: bool,
) -> bool {
    &&& m.core is Enhanced
    &&& three(m, pa) == v
    &&& 0 <= n <= 24
    &&& m.ram[at(scr, 6)] == n
    &&& word(m, pb, 4) == y
    &&& holds_exponent(m, scr, e)
    &&& -150 <= e <= 400
    &&& (m.ram[scr] >= 128) == neg
}

/// The divisor in its shifts, `k` of them done.
pub open spec fn second_part(
    m: Machine,
    pa: u32,
    pb: u32,
    scr: u32,
    a: int,
    n: int,
    v: int,
    k: int,
    e: int,
    neg: bool,
) -> bool {
    &&& m.core is Enhanced
    &&& three(m, pa) == a
    &&& 0 <= n <= 24
    &&& m.ram[at(scr, 6)] == n
    &&& three(m, pb) == v
    &&& 0 <= k <= 24
    &&& m.ram[at(scr, 10)] == k
    &&& holds_exponent(m, scr, e)
    &&& -150 <= e <= 400
    &&& (m.ram[scr] >= 128) == neg
}

/// The operands in place.
pub open spec fn in_place(m: Machine, pa: u32, scr: u32, a: int, b: int, e: int, neg: bool) -> bool {
    &&& m.core is Enhanced
    &&& three(m, pa) == a
    &&& three(m, at(scr, 7)) == b
    &&& holds_exponent(m, scr, e)
    &&& (m.ram[scr] >= 128) == neg
}

/// What a pass comes to once the dividend is in place.
pub open spec fn first_done(
    m: Machine,
    pa: u32,
    pb: u32,
    scr: u32,
    l: u32,
    a: int,
    n: int,
    y: int,
    e: int,
    neg: bool,
) -> bool {
    if full_mantissa(y) >= 0x80_0000 {
        m.flow is Next && in_place(m, pa, scr, a, full_mantissa(y), e - n, neg)
    } else {
        m.flow == tmp(l, 19) && second_part(m, pa, pb, scr, a, n, 2 * full_mantissa(y), 1, e, neg)
    }
}

/// What a pass over the shifts of the dividend comes to.
pub open spec fn first_passed(
    m: Machine,
    pa: u32,
    pb: u32,
    scr: u32,
    l: u32,
    v: int,
    n: int,
    y: int,
    e: int,
    neg: bool,
) -> bool {
    if v >= 0x80_0000 {
        first_done(m, pa, pb, scr, l, v, n, y, e, neg)
    } else {
        m.flow == tmp(l, 17) && first_part(m, pa, pb, scr, 2 * v, n + 1, y, e, neg)
    }
}

/// What a pass over the shifts of the divisor comes to.
pub open spec fn second_passed(
    m: Machine,
    pa: u32,
    pb: u32,
    scr: u32,
    l: u32,
    a: int,
    n: int,
    v: int,
    k: int,
    e: int,
    neg: bool,
) -> bool {
    if v >= 0x80_0000 {
        m.flow is Next && in_place(m, pa, scr, a, v, e - n + k, neg)
    } else {
        m.flow == tmp(l, 19) && second_part(m, pa, pb, scr, a, n, 2 * v, k + 1, e, neg)
    }
}

/// Whether a run is on its way back to the shifts of an operand.
pub open spec fn shifting(f: Flow, l: u32) -> bool {
    f == tmp(l, 17) || f == tmp(l, 19)
}

/// Whether a run is on its way back to the shifts of an operand, or to one of the
/// two loops of the division.
pub open spec fn inner(f: Flow, l: u32) -> bool {
    f == tmp(l, 3) || f == tmp(l, 8) || shifting(f, l)
}

/// Whether a run is on its way back: to one of these, or to the shifts of a
/// quotient below the normal numbers.
pub open spec fn looping(f: Flow, l: u32) -> bool {
    inner(f, l) || f == tmp(l, 11)
}

/// The high byte of a difference with the bias added, by the carry of the addition
/// and the borrow of the subtraction.
pub open spec fn high_exponent(carry: bool, borrow: bool) -> u8 {
    if carry == borrow {
        0
    } else if carry {
        1
    } else {
        255
    }
}

/// Whether nothing outside the working bytes changed.
pub open spec fn beyond_kept(b: Machine, a: Machine, scr: u32) -> bool {
    forall|y: u32| y < scr || y >= scr + 12 ==> #[trigger] a.ram[y] == b.ram[y]
}

/// Whether an exponent other than zero stands in the two upper bytes at `p`.
pub open spec fn shows_exponent(m: Machine, p: u32) -> bool {
    m.ram[at(p, 3)] % 128 != 0 || m.ram[at(p, 2)] >= 128
}

/// The exponent and the mantissa of a number, as its bytes show them.
#[verifier::rlimit(50)]
proof fn lemma_shown(m: Machine, p: u32)
    ensures
        ({
            let x = word(m, p, 4);
            &&& shows_exponent(m, p) == (exponent(x) != 0)
            &&& full_mantissa(x) == (if shows_exponent(m, p) {
                0x80_0000 + three(m, p) - 0x80_0000 * flag(m.ram[at(p, 2)] >= 128)
            } else {
                three(m, p)
            })
            &&& 0 <= fraction(x) < 0x80_0000
        }),
{
    lemma_parts(m, p);
}

impl<'a> Gen<'a> {
    /// The high byte of the exponent of a quotient.
    pub open spec fn fdiv_bias_high(&self, st: St, scr: u32, l: u32) -> St {
        let rem3 = at(scr, 6);
        st.emit(on_c(BitOp::Btfss)).emit(goto_tmp(label_at(l, 21))).emit(
            ram_bit(BitOp::Btfsc, rem3, 0),
        ).emit(goto_tmp(label_at(l, 22))).emit(movlw(0x01)).emit(goto_tmp(label_at(l, 22))).emit(
            label_tmp(label_at(l, 21)),
        ).emit(ram_bit(BitOp::Btfss, rem3, 0)).emit(goto_tmp(label_at(l, 22))).emit(
            movlw(0xFF),
        ).emit(label_tmp(label_at(l, 22))).emit(movwf(at(scr, 2)))
    }

    #[verifier::rlimit(50)]
    proof fn lemma_fdiv_bias_high(&self, st: St, scr: u32, l: u32, base: int, m: Machine)
        requires
            under_way(st, base, m),
            scr <= 0xFFFF,
            l <= u32::MAX - 50,
            ({
                let b = exec(st.rows, base, m);
                ||| looping(b.flow, l)
                ||| b.flow is Next && b.w == 0
            }),
        ensures
            ({
                let b = exec(st.rows, base, m);
                let s = self.fdiv_bias_high(st, scr, l);
                let a = exec(s.rows, base, m);
                &&& base <= s.rows.len()
                &&& b.flow is Next ==> a.flow is Next && a.core == b.core && a.ram == b.ram.insert(
                    at(scr, 2),
                    high_exponent(b.c, b.ram[at(scr, 6)] % 2 == 1),
                )
                &&& looping(b.flow, l) ==> a == b
            }),
    {
        let b = exec(st.rows, base, m);
        let s = self.fdiv_bias_high(st, scr, l);
        let a = exec(s.rows, base, m);
        assert(base <= s.rows.len());
        if looping(b.flow, l) {
            assert(a == b) by {
                broadcast use group_exec;

            }
        } else if b.c {
            assert(a.flow is Next && a.core == b.core && a.ram == b.ram.insert(
                at(scr, 2),
                high_exponent(true, b.ram[at(scr, 6)] % 2 == 1),
            )) by {
                broadcast use group_exec;

            }
        } else {
            assert(a.flow is Next && a.core == b.core && a.ram == b.ram.insert(
                at(scr, 2),
                high_exponent(false, b.ram[at(scr, 6)] % 2 == 1),
            )) by {
                broadcast use group_exec;

            }
        }
    }

    /// The low byte of the exponent of a quotient.
    pub open spec fn fdiv_bias(&self, st: St, scr: u32) -> St {
        let e = at(scr, 1);
        let rem3 = at(scr, 6);
        let spare = at(scr, 11);
        st.emit(movf(e)).emit(w_op(Op::Subwf, spare)).emit(movwf(spare)).emit(clrf(rem3)).emit(
            on_c(BitOp::Btfss),
        ).emit(ram_bit(BitOp::Bsf, rem3, 0)).emit(lit(LitOp::Addlw, 0x7F)).emit(movwf(e)).emit(
            movlw(0x00),
        )
    }

    #[verifier::rlimit(50)]
    proof fn lemma_fdiv_bias(&self, st: St, scr: u32, l: u32, base: int, m: Machine)
        requires
            under_way(st, base, m),
            scr <= 0xFFFF,
            l <= u32::MAX - 50,
            ({
                let b = exec(st.rows, base, m);
                ||| looping(b.flow, l)
                ||| b.flow is Next
            }),
        ensures
            ({
                let b = exec(st.rows, base, m);
                let s = self.fdiv_bias(st, scr);
                let a = exec(s.rows, base, m);
                &&& base <= s.rows.len()
                &&& b.flow is Next ==> {
                    &&& a.flow is Next
                    &&& a.core == b.core
                    &&& a.w == 0
                    &&& a.ram[at(scr, 1)] == (b.ram[at(scr, 11)] - b.ram[at(scr, 1)] + 127) % 256
                    &&& (a.ram[at(scr, 6)] % 2 == 1) == (b.ram[at(scr, 11)] < b.ram[at(scr, 1)])
                    &&& a.c == (a.ram[at(scr, 6)] % 2 == 1) <==> 0 <= b.ram[at(scr, 11)] - b.ram[at(
                        scr,
                        1,
                    )] + 127 <= 255
                    &&& a.ram[scr] == b.ram[scr]
                    &&& beyond_kept(b, a, scr)
                }
                &&& looping(b.flow, l) ==> a == b
            }),
    {
        let b = exec(st.rows, base, m);
        let s = self.fdiv_bias(st, scr);
        let a = exec(s.rows, base, m);
        assert(base <= s.rows.len());
        let e = at(scr, 1);
        let rem3 = at(scr, 6);
        let spare = at(scr, 11);
        let (x, y) = (b.ram[spare] as int, b.ram[e] as int);
        if looping(b.flow, l) {
            assert(a == b) by {
                broadcast use group_exec;

            }
        } else {
            let s1 = st.emit(movf(e)).emit(w_op(Op::Subwf, spare)).emit(movwf(spare)).emit(
                clrf(rem3),
            ).emit(on_c(BitOp::Btfss)).emit(ram_bit(BitOp::Bsf, rem3, 0));
            let c = exec(s1.rows, base, m);
            let d: u8 = if x >= y {
                (x - y) as u8
            } else {
                (x - y + 256) as u8
            };
            assert(base <= s1.rows.len() && c.flow is Next && c.core == b.core && c.w == d && c.ram
                == b.ram.insert(spare, d).insert(
                rem3,
                if x >= y {
                    0u8
                } else {
                    1u8
                },
            )) by {
                broadcast use group_exec;

            }
            assert(a.flow is Next && a.core == b.core && a.w == 0 && a.c == (d + 127 >= 256) && a.ram
                == c.ram.insert(e, wrap(d + 127))) by {
                broadcast use group_exec;

            }
            assert(wrap(d + 127) == (x - y + 127) % 256);
        }
    }

    #[verifier::rlimit(50)]
    proof fn lemma_fdiv_exponent(
        &self,
        st: St,
        pa: u32,
        pb: u32,
        scr: u32,
        l: u32,
        base: int,
        m: Machine,
    )
        requires
            under_way(st, base, m),
            quotient_slots(pa, pb, scr, self.retval),
            l <= u32::MAX - 50,
            ({
                let b = exec(st.rows, base, m);
                ||| looping(b.flow, l)
                ||| b.flow is Next
            }),
        ensures
            ({
                let b = exec(st.rows, base, m);
                let s = self.divf_exponent(st, pa, pb, scr, l);
                let a = exec(s.rows, base, m);
                let (x, y) = (word(b, pa, 4), word(b, pb, 4));
                &&& under_way(s, base, m)
                &&& s.next == st.next
                &&& b.flow is Next ==> {
                    &&& a.flow is Next
                    &&& (a.ram[scr] >= 128) == (negative(x) != negative(y))
                    &&& holds_exponent(a, scr, apart_exponent(x, y))
                    &&& beyond_kept(b, a, scr)
                }
                &&& looping(b.flow, l) ==> a == b
            }),
    {
        let b = exec(st.rows, base, m);
        let e = at(scr, 1);
        let spare = at(scr, 11);
        let s1 = self.joint_sign(st, pa, pb, scr);
        self.lemma_joint_sign(st, pa, pb, scr, base, m);
        let s2 = self.unpack_exponent(s1, pa, spare);
        self.lemma_unpack_exponent(s1, pa, spare, base, m);
        let s3 = self.unpack_exponent(s2, pb, e);
        self.lemma_unpack_exponent(s2, pb, e, base, m);
        let c1 = exec(s1.rows, base, m);
        let c2 = exec(s2.rows, base, m);
        let c3 = exec(s3.rows, base, m);
        if b.flow is Next {
            assert(word(c1, pa, 4) == word(b, pa, 4));
            assert(word(c2, pb, 4) == word(b, pb, 4));
            assert(c3.ram[spare] == exponent(word(b, pa, 4)));
            assert(beyond_kept(b, c3, scr));
            assert(c3.ram[scr] == c1.ram[scr]);
        }
        let s4 = self.fdiv_bias(s3, scr);
        self.lemma_fdiv_bias(s3, scr, l, base, m);
        let s5 = self.fdiv_bias_high(s4, scr, l);
        self.lemma_fdiv_bias_high(s4, scr, l, base, m);
        assert(self.divf_exponent(st, pa, pb, scr, l) == s5) by {
            reveal(Gen::divf_exponent);
        }
    }

    #[verifier::rlimit(50)]
    pub(crate) proof fn lemma_fdiv_specials(
        &self,
        st: St,
        pa: u32,
        pb: u32,
        scr: u32,
        l: u32,
        base: int,
        m: Machine,
    )
        requires
            under_way(st, base, m),
            l <= u32::MAX - 50,
            ({
                let b = exec(st.rows, base, m);
                ||| looping(b.flow, l)
                ||| b.flow is Next && exponent(word(b, pa, 4)) <= 254 && exponent(
                    word(b, pb, 4),
                ) <= 254
            }),
        ensures
            ({
                let b = exec(st.rows, base, m);
                let s = self.divf_specials(st, pa, pb, scr, l);
                let a = exec(s.rows, base, m);
                &&& under_way(s, base, m)
                &&& s.next == st.next
                &&& a.flow == b.flow
                &&& a.core == b.core
                &&& a.ram == b.ram
                &&& looping(b.flow, l) ==> a == b
            }),
    {
        let b = exec(st.rows, base, m);
        let t = at(scr, 11);
        let l_nan = label_at(l, 2);
        let s1 = self.not_ff(st, pa, t, label_at(l, 23), label_at(l, 24), l_nan);
        self.lemma_not_ff(st, pa, t, l, 23, label_at(l, 24), l_nan, base, m);
        let s2 = s1.emit(label_tmp(label_at(l, 23)));
        let c1 = exec(s1.rows, base, m);
        let c2 = exec(s2.rows, base, m);
        assert(base <= s2.rows.len() && (b.flow is Next ==> c2 == (Machine { flow: Flow::Next, ..c1 }))
            && (b.flow is Seek ==> c2 == b)) by {
            broadcast use group_exec;

        }
        assert(word(c2, pb, 4) == word(b, pb, 4));
        let s3 = self.not_ff(s2, pb, t, label_at(l, 25), label_at(l, 26), l_nan);
        self.lemma_not_ff(s2, pb, t, l, 25, label_at(l, 26), l_nan, base, m);
        let c3 = exec(s3.rows, base, m);
        let s4 = s3.emit(label_tmp(label_at(l, 24)));
        assert(under_way(s4, base, m) && exec(s4.rows, base, m) == c3) by {
            broadcast use group_exec;

        }
        let s5 = self.inf_by_inf(s4, pb, l_nan, label_at(l, 27));
        assert(under_way(s5, base, m) && exec(s5.rows, base, m) == c3) by {
            broadcast use group_exec;

        }
        let s6 = self.fdiv_by_inf(s5, pa, l);
        assert(under_way(s6, base, m) && exec(s6.rows, base, m) == c3) by {
            broadcast use group_exec;

        }
        let s7 = s6.emit(label_tmp(label_at(l, 25)));
        assert(base <= s7.rows.len() && (b.flow is Next ==> exec(s7.rows, base, m) == (Machine {
            flow: Flow::Next,
            ..c3
        })) && (b.flow is Seek ==> exec(s7.rows, base, m) == b)) by {
            broadcast use group_exec;

        }
        assert(self.divf_specials(st, pa, pb, scr, l) == s7) by {
            reveal(Gen::divf_specials);
        }
    }

    /// The divisor of an infinity: only a finite one leaves a number.
    pub open spec fn inf_by_inf(&self, st: St, p: u32, l_nan: u32, l_fin: u32) -> St {
        st.emit(movf(at(p, 3))).emit(lit(LitOp::Andlw, 0x7F)).emit(lit(LitOp::Xorlw, 0x7F)).emit(
            on_z(BitOp::Btfss),
        ).emit(goto_tmp(l_fin)).emit(ram_bit(BitOp::Btfss, at(p, 2), 7)).emit(goto_tmp(l_fin)).emit(
            goto_tmp(l_nan),
        )
    }

    /// An infinity by a finite number, and the reverse.
    pub open spec fn fdiv_by_inf(&self, st: St, pa: u32, l: u32) -> St {
        st.emit(label_tmp(label_at(l, 27))).emit(goto_tmp(label_at(l, 1))).emit(
            label_tmp(label_at(l, 26)),
        ).emit(movf(at(pa, 3))).emit(lit(LitOp::Andlw, 0x7F)).emit(on_z(BitOp::Btfss)).emit(
            goto_tmp(label_at(l, 28)),
        ).emit(ram_bit(BitOp::Btfsc, at(pa, 2), 7)).emit(goto_tmp(label_at(l, 28))).emit(
            goto_tmp(label_at(l, 0)),
        ).emit(label_tmp(label_at(l, 28))).emit(goto_tmp(label_at(l, 0)))
    }

    /// A zero quotient.
    pub open spec fn fdiv_zero(&self, st: St, scr: u32, l: u32) -> St {
        let r = self.retval;
        st.emit(label_tmp(label_at(l, 0))).emit(clrf(r)).emit(clrf(at(r, 1))).emit(clrf(at(r, 2))).emit(
            clrf(at(r, 3)),
        ).emit(ram_bit(BitOp::Btfsc, scr, 7)).emit(ram_bit(BitOp::Bsf, at(r, 3), 7)).emit(Line::Return)
    }

    /// The quotients that are no number or zero.
    pub open spec fn fdiv_results(&self, st: St, scr: u32, l: u32) -> St {
        self.fdiv_zero(
            self.infinity(
                self.quiet_nan(st.emit(label_tmp(label_at(l, 2))), scr).emit(label_tmp(label_at(l, 1))),
                scr,
            ),
            scr,
            l,
        )
    }

    #[verifier::rlimit(50)]
    proof fn lemma_fdiv_results(&self, st: St, scr: u32, l: u32, base: int, m: Machine)
        requires
            under_way(st, base, m),
            l <= u32::MAX - 50,
            ({
                let b = exec(st.rows, base, m);
                looping(b.flow, l) || b.flow == tmp(l, 34)
            }),
        ensures
            ({
                let s = self.fdiv_results(st, scr, l);
                &&& under_way(s, base, m)
                &&& exec(s.rows, base, m) == exec(st.rows, base, m)
            }),
    {
        let s6 = self.infinity(
            self.quiet_nan(st.emit(label_tmp(label_at(l, 2))), scr).emit(label_tmp(label_at(l, 1))),
            scr,
        );
        self.lemma_results_over(st, scr, label_at(l, 2), label_at(l, 1), base, m);
        let c = exec(s6.rows, base, m);
        let s7 = self.fdiv_zero(s6, scr, l);
        assert(base <= s6.rows.len() <= s7.rows.len());
        assert(exec(s7.rows, base, m) == c) by {
            broadcast use group_exec;

        }
    }

    #[verifier::rlimit(50)]
    proof fn lemma_fdiv_zeros(
        &self,
        st: St,
        pa: u32,
        pb: u32,
        scr: u32,
        l: u32,
        base: int,
        m: Machine,
    )
        requires
            under_way(st, base, m),
            quotient_slots(pa, pb, scr, self.retval),
            l <= u32::MAX - 50,
            ({
                let b = exec(st.rows, base, m);
                ||| looping(b.flow, l)
                ||| b.flow is Next && is_finite_nonzero(word(b, pa, 4)) && is_finite_nonzero(
                    word(b, pb, 4),
                )
            }),
        ensures
            ({
                let b = exec(st.rows, base, m);
                let s = self.divf_zeros(st, pa, pb, scr, l);
                let a = exec(s.rows, base, m);
                &&& under_way(s, base, m)
                &&& s.next == st.next
                &&& b.flow is Next ==> {
                    &&& a.flow == tmp(l, 34)
                    &&& a.core == b.core
                    &&& forall|y: u32| y != at(scr, 11) ==> #[trigger] a.ram[y] == b.ram[y]
                }
                &&& looping(b.flow, l) ==> a == b
            }),
    {
        let b = exec(st.rows, base, m);
        let t = at(scr, 11);
        let s1 = self.nonzero(st, pa, t, label_at(l, 29));
        if b.flow is Next {
            self.lemma_nonzero_any(st, pa, t, label_at(l, 29), base, m);
        } else {
            self.lemma_nonzero(st, pa, t, l, 29, base, m);
        }
        let c1 = exec(s1.rows, base, m);
        let s2 = self.nonzero(s1, pb, t, label_at(l, 0));
        self.lemma_nonzero(s1, pb, t, l, 0, base, m);
        let s3 = s2.emit(goto_tmp(label_at(l, 2))).emit(label_tmp(label_at(l, 29)));
        let c3 = exec(s3.rows, base, m);
        assert(base <= s3.rows.len() && (b.flow is Next ==> c3 == (Machine { flow: Flow::Next, ..c1 }))
            && (b.flow is Seek ==> c3 == b)) by {
            broadcast use group_exec;

        }
        if b.flow is Next {
            assert(word(c3, pb, 4) == word(b, pb, 4));
        }
        let s4 = self.nonzero(s3, pb, t, label_at(l, 34));
        if b.flow is Next {
            self.lemma_nonzero_any(s3, pb, t, label_at(l, 34), base, m);
        } else {
            self.lemma_nonzero(s3, pb, t, l, 34, base, m);
        }
        let c4 = exec(s4.rows, base, m);
        let s5 = s4.emit(goto_tmp(label_at(l, 1)));
        assert(under_way(s5, base, m) && exec(s5.rows, base, m) == c4) by {
            broadcast use group_exec;

        }
        let s7 = self.fdiv_results(s5, scr, l);
        self.lemma_fdiv_results(s5, scr, l, base, m);
        assert(self.divf_zeros(st, pa, pb, scr, l) == s7) by {
            reveal(Gen::divf_zeros);
        }
    }

    /// The exponent one up for a dividend without an exponent.
    pub open spec fn fdiv_small_first(&self, st: St, pa: u32, scr: u32, l: u32) -> St {
        let e = at(scr, 1);
        st.emit(movf(at(pa, 3))).emit(lit(LitOp::Andlw, 0x7F)).emit(on_z(BitOp::Btfss)).emit(
            goto_tmp(label_at(l, 35)),
        ).emit(ram_bit(BitOp::Btfsc, at(pa, 2), 7)).emit(goto_tmp(label_at(l, 35))).emit(
            f_op(Op::Incf, e),
        ).emit(on_z(BitOp::Btfsc)).emit(f_op(Op::Incf, at(e, 1))).emit(label_tmp(label_at(l, 35)))
    }

    #[verifier::rlimit(50)]
    proof fn lemma_fdiv_small_first(
        &self,
        st: St,
        pa: u32,
        scr: u32,
        l: u32,
        e: int,
        base: int,
        m: Machine,
    )
        requires
            under_way(st, base, m),
            scr <= 0xFFFF,
            l <= u32::MAX - 50,
            ({
                let b = exec(st.rows, base, m);
                looping(b.flow, l) || b.flow is Next && holds_exponent(b, scr, e) && e <= 500
            }),
        ensures
            ({
                let b = exec(st.rows, base, m);
                let s = self.fdiv_small_first(st, pa, scr, l);
                let a = exec(s.rows, base, m);
                &&& base <= s.rows.len()
                &&& b.flow is Next ==> {
                    &&& a.flow is Next
                    &&& a.core == b.core
                    &&& holds_exponent(a, scr, e + flag(!shows_exponent(b, pa)))
                    &&& forall|y: u32| y != at(scr, 1) && y != at(scr, 2) ==> #[trigger] a.ram[y]
                        == b.ram[y]
                }
                &&& looping(b.flow, l) ==> a == b
            }),
    {
        let b = exec(st.rows, base, m);
        let s = self.fdiv_small_first(st, pa, scr, l);
        let a = exec(s.rows, base, m);
        lemma_masks();
        assert(base <= s.rows.len());
        assert(at(at(scr, 1), 1) == at(scr, 2));
        let (x, y) = (b.ram[at(scr, 1)], b.ram[at(scr, 2)]);
        if looping(b.flow, l) {
            assert(a == b) by {
                broadcast use group_exec;

            }
        } else if shows_exponent(b, pa) {
            assert(a.flow is Next && a.core == b.core && a.ram == b.ram) by {
                broadcast use group_exec;

            }
        } else if x == 255 {
            assert(a.flow is Next && a.core == b.core && a.ram == b.ram.insert(at(scr, 1), 0).insert(
                at(scr, 2),
                wrap(y + 1),
            )) by {
                broadcast use group_exec;

            }
        } else {
            assert(a.flow is Next && a.core == b.core && a.ram == b.ram.insert(
                at(scr, 1),
                (x + 1) as u8,
            )) by {
                broadcast use group_exec;

            }
        }
    }

    /// The exponent one down for a divisor without an exponent.
    pub open spec fn fdiv_small_second(&self, st: St, pb: u32, scr: u32, l: u32) -> St {
        let e = at(scr, 1);
        st.emit(movf(at(pb, 3))).emit(lit(LitOp::Andlw, 0x7F)).emit(on_z(BitOp::Btfss)).emit(
            goto_tmp(label_at(l, 36)),
        ).emit(ram_bit(BitOp::Btfsc, at(pb, 2), 7)).emit(goto_tmp(label_at(l, 36))).emit(
            movlw(0x01),
        ).emit(f_op(Op::Subwf, e)).emit(on_c(BitOp::Btfsc)).emit(goto_tmp(label_at(l, 36))).emit(
            movlw(0x01),
        ).emit(f_op(Op::Subwf, at(e, 1))).emit(label_tmp(label_at(l, 36)))
    }

    #[verifier::rlimit(50)]
    proof fn lemma_fdiv_small_second(
        &self,
        st: St,
        pb: u32,
        scr: u32,
        l: u32,
        e: int,
        base: int,
        m: Machine,
    )
        requires
            under_way(st, base, m),
            scr <= 0xFFFF,
            l <= u32::MAX - 50,
            ({
                let b = exec(st.rows, base, m);
                looping(b.flow, l) || b.flow is Next && holds_exponent(b, scr, e) && e >= -200
            }),
        ensures
            ({
                let b = exec(st.rows, base, m);
                let s = self.fdiv_small_second(st, pb, scr, l);
                let a = exec(s.rows, base, m);
                &&& base <= s.rows.len()
                &&& b.flow is Next ==> {
                    &&& a.flow is Next
                    &&& a.core == b.core
                    &&& holds_exponent(a, scr, e - flag(!shows_exponent(b, pb)))
                    &&& forall|y: u32| y != at(scr, 1) && y != at(scr, 2) ==> #[trigger] a.ram[y]
                        == b.ram[y]
                }
                &&& looping(b.flow, l) ==> a == b
            }),
    {
        let b = exec(st.rows, base, m);
        let s = self.fdiv_small_second(st, pb, scr, l);
        let a = exec(s.rows, base, m);
        lemma_masks();
        assert(base <= s.rows.len());
        assert(at(at(scr, 1), 1) == at(scr, 2));
        let (x, y) = (b.ram[at(scr, 1)], b.ram[at(scr, 2)]);
        if looping(b.flow, l) {
            assert(a == b) by {
                broadcast use group_exec;

            }
        } else if shows_exponent(b, pb) {
            assert(a.flow is Next && a.core == b.core && a.ram == b.ram) by {
                broadcast use group_exec;

            }
        } else if x == 0 {
            assert(a.flow is Next && a.core == b.core && a.ram == b.ram.insert(at(scr, 1), 255).insert(
                at(scr, 2),
                wrap(y - 1),
            )) by {
                broadcast use group_exec;

            }
        } else {
            assert(a.flow is Next && a.core == b.core && a.ram == b.ram.insert(
                at(scr, 1),
                (x - 1) as u8,
            )) by {
                broadcast use group_exec;

            }
        }
    }

    /// An exponent of zero counts as one.
    #[verifier::rlimit(50)]
    proof fn lemma_fdiv_small(
        &self,
        st: St,
        pa: u32,
        pb: u32,
        scr: u32,
        l: u32,
        e: int,
        base: int,
        m: Machine,
    )
        requires
            under_way(st, base, m),
            quotient_slots(pa, pb, scr, self.retval),
            l <= u32::MAX - 50,
            ({
                let b = exec(st.rows, base, m);
                ||| looping(b.flow, l)
                ||| b.flow == tmp(l, 34) && holds_exponent(b, scr, e) && -150 <= e <= 390
            }),
        ensures
            ({
                let b = exec(st.rows, base, m);
                let s = self.divf_bias(st, pa, pb, scr, l);
                let a = exec(s.rows, base, m);
                &&& under_way(s, base, m)
                &&& s.next == st.next
                &&& b.flow == tmp(l, 34) ==> {
                    &&& a.flow is Next
                    &&& a.core == b.core
                    &&& holds_exponent(
                        a,
                        scr,
                        e + flag(!shows_exponent(b, pa)) - flag(!shows_exponent(b, pb)),
                    )
                    &&& forall|y: u32| y != at(scr, 1) && y != at(scr, 2) ==> #[trigger] a.ram[y]
                        == b.ram[y]
                }
                &&& looping(b.flow, l) ==> a == b
            }),
    {
        let b = exec(st.rows, base, m);
        let s0 = st.emit(label_tmp(label_at(l, 34)));
        assert(base <= s0.rows.len());
        assert(exec(s0.rows, base, m) == (if looping(b.flow, l) {
            b
        } else {
            Machine { flow: Flow::Next, ..b }
        })) by {
            broadcast use group_exec;

        }
        let s1 = self.fdiv_small_first(s0, pa, scr, l);
        self.lemma_fdiv_small_first(s0, pa, scr, l, e, base, m);
        let c1 = exec(s1.rows, base, m);
        if b.flow == tmp(l, 34) {
            assert(shows_exponent(c1, pb) == shows_exponent(b, pb));
        }
        let s2 = self.fdiv_small_second(s1, pb, scr, l);
        self.lemma_fdiv_small_second(
            s1,
            pb,
            scr,
            l,
            e + flag(!shows_exponent(b, pa)),
            base,
            m,
        );
        assert(self.divf_bias(st, pa, pb, scr, l) == s2) by {
            reveal(Gen::divf_bias);
        }
    }

    /// The mantissa with its implicit bit, and no shifts yet.
    pub open spec fn fdiv_front(&self, st: St, p: u32, cnt: u32, l_imp: u32, l_ready: u32) -> St {
        st.emit(movf(at(p, 3))).emit(lit(LitOp::Andlw, 0x7F)).emit(on_z(BitOp::Btfss)).emit(
            goto_tmp(l_imp),
        ).emit(ram_bit(BitOp::Btfsc, at(p, 2), 7)).emit(goto_tmp(l_imp)).emit(goto_tmp(l_ready)).emit(
            label_tmp(l_imp),
        ).emit(ram_bit(BitOp::Bsf, at(p, 2), 7)).emit(label_tmp(l_ready)).emit(clrf(cnt))
    }

    /// One shift, unless the top bit is set.
    pub open spec fn fdiv_shift(&self, st: St, p: u32, cnt: u32, l_norm: u32, l_done: u32) -> St {
        self.left3(
            st.emit(label_tmp(l_norm)).emit(ram_bit(BitOp::Btfsc, at(p, 2), 7)).emit(
                goto_tmp(l_done),
            ).emit(on_c(BitOp::Bcf)),
            p,
        ).emit(f_op(Op::Incf, cnt)).emit(goto_tmp(l_norm)).emit(label_tmp(l_done))
    }

    #[verifier::rlimit(50)]
    proof fn lemma_fdiv_front(
        &self,
        st: St,
        p: u32,
        cnt: u32,
        l_imp: u32,
        l_ready: u32,
        base: int,
        m: Machine,
    )
        requires
            under_way(st, base, m),
            p <= 0xFFFF,
            cnt <= 0x1_FFFF,
            apart(p, 4, cnt, 1),
            l_imp != l_ready,
            ({
                let f = exec(st.rows, base, m).flow;
                ||| f is Next
                ||| f is Seek && f != Flow::Seek(Sym::Tmp(l_imp)) && f != Flow::Seek(
                    Sym::Tmp(l_ready),
                )
            }),
        ensures
            ({
                let b = exec(st.rows, base, m);
                let s = self.fdiv_front(st, p, cnt, l_imp, l_ready);
                let a = exec(s.rows, base, m);
                &&& base <= s.rows.len()
                &&& b.flow is Next ==> {
                    &&& a.flow is Next
                    &&& a.core == b.core
                    &&& three(a, p) == full_mantissa(word(b, p, 4))
                    &&& a.ram[cnt] == 0
                    &&& forall|y: u32| y != at(p, 2) && y != cnt ==> #[trigger] a.ram[y] == b.ram[y]
                }
                &&& b.flow is Seek ==> a == b
            }),
    {
        let b = exec(st.rows, base, m);
        let x = b.ram[at(p, 2)];
        let s1 = st.emit(movf(at(p, 3))).emit(lit(LitOp::Andlw, 0x7F)).emit(on_z(BitOp::Btfss)).emit(
            goto_tmp(l_imp),
        ).emit(ram_bit(BitOp::Btfsc, at(p, 2), 7)).emit(goto_tmp(l_imp));
        let c1 = exec(s1.rows, base, m);
        let s2 = self.fdiv_front(st, p, cnt, l_imp, l_ready);
        let a = exec(s2.rows, base, m);
        assert(base <= s1.rows.len() <= s2.rows.len());
        if b.flow is Seek {
            assert(c1 == b) by {
                broadcast use group_exec;

            }
            assert(a == b) by {
                broadcast use group_exec;

            }
        } else {
            lemma_masks();
            lemma_shown(b, p);
            assert(c1.core == b.core && c1.ram == b.ram && c1.flow == (if shows_exponent(b, p) {
                Flow::Seek(Sym::Tmp(l_imp))
            } else {
                Flow::Next
            })) by {
                broadcast use group_exec;

            }
            if shows_exponent(b, p) {
                assert(a.core == b.core && a.flow is Next && a.ram == b.ram.insert(
                    at(p, 2),
                    (128 + x % 128) as u8,
                ).insert(cnt, 0)) by {
                    broadcast use group_exec;

                }
            } else {
                assert(a.core == b.core && a.flow is Next && a.ram == b.ram.insert(cnt, 0)) by {
                    broadcast use group_exec;

                }
            }
        }
    }

    #[verifier::rlimit(50)]
    proof fn lemma_fdiv_shift(
        &self,
        st: St,
        p: u32,
        cnt: u32,
        l_norm: u32,
        l_done: u32,
        base: int,
        m: Machine,
    )
        requires
            under_way(st, base, m),
            p <= 0xFFFF,
            cnt <= 0x1_FFFF,
            apart(p, 4, cnt, 1),
            l_norm != l_done,
            ({
                let b = exec(st.rows, base, m);
                ||| b.flow is Next && b.ram[cnt] < 100
                ||| b.flow == Flow::Seek(Sym::Tmp(l_norm)) && b.ram[cnt] < 100
                ||| b.flow is Seek && b.flow != Flow::Seek(Sym::Tmp(l_norm)) && b.flow != Flow::Seek(
                    Sym::Tmp(l_done),
                )
            }),
        ensures
            ({
                let b = exec(st.rows, base, m);
                let s = self.fdiv_shift(st, p, cnt, l_norm, l_done);
                let a = exec(s.rows, base, m);
                let v = three(b, p);
                &&& base <= s.rows.len()
                &&& if b.flow is Next || b.flow == Flow::Seek(Sym::Tmp(l_norm)) {
                    &&& a.core == b.core
                    &&& if v >= 0x80_0000 {
                        a.flow is Next && a.ram == b.ram
                    } else {
                        &&& a.flow == Flow::Seek(Sym::Tmp(l_norm))
                        &&& three(a, p) == 2 * v
                        &&& a.ram[cnt] == b.ram[cnt] + 1
                        &&& forall|y: u32| (y < p || y >= p + 3) && y != cnt ==> #[trigger] a.ram[y]
                            == b.ram[y]
                    }
                } else {
                    a == b
                }
            }),
    {
        let b = exec(st.rows, base, m);
        let v = three(b, p);
        let s1 = st.emit(label_tmp(l_norm)).emit(ram_bit(BitOp::Btfsc, at(p, 2), 7)).emit(
            goto_tmp(l_done),
        ).emit(on_c(BitOp::Bcf));
        let c1 = exec(s1.rows, base, m);
        let s2 = self.left3(s1, p);
        let s3 = self.fdiv_shift(st, p, cnt, l_norm, l_done);
        let a = exec(s3.rows, base, m);
        assert(base <= s1.rows.len() <= s2.rows.len() <= s3.rows.len());
        assert(v >= 0x80_0000 <==> b.ram[at(p, 2)] >= 128);
        if b.flow is Next || b.flow == Flow::Seek(Sym::Tmp(l_norm)) {
            if v >= 0x80_0000 {
                assert(c1.core == b.core && c1.ram == b.ram && c1.flow == Flow::Seek(
                    Sym::Tmp(l_done),
                )) by {
                    broadcast use group_exec;

                }
                assert(a.core == b.core && a.ram == b.ram && a.flow is Next) by {
                    broadcast use group_exec;

                }
            } else {
                assert(ready(s1, base, m) && c1.core == b.core && c1.ram == b.ram && !c1.c) by {
                    broadcast use group_exec;

                }
                self.lemma_left3(s1, p, base, m);
                let c2 = exec(s2.rows, base, m);
                assert(three(c1, p) == v);
                assert(a.core == b.core && a.flow == Flow::Seek(Sym::Tmp(l_norm)) && a.ram
                    == c2.ram.insert(cnt, (c2.ram[cnt] + 1) as u8)) by {
                    broadcast use group_exec;

                }
                assert(three(a, p) == three(c2, p));
            }
        } else {
            assert(c1 == b) by {
                broadcast use group_exec;

            }
            assert(a == b) by {
                broadcast use group_exec;

            }
        }
    }

    /// The exponent corrected by the shifts, and the denominator copied.
    pub open spec fn fdiv_ready(&self, st: St, pb: u32, scr: u32, l: u32) -> St {
        let e = at(scr, 1);
        st.emit(movf(at(scr, 6))).emit(f_op(Op::Subwf, e)).emit(on_c(BitOp::Btfsc)).emit(
            goto_tmp(label_at(l, 37)),
        ).emit(movlw(0x01)).emit(f_op(Op::Subwf, at(e, 1))).emit(label_tmp(label_at(l, 37))).emit(
            movf(at(scr, 10)),
        ).emit(f_op(Op::Addwf, e)).emit(on_c(BitOp::Btfsc)).emit(f_op(Op::Incf, at(e, 1))).emit(
            movf(pb),
        ).emit(movwf(at(scr, 7))).emit(movf(at(pb, 1))).emit(movwf(at(scr, 8))).emit(
            movf(at(pb, 2)),
        ).emit(movwf(at(scr, 9)))
    }

    /// The exponent less by the shifts of the dividend.
    pub open spec fn fdiv_fewer(&self, st: St, scr: u32, l: u32) -> St {
        let e = at(scr, 1);
        st.emit(movf(at(scr, 6))).emit(f_op(Op::Subwf, e)).emit(on_c(BitOp::Btfsc)).emit(
            goto_tmp(label_at(l, 37)),
        ).emit(movlw(0x01)).emit(f_op(Op::Subwf, at(e, 1))).emit(label_tmp(label_at(l, 37)))
    }

    /// The exponent more by the shifts of the divisor.
    pub open spec fn fdiv_further(&self, st: St, scr: u32) -> St {
        let e = at(scr, 1);
        st.emit(movf(at(scr, 10))).emit(f_op(Op::Addwf, e)).emit(on_c(BitOp::Btfsc)).emit(
            f_op(Op::Incf, at(e, 1)),
        )
    }

    #[verifier::rlimit(50)]
    proof fn lemma_fdiv_fewer(&self, st: St, scr: u32, l: u32, e: int, base: int, m: Machine)
        requires
            under_way(st, base, m),
            scr <= 0xFFFF,
            l <= u32::MAX - 50,
            ({
                let b = exec(st.rows, base, m);
                ||| looping(b.flow, l)
                ||| b.flow is Next && b.ram[at(scr, 6)] <= 24 && holds_exponent(b, scr, e) && -150
                    <= e <= 400
            }),
        ensures
            ({
                let b = exec(st.rows, base, m);
                let s = self.fdiv_fewer(st, scr, l);
                let a = exec(s.rows, base, m);
                &&& base <= s.rows.len()
                &&& b.flow is Next ==> {
                    &&& a.flow is Next
                    &&& a.core == b.core
                    &&& holds_exponent(a, scr, e - b.ram[at(scr, 6)])
                    &&& forall|y: u32| y != at(scr, 1) && y != at(scr, 2) ==> #[trigger] a.ram[y]
                        == b.ram[y]
                }
                &&& looping(b.flow, l) ==> a == b
            }),
    {
        let b = exec(st.rows, base, m);
        let s = self.fdiv_fewer(st, scr, l);
        let a = exec(s.rows, base, m);
        assert(base <= s.rows.len());
        assert(at(at(scr, 1), 1) == at(scr, 2));
        let (x, y, n) = (b.ram[at(scr, 1)], b.ram[at(scr, 2)], b.ram[at(scr, 6)]);
        if looping(b.flow, l) {
            assert(a == b) by {
                broadcast use group_exec;

            }
        } else if x >= n {
            assert(a.flow is Next && a.core == b.core && a.ram == b.ram.insert(
                at(scr, 1),
                (x - n) as u8,
            )) by {
                broadcast use group_exec;

            }
        } else {
            assert(a.flow is Next && a.core == b.core && a.ram == b.ram.insert(
                at(scr, 1),
                wrap(x - n),
            ).insert(at(scr, 2), wrap(y - 1))) by {
                broadcast use group_exec;

            }
        }
    }

    #[verifier::rlimit(50)]
    proof fn lemma_fdiv_further(&self, st: St, scr: u32, l: u32, e: int, base: int, m: Machine)
        requires
            under_way(st, base, m),
            scr <= 0xFFFF,
            ({
                let b = exec(st.rows, base, m);
                ||| looping(b.flow, l)
                ||| b.flow is Next && b.ram[at(scr, 10)] <= 24 && holds_exponent(b, scr, e) && -200
                    <= e <= 400
            }),
        ensures
            ({
                let b = exec(st.rows, base, m);
                let s = self.fdiv_further(st, scr);
                let a = exec(s.rows, base, m);
                &&& base <= s.rows.len()
                &&& b.flow is Next ==> {
                    &&& a.flow is Next
                    &&& a.core == b.core
                    &&& holds_exponent(a, scr, e + b.ram[at(scr, 10)])
                    &&& forall|y: u32| y != at(scr, 1) && y != at(scr, 2) ==> #[trigger] a.ram[y]
                        == b.ram[y]
                }
                &&& looping(b.flow, l) ==> a == b
            }),
    {
        let b = exec(st.rows, base, m);
        let s = self.fdiv_further(st, scr);
        let a = exec(s.rows, base, m);
        assert(base <= s.rows.len());
        assert(at(at(scr, 1), 1) == at(scr, 2));
        let (x, y, n) = (b.ram[at(scr, 1)], b.ram[at(scr, 2)], b.ram[at(scr, 10)]);
        if looping(b.flow, l) {
            assert(a == b) by {
                broadcast use group_exec;

            }
        } else if x + n < 256 {
            assert(a.flow is Next && a.core == b.core && a.ram == b.ram.insert(
                at(scr, 1),
                (x + n) as u8,
            )) by {
                broadcast use group_exec;

            }
        } else {
            assert(a.flow is Next && a.core == b.core && a.ram == b.ram.insert(
                at(scr, 1),
                wrap(x + n),
            ).insert(at(scr, 2), wrap(y + 1))) by {
                broadcast use group_exec;

            }
        }
    }

    #[verifier::rlimit(50)]
    proof fn lemma_fdiv_ready(
        &self,
        st: St,
        pb: u32,
        scr: u32,
        l: u32,
        e: int,
        base: int,
        m: Machine,
    )
        requires
            under_way(st, base, m),
            pb <= 0xFFFF,
            scr <= 0xFFFF,
            apart(pb, 4, scr, 12),
            l <= u32::MAX - 50,
            ({
                let b = exec(st.rows, base, m);
                ||| looping(b.flow, l)
                ||| b.flow is Next && b.ram[at(scr, 6)] <= 24 && b.ram[at(scr, 10)] <= 24
                    && holds_exponent(b, scr, e) && -150 <= e <= 400
            }),
        ensures
            ({
                let b = exec(st.rows, base, m);
                let s = self.fdiv_ready(st, pb, scr, l);
                let a = exec(s.rows, base, m);
                &&& under_way(s, base, m)
                &&& b.flow is Next ==> {
                    &&& a.flow is Next
                    &&& a.core == b.core
                    &&& three(a, at(scr, 7)) == three(b, pb)
                    &&& holds_exponent(a, scr, e - b.ram[at(scr, 6)] + b.ram[at(scr, 10)])
                    &&& forall|y: u32| (y <= scr || y >= scr + 12) ==> #[trigger] a.ram[y] == b.ram[y]
                }
                &&& looping(b.flow, l) ==> a == b
            }),
    {
        let b = exec(st.rows, base, m);
        let s1 = self.fdiv_fewer(st, scr, l);
        self.lemma_fdiv_fewer(st, scr, l, e, base, m);
        let c1 = exec(s1.rows, base, m);
        let s2 = self.fdiv_further(s1, scr);
        self.lemma_fdiv_further(s1, scr, l, e - b.ram[at(scr, 6)], base, m);
        let c2 = exec(s2.rows, base, m);
        let s3 = self.fdiv_ready(st, pb, scr, l);
        let a = exec(s3.rows, base, m);
        assert(base <= s2.rows.len() <= s3.rows.len());
        if looping(b.flow, l) {
            assert(a == b) by {
                broadcast use group_exec;

            }
        } else {
            assert(a.core == b.core && a.flow is Next && a.ram == c2.ram.insert(
                at(scr, 7),
                c2.ram[pb],
            ).insert(at(scr, 8), c2.ram[at(pb, 1)]).insert(at(scr, 9), c2.ram[at(pb, 2)])) by {
                broadcast use group_exec;

            }
        }
    }

    /// What a quotient does before its loops.
    pub open spec fn fdiv_head(&self, st: St, pa: u32, pb: u32, scr: u32, l: u32) -> St {
        let st = self.divf_exponent(st, pa, pb, scr, l);
        let st = self.divf_specials(st, pa, pb, scr, l);
        let st = self.divf_zeros(st, pa, pb, scr, l);
        let st = self.divf_bias(st, pa, pb, scr, l);
        self.divf_mantissas(st, pa, pb, scr, l)
    }

    /// The rows for the divisor, once the dividend is in place or passed over.
    #[verifier::rlimit(50)]
    proof fn lemma_fdiv_second_mantissa(
        &self,
        st: St,
        pa: u32,
        pb: u32,
        scr: u32,
        l: u32,
        a: int,
        n: int,
        y: int,
        k: int,
        e: int,
        neg: bool,
        base: int,
        m: Machine,
    )
        requires
            under_way(st, base, m),
            quotient_slots(pa, pb, scr, self.retval),
            l <= u32::MAX - 50,
            ({
                let b = exec(st.rows, base, m);
                ||| looping(b.flow, l) && b.flow != tmp(l, 19)
                ||| b.flow == tmp(l, 19) && second_part(b, pa, pb, scr, a, n, y, k, e, neg) && k < 24
                ||| b.flow is Next && first_part(b, pa, pb, scr, a, n, y, e, neg)
            }),
        ensures
            ({
                let b = exec(st.rows, base, m);
                let s1 = self.fdiv_front(st, pb, at(scr, 10), label_at(l, 32), label_at(l, 33));
                let s2 = self.fdiv_shift(s1, pb, at(scr, 10), label_at(l, 19), label_at(l, 20));
                let s = self.fdiv_ready(s2, pb, scr, l);
                let z = exec(s.rows, base, m);
                &&& under_way(s, base, m)
                &&& if b.flow is Next {
                    first_done(z, pa, pb, scr, l, a, n, y, e, neg)
                } else if b.flow == tmp(l, 19) {
                    second_passed(z, pa, pb, scr, l, a, n, y, k, e, neg)
                } else {
                    z == b
                }
            }),
    {
        let b = exec(st.rows, base, m);
        let cnt = at(scr, 10);
        let s1 = self.fdiv_front(st, pb, cnt, label_at(l, 32), label_at(l, 33));
        self.lemma_fdiv_front(st, pb, cnt, label_at(l, 32), label_at(l, 33), base, m);
        let c1 = exec(s1.rows, base, m);
        if b.flow is Next {
            assert(three(c1, pa) == three(b, pa));
        }
        let s2 = self.fdiv_shift(s1, pb, cnt, label_at(l, 19), label_at(l, 20));
        self.lemma_fdiv_shift(s1, pb, cnt, label_at(l, 19), label_at(l, 20), base, m);
        let c2 = exec(s2.rows, base, m);
        if b.flow is Next || b.flow == tmp(l, 19) {
            assert(three(c2, pa) == three(b, pa));
            assert(c2.ram[at(scr, 1)] == b.ram[at(scr, 1)] && c2.ram[at(scr, 2)] == b.ram[at(scr, 2)]);
            assert(c2.ram[at(scr, 6)] == b.ram[at(scr, 6)] && c2.ram[scr] == b.ram[scr]);
            assert(holds_exponent(c2, scr, e));
        }
        let s3 = self.fdiv_ready(s2, pb, scr, l);
        self.lemma_fdiv_ready(s2, pb, scr, l, e, base, m);
        let z = exec(s3.rows, base, m);
        if c2.flow is Next {
            assert(three(z, pa) == three(c2, pa));
        }
    }

    #[verifier::rlimit(50)]
    proof fn lemma_fdiv_mantissas(
        &self,
        st: St,
        pa: u32,
        pb: u32,
        scr: u32,
        l: u32,
        v: int,
        n: int,
        y: int,
        k: int,
        e: int,
        neg: bool,
        base: int,
        m: Machine,
    )
        requires
            under_way(st, base, m),
            quotient_slots(pa, pb, scr, self.retval),
            l <= u32::MAX - 50,
            ({
                let b = exec(st.rows, base, m);
                ||| looping(b.flow, l) && !shifting(b.flow, l)
                ||| b.flow == tmp(l, 17) && first_part(b, pa, pb, scr, v, n, y, e, neg) && n < 24
                ||| b.flow == tmp(l, 19) && second_part(b, pa, pb, scr, v, n, y, k, e, neg) && k < 24
                ||| {
                    &&& b.flow is Next
                    &&& b.core is Enhanced
                    &&& v == full_mantissa(word(b, pa, 4))
                    &&& y == word(b, pb, 4)
                    &&& holds_exponent(b, scr, e)
                    &&& -150 <= e <= 400
                    &&& (b.ram[scr] >= 128) == neg
                }
            }),
        ensures
            ({
                let b = exec(st.rows, base, m);
                let s = self.divf_mantissas(st, pa, pb, scr, l);
                let z = exec(s.rows, base, m);
                &&& under_way(s, base, m)
                &&& s.next == st.next
                &&& if b.flow is Next {
                    first_passed(z, pa, pb, scr, l, v, 0, y, e, neg)
                } else if b.flow == tmp(l, 17) {
                    first_passed(z, pa, pb, scr, l, v, n, y, e, neg)
                } else if b.flow == tmp(l, 19) {
                    second_passed(z, pa, pb, scr, l, v, n, y, k, e, neg)
                } else {
                    z == b
                }
            }),
    {
        let b = exec(st.rows, base, m);
        let cnt = at(scr, 6);
        let s1 = self.fdiv_front(st, pa, cnt, label_at(l, 30), label_at(l, 31));
        self.lemma_fdiv_front(st, pa, cnt, label_at(l, 30), label_at(l, 31), base, m);
        let c1 = exec(s1.rows, base, m);
        if b.flow is Next {
            assert(word(c1, pb, 4) == word(b, pb, 4));
            assert(holds_exponent(c1, scr, e));
        }
        let s2 = self.fdiv_shift(s1, pa, cnt, label_at(l, 17), label_at(l, 18));
        self.lemma_fdiv_shift(s1, pa, cnt, label_at(l, 17), label_at(l, 18), base, m);
        let c2 = exec(s2.rows, base, m);
        let n2 = if b.flow is Next {
            0
        } else {
            n
        };
        if b.flow is Next || b.flow == tmp(l, 17) {
            assert(word(c2, pb, 4) == y);
            assert(c2.ram[at(scr, 1)] == b.ram[at(scr, 1)] && c2.ram[at(scr, 2)] == b.ram[at(scr, 2)]);
            assert(c2.ram[scr] == b.ram[scr]);
            assert(holds_exponent(c2, scr, e));
            if v < 0x80_0000 {
                assert(first_part(c2, pa, pb, scr, 2 * v, n2 + 1, y, e, neg));
            } else {
                assert(three(c2, pa) == three(c1, pa));
                assert(first_part(c2, pa, pb, scr, v, n2, y, e, neg));
            }
        }
        self.lemma_fdiv_second_mantissa(s2, pa, pb, scr, l, v, n2, y, k, e, neg, base, m);
        let s3 = self.fdiv_shift(
            self.fdiv_front(s2, pb, at(scr, 10), label_at(l, 32), label_at(l, 33)),
            pb,
            at(scr, 10),
            label_at(l, 19),
            label_at(l, 20),
        );
        assert(self.divf_mantissas(st, pa, pb, scr, l) == self.fdiv_ready(s3, pb, scr, l)) by {
            reveal(Gen::divf_mantissas);
        }
    }

    /// The head of a quotient: the first pass, or one on its way back.
    #[verifier::rlimit(50)]
    pub(crate) proof fn lemma_fdiv_head(
        &self,
        st: St,
        pa: u32,
        pb: u32,
        scr: u32,
        l: u32,
        v: int,
        n: int,
        y: int,
        k: int,
        e: int,
        neg: bool,
        base: int,
        m: Machine,
    )
        requires
            under_way(st, base, m),
            quotient_slots(pa, pb, scr, self.retval),
            l <= u32::MAX - 50,
            ({
                let b = exec(st.rows, base, m);
                ||| looping(b.flow, l) && !shifting(b.flow, l)
                ||| b.flow == tmp(l, 17) && first_part(b, pa, pb, scr, v, n, y, e, neg) && n < 24
                ||| b.flow == tmp(l, 19) && second_part(b, pa, pb, scr, v, n, y, k, e, neg) && k < 24
                ||| {
                    &&& b.flow is Next
                    &&& b.core is Enhanced
                    &&& is_finite_nonzero(word(b, pa, 4))
                    &&& is_finite_nonzero(word(b, pb, 4))
                    &&& v == full_mantissa(word(b, pa, 4))
                    &&& y == word(b, pb, 4)
                    &&& e == scale(word(b, pa, 4)) - scale(y) + 127
                    &&& neg == (negative(word(b, pa, 4)) != negative(y))
                }
            }),
        ensures
            ({
                let b = exec(st.rows, base, m);
                let s = self.fdiv_head(st, pa, pb, scr, l);
                let z = exec(s.rows, base, m);
                &&& under_way(s, base, m)
                &&& s.next == st.next
                &&& if b.flow is Next {
                    first_passed(z, pa, pb, scr, l, v, 0, y, e, neg)
                } else if b.flow == tmp(l, 17) {
                    first_passed(z, pa, pb, scr, l, v, n, y, e, neg)
                } else if b.flow == tmp(l, 19) {
                    second_passed(z, pa, pb, scr, l, v, n, y, k, e, neg)
                } else {
                    z == b
                }
            }),
    {
        let b = exec(st.rows, base, m);
        let x = word(b, pa, 4);
        let s1 = self.divf_exponent(st, pa, pb, scr, l);
        self.lemma_fdiv_exponent(st, pa, pb, scr, l, base, m);
        let c1 = exec(s1.rows, base, m);
        if b.flow is Next {
            assert(word(c1, pa, 4) == x && word(c1, pb, 4) == y);
            lemma_parts(b, pa);
            lemma_parts(b, pb);
        }
        let e0 = apart_exponent(x, y);
        let s2 = self.divf_specials(s1, pa, pb, scr, l);
        self.lemma_fdiv_specials(s1, pa, pb, scr, l, base, m);
        let c2 = exec(s2.rows, base, m);
        assert(word(c2, pa, 4) == word(c1, pa, 4) && word(c2, pb, 4) == word(c1, pb, 4));
        let s3 = self.divf_zeros(s2, pa, pb, scr, l);
        self.lemma_fdiv_zeros(s2, pa, pb, scr, l, base, m);
        let c3 = exec(s3.rows, base, m);
        if b.flow is Next {
            assert(word(c3, pa, 4) == x && word(c3, pb, 4) == y);
            assert(holds_exponent(c3, scr, e0));
            lemma_shown(c3, pa);
            lemma_shown(c3, pb);
        }
        let s4 = self.divf_bias(s3, pa, pb, scr, l);
        self.lemma_fdiv_small(s3, pa, pb, scr, l, e0, base, m);
        let c4 = exec(s4.rows, base, m);
        if b.flow is Next {
            assert(word(c4, pa, 4) == x && word(c4, pb, 4) == y);
        }
        self.lemma_fdiv_mantissas(s4, pa, pb, scr, l, v, n, y, k, e, neg, base, m);
    }
}

} // verus!
