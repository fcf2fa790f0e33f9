//! The float product is the product rounded to the nearest number.
use vstd::prelude::*;
use crate::emit::{
    at, clrf, f_op, goto_tmp, label_at, label_tmp, lit, movf, movlw, on_c, on_z, ram_bit, w_op, St,
};
use crate::line::{BitOp, LitOp, Op};
use crate::machine::{
    exec, group_exec, lemma_exec_push, lemma_step_gone, lemma_step_seek, runs_to, with_bit, Flow,
    Machine,
};
use crate::meaning::{flag, lemma_pow2_positive, pow2, word};
use crate::pic14e::laws::float_chain::three;
use crate::pic14e::laws::float_exact::{
    lemma_pow2_next, lemma_pow2_sum, lemma_pow2_values, lemma_upper_rounds, wide_up,
};
use crate::pic14e::laws::float_int::{tmp, under_way};
use crate::pic14e::laws::float_mul::{again, holds_exponent, joint_exponent, product_slots};
use crate::pic14e::laws::float_order::{lemma_masks, negative};
use crate::pic14e::laws::float_parts::{full_mantissa, is_finite_nonzero};
use crate::pic14e::laws::float_round::{half_even, mantissa, packed_float};
use crate::pic14e::laws::float_split::goes_up;
use crate::pic14e::laws::float_sum::{comes_to, lemma_comes_on};
use crate::pic14e::laws::ready;
use crate::pic14e::Gen;
use vstd::arithmetic::div_mod::{
    lemma_fundamental_div_mod, lemma_fundamental_div_mod_converse, lemma_mod_bound,
};

verus! {

/// The exponent at which a product of mantissas has 24 bits, or one if that is
/// greater and the exponents of the factors do not lie below.
pub open spec fn top_exponent(p: int, e: int) -> int
    decreases e,
{
    if p >= 0x8000_0000_0000 {
        e + 1
    } else if p >= 0x4000_0000_0000 || e <= 1 {
        e
    } else {
        top_exponent(2 * p, e - 1)
    }
}

/// The exponent of the product of two finite numbers: that at which it has 24
/// bits, but at least one.
pub open spec fn product_exponent(x: int, y: int) -> int {
    let r = top_exponent(full_mantissa(x) * full_mantissa(y), joint_exponent(x, y));
    if r < 1 {
        1
    } else {
        r
    }
}

/// The product of the mantissas at that exponent, rounded to nearest, ties to even.
pub open spec fn product_mantissa(x: int, y: int) -> int {
    at_exponent(
        full_mantissa(x) * full_mantissa(y),
        23 + product_exponent(x, y) - joint_exponent(x, y),
    )
}

/// A number without its last `c` bits, rounded to nearest, ties to even.
pub open spec fn at_exponent(p: int, c: int) -> int {
    if c >= 0 {
        half_even(p, pow2(c))
    } else {
        p * pow2(-c)
    }
}

/// The product of two finite numbers that are not zero, rounded to nearest, ties
/// to even. A product below the normal numbers has no implicit bit. The exponent
/// of one past the greatest number is not clamped, but taken by its low byte.
pub open spec fn float_product(x: int, y: int) -> int {
    packed_float(
        negative(x) != negative(y),
        product_exponent(x, y) % 256,
        product_mantissa(x, y),
    )
}

/// Whether the exponent bytes hold a product: a carry from the low byte of the
/// exponent is lost, whether it comes from the product or from the rounding.
pub open spec fn exponent_holds(x: int, y: int) -> bool {
    &&& full_mantissa(x) * full_mantissa(y) >= 0x8000_0000_0000 ==> joint_exponent(x, y) != -1
        && joint_exponent(x, y) != 255
    &&& product_exponent(x, y) == 255 ==> product_mantissa(x, y) < 0x100_0000
}

/// Whether the product is finished: up to 48 bits in the working bytes.
pub open spec fn multiplied(m: Machine, scr: u32, p: int) -> bool {
    &&& 0x80_0000 * word(m, at(scr, 7), 4) + three(m, at(scr, 11)) == p
    &&& three(m, at(scr, 11)) < 0x80_0000
    &&& 0 < p < 0x1_0000_0000_0000
}

/// Whether the product is at one scale: 24 bits, and 24 bits below them; `lost` is
/// whether anything fell off below.
pub open spec fn scaled(m: Machine, scr: u32, q: int, e: int, lost: bool, neg: bool) -> bool {
    &&& m.core is Enhanced
    &&& 0x100_0000 * three(m, at(scr, 7)) + three(m, at(scr, 11)) == q
    &&& m.ram[at(scr, 10)] < 4
    &&& lost == (m.ram[at(scr, 10)] >= 2)
    &&& holds_exponent(m, scr, e)
    &&& e <= 500
    &&& (m.ram[scr] >= 128) == neg
}

/// The exponent and the rounded mantissa that the shifts come to.
pub open spec fn brought(q: int, e: int, lost: bool) -> (int, int)
    decreases (if e < 1 {
        2 - e
    } else {
        e
    }),
{
    if e < 1 {
        brought(q / 2, e + 1, lost || q % 2 == 1)
    } else if q >= 0x8000_0000_0000 || e == 1 {
        (e, q / 0x100_0000 + flag(wide_up(q, lost)))
    } else {
        brought(2 * q, e - 1, lost)
    }
}

/// The bits of what the shifts come to.
pub open spec fn brought_float(neg: bool, q: int, e: int, lost: bool) -> int {
    packed_float(neg, brought(q, e, lost).0 % 256, brought(q, e, lost).1)
}

/// Whether its exponent can be held.
pub open spec fn brought_holds(q: int, e: int, lost: bool) -> bool {
    brought(q, e, lost).0 == 255 ==> brought(q, e, lost).1 < 0x100_0000
}

impl<'a> Gen<'a> {
    /// A product of 47 bits: the lower part is doubled.
    pub open spec fn unify_low(&self, st: St, scr: u32, l: u32) -> St {
        self.left3(
            st.emit(ram_bit(BitOp::Btfsc, at(scr, 10), 0)).emit(goto_tmp(label_at(l, 2))).emit(
                on_c(BitOp::Bcf),
            ),
            at(scr, 11),
        ).emit(goto_tmp(label_at(l, 3)))
    }

    /// A product of 48 bits: the upper part is halved, and the exponent is one
    /// more.
    pub open spec fn unify_high(&self, st: St, scr: u32, l: u32) -> St {
        let m3 = at(scr, 10);
        let low2 = at(scr, 13);
        self.right3(
            st.emit(label_tmp(label_at(l, 2))).emit(on_c(BitOp::Bcf)).emit(
                ram_bit(BitOp::Btfsc, m3, 0),
            ).emit(on_c(BitOp::Bsf)),
            at(scr, 7),
        ).emit(ram_bit(BitOp::Bcf, low2, 7)).emit(on_c(BitOp::Btfsc)).emit(
            ram_bit(BitOp::Bsf, low2, 7),
        ).emit(movlw(0x01)).emit(f_op(Op::Addwf, at(scr, 1)))
    }

    #[verifier::rlimit(50)]
    proof fn lemma_unify_low(&self, st: St, scr: u32, l: u32, p: int, e: int, base: int, m: Machine)
        requires
            under_way(st, base, m),
            exec(st.rows, base, m).flow is Next,
            scr <= 0xFFFF,
            l <= u32::MAX - 40,
            multiplied(exec(st.rows, base, m), scr, p),
            holds_exponent(exec(st.rows, base, m), scr, e),
            e <= 500,
            p < 0x8000_0000_0000,
        ensures
            ({
                let b = exec(st.rows, base, m);
                let s = self.mulf_unify(st, scr, l);
                let a = exec(s.rows, base, m);
                &&& under_way(s, base, m)
                &&& s.next == st.next
                &&& a.flow == tmp(l, 3)
                &&& scaled(a, scr, 2 * p, e, false, b.ram[scr] >= 128)
            }),
    {
        let b = exec(st.rows, base, m);
        let m3 = at(scr, 10);
        let s1 = st.emit(ram_bit(BitOp::Btfsc, m3, 0)).emit(goto_tmp(label_at(l, 2))).emit(
            on_c(BitOp::Bcf),
        );
        let c1 = exec(s1.rows, base, m);
        assert(word(b, at(scr, 7), 4) < 0x100_0000);
        assert(b.ram[m3] == 0);
        assert(ready(s1, base, m) && c1.core == b.core && c1.ram == b.ram && !c1.c) by {
            broadcast use group_exec;

        }
        let s2 = self.left3(s1, at(scr, 11));
        self.lemma_left3(s1, at(scr, 11), base, m);
        let c2 = exec(s2.rows, base, m);
        let s = self.mulf_unify(st, scr, l);
        let a = exec(s.rows, base, m);
        let s3 = s2.emit(goto_tmp(label_at(l, 3)));
        assert(exec(s3.rows, base, m) == (Machine {
            flow: tmp(l, 3),
            cycles: exec(s3.rows, base, m).cycles,
            ..c2
        })) by {
            broadcast use group_exec;

        }
        let s4 = self.unify_high(s3, scr, l);
        assert(s == s4) by {
            reveal(Gen::mulf_unify);
        }
        assert(base <= s.rows.len() && a == exec(s3.rows, base, m)) by {
            broadcast use group_exec;

        }
        assert(three(c1, at(scr, 11)) == three(b, at(scr, 11)));
        assert(three(a, at(scr, 11)) == three(c2, at(scr, 11)));
        assert(three(a, at(scr, 7)) == three(b, at(scr, 7)));
        assert(word(b, at(scr, 7), 4) == three(b, at(scr, 7)) + 0x100_0000 * b.ram[m3]);
    }

    #[verifier::rlimit(50)]
    proof fn lemma_unify_high(&self, st: St, scr: u32, l: u32, p: int, ex: int, base: int, m: Machine)
        requires
            under_way(st, base, m),
            exec(st.rows, base, m).flow is Next,
            scr <= 0xFFFF,
            l <= u32::MAX - 40,
            multiplied(exec(st.rows, base, m), scr, p),
            p >= 0x8000_0000_0000,
            holds_exponent(exec(st.rows, base, m), scr, ex),
            ex != -1 && ex != 255 && ex < 500,
        ensures
            ({
                let b = exec(st.rows, base, m);
                let s = self.mulf_unify(st, scr, l);
                let a = exec(s.rows, base, m);
                &&& under_way(s, base, m)
                &&& s.next == st.next
                &&& a.flow is Next
                &&& scaled(a, scr, p, ex + 1, false, b.ram[scr] >= 128)
            }),
    {
        let b = exec(st.rows, base, m);
        let e = at(scr, 1);
        let m3 = at(scr, 10);
        let low2 = at(scr, 13);
        let s0 = self.unify_low(st, scr, l);
        let s1 = s0.emit(label_tmp(label_at(l, 2))).emit(on_c(BitOp::Bcf)).emit(
            ram_bit(BitOp::Btfsc, m3, 0),
        ).emit(on_c(BitOp::Bsf));
        let c0 = exec(s0.rows, base, m);
        let c1 = exec(s1.rows, base, m);
        let v = word(b, at(scr, 7), 4);
        assert(0x100_0000 <= v < 0x200_0000);
        assert(b.ram[m3] == 1);
        assert(base <= s0.rows.len() && c0.core == b.core && c0.ram == b.ram && c0.flow == tmp(l, 2)) by {
            broadcast use group_exec;

        }
        assert(ready(s1, base, m) && c1.core == b.core && c1.ram == b.ram && c1.c) by {
            broadcast use group_exec;

        }
        let s2 = self.right3(s1, at(scr, 7));
        self.lemma_right3(s1, at(scr, 7), base, m);
        let c2 = exec(s2.rows, base, m);
        assert(three(c1, at(scr, 7)) == v - 0x100_0000);
        assert(b.ram[low2] < 128);
        assert(c2.ram[low2] == b.ram[low2] && c2.ram[e] == b.ram[e]);
        assert(b.ram[e] < 255);
        let s = self.mulf_unify(st, scr, l);
        let a = exec(s.rows, base, m);
        assert(s == s2.emit(ram_bit(BitOp::Bcf, low2, 7)).emit(on_c(BitOp::Btfsc)).emit(
            ram_bit(BitOp::Bsf, low2, 7),
        ).emit(movlw(0x01)).emit(f_op(Op::Addwf, e))) by {
            reveal(Gen::mulf_unify);
        }
        assert(base <= s.rows.len() && a.core == b.core && a.flow is Next && a.ram == c2.ram.insert(
            low2,
            (b.ram[low2] + 128 * flag(c2.c)) as u8,
        ).insert(e, (b.ram[e] + 1) as u8)) by {
            broadcast use group_exec;

        }
        assert(three(a, at(scr, 7)) == three(c2, at(scr, 7)));
        assert(three(a, at(scr, 11)) == three(b, at(scr, 11)) + 0x80_0000 * flag(c2.c));
    }

    /// The first rows of the normalisation: nothing to do for a set top bit.
    pub open spec fn norm_head(&self, st: St, scr: u32, l: u32) -> St {
        let e = at(scr, 1);
        st.emit(label_tmp(label_at(l, 3))).emit(ram_bit(BitOp::Btfsc, at(e, 1), 7)).emit(
            goto_tmp(label_at(l, 6)),
        ).emit(movf(at(e, 1))).emit(on_z(BitOp::Btfss)).emit(goto_tmp(label_at(l, 4))).emit(
            movf(e),
        ).emit(on_z(BitOp::Btfsc)).emit(goto_tmp(label_at(l, 6))).emit(goto_tmp(label_at(l, 4))).emit(
            label_tmp(label_at(l, 4)),
        ).emit(ram_bit(BitOp::Btfsc, at(scr, 9), 7)).emit(goto_tmp(label_at(l, 7)))
    }

    /// The rows that shift left.
    pub open spec fn norm_left(&self, st: St, scr: u32, l: u32) -> St {
        let e = at(scr, 1);
        st.emit(movf(at(e, 1))).emit(on_z(BitOp::Btfss)).emit(goto_tmp(label_at(l, 5))).emit(
            movf(e),
        ).emit(lit(LitOp::Sublw, 0x01)).emit(on_z(BitOp::Btfsc)).emit(goto_tmp(label_at(l, 7))).emit(
            label_tmp(label_at(l, 5)),
        ).emit(on_c(BitOp::Bcf)).emit(f_op(Op::Rlf, at(scr, 11))).emit(
            f_op(Op::Rlf, at(scr, 12)),
        ).emit(f_op(Op::Rlf, at(scr, 13))).emit(f_op(Op::Rlf, at(scr, 7))).emit(
            f_op(Op::Rlf, at(scr, 8)),
        ).emit(f_op(Op::Rlf, at(scr, 9))).emit(movlw(0x01)).emit(f_op(Op::Subwf, e)).emit(
            on_c(BitOp::Btfsc),
        ).emit(goto_tmp(label_at(l, 3))).emit(movlw(0x01)).emit(f_op(Op::Subwf, at(e, 1))).emit(
            goto_tmp(label_at(l, 3)),
        )
    }

    /// The rows that shift right.
    pub open spec fn norm_right(&self, st: St, scr: u32, l: u32) -> St {
        let e = at(scr, 1);
        st.emit(label_tmp(label_at(l, 6))).emit(ram_bit(BitOp::Btfsc, at(scr, 11), 0)).emit(
            ram_bit(BitOp::Bsf, at(scr, 10), 1),
        ).emit(on_c(BitOp::Bcf)).emit(f_op(Op::Rrf, at(scr, 9))).emit(f_op(Op::Rrf, at(scr, 8))).emit(
            f_op(Op::Rrf, at(scr, 7)),
        ).emit(f_op(Op::Rrf, at(scr, 13))).emit(f_op(Op::Rrf, at(scr, 12))).emit(
            f_op(Op::Rrf, at(scr, 11)),
        ).emit(f_op(Op::Incf, e)).emit(on_z(BitOp::Btfsc)).emit(f_op(Op::Incf, at(e, 1))).emit(
            goto_tmp(label_at(l, 3)),
        )
    }

    #[verifier::rlimit(50)]
    proof fn lemma_norm_head(
        &self,
        st: St,
        scr: u32,
        l: u32,
        q: int,
        e: int,
        lost: bool,
        neg: bool,
        base: int,
        m: Machine,
    )
        requires
            under_way(st, base, m),
            scr <= 0xFFFF,
            l <= u32::MAX - 40,
            ({
                let b = exec(st.rows, base, m);
                ||| b.flow == tmp(l, 0)
                ||| (b.flow is Next || b.flow == tmp(l, 3)) && scaled(b, scr, q, e, lost, neg)
            }),
        ensures
            ({
                let b = exec(st.rows, base, m);
                let s = self.norm_head(st, scr, l);
                let a = exec(s.rows, base, m);
                &&& under_way(s, base, m)
                &&& b.flow == tmp(l, 0) ==> a == b
                &&& b.flow != tmp(l, 0) ==> a.ram == b.ram && a.flow == (if e < 1 {
                    tmp(l, 6)
                } else if q >= 0x8000_0000_0000 {
                    tmp(l, 7)
                } else {
                    Flow::Next
                })
            }),
    {
        let b = exec(st.rows, base, m);
        let s = self.norm_head(st, scr, l);
        let a = exec(s.rows, base, m);
        assert(base <= s.rows.len());
        if b.flow == tmp(l, 0) {
            assert(a == b) by {
                broadcast use group_exec;

            }
        } else {
            let (x, y, z) = (b.ram[at(scr, 1)], b.ram[at(scr, 2)], b.ram[at(scr, 9)]);
            assert(at(at(scr, 1), 1) == at(scr, 2));
            assert(z >= 128 <==> q >= 0x8000_0000_0000);
            if e < 0 {
                assert(y == 255);
                assert(a.core == b.core && a.ram == b.ram && a.flow == tmp(l, 6)) by {
                    broadcast use group_exec;

                }
            } else if e == 0 {
                assert(y == 0 && x == 0);
                assert(a.core == b.core && a.ram == b.ram && a.flow == tmp(l, 6)) by {
                    broadcast use group_exec;

                }
            } else if e < 256 {
                assert(y == 0 && x != 0);
                assert(a.core == b.core && a.ram == b.ram && a.flow == (if z >= 128 {
                    tmp(l, 7)
                } else {
                    Flow::Next
                })) by {
                    broadcast use group_exec;

                }
            } else {
                assert(y == 1);
                assert(a.core == b.core && a.ram == b.ram && a.flow == (if z >= 128 {
                    tmp(l, 7)
                } else {
                    Flow::Next
                })) by {
                    broadcast use group_exec;

                }
            }
        }
    }

    /// The test whether the exponent can be less.
    pub open spec fn norm_least(&self, st: St, scr: u32, l: u32) -> St {
        let e = at(scr, 1);
        st.emit(movf(at(e, 1))).emit(on_z(BitOp::Btfss)).emit(goto_tmp(label_at(l, 5))).emit(
            movf(e),
        ).emit(lit(LitOp::Sublw, 0x01)).emit(on_z(BitOp::Btfsc)).emit(goto_tmp(label_at(l, 7))).emit(
            label_tmp(label_at(l, 5)),
        ).emit(on_c(BitOp::Bcf))
    }

    /// The exponent is one less.
    pub open spec fn norm_less(&self, st: St, scr: u32, l: u32) -> St {
        let e = at(scr, 1);
        st.emit(movlw(0x01)).emit(f_op(Op::Subwf, e)).emit(on_c(BitOp::Btfsc)).emit(
            goto_tmp(label_at(l, 3)),
        ).emit(movlw(0x01)).emit(f_op(Op::Subwf, at(e, 1))).emit(goto_tmp(label_at(l, 3)))
    }

    #[verifier::rlimit(50)]
    proof fn lemma_norm_left(
        &self,
        st: St,
        scr: u32,
        l: u32,
        q: int,
        e: int,
        lost: bool,
        neg: bool,
        base: int,
        m: Machine,
    )
        requires
            under_way(st, base, m),
            scr <= 0xFFFF,
            l <= u32::MAX - 40,
            exec(st.rows, base, m).flow is Next,
            scaled(exec(st.rows, base, m), scr, q, e, lost, neg),
            e >= 1,
            q < 0x8000_0000_0000,
        ensures
            ({
                let b = exec(st.rows, base, m);
                let s = self.norm_left(st, scr, l);
                let a = exec(s.rows, base, m);
                &&& under_way(s, base, m)
                &&& if e == 1 {
                    a.flow == tmp(l, 7) && a.ram == b.ram
                } else {
                    a.flow == tmp(l, 3) && scaled(a, scr, 2 * q, e - 1, lost, neg)
                }
            }),
    {
        let b = exec(st.rows, base, m);
        assert(at(at(scr, 1), 1) == at(scr, 2));
        let (x, y) = (b.ram[at(scr, 1)], b.ram[at(scr, 2)]);
        let s1 = self.norm_least(st, scr, l);
        let c1 = exec(s1.rows, base, m);
        let s2 = self.left3(s1, at(scr, 11));
        let s3 = self.left3(s2, at(scr, 7));
        let s4 = self.norm_less(s3, scr, l);
        assert(self.norm_left(st, scr, l) == s4);
        assert(base <= s1.rows.len() <= s2.rows.len() <= s3.rows.len() <= s4.rows.len());
        if e == 1 {
            assert(x == 1 && y == 0);
            assert(c1.core == b.core && c1.ram == b.ram && c1.flow == tmp(l, 7)) by {
                broadcast use group_exec;

            }
            assert(exec(s4.rows, base, m) == c1) by {
                broadcast use group_exec;

            }
        } else {
            if e < 256 {
                assert(y == 0 && x != 1);
            } else {
                assert(y == 1);
            }
            assert(ready(s1, base, m) && c1.core == b.core && c1.ram == b.ram && c1.flow is Next && !c1.c) by {
                if y == 0 {
                    broadcast use group_exec;

                } else {
                    broadcast use group_exec;

                }
            }
            self.lemma_left3(s1, at(scr, 11), base, m);
            let c2 = exec(s2.rows, base, m);
            self.lemma_left3(s2, at(scr, 7), base, m);
            let c3 = exec(s3.rows, base, m);
            assert(three(c1, at(scr, 11)) == three(b, at(scr, 11)));
            assert(three(c2, at(scr, 7)) == three(b, at(scr, 7)));
            assert(three(c3, at(scr, 11)) == three(c2, at(scr, 11)));
            assert(c3.ram[at(scr, 1)] == x && c3.ram[at(scr, 2)] == y);
            assert(c3.ram[at(scr, 10)] == b.ram[at(scr, 10)] && c3.ram[scr] == b.ram[scr]);
            assert(three(b, at(scr, 7)) < 0x80_0000);
            let a = exec(s4.rows, base, m);
            if x >= 1 {
                assert(a.core == b.core && a.flow == tmp(l, 3) && a.ram == c3.ram.insert(
                    at(scr, 1),
                    (x - 1) as u8,
                )) by {
                    broadcast use group_exec;

                }
            } else {
                assert(y == 1);
                assert(a.core == b.core && a.flow == tmp(l, 3) && a.ram == c3.ram.insert(
                    at(scr, 1),
                    255,
                ).insert(at(scr, 2), 0)) by {
                    broadcast use group_exec;

                }
            }
            assert(three(a, at(scr, 7)) == three(c3, at(scr, 7)));
            assert(three(a, at(scr, 11)) == three(c3, at(scr, 11)));
        }
    }

    /// A bit that falls off is noted.
    pub open spec fn norm_note(&self, st: St, scr: u32, l: u32) -> St {
        st.emit(label_tmp(label_at(l, 6))).emit(ram_bit(BitOp::Btfsc, at(scr, 11), 0)).emit(
            ram_bit(BitOp::Bsf, at(scr, 10), 1),
        ).emit(on_c(BitOp::Bcf))
    }

    /// The exponent is one more.
    pub open spec fn norm_more(&self, st: St, scr: u32, l: u32) -> St {
        let e = at(scr, 1);
        st.emit(f_op(Op::Incf, e)).emit(on_z(BitOp::Btfsc)).emit(f_op(Op::Incf, at(e, 1))).emit(
            goto_tmp(label_at(l, 3)),
        )
    }

    #[verifier::rlimit(50)]
    proof fn lemma_norm_note(&self, st: St, scr: u32, l: u32, base: int, m: Machine)
        requires
            under_way(st, base, m),
            scr <= 0xFFFF,
            l <= u32::MAX - 40,
            exec(st.rows, base, m).flow == tmp(l, 6),
            exec(st.rows, base, m).core is Enhanced,
            exec(st.rows, base, m).ram[at(scr, 10)] < 4,
        ensures
            ({
                let b = exec(st.rows, base, m);
                let s = self.norm_note(st, scr, l);
                let a = exec(s.rows, base, m);
                let k = b.ram[at(scr, 10)];
                &&& ready(s, base, m)
                &&& a.core == b.core
                &&& !a.c
                &&& a.ram[at(scr, 10)] == (if b.ram[at(scr, 11)] % 2 == 1 && k < 2 {
                    k + 2
                } else {
                    k as int
                })
                &&& forall|y: u32| y != at(scr, 10) ==> #[trigger] a.ram[y] == b.ram[y]
            }),
    {
        let b = exec(st.rows, base, m);
        let s = self.norm_note(st, scr, l);
        let a = exec(s.rows, base, m);
        let k = b.ram[at(scr, 10)];
        assert(base <= s.rows.len());
        assert(with_bit(k, 1, true) == (if k >= 2 {
            k as int
        } else {
            k + 2
        }));
        if b.ram[at(scr, 11)] % 2 == 1 {
            assert(a.flow is Next && a.core == b.core && !a.c && a.ram == b.ram.insert(
                at(scr, 10),
                with_bit(k, 1, true),
            )) by {
                broadcast use group_exec;

            }
        } else {
            assert(a.flow is Next && a.core == b.core && !a.c && a.ram == b.ram) by {
                broadcast use group_exec;

            }
        }
    }

    #[verifier::rlimit(50)]
    proof fn lemma_norm_more(&self, st: St, scr: u32, l: u32, base: int, m: Machine)
        requires
            ready(st, base, m),
            scr <= 0xFFFF,
            l <= u32::MAX - 40,
            exec(st.rows, base, m).core is Enhanced,
        ensures
            ({
                let b = exec(st.rows, base, m);
                let s = self.norm_more(st, scr, l);
                let a = exec(s.rows, base, m);
                let (x, y) = (b.ram[at(scr, 1)], b.ram[at(scr, 2)]);
                &&& under_way(s, base, m)
                &&& a.core == b.core
                &&& a.flow == tmp(l, 3)
                &&& a.ram == (if x == 255 {
                    b.ram.insert(at(scr, 1), 0).insert(at(scr, 2), if y == 255 {
                        0
                    } else {
                        (y + 1) as u8
                    })
                } else {
                    b.ram.insert(at(scr, 1), (x + 1) as u8)
                })
            }),
    {
        assert(at(at(scr, 1), 1) == at(scr, 2));
        broadcast use group_exec;

    }

    #[verifier::rlimit(50)]
    proof fn lemma_norm_right(
        &self,
        st: St,
        scr: u32,
        l: u32,
        q: int,
        e: int,
        lost: bool,
        neg: bool,
        base: int,
        m: Machine,
    )
        requires
            under_way(st, base, m),
            scr <= 0xFFFF,
            l <= u32::MAX - 40,
            exec(st.rows, base, m).flow == tmp(l, 6),
            scaled(exec(st.rows, base, m), scr, q, e, lost, neg),
            e < 1,
        ensures
            ({
                let s = self.norm_right(st, scr, l);
                let a = exec(s.rows, base, m);
                &&& under_way(s, base, m)
                &&& a.flow == tmp(l, 3)
                &&& scaled(a, scr, q / 2, e + 1, lost || q % 2 == 1, neg)
            }),
    {
        let b = exec(st.rows, base, m);
        let (x, y) = (b.ram[at(scr, 1)], b.ram[at(scr, 2)]);
        let s1 = self.norm_note(st, scr, l);
        self.lemma_norm_note(st, scr, l, base, m);
        let c1 = exec(s1.rows, base, m);
        let s2 = self.right3(s1, at(scr, 7));
        self.lemma_right3(s1, at(scr, 7), base, m);
        let c2 = exec(s2.rows, base, m);
        let s3 = self.right3(s2, at(scr, 11));
        self.lemma_right3(s2, at(scr, 11), base, m);
        let c3 = exec(s3.rows, base, m);
        let s4 = self.norm_more(s3, scr, l);
        self.lemma_norm_more(s3, scr, l, base, m);
        let a = exec(s4.rows, base, m);
        assert(self.norm_right(st, scr, l) == s4);
        let (hi, low) = (three(b, at(scr, 7)), three(b, at(scr, 11)));
        assert(three(c1, at(scr, 7)) == hi && three(c1, at(scr, 11)) == low);
        assert(three(c2, at(scr, 11)) == low);
        assert(three(c3, at(scr, 7)) == three(c2, at(scr, 7)));
        assert(c3.ram[at(scr, 1)] == x && c3.ram[at(scr, 2)] == y && c3.ram[scr] == b.ram[scr]);
        assert(c3.ram[at(scr, 10)] == c1.ram[at(scr, 10)]);
        assert(three(a, at(scr, 7)) == three(c3, at(scr, 7)));
        assert(three(a, at(scr, 11)) == three(c3, at(scr, 11)));
        assert(a.ram[at(scr, 10)] == c3.ram[at(scr, 10)] && a.ram[scr] == b.ram[scr]);
        assert(low % 0x100 == b.ram[at(scr, 11)]);
        lemma_halved(
            hi,
            low,
            three(a, at(scr, 7)),
            three(a, at(scr, 11)),
            c2.c,
            c3.c,
            b.ram[at(scr, 11)] as int,
        );
        assert(holds_exponent(a, scr, e + 1));
    }

    #[verifier::rlimit(50)]
    proof fn lemma_norm_left_over(&self, st: St, scr: u32, l: u32, base: int, m: Machine)
        requires
            under_way(st, base, m),
            l <= u32::MAX - 40,
            ({
                let f = exec(st.rows, base, m).flow;
                f == tmp(l, 0) || f == tmp(l, 6) || f == tmp(l, 7)
            }),
        ensures
            under_way(self.norm_left(st, scr, l), base, m),
            exec(self.norm_left(st, scr, l).rows, base, m) == exec(st.rows, base, m),
    {
        broadcast use group_exec;

    }

    #[verifier::rlimit(50)]
    proof fn lemma_norm_right_over(&self, st: St, scr: u32, l: u32, base: int, m: Machine)
        requires
            under_way(st, base, m),
            l <= u32::MAX - 40,
            ({
                let f = exec(st.rows, base, m).flow;
                f == tmp(l, 0) || f == tmp(l, 3) || f == tmp(l, 7)
            }),
        ensures
            under_way(self.norm_right(st, scr, l), base, m),
            exec(self.norm_right(st, scr, l).rows, base, m) == exec(st.rows, base, m),
    {
        broadcast use group_exec;

    }

    /// One step of the normalisation.
    #[verifier::rlimit(50)]
    proof fn lemma_normalize(
        &self,
        st: St,
        scr: u32,
        l: u32,
        q: int,
        e: int,
        lost: bool,
        neg: bool,
        base: int,
        m: Machine,
    )
        requires
            under_way(st, base, m),
            scr <= 0xFFFF,
            l <= u32::MAX - 40,
            ({
                let b = exec(st.rows, base, m);
                ||| b.flow == tmp(l, 0)
                ||| (b.flow is Next || b.flow == tmp(l, 3)) && scaled(b, scr, q, e, lost, neg)
            }),
        ensures
            ({
                let b = exec(st.rows, base, m);
                let s = self.mulf_normalize(st, scr, l);
                let a = exec(s.rows, base, m);
                &&& under_way(s, base, m)
                &&& s.next == st.next
                &&& b.flow == tmp(l, 0) ==> a == b
                &&& b.flow != tmp(l, 0) ==> if e < 1 {
                    a.flow == tmp(l, 3) && scaled(a, scr, q / 2, e + 1, lost || q % 2 == 1, neg)
                } else if q >= 0x8000_0000_0000 || e == 1 {
                    a.flow == tmp(l, 7) && a.ram == b.ram
                } else {
                    a.flow == tmp(l, 3) && scaled(a, scr, 2 * q, e - 1, lost, neg)
                }
            }),
    {
        let b = exec(st.rows, base, m);
        let s1 = self.norm_head(st, scr, l);
        self.lemma_norm_head(st, scr, l, q, e, lost, neg, base, m);
        let c1 = exec(s1.rows, base, m);
        let s2 = self.norm_left(s1, scr, l);
        let s3 = self.norm_right(s2, scr, l);
        if c1.flow is Next {
            assert(scaled(c1, scr, q, e, lost, neg));
            self.lemma_norm_left(s1, scr, l, q, e, lost, neg, base, m);
            self.lemma_norm_right_over(s2, scr, l, base, m);
        } else {
            self.lemma_norm_left_over(s1, scr, l, base, m);
            if b.flow != tmp(l, 0) && e < 1 {
                assert(scaled(c1, scr, q, e, lost, neg));
                self.lemma_norm_right(s2, scr, l, q, e, lost, neg, base, m);
            } else {
                self.lemma_norm_right_over(s2, scr, l, base, m);
            }
        }
        assert(self.mulf_normalize(st, scr, l) == s3) by {
            reveal(Gen::mulf_normalize);
        }
        assert(s3.next == st.next);
    }

    /// The test whether to round the product up.
    pub open spec fn fround_test(&self, st: St, scr: u32, l: u32) -> St {
        let m3 = at(scr, 10);
        st.emit(label_tmp(label_at(l, 7))).emit(ram_bit(BitOp::Btfss, at(scr, 13), 7)).emit(
            goto_tmp(label_at(l, 8)),
        ).emit(movlw(0x7F)).emit(w_op(Op::Andwf, at(scr, 13))).emit(w_op(Op::Iorwf, at(scr, 12))).emit(
            w_op(Op::Iorwf, at(scr, 11)),
        ).emit(on_z(BitOp::Btfss)).emit(goto_tmp(label_at(l, 9))).emit(
            ram_bit(BitOp::Btfsc, m3, 1),
        ).emit(goto_tmp(label_at(l, 9))).emit(ram_bit(BitOp::Btfsc, at(scr, 7), 0)).emit(
            goto_tmp(label_at(l, 9)),
        ).emit(goto_tmp(label_at(l, 8))).emit(label_tmp(label_at(l, 9)))
    }

    #[verifier::rlimit(50)]
    proof fn lemma_fround_test(&self, st: St, scr: u32, l: u32, base: int, m: Machine)
        requires
            under_way(st, base, m),
            scr <= 0xFFFF,
            l <= u32::MAX - 40,
            ({
                let b = exec(st.rows, base, m);
                again(b.flow, l) || b.flow == tmp(l, 7) && b.ram[at(scr, 10)] < 4
            }),
        ensures
            ({
                let b = exec(st.rows, base, m);
                let s = self.fround_test(st, scr, l);
                let a = exec(s.rows, base, m);
                let low = three(b, at(scr, 11));
                &&& under_way(s, base, m)
                &&& again(b.flow, l) ==> a == b
                &&& b.flow == tmp(l, 7) ==> a.ram == b.ram && a.flow == (if goes_up(
                    low >= 0x80_0000,
                    low % 0x80_0000 != 0 || b.ram[at(scr, 10)] >= 2,
                    b.ram[at(scr, 7)] % 2 == 1,
                ) {
                    Flow::Next
                } else {
                    tmp(l, 8)
                })
            }),
    {
        let b = exec(st.rows, base, m);
        let s = self.fround_test(st, scr, l);
        let a = exec(s.rows, base, m);
        assert(base <= s.rows.len());
        if again(b.flow, l) {
            assert(a == b) by {
                broadcast use group_exec;

            }
        } else {
            let (x, y, z) = (b.ram[at(scr, 11)], b.ram[at(scr, 12)], b.ram[at(scr, 13)]);
            let k = b.ram[at(scr, 10)];
            let odd = b.ram[at(scr, 7)] % 2 == 1;
            assert(0x7Fu8 & z == z % 128 && z & 0x7Fu8 == z % 128) by (bit_vector);
            lemma_masks();
            let some = x != 0 || y != 0 || z % 128 != 0;
            assert(three(b, at(scr, 11)) % 0x80_0000 == x + 0x100 * y + 0x1_0000 * (z % 128));
            if z < 128 {
                assert(a.core == b.core && a.ram == b.ram && a.flow == tmp(l, 8)) by {
                    broadcast use group_exec;

                }
            } else if some {
                assert(a.core == b.core && a.ram == b.ram && a.flow is Next) by {
                    broadcast use group_exec;

                }
            } else {
                assert(a.core == b.core && a.ram == b.ram && a.flow == (if (k / 2) % 2 == 1 || odd {
                    Flow::Next
                } else {
                    tmp(l, 8)
                })) by {
                    broadcast use group_exec;

                }
            }
        }
    }

    /// The rows that store a small result, and the label of the result.
    pub open spec fn fden(&self, st: St, scr: u32, l: u32) -> St {
        let e = at(scr, 1);
        st.emit(label_tmp(label_at(l, 8))).emit(ram_bit(BitOp::Btfsc, at(scr, 9), 7)).emit(
            goto_tmp(label_at(l, 10)),
        ).emit(movf(at(e, 1))).emit(on_z(BitOp::Btfss)).emit(goto_tmp(label_at(l, 10))).emit(
            movf(e),
        ).emit(lit(LitOp::Sublw, 0x01)).emit(on_z(BitOp::Btfss)).emit(
            goto_tmp(label_at(l, 10)),
        ).emit(clrf(e)).emit(label_tmp(label_at(l, 10)))
    }

    #[verifier::rlimit(50)]
    proof fn lemma_fden(&self, st: St, scr: u32, l: u32, base: int, m: Machine)
        requires
            under_way(st, base, m),
            scr <= 0xFFFF,
            l <= u32::MAX - 40,
            ({
                let b = exec(st.rows, base, m);
                again(b.flow, l) || b.flow is Next || b.flow == tmp(l, 8)
            }),
        ensures
            ({
                let b = exec(st.rows, base, m);
                let s = self.fden(st, scr, l);
                let a = exec(s.rows, base, m);
                &&& under_way(s, base, m)
                &&& again(b.flow, l) ==> a == b
                &&& !again(b.flow, l) ==> a.flow is Next && a.ram == (if b.ram[at(scr, 9)] < 128
                    && b.ram[at(scr, 2)] == 0 && b.ram[at(scr, 1)] == 1 {
                    b.ram.insert(at(scr, 1), 0)
                } else {
                    b.ram
                })
            }),
    {
        let b = exec(st.rows, base, m);
        let s = self.fden(st, scr, l);
        let a = exec(s.rows, base, m);
        assert(base <= s.rows.len());
        assert(at(at(scr, 1), 1) == at(scr, 2));
        if again(b.flow, l) {
            assert(a == b) by {
                broadcast use group_exec;

            }
        } else if b.ram[at(scr, 9)] >= 128 || b.ram[at(scr, 2)] != 0 {
            assert(a.core == b.core && a.flow is Next && a.ram == b.ram) by {
                broadcast use group_exec;

            }
        } else {
            assert(a.core == b.core && a.flow is Next && a.ram == (if b.ram[at(scr, 1)] == 1 {
                b.ram.insert(at(scr, 1), 0)
            } else {
                b.ram
            })) by {
                broadcast use group_exec;

            }
        }
    }

    /// Before the result is put together it is rounded.
    #[verifier::rlimit(50)]
    proof fn lemma_fmul_rounded(
        &self,
        st: St,
        scr: u32,
        l: u32,
        q: int,
        ex: int,
        lost: bool,
        neg: bool,
        base: int,
        m: Machine,
    )
        requires
            under_way(st, base, m),
            scr <= 0xFFFF,
            l <= u32::MAX - 40,
            st.next == l + 32,
            exec(st.rows, base, m).flow == tmp(l, 7),
            scaled(exec(st.rows, base, m), scr, q, ex, lost, neg),
            ex >= 1,
            q >= 0x8000_0000_0000 || ex == 1,
            ex == 255 ==> q / 0x100_0000 + flag(wide_up(q, lost)) < 0x100_0000,
        ensures
            ({
                let b = exec(st.rows, base, m);
                let (m0, m1, m2) = (at(scr, 7), at(scr, 8), at(scr, 9));
                let e = at(scr, 1);
                let s = self.fden(
                    self.round_up(self.fround_test(st, scr, l), m0, m1, m2, e),
                    scr,
                    l,
                );
                let a = exec(s.rows, base, m);
                &&& under_way(s, base, m)
                &&& a.flow is Next
                &&& a.ram[scr] == b.ram[scr]
                &&& packed_float(false, a.ram[e] as int, mantissa(a, m0, m1, m2) % 0x80_0000 + 0x80_0000)
                    == packed_float(false, ex % 256, q / 0x100_0000 + flag(wide_up(q, lost)))
            }),
    {
        let b = exec(st.rows, base, m);
        let e = at(scr, 1);
        let (m0, m1, m2) = (at(scr, 7), at(scr, 8), at(scr, 9));
        let s1 = self.fround_test(st, scr, l);
        self.lemma_fround_test(st, scr, l, base, m);
        let c1 = exec(s1.rows, base, m);
        let s2 = self.round_up(s1, m0, m1, m2, e);
        assert(s1.next == l + 32);
        self.lemma_round_up(s1, m0, m1, m2, e, base, m);
        let c2 = exec(s2.rows, base, m);
        let mant = mantissa(b, m0, m1, m2);
        let low = three(b, at(scr, 11));
        assert(mantissa(c1, m0, m1, m2) == mant && three(b, m0) == mant);
        assert(q / 0x100_0000 == mant && q % 0x100_0000 == low && q % 0x80_0000 == low % 0x80_0000);
        lemma_top_bit(b, m0, m1, m2);
        lemma_top_bit(c2, m0, m1, m2);
        let up = wide_up(q, lost);
        assert(c2.flow is Next <==> up);
        let u = mantissa(c2, m0, m1, m2);
        self.lemma_fden(s2, scr, l, base, m);
        let a = exec(self.fden(s2, scr, l).rows, base, m);
        assert(mantissa(a, m0, m1, m2) == u);
        assert(c2.ram[at(scr, 2)] == b.ram[at(scr, 2)] && c2.ram[scr] == b.ram[scr]);
        if u < 0x80_0000 {
            assert(ex == 1 && c2.ram[e] == 1 && a.ram[e] == 0);
            assert(u % 0x80_0000 == u);
        } else {
            assert(u % 0x80_0000 == u - 0x80_0000);
            assert(a.ram[e] == c2.ram[e]);
        }
    }

    #[verifier::rlimit(50)]
    proof fn lemma_fmul_round(
        &self,
        st: St,
        scr: u32,
        l: u32,
        q: int,
        ex: int,
        lost: bool,
        neg: bool,
        base: int,
        m: Machine,
    )
        requires
            under_way(st, base, m),
            scr <= 0xFFFF,
            self.retval <= 0xFFFF,
            self.retval + 4 <= scr || scr + 14 <= self.retval,
            l <= u32::MAX - 40,
            st.next == l + 32,
            ({
                let b = exec(st.rows, base, m);
                ||| again(b.flow, l)
                ||| {
                    &&& b.flow == tmp(l, 7)
                    &&& scaled(b, scr, q, ex, lost, neg)
                    &&& ex >= 1
                    &&& q >= 0x8000_0000_0000 || ex == 1
                    &&& ex == 255 ==> q / 0x100_0000 + flag(wide_up(q, lost)) < 0x100_0000
                }
            }),
        ensures
            ({
                let b = exec(st.rows, base, m);
                let s = self.mulf_round(st, scr, l);
                let a = exec(s.rows, base, m);
                &&& base <= s.rows.len()
                &&& again(b.flow, l) ==> a == b
                &&& !again(b.flow, l) ==> a.flow is Gone && word(a, self.retval, 4) == packed_float(
                    neg,
                    ex % 256,
                    q / 0x100_0000 + flag(wide_up(q, lost)),
                )
            }),
    {
        let b = exec(st.rows, base, m);
        let e = at(scr, 1);
        let (m0, m1, m2) = (at(scr, 7), at(scr, 8), at(scr, 9));
        let s1 = self.fround_test(st, scr, l);
        let s2 = self.round_up(s1, m0, m1, m2, e);
        let s3 = self.fden(s2, scr, l);
        assert(self.mulf_round(st, scr, l) == self.assemble(s3, scr, e, m0, m1, m2)) by {
            reveal(Gen::mulf_round);
        }
        if again(b.flow, l) {
            self.lemma_fround_test(st, scr, l, base, m);
            self.lemma_round_up(s1, m0, m1, m2, e, base, m);
            self.lemma_fden(s2, scr, l, base, m);
        } else {
            self.lemma_fmul_rounded(st, scr, l, q, ex, lost, neg, base, m);
        }
        self.lemma_assemble(s3, scr, e, m0, m1, m2, base, m);
    }

    /// The rows from the normalisation on.
    pub open spec fn fmul_tail(&self, st: St, scr: u32, l: u32) -> St {
        self.mulf_zero(self.mulf_round(self.mulf_normalize(st, scr, l), scr, l), scr, l)
    }

    /// One pass over them.
    #[verifier::rlimit(50)]
    proof fn lemma_fmul_tail(
        &self,
        st: St,
        scr: u32,
        l: u32,
        q: int,
        e: int,
        lost: bool,
        neg: bool,
        base: int,
        m: Machine,
    )
        requires
            under_way(st, base, m),
            scr <= 0xFFFF,
            self.retval <= 0xFFFF,
            self.retval + 4 <= scr || scr + 14 <= self.retval,
            l <= u32::MAX - 40,
            st.next == l + 32,
            ({
                let b = exec(st.rows, base, m);
                ||| b.flow == tmp(l, 0)
                ||| (b.flow is Next || b.flow == tmp(l, 3)) && scaled(b, scr, q, e, lost, neg)
                    && brought_holds(q, e, lost)
            }),
        ensures
            ({
                let b = exec(st.rows, base, m);
                let a = exec(self.fmul_tail(st, scr, l).rows, base, m);
                &&& b.flow == tmp(l, 0) ==> a == b
                &&& b.flow != tmp(l, 0) ==> if e < 1 {
                    a.flow == tmp(l, 3) && scaled(a, scr, q / 2, e + 1, lost || q % 2 == 1, neg)
                } else if q >= 0x8000_0000_0000 || e == 1 {
                    a.flow is Gone && word(a, self.retval, 4) == brought_float(neg, q, e, lost)
                } else {
                    a.flow == tmp(l, 3) && scaled(a, scr, 2 * q, e - 1, lost, neg)
                }
            }),
    {
        let b = exec(st.rows, base, m);
        let s2 = self.mulf_normalize(st, scr, l);
        self.lemma_normalize(st, scr, l, q, e, lost, neg, base, m);
        let c2 = exec(s2.rows, base, m);
        if c2.flow == tmp(l, 7) {
            assert(scaled(c2, scr, q, e, lost, neg));
        }
        let s3 = self.mulf_round(s2, scr, l);
        self.lemma_fmul_round(s2, scr, l, q, e, lost, neg, base, m);
        self.lemma_zero_over(s3, scr, l, base, m);
    }

    /// Where a product has got to behind its loop: the result is returned, or the
    /// shifts go on.
    pub open spec fn on_the_way(&self, m: Machine, scr: u32, l: u32, v: int) -> bool {
        ||| m.flow is Gone && word(m, self.retval, 4) == v
        ||| m.flow == tmp(l, 3) && exists|q: int, e: int, lost: bool, neg: bool| #[trigger]
            scaled(m, scr, q, e, lost, neg) && brought_holds(q, e, lost) && brought_float(
                neg,
                q,
                e,
                lost,
            ) == v
    }

    /// A finished product, from the end of the loop on.
    #[verifier::rlimit(50)]
    proof fn lemma_fmul_end(
        &self,
        st: St,
        scr: u32,
        l: u32,
        p: int,
        e: int,
        base: int,
        m: Machine,
    )
        requires
            under_way(st, base, m),
            scr <= 0xFFFF,
            self.retval <= 0xFFFF,
            self.retval + 4 <= scr || scr + 14 <= self.retval,
            l <= u32::MAX - 40,
            st.next == l + 32,
            unify_holds(p, e),
            ({
                let b = exec(st.rows, base, m);
                b.flow == tmp(l, 0) || b.flow is Next && multiplied(b, scr, p) && holds_exponent(
                    b,
                    scr,
                    e,
                )
            }),
        ensures
            ({
                let b = exec(st.rows, base, m);
                let a = exec(self.fmul_tail(self.mulf_unify(st, scr, l), scr, l).rows, base, m);
                &&& b.flow == tmp(l, 0) ==> a == b
                &&& b.flow != tmp(l, 0) ==> self.on_the_way(
                    a,
                    scr,
                    l,
                    unified_float(b.ram[scr] >= 128, p, e),
                )
            }),
    {
        let b = exec(st.rows, base, m);
        let neg = b.ram[scr] >= 128;
        let s1 = self.mulf_unify(st, scr, l);
        let c1 = exec(s1.rows, base, m);
        let (q, ex) = if p >= 0x8000_0000_0000 {
            (p, e + 1)
        } else {
            (2 * p, e)
        };
        if b.flow == tmp(l, 0) {
            self.lemma_unify_over(st, scr, l, base, m);
        } else if p >= 0x8000_0000_0000 {
            self.lemma_unify_high(st, scr, l, p, e, base, m);
        } else {
            self.lemma_unify_low(st, scr, l, p, e, base, m);
        }
        self.lemma_fmul_tail(s1, scr, l, q, ex, false, neg, base, m);
        let a = exec(self.fmul_tail(s1, scr, l).rows, base, m);
        if b.flow != tmp(l, 0) {
            if ex < 1 {
                assert(scaled(a, scr, q / 2, ex + 1, q % 2 == 1, neg));
            } else if q < 0x8000_0000_0000 && ex > 1 {
                assert(scaled(a, scr, 2 * q, ex - 1, false, neg));
            }
        }
    }

    proof fn lemma_unify_over(&self, st: St, scr: u32, l: u32, base: int, m: Machine)
        requires
            under_way(st, base, m),
            l <= u32::MAX - 40,
            again(exec(st.rows, base, m).flow, l),
        ensures
            under_way(self.mulf_unify(st, scr, l), base, m),
            self.mulf_unify(st, scr, l).next == st.next,
            exec(self.mulf_unify(st, scr, l).rows, base, m) == exec(st.rows, base, m),
    {
        reveal(Gen::mulf_unify);
        broadcast use group_exec;

    }

    /// The rows of a zero product are passed over.
    #[verifier::rlimit(50)]
    proof fn lemma_zero_over(&self, st: St, scr: u32, l: u32, base: int, m: Machine)
        requires
            0 <= base <= st.rows.len(),
            l <= u32::MAX - 40,
            again(exec(st.rows, base, m).flow, l) || exec(st.rows, base, m).flow is Gone,
        ensures
            exec(self.mulf_zero(st, scr, l).rows, base, m) == exec(st.rows, base, m),
    {
        reveal(Gen::mulf_zero);
        if exec(st.rows, base, m).flow is Gone {
            broadcast use group_exec, lemma_step_gone;

        } else {
            broadcast use group_exec;

        }
    }

    /// Where a product has got to when it jumps back: `left` turns to go, and
    /// `rest` is what is left of the multiplier.
    pub open spec fn float_multiplying(
        &self,
        m: Machine,
        pa: u32,
        pb: u32,
        scr: u32,
        left: nat,
        a: int,
        rest: int,
        p: int,
        neg: bool,
        e: int,
    ) -> bool {
        &&& m.core is Enhanced
        &&& 1 <= left <= 24
        &&& m.ram[at(scr, 6)] == left
        &&& 0 <= a < 0x100_0000
        &&& self.addend(m, pa, pb) == a * pow2(left - 1)
        &&& three(m, pb) < 0x80_0000
        &&& three(m, at(scr, 11)) < 0x80_0000
        &&& three(m, at(scr, 3)) * pow2(left as int) == 0x100_0000 * rest
        &&& 0 <= rest < pow2(left as int)
        &&& self.product_so_far(m, scr) + a * rest == p
        &&& 0 < p < 0x1_0000_0000_0000
        &&& (m.ram[scr] >= 128) == neg
        &&& holds_exponent(m, scr, e)
    }

    /// One pass over the rows, from the loop on.
    #[verifier::rlimit(50)]
    proof fn lemma_fmul_pass(
        &self,
        st: St,
        pa: u32,
        pb: u32,
        scr: u32,
        l: u32,
        left: nat,
        x: int,
        rest: int,
        p: int,
        neg: bool,
        e: int,
        base: int,
        m: Machine,
    ) -> (more: int)
        requires
            under_way(st, base, m),
            exec(st.rows, base, m).flow is Next || exec(st.rows, base, m).flow == tmp(l, 0),
            product_slots(pa, pb, scr, self.retval),
            l <= u32::MAX - 40,
            st.next == l + 32,
            self.float_multiplying(exec(st.rows, base, m), pa, pb, scr, left, x, rest, p, neg, e),
            unify_holds(p, e),
        ensures
            ({
                let s = self.mulf_loop(st, pa, pb, scr, l);
                let a = exec(self.fmul_tail(self.mulf_unify(s, scr, l), scr, l).rows, base, m);
                if left == 1 {
                    self.on_the_way(a, scr, l, unified_float(neg, p, e))
                } else {
                    a.flow == tmp(l, 0) && self.float_multiplying(
                        a,
                        pa,
                        pb,
                        scr,
                        (left - 1) as nat,
                        x,
                        more,
                        p,
                        neg,
                        e,
                    )
                }
            }),
    {
        let b = exec(st.rows, base, m);
        let v = three(b, at(scr, 3));
        let h = pow2(left - 1);
        let bit = v >= 0x80_0000;
        let more = if bit {
            rest - h
        } else {
            rest
        };
        lemma_pow2_positive(left - 1);
        lemma_next_bit(v, rest, h);
        assert(x * rest >= 0) by (nonlinear_arith)
            requires
                x >= 0,
                rest >= 0,
        ;
        assert(word(b, at(scr, 7), 4) <= 0x1FF_FFFF);
        let s1 = self.fmul_turn(st, pa, pb, scr, l);
        assert(self.mulf_loop(st, pa, pb, scr, l) == s1) by {
            reveal(Gen::mulf_loop);
        }
        self.lemma_fmul_turn(st, pa, pb, scr, l, base, m);
        let c = exec(s1.rows, base, m);
        assert(x * more + (if bit {
            x * h
        } else {
            0
        }) == x * rest) by (nonlinear_arith)
            requires
                more == (if bit {
                    rest - h
                } else {
                    rest
                }),
        ;
        assert(self.product_so_far(c, scr) + x * more == p);
        if left == 1 {
            assert(pow2(1) == 2 && h == 1) by {
                reveal_with_fuel(pow2, 3);
            }
            assert(more == 0);
            assert(x * more == 0) by (nonlinear_arith)
                requires
                    more == 0,
            ;
            assert(multiplied(c, scr, p));
        } else {
            let g = pow2(left - 2);
            assert(h == 2 * g);
            assert(x * h == 2 * (x * g)) by (nonlinear_arith)
                requires
                    h == 2 * g,
            ;
            assert(self.addend(c, pa, pb) == x * g);
            assert(self.float_multiplying(c, pa, pb, scr, (left - 1) as nat, x, more, p, neg, e));
        }
        self.lemma_fmul_end(s1, scr, l, p, e, base, m);
        more
    }

    /// The rows of a product are its head, its loop and its end.
    proof fn lemma_fmul_whole(&self, st: St, pa: u32, pb: u32, scr: u32)
        requires
            st.next <= u32::MAX - 40,
        ensures
            ({
                let l = st.next;
                let s = self.fmul_head(st.reserve(32), pa, pb, scr, l);
                let s = self.mulf_unify(self.mulf_loop(s, pa, pb, scr, l), scr, l);
                self.mulf(st, pa, pb, scr) == self.fmul_tail(s, scr, l)
            }),
    {
        reveal(Gen::mulf);
    }

    /// The passes that shift.
    #[verifier::rlimit(50)]
    proof fn lemma_shift_passes(
        &self,
        st: St,
        pa: u32,
        pb: u32,
        scr: u32,
        q: int,
        e: int,
        lost: bool,
        neg: bool,
        m: Machine,
    )
        requires
            product_slots(pa, pb, scr, self.retval),
            st.next <= u32::MAX - 40,
            m.flow == tmp(st.next, 3),
            scaled(m, scr, q, e, lost, neg),
            brought_holds(q, e, lost),
        ensures
            comes_to(
                self.mulf(st, pa, pb, scr).rows,
                st.rows.len() as int,
                m,
                self.retval,
                brought_float(neg, q, e, lost),
            ),
        decreases (if e < 1 {
            2 - e
        } else {
            e
        }),
    {
        let base = st.rows.len() as int;
        let l = st.next;
        let rows = self.mulf(st, pa, pb, scr).rows;
        let s0 = st.reserve(32);
        assert(exec(s0.rows, base, m) == m) by {
            broadcast use group_exec;

        }
        let s1 = self.fmul_head(s0, pa, pb, scr, l);
        self.lemma_fmul_head(s0, pa, pb, scr, l, base, m);
        self.lemma_fmul_whole(st, pa, pb, scr);
        let s2 = self.mulf_loop(s1, pa, pb, scr, l);
        self.lemma_fmul_loop_over(s1, pa, pb, scr, l, base, m);
        let s3 = self.mulf_unify(s2, scr, l);
        self.lemma_unify_over(s2, scr, l, base, m);
        self.lemma_fmul_tail(s3, scr, l, q, e, lost, neg, base, m);
        let a = exec(rows, base, m);
        if e < 1 {
            self.lemma_shift_passes(st, pa, pb, scr, q / 2, e + 1, lost || q % 2 == 1, neg, a);
        } else if q < 0x8000_0000_0000 && e > 1 {
            self.lemma_shift_passes(st, pa, pb, scr, 2 * q, e - 1, lost, neg, a);
        }
        lemma_comes_on(rows, base, m, self.retval, brought_float(neg, q, e, lost));
    }

    #[verifier::rlimit(50)]
    proof fn lemma_fmul_loop_over(&self, st: St, pa: u32, pb: u32, scr: u32, l: u32, base: int, m: Machine)
        requires
            under_way(st, base, m),
            l <= u32::MAX - 40,
            exec(st.rows, base, m).flow == tmp(l, 3),
        ensures
            under_way(self.mulf_loop(st, pa, pb, scr, l), base, m),
            self.mulf_loop(st, pa, pb, scr, l).next == st.next,
            exec(self.mulf_loop(st, pa, pb, scr, l).rows, base, m) == exec(st.rows, base, m),
    {
        reveal(Gen::mulf_loop);
        broadcast use lemma_exec_push, lemma_step_seek;

    }

    /// What is on the way comes to its end.
    proof fn lemma_fmul_arrives(&self, st: St, pa: u32, pb: u32, scr: u32, v: int, m: Machine)
        requires
            product_slots(pa, pb, scr, self.retval),
            st.next <= u32::MAX - 40,
            self.on_the_way(
                exec(self.mulf(st, pa, pb, scr).rows, st.rows.len() as int, m),
                scr,
                st.next,
                v,
            ),
        ensures
            comes_to(self.mulf(st, pa, pb, scr).rows, st.rows.len() as int, m, self.retval, v),
    {
        let base = st.rows.len() as int;
        let rows = self.mulf(st, pa, pb, scr).rows;
        let a = exec(rows, base, m);
        if !(a.flow is Gone) {
            let (q, e, lost, neg) = choose|q: int, e: int, lost: bool, neg: bool| #[trigger]
                scaled(a, scr, q, e, lost, neg) && brought_holds(q, e, lost) && brought_float(
                    neg,
                    q,
                    e,
                    lost,
                ) == v;
            self.lemma_shift_passes(st, pa, pb, scr, q, e, lost, neg, a);
        }
        lemma_comes_on(rows, base, m, self.retval, v);
    }

    proof fn lemma_fmul_passes(
        &self,
        st: St,
        pa: u32,
        pb: u32,
        scr: u32,
        left: nat,
        x: int,
        rest: int,
        p: int,
        neg: bool,
        e: int,
        m: Machine,
    )
        requires
            product_slots(pa, pb, scr, self.retval),
            st.next <= u32::MAX - 40,
            m.flow == tmp(st.next, 0),
            self.float_multiplying(m, pa, pb, scr, left, x, rest, p, neg, e),
            unify_holds(p, e),
        ensures
            comes_to(
                self.mulf(st, pa, pb, scr).rows,
                st.rows.len() as int,
                m,
                self.retval,
                unified_float(neg, p, e),
            ),
        decreases left,
    {
        let base = st.rows.len() as int;
        let l = st.next;
        let rows = self.mulf(st, pa, pb, scr).rows;
        let s0 = st.reserve(32);
        assert(exec(s0.rows, base, m) == m) by {
            broadcast use group_exec;

        }
        let s1 = self.fmul_head(s0, pa, pb, scr, l);
        self.lemma_fmul_head(s0, pa, pb, scr, l, base, m);
        self.lemma_fmul_whole(st, pa, pb, scr);
        let more = self.lemma_fmul_pass(s1, pa, pb, scr, l, left, x, rest, p, neg, e, base, m);
        if left > 1 {
            let a = exec(rows, base, m);
            self.lemma_fmul_passes(st, pa, pb, scr, (left - 1) as nat, x, more, p, neg, e, a);
            lemma_comes_on(rows, base, m, self.retval, unified_float(neg, p, e));
        } else {
            self.lemma_fmul_arrives(st, pa, pb, scr, unified_float(neg, p, e), m);
        }
    }

    /// The product routine leaves the exact product of two finite numbers that are
    /// not zero, rounded to nearest, ties to even, in the result bytes: also of
    /// numbers below the normal ones, and where the product is one. A product past
    /// the greatest number keeps the low byte of its exponent. Left out are the
    /// products whose exponent carries out of that byte.
    pub proof fn law_float_product_is_nearest(
        &self,
        st: St,
        pa: u32,
        pb: u32,
        scr: u32,
        m: Machine,
    )
        requires
            product_slots(pa, pb, scr, self.retval),
            st.next <= u32::MAX - 40,
            m.flow is Next,
            m.core is Enhanced,
            is_finite_nonzero(word(m, pa, 4)),
            is_finite_nonzero(word(m, pb, 4)),
            exponent_holds(word(m, pa, 4), word(m, pb, 4)),
        ensures
            exists|a: Machine| #[trigger]
                runs_to(self.mulf(st, pa, pb, scr).rows, st.rows.len() as int, m, a)
                    && a.flow is Gone && word(a, self.retval, 4) == float_product(
                    word(m, pa, 4),
                    word(m, pb, 4),
                ),
    {
        let base = st.rows.len() as int;
        let l = st.next;
        let rows = self.mulf(st, pa, pb, scr).rows;
        let (x, y) = (word(m, pa, 4), word(m, pb, 4));
        let (a, b) = (full_mantissa(x), full_mantissa(y));
        let p = a * b;
        let neg = negative(x) != negative(y);
        let e = joint_exponent(x, y);
        let s0 = st.reserve(32);
        assert(exec(s0.rows, base, m) == m) by {
            broadcast use group_exec;

        }
        assert(0 < a < 0x100_0000 && 0 < b < 0x100_0000);
        assert(0 < p < 0x1_0000_0000_0000) by (nonlinear_arith)
            requires
                p == a * b,
                0 < a < 0x100_0000,
                0 < b < 0x100_0000,
        ;
        lemma_unified(p, e);
        assert(unify_holds(p, e));
        assert(unified_float(neg, p, e) == float_product(x, y));
        let s1 = self.fmul_head(s0, pa, pb, scr, l);
        self.lemma_fmul_head(s0, pa, pb, scr, l, base, m);
        self.lemma_fmul_whole(st, pa, pb, scr);
        let c = exec(s1.rows, base, m);
        assert(pow2(23) == 0x80_0000 && pow2(24) == 0x100_0000) by {
            reveal_with_fuel(pow2, 25);
        }
        assert(self.float_multiplying(c, pa, pb, scr, 24, a, b, p, neg, e));
        let more = self.lemma_fmul_pass(s1, pa, pb, scr, l, 24, a, b, p, neg, e, base, m);
        let z = exec(rows, base, m);
        self.lemma_fmul_passes(st, pa, pb, scr, 23, a, more, p, neg, e, z);
        lemma_comes_on(rows, base, m, self.retval, float_product(x, y));
        assert(comes_to(rows, base, m, self.retval, float_product(x, y)));
    }
}

/// What the finished product `p` at exponent `e` comes to.
pub open spec fn unified(p: int, e: int) -> (int, int) {
    if p >= 0x8000_0000_0000 {
        brought(p, e + 1, false)
    } else {
        brought(2 * p, e, false)
    }
}

/// Its bits.
pub open spec fn unified_float(neg: bool, p: int, e: int) -> int {
    packed_float(neg, unified(p, e).0 % 256, unified(p, e).1)
}

/// Whether its exponent can be held.
pub open spec fn unify_holds(p: int, e: int) -> bool {
    &&& e < 500
    &&& p >= 0x8000_0000_0000 ==> e != -1 && e != 255
    &&& unified(p, e).0 == 255 ==> unified(p, e).1 < 0x100_0000
}

/// Half of two halves.
#[verifier::rlimit(50)]
proof fn lemma_halved(hi: int, low: int, u: int, v: int, c: bool, d: bool, x: int)
    requires
        2 * u + flag(c) == hi,
        2 * v + flag(d) == low + 0x100_0000 * flag(c),
        low % 0x100 == x,
    ensures
        (0x100_0000 * hi + low) / 2 == 0x100_0000 * u + v,
        (0x100_0000 * hi + low) % 2 == x % 2,
{
    let (n, h) = (0x100_0000 * hi + low, 0x100_0000 * u + v);
    assert(n == h * 2 + flag(d));
    lemma_fundamental_div_mod_converse(n, 2, h, flag(d));
    let k = low / 0x100;
    assert(low == 0x100 * k + x);
    let w = v - 0x80_0000 * flag(c) - 0x80 * k;
    assert(x == w * 2 + flag(d));
    lemma_fundamental_div_mod_converse(x, 2, w, flag(d));
}

/// Rounding does not change when both numbers are doubled.
proof fn lemma_half_even_doubled(p: int, d: int)
    requires
        d > 0,
    ensures
        half_even(2 * p, 2 * d) == half_even(p, d),
{
    let (q, r) = (p / d, p % d);
    lemma_fundamental_div_mod(p, d);
    lemma_mod_bound(p, d);
    assert(2 * p == q * (2 * d) + 2 * r) by (nonlinear_arith)
        requires
            p == d * q + r,
    ;
    lemma_fundamental_div_mod_converse(2 * p, 2 * d, q, 2 * r);
}

/// The 24 bits at the top of 48, rounded.
#[verifier::rlimit(50)]
proof fn lemma_wide_rounds(q: int)
    requires
        q >= 0,
    ensures
        q / 0x100_0000 + flag(wide_up(q, false)) == half_even(q, 0x100_0000),
{
    let (u, v) = (q / 0x100_0000, q % 0x100_0000);
    assert(q == 0x100_0000 * u + v);
    assert(q % 0x80_0000 == (if v >= 0x80_0000 {
        v - 0x80_0000
    } else {
        v
    })) by {
        lemma_fundamental_div_mod_converse(q, 0x80_0000, 2 * u + flag(v >= 0x80_0000), if v >= 0x80_0000 {
            v - 0x80_0000
        } else {
            v
        });
    }
    let (g, h) = (0x100_0000int, 0x80_0000int);
    assert(g * 0x100_0000 == 2 * (h * g) && q * 0x100_0000 == (2 * (h * g)) * u + v * g + 0) by (nonlinear_arith)
        requires
            q == 0x100_0000 * u + v,
            g == 0x100_0000,
            h == 0x80_0000,
    ;
    lemma_upper_rounds(q, g, h, g, u, v, 0);
    assert((v != 0 && v != 0x80_0000) == (q % 0x80_0000 != 0));
}

/// The shifts up.
#[verifier::rlimit(50)]
proof fn lemma_brought_up(p: int, e: int)
    requires
        0 < p < 0x8000_0000_0000,
        e >= 1,
    ensures
        ({
            let r = top_exponent(p, e);
            r >= 1 && brought(2 * p, e, false) == (r, at_exponent(p, 23 + r - e))
        }),
    decreases e,
{
    lemma_pow2_values();
    if p >= 0x4000_0000_0000 || e == 1 {
        lemma_wide_rounds(2 * p);
        lemma_half_even_doubled(p, 0x80_0000);
    } else {
        lemma_brought_up(2 * p, e - 1);
        let c = 23 + top_exponent(p, e) - e;
        assert(2 * (2 * p) == 4 * p);
        if c >= 0 {
            lemma_pow2_next(c);
            lemma_half_even_doubled(p, pow2(c));
        } else if c == -1 {
            assert(half_even(2 * p, 1) == 2 * p) by {
                assert((2 * p) / 1 == 2 * p && (2 * p) % 1 == 0);
            }
            assert(p * 2 == 2 * p);
        } else {
            lemma_pow2_next(-c - 1);
            let h = pow2(-c - 1);
            assert((2 * p) * h == p * (2 * h)) by (nonlinear_arith);
        }
    }
}

/// The shifts down: `i` of them are done.
#[verifier::rlimit(50)]
proof fn lemma_brought_down(q: int, e: int, i: int)
    requires
        q >= 0,
        i >= 0,
        e + i <= 1,
        e < 1,
    ensures
        ({
            let g = pow2(i);
            brought(q / g, e + i, q % g != 0) == (1int, half_even(q, pow2(25 - e)))
        }),
    decreases 1 - e - i,
{
    let g = pow2(i);
    lemma_pow2_positive(i);
    let (w, t) = (q / g, q % g);
    lemma_fundamental_div_mod(q, g);
    lemma_mod_bound(q, g);
    assert(w >= 0) by (nonlinear_arith)
        requires
            q == g * w + t,
            0 <= t < g,
            q >= 0,
    ;
    if e + i == 1 {
        lemma_pow2_values();
        lemma_pow2_sum(i, 24);
        let (a, b) = (w / 0x100_0000, w % 0x100_0000);
        assert(w == 0x100_0000 * a + b);
        let big = g * 0x100_0000;
        let h = 0x80_0000int;
        assert(big * 0x100_0000 == 2 * (h * big)) by (nonlinear_arith)
            requires
                h == 0x80_0000,
        ;
        assert(q * 0x100_0000 == (2 * (h * big)) * a + b * big + t * 0x100_0000) by (nonlinear_arith)
            requires
                q == g * w + t,
                w == 0x100_0000 * a + b,
                big == g * 0x100_0000,
                h == 0x80_0000,
        ;
        lemma_upper_rounds(q, big, h, big, a, b, t * 0x100_0000);
        assert(w % 0x80_0000 != 0 <==> b != 0 && b != h);
        assert((w / 0x100_0000) % 2 == 1 <==> a % 2 == 1);
    } else {
        lemma_pow2_next(i);
        let (w2, t2) = (w / 2, t + g * (w % 2));
        assert(q == w2 * (2 * g) + t2) by (nonlinear_arith)
            requires
                q == g * w + t,
                w == 2 * w2 + w % 2,
                t2 == t + g * (w % 2),
        ;
        assert(0 <= t2 < 2 * g && (t2 != 0 <==> t != 0 || w % 2 == 1)) by (nonlinear_arith)
            requires
                t2 == t + g * (w % 2),
                0 <= t < g,
                w % 2 == 0 || w % 2 == 1,
        ;
        lemma_fundamental_div_mod_converse(q, 2 * g, w2, t2);
        lemma_brought_down(q, e, i + 1);
    }
}

/// What a finished product comes to is the product at its exponent.
proof fn lemma_unified(p: int, e: int)
    requires
        0 < p < 0x1_0000_0000_0000,
    ensures
        ({
            let t = top_exponent(p, e);
            let r = if t < 1 {
                1
            } else {
                t
            };
            unified(p, e) == (r, at_exponent(p, 23 + r - e))
        }),
{
    lemma_pow2_values();
    if p >= 0x8000_0000_0000 {
        if e + 1 < 1 {
            assert(pow2(0) == 1 && p / 1 == p && p % 1 == 0);
            lemma_brought_down(p, e + 1, 0);
        } else {
            lemma_wide_rounds(p);
        }
    } else if e < 1 {
        assert(pow2(0) == 1 && (2 * p) / 1 == 2 * p && (2 * p) % 1 == 0);
        lemma_brought_down(2 * p, e, 0);
        lemma_pow2_next(24 - e);
        lemma_half_even_doubled(p, pow2(24 - e));
    } else {
        lemma_brought_up(p, e);
    }
}

/// The top bit of a mantissa, and its lowest.
pub(crate) proof fn lemma_top_bit(m: Machine, m0: u32, m1: u32, m2: u32)
    ensures
        mantissa(m, m0, m1, m2) >= 0x80_0000 <==> m.ram[m2] >= 128,
        mantissa(m, m0, m1, m2) < 0x100_0000,
        mantissa(m, m0, m1, m2) % 2 == m.ram[m0] % 2,
{
}

/// The next bit of the multiplier is the top bit of what is left of it.
proof fn lemma_next_bit(v: int, rest: int, h: int)
    requires
        h > 0,
        0 <= v < 0x100_0000,
        v * (2 * h) == 0x100_0000 * rest,
        0 <= rest < 2 * h,
    ensures
        v >= 0x80_0000 ==> rest >= h && (2 * v - 0x100_0000) * h == 0x100_0000 * (rest - h) && rest - h
            < h,
        v < 0x80_0000 ==> rest < h && (2 * v) * h == 0x100_0000 * rest,
{
    assert(v * (2 * h) == 2 * (v * h)) by (nonlinear_arith);
    assert((2 * v - 0x100_0000) * h == 2 * (v * h) - 0x100_0000 * h) by (nonlinear_arith);
    assert((2 * v) * h == 2 * (v * h)) by (nonlinear_arith);
    if v >= 0x80_0000 {
        assert(v * h >= 0x80_0000 * h) by (nonlinear_arith)
            requires
                v >= 0x80_0000,
                h > 0,
        ;
    } else {
        assert(v * h < 0x80_0000 * h) by (nonlinear_arith)
            requires
                v < 0x80_0000,
                h > 0,
        ;
    }
}

} // verus!
