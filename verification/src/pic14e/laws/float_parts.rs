//! The float sum: its operands taken apart.
use vstd::prelude::*;
use crate::emit::{at, goto_tmp, label_tmp, lit, movf, movlw, movwf, on_z, w_op, St};
use crate::line::{BitOp, LitOp, Op};
use crate::machine::{exec, group_exec, Flow, Machine};
use crate::meaning::{apart, word};
use crate::pic14e::laws::float_chain::three;
use crate::pic14e::laws::float_int::{tmp, under_way};
use crate::pic14e::laws::float_order::{exponent, fraction, lemma_masks, lemma_parts, negative};
use crate::pic14e::Gen;

verus! {

/// Whether the operands and the result share no byte with the working bytes.
pub open spec fn sum_slots(pa: u32, pb: u32, scr: u32, r: u32) -> bool {
    &&& pa <= 0xFFFF && pb <= 0xFFFF && scr <= 0xFFFF && r <= 0xFFFF
    &&& apart(pa, 4, scr, 14)
    &&& apart(pb, 4, scr, 14)
    &&& apart(r, 4, scr, 14)
}

/// Whether a number is neither zero nor infinite nor no number.
pub open spec fn is_finite_nonzero(x: int) -> bool {
    exponent(x) <= 254 && (exponent(x) != 0 || fraction(x) != 0)
}

/// The exponent at whose scale the mantissa stands: one for a number with
/// exponent zero.
pub open spec fn scale(x: int) -> int {
    if exponent(x) == 0 {
        1
    } else {
        exponent(x)
    }
}

/// The exponent as the sum holds it: zero for a zero.
pub open spec fn held_scale(x: int) -> int {
    if exponent(x) == 0 && fraction(x) != 0 {
        1
    } else {
        exponent(x)
    }
}

/// The mantissa with its implicit bit, which a number with exponent zero lacks.
pub open spec fn full_mantissa(x: int) -> int {
    if exponent(x) == 0 {
        fraction(x)
    } else {
        0x80_0000 + fraction(x)
    }
}

/// Whether a run of the sum is on its way elsewhere: to the alignment, to the
/// normalisation, to the result, with or without the test for a number below the
/// normal ones, or to a zero result.
pub open spec fn returning(f: Flow, l: u32) -> bool {
    f == tmp(l, 6) || f == tmp(l, 18) || f == tmp(l, 22) || f == tmp(l, 32) || f == tmp(l, 2)
}

/// The byte that holds a sign.
pub open spec fn sign_byte(neg: bool) -> u8 {
    if neg {
        0x80
    } else {
        0
    }
}

/// A number as the sum holds it: the bytes of sign, exponent and mantissa.
pub open spec fn holds_parts(m: Machine, sign: u32, exp: u32, mant: u32, x: int, flip: bool) -> bool {
    &&& m.ram[sign] == sign_byte(negative(x) != flip)
    &&& m.ram[exp] == held_scale(x)
    &&& three(m, mant) == full_mantissa(x)
}

impl<'a> Gen<'a> {
    /// The sign, flipped on demand.
    pub open spec fn fadd_sign(&self, st: St, slot: u32, sign: u32, flip: bool) -> St {
        let s = st.emit(movf(at(slot, 3))).emit(lit(LitOp::Andlw, 0x80));
        (if flip {
            s.emit(lit(LitOp::Xorlw, 0x80))
        } else {
            s
        }).emit(movwf(sign))
    }

    proof fn lemma_fadd_sign(&self, st: St, slot: u32, sign: u32, flip: bool, base: int, m: Machine)
        requires
            under_way(st, base, m),
        ensures
            ({
                let b = exec(st.rows, base, m);
                let s = self.fadd_sign(st, slot, sign, flip);
                let a = exec(s.rows, base, m);
                &&& base <= s.rows.len()
                &&& s.next == st.next
                &&& b.flow is Next ==> a.flow is Next && a.core == b.core && a.ram == b.ram.insert(
                    sign,
                    sign_byte((b.ram[at(slot, 3)] >= 128) != flip),
                )
                &&& b.flow is Seek ==> a == b
            }),
    {
        lemma_masks();
        assert(0x80u8 ^ 0x80u8 == 0 && 0u8 ^ 0x80u8 == 0x80 && 0x80u8 ^ 0u8 == 0x80) by (bit_vector);
        broadcast use group_exec;

    }

    /// The lower bytes of the mantissa.
    pub open spec fn fadd_low(&self, st: St, slot: u32, mant: u32) -> St {
        st.emit(movf(slot)).emit(movwf(mant)).emit(movf(at(slot, 1))).emit(movwf(at(mant, 1)))
    }

    #[verifier::rlimit(50)]
    proof fn lemma_fadd_high(&self, st: St, slot: u32, base: int, m: Machine)
        requires
            under_way(st, base, m),
            st.next <= u32::MAX - 10,
        ensures
            ({
                let b = exec(st.rows, base, m);
                let s = self.mant_hi(st, slot);
                let a = exec(s.rows, base, m);
                let x = b.ram[at(slot, 2)];
                let y = b.ram[at(slot, 3)];
                &&& base <= s.rows.len()
                &&& s.next == st.next + 2
                &&& b.flow is Next ==> {
                    &&& a.flow is Next
                    &&& a.core == b.core
                    &&& a.ram == b.ram
                    &&& a.w == x % 128 + (if y % 128 != 0 || x >= 128 {
                        128int
                    } else {
                        0
                    })
                }
                &&& b.flow is Seek && b.flow != tmp(st.next, 0) && b.flow != tmp(st.next, 1) ==> a == b
            }),
    {
        let b = exec(st.rows, base, m);
        let s = self.mant_hi(st, slot);
        let a = exec(s.rows, base, m);
        let x = b.ram[at(slot, 2)];
        let y = b.ram[at(slot, 3)];
        let s0 = st.bump().bump();
        assert(exec(s0.rows, base, m) == b);
        assert(base <= s.rows.len() && s.next == st.next + 2);
        lemma_masks();
        assert((x & 0x7Fu8) | 0x80u8 == x % 128 + 128) by (bit_vector);
        if b.flow is Next {
            if y % 128 != 0 {
                assert(a.flow is Next && a.core == b.core && a.ram == b.ram && a.w == x % 128 + 128) by {
                    broadcast use group_exec;

                }
            } else if x >= 128 {
                assert(a.flow is Next && a.core == b.core && a.ram == b.ram && a.w == x % 128 + 128) by {
                    broadcast use group_exec;

                }
            } else {
                assert(a.flow is Next && a.core == b.core && a.ram == b.ram && a.w == x % 128) by {
                    broadcast use group_exec;

                }
            }
        } else if b.flow != tmp(st.next, 0) && b.flow != tmp(st.next, 1) {
            assert(a == b) by {
                broadcast use group_exec;

            }
        }
    }

    /// Exponent one for a fraction without an exponent.
    pub open spec fn fadd_small(&self, st: St, exp: u32, mant: u32) -> St {
        let l_den_done = st.next;
        st.bump().emit(movf(exp)).emit(on_z(BitOp::Btfss)).emit(goto_tmp(l_den_done)).emit(
            movf(mant),
        ).emit(w_op(Op::Iorwf, at(mant, 1))).emit(w_op(Op::Iorwf, at(mant, 2))).emit(
            on_z(BitOp::Btfsc),
        ).emit(goto_tmp(l_den_done)).emit(movlw(0x01)).emit(movwf(exp)).emit(label_tmp(l_den_done))
    }

    #[verifier::rlimit(50)]
    proof fn lemma_fadd_small(&self, st: St, exp: u32, mant: u32, base: int, m: Machine)
        requires
            under_way(st, base, m),
            st.next <= u32::MAX - 10,
        ensures
            ({
                let b = exec(st.rows, base, m);
                let s = self.fadd_small(st, exp, mant);
                let a = exec(s.rows, base, m);
                &&& base <= s.rows.len()
                &&& s.next == st.next + 1
                &&& b.flow is Next ==> {
                    &&& a.flow is Next
                    &&& a.core == b.core
                    &&& a.ram == (if b.ram[exp] == 0 && three(b, mant) != 0 {
                        b.ram.insert(exp, 1)
                    } else {
                        b.ram
                    })
                }
                &&& b.flow is Seek && b.flow != tmp(st.next, 0) ==> a == b
            }),
    {
        let b = exec(st.rows, base, m);
        let s = self.fadd_small(st, exp, mant);
        let a = exec(s.rows, base, m);
        let s0 = st.bump();
        assert(exec(s0.rows, base, m) == b);
        assert(base <= s.rows.len() && s.next == st.next + 1);
        lemma_masks();
        if b.flow is Next {
            if b.ram[exp] != 0 {
                assert(a.flow is Next && a.core == b.core && a.ram == b.ram) by {
                    broadcast use group_exec;

                }
            } else if three(b, mant) == 0 {
                assert(b.ram[mant] == 0 && b.ram[at(mant, 1)] == 0 && b.ram[at(mant, 2)] == 0);
                assert(a.flow is Next && a.core == b.core && a.ram == b.ram) by {
                    broadcast use group_exec;

                }
            } else {
                assert(a.flow is Next && a.core == b.core && a.ram == b.ram.insert(exp, 1)) by {
                    broadcast use group_exec;

                }
            }
        } else if b.flow != tmp(st.next, 0) {
            assert(a == b) by {
                broadcast use group_exec;

            }
        }
    }

    /// The mantissa.
    pub open spec fn fadd_mantissa(&self, st: St, slot: u32, mant: u32) -> St {
        self.mant_hi(self.fadd_low(st, slot, mant), slot).emit(movwf(at(mant, 2)))
    }

    #[verifier::rlimit(50)]
    proof fn lemma_fadd_mantissa(&self, st: St, slot: u32, mant: u32, base: int, m: Machine)
        requires
            under_way(st, base, m),
            st.next <= u32::MAX - 10,
            slot <= 0xFFFF,
            mant <= 0x1_FFFF,
            apart(slot, 4, mant, 3),
        ensures
            ({
                let b = exec(st.rows, base, m);
                let s = self.fadd_mantissa(st, slot, mant);
                let a = exec(s.rows, base, m);
                &&& base <= s.rows.len()
                &&& s.next == st.next + 2
                &&& b.flow is Next ==> {
                    &&& a.flow is Next
                    &&& a.core == b.core
                    &&& three(a, mant) == full_mantissa(word(b, slot, 4))
                    &&& forall|y: u32| y < mant || y >= mant + 3 ==> #[trigger] a.ram[y] == b.ram[y]
                }
                &&& b.flow is Seek && b.flow != tmp(st.next, 0) && b.flow != tmp(st.next, 1) ==> a == b
            }),
    {
        let b = exec(st.rows, base, m);
        let s3 = self.fadd_low(st, slot, mant);
        let c3 = exec(s3.rows, base, m);
        assert(base <= s3.rows.len());
        if b.flow is Next {
            assert(c3.core == b.core && c3.flow is Next && c3.ram == b.ram.insert(mant, b.ram[slot]).insert(
                at(mant, 1),
                b.ram[at(slot, 1)],
            )) by {
                broadcast use group_exec;

            }
        } else {
            assert(c3 == b) by {
                broadcast use group_exec;

            }
        }
        let s4 = self.mant_hi(s3, slot);
        self.lemma_fadd_high(s3, slot, base, m);
        let c4 = exec(s4.rows, base, m);
        let s5 = self.fadd_mantissa(st, slot, mant);
        let c5 = exec(s5.rows, base, m);
        assert(base <= s5.rows.len());
        if b.flow is Next {
            assert(c5.core == b.core && c5.flow is Next && c5.ram == c4.ram.insert(at(mant, 2), c4.w)) by {
                broadcast use group_exec;

            }
            lemma_parts(b, slot);
        } else if c4 == b {
            assert(c5 == c4) by {
                broadcast use group_exec;

            }
        }
    }

    /// A finite number is taken apart.
    pub(crate) proof fn lemma_extract(
        &self,
        st: St,
        slot: u32,
        sign: u32,
        flip: bool,
        base: int,
        m: Machine,
    )
        requires
            under_way(st, base, m),
            st.next <= u32::MAX - 20,
            slot <= 0xFFFF,
            sign <= 0x1_FFF0,
            apart(slot, 4, sign, 5),
        ensures
            ({
                let b = exec(st.rows, base, m);
                let s = self.extract(st, slot, sign, at(sign, 1), at(sign, 2), flip);
                let a = exec(s.rows, base, m);
                let x = word(b, slot, 4);
                &&& base <= s.rows.len()
                &&& s.next == st.next + 3
                &&& b.flow is Next ==> {
                    &&& a.flow is Next
                    &&& a.core == b.core
                    &&& holds_parts(a, sign, at(sign, 1), at(sign, 2), x, flip)
                    &&& forall|y: u32| y < sign || y >= sign + 5 ==> #[trigger] a.ram[y] == b.ram[y]
                }
                &&& b.flow is Seek && b.flow != tmp(st.next, 0) && b.flow != tmp(st.next, 1) && b.flow
                    != tmp(st.next, 2) ==> a == b
            }),
    {
        let b = exec(st.rows, base, m);
        let exp = at(sign, 1);
        let mant = at(sign, 2);
        let x = word(b, slot, 4);
        let s1 = self.fadd_sign(st, slot, sign, flip);
        self.lemma_fadd_sign(st, slot, sign, flip, base, m);
        let c1 = exec(s1.rows, base, m);
        let s2 = self.unpack_exponent(s1, slot, exp);
        self.lemma_unpack_exponent(s1, slot, exp, base, m);
        let c2 = exec(s2.rows, base, m);
        let s5 = self.fadd_mantissa(s2, slot, mant);
        self.lemma_fadd_mantissa(s2, slot, mant, base, m);
        let c5 = exec(s5.rows, base, m);
        assert(s2.next == st.next && s5.next == st.next + 2);
        let s6 = self.fadd_small(s5, exp, mant);
        assert(self.extract(st, slot, sign, exp, mant, flip) == s6);
        if b.flow is Next {
            assert(word(c1, slot, 4) == x);
            assert(word(c2, slot, 4) == x);
            self.lemma_fadd_small(s5, exp, mant, base, m);
            let a = exec(s6.rows, base, m);
            lemma_parts(b, slot);
            assert(three(a, mant) == three(c5, mant));
            assert(a.ram[sign] == c1.ram[sign]);
        } else if c5 == b {
            self.lemma_fadd_small(s5, exp, mant, base, m);
        }
    }
}

} // verus!
