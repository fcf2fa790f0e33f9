//! The float sum with a zero operand.
use vstd::prelude::*;
use crate::emit::{at, clrf, goto_tmp, label_at, label_tmp, movf, movwf, St};
use crate::machine::{exec, group_exec, runs_to, Machine};
use crate::meaning::word;
use crate::pic14e::laws::float_chain::three;
use crate::pic14e::laws::float_int::{tmp, under_way};
use crate::pic14e::laws::float_order::{exponent, fraction, lemma_masks, negative};
use crate::pic14e::laws::float_parts::{full_mantissa, held_scale, sign_byte, sum_slots};
use crate::pic14e::laws::float_round::packed_float;
use crate::pic14e::laws::float_sum::{comes_to, lemma_comes_on};
use crate::pic14e::Gen;

verus! {

/// Whether a number is a zero of either sign.
pub open spec fn is_zero(x: int) -> bool {
    exponent(x) == 0 && fraction(x) == 0
}

/// The number with the sign that the sum gives it.
pub open spec fn signed_as(x: int, neg: bool) -> int {
    packed_float(neg, exponent(x), 0x80_0000 + fraction(x))
}

/// The sum, or difference, of two numbers of which one is zero: the other one; of
/// two zeros the negative one only if both are negative.
pub open spec fn sum_with_zero(x: int, y: int, flip: bool) -> int {
    if is_zero(x) && is_zero(y) {
        packed_float(negative(x) && negative(y) != flip, 0, 0x80_0000)
    } else if is_zero(x) {
        signed_as(y, negative(y) != flip)
    } else {
        signed_as(x, negative(x))
    }
}

/// The fraction is what the mantissa has below its implicit bit.
proof fn lemma_fraction_of(x: int)
    ensures
        full_mantissa(x) % 0x80_0000 == fraction(x),
        is_zero(x) <==> full_mantissa(x) == 0,
{
}

impl<'a> Gen<'a> {
    proof fn lemma_fadd_is_zero(&self, st: St, mant: u32, l_nz: u32, base: int, m: Machine)
        requires
            under_way(st, base, m),
            exec(st.rows, base, m).flow is Next,
            three(exec(st.rows, base, m), mant) == 0,
        ensures
            ({
                let b = exec(st.rows, base, m);
                let s = self.fadd_nonzero(st, mant, l_nz);
                let a = exec(s.rows, base, m);
                under_way(s, base, m) && a.flow is Next && a.ram == b.ram
            }),
    {
        let b = exec(st.rows, base, m);
        assert(b.ram[mant] == 0 && b.ram[at(mant, 1)] == 0 && b.ram[at(mant, 2)] == 0);
        lemma_masks();
        broadcast use group_exec;

    }

    /// The rows that copy the second operand.
    pub open spec fn fadd_moves(&self, st: St, scr: u32, l: u32) -> St {
        st.emit(goto_tmp(label_at(l, 2))).emit(label_tmp(label_at(l, 1))).emit(movf(at(scr, 5))).emit(
            movwf(scr),
        ).emit(movf(at(scr, 6))).emit(movwf(at(scr, 1))).emit(movf(at(scr, 7))).emit(
            movwf(at(scr, 2)),
        ).emit(movf(at(scr, 8))).emit(movwf(at(scr, 3))).emit(movf(at(scr, 9))).emit(
            movwf(at(scr, 4)),
        ).emit(clrf(at(scr, 10))).emit(goto_tmp(label_at(l, 32)))
    }

    /// The rows for a first operand that is not zero.
    pub open spec fn fadd_first(&self, st: St, scr: u32, l: u32) -> St {
        self.fadd_nonzero(st.emit(label_tmp(label_at(l, 0))), at(scr, 7), label_at(l, 3)).emit(
            clrf(at(scr, 10)),
        ).emit(goto_tmp(label_at(l, 32))).emit(label_tmp(label_at(l, 3))).emit(
            clrf(at(scr, 10)),
        ).emit(clrf(at(scr, 12))).emit(clrf(at(scr, 13)))
    }

    proof fn lemma_fadd_zeros_rows(&self, st: St, scr: u32, l: u32)
        ensures
            self.addf_zeros(st, scr, l) == self.fadd_first(
                self.fadd_copy(self.fadd_nonzero(st, at(scr, 2), label_at(l, 0)), scr, l),
                scr,
                l,
            ),
            forall|s: St|
                #[trigger] self.fadd_copy(s, scr, l) == self.fadd_moves(
                    self.fadd_nonzero(s, at(scr, 7), label_at(l, 1)),
                    scr,
                    l,
                ),
    {
        reveal(Gen::addf_zeros);
    }

    proof fn lemma_fadd_first_over(&self, st: St, scr: u32, l: u32, base: int, m: Machine)
        requires
            under_way(st, base, m),
            l <= u32::MAX - 50,
            exec(st.rows, base, m).flow == tmp(l, 32) || exec(st.rows, base, m).flow == tmp(l, 2),
        ensures
            under_way(self.fadd_first(st, scr, l), base, m),
            exec(self.fadd_first(st, scr, l).rows, base, m) == exec(st.rows, base, m),
    {
        broadcast use group_exec;

    }

    /// A zero second operand: the first one is the result.
    #[verifier::rlimit(50)]
    proof fn lemma_fadd_second_zero(&self, st: St, scr: u32, l: u32, base: int, m: Machine)
        requires
            under_way(st, base, m),
            l <= u32::MAX - 50,
            scr <= 0xFFFF,
            ({
                let b = exec(st.rows, base, m);
                b.flow is Next && three(b, at(scr, 2)) != 0 && three(b, at(scr, 7)) == 0
            }),
        ensures
            ({
                let b = exec(st.rows, base, m);
                let s = self.addf_zeros(st, scr, l);
                let a = exec(s.rows, base, m);
                &&& under_way(s, base, m)
                &&& s.next == st.next
                &&& a.flow == tmp(l, 32)
                &&& a.ram == b.ram.insert(at(scr, 10), 0)
            }),
    {
        let b = exec(st.rows, base, m);
        self.lemma_fadd_zeros_rows(st, scr, l);
        let s1 = self.fadd_nonzero(st, at(scr, 2), label_at(l, 0));
        self.lemma_fadd_nonzero(st, at(scr, 2), l, 0, base, m);
        let s2 = self.fadd_copy(s1, scr, l);
        self.lemma_fadd_copy_over(s1, scr, l, base, m);
        let s3 = s2.emit(label_tmp(label_at(l, 0)));
        let c3 = exec(s3.rows, base, m);
        assert(base <= s3.rows.len() && c3.core == b.core && c3.ram == b.ram && c3.flow is Next) by {
            broadcast use group_exec;

        }
        assert(three(c3, at(scr, 7)) == 0);
        let s4 = self.fadd_nonzero(s3, at(scr, 7), label_at(l, 3));
        self.lemma_fadd_is_zero(s3, at(scr, 7), label_at(l, 3), base, m);
        let c4 = exec(s4.rows, base, m);
        let s5 = self.fadd_first(s2, scr, l);
        let a = exec(s5.rows, base, m);
        assert(base <= s5.rows.len() && a.core == c4.core && a.flow == tmp(l, 32) && a.ram
            == c4.ram.insert(at(scr, 10), 0)) by {
            broadcast use group_exec;

        }
        assert(s5.next == st.next);
    }

    /// A zero first operand: the second one is the result, or the zero.
    #[verifier::rlimit(50)]
    proof fn lemma_fadd_first_zero(&self, st: St, scr: u32, l: u32, base: int, m: Machine)
        requires
            under_way(st, base, m),
            l <= u32::MAX - 50,
            scr <= 0xFFFF,
            ({
                let b = exec(st.rows, base, m);
                b.flow is Next && three(b, at(scr, 2)) == 0
            }),
        ensures
            ({
                let b = exec(st.rows, base, m);
                let s = self.addf_zeros(st, scr, l);
                let a = exec(s.rows, base, m);
                &&& under_way(s, base, m)
                &&& s.next == st.next
                &&& if three(b, at(scr, 7)) == 0 {
                    a.flow == tmp(l, 2) && a.ram == b.ram
                } else {
                    &&& a.flow == tmp(l, 32)
                    &&& a.ram[scr] == b.ram[at(scr, 5)]
                    &&& a.ram[at(scr, 1)] == b.ram[at(scr, 6)]
                    &&& three(a, at(scr, 2)) == three(b, at(scr, 7))
                }
            }),
    {
        let b = exec(st.rows, base, m);
        self.lemma_fadd_zeros_rows(st, scr, l);
        let s1 = self.fadd_nonzero(st, at(scr, 2), label_at(l, 0));
        self.lemma_fadd_is_zero(st, at(scr, 2), label_at(l, 0), base, m);
        let c1 = exec(s1.rows, base, m);
        assert(three(c1, at(scr, 7)) == three(b, at(scr, 7)));
        let s2 = self.fadd_nonzero(s1, at(scr, 7), label_at(l, 1));
        let c2 = exec(s2.rows, base, m);
        let s3 = self.fadd_moves(s2, scr, l);
        let c3 = exec(s3.rows, base, m);
        assert(base <= s3.rows.len());
        if three(b, at(scr, 7)) == 0 {
            self.lemma_fadd_is_zero(s1, at(scr, 7), label_at(l, 1), base, m);
            assert(c3.core == c2.core && c3.flow == tmp(l, 2) && c3.ram == c2.ram) by {
                broadcast use group_exec;

            }
        } else {
            self.lemma_fadd_nonzero(s1, at(scr, 7), l, 1, base, m);
            assert(c3.core == c2.core && c3.flow == tmp(l, 32) && c3.ram == c2.ram.insert(
                scr,
                c2.ram[at(scr, 5)],
            ).insert(at(scr, 1), c2.ram[at(scr, 6)]).insert(at(scr, 2), c2.ram[at(scr, 7)]).insert(
                at(scr, 3),
                c2.ram[at(scr, 8)],
            ).insert(at(scr, 4), c2.ram[at(scr, 9)]).insert(at(scr, 10), 0)) by {
                broadcast use group_exec;

            }
        }
        self.lemma_fadd_first_over(s3, scr, l, base, m);
        assert(self.addf_zeros(st, scr, l) == self.fadd_first(s3, scr, l));
        assert(self.fadd_first(s3, scr, l).next == st.next);
    }

    /// From the test for zeros on: the result is put together, or the zero is left
    /// to the next pass.
    proof fn lemma_fzero_rest(&self, st: St, scr: u32, l: u32, base: int, m: Machine)
        requires
            under_way(st, base, m),
            scr <= 0xFFFF,
            self.retval <= 0xFFFF,
            self.retval + 4 <= scr || scr + 14 <= self.retval,
            l <= u32::MAX - 50,
            st.next == l + 34,
            ({
                let b = exec(st.rows, base, m);
                ||| b.flow == tmp(l, 32)
                ||| b.flow == tmp(l, 2) && (b.ram[scr] == 0 || b.ram[scr] == 0x80) && (b.ram[at(scr, 5)] == 0
                    || b.ram[at(scr, 5)] == 0x80)
            }),
        ensures
            ({
                let b = exec(st.rows, base, m);
                let s = self.fadd_turn(self.fadd_align_head(st, scr, l), scr, l).emit(
                    label_tmp(label_at(l, 7)),
                );
                let a = exec(self.fadd_late(s, scr, l).rows, base, m);
                &&& b.flow == tmp(l, 32) ==> a.flow is Gone && word(a, self.retval, 4) == packed_float(
                    b.ram[scr] >= 128,
                    if three(b, at(scr, 2)) < 0x80_0000 && b.ram[at(scr, 1)] == 1 {
                        0
                    } else {
                        b.ram[at(scr, 1)] as int
                    },
                    three(b, at(scr, 2)) % 0x80_0000 + 0x80_0000,
                )
                &&& b.flow == tmp(l, 2) ==> {
                    &&& a.flow == tmp(l, 22)
                    &&& a.core is Enhanced
                    &&& a.ram[scr] == sign_byte(b.ram[scr] == 0x80 && b.ram[at(scr, 5)] == 0x80)
                    &&& a.ram[at(scr, 1)] == 0
                    &&& three(a, at(scr, 2)) == 0
                }
            }),
    {
        let b = exec(st.rows, base, m);
        let s0 = self.fadd_align_head(st, scr, l);
        self.lemma_fadd_align_head(st, scr, l, base, m);
        let s1 = self.fadd_turn(s0, scr, l);
        self.lemma_fadd_turn_over(s0, scr, l, base, m);
        let s2 = s1.emit(label_tmp(label_at(l, 7)));
        assert(base <= s2.rows.len() && exec(s2.rows, base, m) == b) by {
            broadcast use group_exec;

        }
        assert(s2.next == st.next);
        let s3 = self.addf_sum(s2, scr, l);
        self.lemma_fadd_sum_over(s2, scr, l, base, m);
        let s4 = self.addf_order(s3, scr, l);
        self.lemma_fadd_order(s3, scr, l, base, m);
        let s5 = self.addf_difference(s4, scr, l);
        self.lemma_fadd_difference_over(s4, scr, l, base, m);
        let s6 = self.addf_normalize(s5, scr, l);
        self.lemma_fadd_normalize_over(s5, scr, l, base, m);
        let s7 = self.addf_round(s6, scr, l);
        self.lemma_fadd_round(s6, scr, l, base, m);
        self.lemma_fadd_zero(s7, scr, l, base, m);
    }

    /// The rows up to the test for zeros.
    pub open spec fn fzero_start(&self, st: St, pa: u32, pb: u32, scr: u32, flip: bool) -> St {
        let s = self.extract(st, pa, scr, at(scr, 1), at(scr, 2), false);
        let s = self.extract(s, pb, at(scr, 5), at(scr, 6), at(scr, 7), flip);
        let l = s.next;
        self.addf_zeros(self.addf_specials(s.reserve(34), scr, l), scr, l)
    }

    /// The zero is found, and the other operand stands first.
    proof fn lemma_fzero_found(
        &self,
        st: St,
        pa: u32,
        pb: u32,
        scr: u32,
        flip: bool,
        m: Machine,
    )
        requires
            sum_slots(pa, pb, scr, self.retval),
            st.next <= u32::MAX - 60,
            m.flow is Next,
            m.core is Enhanced,
            ({
                let (x, y) = (word(m, pa, 4), word(m, pb, 4));
                &&& is_zero(x) || is_zero(y)
                &&& exponent(x) <= 254
                &&& exponent(y) <= 254
            }),
        ensures
            ({
                let (x, y) = (word(m, pa, 4), word(m, pb, 4));
                let l = (st.next + 6) as u32;
                let s = self.fzero_start(st, pa, pb, scr, flip);
                let a = exec(s.rows, st.rows.len() as int, m);
                let (u, neg) = if is_zero(x) {
                    (y, negative(y) != flip)
                } else {
                    (x, negative(x))
                };
                &&& under_way(s, st.rows.len() as int, m)
                &&& s.next == l + 34
                &&& if is_zero(x) && is_zero(y) {
                    &&& a.flow == tmp(l, 2)
                    &&& a.ram[scr] == sign_byte(negative(x))
                    &&& a.ram[at(scr, 5)] == sign_byte(negative(y) != flip)
                } else {
                    &&& a.flow == tmp(l, 32)
                    &&& a.ram[scr] == sign_byte(neg)
                    &&& a.ram[at(scr, 1)] == held_scale(u)
                    &&& three(a, at(scr, 2)) == full_mantissa(u)
                }
            }),
    {
        let base = st.rows.len() as int;
        let l = (st.next + 6) as u32;
        let (x, y) = (word(m, pa, 4), word(m, pb, 4));
        let s2 = self.extract(
            self.extract(st, pa, scr, at(scr, 1), at(scr, 2), false),
            pb,
            at(scr, 5),
            at(scr, 6),
            at(scr, 7),
            flip,
        );
        self.lemma_fsum_parts(st, pa, pb, scr, flip, m);
        let c2 = exec(s2.rows, base, m);
        let s3 = s2.reserve(34);
        assert(exec(s3.rows, base, m) == c2);
        assert(c2.ram[at(scr, 1)] == held_scale(x) && c2.ram[at(scr, 6)] == held_scale(y));
        let s4 = self.addf_specials(s3, scr, l);
        self.lemma_fadd_specials(s3, scr, l, base, m);
        let c4 = exec(s4.rows, base, m);
        assert(three(c4, at(scr, 2)) == full_mantissa(x) && three(c4, at(scr, 7)) == full_mantissa(y));
        let s5 = self.addf_zeros(s4, scr, l);
        let c5 = exec(s5.rows, base, m);
        lemma_fraction_of(x);
        lemma_fraction_of(y);
        if is_zero(x) {
            self.lemma_fadd_first_zero(s4, scr, l, base, m);
        } else {
            self.lemma_fadd_second_zero(s4, scr, l, base, m);
            assert(three(c5, at(scr, 2)) == full_mantissa(x));
        }
    }

    /// The sum routine leaves the other operand where one is zero, with the sign
    /// that `flip` gives the second; of two zeros the negative one only if both
    /// are negative. The other operand is any finite number.
    pub proof fn law_float_sum_keeps_with_zero(
        &self,
        st: St,
        pa: u32,
        pb: u32,
        scr: u32,
        flip: bool,
        m: Machine,
    )
        requires
            sum_slots(pa, pb, scr, self.retval),
            st.next <= u32::MAX - 60,
            m.flow is Next,
            m.core is Enhanced,
            ({
                let (x, y) = (word(m, pa, 4), word(m, pb, 4));
                &&& is_zero(x) || is_zero(y)
                &&& exponent(x) <= 254
                &&& exponent(y) <= 254
            }),
        ensures
            exists|z: Machine| #[trigger]
                runs_to(
                    self.float_sum_rows(st, pa, pb, scr, flip).rows,
                    st.rows.len() as int,
                    m,
                    z,
                ) && z.flow is Gone && word(z, self.retval, 4) == sum_with_zero(
                    word(m, pa, 4),
                    word(m, pb, 4),
                    flip,
                ),
    {
        let base = st.rows.len() as int;
        let l = (st.next + 6) as u32;
        let rows = self.float_sum_rows(st, pa, pb, scr, flip).rows;
        let (x, y) = (word(m, pa, 4), word(m, pb, 4));
        let v = sum_with_zero(x, y, flip);
        self.lemma_fsum_rows(st, pa, pb, scr, flip);
        let s5 = self.fzero_start(st, pa, pb, scr, flip);
        self.lemma_fzero_found(st, pa, pb, scr, flip, m);
        let c5 = exec(s5.rows, base, m);
        lemma_fraction_of(x);
        lemma_fraction_of(y);
        self.lemma_fzero_rest(s5, scr, l, base, m);
        let a = exec(rows, base, m);
        if is_zero(x) && is_zero(y) {
            self.lemma_fsum_zero(st, pa, pb, scr, flip, negative(x) && negative(y) != flip, a);
        }
        lemma_comes_on(rows, base, m, self.retval, v);
        assert(comes_to(rows, base, m, self.retval, v));
    }
}

} // verus!
