//! Sums with infinities and what is no number.
use vstd::prelude::*;
use crate::emit::{at, goto_tmp, label_at, label_tmp, lit, movf, movwf, on_z, w_op, St};
use crate::line::{BitOp, LitOp, Op};
use crate::machine::{
    exec, group_exec, lemma_exec_push, lemma_step_gone, lemma_step_seek, runs_to, settle, Flow,
    Machine,
};
use crate::meaning::{apart, word};
use crate::pic14e::laws::float_chain::three;
use crate::pic14e::laws::float_int::{tmp, under_way};
use crate::pic14e::laws::float_order::{exponent, fraction, lemma_masks, negative};
use crate::pic14e::laws::float_parts::{full_mantissa, sum_slots};
use crate::pic14e::laws::float_special::{is_infinite, is_nan, with_sign};
use crate::pic14e::Gen;

verus! {

/// The sum, or difference, of operands one of which is an infinity or no number. It
/// is no number if an operand is none, or if infinities of different signs meet;
/// it has the sign of the first operand. Otherwise it is the infinity.
pub open spec fn special_sum(x: int, y: int, flip: bool) -> int {
    let other = negative(y) != flip;
    if is_nan(x) || is_nan(y) || is_infinite(x) && is_infinite(y) && negative(x) != other {
        with_sign(negative(x), 0x7FC0_0000)
    } else if is_infinite(x) {
        with_sign(negative(x), 0x7F80_0000)
    } else {
        with_sign(other, 0x7F80_0000)
    }
}

impl<'a> Gen<'a> {
    /// An operand that is no number is found.
    #[verifier::rlimit(50)]
    proof fn lemma_fadd_nan_any(
        &self,
        st: St,
        e: u32,
        cnt: u32,
        l: u32,
        i: u32,
        base: int,
        m: Machine,
    )
        requires
            under_way(st, base, m),
            l <= u32::MAX - 50,
            e <= 0x1_0010,
            cnt < e || cnt > e + 3,
            i == 29 || i == 30,
            ({
                let b = exec(st.rows, base, m);
                b.flow is Next || b.flow == tmp(l, 25)
            }),
        ensures
            ({
                let b = exec(st.rows, base, m);
                let s = self.fadd_nan(st, e, cnt, (l + i) as u32, label_at(l, 25));
                let a = exec(s.rows, base, m);
                &&& under_way(s, base, m)
                &&& forall|x: u32| x != cnt ==> #[trigger] a.ram[x] == b.ram[x]
                &&& a.flow == (if b.flow is Next && !(b.ram[e] == 255 && three(b, at(e, 1)) % 0x80_0000
                    != 0) {
                    Flow::Next
                } else {
                    tmp(l, 25)
                })
            }),
    {
        let b = exec(st.rows, base, m);
        let s = self.fadd_nan(st, e, cnt, (l + i) as u32, label_at(l, 25));
        let a = exec(s.rows, base, m);
        assert(base <= s.rows.len());
        if b.flow is Next {
            let (u, v, w) = (b.ram[at(e, 1)], b.ram[at(e, 2)], b.ram[at(e, 3)]);
            let some = u != 0 || v != 0 || w % 128 != 0;
            assert(three(b, at(e, 1)) % 0x80_0000 == u + 0x100 * v + 0x1_0000 * (w % 128));
            lemma_masks();
            if b.ram[e] == 255 {
                let s1 = st.emit(movf(e)).emit(lit(LitOp::Sublw, 0xFF)).emit(on_z(BitOp::Btfss)).emit(
                    goto_tmp((l + i) as u32),
                ).emit(movf(at(e, 1))).emit(w_op(Op::Iorwf, at(e, 2))).emit(movwf(cnt));
                let c1 = exec(s1.rows, base, m);
                assert(base <= s1.rows.len() && c1.core == b.core && c1.flow is Next && c1.ram
                    == b.ram.insert(cnt, v | u)) by {
                    broadcast use group_exec;

                }
                let x = v | u;
                let y = w & 0x7F;
                assert(x == 0 <==> u == 0 && v == 0);
                assert((x | y) == 0 <==> !some);
                assert(c1.ram[at(e, 3)] == w);
                assert(a.core == b.core && a.ram == c1.ram && a.flow == (if some {
                    tmp(l, 25)
                } else {
                    Flow::Next
                })) by {
                    broadcast use group_exec;

                }
            } else {
                assert(a.core == b.core && a.ram == b.ram && a.flow is Next) by {
                    broadcast use group_exec;

                }
            }
        } else {
            assert(a == b) by {
                broadcast use group_exec;

            }
        }
    }

    /// An infinity is found.
    #[verifier::rlimit(50)]
    proof fn lemma_fadd_infs_any(&self, st: St, scr: u32, l: u32, base: int, m: Machine)
        requires
            under_way(st, base, m),
            l <= u32::MAX - 50,
            scr <= 0xFFFF,
            ({
                let b = exec(st.rows, base, m);
                ||| b.flow == tmp(l, 25)
                ||| b.flow is Next && (b.ram[at(scr, 1)] == 255 || b.ram[at(scr, 6)] == 255)
            }),
        ensures
            ({
                let b = exec(st.rows, base, m);
                let s = self.fadd_second_inf(self.fadd_first_inf(st, scr, l), scr, l);
                let a = exec(s.rows, base, m);
                let first = b.ram[at(scr, 1)] == 255;
                let both = first && b.ram[at(scr, 6)] == 255;
                &&& under_way(s, base, m)
                &&& b.flow is Seek ==> a == b
                &&& b.flow is Next && both && b.ram[scr] != b.ram[at(scr, 5)] ==> a.flow == tmp(l, 25)
                    && a.ram == b.ram
                &&& b.flow is Next && !(both && b.ram[scr] != b.ram[at(scr, 5)]) ==> a.flow is Next
                    && a.ram[scr] == (if first {
                    b.ram[scr]
                } else {
                    b.ram[at(scr, 5)]
                })
            }),
    {
        let b = exec(st.rows, base, m);
        let s1 = self.fadd_first_inf(st, scr, l);
        let c = exec(s1.rows, base, m);
        let s = self.fadd_second_inf(s1, scr, l);
        let a = exec(s.rows, base, m);
        assert(base <= s1.rows.len() <= s.rows.len());
        lemma_masks();
        if b.flow is Seek {
            assert(c == b) by {
                broadcast use group_exec;

            }
            assert(a == b) by {
                broadcast use group_exec;

            }
        } else if b.ram[at(scr, 1)] == 255 {
            let apart = b.ram[at(scr, 6)] == 255 && b.ram[scr] != b.ram[at(scr, 5)];
            assert(c.core == b.core && c.ram == b.ram && c.flow == (if apart {
                tmp(l, 25)
            } else {
                tmp(l, 26)
            })) by {
                broadcast use group_exec;

            }
            assert(a.core == b.core && a.ram == b.ram && a.flow == (if apart {
                tmp(l, 25)
            } else {
                Flow::Next
            })) by {
                broadcast use group_exec;

            }
        } else {
            assert(c.core == b.core && c.ram == b.ram && c.flow is Next) by {
                broadcast use group_exec;

            }
            assert(a.core == b.core && a.ram == b.ram.insert(scr, b.ram[at(scr, 5)]) && a.flow is Next) by {
                broadcast use group_exec;

            }
        }
    }

    /// The infinity, or what is no number, is stored and returned.
    #[verifier::rlimit(50)]
    proof fn lemma_fadd_results_any(&self, st: St, scr: u32, l: u32, base: int, m: Machine)
        requires
            under_way(st, base, m),
            l <= u32::MAX - 50,
            self.retval <= 0xFFFF,
            apart(self.retval, 4, scr, 1),
            exec(st.rows, base, m).flow is Next || exec(st.rows, base, m).flow == tmp(l, 25),
        ensures
            ({
                let b = exec(st.rows, base, m);
                let s = self.fadd_results(st, scr, l);
                let a = exec(s.rows, base, m);
                &&& base <= s.rows.len()
                &&& a.flow is Gone
                &&& word(a, self.retval, 4) == with_sign(
                    b.ram[scr] >= 128,
                    if b.flow is Next {
                        0x7F80_0000
                    } else {
                        0x7FC0_0000
                    },
                )
            }),
    {
        let b = exec(st.rows, base, m);
        let s1 = self.infinity(st, scr);
        let s2 = s1.emit(label_tmp(label_at(l, 25)));
        let s3 = self.quiet_nan(s2, scr);
        let s = self.fadd_results(st, scr, l);
        let a = exec(s.rows, base, m);
        assert(base <= s1.rows.len() <= s2.rows.len() <= s3.rows.len() <= s.rows.len());
        if b.flow is Next {
            self.lemma_pattern(st, scr, 0x80, base, m);
            assert(a == exec(s1.rows, base, m)) by {
                broadcast use lemma_exec_push, lemma_step_gone;

            }
        } else {
            assert(exec(s1.rows, base, m) == b) by {
                broadcast use lemma_exec_push, lemma_step_seek;

            }
            assert(exec(s2.rows, base, m) == (Machine { flow: Flow::Next, ..b })) by {
                broadcast use group_exec;

            }
            self.lemma_pattern(s2, scr, 0xC0, base, m);
            assert(a == exec(s3.rows, base, m)) by {
                broadcast use lemma_exec_push, lemma_step_gone;

            }
        }
    }

    #[verifier::rlimit(50)]
    proof fn lemma_addf_zeros_gone(&self, st: St, scr: u32, l: u32, base: int, m: Machine)
        requires
            0 <= base <= st.rows.len(),
            exec(st.rows, base, m).flow is Gone,
        ensures
            base <= self.addf_zeros(st, scr, l).rows.len(),
            exec(self.addf_zeros(st, scr, l).rows, base, m) == exec(st.rows, base, m),
    {
        reveal(Gen::addf_zeros);
        broadcast use lemma_exec_push, lemma_step_gone;

    }

    #[verifier::rlimit(50)]
    proof fn lemma_addf_align_gone(&self, st: St, scr: u32, l: u32, base: int, m: Machine)
        requires
            0 <= base <= st.rows.len(),
            exec(st.rows, base, m).flow is Gone,
        ensures
            base <= self.addf_align(st, scr, l).rows.len(),
            exec(self.addf_align(st, scr, l).rows, base, m) == exec(st.rows, base, m),
    {
        reveal(Gen::addf_align);
        broadcast use lemma_exec_push, lemma_step_gone;

    }

    #[verifier::rlimit(50)]
    proof fn lemma_addf_sum_gone(&self, st: St, scr: u32, l: u32, base: int, m: Machine)
        requires
            0 <= base <= st.rows.len(),
            exec(st.rows, base, m).flow is Gone,
        ensures
            base <= self.addf_sum(st, scr, l).rows.len(),
            exec(self.addf_sum(st, scr, l).rows, base, m) == exec(st.rows, base, m),
    {
        reveal(Gen::addf_sum);
        broadcast use lemma_exec_push, lemma_step_gone;

    }

    #[verifier::rlimit(50)]
    proof fn lemma_addf_order_gone(&self, st: St, scr: u32, l: u32, base: int, m: Machine)
        requires
            0 <= base <= st.rows.len(),
            exec(st.rows, base, m).flow is Gone,
        ensures
            base <= self.addf_order(st, scr, l).rows.len(),
            exec(self.addf_order(st, scr, l).rows, base, m) == exec(st.rows, base, m),
    {
        reveal(Gen::addf_order);
        broadcast use lemma_exec_push, lemma_step_gone;

    }

    #[verifier::rlimit(50)]
    proof fn lemma_addf_difference_gone(&self, st: St, scr: u32, l: u32, base: int, m: Machine)
        requires
            0 <= base <= st.rows.len(),
            exec(st.rows, base, m).flow is Gone,
        ensures
            base <= self.addf_difference(st, scr, l).rows.len(),
            exec(self.addf_difference(st, scr, l).rows, base, m) == exec(st.rows, base, m),
    {
        reveal(Gen::addf_difference);
        broadcast use lemma_exec_push, lemma_step_gone;

    }

    #[verifier::rlimit(50)]
    proof fn lemma_addf_normalize_gone(&self, st: St, scr: u32, l: u32, base: int, m: Machine)
        requires
            0 <= base <= st.rows.len(),
            exec(st.rows, base, m).flow is Gone,
        ensures
            base <= self.addf_normalize(st, scr, l).rows.len(),
            exec(self.addf_normalize(st, scr, l).rows, base, m) == exec(st.rows, base, m),
    {
        reveal(Gen::addf_normalize);
        broadcast use lemma_exec_push, lemma_step_gone;

    }

    #[verifier::rlimit(50)]
    proof fn lemma_addf_round_gone(&self, st: St, scr: u32, l: u32, base: int, m: Machine)
        requires
            0 <= base <= st.rows.len(),
            exec(st.rows, base, m).flow is Gone,
        ensures
            base <= self.addf_round(st, scr, l).rows.len(),
            exec(self.addf_round(st, scr, l).rows, base, m) == exec(st.rows, base, m),
    {
        reveal(Gen::addf_round);
        broadcast use lemma_exec_push, lemma_step_gone;

    }

    #[verifier::rlimit(50)]
    proof fn lemma_addf_zero_gone(&self, st: St, scr: u32, l: u32, base: int, m: Machine)
        requires
            0 <= base <= st.rows.len(),
            exec(st.rows, base, m).flow is Gone,
        ensures
            base <= self.addf_zero(st, scr, l).rows.len(),
            exec(self.addf_zero(st, scr, l).rows, base, m) == exec(st.rows, base, m),
    {
        reveal(Gen::addf_zero);
        broadcast use lemma_exec_push, lemma_step_gone;

    }

    /// The operands taken apart.
    pub open spec fn float_parts(&self, st: St, pa: u32, pb: u32, scr: u32, flip: bool) -> St {
        let s = self.extract(st, pa, scr, at(scr, 1), at(scr, 2), false);
        self.extract(s, pb, at(scr, 5), at(scr, 6), at(scr, 7), flip)
    }

    /// What the tests decide, by the parts of the operands.
    #[verifier::rlimit(50)]
    proof fn lemma_specials_decide(&self, st: St, scr: u32, l: u32, base: int, m: Machine)
        requires
            under_way(st, base, m),
            l <= u32::MAX - 50,
            scr <= 0xFFFF,
            self.retval <= 0xFFFF,
            apart(self.retval, 4, scr, 14),
            ({
                let b = exec(st.rows, base, m);
                b.flow is Next && (b.ram[at(scr, 1)] == 255 || b.ram[at(scr, 6)] == 255)
            }),
        ensures
            ({
                let b = exec(st.rows, base, m);
                let s = self.addf_specials(st, scr, l);
                let a = exec(s.rows, base, m);
                let (first, second) = (b.ram[at(scr, 1)] == 255, b.ram[at(scr, 6)] == 255);
                let none = first && three(b, at(scr, 2)) % 0x80_0000 != 0 || second && three(
                    b,
                    at(scr, 7),
                ) % 0x80_0000 != 0 || first && second && b.ram[scr] != b.ram[at(scr, 5)];
                &&& base <= s.rows.len()
                &&& a.flow is Gone
                &&& word(a, self.retval, 4) == (if none {
                    with_sign(b.ram[scr] >= 128, 0x7FC0_0000)
                } else if first {
                    with_sign(b.ram[scr] >= 128, 0x7F80_0000)
                } else {
                    with_sign(b.ram[at(scr, 5)] >= 128, 0x7F80_0000)
                })
            }),
    {
        let b = exec(st.rows, base, m);
        let (cnt, l_nan) = (at(scr, 11), label_at(l, 25));
        let s2 = self.fadd_nan(st, at(scr, 1), cnt, label_at(l, 29), l_nan);
        self.lemma_fadd_nan_any(st, at(scr, 1), cnt, l, 29, base, m);
        let c2 = exec(s2.rows, base, m);
        assert(three(c2, at(scr, 7)) == three(b, at(scr, 7)));
        let s3 = self.fadd_nan(s2, at(scr, 6), cnt, label_at(l, 30), l_nan);
        self.lemma_fadd_nan_any(s2, at(scr, 6), cnt, l, 30, base, m);
        let c3 = exec(s3.rows, base, m);
        assert(c3.ram[scr] == b.ram[scr] && c3.ram[at(scr, 5)] == b.ram[at(scr, 5)]);
        assert(c3.ram[at(scr, 1)] == b.ram[at(scr, 1)] && c3.ram[at(scr, 6)] == b.ram[at(scr, 6)]);
        let s4 = self.fadd_second_inf(self.fadd_first_inf(s3, scr, l), scr, l);
        self.lemma_fadd_infs_any(s3, scr, l, base, m);
        self.lemma_fadd_results_any(s4, scr, l, base, m);
        assert(self.addf_specials(st, scr, l) == self.fadd_results(s4, scr, l)) by {
            reveal(Gen::addf_specials);
        }
    }

    /// The operands are looked at, and the result is returned.
    proof fn lemma_specials_found(
        &self,
        st: St,
        pa: u32,
        pb: u32,
        scr: u32,
        flip: bool,
        m: Machine,
    )
        requires
            sum_slots(pa, pb, scr, self.retval),
            st.next <= u32::MAX - 60,
            m.flow is Next,
            m.core is Enhanced,
            exponent(word(m, pa, 4)) == 255 || exponent(word(m, pb, 4)) == 255,
        ensures
            ({
                let base = st.rows.len() as int;
                let s0 = self.float_parts(st, pa, pb, scr, flip);
                let s = self.addf_specials(s0.reserve(34), scr, s0.next);
                let a = exec(s.rows, base, m);
                base <= s.rows.len() && a.flow is Gone && word(a, self.retval, 4) == special_sum(
                    word(m, pa, 4),
                    word(m, pb, 4),
                    flip,
                )
            }),
    {
        let base = st.rows.len() as int;
        let (x, y) = (word(m, pa, 4), word(m, pb, 4));
        let s0 = self.float_parts(st, pa, pb, scr, flip);
        self.lemma_fsum_parts(st, pa, pb, scr, flip, m);
        let c0 = exec(s0.rows, base, m);
        let l = s0.next;
        let s1 = s0.reserve(34);
        assert(exec(s1.rows, base, m) == c0);
        self.lemma_specials_decide(s1, scr, l, base, m);
        lemma_greatest(x);
        lemma_greatest(y);
    }

    /// A result that is returned stays.
    proof fn lemma_returned(&self, s5: St, scr: u32, l: u32, base: int, m: Machine)
        requires
            0 <= base <= s5.rows.len(),
            exec(s5.rows, base, m).flow is Gone,
        ensures
            ({
                let s = self.addf_align(self.addf_zeros(s5, scr, l), scr, l);
                exec(self.fadd_late(s, scr, l).rows, base, m) == exec(s5.rows, base, m)
            }),
    {
        let t0 = self.addf_zeros(s5, scr, l);
        self.lemma_addf_zeros_gone(s5, scr, l, base, m);
        let t1 = self.addf_align(t0, scr, l);
        self.lemma_addf_align_gone(t0, scr, l, base, m);
        let t2 = self.addf_sum(t1, scr, l);
        self.lemma_addf_sum_gone(t1, scr, l, base, m);
        let t3 = self.addf_order(t2, scr, l);
        self.lemma_addf_order_gone(t2, scr, l, base, m);
        let t4 = self.addf_difference(t3, scr, l);
        self.lemma_addf_difference_gone(t3, scr, l, base, m);
        let t5 = self.addf_normalize(t4, scr, l);
        self.lemma_addf_normalize_gone(t4, scr, l, base, m);
        let t6 = self.addf_round(t5, scr, l);
        self.lemma_addf_round_gone(t5, scr, l, base, m);
        let t7 = self.addf_zero(t6, scr, l);
        self.lemma_addf_zero_gone(t6, scr, l, base, m);
    }

    /// The sum routine with an infinity or what is no number: the result is no number
    /// if an operand is none or if infinities of different signs meet, the infinity
    /// otherwise. With `flip` it takes the difference.
    pub proof fn law_float_sum_of_specials(
        &self,
        st: St,
        pa: u32,
        pb: u32,
        scr: u32,
        flip: bool,
        m: Machine,
    )
        requires
            sum_slots(pa, pb, scr, self.retval),
            st.next <= u32::MAX - 60,
            m.flow is Next,
            m.core is Enhanced,
            exponent(word(m, pa, 4)) == 255 || exponent(word(m, pb, 4)) == 255,
        ensures
            exists|z: Machine| #[trigger]
                runs_to(
                    self.float_sum_rows(st, pa, pb, scr, flip).rows,
                    st.rows.len() as int,
                    m,
                    z,
                ) && z.flow is Gone && word(z, self.retval, 4) == special_sum(
                    word(m, pa, 4),
                    word(m, pb, 4),
                    flip,
                ),
    {
        let base = st.rows.len() as int;
        let rows = self.float_sum_rows(st, pa, pb, scr, flip).rows;
        let s0 = self.float_parts(st, pa, pb, scr, flip);
        let l = s0.next;
        let s5 = self.addf_specials(s0.reserve(34), scr, l);
        self.lemma_specials_found(st, pa, pb, scr, flip, m);
        self.lemma_returned(s5, scr, l, base, m);
        let c5 = exec(s5.rows, base, m);
        let s = self.addf_align(self.addf_zeros(s5, scr, l), scr, l);
        assert(rows == self.fadd_late(s, scr, l).rows) by {
            reveal(Gen::addf);
        }
        assert(settle(rows, base, m, 1) == c5);
        assert(runs_to(rows, base, m, c5));
    }
}

/// A number with the greatest exponent, taken apart.
proof fn lemma_greatest(x: int)
    ensures
        exponent(x) == 255 ==> full_mantissa(x) % 0x80_0000 == fraction(x),
{
}

} // verus!
