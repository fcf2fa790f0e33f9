//! Quotients with zeros, infinities and what is no number.
use vstd::prelude::*;
use crate::emit::{
    at, clrf, goto_tmp, label_at, label_tmp, lit, movf, movwf, on_c, on_z, ram_bit, w_op, Row, St,
};
use crate::line::{BitOp, Line, LitOp, Op, Sym};
use crate::machine::{
    bit_of, exec, group_exec, lemma_exec_push, lemma_step_gone, lemma_step_seek, runs_to, settle, step,
    Flow, Machine,
};
use crate::meaning::{apart, word};
use crate::pic14e::laws::float_div::{beyond_kept, quotient_slots};
use crate::pic14e::laws::float_int::{tmp, under_way};
use crate::pic14e::laws::float_order::{exponent, lemma_masks, lemma_parts, negative};
use crate::pic14e::laws::float_special::{but, is_infinite, is_nan, is_zero, with_sign};
use crate::pic14e::Gen;

verus! {

/// The quotient of numbers one of which is a zero, an infinity or no number. It has
/// the joint sign. A zero by a zero and an infinity by an infinity are no number.
pub open spec fn special_quotient(x: int, y: int) -> int {
    with_sign(
        negative(x) != negative(y),
        if is_nan(x) || is_nan(y) || is_zero(x) && is_zero(y) || is_infinite(x) && is_infinite(y) {
            0x7FC0_0000
        } else if is_infinite(x) || is_zero(y) && !is_infinite(y) {
            0x7F80_0000
        } else {
            0
        },
    )
}

/// Whether the run goes to one of the results: the zero, the infinity, or the one
/// that is no number.
pub open spec fn to_result(f: Flow, l: u32) -> bool {
    f == tmp(l, 0) || f == tmp(l, 1) || f == tmp(l, 2)
}

/// The result that the run goes to.
pub open spec fn result_at(f: Flow, l: u32) -> int {
    if f == tmp(l, 2) {
        0x7FC0_0000
    } else if f == tmp(l, 1) {
        0x7F80_0000
    } else {
        0
    }
}

impl<'a> Gen<'a> {
    #[verifier::rlimit(50)]
    proof fn lemma_fdiv_bias_any(&self, st: St, scr: u32, base: int, m: Machine)
        requires
            under_way(st, base, m),
            exec(st.rows, base, m).flow is Next,
            scr <= 0xFFFF,
        ensures
            ({
                let b = exec(st.rows, base, m);
                let s = self.fdiv_bias(st, scr);
                let a = exec(s.rows, base, m);
                &&& base <= s.rows.len()
                &&& a.flow is Next
                &&& a.core == b.core
                &&& a.ram[scr] == b.ram[scr]
                &&& beyond_kept(b, a, scr)
            }),
    {
        let b = exec(st.rows, base, m);
        let e = at(scr, 1);
        let rem3 = at(scr, 6);
        let spare = at(scr, 11);
        let s1 = st.emit(movf(e)).emit(w_op(Op::Subwf, spare)).emit(movwf(spare)).emit(
            clrf(rem3),
        ).emit(on_c(BitOp::Btfss)).emit(ram_bit(BitOp::Bsf, rem3, 0));
        let c = exec(s1.rows, base, m);
        assert(base <= s1.rows.len() && c.flow is Next && c.core == b.core && c.ram[scr] == b.ram[scr]
            && beyond_kept(b, c, scr)) by {
            broadcast use group_exec;

        }
        let s = self.fdiv_bias(st, scr);
        let a = exec(s.rows, base, m);
        assert(base <= s.rows.len() && a.flow is Next && but(c, a, e)) by {
            broadcast use group_exec;

        }
    }

    #[verifier::rlimit(50)]
    proof fn lemma_fdiv_bias_high_any(&self, st: St, scr: u32, l: u32, base: int, m: Machine)
        requires
            under_way(st, base, m),
            exec(st.rows, base, m).flow is Next,
            scr <= 0xFFFF,
            l <= u32::MAX - 50,
        ensures
            ({
                let b = exec(st.rows, base, m);
                let s = self.fdiv_bias_high(st, scr, l);
                let a = exec(s.rows, base, m);
                base <= s.rows.len() && a.flow is Next && but(b, a, at(scr, 2))
            }),
    {
        let b = exec(st.rows, base, m);
        let s = self.fdiv_bias_high(st, scr, l);
        let a = exec(s.rows, base, m);
        let odd = bit_of(b.ram[at(scr, 6)], 0);
        assert(base <= s.rows.len());
        if b.c {
            if odd {
                assert(a.flow is Next && but(b, a, at(scr, 2))) by {
                    broadcast use group_exec;

                }
            } else {
                assert(a.flow is Next && but(b, a, at(scr, 2))) by {
                    broadcast use group_exec;

                }
            }
        } else {
            if odd {
                assert(a.flow is Next && but(b, a, at(scr, 2))) by {
                    broadcast use group_exec;

                }
            } else {
                assert(a.flow is Next && but(b, a, at(scr, 2))) by {
                    broadcast use group_exec;

                }
            }
        }
    }

    /// The sign of a quotient is found for any operands.
    proof fn lemma_fdiv_exponent_any(
        &self,
        st: St,
        pa: u32,
        pb: u32,
        scr: u32,
        l: u32,
        base: int,
        m: Machine,
    )
        requires
            under_way(st, base, m),
            exec(st.rows, base, m).flow is Next,
            quotient_slots(pa, pb, scr, self.retval),
            l <= u32::MAX - 50,
        ensures
            ({
                let b = exec(st.rows, base, m);
                let s = self.divf_exponent(st, pa, pb, scr, l);
                let a = exec(s.rows, base, m);
                &&& under_way(s, base, m)
                &&& a.flow is Next
                &&& (a.ram[scr] >= 128) == (negative(word(b, pa, 4)) != negative(word(b, pb, 4)))
                &&& beyond_kept(b, a, scr)
            }),
    {
        let b = exec(st.rows, base, m);
        let e = at(scr, 1);
        let spare = at(scr, 11);
        let s1 = self.joint_sign(st, pa, pb, scr);
        self.lemma_joint_sign(st, pa, pb, scr, base, m);
        let s2 = self.unpack_exponent(s1, pa, spare);
        self.lemma_unpack_exponent(s1, pa, spare, base, m);
        let s3 = self.unpack_exponent(s2, pb, e);
        self.lemma_unpack_exponent(s2, pb, e, base, m);
        let c1 = exec(s1.rows, base, m);
        let c3 = exec(s3.rows, base, m);
        assert(beyond_kept(b, c3, scr) && c3.ram[scr] == c1.ram[scr]);
        let s4 = self.fdiv_bias(s3, scr);
        self.lemma_fdiv_bias_any(s3, scr, base, m);
        self.lemma_fdiv_bias_high_any(s4, scr, l, base, m);
        assert(self.divf_exponent(st, pa, pb, scr, l) == self.fdiv_bias_high(s4, scr, l)) by {
            reveal(Gen::divf_exponent);
        }
    }

    /// An infinity by a finite number is an infinity; a finite number by an
    /// infinity is a zero.
    #[verifier::rlimit(50)]
    proof fn lemma_fdiv_by_inf(&self, st: St, pa: u32, l: u32, base: int, m: Machine)
        requires
            under_way(st, base, m),
            l <= u32::MAX - 50,
            ({
                let f = exec(st.rows, base, m).flow;
                f == tmp(l, 27) || f == tmp(l, 26) || to_result(f, l)
            }),
        ensures
            ({
                let b = exec(st.rows, base, m);
                let s = self.fdiv_by_inf(st, pa, l);
                let a = exec(s.rows, base, m);
                &&& under_way(s, base, m)
                &&& a.flow == (if b.flow == tmp(l, 27) {
                    tmp(l, 1)
                } else if b.flow == tmp(l, 26) {
                    tmp(l, 0)
                } else {
                    b.flow
                })
                &&& a.core == b.core
                &&& a.ram == b.ram
            }),
    {
        let b = exec(st.rows, base, m);
        let s1 = st.emit(label_tmp(label_at(l, 27))).emit(goto_tmp(label_at(l, 1))).emit(
            label_tmp(label_at(l, 26)),
        );
        let c1 = exec(s1.rows, base, m);
        assert(base <= s1.rows.len() && c1.core == b.core && c1.ram == b.ram && c1.flow == (if b.flow
            == tmp(l, 27) {
            tmp(l, 1)
        } else if b.flow == tmp(l, 26) {
            Flow::Next
        } else {
            b.flow
        })) by {
            broadcast use group_exec;

        }
        let s2 = s1.emit(movf(at(pa, 3))).emit(lit(LitOp::Andlw, 0x7F)).emit(on_z(BitOp::Btfss)).emit(
            goto_tmp(label_at(l, 28)),
        ).emit(ram_bit(BitOp::Btfsc, at(pa, 2), 7)).emit(goto_tmp(label_at(l, 28)));
        let c2 = exec(s2.rows, base, m);
        let s = self.fdiv_by_inf(st, pa, l);
        let a = exec(s.rows, base, m);
        assert(base <= s2.rows.len() <= s.rows.len());
        if c1.flow is Next {
            lemma_masks();
            assert(c2.core == b.core && c2.ram == b.ram && (c2.flow is Next || c2.flow == tmp(l, 28))) by {
                broadcast use group_exec;

            }
            if c2.flow is Next {
                assert(a.core == b.core && a.ram == b.ram && a.flow == tmp(l, 0)) by {
                    broadcast use group_exec;

                }
            } else {
                assert(a.core == b.core && a.ram == b.ram && a.flow == tmp(l, 0)) by {
                    broadcast use group_exec;

                }
            }
        } else {
            assert(a == c1) by {
                broadcast use lemma_exec_push, lemma_step_seek;

            }
        }
    }

    #[verifier::rlimit(50)]
    proof fn lemma_inf_by_inf(&self, st: St, p: u32, l_nan: u32, l_fin: u32, base: int, m: Machine)
        requires
            under_way(st, base, m),
            exec(st.rows, base, m).flow is Next,
        ensures
            ({
                let b = exec(st.rows, base, m);
                let s = self.inf_by_inf(st, p, l_nan, l_fin);
                let a = exec(s.rows, base, m);
                &&& base <= s.rows.len()
                &&& a.flow == Flow::Seek(
                    Sym::Tmp(
                        if exponent(word(b, p, 4)) == 255 {
                            l_nan
                        } else {
                            l_fin
                        },
                    ),
                )
                &&& a.core == b.core
                &&& a.ram == b.ram
            }),
    {
        let b = exec(st.rows, base, m);
        lemma_parts(b, p);
        lemma_masks();
        let s = self.inf_by_inf(st, p, l_nan, l_fin);
        let a = exec(s.rows, base, m);
        let (x2, x3) = (b.ram[at(p, 2)], b.ram[at(p, 3)]);
        let top = x3 % 128 == 127 && x2 >= 128;
        assert(base <= s.rows.len() && a.core == b.core && a.ram == b.ram && a.flow == Flow::Seek(
            Sym::Tmp(
                if top {
                    l_nan
                } else {
                    l_fin
                },
            ),
        )) by {
            broadcast use group_exec;

        }
    }

    /// An operand that is not finite decides where the quotient goes.
    #[verifier::rlimit(80)]
    proof fn lemma_fdiv_ff(
        &self,
        st: St,
        pa: u32,
        pb: u32,
        scr: u32,
        l: u32,
        base: int,
        m: Machine,
    )
        requires
            under_way(st, base, m),
            exec(st.rows, base, m).flow is Next,
            quotient_slots(pa, pb, scr, self.retval),
            l <= u32::MAX - 50,
            ({
                let b = exec(st.rows, base, m);
                exponent(word(b, pa, 4)) == 255 || exponent(word(b, pb, 4)) == 255
            }),
        ensures
            ({
                let b = exec(st.rows, base, m);
                let s = self.divf_specials(st, pa, pb, scr, l);
                let a = exec(s.rows, base, m);
                let (x, y) = (word(b, pa, 4), word(b, pb, 4));
                &&& under_way(s, base, m)
                &&& a.flow == (if is_nan(x) || is_nan(y) || is_infinite(x) && is_infinite(y) {
                    tmp(l, 2)
                } else if is_infinite(x) {
                    tmp(l, 1)
                } else {
                    tmp(l, 0)
                })
                &&& but(b, a, at(scr, 11))
            }),
    {
        let b = exec(st.rows, base, m);
        let (x, y) = (word(b, pa, 4), word(b, pb, 4));
        lemma_parts(b, pa);
        lemma_parts(b, pb);
        let t = at(scr, 11);
        let l_nan = label_at(l, 2);
        let s1 = self.not_ff(st, pa, t, label_at(l, 23), label_at(l, 24), l_nan);
        let c1 = exec(s1.rows, base, m);
        if exponent(x) == 255 {
            self.lemma_ff(st, pa, t, label_at(l, 23), label_at(l, 24), l_nan, base, m);
        } else {
            self.lemma_not_ff(st, pa, t, l, 23, label_at(l, 24), l_nan, base, m);
        }
        assert(but(b, c1, t));
        let s2 = s1.emit(label_tmp(label_at(l, 23)));
        let c2 = exec(s2.rows, base, m);
        assert(base <= s2.rows.len() && c2 == (if c1.flow == tmp(l, 23) {
            Machine { flow: Flow::Next, ..c1 }
        } else {
            c1
        })) by {
            broadcast use group_exec;

        }
        assert(word(c2, pb, 4) == y);
        let s3 = self.not_ff(s2, pb, t, label_at(l, 25), label_at(l, 26), l_nan);
        let c3 = exec(s3.rows, base, m);
        if c2.flow is Next {
            self.lemma_ff(s2, pb, t, label_at(l, 25), label_at(l, 26), l_nan, base, m);
        } else {
            self.lemma_not_ff(s2, pb, t, l, 25, label_at(l, 26), l_nan, base, m);
        }
        assert(but(b, c3, t));
        let s4 = s3.emit(label_tmp(label_at(l, 24)));
        let c4 = exec(s4.rows, base, m);
        assert(base <= s4.rows.len() && c4 == (if c3.flow == tmp(l, 24) {
            Machine { flow: Flow::Next, ..c3 }
        } else {
            c3
        })) by {
            broadcast use group_exec;

        }
        assert(word(c4, pb, 4) == y);
        let s5 = self.inf_by_inf(s4, pb, l_nan, label_at(l, 27));
        let c5 = exec(s5.rows, base, m);
        if c4.flow is Next {
            self.lemma_inf_by_inf(s4, pb, l_nan, label_at(l, 27), base, m);
        } else {
            assert(base <= s5.rows.len() && c5 == c4) by {
                broadcast use group_exec;

            }
        }
        assert(but(b, c5, t));
        let s6 = self.fdiv_by_inf(s5, pa, l);
        self.lemma_fdiv_by_inf(s5, pa, l, base, m);
        let c6 = exec(s6.rows, base, m);
        let s7 = s6.emit(label_tmp(label_at(l, 25)));
        assert(under_way(s7, base, m) && exec(s7.rows, base, m) == c6) by {
            broadcast use group_exec;

        }
        assert(self.divf_specials(st, pa, pb, scr, l) == s7) by {
            reveal(Gen::divf_specials);
        }
    }

    /// The results, returned.
    #[verifier::rlimit(50)]
    proof fn lemma_fdiv_result(&self, st: St, scr: u32, l: u32, base: int, m: Machine)
        requires
            under_way(st, base, m),
            l <= u32::MAX - 50,
            self.retval <= 0xFFFF,
            scr <= 0xFFFF,
            apart(self.retval, 4, scr, 12),
            to_result(exec(st.rows, base, m).flow, l),
        ensures
            ({
                let b = exec(st.rows, base, m);
                let s = self.fdiv_results(st, scr, l);
                let a = exec(s.rows, base, m);
                &&& base <= s.rows.len()
                &&& a.flow is Gone
                &&& word(a, self.retval, 4) == with_sign(b.ram[scr] >= 128, result_at(b.flow, l))
            }),
    {
        let b = exec(st.rows, base, m);
        let r = self.retval;
        let s0 = st.emit(label_tmp(label_at(l, 2)));
        let s1 = self.pattern(s0, scr, 0xC0);
        let t1 = s1.emit(label_tmp(label_at(l, 1)));
        let s2 = self.pattern(t1, scr, 0x80);
        let s = self.fdiv_zero(s2, scr, l);
        assert(self.fdiv_results(st, scr, l) == s);
        let c0 = exec(s0.rows, base, m);
        let c1 = exec(s1.rows, base, m);
        let d1 = exec(t1.rows, base, m);
        let c2 = exec(s2.rows, base, m);
        let a = exec(s.rows, base, m);
        assert(base <= s0.rows.len() <= s1.rows.len() <= t1.rows.len() <= s2.rows.len()
            <= s.rows.len());
        if b.flow == tmp(l, 2) {
            assert(c0 == (Machine { flow: Flow::Next, ..b })) by {
                broadcast use group_exec;

            }
            self.lemma_pattern(s0, scr, 0xC0, base, m);
            assert(c2 == c1) by {
                broadcast use lemma_exec_push, lemma_step_gone;

            }
        } else {
            assert(c1 == b) by {
                broadcast use lemma_exec_push, lemma_step_seek;

            }
            if b.flow == tmp(l, 1) {
                assert(d1 == (Machine { flow: Flow::Next, ..b })) by {
                    broadcast use group_exec;

                }
                self.lemma_pattern(t1, scr, 0x80, base, m);
            } else {
                assert(c2 == b) by {
                    broadcast use lemma_exec_push, lemma_step_seek;

                }
            }
        }
        self.lemma_fdiv_nought(s2, scr, l, base, m);
    }

    #[verifier::rlimit(50)]
    proof fn lemma_fdiv_nought(&self, st: St, scr: u32, l: u32, base: int, m: Machine)
        requires
            0 <= base <= st.rows.len(),
            l <= u32::MAX - 50,
            self.retval <= 0xFFFF,
            scr <= 0xFFFF,
            apart(self.retval, 4, scr, 12),
            ({
                let b = exec(st.rows, base, m);
                b.flow is Gone || b.flow == tmp(l, 0) && b.core is Enhanced
            }),
        ensures
            ({
                let b = exec(st.rows, base, m);
                let a = exec(self.fdiv_zero(st, scr, l).rows, base, m);
                &&& a.flow is Gone
                &&& b.flow is Gone ==> a == b
                &&& b.flow is Seek ==> word(a, self.retval, 4) == with_sign(b.ram[scr] >= 128, 0)
            }),
    {
        let b = exec(st.rows, base, m);
        let r = self.retval;
        let s1 = st.emit(label_tmp(label_at(l, 0)));
        let c1 = exec(s1.rows, base, m);
        let s = self.fdiv_zero(st, scr, l);
        let a = exec(s.rows, base, m);
        assert(base <= s1.rows.len());
        if b.flow is Gone {
            assert(a == b) by {
                broadcast use lemma_exec_push, lemma_step_gone;

            }
        } else {
            lemma_masks();
            assert(c1 == (Machine { flow: Flow::Next, ..b })) by {
                broadcast use group_exec;

            }
            let s2 = s1.emit(clrf(r)).emit(clrf(at(r, 1))).emit(clrf(at(r, 2))).emit(
                clrf(at(r, 3)),
            );
            let c2 = exec(s2.rows, base, m);
            assert(base <= s2.rows.len() && c2.flow is Next && c2.ram == b.ram.insert(r, 0).insert(
                at(r, 1),
                0,
            ).insert(at(r, 2), 0).insert(at(r, 3), 0)) by {
                broadcast use group_exec;

            }
            assert(c2.ram[scr] == b.ram[scr]);
            let s3 = s2.emit(ram_bit(BitOp::Btfsc, scr, 7)).emit(ram_bit(BitOp::Bsf, at(r, 3), 7));
            let c3 = exec(s3.rows, base, m);
            assert(base <= s3.rows.len() && c3.flow is Next && c3.ram == (if b.ram[scr] >= 128 {
                c2.ram.insert(at(r, 3), 128)
            } else {
                c2.ram
            })) by {
                broadcast use group_exec;

            }
            assert(s == s3.emit(Line::Return));
            lemma_exec_push(s3.rows, Row { line: Line::Return, loc: None }, base, m);
            reveal(step);
        }
    }

    /// A zero among finite operands decides the quotient.
    proof fn lemma_fdiv_decided(
        &self,
        st: St,
        pa: u32,
        pb: u32,
        scr: u32,
        l: u32,
        base: int,
        m: Machine,
    )
        requires
            under_way(st, base, m),
            quotient_slots(pa, pb, scr, self.retval),
            l <= u32::MAX - 50,
            ({
                let b = exec(st.rows, base, m);
                ||| b.flow is Next && (is_zero(word(b, pa, 4)) || is_zero(word(b, pb, 4)))
                ||| to_result(b.flow, l)
            }),
        ensures
            ({
                let b = exec(st.rows, base, m);
                let s = self.divf_zeros(st, pa, pb, scr, l);
                let a = exec(s.rows, base, m);
                let f = if to_result(b.flow, l) {
                    b.flow
                } else if !is_zero(word(b, pa, 4)) {
                    tmp(l, 1)
                } else if is_zero(word(b, pb, 4)) {
                    tmp(l, 2)
                } else {
                    tmp(l, 0)
                };
                &&& base <= s.rows.len()
                &&& a.flow is Gone
                &&& word(a, self.retval, 4) == with_sign(b.ram[scr] >= 128, result_at(f, l))
            }),
    {
        let b = exec(st.rows, base, m);
        let t = at(scr, 11);
        let s1 = self.nonzero(st, pa, t, label_at(l, 29));
        let c1 = exec(s1.rows, base, m);
        if b.flow is Next {
            self.lemma_nonzero_any(st, pa, t, label_at(l, 29), base, m);
            assert(word(c1, pb, 4) == word(b, pb, 4));
        } else {
            self.lemma_nonzero(st, pa, t, l, 29, base, m);
        }
        let s2 = self.nonzero(s1, pb, t, label_at(l, 0));
        let c2 = exec(s2.rows, base, m);
        if c1.flow is Next {
            self.lemma_nonzero_any(s1, pb, t, label_at(l, 0), base, m);
        } else {
            self.lemma_nonzero(s1, pb, t, l, 0, base, m);
        }
        let s3 = s2.emit(goto_tmp(label_at(l, 2))).emit(label_tmp(label_at(l, 29)));
        let c3 = exec(s3.rows, base, m);
        assert(base <= s3.rows.len() && c3.core == c2.core && c3.ram == c2.ram && c3.flow == (
        if c2.flow is Next {
            tmp(l, 2)
        } else if c2.flow == tmp(l, 29) {
            Flow::Next
        } else {
            c2.flow
        })) by {
            broadcast use group_exec;

        }
        if b.flow is Next {
            assert(word(c3, pb, 4) == word(b, pb, 4));
        }
        let s4 = self.nonzero(s3, pb, t, label_at(l, 34));
        let c4 = exec(s4.rows, base, m);
        if c3.flow is Next {
            self.lemma_nonzero_any(s3, pb, t, label_at(l, 34), base, m);
        } else {
            self.lemma_nonzero(s3, pb, t, l, 34, base, m);
        }
        let s5 = s4.emit(goto_tmp(label_at(l, 1)));
        let c5 = exec(s5.rows, base, m);
        assert(under_way(s5, base, m) && c5.ram == c4.ram && c5.core == c4.core && c5.flow == (
        if c4.flow is Next {
            tmp(l, 1)
        } else {
            c4.flow
        })) by {
            broadcast use group_exec;

        }
        self.lemma_fdiv_result(s5, scr, l, base, m);
        assert(self.divf_zeros(st, pa, pb, scr, l) == self.fdiv_results(s5, scr, l)) by {
            reveal(Gen::divf_zeros);
        }
    }

    #[verifier::rlimit(50)]
    proof fn lemma_divf_bias_gone(&self, st: St, pa: u32, pb: u32, scr: u32, l: u32, base: int, m: Machine)
        requires
            0 <= base <= st.rows.len(),
            exec(st.rows, base, m).flow is Gone,
        ensures
            base <= self.divf_bias(st, pa, pb, scr, l).rows.len(),
            exec(self.divf_bias(st, pa, pb, scr, l).rows, base, m) == exec(st.rows, base, m),
    {
        reveal(Gen::divf_bias);
        broadcast use lemma_exec_push, lemma_step_gone;

    }

    #[verifier::rlimit(50)]
    proof fn lemma_divf_mantissas_gone(&self, st: St, pa: u32, pb: u32, scr: u32, l: u32, base: int, m: Machine)
        requires
            0 <= base <= st.rows.len(),
            exec(st.rows, base, m).flow is Gone,
        ensures
            base <= self.divf_mantissas(st, pa, pb, scr, l).rows.len(),
            exec(self.divf_mantissas(st, pa, pb, scr, l).rows, base, m) == exec(st.rows, base, m),
    {
        reveal(Gen::divf_mantissas);
        broadcast use lemma_exec_push, lemma_step_gone;

    }

    #[verifier::rlimit(50)]
    proof fn lemma_divf_integer_gone(&self, st: St, pa: u32, scr: u32, l: u32, base: int, m: Machine)
        requires
            0 <= base <= st.rows.len(),
            exec(st.rows, base, m).flow is Gone,
        ensures
            base <= self.divf_integer(st, pa, scr, l).rows.len(),
            exec(self.divf_integer(st, pa, scr, l).rows, base, m) == exec(st.rows, base, m),
    {
        reveal(Gen::divf_integer);
        broadcast use lemma_exec_push, lemma_step_gone;

    }

    #[verifier::rlimit(50)]
    proof fn lemma_divf_fraction_gone(&self, st: St, pa: u32, scr: u32, l: u32, base: int, m: Machine)
        requires
            0 <= base <= st.rows.len(),
            exec(st.rows, base, m).flow is Gone,
        ensures
            base <= self.divf_fraction(st, pa, scr, l).rows.len(),
            exec(self.divf_fraction(st, pa, scr, l).rows, base, m) == exec(st.rows, base, m),
    {
        reveal(Gen::divf_fraction);
        broadcast use lemma_exec_push, lemma_step_gone;

    }

    #[verifier::rlimit(50)]
    proof fn lemma_divf_split_gone(&self, st: St, pa: u32, scr: u32, l: u32, base: int, m: Machine)
        requires
            0 <= base <= st.rows.len(),
            exec(st.rows, base, m).flow is Gone,
        ensures
            base <= self.divf_split(st, pa, scr, l).rows.len(),
            exec(self.divf_split(st, pa, scr, l).rows, base, m) == exec(st.rows, base, m),
    {
        reveal(Gen::divf_split);
        broadcast use lemma_exec_push, lemma_step_gone;

    }

    #[verifier::rlimit(50)]
    proof fn lemma_divf_round_gone(&self, st: St, pa: u32, scr: u32, l: u32, base: int, m: Machine)
        requires
            0 <= base <= st.rows.len(),
            exec(st.rows, base, m).flow is Gone,
        ensures
            base <= self.divf_round(st, pa, scr, l).rows.len(),
            exec(self.divf_round(st, pa, scr, l).rows, base, m) == exec(st.rows, base, m),
    {
        reveal(Gen::divf_round);
        broadcast use lemma_exec_push, lemma_step_gone;

    }

    /// The quotient routine with a zero, an infinity or what is no number: the
    /// result is no number if an operand is none, both are zeros or both are
    /// infinities, an infinity if the dividend is one or the divisor is a zero, a
    /// zero otherwise. It has the joint sign.
    pub proof fn law_float_quotient_of_specials(
        &self,
        st: St,
        pa: u32,
        pb: u32,
        scr: u32,
        m: Machine,
    )
        requires
            quotient_slots(pa, pb, scr, self.retval),
            st.next <= u32::MAX - 50,
            m.flow is Next,
            m.core is Enhanced,
            ({
                let (x, y) = (word(m, pa, 4), word(m, pb, 4));
                is_zero(x) || is_zero(y) || exponent(x) == 255 || exponent(y) == 255
            }),
        ensures
            exists|a: Machine| #[trigger]
                runs_to(self.divf(st, pa, pb, scr).rows, st.rows.len() as int, m, a)
                    && a.flow is Gone && word(a, self.retval, 4) == special_quotient(
                    word(m, pa, 4),
                    word(m, pb, 4),
                ),
    {
        let base = st.rows.len() as int;
        let l = st.next;
        let (x, y) = (word(m, pa, 4), word(m, pb, 4));
        let rows = self.divf(st, pa, pb, scr).rows;
        let s0 = st.reserve(38);
        assert(exec(s0.rows, base, m) == m) by {
            broadcast use group_exec;

        }
        lemma_parts(m, pa);
        lemma_parts(m, pb);
        let s1 = self.divf_exponent(s0, pa, pb, scr, l);
        self.lemma_fdiv_exponent_any(s0, pa, pb, scr, l, base, m);
        let c1 = exec(s1.rows, base, m);
        assert(word(c1, pa, 4) == x && word(c1, pb, 4) == y);
        let s2 = self.divf_specials(s1, pa, pb, scr, l);
        let c2 = exec(s2.rows, base, m);
        if exponent(x) == 255 || exponent(y) == 255 {
            self.lemma_fdiv_ff(s1, pa, pb, scr, l, base, m);
        } else {
            self.lemma_fdiv_specials(s1, pa, pb, scr, l, base, m);
            assert(word(c2, pa, 4) == x && word(c2, pb, 4) == y);
        }
        let s3 = self.divf_zeros(s2, pa, pb, scr, l);
        self.lemma_fdiv_decided(s2, pa, pb, scr, l, base, m);
        let s4 = self.divf_bias(s3, pa, pb, scr, l);
        self.lemma_divf_bias_gone(s3, pa, pb, scr, l, base, m);
        let s5 = self.divf_mantissas(s4, pa, pb, scr, l);
        self.lemma_divf_mantissas_gone(s4, pa, pb, scr, l, base, m);
        let s6 = self.divf_integer(s5, pa, scr, l);
        self.lemma_divf_integer_gone(s5, pa, scr, l, base, m);
        let s7 = self.divf_fraction(s6, pa, scr, l);
        self.lemma_divf_fraction_gone(s6, pa, scr, l, base, m);
        let s8 = self.divf_split(s7, pa, scr, l);
        self.lemma_divf_split_gone(s7, pa, scr, l, base, m);
        self.lemma_divf_round_gone(s8, pa, scr, l, base, m);
        let a = exec(rows, base, m);
        assert(rows == self.divf_round(s8, pa, scr, l).rows) by {
            reveal(Gen::divf);
        }
        assert(settle(rows, base, m, 1) == a);
        assert(runs_to(rows, base, m, a));
    }
}

} // verus!
