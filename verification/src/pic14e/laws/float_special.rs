//! Products with zeros, infinities and what is no number.
use vstd::prelude::*;
use crate::emit::{
    at, clrf, goto_tmp, label_at, label_tmp, lit, movf, movlw, movwf, on_c, on_z, ram_bit, w_op, Row,
    St,
};
use crate::line::{BitOp, Line, LitOp, Op, Sym};
use crate::machine::{
    bit_of, exec, group_exec, lemma_exec_push, lemma_step_gone, lemma_step_seek, step, runs_to, settle, Flow,
    Machine,
};
use crate::meaning::{apart, word};
use crate::pic14e::laws::float_int::{tmp, under_way};
use crate::pic14e::laws::float_mul::{outside_kept, product_slots};
use crate::pic14e::laws::float_order::{
    exponent, fraction, lemma_masks, lemma_parts, negative,
};
use crate::pic14e::Gen;

verus! {

/// Whether a pattern is no number.
pub open spec fn is_nan(x: int) -> bool {
    exponent(x) == 255 && fraction(x) != 0
}

pub open spec fn is_infinite(x: int) -> bool {
    exponent(x) == 255 && fraction(x) == 0
}

pub open spec fn is_zero(x: int) -> bool {
    exponent(x) == 0 && fraction(x) == 0
}

/// A pattern with a sign.
pub open spec fn with_sign(neg: bool, x: int) -> int {
    if neg {
        0x8000_0000 + x
    } else {
        x
    }
}

/// Whether a product is no number: a factor is none, or an infinity meets a zero.
pub open spec fn nan_product(x: int, y: int) -> bool {
    is_nan(x) || is_nan(y) || is_infinite(x) && is_zero(y) || is_zero(x) && is_infinite(y)
}

/// The product of factors one of which is a zero, an infinity or no number. It has
/// the joint sign.
pub open spec fn special_product(x: int, y: int) -> int {
    with_sign(
        negative(x) != negative(y),
        if nan_product(x, y) {
            0x7FC0_0000
        } else if is_infinite(x) || is_infinite(y) {
            0x7F80_0000
        } else {
            0
        },
    )
}

/// Whether nothing but the byte at `t` changed.
pub open spec fn but(b: Machine, a: Machine, t: u32) -> bool {
    a.core == b.core && forall|y: u32| y != t ==> #[trigger] a.ram[y] == b.ram[y]
}

impl<'a> Gen<'a> {
    /// The correction of an exponent of zero goes on to the next row.
    #[verifier::rlimit(50)]
    pub(crate) proof fn lemma_small_fix_any(
        &self,
        st: St,
        p: u32,
        e: u32,
        t: u32,
        l: u32,
        i: u32,
        base: int,
        m: Machine,
    )
        requires
            under_way(st, base, m),
            exec(st.rows, base, m).flow is Next,
            e != t,
            p <= 0xFFFF,
            t < p || t >= p + 3,
        ensures
            ({
                let b = exec(st.rows, base, m);
                let s = self.small_fix(st, p, e, t, (l + i) as u32);
                let a = exec(s.rows, base, m);
                &&& base <= s.rows.len()
                &&& a.flow is Next
                &&& a.core == b.core
                &&& a.ram[e] == (if b.ram[e] == 0 && fraction(word(b, p, 4)) != 0 {
                    1u8
                } else {
                    b.ram[e]
                })
                &&& forall|y: u32| y != e && y != t ==> #[trigger] a.ram[y] == b.ram[y]
            }),
    {
        let b = exec(st.rows, base, m);
        let l_done = (l + i) as u32;
        let s = self.small_fix(st, p, e, t, l_done);
        let a = exec(s.rows, base, m);
        let s1 = st.emit(movf(e)).emit(on_z(BitOp::Btfss)).emit(goto_tmp(l_done));
        let c1 = exec(s1.rows, base, m);
        assert(base <= s1.rows.len() && c1.core == b.core && c1.ram == b.ram && c1.flow == (if b.ram[e]
            == 0 {
            Flow::Next
        } else {
            tmp(l, i)
        })) by {
            broadcast use group_exec;

        }
        let s2 = s1.emit(movf(p)).emit(movwf(t)).emit(movf(at(p, 1))).emit(w_op(Op::Iorwf, t)).emit(
            movwf(t),
        ).emit(movf(at(p, 2))).emit(lit(LitOp::Andlw, 0x7F)).emit(w_op(Op::Iorwf, t));
        let c2 = exec(s2.rows, base, m);
        let s3 = s2.emit(on_z(BitOp::Btfsc)).emit(goto_tmp(l_done)).emit(movlw(0x01)).emit(
            movwf(e),
        ).emit(label_tmp(l_done));
        assert(s == s3);
        if c1.flow is Next {
            let (x0, x1, x2) = (b.ram[p], b.ram[at(p, 1)], b.ram[at(p, 2)]);
            lemma_parts(b, p);
            lemma_masks();
            let some = x0 != 0 || x1 != 0 || x2 % 128 != 0;
            assert(fraction(word(b, p, 4)) == x0 + 0x100 * x1 + 0x1_0000 * (x2 % 128));
            let s0 = s1.emit(movf(p)).emit(movwf(t)).emit(movf(at(p, 1))).emit(w_op(Op::Iorwf, t)).emit(
                movwf(t),
            );
            let c0 = exec(s0.rows, base, m);
            assert(base <= s0.rows.len() && c0.flow is Next && but(c1, c0, t) && c0.ram[t] == (x0 | x1)) by {
                broadcast use group_exec;

            }
            assert(c0.ram[at(p, 2)] == x2);
            let (u, v) = (x0 | x1, x2 & 0x7F);
            assert((u | v) == 0 <==> !some);
            assert(base <= s2.rows.len() && c2.flow is Next && but(c1, c2, t) && c2.z == !some) by {
                broadcast use group_exec;

            }
            if c2.z {
                assert(a.flow is Next && a.core == c2.core && a.ram == c2.ram) by {
                    broadcast use group_exec;

                }
            } else {
                assert(a.flow is Next && but(c2, a, e) && a.ram[e] == 1) by {
                    broadcast use group_exec;

                }
            }
        } else {
            assert(base <= s2.rows.len() && c2 == c1) by {
                broadcast use group_exec;

            }
            assert(a.flow is Next && a.core == c2.core && a.ram == c2.ram) by {
                broadcast use group_exec;

            }
        }
    }

    /// The exponent of a product goes on to the next row.
    #[verifier::rlimit(50)]
    proof fn lemma_fmul_bias_any(&self, st: St, scr: u32, l: u32, base: int, m: Machine)
        requires
            under_way(st, base, m),
            exec(st.rows, base, m).flow is Next,
            scr <= 0xFFFF,
            l <= u32::MAX - 40,
        ensures
            ({
                let b = exec(st.rows, base, m);
                let s = self.fmul_bias(st, scr, l);
                let a = exec(s.rows, base, m);
                &&& base <= s.rows.len()
                &&& a.flow is Next
                &&& a.core == b.core
                &&& a.ram[scr] == b.ram[scr]
                &&& outside_kept(b, a, scr)
            }),
    {
        let b = exec(st.rows, base, m);
        let e = at(scr, 1);
        let m3 = at(scr, 10);
        let low0 = at(scr, 11);
        let low1 = at(scr, 12);
        let s1 = st.emit(movf(low1)).emit(w_op(Op::Addwf, low0)).emit(movwf(low0)).emit(
            clrf(m3),
        ).emit(on_c(BitOp::Btfsc)).emit(ram_bit(BitOp::Bsf, m3, 0));
        let c1 = exec(s1.rows, base, m);
        assert(base <= s1.rows.len() && c1.flow is Next && c1.core == b.core && c1.ram[scr] == b.ram[scr]
            && outside_kept(b, c1, scr)) by {
            broadcast use group_exec;

        }
        let s2 = s1.emit(movlw(0x81)).emit(w_op(Op::Addwf, low0)).emit(movwf(e)).emit(movlw(0x00));
        let c2 = exec(s2.rows, base, m);
        assert(base <= s2.rows.len() && c2.flow is Next && but(c1, c2, e)) by {
            broadcast use group_exec;

        }
        let s3 = self.fmul_bias_high(s2, scr, l);
        assert(self.fmul_bias(st, scr, l) == s3);
        self.lemma_fmul_bias_high_any(s2, scr, l, base, m);
    }

    #[verifier::rlimit(50)]
    proof fn lemma_fmul_bias_high_any(&self, st: St, scr: u32, l: u32, base: int, m: Machine)
        requires
            under_way(st, base, m),
            exec(st.rows, base, m).flow is Next,
            scr <= 0xFFFF,
            l <= u32::MAX - 40,
        ensures
            ({
                let b = exec(st.rows, base, m);
                let s = self.fmul_bias_high(st, scr, l);
                let a = exec(s.rows, base, m);
                base <= s.rows.len() && a.flow is Next && but(b, a, at(scr, 2))
            }),
    {
        let b = exec(st.rows, base, m);
        let s = self.fmul_bias_high(st, scr, l);
        let a = exec(s.rows, base, m);
        let odd = bit_of(b.ram[at(scr, 10)], 0);
        assert(base <= s.rows.len());
        if b.c {
            if odd {
                assert(a.flow is Next && but(b, a, at(scr, 2))) by {
                    broadcast use group_exec;

                }
            } else {
                assert(a.flow is Next && but(b, a, at(scr, 2))) by {
                    broadcast use group_exec;

                }
            }
        } else {
            if odd {
                assert(a.flow is Next && but(b, a, at(scr, 2))) by {
                    broadcast use group_exec;

                }
            } else {
                assert(a.flow is Next && but(b, a, at(scr, 2))) by {
                    broadcast use group_exec;

                }
            }
        }
    }

    /// The sign of a product is found for any factors.
    proof fn lemma_fmul_exponent_any(
        &self,
        st: St,
        pa: u32,
        pb: u32,
        scr: u32,
        l: u32,
        base: int,
        m: Machine,
    )
        requires
            under_way(st, base, m),
            exec(st.rows, base, m).flow is Next,
            product_slots(pa, pb, scr, self.retval),
            l <= u32::MAX - 40,
        ensures
            ({
                let b = exec(st.rows, base, m);
                let s = self.mulf_exponent(st, pa, pb, scr, l);
                let a = exec(s.rows, base, m);
                &&& under_way(s, base, m)
                &&& a.flow is Next
                &&& (a.ram[scr] >= 128) == (negative(word(b, pa, 4)) != negative(word(b, pb, 4)))
                &&& outside_kept(b, a, scr)
            }),
    {
        let b = exec(st.rows, base, m);
        let low0 = at(scr, 11);
        let low1 = at(scr, 12);
        let low2 = at(scr, 13);
        let s1 = self.joint_sign(st, pa, pb, scr);
        self.lemma_joint_sign(st, pa, pb, scr, base, m);
        let s2 = self.unpack_exponent(s1, pa, low0);
        self.lemma_unpack_exponent(s1, pa, low0, base, m);
        let s3 = self.unpack_exponent(s2, pb, low1);
        self.lemma_unpack_exponent(s2, pb, low1, base, m);
        let c1 = exec(s1.rows, base, m);
        let c3 = exec(s3.rows, base, m);
        assert(outside_kept(b, c3, scr) && c3.ram[scr] == c1.ram[scr]);
        let s4 = self.small_fix(s3, pa, low0, low2, label_at(l, 15));
        self.lemma_small_fix_any(s3, pa, low0, low2, l, 15, base, m);
        let s5 = self.small_fix(s4, pb, low1, low2, label_at(l, 16));
        self.lemma_small_fix_any(s4, pb, low1, low2, l, 16, base, m);
        self.lemma_fmul_bias_any(s5, scr, l, base, m);
        assert(self.mulf_exponent(st, pa, pb, scr, l) == self.fmul_bias(s5, scr, l)) by {
            reveal(Gen::mulf_exponent);
        }
    }

    /// An infinity and what is no number are told apart.
    #[verifier::rlimit(50)]
    pub(crate) proof fn lemma_ff(
        &self,
        st: St,
        p: u32,
        t: u32,
        l_not: u32,
        l_inf: u32,
        l_nan: u32,
        base: int,
        m: Machine,
    )
        requires
            under_way(st, base, m),
            exec(st.rows, base, m).flow is Next,
            exponent(word(exec(st.rows, base, m), p, 4)) == 255,
            t != at(p, 2),
            t != at(p, 3),
        ensures
            ({
                let b = exec(st.rows, base, m);
                let s = self.not_ff(st, p, t, l_not, l_inf, l_nan);
                let a = exec(s.rows, base, m);
                &&& base <= s.rows.len()
                &&& a.flow == Flow::Seek(
                    Sym::Tmp(
                        if fraction(word(b, p, 4)) == 0 {
                            l_inf
                        } else {
                            l_nan
                        },
                    ),
                )
                &&& but(b, a, t)
            }),
    {
        let b = exec(st.rows, base, m);
        lemma_parts(b, p);
        lemma_masks();
        let (x0, x1, x2, x3) = (b.ram[p], b.ram[at(p, 1)], b.ram[at(p, 2)], b.ram[at(p, 3)]);
        assert(x3 % 128 == 127 && x2 >= 128);
        let s1 = st.emit(movf(at(p, 3))).emit(lit(LitOp::Andlw, 0x7F)).emit(
            lit(LitOp::Xorlw, 0x7F),
        ).emit(on_z(BitOp::Btfss)).emit(goto_tmp(l_not)).emit(
            ram_bit(BitOp::Btfss, at(p, 2), 7),
        ).emit(goto_tmp(l_not));
        let c1 = exec(s1.rows, base, m);
        assert(base <= s1.rows.len() && c1.flow is Next && c1.core == b.core && c1.ram == b.ram) by {
            broadcast use group_exec;

        }
        let s2 = s1.emit(movf(p)).emit(w_op(Op::Iorwf, at(p, 1))).emit(movwf(t)).emit(
            movf(at(p, 2)),
        ).emit(lit(LitOp::Andlw, 0x7F)).emit(w_op(Op::Iorwf, t));
        let c2 = exec(s2.rows, base, m);
        assert(base <= s2.rows.len() && c2.flow is Next && but(b, c2, t) && c2.z == (x0 == 0 && x1 == 0
            && x2 % 128 == 0)) by {
            broadcast use group_exec;

        }
        let s3 = s2.emit(on_z(BitOp::Btfsc)).emit(goto_tmp(l_inf)).emit(goto_tmp(l_nan));
        let c3 = exec(s3.rows, base, m);
        assert(self.not_ff(st, p, t, l_not, l_inf, l_nan) == s3);
        assert(c3.core == c2.core && c3.ram == c2.ram && c3.flow == Flow::Seek(
            Sym::Tmp(
                if c2.z {
                    l_inf
                } else {
                    l_nan
                },
            ),
        )) by {
            broadcast use group_exec;

        }
    }

    /// The partner of an infinity.
    #[verifier::rlimit(50)]
    pub(crate) proof fn lemma_inf_pair(
        &self,
        st: St,
        p: u32,
        t: u32,
        l_inf: u32,
        l_nan: u32,
        l_fin: u32,
        base: int,
        m: Machine,
    )
        requires
            under_way(st, base, m),
            exec(st.rows, base, m).flow is Next,
            t != at(p, 2),
            t != at(p, 3),
        ensures
            ({
                let b = exec(st.rows, base, m);
                let s = self.inf_pair(st, p, t, l_inf, l_nan, l_fin);
                let a = exec(s.rows, base, m);
                let x = word(b, p, 4);
                &&& base <= s.rows.len()
                &&& a.flow == Flow::Seek(
                    Sym::Tmp(
                        if exponent(x) != 255 {
                            l_fin
                        } else if fraction(x) == 0 {
                            l_inf
                        } else {
                            l_nan
                        },
                    ),
                )
                &&& but(b, a, t)
            }),
    {
        let b = exec(st.rows, base, m);
        lemma_parts(b, p);
        lemma_masks();
        let (x0, x1, x2, x3) = (b.ram[p], b.ram[at(p, 1)], b.ram[at(p, 2)], b.ram[at(p, 3)]);
        let top = x3 % 128 == 127 && x2 >= 128;
        let s1 = st.emit(movf(at(p, 3))).emit(lit(LitOp::Andlw, 0x7F)).emit(
            lit(LitOp::Xorlw, 0x7F),
        ).emit(on_z(BitOp::Btfss)).emit(goto_tmp(l_fin)).emit(
            ram_bit(BitOp::Btfss, at(p, 2), 7),
        ).emit(goto_tmp(l_fin));
        let c1 = exec(s1.rows, base, m);
        assert(base <= s1.rows.len() && c1.core == b.core && c1.ram == b.ram && c1.flow == (if top {
            Flow::Next
        } else {
            Flow::Seek(Sym::Tmp(l_fin))
        })) by {
            broadcast use group_exec;

        }
        let s2 = s1.emit(movf(p)).emit(w_op(Op::Iorwf, at(p, 1))).emit(movwf(t)).emit(
            movf(at(p, 2)),
        ).emit(lit(LitOp::Andlw, 0x7F)).emit(w_op(Op::Iorwf, t));
        let c2 = exec(s2.rows, base, m);
        let s3 = s2.emit(on_z(BitOp::Btfss)).emit(goto_tmp(l_nan)).emit(goto_tmp(l_inf));
        let c3 = exec(s3.rows, base, m);
        assert(self.inf_pair(st, p, t, l_inf, l_nan, l_fin) == s3);
        assert(base <= s2.rows.len() <= s3.rows.len());
        if top {
            assert(c2.flow is Next && but(b, c2, t) && c2.z == (x0 == 0 && x1 == 0 && x2 % 128 == 0)) by {
                broadcast use group_exec;

            }
            assert(c3.core == c2.core && c3.ram == c2.ram && c3.flow == Flow::Seek(
                Sym::Tmp(
                    if c2.z {
                        l_inf
                    } else {
                        l_nan
                    },
                ),
            )) by {
                broadcast use group_exec;

            }
        } else {
            assert(c3 == c1) by {
                broadcast use group_exec;

            }
        }
    }

    /// A finite partner of an infinity.
    #[verifier::rlimit(50)]
    pub(crate) proof fn lemma_inf_single(
        &self,
        st: St,
        p: u32,
        t: u32,
        l_some: u32,
        l_inf: u32,
        l_nan: u32,
        base: int,
        m: Machine,
    )
        requires
            under_way(st, base, m),
            exec(st.rows, base, m).flow is Next,
            t != at(p, 2),
            t != at(p, 3),
        ensures
            ({
                let b = exec(st.rows, base, m);
                let s = self.inf_single(st, p, t, l_some, l_inf, l_nan);
                let a = exec(s.rows, base, m);
                let x = word(b, p, 4);
                &&& base <= s.rows.len()
                &&& a.flow == Flow::Seek(
                    Sym::Tmp(
                        if exponent(x) != 0 {
                            l_some
                        } else if fraction(x) == 0 {
                            l_nan
                        } else {
                            l_inf
                        },
                    ),
                )
                &&& but(b, a, t)
            }),
    {
        let b = exec(st.rows, base, m);
        lemma_parts(b, p);
        lemma_masks();
        let (x0, x1, x2, x3) = (b.ram[p], b.ram[at(p, 1)], b.ram[at(p, 2)], b.ram[at(p, 3)]);
        let some = x3 % 128 != 0 || x2 >= 128;
        let s1 = st.emit(movf(at(p, 3))).emit(lit(LitOp::Andlw, 0x7F)).emit(on_z(BitOp::Btfss)).emit(
            goto_tmp(l_some),
        ).emit(ram_bit(BitOp::Btfsc, at(p, 2), 7)).emit(goto_tmp(l_some));
        let c1 = exec(s1.rows, base, m);
        assert(base <= s1.rows.len() && c1.core == b.core && c1.ram == b.ram && c1.flow == (if some {
            Flow::Seek(Sym::Tmp(l_some))
        } else {
            Flow::Next
        })) by {
            broadcast use group_exec;

        }
        let s2 = s1.emit(movf(p)).emit(w_op(Op::Iorwf, at(p, 1))).emit(movwf(t)).emit(
            movf(at(p, 2)),
        ).emit(lit(LitOp::Andlw, 0x7F)).emit(w_op(Op::Iorwf, t));
        let c2 = exec(s2.rows, base, m);
        let s3 = s2.emit(on_z(BitOp::Btfss)).emit(goto_tmp(l_inf)).emit(goto_tmp(l_nan));
        let c3 = exec(s3.rows, base, m);
        assert(self.inf_single(st, p, t, l_some, l_inf, l_nan) == s3);
        assert(base <= s2.rows.len() <= s3.rows.len());
        if some {
            assert(c3 == c1) by {
                broadcast use group_exec;

            }
        } else {
            assert(c2.flow is Next && but(b, c2, t) && c2.z == (x0 == 0 && x1 == 0 && x2 % 128 == 0)) by {
                broadcast use group_exec;

            }
            assert(c3.core == c2.core && c3.ram == c2.ram && c3.flow == Flow::Seek(
                Sym::Tmp(
                    if c2.z {
                        l_nan
                    } else {
                        l_inf
                    },
                ),
            )) by {
                broadcast use group_exec;

            }
        }
    }

    /// Zeros and numbers other than zero are told apart.
    #[verifier::rlimit(50)]
    pub(crate) proof fn lemma_nonzero_any(
        &self,
        st: St,
        p: u32,
        t: u32,
        l_nz: u32,
        base: int,
        m: Machine,
    )
        requires
            under_way(st, base, m),
            exec(st.rows, base, m).flow is Next,
            t != at(p, 2),
            t != at(p, 3),
        ensures
            ({
                let b = exec(st.rows, base, m);
                let s = self.nonzero(st, p, t, l_nz);
                let a = exec(s.rows, base, m);
                &&& base <= s.rows.len()
                &&& a.flow == (if is_zero(word(b, p, 4)) {
                    Flow::Next
                } else {
                    Flow::Seek(Sym::Tmp(l_nz))
                })
                &&& but(b, a, t)
            }),
    {
        let b = exec(st.rows, base, m);
        lemma_parts(b, p);
        lemma_masks();
        let (x0, x1, x2, x3) = (b.ram[p], b.ram[at(p, 1)], b.ram[at(p, 2)], b.ram[at(p, 3)]);
        let some = x3 % 128 != 0 || x2 >= 128;
        let s1 = st.emit(movf(at(p, 3))).emit(lit(LitOp::Andlw, 0x7F)).emit(on_z(BitOp::Btfss)).emit(
            goto_tmp(l_nz),
        ).emit(ram_bit(BitOp::Btfsc, at(p, 2), 7)).emit(goto_tmp(l_nz));
        let c1 = exec(s1.rows, base, m);
        assert(base <= s1.rows.len() && c1.core == b.core && c1.ram == b.ram && c1.flow == (if some {
            Flow::Seek(Sym::Tmp(l_nz))
        } else {
            Flow::Next
        })) by {
            broadcast use group_exec;

        }
        let s2 = s1.emit(movf(p)).emit(w_op(Op::Iorwf, at(p, 1))).emit(movwf(t)).emit(
            movf(at(p, 2)),
        ).emit(lit(LitOp::Andlw, 0x7F)).emit(w_op(Op::Iorwf, t));
        let c2 = exec(s2.rows, base, m);
        let s3 = s2.emit(on_z(BitOp::Btfss)).emit(goto_tmp(l_nz));
        let c3 = exec(s3.rows, base, m);
        assert(self.nonzero(st, p, t, l_nz) == s3);
        assert(base <= s2.rows.len() <= s3.rows.len());
        if some {
            assert(c3 == c1) by {
                broadcast use group_exec;

            }
        } else {
            assert(c2.flow is Next && but(b, c2, t) && c2.z == (x0 == 0 && x1 == 0 && x2 % 128 == 0)) by {
                broadcast use group_exec;

            }
            assert(c3.core == c2.core && c3.ram == c2.ram && c3.flow == (if c2.z {
                Flow::Next
            } else {
                Flow::Seek(Sym::Tmp(l_nz))
            })) by {
                broadcast use group_exec;

            }
        }
    }

    /// A factor that is not finite decides where the product goes.
    #[verifier::rlimit(80)]
    proof fn lemma_fmul_ff(
        &self,
        st: St,
        pa: u32,
        pb: u32,
        scr: u32,
        l: u32,
        base: int,
        m: Machine,
    )
        requires
            under_way(st, base, m),
            exec(st.rows, base, m).flow is Next,
            product_slots(pa, pb, scr, self.retval),
            l <= u32::MAX - 40,
            ({
                let b = exec(st.rows, base, m);
                exponent(word(b, pa, 4)) == 255 || exponent(word(b, pb, 4)) == 255
            }),
        ensures
            ({
                let b = exec(st.rows, base, m);
                let s = self.mulf_specials(st, pa, pb, scr, l);
                let a = exec(s.rows, base, m);
                &&& under_way(s, base, m)
                &&& a.flow == (if nan_product(word(b, pa, 4), word(b, pb, 4)) {
                    tmp(l, 30)
                } else {
                    tmp(l, 31)
                })
                &&& but(b, a, at(scr, 13))
            }),
    {
        let b = exec(st.rows, base, m);
        let (x, y) = (word(b, pa, 4), word(b, pb, 4));
        lemma_parts(b, pa);
        lemma_parts(b, pb);
        let t = at(scr, 13);
        let l_nan = label_at(l, 30);
        let l_inf = label_at(l, 31);
        let s1 = self.not_ff(st, pa, t, label_at(l, 19), label_at(l, 20), l_nan);
        let c1 = exec(s1.rows, base, m);
        if exponent(x) == 255 {
            self.lemma_ff(st, pa, t, label_at(l, 19), label_at(l, 20), l_nan, base, m);
        } else {
            self.lemma_not_ff(st, pa, t, l, 19, label_at(l, 20), l_nan, base, m);
        }
        assert(but(b, c1, t));
        let s2 = s1.emit(label_tmp(label_at(l, 19)));
        let c2 = exec(s2.rows, base, m);
        assert(base <= s2.rows.len() && c2 == (if c1.flow == tmp(l, 19) {
            Machine { flow: Flow::Next, ..c1 }
        } else {
            c1
        })) by {
            broadcast use group_exec;

        }
        assert(word(c2, pb, 4) == y && word(c2, pa, 4) == x);
        let s3 = self.not_ff(s2, pb, t, label_at(l, 21), label_at(l, 22), l_nan);
        let c3 = exec(s3.rows, base, m);
        if c2.flow is Next {
            self.lemma_ff(s2, pb, t, label_at(l, 21), label_at(l, 22), l_nan, base, m);
        } else {
            self.lemma_not_ff(s2, pb, t, l, 21, label_at(l, 22), l_nan, base, m);
        }
        assert(but(b, c3, t));
        let s4 = s3.emit(label_tmp(label_at(l, 20)));
        let c4 = exec(s4.rows, base, m);
        assert(base <= s4.rows.len() && c4 == (if c3.flow == tmp(l, 20) {
            Machine { flow: Flow::Next, ..c3 }
        } else {
            c3
        })) by {
            broadcast use group_exec;

        }
        assert(word(c4, pb, 4) == y && word(c4, pa, 4) == x);
        let s5 = self.inf_pair(s4, pb, t, l_inf, l_nan, label_at(l, 23));
        let c5 = exec(s5.rows, base, m);
        if c4.flow is Next {
            self.lemma_inf_pair(s4, pb, t, l_inf, l_nan, label_at(l, 23), base, m);
        } else {
            self.lemma_inf_pair_over(s4, pb, t, l_inf, l_nan, label_at(l, 23), base, m);
        }
        assert(but(b, c5, t));
        let s6 = s5.emit(label_tmp(label_at(l, 23)));
        let c6 = exec(s6.rows, base, m);
        assert(base <= s6.rows.len() && c6 == (if c5.flow == tmp(l, 23) {
            Machine { flow: Flow::Next, ..c5 }
        } else {
            c5
        })) by {
            broadcast use group_exec;

        }
        assert(word(c6, pb, 4) == y && word(c6, pa, 4) == x);
        let s7 = self.inf_single(s6, pb, t, l_inf, l_inf, l_nan);
        let c7 = exec(s7.rows, base, m);
        if c6.flow is Next {
            self.lemma_inf_single(s6, pb, t, l_inf, l_inf, l_nan, base, m);
        } else {
            self.lemma_inf_single_over(s6, pb, t, l_inf, l_inf, l_nan, base, m);
        }
        assert(but(b, c7, t));
        self.lemma_fmul_ff_second(s7, pa, scr, l, base, m);
        assert(word(c7, pa, 4) == x);
        assert(self.mulf_specials(st, pa, pb, scr, l) == self.ff_second(s7, pa, scr, l)) by {
            reveal(Gen::mulf_specials);
        }
    }

    /// The second factor is an infinity, the first is finite.
    pub open spec fn ff_second(&self, st: St, pa: u32, scr: u32, l: u32) -> St {
        let t = at(scr, 13);
        let s = self.inf_single(
            st.emit(label_tmp(label_at(l, 22))),
            pa,
            t,
            label_at(l, 24),
            label_at(l, 31),
            label_at(l, 30),
        );
        self.inf_single(
            s.emit(label_tmp(label_at(l, 24))),
            pa,
            t,
            label_at(l, 31),
            label_at(l, 31),
            label_at(l, 30),
        ).emit(label_tmp(label_at(l, 21)))
    }

    proof fn lemma_fmul_ff_second(&self, st: St, pa: u32, scr: u32, l: u32, base: int, m: Machine)
        requires
            under_way(st, base, m),
            pa <= 0xFFFF,
            scr <= 0xFFFF,
            apart(pa, 4, scr, 14),
            l <= u32::MAX - 40,
            ({
                let f = exec(st.rows, base, m).flow;
                f == tmp(l, 22) || f == tmp(l, 30) || f == tmp(l, 31)
            }),
        ensures
            ({
                let b = exec(st.rows, base, m);
                let s = self.ff_second(st, pa, scr, l);
                let a = exec(s.rows, base, m);
                &&& under_way(s, base, m)
                &&& a.flow == (if b.flow != tmp(l, 22) {
                    b.flow
                } else if is_zero(word(b, pa, 4)) {
                    tmp(l, 30)
                } else {
                    tmp(l, 31)
                })
                &&& but(b, a, at(scr, 13))
            }),
    {
        let b = exec(st.rows, base, m);
        let t = at(scr, 13);
        let l_nan = label_at(l, 30);
        let l_inf = label_at(l, 31);
        let s8 = st.emit(label_tmp(label_at(l, 22)));
        let c8 = exec(s8.rows, base, m);
        assert(base <= s8.rows.len() && c8 == (if b.flow == tmp(l, 22) {
            Machine { flow: Flow::Next, ..b }
        } else {
            b
        })) by {
            broadcast use group_exec;

        }
        assert(word(c8, pa, 4) == word(b, pa, 4));
        let s9 = self.inf_single(s8, pa, t, label_at(l, 24), l_inf, l_nan);
        let c9 = exec(s9.rows, base, m);
        if c8.flow is Next {
            self.lemma_inf_single(s8, pa, t, label_at(l, 24), l_inf, l_nan, base, m);
        } else {
            self.lemma_inf_single_over(s8, pa, t, label_at(l, 24), l_inf, l_nan, base, m);
        }
        assert(but(b, c9, t));
        let s10 = s9.emit(label_tmp(label_at(l, 24)));
        let c10 = exec(s10.rows, base, m);
        assert(base <= s10.rows.len() && c10 == (if c9.flow == tmp(l, 24) {
            Machine { flow: Flow::Next, ..c9 }
        } else {
            c9
        })) by {
            broadcast use group_exec;

        }
        assert(word(c10, pa, 4) == word(b, pa, 4));
        let s11 = self.inf_single(s10, pa, t, l_inf, l_inf, l_nan);
        let c11 = exec(s11.rows, base, m);
        if c10.flow is Next {
            self.lemma_inf_single(s10, pa, t, l_inf, l_inf, l_nan, base, m);
        } else {
            self.lemma_inf_single_over(s10, pa, t, l_inf, l_inf, l_nan, base, m);
        }
        assert(but(b, c11, t));
        let s12 = s11.emit(label_tmp(label_at(l, 21)));
        assert(under_way(s12, base, m) && exec(s12.rows, base, m) == c11) by {
            broadcast use group_exec;

        }
    }

    /// The results that are no numbers, returned.
    #[verifier::rlimit(50)]
    proof fn lemma_results(
        &self,
        st: St,
        sign: u32,
        l: u32,
        base: int,
        m: Machine,
    )
        requires
            under_way(st, base, m),
            l <= u32::MAX - 40,
            self.retval <= 0xFFFF,
            apart(self.retval, 4, sign, 1),
            ({
                let f = exec(st.rows, base, m).flow;
                f == tmp(l, 30) || f == tmp(l, 31)
            }),
        ensures
            ({
                let b = exec(st.rows, base, m);
                let s1 = self.quiet_nan(st.emit(label_tmp(label_at(l, 30))), sign);
                let s = self.infinity(s1.emit(label_tmp(label_at(l, 31))), sign);
                let a = exec(s.rows, base, m);
                &&& base <= s.rows.len()
                &&& a.flow is Gone
                &&& word(a, self.retval, 4) == with_sign(
                    b.ram[sign] >= 128,
                    if b.flow == tmp(l, 30) {
                        0x7FC0_0000
                    } else {
                        0x7F80_0000
                    },
                )
            }),
    {
        let b = exec(st.rows, base, m);
        let r = self.retval;
        let s1 = self.quiet_nan(st.emit(label_tmp(label_at(l, 30))), sign);
        let c1 = exec(s1.rows, base, m);
        let s = self.infinity(s1.emit(label_tmp(label_at(l, 31))), sign);
        let a = exec(s.rows, base, m);
        assert(base <= s1.rows.len() <= s.rows.len());
        if b.flow == tmp(l, 30) {
            let s0 = st.emit(label_tmp(label_at(l, 30)));
            assert(base <= s0.rows.len() && exec(s0.rows, base, m) == (Machine { flow: Flow::Next, ..b })) by {
                broadcast use group_exec;

            }
            self.lemma_pattern(s0, sign, 0xC0, base, m);
            assert(a == c1) by {
                broadcast use lemma_exec_push, lemma_step_gone;

            }
        } else {
            assert(c1 == b) by {
                broadcast use lemma_exec_push, lemma_step_seek;

            }
            let s0 = s1.emit(label_tmp(label_at(l, 31)));
            assert(base <= s0.rows.len() && exec(s0.rows, base, m) == (Machine { flow: Flow::Next, ..b })) by {
                broadcast use group_exec;

            }
            self.lemma_pattern(s0, sign, 0x80, base, m);
        }
    }

    /// A pattern with the greatest exponent, stored with the sign and returned.
    pub open spec fn pattern(&self, st: St, sign: u32, v: u8) -> St {
        let r = self.retval;
        st.emit(clrf(r)).emit(clrf(at(r, 1))).emit(movlw(v)).emit(movwf(at(r, 2))).emit(
            movlw(0x7F),
        ).emit(movwf(at(r, 3))).emit(ram_bit(BitOp::Btfsc, sign, 7)).emit(
            ram_bit(BitOp::Bsf, at(r, 3), 7),
        ).emit(Line::Return)
    }

    #[verifier::rlimit(50)]
    pub(crate) proof fn lemma_pattern(&self, st: St, sign: u32, v: u8, base: int, m: Machine)
        requires
            under_way(st, base, m),
            exec(st.rows, base, m).flow is Next,
            self.retval <= 0xFFFF,
            apart(self.retval, 4, sign, 1),
        ensures
            ({
                let b = exec(st.rows, base, m);
                let s = self.pattern(st, sign, v);
                let a = exec(s.rows, base, m);
                &&& base <= s.rows.len()
                &&& a.flow is Gone
                &&& word(a, self.retval, 4) == with_sign(
                    b.ram[sign] >= 128,
                    0x7F00_0000 + 0x1_0000 * v,
                )
            }),
    {
        let b = exec(st.rows, base, m);
        let r = self.retval;
        let s1 = st.emit(clrf(r)).emit(clrf(at(r, 1))).emit(movlw(v)).emit(movwf(at(r, 2))).emit(
            movlw(0x7F),
        ).emit(movwf(at(r, 3)));
        let c1 = exec(s1.rows, base, m);
        assert(base <= s1.rows.len() && c1.flow is Next && c1.core == b.core && c1.ram == b.ram.insert(
            r,
            0,
        ).insert(at(r, 1), 0).insert(at(r, 2), v).insert(at(r, 3), 0x7F)) by {
            broadcast use group_exec;

        }
        lemma_masks();
        let s2 = s1.emit(ram_bit(BitOp::Btfsc, sign, 7)).emit(ram_bit(BitOp::Bsf, at(r, 3), 7));
        let c2 = exec(s2.rows, base, m);
        assert(c1.ram[sign] == b.ram[sign]);
        assert(base <= s2.rows.len() && c2.flow is Next && c2.ram == (if b.ram[sign] >= 128 {
            c1.ram.insert(at(r, 3), 0xFF)
        } else {
            c1.ram
        })) by {
            broadcast use group_exec;

        }
        lemma_exec_push(s2.rows, Row { line: Line::Return, loc: None }, base, m);
        reveal(step);
    }

    #[verifier::rlimit(50)]
    proof fn lemma_mulf_mantissas_over(&self, st: St, pa: u32, pb: u32, scr: u32, l: u32, base: int, m: Machine)
        requires
            0 <= base <= st.rows.len(),
            l <= u32::MAX - 40,
            settled(exec(st.rows, base, m).flow, l),
        ensures
            base <= self.mulf_mantissas(st, pa, pb, scr, l).rows.len(),
            self.mulf_mantissas(st, pa, pb, scr, l).next == st.next,
            exec(self.mulf_mantissas(st, pa, pb, scr, l).rows, base, m) == exec(st.rows, base, m),
    {
        reveal(Gen::mulf_mantissas);
        if exec(st.rows, base, m).flow is Gone {
            broadcast use lemma_exec_push, lemma_step_gone;

        } else {
            broadcast use lemma_exec_push, lemma_step_seek;

        }
    }

    #[verifier::rlimit(50)]
    proof fn lemma_mulf_loop_over(&self, st: St, pa: u32, pb: u32, scr: u32, l: u32, base: int, m: Machine)
        requires
            0 <= base <= st.rows.len(),
            l <= u32::MAX - 40,
            settled(exec(st.rows, base, m).flow, l),
        ensures
            base <= self.mulf_loop(st, pa, pb, scr, l).rows.len(),
            self.mulf_loop(st, pa, pb, scr, l).next == st.next,
            exec(self.mulf_loop(st, pa, pb, scr, l).rows, base, m) == exec(st.rows, base, m),
    {
        reveal(Gen::mulf_loop);
        if exec(st.rows, base, m).flow is Gone {
            broadcast use lemma_exec_push, lemma_step_gone;

        } else {
            broadcast use lemma_exec_push, lemma_step_seek;

        }
    }

    #[verifier::rlimit(50)]
    proof fn lemma_mulf_unify_over(&self, st: St, scr: u32, l: u32, base: int, m: Machine)
        requires
            0 <= base <= st.rows.len(),
            l <= u32::MAX - 40,
            settled(exec(st.rows, base, m).flow, l),
        ensures
            base <= self.mulf_unify(st, scr, l).rows.len(),
            self.mulf_unify(st, scr, l).next == st.next,
            exec(self.mulf_unify(st, scr, l).rows, base, m) == exec(st.rows, base, m),
    {
        reveal(Gen::mulf_unify);
        if exec(st.rows, base, m).flow is Gone {
            broadcast use lemma_exec_push, lemma_step_gone;

        } else {
            broadcast use lemma_exec_push, lemma_step_seek;

        }
    }

    #[verifier::rlimit(50)]
    proof fn lemma_mulf_normalize_over(&self, st: St, scr: u32, l: u32, base: int, m: Machine)
        requires
            0 <= base <= st.rows.len(),
            l <= u32::MAX - 40,
            settled(exec(st.rows, base, m).flow, l),
        ensures
            base <= self.mulf_normalize(st, scr, l).rows.len(),
            self.mulf_normalize(st, scr, l).next == st.next,
            exec(self.mulf_normalize(st, scr, l).rows, base, m) == exec(st.rows, base, m),
    {
        reveal(Gen::mulf_normalize);
        if exec(st.rows, base, m).flow is Gone {
            broadcast use lemma_exec_push, lemma_step_gone;

        } else {
            broadcast use lemma_exec_push, lemma_step_seek;

        }
    }

    #[verifier::rlimit(50)]
    proof fn lemma_mulf_round_over(&self, st: St, scr: u32, l: u32, base: int, m: Machine)
        requires
            0 <= base <= st.rows.len(),
            l <= u32::MAX - 40,
            settled(exec(st.rows, base, m).flow, l),
            st.next == l + 32,
        ensures
            base <= self.mulf_round(st, scr, l).rows.len(),
            exec(self.mulf_round(st, scr, l).rows, base, m) == exec(st.rows, base, m),
    {
        reveal(Gen::mulf_round);
        if exec(st.rows, base, m).flow is Gone {
            broadcast use lemma_exec_push, lemma_step_gone;

        } else {
            broadcast use lemma_exec_push, lemma_step_seek;

        }
    }

    /// Finite factors are passed on; a zero among them decides the product.
    proof fn lemma_fmul_nought(
        &self,
        st: St,
        pa: u32,
        pb: u32,
        scr: u32,
        l: u32,
        base: int,
        m: Machine,
    )
        requires
            under_way(st, base, m),
            product_slots(pa, pb, scr, self.retval),
            l <= u32::MAX - 40,
            ({
                let b = exec(st.rows, base, m);
                ||| b.flow is Next && (is_zero(word(b, pa, 4)) || is_zero(word(b, pb, 4)))
                ||| b.flow == tmp(l, 30)
                ||| b.flow == tmp(l, 31)
            }),
        ensures
            ({
                let b = exec(st.rows, base, m);
                let s = self.mulf_zeros(st, pa, pb, scr, l);
                let a = exec(s.rows, base, m);
                &&& base <= s.rows.len()
                &&& settled(a.flow, l)
                &&& b.flow is Next ==> a.flow == tmp(l, 29) && but(b, a, at(scr, 13))
                &&& !(b.flow is Next) ==> a.flow is Gone && word(a, self.retval, 4) == with_sign(
                    b.ram[scr] >= 128,
                    if b.flow == tmp(l, 30) {
                        0x7FC0_0000
                    } else {
                        0x7F80_0000
                    },
                )
            }),
    {
        let b = exec(st.rows, base, m);
        let t = at(scr, 13);
        let s1 = self.nonzero(st, pa, t, label_at(l, 17));
        let c1 = exec(s1.rows, base, m);
        if b.flow is Next {
            self.lemma_nonzero_any(st, pa, t, label_at(l, 17), base, m);
        } else {
            self.lemma_nonzero(st, pa, t, l, 17, base, m);
        }
        let s2 = s1.emit(goto_tmp(label_at(l, 29))).emit(label_tmp(label_at(l, 17)));
        let c2 = exec(s2.rows, base, m);
        assert(base <= s2.rows.len() && c2.core == c1.core && c2.ram == c1.ram && c2.flow == (
        if c1.flow is Next {
            tmp(l, 29)
        } else if c1.flow == tmp(l, 17) {
            Flow::Next
        } else {
            c1.flow
        })) by {
            broadcast use group_exec;

        }
        if b.flow is Next {
            assert(word(c2, pb, 4) == word(b, pb, 4));
        }
        let s3 = self.nonzero(s2, pb, t, label_at(l, 18));
        let c3 = exec(s3.rows, base, m);
        if c2.flow is Next {
            self.lemma_nonzero_any(s2, pb, t, label_at(l, 18), base, m);
        } else {
            self.lemma_nonzero(s2, pb, t, l, 18, base, m);
        }
        let s4 = s3.emit(goto_tmp(label_at(l, 29)));
        let c4 = exec(s4.rows, base, m);
        assert(under_way(s4, base, m) && c4.ram == c3.ram && c4.core == c3.core && c4.flow == (
        if c3.flow is Next {
            tmp(l, 29)
        } else {
            c3.flow
        })) by {
            broadcast use group_exec;

        }
        if b.flow is Next {
            self.lemma_results_over(s4, scr, label_at(l, 30), label_at(l, 31), base, m);
        } else {
            self.lemma_results(s4, scr, l, base, m);
        }
        assert(self.mulf_zeros(st, pa, pb, scr, l) == self.infinity(
            self.quiet_nan(s4.emit(label_tmp(label_at(l, 30))), scr).emit(
                label_tmp(label_at(l, 31)),
            ),
            scr,
        )) by {
            reveal(Gen::mulf_zeros);
        }
    }

    /// The zero with the sign, returned.
    #[verifier::rlimit(50)]
    proof fn lemma_fmul_zero(&self, st: St, scr: u32, l: u32, base: int, m: Machine)
        requires
            0 <= base <= st.rows.len(),
            l <= u32::MAX - 40,
            settled(exec(st.rows, base, m).flow, l),
            exec(st.rows, base, m).flow is Seek ==> exec(st.rows, base, m).core is Enhanced,
            self.retval <= 0xFFFF,
            scr <= 0xFFFF,
            apart(self.retval, 4, scr, 14),
        ensures
            ({
                let b = exec(st.rows, base, m);
                let a = exec(self.mulf_zero(st, scr, l).rows, base, m);
                &&& a.flow is Gone
                &&& b.flow is Gone ==> a == b
                &&& b.flow == tmp(l, 29) ==> word(a, self.retval, 4) == with_sign(
                    b.ram[scr] >= 128,
                    0,
                )
            }),
    {
        let b = exec(st.rows, base, m);
        let r = self.retval;
        let s1 = st.emit(label_tmp(label_at(l, 29)));
        let c1 = exec(s1.rows, base, m);
        reveal(Gen::mulf_zero);
        let s = self.mulf_zero(st, scr, l);
        let a = exec(s.rows, base, m);
        assert(base <= s1.rows.len());
        if b.flow is Gone {
            assert(a == b) by {
                broadcast use lemma_exec_push, lemma_step_gone;

            }
        } else {
            lemma_masks();
            assert(c1 == (Machine { flow: Flow::Next, ..b })) by {
                broadcast use group_exec;

            }
            let s2 = s1.emit(clrf(r)).emit(clrf(at(r, 1))).emit(clrf(at(r, 2))).emit(
                clrf(at(r, 3)),
            );
            let c2 = exec(s2.rows, base, m);
            assert(base <= s2.rows.len() && c2.flow is Next && c2.ram == b.ram.insert(r, 0).insert(
                at(r, 1),
                0,
            ).insert(at(r, 2), 0).insert(at(r, 3), 0)) by {
                broadcast use group_exec;

            }
            assert(c2.ram[scr] == b.ram[scr]);
            let s3 = s2.emit(ram_bit(BitOp::Btfsc, scr, 7)).emit(ram_bit(BitOp::Bsf, at(r, 3), 7));
            let c3 = exec(s3.rows, base, m);
            assert(base <= s3.rows.len() && c3.flow is Next && c3.ram == (if b.ram[scr] >= 128 {
                c2.ram.insert(at(r, 3), 128)
            } else {
                c2.ram
            })) by {
                broadcast use group_exec;

            }
            assert(s == s3.emit(Line::Return));
            lemma_exec_push(s3.rows, Row { line: Line::Return, loc: None }, base, m);
            reveal(step);
        }
    }

    /// The product routine with a zero, an infinity or what is no number: the
    /// result is no number if a factor is none or an infinity meets a zero, an
    /// infinity if a factor is one, a zero otherwise. It has the joint sign.
    pub proof fn law_float_product_of_specials(
        &self,
        st: St,
        pa: u32,
        pb: u32,
        scr: u32,
        m: Machine,
    )
        requires
            product_slots(pa, pb, scr, self.retval),
            st.next <= u32::MAX - 40,
            m.flow is Next,
            m.core is Enhanced,
            ({
                let (x, y) = (word(m, pa, 4), word(m, pb, 4));
                is_zero(x) || is_zero(y) || exponent(x) == 255 || exponent(y) == 255
            }),
        ensures
            exists|a: Machine| #[trigger]
                runs_to(self.mulf(st, pa, pb, scr).rows, st.rows.len() as int, m, a)
                    && a.flow is Gone && word(a, self.retval, 4) == special_product(
                    word(m, pa, 4),
                    word(m, pb, 4),
                ),
    {
        let base = st.rows.len() as int;
        let l = st.next;
        let (x, y) = (word(m, pa, 4), word(m, pb, 4));
        let rows = self.mulf(st, pa, pb, scr).rows;
        let s0 = st.reserve(32);
        assert(exec(s0.rows, base, m) == m) by {
            broadcast use group_exec;

        }
        lemma_parts(m, pa);
        lemma_parts(m, pb);
        let s1 = self.mulf_exponent(s0, pa, pb, scr, l);
        self.lemma_fmul_exponent_any(s0, pa, pb, scr, l, base, m);
        let c1 = exec(s1.rows, base, m);
        assert(word(c1, pa, 4) == x && word(c1, pb, 4) == y);
        let s2 = self.mulf_specials(s1, pa, pb, scr, l);
        let c2 = exec(s2.rows, base, m);
        if exponent(x) == 255 || exponent(y) == 255 {
            self.lemma_fmul_ff(s1, pa, pb, scr, l, base, m);
        } else {
            self.lemma_fmul_specials(s1, pa, pb, scr, l, base, m);
            assert(word(c2, pa, 4) == x && word(c2, pb, 4) == y);
        }
        let s3 = self.mulf_zeros(s2, pa, pb, scr, l);
        self.lemma_fmul_nought(s2, pa, pb, scr, l, base, m);
        assert(s3.next == l + 32) by {
            reveal(Gen::mulf_exponent);
            reveal(Gen::mulf_specials);
            reveal(Gen::mulf_zeros);
        }
        let s4 = self.mulf_mantissas(s3, pa, pb, scr, l);
        self.lemma_mulf_mantissas_over(s3, pa, pb, scr, l, base, m);
        let s5 = self.mulf_loop(s4, pa, pb, scr, l);
        self.lemma_mulf_loop_over(s4, pa, pb, scr, l, base, m);
        let s6 = self.mulf_unify(s5, scr, l);
        self.lemma_mulf_unify_over(s5, scr, l, base, m);
        let s7 = self.mulf_normalize(s6, scr, l);
        self.lemma_mulf_normalize_over(s6, scr, l, base, m);
        let s8 = self.mulf_round(s7, scr, l);
        self.lemma_mulf_round_over(s7, scr, l, base, m);
        self.lemma_fmul_zero(s8, scr, l, base, m);
        let a = exec(rows, base, m);
        assert(rows == self.mulf_zero(s8, scr, l).rows) by {
            reveal(Gen::mulf);
        }
        assert(settle(rows, base, m, 1) == a);
        assert(runs_to(rows, base, m, a));
    }
}

/// Whether a product is decided: the run goes to the zero, or has left.
pub open spec fn settled(f: Flow, l: u32) -> bool {
    f == tmp(l, 29) || f is Gone
}

} // verus!
