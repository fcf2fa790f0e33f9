//! How the product and quotient routines tell normal operands from the others.
use vstd::prelude::*;
use crate::emit::{at, goto_tmp, label_tmp, lit, movf, movwf, on_z, ram_bit, w_op, St};
use crate::line::{BitOp, LitOp, Op};
use crate::machine::{exec, group_exec, Machine};
use crate::meaning::word;
use crate::pic14e::laws::float_int::{tmp, under_way};
use crate::pic14e::laws::float_order::{exponent, lemma_masks, lemma_parts, negative};
use crate::pic14e::Gen;

verus! {

/// Whether a number is normal.
pub open spec fn is_normal(x: int) -> bool {
    1 <= exponent(x) <= 254
}

impl<'a> Gen<'a> {
    /// The sign of a product or quotient into the byte at `s`.
    pub open spec fn joint_sign(&self, st: St, pa: u32, pb: u32, s: u32) -> St {
        st.emit(movf(at(pa, 3))).emit(w_op(Op::Xorwf, at(pb, 3))).emit(lit(LitOp::Andlw, 0x80)).emit(
            movwf(s),
        )
    }

    #[verifier::rlimit(50)]
    pub(crate) proof fn lemma_joint_sign(
        &self,
        st: St,
        pa: u32,
        pb: u32,
        s: u32,
        base: int,
        m: Machine,
    )
        requires
            under_way(st, base, m),
        ensures
            ({
                let b = exec(st.rows, base, m);
                let e = self.joint_sign(st, pa, pb, s);
                let a = exec(e.rows, base, m);
                &&& base <= e.rows.len()
                &&& b.flow is Next ==> {
                    &&& a.flow is Next
                    &&& a.core == b.core
                    &&& (a.ram[s] >= 128) == (negative(word(b, pa, 4)) != negative(word(b, pb, 4)))
                    &&& forall|y: u32| y != s ==> #[trigger] a.ram[y] == b.ram[y]
                }
                &&& b.flow is Seek ==> a == b
            }),
    {
        let b = exec(st.rows, base, m);
        let e = self.joint_sign(st, pa, pb, s);
        let a = exec(e.rows, base, m);
        if b.flow is Next {
            let (x, y) = (b.ram[at(pa, 3)], b.ram[at(pb, 3)]);
            assert(a.flow is Next && a.core == b.core && a.ram == b.ram.insert(s, (y ^ x) & 0x80)) by {
                broadcast use group_exec;

            }
            assert((y ^ x) & 0x80u8 == (if (x >= 128) == (y >= 128) {
                0u8
            } else {
                0x80u8
            })) by (bit_vector);
            lemma_parts(b, pa);
            lemma_parts(b, pb);
        } else {
            assert(a == b) by {
                broadcast use group_exec;

            }
        }
    }

    /// The jump to `l_not` unless the number at `p` has the greatest exponent.
    pub open spec fn not_ff(&self, st: St, p: u32, t: u32, l_not: u32, l_inf: u32, l_nan: u32) -> St {
        st.emit(movf(at(p, 3))).emit(lit(LitOp::Andlw, 0x7F)).emit(lit(LitOp::Xorlw, 0x7F)).emit(
            on_z(BitOp::Btfss),
        ).emit(goto_tmp(l_not)).emit(ram_bit(BitOp::Btfss, at(p, 2), 7)).emit(goto_tmp(l_not))
            .emit(movf(p)).emit(w_op(Op::Iorwf, at(p, 1))).emit(movwf(t)).emit(movf(at(p, 2)))
            .emit(lit(LitOp::Andlw, 0x7F)).emit(w_op(Op::Iorwf, t)).emit(on_z(BitOp::Btfsc)).emit(
            goto_tmp(l_inf),
        ).emit(goto_tmp(l_nan))
    }

    #[verifier::rlimit(50)]
    pub(crate) proof fn lemma_not_ff(
        &self,
        st: St,
        p: u32,
        t: u32,
        l: u32,
        i: u32,
        l_inf: u32,
        l_nan: u32,
        base: int,
        m: Machine,
    )
        requires
            under_way(st, base, m),
        ensures
            ({
                let b = exec(st.rows, base, m);
                let e = self.not_ff(st, p, t, (l + i) as u32, l_inf, l_nan);
                let a = exec(e.rows, base, m);
                &&& base <= e.rows.len()
                &&& b.flow is Next && exponent(word(b, p, 4)) <= 254 ==> a.flow == tmp(l, i) && a.core
                    == b.core && a.ram == b.ram
                &&& b.flow is Seek ==> a == b
            }),
    {
        let b = exec(st.rows, base, m);
        let e = self.not_ff(st, p, t, (l + i) as u32, l_inf, l_nan);
        let a = exec(e.rows, base, m);
        if b.flow is Next {
            lemma_parts(b, p);
            lemma_masks();
            if exponent(word(b, p, 4)) <= 254 {
                let (x, y) = (b.ram[at(p, 3)], b.ram[at(p, 2)]);
                assert(x % 128 != 127 || y < 128);
                assert(a.flow == tmp(l, i) && a.core == b.core && a.ram == b.ram) by {
                    broadcast use group_exec;

                }
            }
        } else {
            assert(a == b) by {
                broadcast use group_exec;

            }
        }
    }

    /// The jump to `l_nz` unless the number at `p` counts as zero.
    pub open spec fn nonzero(&self, st: St, p: u32, t: u32, l_nz: u32) -> St {
        st.emit(movf(at(p, 3))).emit(lit(LitOp::Andlw, 0x7F)).emit(on_z(BitOp::Btfss)).emit(
            goto_tmp(l_nz),
        ).emit(ram_bit(BitOp::Btfsc, at(p, 2), 7)).emit(goto_tmp(l_nz)).emit(movf(p)).emit(
            w_op(Op::Iorwf, at(p, 1)),
        ).emit(movwf(t)).emit(movf(at(p, 2))).emit(lit(LitOp::Andlw, 0x7F)).emit(w_op(Op::Iorwf, t)).emit(on_z(BitOp::Btfss)).emit(goto_tmp(l_nz))
    }

    #[verifier::rlimit(50)]
    pub(crate) proof fn lemma_nonzero(
        &self,
        st: St,
        p: u32,
        t: u32,
        l: u32,
        i: u32,
        base: int,
        m: Machine,
    )
        requires
            under_way(st, base, m),
            t != at(p, 2),
            t != at(p, 3),
        ensures
            ({
                let b = exec(st.rows, base, m);
                let e = self.nonzero(st, p, t, (l + i) as u32);
                let a = exec(e.rows, base, m);
                &&& base <= e.rows.len()
                &&& b.flow is Next && is_normal(word(b, p, 4)) ==> {
                    &&& a.flow == tmp(l, i)
                    &&& a.core == b.core
                    &&& forall|y: u32| y != t ==> #[trigger] a.ram[y] == b.ram[y]
                }
                &&& b.flow is Seek ==> a == b
            }),
    {
        let b = exec(st.rows, base, m);
        let e = self.nonzero(st, p, t, (l + i) as u32);
        let a = exec(e.rows, base, m);
        if b.flow is Next {
            lemma_parts(b, p);
            lemma_masks();
            if is_normal(word(b, p, 4)) {
                let (x2, x3) = (b.ram[at(p, 2)], b.ram[at(p, 3)]);
                let s1 = st.emit(movf(at(p, 3))).emit(lit(LitOp::Andlw, 0x7F)).emit(
                    on_z(BitOp::Btfss),
                ).emit(goto_tmp((l + i) as u32)).emit(ram_bit(BitOp::Btfsc, at(p, 2), 7)).emit(
                    goto_tmp((l + i) as u32),
                );
                let c = exec(s1.rows, base, m);
                assert(x3 % 128 != 0 || x2 >= 128);
                assert(base <= s1.rows.len() && c.core == b.core && c.ram == b.ram && c.flow == tmp(
                    l,
                    i,
                )) by {
                    broadcast use group_exec;

                }
                assert(a == c) by {
                    broadcast use group_exec;

                }
            }
        } else {
            assert(a == b) by {
                broadcast use group_exec;

            }
        }
    }

    /// Two numbers that are not finite: infinities give one, the rest gives none.
    pub open spec fn inf_pair(
        &self,
        st: St,
        p: u32,
        t: u32,
        l_inf: u32,
        l_nan: u32,
        l_fin: u32,
    ) -> St {
        st.emit(movf(at(p, 3))).emit(lit(LitOp::Andlw, 0x7F)).emit(lit(LitOp::Xorlw, 0x7F)).emit(
            on_z(BitOp::Btfss),
        ).emit(goto_tmp(l_fin)).emit(ram_bit(BitOp::Btfss, at(p, 2), 7)).emit(goto_tmp(l_fin))
            .emit(movf(p)).emit(w_op(Op::Iorwf, at(p, 1))).emit(movwf(t)).emit(movf(at(p, 2)))
            .emit(lit(LitOp::Andlw, 0x7F)).emit(w_op(Op::Iorwf, t)).emit(on_z(BitOp::Btfss)).emit(
            goto_tmp(l_nan),
        ).emit(goto_tmp(l_inf))
    }

    pub(crate) proof fn lemma_inf_pair_over(
        &self,
        st: St,
        p: u32,
        t: u32,
        l_inf: u32,
        l_nan: u32,
        l_fin: u32,
        base: int,
        m: Machine,
    )
        requires
            under_way(st, base, m),
            exec(st.rows, base, m).flow is Seek,
        ensures
            under_way(self.inf_pair(st, p, t, l_inf, l_nan, l_fin), base, m),
            exec(self.inf_pair(st, p, t, l_inf, l_nan, l_fin).rows, base, m) == exec(st.rows, base, m),
    {
        broadcast use group_exec;

    }

    /// An infinity and a finite number at `p`.
    pub open spec fn inf_single(
        &self,
        st: St,
        p: u32,
        t: u32,
        l_some: u32,
        l_inf: u32,
        l_nan: u32,
    ) -> St {
        st.emit(movf(at(p, 3))).emit(lit(LitOp::Andlw, 0x7F)).emit(on_z(BitOp::Btfss)).emit(
            goto_tmp(l_some),
        ).emit(ram_bit(BitOp::Btfsc, at(p, 2), 7)).emit(goto_tmp(l_some)).emit(movf(p)).emit(
            w_op(Op::Iorwf, at(p, 1)),
        ).emit(movwf(t)).emit(movf(at(p, 2))).emit(lit(LitOp::Andlw, 0x7F)).emit(
            w_op(Op::Iorwf, t),
        ).emit(on_z(BitOp::Btfss)).emit(goto_tmp(l_inf)).emit(goto_tmp(l_nan))
    }

    pub(crate) proof fn lemma_inf_single_over(
        &self,
        st: St,
        p: u32,
        t: u32,
        l_some: u32,
        l_inf: u32,
        l_nan: u32,
        base: int,
        m: Machine,
    )
        requires
            under_way(st, base, m),
            exec(st.rows, base, m).flow is Seek,
        ensures
            under_way(self.inf_single(st, p, t, l_some, l_inf, l_nan), base, m),
            exec(self.inf_single(st, p, t, l_some, l_inf, l_nan).rows, base, m) == exec(
                st.rows,
                base,
                m,
            ),
    {
        broadcast use group_exec;

    }

    /// The results that are not numbers are passed over.
    pub(crate) proof fn lemma_results_over(
        &self,
        st: St,
        sign: u32,
        l_nan: u32,
        l_inf: u32,
        base: int,
        m: Machine,
    )
        requires
            under_way(st, base, m),
            exec(st.rows, base, m).flow is Seek,
            exec(st.rows, base, m).flow != tmp(l_nan, 0),
            exec(st.rows, base, m).flow != tmp(l_inf, 0),
        ensures
            ({
                let s1 = self.quiet_nan(st.emit(label_tmp(l_nan)), sign);
                let s2 = self.infinity(s1.emit(label_tmp(l_inf)), sign);
                under_way(s2, base, m) && exec(s2.rows, base, m) == exec(st.rows, base, m)
            }),
    {
        broadcast use group_exec;

    }
}

} // verus!
