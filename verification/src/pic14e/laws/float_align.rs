//! The float sum: finite operands in order and at one scale.
use vstd::prelude::*;
use crate::emit::{
    at, clrf, f_op, goto_tmp, label_at, label_tmp, lit, movf, movlw, movwf, on_c, on_z, ram_bit, w_op,
    St,
};
use crate::line::{BitOp, LitOp, Op};
use crate::machine::{exec, group_exec, Flow, Machine};
use crate::meaning::flag;
use crate::pic14e::laws::float_chain::three;
use crate::pic14e::laws::float_int::{tmp, under_way};
use crate::pic14e::laws::float_order::lemma_masks;
use crate::pic14e::laws::float_parts::returning;
use crate::pic14e::laws::multiply::lemma_count_down;
use crate::pic14e::laws::ready;
use crate::pic14e::Gen;

verus! {

/// The window below the first mantissa, which takes the bits that are shifted out.
pub open spec fn window(m: Machine, scr: u32) -> int {
    m.ram[at(scr, 6)] + 0x100 * m.ram[at(scr, 12)] + 0x1_0000 * m.ram[at(scr, 13)]
}

/// The first mantissa with its window: 48 bits.
pub open spec fn wide(m: Machine, scr: u32) -> int {
    0x100_0000 * three(m, at(scr, 2)) + window(m, scr)
}

/// Whether the parts of the operands are the same ones.
pub open spec fn parts_kept(b: Machine, a: Machine, scr: u32) -> bool {
    &&& a.ram[scr] == b.ram[scr] && a.ram[at(scr, 5)] == b.ram[at(scr, 5)]
    &&& a.ram[at(scr, 1)] == b.ram[at(scr, 1)] && a.ram[at(scr, 6)] == b.ram[at(scr, 6)]
    &&& three(a, at(scr, 2)) == three(b, at(scr, 2))
    &&& three(a, at(scr, 7)) == three(b, at(scr, 7))
}

/// Whether the parts of the operands have changed places.
pub open spec fn parts_swapped(b: Machine, a: Machine, scr: u32) -> bool {
    &&& a.ram[scr] == b.ram[at(scr, 5)] && a.ram[at(scr, 5)] == b.ram[scr]
    &&& a.ram[at(scr, 1)] == b.ram[at(scr, 6)] && a.ram[at(scr, 6)] == b.ram[at(scr, 1)]
    &&& three(a, at(scr, 2)) == three(b, at(scr, 7))
    &&& three(a, at(scr, 7)) == three(b, at(scr, 2))
}

/// Whether the bytes past the operands are the same ones.
pub open spec fn rest_kept(b: Machine, a: Machine, scr: u32) -> bool {
    &&& a.ram[at(scr, 10)] == b.ram[at(scr, 10)]
    &&& a.ram[at(scr, 12)] == b.ram[at(scr, 12)]
    &&& a.ram[at(scr, 13)] == b.ram[at(scr, 13)]
}

impl<'a> Gen<'a> {
    /// The test for an operand that is no number.
    pub open spec fn fadd_nan(&self, st: St, e: u32, cnt: u32, l_done: u32, l_nan: u32) -> St {
        st.emit(movf(e)).emit(lit(LitOp::Sublw, 0xFF)).emit(on_z(BitOp::Btfss)).emit(
            goto_tmp(l_done),
        ).emit(movf(at(e, 1))).emit(w_op(Op::Iorwf, at(e, 2))).emit(movwf(cnt)).emit(
            movf(at(e, 3)),
        ).emit(lit(LitOp::Andlw, 0x7F)).emit(w_op(Op::Iorwf, cnt)).emit(on_z(BitOp::Btfss)).emit(
            goto_tmp(l_nan),
        ).emit(label_tmp(l_done))
    }

    #[verifier::rlimit(50)]
    proof fn lemma_fadd_nan(
        &self,
        st: St,
        e: u32,
        cnt: u32,
        l: u32,
        i: u32,
        base: int,
        m: Machine,
    )
        requires
            under_way(st, base, m),
            l <= u32::MAX - 50,
            23 <= i <= 31,
            ({
                let b = exec(st.rows, base, m);
                returning(b.flow, l) || b.flow is Next && b.ram[e] != 255
            }),
        ensures
            ({
                let b = exec(st.rows, base, m);
                let s = self.fadd_nan(st, e, cnt, (l + i) as u32, label_at(l, 25));
                let a = exec(s.rows, base, m);
                &&& under_way(s, base, m)
                &&& a.flow == b.flow && a.ram == b.ram
                &&& returning(b.flow, l) ==> a == b
            }),
    {
        let b = exec(st.rows, base, m);
        let s = self.fadd_nan(st, e, cnt, (l + i) as u32, label_at(l, 25));
        let a = exec(s.rows, base, m);
        assert(base <= s.rows.len());
        if returning(b.flow, l) {
            assert(a == b) by {
                broadcast use group_exec;

            }
        } else {
            assert(a.core == b.core && a.flow is Next && a.ram == b.ram) by {
                broadcast use group_exec;

            }
        }
    }

    /// The test for an infinite first operand.
    pub open spec fn fadd_first_inf(&self, st: St, scr: u32, l: u32) -> St {
        st.emit(movf(at(scr, 1))).emit(lit(LitOp::Sublw, 0xFF)).emit(on_z(BitOp::Btfss)).emit(
            goto_tmp(label_at(l, 27)),
        ).emit(movf(at(scr, 6))).emit(lit(LitOp::Sublw, 0xFF)).emit(on_z(BitOp::Btfss)).emit(
            goto_tmp(label_at(l, 28)),
        ).emit(movf(scr)).emit(w_op(Op::Xorwf, at(scr, 5))).emit(on_z(BitOp::Btfss)).emit(
            goto_tmp(label_at(l, 25)),
        ).emit(goto_tmp(label_at(l, 26))).emit(label_tmp(label_at(l, 28))).emit(
            goto_tmp(label_at(l, 26)),
        ).emit(label_tmp(label_at(l, 27)))
    }

    /// The test for an infinite second operand.
    pub open spec fn fadd_second_inf(&self, st: St, scr: u32, l: u32) -> St {
        st.emit(movf(at(scr, 6))).emit(lit(LitOp::Sublw, 0xFF)).emit(on_z(BitOp::Btfss)).emit(
            goto_tmp(label_at(l, 31)),
        ).emit(movf(at(scr, 5))).emit(movwf(scr)).emit(goto_tmp(label_at(l, 26))).emit(
            label_tmp(label_at(l, 26)),
        )
    }

    /// The results that are no finite numbers.
    pub open spec fn fadd_results(&self, st: St, scr: u32, l: u32) -> St {
        self.quiet_nan(self.infinity(st, scr).emit(label_tmp(label_at(l, 25))), scr).emit(
            label_tmp(label_at(l, 31)),
        )
    }

    #[verifier::rlimit(50)]
    proof fn lemma_fadd_infs(&self, st: St, scr: u32, l: u32, base: int, m: Machine)
        requires
            under_way(st, base, m),
            l <= u32::MAX - 50,
            ({
                let b = exec(st.rows, base, m);
                returning(b.flow, l) || b.flow is Next && b.ram[at(scr, 1)] != 255 && b.ram[at(scr, 6)]
                    != 255
            }),
        ensures
            ({
                let b = exec(st.rows, base, m);
                let s = self.fadd_second_inf(self.fadd_first_inf(st, scr, l), scr, l);
                let a = exec(s.rows, base, m);
                &&& under_way(s, base, m)
                &&& a.ram == b.ram
                &&& b.flow is Next ==> a.flow == tmp(l, 31)
                &&& returning(b.flow, l) ==> a == b
            }),
    {
        let b = exec(st.rows, base, m);
        let s1 = self.fadd_first_inf(st, scr, l);
        let c = exec(s1.rows, base, m);
        let s = self.fadd_second_inf(s1, scr, l);
        let a = exec(s.rows, base, m);
        assert(base <= s1.rows.len() <= s.rows.len());
        if returning(b.flow, l) {
            assert(c == b) by {
                broadcast use group_exec;

            }
            assert(a == b) by {
                broadcast use group_exec;

            }
        } else {
            assert(c.core == b.core && c.flow is Next && c.ram == b.ram) by {
                broadcast use group_exec;

            }
            assert(a.core == b.core && a.flow == tmp(l, 31) && a.ram == b.ram) by {
                broadcast use group_exec;

            }
        }
    }

    #[verifier::rlimit(50)]
    proof fn lemma_fadd_results(&self, st: St, scr: u32, l: u32, base: int, m: Machine)
        requires
            under_way(st, base, m),
            l <= u32::MAX - 50,
            returning(exec(st.rows, base, m).flow, l) || exec(st.rows, base, m).flow == tmp(l, 31),
        ensures
            ({
                let b = exec(st.rows, base, m);
                let s = self.fadd_results(st, scr, l);
                let a = exec(s.rows, base, m);
                &&& under_way(s, base, m)
                &&& a.ram == b.ram
                &&& returning(b.flow, l) ==> a == b
                &&& !returning(b.flow, l) ==> a.flow is Next
            }),
    {
        let b = exec(st.rows, base, m);
        let s1 = self.infinity(st, scr).emit(label_tmp(label_at(l, 25)));
        assert(base <= s1.rows.len() && exec(s1.rows, base, m) == b) by {
            broadcast use group_exec;

        }
        let s2 = self.quiet_nan(s1, scr);
        assert(base <= s2.rows.len() && exec(s2.rows, base, m) == b) by {
            broadcast use group_exec;

        }
        let s = self.fadd_results(st, scr, l);
        let a = exec(s.rows, base, m);
        assert(base <= s.rows.len() && a.ram == b.ram && a.core == b.core && (returning(b.flow, l) ==> a
            == b) && (!returning(b.flow, l) ==> a.flow is Next)) by {
            broadcast use group_exec;

        }
    }

    pub(crate) proof fn lemma_fadd_specials(&self, st: St, scr: u32, l: u32, base: int, m: Machine)
        requires
            under_way(st, base, m),
            l <= u32::MAX - 50,
            scr <= 0xFFFF,
            ({
                let b = exec(st.rows, base, m);
                returning(b.flow, l) || b.flow is Next && b.ram[at(scr, 1)] != 255 && b.ram[at(scr, 6)]
                    != 255
            }),
        ensures
            ({
                let b = exec(st.rows, base, m);
                let s = self.addf_specials(st, scr, l);
                let a = exec(s.rows, base, m);
                &&& under_way(s, base, m)
                &&& s.next == st.next
                &&& a.flow == b.flow && a.ram == b.ram
                &&& returning(b.flow, l) ==> a == b
            }),
    {
        let cnt = at(scr, 11);
        let l_nan = label_at(l, 25);
        let s1 = self.fadd_nan(st, at(scr, 1), cnt, label_at(l, 29), l_nan);
        self.lemma_fadd_nan(st, at(scr, 1), cnt, l, 29, base, m);
        let s2 = self.fadd_nan(s1, at(scr, 6), cnt, label_at(l, 30), l_nan);
        self.lemma_fadd_nan(s1, at(scr, 6), cnt, l, 30, base, m);
        let s3 = self.fadd_second_inf(self.fadd_first_inf(s2, scr, l), scr, l);
        self.lemma_fadd_infs(s2, scr, l, base, m);
        let s4 = self.fadd_results(s3, scr, l);
        self.lemma_fadd_results(s3, scr, l, base, m);
        assert(self.addf_specials(st, scr, l) == s4) by {
            reveal(Gen::addf_specials);
        }
    }

    /// The test for a zero mantissa at `mant`.
    pub open spec fn fadd_nonzero(&self, st: St, mant: u32, l_nz: u32) -> St {
        st.emit(movf(mant)).emit(w_op(Op::Iorwf, at(mant, 1))).emit(w_op(Op::Iorwf, at(mant, 2))).emit(
            on_z(BitOp::Btfss),
        ).emit(goto_tmp(l_nz))
    }

    pub(crate) proof fn lemma_fadd_nonzero(
        &self,
        st: St,
        mant: u32,
        l: u32,
        i: u32,
        base: int,
        m: Machine,
    )
        requires
            under_way(st, base, m),
            l <= u32::MAX - 50,
            i <= 40,
            exec(st.rows, base, m).flow is Next ==> three(exec(st.rows, base, m), mant) != 0,
        ensures
            ({
                let b = exec(st.rows, base, m);
                let s = self.fadd_nonzero(st, mant, (l + i) as u32);
                let a = exec(s.rows, base, m);
                &&& under_way(s, base, m)
                &&& a.ram == b.ram
                &&& b.flow is Next ==> a.flow == tmp(l, i)
                &&& b.flow is Seek ==> a == b
            }),
    {
        lemma_masks();
        broadcast use group_exec;

    }

    /// The second operand copied over the first.
    pub open spec fn fadd_copy(&self, st: St, scr: u32, l: u32) -> St {
        let s = self.fadd_nonzero(st, at(scr, 7), label_at(l, 1));
        s.emit(goto_tmp(label_at(l, 2))).emit(label_tmp(label_at(l, 1))).emit(movf(at(scr, 5))).emit(
            movwf(scr),
        ).emit(movf(at(scr, 6))).emit(movwf(at(scr, 1))).emit(movf(at(scr, 7))).emit(
            movwf(at(scr, 2)),
        ).emit(movf(at(scr, 8))).emit(movwf(at(scr, 3))).emit(movf(at(scr, 9))).emit(
            movwf(at(scr, 4)),
        ).emit(clrf(at(scr, 10))).emit(goto_tmp(label_at(l, 32)))
    }

    pub(crate) proof fn lemma_fadd_copy_over(&self, st: St, scr: u32, l: u32, base: int, m: Machine)
        requires
            under_way(st, base, m),
            l <= u32::MAX - 50,
            returning(exec(st.rows, base, m).flow, l) || exec(st.rows, base, m).flow == tmp(l, 0),
        ensures
            under_way(self.fadd_copy(st, scr, l), base, m),
            exec(self.fadd_copy(st, scr, l).rows, base, m) == exec(st.rows, base, m),
    {
        broadcast use group_exec;

    }

    #[verifier::rlimit(50)]
    pub(crate) proof fn lemma_fadd_zeros(&self, st: St, scr: u32, l: u32, base: int, m: Machine)
        requires
            under_way(st, base, m),
            l <= u32::MAX - 50,
            scr <= 0xFFFF,
            ({
                let b = exec(st.rows, base, m);
                returning(b.flow, l) || b.flow is Next && three(b, at(scr, 2)) != 0 && three(
                    b,
                    at(scr, 7),
                ) != 0
            }),
        ensures
            ({
                let b = exec(st.rows, base, m);
                let s = self.addf_zeros(st, scr, l);
                let a = exec(s.rows, base, m);
                &&& under_way(s, base, m)
                &&& s.next == st.next
                &&& b.flow is Next ==> a.flow is Next && a.ram == b.ram.insert(at(scr, 10), 0).insert(
                    at(scr, 12),
                    0,
                ).insert(at(scr, 13), 0)
                &&& returning(b.flow, l) ==> a == b
            }),
    {
        let b = exec(st.rows, base, m);
        let s1 = self.fadd_nonzero(st, at(scr, 2), label_at(l, 0));
        self.lemma_fadd_nonzero(st, at(scr, 2), l, 0, base, m);
        let s2 = self.fadd_copy(s1, scr, l);
        self.lemma_fadd_copy_over(s1, scr, l, base, m);
        let c2 = exec(s2.rows, base, m);
        let s3 = s2.emit(label_tmp(label_at(l, 0)));
        let c3 = exec(s3.rows, base, m);
        assert(base <= s3.rows.len() && c3.core == b.core && c3.ram == b.ram && (b.flow is Next
            ==> c3.flow is Next) && (returning(b.flow, l) ==> c3 == b)) by {
            broadcast use group_exec;

        }
        let s4 = self.fadd_nonzero(s3, at(scr, 7), label_at(l, 3));
        assert(three(c3, at(scr, 7)) == three(b, at(scr, 7)));
        self.lemma_fadd_nonzero(s3, at(scr, 7), l, 3, base, m);
        let c4 = exec(s4.rows, base, m);
        let s5 = s4.emit(clrf(at(scr, 10))).emit(goto_tmp(label_at(l, 32))).emit(
            label_tmp(label_at(l, 3)),
        ).emit(clrf(at(scr, 10))).emit(clrf(at(scr, 12))).emit(clrf(at(scr, 13)));
        let a = exec(s5.rows, base, m);
        assert(base <= s5.rows.len());
        if returning(b.flow, l) {
            assert(a == b) by {
                broadcast use group_exec;

            }
        } else {
            assert(a.core == b.core && a.flow is Next && a.ram == c4.ram.insert(at(scr, 10), 0).insert(
                at(scr, 12),
                0,
            ).insert(at(scr, 13), 0)) by {
                broadcast use group_exec;

            }
        }
        assert(self.addf_zeros(st, scr, l) == s5) by {
            reveal(Gen::addf_zeros);
        }
    }

    /// Three exclusive ors exchange two bytes.
    #[verifier::rlimit(50)]
    pub(crate) proof fn lemma_xor_swap(&self, st: St, x: u32, y: u32, base: int, m: Machine)
        requires
            under_way(st, base, m),
            x != y,
        ensures
            ({
                let b = exec(st.rows, base, m);
                let s = self.xor_swap(st, x, y);
                let a = exec(s.rows, base, m);
                &&& under_way(s, base, m)
                &&& b.flow is Next ==> a.flow is Next && a.ram == b.ram.insert(x, b.ram[y]).insert(
                    y,
                    b.ram[x],
                )
                &&& b.flow is Seek ==> a == b
            }),
    {
        let b = exec(st.rows, base, m);
        let s = self.xor_swap(st, x, y);
        let a = exec(s.rows, base, m);
        let (u, v) = (b.ram[x], b.ram[y]);
        assert(base <= s.rows.len());
        if b.flow is Next {
            let t = u ^ v;
            assert(t ^ v == u && v ^ t == u && v ^ u == t && t ^ u == v && u ^ t == v) by (bit_vector)
                requires
                    t == u ^ v,
            ;
            assert(a.core == b.core && a.flow is Next && a.ram == b.ram.insert(x, v).insert(y, u)) by {
                broadcast use group_exec;

            }
        } else {
            assert(a == b) by {
                broadcast use group_exec;

            }
        }
    }

    /// The operands exchanged, by sign, exponent and mantissa.
    pub open spec fn fadd_swaps(&self, st: St, scr: u32) -> St {
        let st = self.xor_swap(st, scr, at(scr, 5));
        let st = self.xor_swap(st, at(scr, 1), at(scr, 6));
        let st = self.xor_swap(st, at(scr, 2), at(scr, 7));
        let st = self.xor_swap(st, at(scr, 3), at(scr, 8));
        self.xor_swap(st, at(scr, 4), at(scr, 9))
    }

    proof fn lemma_fadd_swaps(&self, st: St, scr: u32, base: int, m: Machine)
        requires
            under_way(st, base, m),
            scr <= 0xFFFF,
        ensures
            ({
                let b = exec(st.rows, base, m);
                let s = self.fadd_swaps(st, scr);
                let a = exec(s.rows, base, m);
                &&& under_way(s, base, m)
                &&& b.flow is Next ==> {
                    &&& a.flow is Next
                    &&& parts_swapped(b, a, scr)
                    &&& rest_kept(b, a, scr)
                }
                &&& b.flow is Seek ==> a == b
            }),
    {
        let b = exec(st.rows, base, m);
        let s1 = self.xor_swap(st, scr, at(scr, 5));
        self.lemma_xor_swap(st, scr, at(scr, 5), base, m);
        let s2 = self.xor_swap(s1, at(scr, 1), at(scr, 6));
        self.lemma_xor_swap(s1, at(scr, 1), at(scr, 6), base, m);
        let s3 = self.xor_swap(s2, at(scr, 2), at(scr, 7));
        self.lemma_xor_swap(s2, at(scr, 2), at(scr, 7), base, m);
        let s4 = self.xor_swap(s3, at(scr, 3), at(scr, 8));
        self.lemma_xor_swap(s3, at(scr, 3), at(scr, 8), base, m);
        self.lemma_xor_swap(s4, at(scr, 4), at(scr, 9), base, m);
    }

    /// The operand with the smaller exponent first.
    pub open spec fn fadd_exchange(&self, st: St, scr: u32, l: u32) -> St {
        self.fadd_swaps(
            st.emit(movf(at(scr, 6))).emit(w_op(Op::Subwf, at(scr, 1))).emit(on_c(BitOp::Btfss)).emit(
                goto_tmp(label_at(l, 4)),
            ),
            scr,
        ).emit(label_tmp(label_at(l, 4)))
    }

    #[verifier::rlimit(50)]
    proof fn lemma_fadd_exchange(&self, st: St, scr: u32, l: u32, base: int, m: Machine)
        requires
            under_way(st, base, m),
            scr <= 0xFFFF,
            l <= u32::MAX - 50,
            exec(st.rows, base, m).flow is Next || returning(exec(st.rows, base, m).flow, l),
        ensures
            ({
                let b = exec(st.rows, base, m);
                let s = self.fadd_exchange(st, scr, l);
                let a = exec(s.rows, base, m);
                &&& under_way(s, base, m)
                &&& b.flow is Next ==> {
                    &&& a.flow is Next
                    &&& if b.ram[at(scr, 1)] >= b.ram[at(scr, 6)] {
                        parts_swapped(b, a, scr)
                    } else {
                        parts_kept(b, a, scr)
                    }
                    &&& rest_kept(b, a, scr)
                }
                &&& returning(b.flow, l) ==> a == b
            }),
    {
        let b = exec(st.rows, base, m);
        let s1 = st.emit(movf(at(scr, 6))).emit(w_op(Op::Subwf, at(scr, 1))).emit(
            on_c(BitOp::Btfss),
        ).emit(goto_tmp(label_at(l, 4)));
        let c1 = exec(s1.rows, base, m);
        assert(base <= s1.rows.len() && c1.core == b.core && c1.ram == b.ram && (b.flow is Next
            ==> c1.flow == (if b.ram[at(scr, 1)] >= b.ram[at(scr, 6)] {
            Flow::Next
        } else {
            tmp(l, 4)
        })) && (b.flow is Seek ==> c1 == b)) by {
            broadcast use group_exec;

        }
        let s2 = self.fadd_swaps(s1, scr);
        self.lemma_fadd_swaps(s1, scr, base, m);
        let c2 = exec(s2.rows, base, m);
        assert(parts_kept(b, c1, scr) && rest_kept(b, c1, scr));
        let s = self.fadd_exchange(st, scr, l);
        let a = exec(s.rows, base, m);
        assert(base <= s.rows.len());
        if b.flow is Next {
            assert(a.core == c2.core && a.ram == c2.ram && a.flow is Next) by {
                broadcast use group_exec;

            }
            assert(parts_kept(c2, a, scr));
        } else {
            assert(a == b) by {
                broadcast use group_exec;

            }
        }
    }

    /// The distance of the exponents, at most 31, and the greater one kept.
    pub open spec fn fadd_distance(&self, st: St, scr: u32) -> St {
        let cnt = at(scr, 11);
        st.emit(movf(at(scr, 1))).emit(w_op(Op::Subwf, at(scr, 6))).emit(movwf(cnt)).emit(
            movf(at(scr, 6)),
        ).emit(movwf(at(scr, 1))).emit(clrf(at(scr, 6)))
    }

    #[verifier::rlimit(50)]
    proof fn lemma_fadd_distance(&self, st: St, scr: u32, base: int, m: Machine)
        requires
            under_way(st, base, m),
            scr <= 0xFFFF,
            exec(st.rows, base, m).flow is Next ==> exec(st.rows, base, m).ram[at(scr, 1)] <= exec(
                st.rows,
                base,
                m,
            ).ram[at(scr, 6)],
        ensures
            ({
                let b = exec(st.rows, base, m);
                let s = self.fadd_distance(st, scr);
                let a = exec(s.rows, base, m);
                let (x, y) = (b.ram[at(scr, 1)], b.ram[at(scr, 6)]);
                &&& under_way(s, base, m)
                &&& b.flow is Next ==> {
                    &&& a.flow is Next
                    &&& a.ram[at(scr, 11)] == y - x
                    &&& a.ram[at(scr, 1)] == y
                    &&& a.ram[at(scr, 6)] == 0
                    &&& a.ram[scr] == b.ram[scr] && a.ram[at(scr, 5)] == b.ram[at(scr, 5)]
                    &&& three(a, at(scr, 2)) == three(b, at(scr, 2))
                    &&& three(a, at(scr, 7)) == three(b, at(scr, 7))
                    &&& rest_kept(b, a, scr)
                }
                &&& b.flow is Seek ==> a == b
            }),
    {
        let b = exec(st.rows, base, m);
        let s = self.fadd_distance(st, scr);
        let a = exec(s.rows, base, m);
        let (x, y) = (b.ram[at(scr, 1)], b.ram[at(scr, 6)]);
        assert(base <= s.rows.len());
        if b.flow is Next {
            assert(a.core == b.core && a.flow is Next && a.ram == b.ram.insert(
                at(scr, 11),
                (y - x) as u8,
            ).insert(at(scr, 1), y).insert(at(scr, 6), 0)) by {
                broadcast use group_exec;

            }
        } else {
            assert(a == b) by {
                broadcast use group_exec;

            }
        }
    }

    /// The clamp of the distance, and the way to the shifts or past them.
    pub open spec fn fadd_clamp(&self, st: St, scr: u32, l: u32) -> St {
        let cnt = at(scr, 11);
        st.emit(movlw(0x1F)).emit(w_op(Op::Subwf, cnt)).emit(on_c(BitOp::Btfss)).emit(
            goto_tmp(label_at(l, 5)),
        ).emit(movlw(0x1F)).emit(movwf(cnt)).emit(label_tmp(label_at(l, 5))).emit(movf(cnt)).emit(
            on_z(BitOp::Btfss),
        ).emit(goto_tmp(label_at(l, 6))).emit(goto_tmp(label_at(l, 7)))
    }

    #[verifier::rlimit(50)]
    proof fn lemma_fadd_clamp(&self, st: St, scr: u32, l: u32, base: int, m: Machine)
        requires
            under_way(st, base, m),
            scr <= 0xFFFF,
            l <= u32::MAX - 50,
            exec(st.rows, base, m).flow is Next || returning(exec(st.rows, base, m).flow, l),
        ensures
            ({
                let b = exec(st.rows, base, m);
                let s = self.fadd_clamp(st, scr, l);
                let a = exec(s.rows, base, m);
                let x = b.ram[at(scr, 11)];
                &&& under_way(s, base, m)
                &&& b.flow is Next ==> {
                    &&& a.ram[at(scr, 11)] == (if x >= 31 {
                        31u8
                    } else {
                        x
                    })
                    &&& forall|y: u32| y != at(scr, 11) ==> #[trigger] a.ram[y] == b.ram[y]
                    &&& a.flow == (if x == 0 {
                        tmp(l, 7)
                    } else {
                        tmp(l, 6)
                    })
                }
                &&& returning(b.flow, l) ==> a == b
            }),
    {
        let b = exec(st.rows, base, m);
        let s = self.fadd_clamp(st, scr, l);
        let a = exec(s.rows, base, m);
        let x = b.ram[at(scr, 11)];
        assert(base <= s.rows.len());
        if returning(b.flow, l) {
            assert(a == b) by {
                broadcast use group_exec;

            }
        } else if x >= 31 {
            assert(a.core == b.core && a.flow == tmp(l, 6) && a.ram == b.ram.insert(at(scr, 11), 31)) by {
                broadcast use group_exec;

            }
        } else {
            assert(a.core == b.core && a.ram == b.ram && a.flow == (if x == 0 {
                tmp(l, 7)
            } else {
                tmp(l, 6)
            })) by {
                broadcast use group_exec;

            }
        }
    }

    /// What the alignment does before its loop.
    pub open spec fn fadd_align_head(&self, st: St, scr: u32, l: u32) -> St {
        self.fadd_clamp(self.fadd_distance(self.fadd_exchange(st, scr, l), scr), scr, l)
    }

    pub(crate) proof fn lemma_fadd_align_head(&self, st: St, scr: u32, l: u32, base: int, m: Machine)
        requires
            under_way(st, base, m),
            scr <= 0xFFFF,
            l <= u32::MAX - 50,
            exec(st.rows, base, m).flow is Next || returning(exec(st.rows, base, m).flow, l),
        ensures
            ({
                let b = exec(st.rows, base, m);
                let s = self.fadd_align_head(st, scr, l);
                let a = exec(s.rows, base, m);
                let (ea, eb) = (b.ram[at(scr, 1)], b.ram[at(scr, 6)]);
                let d = if ea >= eb {
                    ea - eb
                } else {
                    eb - ea
                };
                &&& under_way(s, base, m)
                &&& b.flow is Next ==> {
                    &&& a.flow == (if d == 0 {
                        tmp(l, 7)
                    } else {
                        tmp(l, 6)
                    })
                    &&& a.ram[at(scr, 11)] == (if d >= 31 {
                        31
                    } else {
                        d
                    })
                    &&& a.ram[at(scr, 6)] == 0
                    &&& if ea >= eb {
                        &&& a.ram[scr] == b.ram[at(scr, 5)] && a.ram[at(scr, 5)] == b.ram[scr]
                        &&& a.ram[at(scr, 1)] == ea
                        &&& three(a, at(scr, 2)) == three(b, at(scr, 7))
                        &&& three(a, at(scr, 7)) == three(b, at(scr, 2))
                    } else {
                        &&& a.ram[scr] == b.ram[scr] && a.ram[at(scr, 5)] == b.ram[at(scr, 5)]
                        &&& a.ram[at(scr, 1)] == eb
                        &&& three(a, at(scr, 2)) == three(b, at(scr, 2))
                        &&& three(a, at(scr, 7)) == three(b, at(scr, 7))
                    }
                    &&& rest_kept(b, a, scr)
                }
                &&& returning(b.flow, l) ==> a == b
            }),
    {
        let b = exec(st.rows, base, m);
        let s1 = self.fadd_exchange(st, scr, l);
        self.lemma_fadd_exchange(st, scr, l, base, m);
        let c1 = exec(s1.rows, base, m);
        let s2 = self.fadd_distance(s1, scr);
        self.lemma_fadd_distance(s1, scr, base, m);
        let c2 = exec(s2.rows, base, m);
        self.lemma_fadd_clamp(s2, scr, l, base, m);
        if b.flow is Next {
            let a = exec(self.fadd_align_head(st, scr, l).rows, base, m);
            assert(parts_kept(c2, a, scr) && rest_kept(c2, a, scr));
        }
    }

    /// The carry rotated into the window from above.
    pub open spec fn right_window(&self, st: St, scr: u32) -> St {
        st.emit(f_op(Op::Rrf, at(scr, 13))).emit(f_op(Op::Rrf, at(scr, 12))).emit(
            f_op(Op::Rrf, at(scr, 6)),
        )
    }

    proof fn lemma_right_window(&self, st: St, scr: u32, base: int, m: Machine)
        requires
            ready(st, base, m),
            scr <= 0xFFFF,
        ensures
            ({
                let b = exec(st.rows, base, m);
                let s = self.right_window(st, scr);
                let a = exec(s.rows, base, m);
                &&& ready(s, base, m)
                &&& 2 * window(a, scr) + flag(a.c) == window(b, scr) + 0x100_0000 * flag(b.c)
                &&& forall|y: u32|
                    y != at(scr, 6) && y != at(scr, 12) && y != at(scr, 13) ==> #[trigger] a.ram[y]
                        == b.ram[y]
            }),
    {
        let b = exec(st.rows, base, m);
        let s = self.right_window(st, scr);
        let a = exec(s.rows, base, m);
        let (x, y, z) = (
            b.ram[at(scr, 6)] as int,
            b.ram[at(scr, 12)] as int,
            b.ram[at(scr, 13)] as int,
        );
        assert(ready(s, base, m) && a.ram[at(scr, 13)] == z / 2 + 128 * flag(b.c) && a.ram[at(scr, 12)]
            == y / 2 + 128 * (z % 2) && a.ram[at(scr, 6)] == x / 2 + 128 * (y % 2) && flag(a.c) == x % 2
            && (forall|u: u32|
            u != at(scr, 6) && u != at(scr, 12) && u != at(scr, 13) ==> #[trigger] a.ram[u] == b.ram[u])) by {
            broadcast use group_exec;

        }
    }

    /// The round bit and the sticky bit after a shift.
    pub open spec fn fadd_stick(&self, st: St, scr: u32) -> St {
        let stick = at(scr, 10);
        let ta2 = at(scr, 13);
        st.emit(on_c(BitOp::Btfsc)).emit(ram_bit(BitOp::Bsf, stick, 1)).emit(
            ram_bit(BitOp::Btfsc, ta2, 7),
        ).emit(ram_bit(BitOp::Bsf, stick, 0)).emit(ram_bit(BitOp::Btfss, ta2, 7)).emit(
            ram_bit(BitOp::Bcf, stick, 0),
        )
    }

    #[verifier::rlimit(50)]
    proof fn lemma_fadd_stick(&self, st: St, scr: u32, base: int, m: Machine)
        requires
            ready(st, base, m),
            scr <= 0xFFFF,
            exec(st.rows, base, m).ram[at(scr, 10)] < 4,
        ensures
            ({
                let b = exec(st.rows, base, m);
                let s = self.fadd_stick(st, scr);
                let a = exec(s.rows, base, m);
                let x = b.ram[at(scr, 10)];
                &&& ready(s, base, m)
                &&& a.ram[at(scr, 10)] == flag(b.ram[at(scr, 13)] >= 128) + 2 * flag(x >= 2 || b.c)
                &&& forall|y: u32| y != at(scr, 10) ==> #[trigger] a.ram[y] == b.ram[y]
            }),
    {
        let b = exec(st.rows, base, m);
        let s = self.fadd_stick(st, scr);
        let a = exec(s.rows, base, m);
        let x = b.ram[at(scr, 10)];
        let s1 = st.emit(on_c(BitOp::Btfsc)).emit(ram_bit(BitOp::Bsf, at(scr, 10), 1));
        let c1 = exec(s1.rows, base, m);
        assert(ready(s1, base, m) && c1.core == b.core && c1.ram[at(scr, 10)] == x % 2 + 2 * flag(
            x >= 2 || b.c,
        ) && (forall|y: u32| y != at(scr, 10) ==> #[trigger] c1.ram[y] == b.ram[y])) by {
            broadcast use group_exec;

        }
        let z = c1.ram[at(scr, 10)];
        if b.ram[at(scr, 13)] >= 128 {
            assert(ready(s, base, m) && a.ram[at(scr, 10)] == 1 + 2 * (z / 2) && (forall|y: u32|
                y != at(scr, 10) ==> #[trigger] a.ram[y] == c1.ram[y])) by {
                broadcast use group_exec;

            }
        } else {
            assert(ready(s, base, m) && a.ram[at(scr, 10)] == 2 * (z / 2) && (forall|y: u32|
                y != at(scr, 10) ==> #[trigger] a.ram[y] == c1.ram[y])) by {
                broadcast use group_exec;

            }
        }
    }

    /// One turn of the alignment.
    pub open spec fn fadd_turn(&self, st: St, scr: u32, l: u32) -> St {
        let s = self.right3(
            st.emit(label_tmp(label_at(l, 6))).emit(on_c(BitOp::Bcf)),
            at(scr, 2),
        );
        self.fadd_stick(self.right_window(s, scr), scr).emit(f_op(Op::Decfsz, at(scr, 11))).emit(
            goto_tmp(label_at(l, 6)),
        )
    }

    pub(crate) proof fn lemma_fadd_turn(&self, st: St, scr: u32, l: u32, base: int, m: Machine)
        requires
            under_way(st, base, m),
            scr <= 0xFFFF,
            l <= u32::MAX - 50,
            exec(st.rows, base, m).flow == tmp(l, 6),
            exec(st.rows, base, m).ram[at(scr, 10)] < 4,
            exec(st.rows, base, m).ram[at(scr, 11)] > 0,
        ensures
            ({
                let b = exec(st.rows, base, m);
                let s = self.fadd_turn(st, scr, l);
                let a = exec(s.rows, base, m);
                &&& under_way(s, base, m)
                &&& a.flow == (if b.ram[at(scr, 11)] == 1 {
                    Flow::Next
                } else {
                    tmp(l, 6)
                })
                &&& a.ram[at(scr, 11)] == b.ram[at(scr, 11)] - 1
                &&& wide(a, scr) == wide(b, scr) / 2
                &&& a.ram[at(scr, 10)] == flag(window(a, scr) >= 0x80_0000) + 2 * flag(
                    b.ram[at(scr, 10)] >= 2 || wide(b, scr) % 2 == 1,
                )
                &&& a.ram[scr] == b.ram[scr] && a.ram[at(scr, 1)] == b.ram[at(scr, 1)] && a.ram[at(
                    scr,
                    5,
                )] == b.ram[at(scr, 5)]
                &&& three(a, at(scr, 7)) == three(b, at(scr, 7))
            }),
    {
        let b = exec(st.rows, base, m);
        let s1 = st.emit(label_tmp(label_at(l, 6))).emit(on_c(BitOp::Bcf));
        let c1 = exec(s1.rows, base, m);
        assert(ready(s1, base, m) && c1.core == b.core && c1.ram == b.ram && !c1.c) by {
            broadcast use group_exec;

        }
        let s2 = self.right3(s1, at(scr, 2));
        self.lemma_right3(s1, at(scr, 2), base, m);
        let c2 = exec(s2.rows, base, m);
        let s3 = self.right_window(s2, scr);
        self.lemma_right_window(s2, scr, base, m);
        let c3 = exec(s3.rows, base, m);
        assert(three(c1, at(scr, 2)) == three(b, at(scr, 2)));
        assert(window(c2, scr) == window(b, scr));
        assert(three(c3, at(scr, 2)) == three(c2, at(scr, 2)));
        assert(2 * wide(c3, scr) + flag(c3.c) == wide(b, scr));
        let s4 = self.fadd_stick(s3, scr);
        self.lemma_fadd_stick(s3, scr, base, m);
        let c4 = exec(s4.rows, base, m);
        lemma_count_down(s4, at(scr, 11), label_at(l, 6), base, m);
        let a = exec(self.fadd_turn(st, scr, l).rows, base, m);
        assert(c4.ram[at(scr, 11)] == b.ram[at(scr, 11)]);
        assert(window(a, scr) == window(c3, scr) && three(a, at(scr, 2)) == three(c3, at(scr, 2)));
        assert(window(a, scr) >= 0x80_0000 <==> c3.ram[at(scr, 13)] >= 128);
        assert(three(a, at(scr, 7)) == three(b, at(scr, 7)));
    }

    /// The rows of a turn are passed over.
    pub(crate) proof fn lemma_fadd_turn_over(&self, st: St, scr: u32, l: u32, base: int, m: Machine)
        requires
            under_way(st, base, m),
            l <= u32::MAX - 50,
            exec(st.rows, base, m).flow is Seek,
            exec(st.rows, base, m).flow != tmp(l, 6),
        ensures
            under_way(self.fadd_turn(st, scr, l), base, m),
            exec(self.fadd_turn(st, scr, l).rows, base, m) == exec(st.rows, base, m),
    {
        broadcast use group_exec;

    }

    /// The alignment is its head, its loop and a label.
    pub(crate) proof fn lemma_fadd_align_rows(&self, st: St, scr: u32, l: u32)
        ensures
            self.addf_align(st, scr, l) == self.fadd_turn(
                self.fadd_align_head(st, scr, l),
                scr,
                l,
            ).emit(label_tmp(label_at(l, 7))),
            self.addf_align(st, scr, l).next == st.next,
    {
        reveal(Gen::addf_align);
    }
}

} // verus!
