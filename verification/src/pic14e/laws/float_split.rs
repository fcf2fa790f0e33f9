//! The end of the float quotient: its bits brought to one scale and rounded.
use vstd::prelude::*;
use crate::emit::{
    at, clrf, f_op, goto_tmp, label_at, label_tmp, lit, movf, movlw, on_c, on_z, ram_bit, w_op, St,
};
use crate::line::{BitOp, LitOp, Op};
use crate::machine::{exec, group_exec, with_bit, Flow, Machine};
use crate::meaning::{flag, word};
use crate::pic14e::laws::float_chain::three;
use crate::pic14e::laws::float_div::{inner, looping, quotient_slots};
use crate::pic14e::laws::float_int::{tmp, under_way};
use crate::pic14e::laws::float_mul::holds_exponent;
use crate::pic14e::laws::float_order::lemma_masks;
use crate::pic14e::laws::float_product::lemma_top_bit;
use crate::pic14e::laws::float_round::{mantissa, packed_float};
use crate::pic14e::laws::float_step::lemma_four;
use crate::pic14e::laws::ready;
use crate::pic14e::Gen;

verus! {

/// Whether a mantissa is rounded up, by the bit below it, the rest below that and
/// its own lowest bit.
pub open spec fn goes_up(guard: bool, rest: bool, odd: bool) -> bool {
    guard && (rest || odd)
}

/// What the bits of a quotient round to: `w` is the mantissa and the bit below it,
/// `t` is whether anything is left.
pub open spec fn rounded(w: int, t: bool) -> int {
    w / 2 + flag(goes_up(w % 2 == 1, t, (w / 2) % 2 == 1))
}

/// Whether the bytes of a quotient hold these bits at the exponent `e`.
pub open spec fn lowering(
    m: Machine,
    pa: u32,
    scr: u32,
    w: int,
    t: bool,
    e: int,
    neg: bool,
) -> bool {
    &&& m.core is Enhanced
    &&& three(m, pa) == w / 2
    &&& m.ram[at(scr, 11)] == w % 2 + 2 * flag(t)
    &&& holds_exponent(m, scr, e)
    &&& e <= 500
    &&& (m.ram[scr] >= 128) == neg
}

/// Whether bits at an exponent can be rounded there: a mantissa without its top bit
/// is at exponent one or below, and nothing carries out of the exponent byte.
pub open spec fn rounds(w: int, t: bool, e: int) -> bool {
    &&& e != 256
    &&& e > 1 ==> w >= 0x100_0000
    &&& e >= 1 ==> rounded(w, t) < 0x100_0000
}

impl<'a> Gen<'a> {
    /// The sticky bit of a remainder.
    pub open spec fn fdiv_sticky(&self, st: St, scr: u32, l: u32) -> St {
        st.emit(movf(at(scr, 3))).emit(w_op(Op::Iorwf, at(scr, 4))).emit(
            w_op(Op::Iorwf, at(scr, 5)),
        ).emit(w_op(Op::Iorwf, at(scr, 6))).emit(on_z(BitOp::Btfsc)).emit(
            goto_tmp(label_at(l, 11)),
        ).emit(ram_bit(BitOp::Bsf, at(scr, 11), 1))
    }

    #[verifier::rlimit(50)]
    proof fn lemma_fdiv_sticky(&self, st: St, scr: u32, l: u32, base: int, m: Machine)
        requires
            ready(st, base, m),
            scr <= 0xFFFF,
            l <= u32::MAX - 50,
            exec(st.rows, base, m).ram[at(scr, 11)] < 4,
        ensures
            ({
                let b = exec(st.rows, base, m);
                let s = self.fdiv_sticky(st, scr, l);
                let a = exec(s.rows, base, m);
                let x = b.ram[at(scr, 11)];
                &&& under_way(s, base, m)
                &&& if word(b, at(scr, 3), 4) == 0 {
                    a.flow == tmp(l, 11) && a.ram == b.ram
                } else {
                    a.flow is Next && a.ram == b.ram.insert(at(scr, 11), (2 + x % 2) as u8)
                }
            }),
    {
        let b = exec(st.rows, base, m);
        let s = self.fdiv_sticky(st, scr, l);
        let a = exec(s.rows, base, m);
        let x = b.ram[at(scr, 11)];
        lemma_masks();
        assert(base <= s.rows.len());
        if word(b, at(scr, 3), 4) == 0 {
            assert(b.ram[at(scr, 3)] == 0 && b.ram[at(scr, 4)] == 0 && b.ram[at(scr, 5)] == 0
                && b.ram[at(scr, 6)] == 0);
            assert(a.core == b.core && a.flow == tmp(l, 11) && a.ram == b.ram) by {
                broadcast use group_exec;

            }
        } else {
            assert(a.core == b.core && a.flow is Next && a.ram == b.ram.insert(
                at(scr, 11),
                (2 + x % 2) as u8,
            )) by {
                broadcast use group_exec;

            }
        }
    }

    /// The carry set to the lowest bit of the top byte.
    pub open spec fn fdiv_top(&self, st: St, pa: u32) -> St {
        st.emit(on_c(BitOp::Bcf)).emit(ram_bit(BitOp::Btfsc, at(pa, 3), 0)).emit(on_c(BitOp::Bsf))
    }

    #[verifier::rlimit(50)]
    proof fn lemma_fdiv_top(&self, st: St, pa: u32, base: int, m: Machine)
        requires
            ready(st, base, m),
        ensures
            ({
                let b = exec(st.rows, base, m);
                let s = self.fdiv_top(st, pa);
                let a = exec(s.rows, base, m);
                &&& ready(s, base, m)
                &&& a.core == b.core
                &&& a.ram == b.ram
                &&& a.c == (b.ram[at(pa, 3)] % 2 == 1)
            }),
    {
        broadcast use group_exec;

    }

    /// A quotient below one: the exponent is one less.
    pub open spec fn fdiv_split_low(&self, st: St, pa: u32, scr: u32, l: u32) -> St {
        let s1 = st.emit(ram_bit(BitOp::Btfsc, at(scr, 11), 0)).emit(goto_tmp(label_at(l, 6))).emit(
            movlw(0x01),
        ).emit(f_op(Op::Subwf, at(scr, 1)));
        let s2 = self.right3(self.fdiv_top(s1, pa), pa).emit(clrf(at(scr, 11))).emit(
            on_c(BitOp::Btfsc),
        ).emit(ram_bit(BitOp::Bsf, at(scr, 11), 0));
        self.fdiv_sticky(s2, scr, l).emit(goto_tmp(label_at(l, 11)))
    }

    /// A quotient of one or more.
    pub open spec fn fdiv_split_high(&self, st: St, pa: u32, scr: u32, l: u32) -> St {
        let s1 = self.right3(self.fdiv_top(st.emit(label_tmp(label_at(l, 6))), pa), pa).emit(
            clrf(at(scr, 11)),
        ).emit(on_c(BitOp::Btfsc)).emit(ram_bit(BitOp::Bsf, at(scr, 11), 1)).emit(
            on_c(BitOp::Bcf),
        );
        let s2 = self.right3(s1, pa).emit(on_c(BitOp::Btfsc)).emit(
            ram_bit(BitOp::Bsf, at(scr, 11), 0),
        ).emit(ram_bit(BitOp::Bsf, at(pa, 2), 7));
        self.fdiv_sticky(s2, scr, l)
    }

    #[verifier::rlimit(50)]
    proof fn lemma_fdiv_split_low(
        &self,
        st: St,
        pa: u32,
        pb: u32,
        scr: u32,
        l: u32,
        base: int,
        m: Machine,
    )
        requires
            under_way(st, base, m),
            exec(st.rows, base, m).flow is Next,
            quotient_slots(pa, pb, scr, self.retval),
            l <= u32::MAX - 50,
            ({
                let b = exec(st.rows, base, m);
                &&& b.ram[at(scr, 11)] == 0
                &&& b.ram[at(scr, 1)] > 0
                &&& word(b, pa, 4) < 0x200_0000
            }),
        ensures
            ({
                let b = exec(st.rows, base, m);
                let s = self.fdiv_split_low(st, pa, scr, l);
                let a = exec(s.rows, base, m);
                let q = word(b, pa, 4);
                &&& under_way(s, base, m)
                &&& a.flow == tmp(l, 11)
                &&& three(a, pa) == q / 2
                &&& a.ram[at(scr, 11)] == q % 2 + 2 * flag(word(b, at(scr, 3), 4) != 0)
                &&& a.ram[at(scr, 1)] == b.ram[at(scr, 1)] - 1
                &&& a.ram[scr] == b.ram[scr]
                &&& a.ram[at(scr, 2)] == b.ram[at(scr, 2)]
                &&& a.core == b.core
            }),
    {
        let b = exec(st.rows, base, m);
        let spare = at(scr, 11);
        let e = at(scr, 1);
        let q = word(b, pa, 4);
        lemma_four(b, pa);
        let s1 = st.emit(ram_bit(BitOp::Btfsc, spare, 0)).emit(goto_tmp(label_at(l, 6))).emit(
            movlw(0x01),
        ).emit(f_op(Op::Subwf, e));
        let c1 = exec(s1.rows, base, m);
        assert(ready(s1, base, m) && c1.core == b.core && c1.ram == b.ram.insert(
            e,
            (b.ram[e] - 1) as u8,
        )) by {
            broadcast use group_exec;

        }
        let s2 = self.fdiv_top(s1, pa);
        self.lemma_fdiv_top(s1, pa, base, m);
        let c2 = exec(s2.rows, base, m);
        let s3 = self.right3(s2, pa);
        self.lemma_right3(s2, pa, base, m);
        let c3 = exec(s3.rows, base, m);
        assert(three(c2, pa) == three(b, pa));
        assert(2 * three(c3, pa) + flag(c3.c) == q);
        let s4 = s3.emit(clrf(spare)).emit(on_c(BitOp::Btfsc)).emit(ram_bit(BitOp::Bsf, spare, 0));
        let c4 = exec(s4.rows, base, m);
        assert(ready(s4, base, m) && c4.core == b.core && c4.ram == c3.ram.insert(
            spare,
            if c3.c {
                1u8
            } else {
                0u8
            },
        )) by {
            broadcast use group_exec;

        }
        assert(word(c4, at(scr, 3), 4) == word(b, at(scr, 3), 4));
        let s5 = self.fdiv_sticky(s4, scr, l);
        self.lemma_fdiv_sticky(s4, scr, l, base, m);
        let c5 = exec(s5.rows, base, m);
        let s = self.fdiv_split_low(st, pa, scr, l);
        let a = exec(s.rows, base, m);
        assert(base <= s.rows.len() && a.core == b.core && a.flow == tmp(l, 11) && a.ram == c5.ram) by {
            broadcast use group_exec;

        }
        assert(three(a, pa) == three(c3, pa));
    }

    #[verifier::rlimit(50)]
    proof fn lemma_fdiv_split_high(
        &self,
        st: St,
        pa: u32,
        pb: u32,
        scr: u32,
        l: u32,
        base: int,
        m: Machine,
    )
        requires
            under_way(st, base, m),
            exec(st.rows, base, m).flow == tmp(l, 6),
            quotient_slots(pa, pb, scr, self.retval),
            l <= u32::MAX - 50,
            word(exec(st.rows, base, m), pa, 4) < 0x200_0000,
        ensures
            ({
                let b = exec(st.rows, base, m);
                let s = self.fdiv_split_high(st, pa, scr, l);
                let a = exec(s.rows, base, m);
                let q = word(b, pa, 4);
                &&& under_way(s, base, m)
                &&& a.flow is Next || a.flow == tmp(l, 11)
                &&& three(a, pa) == 0x80_0000 + q / 4
                &&& a.ram[at(scr, 11)] == (q / 2) % 2 + 2 * flag(
                    q % 2 == 1 || word(b, at(scr, 3), 4) != 0,
                )
                &&& a.ram[at(scr, 1)] == b.ram[at(scr, 1)]
                &&& a.ram[scr] == b.ram[scr]
                &&& a.ram[at(scr, 2)] == b.ram[at(scr, 2)]
                &&& a.core == b.core
            }),
    {
        let b = exec(st.rows, base, m);
        let spare = at(scr, 11);
        let q = word(b, pa, 4);
        lemma_four(b, pa);
        let s1 = st.emit(label_tmp(label_at(l, 6)));
        let c1 = exec(s1.rows, base, m);
        assert(ready(s1, base, m) && c1.core == b.core && c1.ram == b.ram) by {
            broadcast use group_exec;

        }
        let s2 = self.fdiv_top(s1, pa);
        self.lemma_fdiv_top(s1, pa, base, m);
        let c2 = exec(s2.rows, base, m);
        let s3 = self.right3(s2, pa);
        self.lemma_right3(s2, pa, base, m);
        let c3 = exec(s3.rows, base, m);
        assert(three(c2, pa) == three(b, pa));
        assert(2 * three(c3, pa) + flag(c3.c) == q);
        let s4 = s3.emit(clrf(spare)).emit(on_c(BitOp::Btfsc)).emit(
            ram_bit(BitOp::Bsf, spare, 1),
        ).emit(on_c(BitOp::Bcf));
        let c4 = exec(s4.rows, base, m);
        assert(ready(s4, base, m) && c4.core == b.core && !c4.c && c4.ram == c3.ram.insert(
            spare,
            if c3.c {
                2u8
            } else {
                0u8
            },
        )) by {
            broadcast use group_exec;

        }
        let s5 = self.right3(s4, pa);
        self.lemma_right3(s4, pa, base, m);
        let c5 = exec(s5.rows, base, m);
        assert(three(c4, pa) == three(c3, pa));
        lemma_four(c5, pa);
        assert(three(c5, pa) == q / 4);
        lemma_top_bit(c5, pa, at(pa, 1), at(pa, 2));
        let s6 = s5.emit(on_c(BitOp::Btfsc)).emit(ram_bit(BitOp::Bsf, spare, 0)).emit(
            ram_bit(BitOp::Bsf, at(pa, 2), 7),
        );
        let c6 = exec(s6.rows, base, m);
        let x = c5.ram[spare];
        assert(x == 2 * flag(c3.c));
        assert(c5.ram[at(pa, 2)] < 128);
        assert(ready(s6, base, m) && c6.core == b.core && c6.ram == c5.ram.insert(
            spare,
            (x + flag(c5.c)) as u8,
        ).insert(at(pa, 2), (c5.ram[at(pa, 2)] + 128) as u8)) by {
            broadcast use group_exec;

        }
        assert(word(c6, at(scr, 3), 4) == word(b, at(scr, 3), 4));
        let s = self.fdiv_sticky(s6, scr, l);
        self.lemma_fdiv_sticky(s6, scr, l, base, m);
        let a = exec(s.rows, base, m);
        assert(three(c6, pa) == three(c5, pa) + 0x80_0000);
        assert(three(a, pa) == three(c6, pa));
    }

    #[verifier::rlimit(50)]
    proof fn lemma_fdiv_split_low_over(
        &self,
        st: St,
        pa: u32,
        scr: u32,
        l: u32,
        base: int,
        m: Machine,
    )
        requires
            under_way(st, base, m),
            l <= u32::MAX - 50,
            ({
                let b = exec(st.rows, base, m);
                looping(b.flow, l) || b.flow is Next && b.ram[at(scr, 11)] == 1
            }),
        ensures
            ({
                let b = exec(st.rows, base, m);
                let s = self.fdiv_split_low(st, pa, scr, l);
                let a = exec(s.rows, base, m);
                &&& under_way(s, base, m)
                &&& b.flow is Next ==> a.flow == tmp(l, 6) && a.ram == b.ram
                &&& looping(b.flow, l) ==> a == b
            }),
    {
        let b = exec(st.rows, base, m);
        let s1 = st.emit(ram_bit(BitOp::Btfsc, at(scr, 11), 0)).emit(goto_tmp(label_at(l, 6)));
        let c1 = exec(s1.rows, base, m);
        assert(base <= s1.rows.len() && c1.core == b.core && c1.ram == b.ram && (b.flow is Next
            ==> c1.flow == tmp(l, 6)) && (b.flow is Seek ==> c1 == b)) by {
            broadcast use group_exec;

        }
        let s2 = self.right3(self.fdiv_top(s1.emit(movlw(0x01)).emit(f_op(Op::Subwf, at(scr, 1))), pa), pa);
        assert(base <= s2.rows.len() && exec(s2.rows, base, m) == c1) by {
            broadcast use group_exec;

        }
        let s = self.fdiv_split_low(st, pa, scr, l);
        assert(base <= s.rows.len() && exec(s.rows, base, m) == c1) by {
            broadcast use group_exec;

        }
    }

    #[verifier::rlimit(50)]
    proof fn lemma_fdiv_split_high_over(
        &self,
        st: St,
        pa: u32,
        scr: u32,
        l: u32,
        base: int,
        m: Machine,
    )
        requires
            under_way(st, base, m),
            l <= u32::MAX - 50,
            exec(st.rows, base, m).flow == tmp(l, 11) || looping(exec(st.rows, base, m).flow, l),
        ensures
            ({
                let s = self.fdiv_split_high(st, pa, scr, l);
                under_way(s, base, m) && exec(s.rows, base, m) == exec(st.rows, base, m)
            }),
    {
        let b = exec(st.rows, base, m);
        let s1 = self.right3(self.fdiv_top(st.emit(label_tmp(label_at(l, 6))), pa), pa);
        assert(base <= s1.rows.len() && exec(s1.rows, base, m) == b) by {
            broadcast use group_exec;

        }
        let s = self.fdiv_split_high(st, pa, scr, l);
        assert(base <= s.rows.len() && exec(s.rows, base, m) == b) by {
            broadcast use group_exec;

        }
    }

    /// The split: 24 bits of the quotient, the bit below them, and whether
    /// anything is left.
    #[verifier::rlimit(50)]
    pub(crate) proof fn lemma_fdiv_split(
        &self,
        st: St,
        pa: u32,
        pb: u32,
        scr: u32,
        l: u32,
        base: int,
        m: Machine,
    )
        requires
            under_way(st, base, m),
            quotient_slots(pa, pb, scr, self.retval),
            l <= u32::MAX - 50,
            ({
                let b = exec(st.rows, base, m);
                ||| looping(b.flow, l)
                ||| b.flow is Next && b.ram[at(scr, 11)] <= 1 && b.ram[at(scr, 11)] + b.ram[at(scr, 1)]
                    > 0 && word(b, pa, 4) < 0x200_0000
            }),
        ensures
            ({
                let b = exec(st.rows, base, m);
                let s = self.divf_split(st, pa, scr, l);
                let a = exec(s.rows, base, m);
                let q = word(b, pa, 4);
                let left = word(b, at(scr, 3), 4) != 0;
                &&& under_way(s, base, m)
                &&& s.next == st.next
                &&& b.flow is Next ==> {
                    &&& a.flow is Next || a.flow == tmp(l, 11)
                    &&& a.ram[scr] == b.ram[scr]
                    &&& a.ram[at(scr, 2)] == b.ram[at(scr, 2)]
                    &&& a.core == b.core
                    &&& if b.ram[at(scr, 11)] == 0 {
                        &&& three(a, pa) == q / 2
                        &&& a.ram[at(scr, 11)] == q % 2 + 2 * flag(left)
                        &&& a.ram[at(scr, 1)] == b.ram[at(scr, 1)] - 1
                    } else {
                        &&& three(a, pa) == 0x80_0000 + q / 4
                        &&& a.ram[at(scr, 11)] == (q / 2) % 2 + 2 * flag(q % 2 == 1 || left)
                        &&& a.ram[at(scr, 1)] == b.ram[at(scr, 1)]
                    }
                }
                &&& looping(b.flow, l) ==> a == b
            }),
    {
        let b = exec(st.rows, base, m);
        let s1 = self.fdiv_split_low(st, pa, scr, l);
        let c1 = exec(s1.rows, base, m);
        let s2 = self.fdiv_split_high(s1, pa, scr, l);
        assert(self.divf_split(st, pa, scr, l) == s2) by {
            reveal(Gen::divf_split);
        }
        if b.flow is Next && b.ram[at(scr, 11)] == 0 {
            self.lemma_fdiv_split_low(st, pa, pb, scr, l, base, m);
            self.lemma_fdiv_split_high_over(s1, pa, scr, l, base, m);
        } else {
            self.lemma_fdiv_split_low_over(st, pa, scr, l, base, m);
            if b.flow is Next {
                assert(word(c1, pa, 4) == word(b, pa, 4));
                assert(word(c1, at(scr, 3), 4) == word(b, at(scr, 3), 4));
                self.lemma_fdiv_split_high(s1, pa, pb, scr, l, base, m);
            } else {
                self.lemma_fdiv_split_high_over(s1, pa, scr, l, base, m);
            }
        }
    }

    /// The way to the rounding for a normal exponent.
    pub open spec fn fdiv_normal(&self, st: St, scr: u32, l: u32) -> St {
        let e = at(scr, 1);
        st.emit(label_tmp(label_at(l, 11))).emit(ram_bit(BitOp::Btfsc, at(e, 1), 7)).emit(
            goto_tmp(label_at(l, 16)),
        ).emit(movf(e)).emit(on_z(BitOp::Btfss)).emit(goto_tmp(label_at(l, 12)))
    }

    /// The shifts for an exponent below one.
    pub open spec fn fdiv_below(&self, st: St, pa: u32, scr: u32, l: u32) -> St {
        let e = at(scr, 1);
        let spare = at(scr, 11);
        st.emit(goto_tmp(label_at(l, 16))).emit(label_tmp(label_at(l, 16))).emit(
            ram_bit(BitOp::Btfsc, spare, 0),
        ).emit(ram_bit(BitOp::Bsf, spare, 1)).emit(on_c(BitOp::Bcf)).emit(
            f_op(Op::Rrf, at(pa, 2)),
        ).emit(f_op(Op::Rrf, at(pa, 1))).emit(f_op(Op::Rrf, pa)).emit(
            ram_bit(BitOp::Bcf, spare, 0),
        ).emit(on_c(BitOp::Btfsc)).emit(ram_bit(BitOp::Bsf, spare, 0)).emit(f_op(Op::Incf, e)).emit(
            on_z(BitOp::Btfsc),
        ).emit(f_op(Op::Incf, at(e, 1))).emit(goto_tmp(label_at(l, 11)))
    }

    /// The test whether to round the quotient up.
    pub open spec fn fdiv_test(&self, st: St, pa: u32, scr: u32, l: u32) -> St {
        let spare = at(scr, 11);
        st.emit(label_tmp(label_at(l, 12))).emit(ram_bit(BitOp::Btfss, spare, 0)).emit(
            goto_tmp(label_at(l, 15)),
        ).emit(ram_bit(BitOp::Btfsc, spare, 1)).emit(goto_tmp(label_at(l, 13))).emit(
            ram_bit(BitOp::Btfsc, pa, 0),
        ).emit(goto_tmp(label_at(l, 13))).emit(goto_tmp(label_at(l, 15))).emit(
            label_tmp(label_at(l, 13)),
        )
    }

    /// The shifts, before and behind the bytes of the mantissa.
    pub open spec fn fdiv_note(&self, st: St, scr: u32, l: u32) -> St {
        st.emit(goto_tmp(label_at(l, 16))).emit(label_tmp(label_at(l, 16))).emit(
            ram_bit(BitOp::Btfsc, at(scr, 11), 0),
        ).emit(ram_bit(BitOp::Bsf, at(scr, 11), 1)).emit(on_c(BitOp::Bcf))
    }

    pub open spec fn fdiv_mark(&self, st: St, scr: u32) -> St {
        st.emit(ram_bit(BitOp::Bcf, at(scr, 11), 0)).emit(on_c(BitOp::Btfsc)).emit(
            ram_bit(BitOp::Bsf, at(scr, 11), 0),
        )
    }

    pub open spec fn fdiv_more(&self, st: St, scr: u32, l: u32) -> St {
        let e = at(scr, 1);
        st.emit(f_op(Op::Incf, e)).emit(on_z(BitOp::Btfsc)).emit(f_op(Op::Incf, at(e, 1))).emit(
            goto_tmp(label_at(l, 11)),
        )
    }

    #[verifier::rlimit(50)]
    proof fn lemma_fdiv_normal(&self, st: St, scr: u32, l: u32, e: int, base: int, m: Machine)
        requires
            under_way(st, base, m),
            scr <= 0xFFFF,
            l <= u32::MAX - 50,
            ({
                let b = exec(st.rows, base, m);
                ||| inner(b.flow, l)
                ||| (b.flow is Next || b.flow == tmp(l, 11)) && holds_exponent(b, scr, e) && e != 256
            }),
        ensures
            ({
                let b = exec(st.rows, base, m);
                let s = self.fdiv_normal(st, scr, l);
                let a = exec(s.rows, base, m);
                &&& under_way(s, base, m)
                &&& inner(b.flow, l) ==> a == b
                &&& !inner(b.flow, l) ==> a.core == b.core && a.ram == b.ram && a.flow == (if e < 0 {
                    tmp(l, 16)
                } else if e == 0 {
                    Flow::Next
                } else {
                    tmp(l, 12)
                })
            }),
    {
        let b = exec(st.rows, base, m);
        let s = self.fdiv_normal(st, scr, l);
        let a = exec(s.rows, base, m);
        assert(base <= s.rows.len());
        assert(at(at(scr, 1), 1) == at(scr, 2));
        if inner(b.flow, l) {
            assert(a == b) by {
                broadcast use group_exec;

            }
        } else if e < 0 {
            assert(b.ram[at(scr, 2)] == 255);
            assert(a.core == b.core && a.ram == b.ram && a.flow == tmp(l, 16)) by {
                broadcast use group_exec;

            }
        } else {
            assert(b.ram[at(scr, 2)] < 128);
            assert(b.ram[at(scr, 1)] == 0 <==> e == 0);
            assert(a.core == b.core && a.ram == b.ram && a.flow == (if b.ram[at(scr, 1)] == 0 {
                Flow::Next
            } else {
                tmp(l, 12)
            })) by {
                broadcast use group_exec;

            }
        }
    }

    #[verifier::rlimit(50)]
    proof fn lemma_fdiv_below_over(&self, st: St, pa: u32, scr: u32, l: u32, base: int, m: Machine)
        requires
            under_way(st, base, m),
            l <= u32::MAX - 50,
            exec(st.rows, base, m).flow == tmp(l, 12) || inner(exec(st.rows, base, m).flow, l),
        ensures
            under_way(self.fdiv_below(st, pa, scr, l), base, m),
            exec(self.fdiv_below(st, pa, scr, l).rows, base, m) == exec(st.rows, base, m),
    {
        broadcast use group_exec;

    }

    #[verifier::rlimit(50)]
    proof fn lemma_fdiv_note(&self, st: St, scr: u32, l: u32, base: int, m: Machine)
        requires
            under_way(st, base, m),
            scr <= 0xFFFF,
            l <= u32::MAX - 50,
            exec(st.rows, base, m).flow is Next || exec(st.rows, base, m).flow == tmp(l, 16),
            exec(st.rows, base, m).ram[at(scr, 11)] < 4,
        ensures
            ({
                let b = exec(st.rows, base, m);
                let s = self.fdiv_note(st, scr, l);
                let a = exec(s.rows, base, m);
                let x = b.ram[at(scr, 11)];
                &&& ready(s, base, m)
                &&& a.core == b.core
                &&& !a.c
                &&& a.ram[at(scr, 11)] == (if x == 1 {
                    3int
                } else {
                    x as int
                })
                &&& forall|y: u32| y != at(scr, 11) ==> #[trigger] a.ram[y] == b.ram[y]
            }),
    {
        let b = exec(st.rows, base, m);
        let s = self.fdiv_note(st, scr, l);
        let a = exec(s.rows, base, m);
        let x = b.ram[at(scr, 11)];
        assert(base <= s.rows.len());
        assert(with_bit(x, 1, true) == (if x >= 2 {
            x as int
        } else {
            x + 2
        }));
        if x % 2 == 1 {
            assert(a.flow is Next && a.core == b.core && !a.c && a.ram == b.ram.insert(
                at(scr, 11),
                with_bit(x, 1, true),
            )) by {
                broadcast use group_exec;

            }
        } else {
            assert(a.flow is Next && a.core == b.core && !a.c && a.ram == b.ram) by {
                broadcast use group_exec;

            }
        }
    }

    #[verifier::rlimit(50)]
    proof fn lemma_fdiv_mark(&self, st: St, scr: u32, base: int, m: Machine)
        requires
            ready(st, base, m),
            exec(st.rows, base, m).ram[at(scr, 11)] < 4,
        ensures
            ({
                let b = exec(st.rows, base, m);
                let s = self.fdiv_mark(st, scr);
                let a = exec(s.rows, base, m);
                &&& ready(s, base, m)
                &&& a.core == b.core
                &&& a.ram[at(scr, 11)] == flag(b.c) + 2 * (b.ram[at(scr, 11)] / 2)
                &&& forall|y: u32| y != at(scr, 11) ==> #[trigger] a.ram[y] == b.ram[y]
            }),
    {
        let b = exec(st.rows, base, m);
        let x = b.ram[at(scr, 11)];
        let y: u8 = if x >= 2 {
            2
        } else {
            0
        };
        let s = self.fdiv_mark(st, scr);
        let a = exec(s.rows, base, m);
        assert(base <= s.rows.len());
        assert(with_bit(x, 0, false) == y);
        assert(with_bit(y, 0, true) == y + 1);
        assert(a.flow is Next && a.core == b.core && a.ram == b.ram.insert(at(scr, 11), y).insert(
            at(scr, 11),
            if b.c {
                (y + 1) as u8
            } else {
                y
            },
        )) by {
            broadcast use group_exec;

        }
    }

    #[verifier::rlimit(50)]
    proof fn lemma_fdiv_more(&self, st: St, scr: u32, l: u32, base: int, m: Machine)
        requires
            ready(st, base, m),
            scr <= 0xFFFF,
            l <= u32::MAX - 50,
        ensures
            ({
                let b = exec(st.rows, base, m);
                let s = self.fdiv_more(st, scr, l);
                let a = exec(s.rows, base, m);
                let (x, y) = (b.ram[at(scr, 1)], b.ram[at(scr, 2)]);
                &&& under_way(s, base, m)
                &&& a.core == b.core
                &&& a.flow == tmp(l, 11)
                &&& a.ram == (if x == 255 {
                    b.ram.insert(at(scr, 1), 0).insert(at(scr, 2), if y == 255 {
                        0
                    } else {
                        (y + 1) as u8
                    })
                } else {
                    b.ram.insert(at(scr, 1), (x + 1) as u8)
                })
            }),
    {
        assert(at(at(scr, 1), 1) == at(scr, 2));
        broadcast use group_exec;

    }

    /// One shift.
    #[verifier::rlimit(50)]
    proof fn lemma_fdiv_below(
        &self,
        st: St,
        pa: u32,
        pb: u32,
        scr: u32,
        l: u32,
        w: int,
        t: bool,
        e: int,
        neg: bool,
        base: int,
        m: Machine,
    )
        requires
            under_way(st, base, m),
            quotient_slots(pa, pb, scr, self.retval),
            l <= u32::MAX - 50,
            exec(st.rows, base, m).flow is Next || exec(st.rows, base, m).flow == tmp(l, 16),
            lowering(exec(st.rows, base, m), pa, scr, w, t, e, neg),
            e < 1,
        ensures
            ({
                let s = self.fdiv_below(st, pa, scr, l);
                let a = exec(s.rows, base, m);
                &&& under_way(s, base, m)
                &&& a.flow == tmp(l, 11)
                &&& lowering(a, pa, scr, w / 2, t || w % 2 == 1, e + 1, neg)
            }),
    {
        let b = exec(st.rows, base, m);
        let s1 = self.fdiv_note(st, scr, l);
        self.lemma_fdiv_note(st, scr, l, base, m);
        let c1 = exec(s1.rows, base, m);
        let s2 = self.right3(s1, pa);
        self.lemma_right3(s1, pa, base, m);
        let c2 = exec(s2.rows, base, m);
        assert(three(c1, pa) == three(b, pa));
        let s3 = self.fdiv_mark(s2, scr);
        self.lemma_fdiv_mark(s2, scr, base, m);
        let c3 = exec(s3.rows, base, m);
        let s4 = self.fdiv_more(s3, scr, l);
        self.lemma_fdiv_more(s3, scr, l, base, m);
        let a = exec(s4.rows, base, m);
        assert(self.fdiv_below(st, pa, scr, l) == s4);
        assert(c3.ram[at(scr, 1)] == b.ram[at(scr, 1)] && c3.ram[at(scr, 2)] == b.ram[at(scr, 2)]);
        assert(c3.ram[scr] == b.ram[scr]);
        assert(three(a, pa) == three(c2, pa));
        assert(a.ram[at(scr, 11)] == c3.ram[at(scr, 11)]);
        assert(2 * three(a, pa) + flag(c2.c) == w / 2);
        assert(holds_exponent(a, scr, e + 1));
    }

    #[verifier::rlimit(50)]
    proof fn lemma_fdiv_test(&self, st: St, pa: u32, scr: u32, l: u32, base: int, m: Machine)
        requires
            under_way(st, base, m),
            l <= u32::MAX - 50,
            ({
                let b = exec(st.rows, base, m);
                looping(b.flow, l) || b.flow == tmp(l, 12) && b.ram[at(scr, 11)] < 4
            }),
        ensures
            ({
                let b = exec(st.rows, base, m);
                let s = self.fdiv_test(st, pa, scr, l);
                let a = exec(s.rows, base, m);
                let x = b.ram[at(scr, 11)];
                &&& under_way(s, base, m)
                &&& looping(b.flow, l) ==> a == b
                &&& !looping(b.flow, l) ==> a.ram == b.ram && a.flow == (if goes_up(
                    x % 2 == 1,
                    x >= 2,
                    b.ram[pa] % 2 == 1,
                ) {
                    Flow::Next
                } else {
                    tmp(l, 15)
                })
            }),
    {
        let b = exec(st.rows, base, m);
        let s = self.fdiv_test(st, pa, scr, l);
        let a = exec(s.rows, base, m);
        assert(base <= s.rows.len());
        let x = b.ram[at(scr, 11)];
        if looping(b.flow, l) {
            assert(a == b) by {
                broadcast use group_exec;

            }
        } else if x % 2 == 0 {
            assert(a.core == b.core && a.ram == b.ram && a.flow == tmp(l, 15)) by {
                broadcast use group_exec;

            }
        } else if (x / 2) % 2 == 1 {
            assert(a.core == b.core && a.ram == b.ram && a.flow is Next) by {
                broadcast use group_exec;

            }
        } else {
            assert(a.core == b.core && a.ram == b.ram && a.flow == (if b.ram[pa] % 2 == 1 {
                Flow::Next
            } else {
                tmp(l, 15)
            })) by {
                broadcast use group_exec;

            }
        }
    }

    /// The rows for a result below the normal numbers, and the label of the result.
    pub open spec fn fdiv_den(&self, st: St, pa: u32, scr: u32, l: u32) -> St {
        let e = at(scr, 1);
        st.emit(label_tmp(label_at(l, 15))).emit(ram_bit(BitOp::Btfsc, at(pa, 2), 7)).emit(
            goto_tmp(label_at(l, 14)),
        ).emit(movf(at(e, 1))).emit(on_z(BitOp::Btfss)).emit(goto_tmp(label_at(l, 14))).emit(
            movf(e),
        ).emit(lit(LitOp::Sublw, 0x01)).emit(on_z(BitOp::Btfss)).emit(
            goto_tmp(label_at(l, 14)),
        ).emit(clrf(e)).emit(label_tmp(label_at(l, 14)))
    }

    #[verifier::rlimit(50)]
    proof fn lemma_fdiv_den(&self, st: St, pa: u32, scr: u32, l: u32, base: int, m: Machine)
        requires
            under_way(st, base, m),
            scr <= 0xFFFF,
            l <= u32::MAX - 50,
            ({
                let b = exec(st.rows, base, m);
                looping(b.flow, l) || b.flow is Next || b.flow == tmp(l, 15)
            }),
        ensures
            ({
                let b = exec(st.rows, base, m);
                let s = self.fdiv_den(st, pa, scr, l);
                let a = exec(s.rows, base, m);
                &&& under_way(s, base, m)
                &&& looping(b.flow, l) ==> a == b
                &&& !looping(b.flow, l) ==> a.flow is Next && a.ram == (if b.ram[at(pa, 2)] < 128
                    && b.ram[at(scr, 2)] == 0 && b.ram[at(scr, 1)] == 1 {
                    b.ram.insert(at(scr, 1), 0)
                } else {
                    b.ram
                })
            }),
    {
        let b = exec(st.rows, base, m);
        let s = self.fdiv_den(st, pa, scr, l);
        let a = exec(s.rows, base, m);
        assert(base <= s.rows.len());
        assert(at(at(scr, 1), 1) == at(scr, 2));
        if looping(b.flow, l) {
            assert(a == b) by {
                broadcast use group_exec;

            }
        } else if b.ram[at(pa, 2)] >= 128 || b.ram[at(scr, 2)] != 0 {
            assert(a.core == b.core && a.flow is Next && a.ram == b.ram) by {
                broadcast use group_exec;

            }
        } else {
            assert(a.core == b.core && a.flow is Next && a.ram == (if b.ram[at(scr, 1)] == 1 {
                b.ram.insert(at(scr, 1), 0)
            } else {
                b.ram
            })) by {
                broadcast use group_exec;

            }
        }
    }

    /// The rounding: one more where the bits below the mantissa ask for it.
    #[verifier::rlimit(50)]
    proof fn lemma_fdiv_rounded(
        &self,
        st: St,
        pa: u32,
        pb: u32,
        scr: u32,
        l: u32,
        w: int,
        t: bool,
        e: int,
        neg: bool,
        base: int,
        m: Machine,
    )
        requires
            under_way(st, base, m),
            quotient_slots(pa, pb, scr, self.retval),
            l <= u32::MAX - 50,
            st.next == l + 38,
            ({
                let b = exec(st.rows, base, m);
                ||| looping(b.flow, l)
                ||| b.flow == tmp(l, 12) && lowering(b, pa, scr, w, t, e, neg) && rounds(w, t, e) && e
                    >= 1
            }),
        ensures
            ({
                let b = exec(st.rows, base, m);
                let x = at(scr, 1);
                let (m1, m2) = (at(pa, 1), at(pa, 2));
                let s = self.round_up(self.fdiv_test(st, pa, scr, l), pa, m1, m2, x);
                let a = exec(self.assemble(self.fdiv_den(s, pa, scr, l), scr, x, pa, m1, m2).rows, base, m);
                &&& looping(b.flow, l) ==> a == b
                &&& !looping(b.flow, l) ==> a.flow is Gone && word(a, self.retval, 4) == packed_float(
                    neg,
                    e % 256,
                    rounded(w, t),
                )
            }),
    {
        let b = exec(st.rows, base, m);
        let x = at(scr, 1);
        let (m1, m2) = (at(pa, 1), at(pa, 2));
        let s1 = self.fdiv_test(st, pa, scr, l);
        self.lemma_fdiv_test(st, pa, scr, l, base, m);
        let c1 = exec(s1.rows, base, m);
        assert(s1.next == l + 38);
        let s2 = self.round_up(s1, pa, m1, m2, x);
        self.lemma_round_up(s1, pa, m1, m2, x, base, m);
        let c2 = exec(s2.rows, base, m);
        lemma_top_bit(b, pa, m1, m2);
        lemma_top_bit(c2, pa, m1, m2);
        let s3 = self.fdiv_den(s2, pa, scr, l);
        self.lemma_fdiv_den(s2, pa, scr, l, base, m);
        let c3 = exec(s3.rows, base, m);
        if !looping(b.flow, l) {
            assert(mantissa(b, pa, m1, m2) == three(b, pa));
            assert(mantissa(c1, pa, m1, m2) == three(b, pa));
            let u = mantissa(c2, pa, m1, m2);
            assert(mantissa(c3, pa, m1, m2) == u);
            assert(c2.ram[at(scr, 2)] == b.ram[at(scr, 2)] && c2.ram[scr] == b.ram[scr]);
            if u < 0x80_0000 {
                assert(e == 1 && c2.ram[x] == 1 && c3.ram[x] == 0);
                assert(u % 0x80_0000 == u);
            } else {
                assert(u % 0x80_0000 == u - 0x80_0000);
                assert(c3.ram[x] == c2.ram[x]);
            }
        }
        self.lemma_assemble(s3, scr, x, pa, m1, m2, base, m);
    }

    /// From the bits of the quotient on: a shift, or the result.
    #[verifier::rlimit(50)]
    pub(crate) proof fn lemma_fdiv_round(
        &self,
        st: St,
        pa: u32,
        pb: u32,
        scr: u32,
        l: u32,
        w: int,
        t: bool,
        e: int,
        neg: bool,
        base: int,
        m: Machine,
    )
        requires
            under_way(st, base, m),
            quotient_slots(pa, pb, scr, self.retval),
            l <= u32::MAX - 50,
            st.next == l + 38,
            ({
                let b = exec(st.rows, base, m);
                ||| inner(b.flow, l)
                ||| {
                    &&& b.flow is Next || b.flow == tmp(l, 11)
                    &&& lowering(b, pa, scr, w, t, e, neg)
                    &&& rounds(w, t, e)
                }
            }),
        ensures
            ({
                let b = exec(st.rows, base, m);
                let a = exec(self.divf_round(st, pa, scr, l).rows, base, m);
                &&& inner(b.flow, l) ==> a == b
                &&& !inner(b.flow, l) ==> if e < 1 {
                    a.flow == tmp(l, 11) && lowering(
                        a,
                        pa,
                        scr,
                        w / 2,
                        t || w % 2 == 1,
                        e + 1,
                        neg,
                    )
                } else {
                    a.flow is Gone && word(a, self.retval, 4) == packed_float(
                        neg,
                        e % 256,
                        rounded(w, t),
                    )
                }
            }),
    {
        let b = exec(st.rows, base, m);
        let x = at(scr, 1);
        let (m1, m2) = (at(pa, 1), at(pa, 2));
        let s1 = self.fdiv_normal(st, scr, l);
        self.lemma_fdiv_normal(st, scr, l, e, base, m);
        let c1 = exec(s1.rows, base, m);
        let s2 = self.fdiv_below(s1, pa, scr, l);
        if !inner(b.flow, l) {
            assert(three(c1, pa) == three(b, pa));
            assert(lowering(c1, pa, scr, w, t, e, neg));
        }
        if !inner(b.flow, l) && e < 1 {
            self.lemma_fdiv_below(s1, pa, pb, scr, l, w, t, e, neg, base, m);
        } else {
            self.lemma_fdiv_below_over(s1, pa, scr, l, base, m);
        }
        assert(s2.next == l + 38);
        self.lemma_fdiv_rounded(s2, pa, pb, scr, l, w, t, e, neg, base, m);
        assert(self.divf_round(st, pa, scr, l) == self.assemble(
            self.fdiv_den(
                self.round_up(self.fdiv_test(s2, pa, scr, l), pa, m1, m2, x),
                pa,
                scr,
                l,
            ),
            scr,
            x,
            pa,
            m1,
            m2,
        )) by {
            reveal(Gen::divf_round);
        }
    }
}

} // verus!
