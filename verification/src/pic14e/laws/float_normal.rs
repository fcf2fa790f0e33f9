//! The float sum: the difference, its normalisation, and the rounded result.
use vstd::prelude::*;
use crate::emit::{
    at, clrf, f_op, goto_tmp, label_at, label_tmp, lit, movf, movlw, on_c, on_z, ram_bit, w_op, St,
};
use crate::line::{BitOp, LitOp, Op};
use crate::machine::{exec, group_exec, lemma_step_gone, Flow, Machine};
use crate::meaning::{flag, word};
use crate::pic14e::laws::float_align::{wide, window};
use crate::pic14e::laws::float_chain::three;
use crate::pic14e::laws::float_combine::jammed;
use crate::pic14e::laws::float_int::{tmp, under_way};
use crate::pic14e::laws::float_order::lemma_masks;
use crate::pic14e::laws::float_parts::{returning, sign_byte};
use crate::pic14e::laws::float_product::lemma_top_bit;
use crate::pic14e::laws::float_round::{mantissa, packed_float};
use crate::pic14e::laws::float_split::goes_up;
use crate::pic14e::laws::ready;
use crate::pic14e::Gen;

verus! {

/// Whether nothing but the window changed.
pub open spec fn window_only(b: Machine, a: Machine, scr: u32) -> bool {
    forall|y: u32|
        y != at(scr, 6) && y != at(scr, 12) && y != at(scr, 13) ==> #[trigger] a.ram[y] == b.ram[y]
}

/// The top bit of the window.
proof fn lemma_window_top(m: Machine, scr: u32)
    ensures
        window(m, scr) >= 0x80_0000 <==> m.ram[at(scr, 13)] >= 128,
        0 <= window(m, scr) < 0x100_0000,
        window(m, scr) % 2 == m.ram[at(scr, 6)] % 2,
{
}

impl<'a> Gen<'a> {
    /// The lost bits jammed into the window, and the way past an empty one.
    pub open spec fn fadd_jam(&self, st: St, scr: u32, l: u32) -> St {
        st.emit(label_tmp(label_at(l, 15))).emit(ram_bit(BitOp::Btfsc, at(scr, 10), 1)).emit(
            ram_bit(BitOp::Bsf, at(scr, 6), 0),
        ).emit(movf(at(scr, 6))).emit(w_op(Op::Iorwf, at(scr, 12))).emit(
            w_op(Op::Iorwf, at(scr, 13)),
        ).emit(on_z(BitOp::Btfsc)).emit(goto_tmp(label_at(l, 16)))
    }

    #[verifier::rlimit(50)]
    proof fn lemma_fadd_jam(&self, st: St, scr: u32, l: u32, base: int, m: Machine)
        requires
            under_way(st, base, m),
            scr <= 0xFFFF,
            l <= u32::MAX - 50,
            exec(st.rows, base, m).flow is Next || exec(st.rows, base, m).flow == tmp(l, 15),
            exec(st.rows, base, m).ram[at(scr, 10)] < 4,
        ensures
            ({
                let b = exec(st.rows, base, m);
                let s = self.fadd_jam(st, scr, l);
                let a = exec(s.rows, base, m);
                let t = jammed(window(b, scr), b.ram[at(scr, 10)] >= 2);
                &&& under_way(s, base, m)
                &&& window(a, scr) == t
                &&& window_only(b, a, scr)
                &&& a.flow == (if t == 0 {
                    tmp(l, 16)
                } else {
                    Flow::Next
                })
            }),
    {
        let b = exec(st.rows, base, m);
        let x = b.ram[at(scr, 10)];
        let s1 = st.emit(label_tmp(label_at(l, 15))).emit(ram_bit(BitOp::Btfsc, at(scr, 10), 1)).emit(
            ram_bit(BitOp::Bsf, at(scr, 6), 0),
        );
        let c1 = exec(s1.rows, base, m);
        let y = b.ram[at(scr, 6)];
        assert(ready(s1, base, m) && c1.core == b.core && c1.ram[at(scr, 6)] == (if (x / 2) % 2 == 1 {
            y / 2 * 2 + 1
        } else {
            y as int
        }) && (forall|z: u32| z != at(scr, 6) ==> #[trigger] c1.ram[z] == b.ram[z])) by {
            broadcast use group_exec;

        }
        lemma_window_top(b, scr);
        assert(window(c1, scr) == jammed(window(b, scr), x >= 2));
        let s = self.fadd_jam(st, scr, l);
        let a = exec(s.rows, base, m);
        let empty = c1.ram[at(scr, 6)] == 0 && c1.ram[at(scr, 12)] == 0 && c1.ram[at(scr, 13)] == 0;
        lemma_masks();
        assert(base <= s.rows.len() && a.core == b.core && a.ram == c1.ram && a.flow == (if empty {
            tmp(l, 16)
        } else {
            Flow::Next
        })) by {
            broadcast use group_exec;

        }
        assert(empty <==> window(c1, scr) == 0);
        assert(window(a, scr) == window(c1, scr));
    }

    /// The window taken from zero.
    pub open spec fn fadd_negate(&self, st: St, scr: u32) -> St {
        st.emit(f_op(Op::Comf, at(scr, 6))).emit(f_op(Op::Comf, at(scr, 12))).emit(
            f_op(Op::Comf, at(scr, 13)),
        ).emit(f_op(Op::Incf, at(scr, 6))).emit(on_z(BitOp::Btfsc)).emit(
            f_op(Op::Incf, at(scr, 12)),
        ).emit(on_z(BitOp::Btfsc)).emit(f_op(Op::Incf, at(scr, 13)))
    }

    #[verifier::rlimit(50)]
    proof fn lemma_fadd_negate(&self, st: St, scr: u32, base: int, m: Machine)
        requires
            under_way(st, base, m),
            scr <= 0xFFFF,
            exec(st.rows, base, m).flow is Next,
            window(exec(st.rows, base, m), scr) > 0,
        ensures
            ({
                let b = exec(st.rows, base, m);
                let s = self.fadd_negate(st, scr);
                let a = exec(s.rows, base, m);
                &&& ready(s, base, m)
                &&& window(a, scr) == 0x100_0000 - window(b, scr)
                &&& window_only(b, a, scr)
            }),
    {
        let b = exec(st.rows, base, m);
        let s1 = st.emit(f_op(Op::Comf, at(scr, 6))).emit(f_op(Op::Comf, at(scr, 12))).emit(
            f_op(Op::Comf, at(scr, 13)),
        );
        let c1 = exec(s1.rows, base, m);
        let (x, y, z) = (b.ram[at(scr, 6)], b.ram[at(scr, 12)], b.ram[at(scr, 13)]);
        assert(base <= s1.rows.len() && c1.flow is Next && c1.core == b.core && c1.ram == b.ram.insert(
            at(scr, 6),
            (255 - x) as u8,
        ).insert(at(scr, 12), (255 - y) as u8).insert(at(scr, 13), (255 - z) as u8)) by {
            broadcast use group_exec;

        }
        let s = self.fadd_negate(st, scr);
        let a = exec(s.rows, base, m);
        if x > 0 {
            assert(ready(s, base, m) && a.ram == c1.ram.insert(at(scr, 6), (256 - x) as u8)) by {
                broadcast use group_exec;

            }
        } else if y > 0 {
            assert(ready(s, base, m) && a.ram == c1.ram.insert(at(scr, 6), 0).insert(
                at(scr, 12),
                (256 - y) as u8,
            )) by {
                broadcast use group_exec;

            }
        } else {
            assert(z > 0);
            assert(ready(s, base, m) && a.ram == c1.ram.insert(at(scr, 6), 0).insert(
                at(scr, 12),
                0,
            ).insert(at(scr, 13), (256 - z) as u8)) by {
                broadcast use group_exec;

            }
        }
    }

    /// One taken from the mantissa.
    pub open spec fn fadd_borrow(&self, st: St, scr: u32, l: u32) -> St {
        st.emit(movlw(0x01)).emit(f_op(Op::Subwf, at(scr, 2))).emit(on_c(BitOp::Btfsc)).emit(
            goto_tmp(label_at(l, 17)),
        ).emit(movlw(0x01)).emit(f_op(Op::Subwf, at(scr, 3))).emit(on_c(BitOp::Btfsc)).emit(
            goto_tmp(label_at(l, 17)),
        ).emit(movlw(0x01)).emit(f_op(Op::Subwf, at(scr, 4))).emit(label_tmp(label_at(l, 17))).emit(
            label_tmp(label_at(l, 16)),
        )
    }

    #[verifier::rlimit(50)]
    proof fn lemma_fadd_borrow(&self, st: St, scr: u32, l: u32, base: int, m: Machine)
        requires
            under_way(st, base, m),
            scr <= 0xFFFF,
            l <= u32::MAX - 50,
            ({
                let b = exec(st.rows, base, m);
                ||| b.flow is Next && three(b, at(scr, 2)) > 0
                ||| b.flow == tmp(l, 16)
            }),
        ensures
            ({
                let b = exec(st.rows, base, m);
                let s = self.fadd_borrow(st, scr, l);
                let a = exec(s.rows, base, m);
                &&& base <= s.rows.len()
                &&& a.flow is Next
                &&& a.core == b.core
                &&& three(a, at(scr, 2)) == three(b, at(scr, 2)) - flag(b.flow is Next)
                &&& forall|y: u32|
                    y != at(scr, 2) && y != at(scr, 3) && y != at(scr, 4) ==> #[trigger] a.ram[y]
                        == b.ram[y]
            }),
    {
        let b = exec(st.rows, base, m);
        let s = self.fadd_borrow(st, scr, l);
        let a = exec(s.rows, base, m);
        let (x, y, z) = (b.ram[at(scr, 2)], b.ram[at(scr, 3)], b.ram[at(scr, 4)]);
        assert(base <= s.rows.len());
        if b.flow == tmp(l, 16) {
            assert(a.core == b.core && a.flow is Next && a.ram == b.ram) by {
                broadcast use group_exec;

            }
        } else if x > 0 {
            assert(a.core == b.core && a.flow is Next && a.ram == b.ram.insert(
                at(scr, 2),
                (x - 1) as u8,
            )) by {
                broadcast use group_exec;

            }
        } else if y > 0 {
            assert(a.core == b.core && a.flow is Next && a.ram == b.ram.insert(at(scr, 2), 255).insert(
                at(scr, 3),
                (y - 1) as u8,
            )) by {
                broadcast use group_exec;

            }
        } else {
            assert(z > 0);
            assert(a.core == b.core && a.flow is Next && a.ram == b.ram.insert(at(scr, 2), 255).insert(
                at(scr, 3),
                255,
            ).insert(at(scr, 4), (z - 1) as u8)) by {
                broadcast use group_exec;

            }
        }
    }

    /// The greater mantissa minus the other one and the window.
    #[verifier::rlimit(50)]
    pub(crate) proof fn lemma_fadd_difference(&self, st: St, scr: u32, l: u32, base: int, m: Machine)
        requires
            under_way(st, base, m),
            scr <= 0xFFFF,
            l <= u32::MAX - 50,
            exec(st.rows, base, m).flow is Next || exec(st.rows, base, m).flow == tmp(l, 15),
            exec(st.rows, base, m).ram[at(scr, 10)] < 4,
            three(exec(st.rows, base, m), at(scr, 2)) > three(exec(st.rows, base, m), at(scr, 7)),
        ensures
            ({
                let b = exec(st.rows, base, m);
                let s = self.addf_difference(st, scr, l);
                let a = exec(s.rows, base, m);
                let t = jammed(window(b, scr), b.ram[at(scr, 10)] >= 2);
                &&& under_way(s, base, m)
                &&& s.next == st.next
                &&& a.flow == tmp(l, 18)
                &&& wide(a, scr) == 0x100_0000 * (three(b, at(scr, 2)) - three(b, at(scr, 7))) - t
                &&& a.ram[scr] == b.ram[scr]
                &&& a.ram[at(scr, 1)] == b.ram[at(scr, 1)]
                &&& a.ram[at(scr, 10)] == b.ram[at(scr, 10)]
            }),
    {
        let b = exec(st.rows, base, m);
        let t = jammed(window(b, scr), b.ram[at(scr, 10)] >= 2);
        lemma_window_top(b, scr);
        let s1 = self.fadd_jam(st, scr, l);
        self.lemma_fadd_jam(st, scr, l, base, m);
        let c1 = exec(s1.rows, base, m);
        let s2 = self.fadd_negate(s1, scr);
        let c2 = exec(s2.rows, base, m);
        if t > 0 {
            self.lemma_fadd_negate(s1, scr, base, m);
        } else {
            assert(base <= s2.rows.len() && c2 == c1) by {
                broadcast use group_exec;

            }
        }
        assert(three(c2, at(scr, 2)) == three(b, at(scr, 2)));
        let s3 = self.fadd_borrow(s2, scr, l);
        self.lemma_fadd_borrow(s2, scr, l, base, m);
        let c3 = exec(s3.rows, base, m);
        assert(window(c3, scr) == window(c2, scr));
        assert(three(c3, at(scr, 7)) == three(b, at(scr, 7)));
        assert(s3.w is None);
        let s4 = self.take3(s3, at(scr, 7), at(scr, 2));
        self.lemma_take3(s3, at(scr, 7), at(scr, 2), base, m);
        let c4 = exec(s4.rows, base, m);
        lemma_top_bit(c4, at(scr, 2), at(scr, 3), at(scr, 4));
        assert(three(c4, at(scr, 2)) == three(c3, at(scr, 2)) - three(b, at(scr, 7)));
        assert(window(c4, scr) == window(c3, scr));
        let s5 = s4.emit(goto_tmp(label_at(l, 18)));
        let a = exec(s5.rows, base, m);
        assert(base <= s5.rows.len() && a.core == c4.core && a.flow == tmp(l, 18) && a.ram == c4.ram) by {
            broadcast use group_exec;

        }
        assert(self.addf_difference(st, scr, l) == s5) by {
            reveal(Gen::addf_difference);
        }
        assert(window(a, scr) == window(c4, scr) && three(a, at(scr, 2)) == three(c4, at(scr, 2)));
    }

    /// Runs that look for another place pass the difference.
    #[verifier::rlimit(50)]
    pub(crate) proof fn lemma_fadd_difference_over(
        &self,
        st: St,
        scr: u32,
        l: u32,
        base: int,
        m: Machine,
    )
        requires
            under_way(st, base, m),
            l <= u32::MAX - 50,
            ({
                let b = exec(st.rows, base, m);
                returning(b.flow, l) || b.flow == tmp(l, 20) || b.flow == tmp(l, 2)
            }),
        ensures
            ({
                let s = self.addf_difference(st, scr, l);
                &&& under_way(s, base, m)
                &&& s.next == st.next
                &&& exec(s.rows, base, m) == exec(st.rows, base, m)
            }),
    {
        let b = exec(st.rows, base, m);
        let s1 = self.fadd_jam(st, scr, l);
        assert(base <= s1.rows.len() && exec(s1.rows, base, m) == b) by {
            broadcast use group_exec;

        }
        let s3 = self.fadd_borrow(self.fadd_negate(s1, scr), scr, l);
        assert(base <= s3.rows.len() && exec(s3.rows, base, m) == b) by {
            broadcast use group_exec;

        }
        let s5 = self.take3(s3, at(scr, 7), at(scr, 2)).emit(goto_tmp(label_at(l, 18)));
        assert(base <= s5.rows.len() && exec(s5.rows, base, m) == b) by {
            broadcast use group_exec;

        }
        assert(self.addf_difference(st, scr, l) == s5) by {
            reveal(Gen::addf_difference);
        }
    }

    /// The end of the normalisation for a set top bit or exponent one.
    pub open spec fn fadd_normal(&self, st: St, scr: u32, l: u32) -> St {
        st.emit(label_tmp(label_at(l, 18))).emit(movf(at(scr, 4))).emit(lit(LitOp::Andlw, 0x80)).emit(
            on_z(BitOp::Btfss),
        ).emit(goto_tmp(label_at(l, 19))).emit(movf(at(scr, 1))).emit(lit(LitOp::Sublw, 0x01)).emit(
            on_z(BitOp::Btfsc),
        ).emit(goto_tmp(label_at(l, 19))).emit(on_c(BitOp::Bcf))
    }

    /// The carry rotated into the window from below.
    pub open spec fn left_window(&self, st: St, scr: u32) -> St {
        st.emit(f_op(Op::Rlf, at(scr, 6))).emit(f_op(Op::Rlf, at(scr, 12))).emit(
            f_op(Op::Rlf, at(scr, 13)),
        )
    }

    proof fn lemma_left_window(&self, st: St, scr: u32, base: int, m: Machine)
        requires
            ready(st, base, m),
            scr <= 0xFFFF,
        ensures
            ({
                let b = exec(st.rows, base, m);
                let s = self.left_window(st, scr);
                let a = exec(s.rows, base, m);
                &&& ready(s, base, m)
                &&& window(a, scr) + 0x100_0000 * flag(a.c) == 2 * window(b, scr) + flag(b.c)
                &&& window_only(b, a, scr)
            }),
    {
        let b = exec(st.rows, base, m);
        let s = self.left_window(st, scr);
        let a = exec(s.rows, base, m);
        let (x, y, z) = (b.ram[at(scr, 6)], b.ram[at(scr, 12)], b.ram[at(scr, 13)]);
        assert(ready(s, base, m) && a.ram[at(scr, 6)] + 256 * flag(x >= 128) == 2 * x + flag(b.c)
            && a.ram[at(scr, 12)] + 256 * flag(y >= 128) == 2 * y + flag(x >= 128) && a.ram[at(scr, 13)]
            + 256 * flag(z >= 128) == 2 * z + flag(y >= 128) && a.c == (z >= 128) && window_only(
            b,
            a,
            scr,
        )) by {
            broadcast use group_exec;

        }
    }

    /// The shift left, and the exponent one less.
    pub open spec fn fadd_up(&self, st: St, scr: u32, l: u32) -> St {
        self.left3(self.left_window(st, scr), at(scr, 2)).emit(movlw(0x01)).emit(
            f_op(Op::Subwf, at(scr, 1)),
        ).emit(goto_tmp(label_at(l, 18)))
    }

    /// The round bit of a normalised difference.
    pub open spec fn fadd_guard(&self, st: St, scr: u32, l: u32) -> St {
        st.emit(label_tmp(label_at(l, 19))).emit(ram_bit(BitOp::Btfsc, at(scr, 13), 7)).emit(
            ram_bit(BitOp::Bsf, at(scr, 10), 0),
        ).emit(ram_bit(BitOp::Btfss, at(scr, 13), 7)).emit(ram_bit(BitOp::Bcf, at(scr, 10), 0))
    }

    proof fn lemma_fadd_up(&self, st: St, scr: u32, l: u32, base: int, m: Machine)
        requires
            ready(st, base, m),
            scr <= 0xFFFF,
            l <= u32::MAX - 50,
            !exec(st.rows, base, m).c,
            three(exec(st.rows, base, m), at(scr, 2)) < 0x80_0000,
            exec(st.rows, base, m).ram[at(scr, 1)] > 1,
        ensures
            ({
                let b = exec(st.rows, base, m);
                let s = self.fadd_up(st, scr, l);
                let a = exec(s.rows, base, m);
                &&& under_way(s, base, m)
                &&& a.flow == tmp(l, 18)
                &&& wide(a, scr) == 2 * wide(b, scr)
                &&& a.ram[at(scr, 1)] == b.ram[at(scr, 1)] - 1
                &&& a.ram[at(scr, 10)] == b.ram[at(scr, 10)]
                &&& a.ram[scr] == b.ram[scr]
            }),
    {
        let b = exec(st.rows, base, m);
        let s1 = self.left_window(st, scr);
        self.lemma_left_window(st, scr, base, m);
        let c1 = exec(s1.rows, base, m);
        let s2 = self.left3(s1, at(scr, 2));
        self.lemma_left3(s1, at(scr, 2), base, m);
        let c2 = exec(s2.rows, base, m);
        assert(three(c1, at(scr, 2)) == three(b, at(scr, 2)));
        lemma_top_bit(c2, at(scr, 2), at(scr, 3), at(scr, 4));
        assert(window(c2, scr) == window(c1, scr));
        let s = self.fadd_up(st, scr, l);
        let a = exec(s.rows, base, m);
        assert(base <= s.rows.len() && a.core == c2.core && a.flow == tmp(l, 18) && a.ram == c2.ram.insert(
            at(scr, 1),
            (c2.ram[at(scr, 1)] - 1) as u8,
        )) by {
            broadcast use group_exec;

        }
        assert(window(a, scr) == window(c2, scr) && three(a, at(scr, 2)) == three(c2, at(scr, 2)));
    }

    #[verifier::rlimit(50)]
    proof fn lemma_fadd_guard(&self, st: St, scr: u32, l: u32, base: int, m: Machine)
        requires
            under_way(st, base, m),
            scr <= 0xFFFF,
            l <= u32::MAX - 50,
            exec(st.rows, base, m).flow == tmp(l, 19),
            exec(st.rows, base, m).ram[at(scr, 10)] < 4,
        ensures
            ({
                let b = exec(st.rows, base, m);
                let s = self.fadd_guard(st, scr, l);
                let a = exec(s.rows, base, m);
                &&& under_way(s, base, m)
                &&& a.flow is Next
                &&& a.ram[at(scr, 10)] == flag(window(b, scr) >= 0x80_0000) + 2 * (b.ram[at(scr, 10)] / 2)
                &&& forall|y: u32| y != at(scr, 10) ==> #[trigger] a.ram[y] == b.ram[y]
            }),
    {
        let b = exec(st.rows, base, m);
        let s = self.fadd_guard(st, scr, l);
        let a = exec(s.rows, base, m);
        lemma_window_top(b, scr);
        let x = b.ram[at(scr, 10)];
        assert(base <= s.rows.len());
        if b.ram[at(scr, 13)] >= 128 {
            assert(a.core == b.core && a.flow is Next && a.ram == b.ram.insert(
                at(scr, 10),
                (1 + 2 * (x / 2)) as u8,
            )) by {
                broadcast use group_exec;

            }
        } else {
            assert(a.core == b.core && a.flow is Next && a.ram == b.ram.insert(
                at(scr, 10),
                (2 * (x / 2)) as u8,
            )) by {
                broadcast use group_exec;

            }
        }
    }

    proof fn lemma_fadd_up_over(&self, st: St, scr: u32, l: u32, base: int, m: Machine)
        requires
            under_way(st, base, m),
            exec(st.rows, base, m).flow is Seek,
        ensures
            under_way(self.fadd_up(st, scr, l), base, m),
            exec(self.fadd_up(st, scr, l).rows, base, m) == exec(st.rows, base, m),
    {
        broadcast use group_exec;

    }

    proof fn lemma_fadd_guard_over(&self, st: St, scr: u32, l: u32, base: int, m: Machine)
        requires
            under_way(st, base, m),
            l <= u32::MAX - 50,
            exec(st.rows, base, m).flow is Seek,
            exec(st.rows, base, m).flow != tmp(l, 19),
        ensures
            under_way(self.fadd_guard(st, scr, l), base, m),
            exec(self.fadd_guard(st, scr, l).rows, base, m) == exec(st.rows, base, m),
    {
        broadcast use group_exec;

    }

    /// The tests of the top bit and of the exponent.
    #[verifier::rlimit(50)]
    proof fn lemma_fadd_normal(&self, st: St, scr: u32, l: u32, base: int, m: Machine)
        requires
            under_way(st, base, m),
            l <= u32::MAX - 50,
            exec(st.rows, base, m).flow == tmp(l, 18),
        ensures
            ({
                let b = exec(st.rows, base, m);
                let s = self.fadd_normal(st, scr, l);
                let a = exec(s.rows, base, m);
                &&& a.ram == b.ram
                &&& under_way(s, base, m)
                &&& if b.ram[at(scr, 4)] >= 128 || b.ram[at(scr, 1)] == 1 {
                    a.flow == tmp(l, 19)
                } else {
                    ready(s, base, m) && !a.c
                }
            }),
    {
        let b = exec(st.rows, base, m);
        let s1 = st.emit(label_tmp(label_at(l, 18))).emit(movf(at(scr, 4))).emit(
            lit(LitOp::Andlw, 0x80),
        ).emit(on_z(BitOp::Btfss)).emit(goto_tmp(label_at(l, 19)));
        let c1 = exec(s1.rows, base, m);
        lemma_masks();
        assert(base <= s1.rows.len() && c1.core == b.core && c1.ram == b.ram && c1.flow == (if b.ram[at(
            scr,
            4,
        )] >= 128 {
            tmp(l, 19)
        } else {
            Flow::Next
        })) by {
            broadcast use group_exec;

        }
        let s = self.fadd_normal(st, scr, l);
        let a = exec(s.rows, base, m);
        assert(base <= s.rows.len() && s.w is None);
        if b.ram[at(scr, 4)] >= 128 {
            assert(a == c1) by {
                broadcast use group_exec;

            }
        } else if b.ram[at(scr, 1)] == 1 {
            assert(a.core == b.core && a.ram == b.ram && a.flow == tmp(l, 19)) by {
                broadcast use group_exec;

            }
        } else {
            assert(a.core == b.core && a.ram == b.ram && a.flow is Next && !a.c) by {
                broadcast use group_exec;

            }
        }
    }

    /// One turn of the normalisation, or its end.
    pub(crate) proof fn lemma_fadd_normalize(&self, st: St, scr: u32, l: u32, base: int, m: Machine)
        requires
            under_way(st, base, m),
            scr <= 0xFFFF,
            l <= u32::MAX - 50,
            exec(st.rows, base, m).flow == tmp(l, 18),
            exec(st.rows, base, m).ram[at(scr, 10)] < 4,
            exec(st.rows, base, m).ram[at(scr, 1)] >= 1,
        ensures
            ({
                let b = exec(st.rows, base, m);
                let s = self.addf_normalize(st, scr, l);
                let a = exec(s.rows, base, m);
                &&& under_way(s, base, m)
                &&& s.next == st.next
                &&& a.ram[scr] == b.ram[scr]
                &&& if three(b, at(scr, 2)) >= 0x80_0000 || b.ram[at(scr, 1)] == 1 {
                    &&& a.flow is Next
                    &&& wide(a, scr) == wide(b, scr)
                    &&& a.ram[at(scr, 1)] == b.ram[at(scr, 1)]
                    &&& a.ram[at(scr, 10)] == flag(window(b, scr) >= 0x80_0000) + 2 * (b.ram[at(
                        scr,
                        10,
                    )] / 2)
                } else {
                    &&& a.flow == tmp(l, 18)
                    &&& wide(a, scr) == 2 * wide(b, scr)
                    &&& a.ram[at(scr, 1)] == b.ram[at(scr, 1)] - 1
                    &&& a.ram[at(scr, 10)] == b.ram[at(scr, 10)]
                }
            }),
    {
        let b = exec(st.rows, base, m);
        let s1 = self.fadd_normal(st, scr, l);
        self.lemma_fadd_normal(st, scr, l, base, m);
        let c1 = exec(s1.rows, base, m);
        let s2 = self.fadd_up(s1, scr, l);
        let c2 = exec(s2.rows, base, m);
        let s3 = self.fadd_guard(s2, scr, l);
        let a = exec(s3.rows, base, m);
        assert(self.addf_normalize(st, scr, l) == s3) by {
            reveal(Gen::addf_normalize);
        }
        assert(s3.next == st.next);
        lemma_top_bit(b, at(scr, 2), at(scr, 3), at(scr, 4));
        assert(window(c1, scr) == window(b, scr) && three(c1, at(scr, 2)) == three(b, at(scr, 2)));
        if three(b, at(scr, 2)) >= 0x80_0000 || b.ram[at(scr, 1)] == 1 {
            self.lemma_fadd_up_over(s1, scr, l, base, m);
            self.lemma_fadd_guard(s2, scr, l, base, m);
            assert(window(a, scr) == window(b, scr) && three(a, at(scr, 2)) == three(b, at(scr, 2)));
        } else {
            self.lemma_fadd_up(s1, scr, l, base, m);
            self.lemma_fadd_guard_over(s2, scr, l, base, m);
        }
    }

    /// Runs that look for another place pass the normalisation.
    #[verifier::rlimit(50)]
    pub(crate) proof fn lemma_fadd_normalize_over(
        &self,
        st: St,
        scr: u32,
        l: u32,
        base: int,
        m: Machine,
    )
        requires
            under_way(st, base, m),
            l <= u32::MAX - 50,
            ({
                let b = exec(st.rows, base, m);
                ||| b.flow == tmp(l, 6)
                ||| b.flow == tmp(l, 22)
                ||| b.flow == tmp(l, 32)
                ||| b.flow == tmp(l, 20)
                ||| b.flow == tmp(l, 2)
            }),
        ensures
            ({
                let s = self.addf_normalize(st, scr, l);
                &&& under_way(s, base, m)
                &&& s.next == st.next
                &&& exec(s.rows, base, m) == exec(st.rows, base, m)
            }),
    {
        let b = exec(st.rows, base, m);
        let s1 = self.fadd_normal(st, scr, l);
        assert(base <= s1.rows.len() && exec(s1.rows, base, m) == b) by {
            broadcast use group_exec;

        }
        let s2 = self.fadd_up(s1, scr, l);
        assert(base <= s2.rows.len() && exec(s2.rows, base, m) == b) by {
            broadcast use group_exec;

        }
        let s3 = self.fadd_guard(s2, scr, l);
        assert(base <= s3.rows.len() && exec(s3.rows, base, m) == b) by {
            broadcast use group_exec;

        }
        assert(self.addf_normalize(st, scr, l) == s3) by {
            reveal(Gen::addf_normalize);
        }
    }

    /// The test whether to round up.
    pub open spec fn fadd_test(&self, st: St, scr: u32, l: u32) -> St {
        st.emit(label_tmp(label_at(l, 20))).emit(ram_bit(BitOp::Btfss, at(scr, 10), 0)).emit(
            goto_tmp(label_at(l, 32)),
        ).emit(movf(at(scr, 13))).emit(lit(LitOp::Andlw, 0x7F)).emit(w_op(Op::Iorwf, at(scr, 6))).emit(
            w_op(Op::Iorwf, at(scr, 12)),
        ).emit(on_z(BitOp::Btfss)).emit(goto_tmp(label_at(l, 21))).emit(
            ram_bit(BitOp::Btfsc, at(scr, 10), 1),
        ).emit(goto_tmp(label_at(l, 21))).emit(ram_bit(BitOp::Btfsc, at(scr, 2), 0)).emit(
            goto_tmp(label_at(l, 21)),
        ).emit(goto_tmp(label_at(l, 32))).emit(label_tmp(label_at(l, 21)))
    }

    #[verifier::rlimit(50)]
    proof fn lemma_fadd_test(&self, st: St, scr: u32, l: u32, base: int, m: Machine)
        requires
            under_way(st, base, m),
            scr <= 0xFFFF,
            l <= u32::MAX - 50,
            ({
                let b = exec(st.rows, base, m);
                ||| returning(b.flow, l)
                ||| b.flow == tmp(l, 2)
                ||| (b.flow is Next || b.flow == tmp(l, 20)) && b.ram[at(scr, 10)] < 4
            }),
        ensures
            ({
                let b = exec(st.rows, base, m);
                let s = self.fadd_test(st, scr, l);
                let a = exec(s.rows, base, m);
                let x = b.ram[at(scr, 10)];
                let rest = window(b, scr) % 0x80_0000 != 0 || x >= 2;
                &&& under_way(s, base, m)
                &&& b.flow is Next || b.flow == tmp(l, 20) ==> a.ram == b.ram && a.flow == (if goes_up(
                    x % 2 == 1,
                    rest,
                    b.ram[at(scr, 2)] % 2 == 1,
                ) {
                    Flow::Next
                } else {
                    tmp(l, 32)
                })
                &&& b.flow is Seek && b.flow != tmp(l, 20) ==> a == b
            }),
    {
        let b = exec(st.rows, base, m);
        let s = self.fadd_test(st, scr, l);
        let a = exec(s.rows, base, m);
        assert(base <= s.rows.len());
        if b.flow is Next || b.flow == tmp(l, 20) {
            let x = b.ram[at(scr, 10)];
            let (u, v, w) = (b.ram[at(scr, 6)], b.ram[at(scr, 12)], b.ram[at(scr, 13)]);
            let some = u != 0 || v != 0 || w % 128 != 0;
            assert(window(b, scr) % 0x80_0000 == u + 0x100 * v + 0x1_0000 * (w % 128));
            lemma_masks();
            if x % 2 == 0 {
                assert(a.core == b.core && a.ram == b.ram && a.flow == tmp(l, 32)) by {
                    broadcast use group_exec;

                }
            } else if some {
                assert(a.core == b.core && a.ram == b.ram && a.flow is Next) by {
                    broadcast use group_exec;

                }
            } else {
                assert(a.core == b.core && a.ram == b.ram && a.flow == (if (x / 2) % 2 == 1
                    || b.ram[at(scr, 2)] % 2 == 1 {
                    Flow::Next
                } else {
                    tmp(l, 32)
                })) by {
                    broadcast use group_exec;

                }
            }
        } else {
            assert(a == b) by {
                broadcast use group_exec;

            }
        }
    }

    /// A mantissa without its top bit at exponent one is stored with exponent zero.
    pub open spec fn fadd_den(&self, st: St, scr: u32, l: u32) -> St {
        st.emit(label_tmp(label_at(l, 32))).emit(movf(at(scr, 4))).emit(lit(LitOp::Andlw, 0x80)).emit(
            on_z(BitOp::Btfss),
        ).emit(goto_tmp(label_at(l, 33))).emit(movf(at(scr, 1))).emit(lit(LitOp::Sublw, 0x01)).emit(
            on_z(BitOp::Btfss),
        ).emit(goto_tmp(label_at(l, 33))).emit(clrf(at(scr, 1))).emit(
            label_tmp(label_at(l, 33)),
        ).emit(label_tmp(label_at(l, 22)))
    }

    #[verifier::rlimit(50)]
    proof fn lemma_fadd_den(&self, st: St, scr: u32, l: u32, base: int, m: Machine)
        requires
            under_way(st, base, m),
            scr <= 0xFFFF,
            l <= u32::MAX - 50,
            ({
                let b = exec(st.rows, base, m);
                ||| returning(b.flow, l)
                ||| b.flow == tmp(l, 2)
                ||| b.flow is Next
                ||| b.flow == tmp(l, 32)
            }),
        ensures
            ({
                let b = exec(st.rows, base, m);
                let s = self.fadd_den(st, scr, l);
                let a = exec(s.rows, base, m);
                &&& under_way(s, base, m)
                &&& b.flow is Next || b.flow == tmp(l, 32) ==> a.flow is Next && a.ram == (if b.ram[at(
                    scr,
                    4,
                )] < 128 && b.ram[at(scr, 1)] == 1 {
                    b.ram.insert(at(scr, 1), 0)
                } else {
                    b.ram
                })
                &&& b.flow == tmp(l, 22) ==> a.flow is Next && a.ram == b.ram
                &&& b.flow == tmp(l, 6) || b.flow == tmp(l, 18) || b.flow == tmp(l, 2) ==> a == b
            }),
    {
        let b = exec(st.rows, base, m);
        let s = self.fadd_den(st, scr, l);
        let a = exec(s.rows, base, m);
        lemma_masks();
        assert(base <= s.rows.len());
        if b.flow is Next || b.flow == tmp(l, 32) {
            if b.ram[at(scr, 4)] >= 128 {
                assert(a.core == b.core && a.flow is Next && a.ram == b.ram) by {
                    broadcast use group_exec;

                }
            } else {
                assert(a.core == b.core && a.flow is Next && a.ram == (if b.ram[at(scr, 1)] == 1 {
                    b.ram.insert(at(scr, 1), 0)
                } else {
                    b.ram
                })) by {
                    broadcast use group_exec;

                }
            }
        } else if b.flow == tmp(l, 22) {
            assert(a.core == b.core && a.flow is Next && a.ram == b.ram) by {
                broadcast use group_exec;

            }
        } else {
            assert(a == b) by {
                broadcast use group_exec;

            }
        }
    }

    /// The rows before the result is put together.
    pub open spec fn fadd_rounded(&self, st: St, scr: u32, l: u32) -> St {
        self.fadd_den(
            self.round_up(
                self.fadd_test(st, scr, l),
                at(scr, 2),
                at(scr, 3),
                at(scr, 4),
                at(scr, 1),
            ),
            scr,
            l,
        )
    }

    proof fn lemma_fadd_rounded_over(&self, st: St, scr: u32, l: u32, base: int, m: Machine)
        requires
            under_way(st, base, m),
            scr <= 0xFFFF,
            l <= u32::MAX - 50,
            st.next == l + 34,
            returning(exec(st.rows, base, m).flow, l) || exec(st.rows, base, m).flow == tmp(l, 2),
        ensures
            ({
                let b = exec(st.rows, base, m);
                let s = self.fadd_rounded(st, scr, l);
                let a = exec(s.rows, base, m);
                &&& under_way(s, base, m)
                &&& b.flow == tmp(l, 22) ==> a.flow is Next && a.ram == b.ram
                &&& b.flow == tmp(l, 32) ==> a.flow is Next && a.ram == (if b.ram[at(scr, 4)] < 128
                    && b.ram[at(scr, 1)] == 1 {
                    b.ram.insert(at(scr, 1), 0)
                } else {
                    b.ram
                })
                &&& b.flow != tmp(l, 22) && b.flow != tmp(l, 32) ==> a == b
            }),
    {
        let (m0, m1, m2, e) = (at(scr, 2), at(scr, 3), at(scr, 4), at(scr, 1));
        let s1 = self.fadd_test(st, scr, l);
        self.lemma_fadd_test(st, scr, l, base, m);
        assert(s1.next == l + 34);
        let s2 = self.round_up(s1, m0, m1, m2, e);
        self.lemma_round_up(s1, m0, m1, m2, e, base, m);
        self.lemma_fadd_den(s2, scr, l, base, m);
    }

    /// Whether the mantissa is rounded up past its greatest value.
    pub open spec fn fadd_fills(&self, m: Machine, scr: u32) -> bool {
        three(m, at(scr, 2)) == 0xFF_FFFF && goes_up(
            m.ram[at(scr, 10)] % 2 == 1,
            window(m, scr) % 0x80_0000 != 0 || m.ram[at(scr, 10)] >= 2,
            true,
        )
    }

    proof fn lemma_fadd_rounded(&self, st: St, scr: u32, l: u32, base: int, m: Machine)
        requires
            under_way(st, base, m),
            scr <= 0xFFFF,
            l <= u32::MAX - 50,
            st.next == l + 34,
            ({
                let b = exec(st.rows, base, m);
                &&& b.flow is Next || b.flow == tmp(l, 20)
                &&& b.ram[at(scr, 10)] < 4
                &&& 1 <= b.ram[at(scr, 1)]
                &&& b.ram[at(scr, 1)] <= 254 || !self.fadd_fills(b, scr)
                &&& three(b, at(scr, 2)) >= 0x80_0000 || b.ram[at(scr, 1)] == 1
            }),
        ensures
            ({
                let b = exec(st.rows, base, m);
                let s = self.fadd_rounded(st, scr, l);
                let a = exec(s.rows, base, m);
                let x = b.ram[at(scr, 10)];
                let v = three(b, at(scr, 2));
                &&& under_way(s, base, m)
                &&& a.flow is Next
                &&& a.ram[scr] == b.ram[scr]
                &&& packed_float(
                    false,
                    a.ram[at(scr, 1)] as int,
                    mantissa(a, at(scr, 2), at(scr, 3), at(scr, 4)) % 0x80_0000 + 0x80_0000,
                ) == packed_float(
                    false,
                    b.ram[at(scr, 1)] as int,
                    v + flag(
                        goes_up(
                            x % 2 == 1,
                            window(b, scr) % 0x80_0000 != 0 || x >= 2,
                            v % 2 == 1,
                        ),
                    ),
                )
            }),
    {
        let b = exec(st.rows, base, m);
        let (m0, m1, m2, e) = (at(scr, 2), at(scr, 3), at(scr, 4), at(scr, 1));
        let s1 = self.fadd_test(st, scr, l);
        self.lemma_fadd_test(st, scr, l, base, m);
        let c1 = exec(s1.rows, base, m);
        assert(s1.next == l + 34);
        let s2 = self.round_up(s1, m0, m1, m2, e);
        self.lemma_round_up(s1, m0, m1, m2, e, base, m);
        let c2 = exec(s2.rows, base, m);
        lemma_top_bit(b, m0, m1, m2);
        lemma_top_bit(c2, m0, m1, m2);
        let s3 = self.fadd_den(s2, scr, l);
        self.lemma_fadd_den(s2, scr, l, base, m);
        let a = exec(s3.rows, base, m);
        let u = mantissa(c2, m0, m1, m2);
        assert(mantissa(c1, m0, m1, m2) == three(b, m0));
        assert(mantissa(a, m0, m1, m2) == u);
        assert(a.ram[scr] == b.ram[scr]);
        if u < 0x80_0000 {
            assert(a.ram[e] == 0);
            assert(u % 0x80_0000 == u);
        } else {
            assert(a.ram[e] == c2.ram[e]);
            assert(u % 0x80_0000 == u - 0x80_0000);
        }
    }

    /// The rounded result, put together.
    pub(crate) proof fn lemma_fadd_round(&self, st: St, scr: u32, l: u32, base: int, m: Machine)
        requires
            under_way(st, base, m),
            scr <= 0xFFFF,
            self.retval <= 0xFFFF,
            self.retval + 4 <= scr || scr + 14 <= self.retval,
            l <= u32::MAX - 50,
            st.next == l + 34,
            ({
                let b = exec(st.rows, base, m);
                ||| returning(b.flow, l)
                ||| b.flow == tmp(l, 2)
                ||| {
                    &&& b.flow is Next || b.flow == tmp(l, 20)
                    &&& b.ram[at(scr, 10)] < 4
                    &&& 1 <= b.ram[at(scr, 1)]
                    &&& b.ram[at(scr, 1)] <= 254 || !self.fadd_fills(b, scr)
                    &&& three(b, at(scr, 2)) >= 0x80_0000 || b.ram[at(scr, 1)] == 1
                }
            }),
        ensures
            ({
                let b = exec(st.rows, base, m);
                let s = self.addf_round(st, scr, l);
                let a = exec(s.rows, base, m);
                let x = b.ram[at(scr, 10)];
                let v = three(b, at(scr, 2));
                &&& base <= s.rows.len()
                &&& b.flow is Next || b.flow == tmp(l, 20) ==> a.flow is Gone && word(a, self.retval, 4)
                    == packed_float(
                    b.ram[scr] >= 128,
                    b.ram[at(scr, 1)] as int,
                    v + flag(
                        goes_up(
                            x % 2 == 1,
                            window(b, scr) % 0x80_0000 != 0 || x >= 2,
                            v % 2 == 1,
                        ),
                    ),
                )
                &&& b.flow == tmp(l, 22) ==> a.flow is Gone && word(a, self.retval, 4) == packed_float(
                    b.ram[scr] >= 128,
                    b.ram[at(scr, 1)] as int,
                    v % 0x80_0000 + 0x80_0000,
                )
                &&& b.flow == tmp(l, 32) ==> a.flow is Gone && word(a, self.retval, 4) == packed_float(
                    b.ram[scr] >= 128,
                    if v < 0x80_0000 && b.ram[at(scr, 1)] == 1 {
                        0
                    } else {
                        b.ram[at(scr, 1)] as int
                    },
                    v % 0x80_0000 + 0x80_0000,
                )
                &&& b.flow == tmp(l, 6) || b.flow == tmp(l, 18) || b.flow == tmp(l, 2) ==> a == b
            }),
    {
        let b = exec(st.rows, base, m);
        let (m0, m1, m2, e) = (at(scr, 2), at(scr, 3), at(scr, 4), at(scr, 1));
        let s3 = self.fadd_rounded(st, scr, l);
        if b.flow is Next || b.flow == tmp(l, 20) {
            self.lemma_fadd_rounded(st, scr, l, base, m);
        } else {
            self.lemma_fadd_rounded_over(st, scr, l, base, m);
            lemma_top_bit(b, m0, m1, m2);
        }
        self.lemma_assemble(s3, scr, e, m0, m1, m2, base, m);
        let s4 = self.assemble(s3, scr, e, m0, m1, m2);
        assert(base <= s4.rows.len());
        assert(self.addf_round(st, scr, l) == s4) by {
            reveal(Gen::addf_round);
        }
    }

    /// A zero result: negative only if both operands are.
    #[verifier::rlimit(50)]
    pub(crate) proof fn lemma_fadd_zero(&self, st: St, scr: u32, l: u32, base: int, m: Machine)
        requires
            0 <= base <= st.rows.len(),
            scr <= 0xFFFF,
            l <= u32::MAX - 50,
            ({
                let b = exec(st.rows, base, m);
                ||| b.flow is Gone
                ||| b.flow == tmp(l, 6)
                ||| b.flow == tmp(l, 18)
                ||| b.flow == tmp(l, 2) && b.core is Enhanced && (b.ram[scr] == 0 || b.ram[scr] == 0x80)
                    && (b.ram[at(scr, 5)] == 0 || b.ram[at(scr, 5)] == 0x80)
            }),
        ensures
            ({
                let b = exec(st.rows, base, m);
                let a = exec(self.addf_zero(st, scr, l).rows, base, m);
                &&& b.flow == tmp(l, 2) ==> {
                    &&& a.flow == tmp(l, 22)
                    &&& a.core == b.core
                    &&& a.ram[scr] == sign_byte(b.ram[scr] == 0x80 && b.ram[at(scr, 5)] == 0x80)
                    &&& a.ram[at(scr, 1)] == 0
                    &&& three(a, at(scr, 2)) == 0
                }
                &&& b.flow != tmp(l, 2) ==> a == b
            }),
    {
        reveal(Gen::addf_zero);
        let b = exec(st.rows, base, m);
        let a = exec(self.addf_zero(st, scr, l).rows, base, m);
        if b.flow is Gone {
            assert(a == b) by {
                broadcast use group_exec, lemma_step_gone;

            }
        } else if b.flow == tmp(l, 2) {
            let both = b.ram[scr] == 0x80 && b.ram[at(scr, 5)] == 0x80;
            assert(a.core == b.core && a.flow == tmp(l, 22) && a.ram[scr] == sign_byte(both) && a.ram[at(
                scr,
                1,
            )] == 0 && a.ram[at(scr, 2)] == 0 && a.ram[at(scr, 3)] == 0 && a.ram[at(scr, 4)] == 0) by {
                broadcast use group_exec;

            }
        } else {
            assert(a == b) by {
                broadcast use group_exec;

            }
        }
    }
}

} // verus!
