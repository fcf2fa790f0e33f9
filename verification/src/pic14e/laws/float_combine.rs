//! The float sum: the mantissas added, or the smaller one taken from the greater.
use vstd::prelude::*;
use crate::emit::{
    at, clrf, f_op, goto_tmp, label_at, label_tmp, movf, movlw, movwf, on_c, on_z, ram_bit, w_op, St,
};
use crate::line::{BitOp, Op};
use crate::machine::{exec, group_exec, Flow, Machine};
use crate::meaning::flag;
use crate::pic14e::laws::float_align::window;
use crate::pic14e::laws::float_chain::three;
use crate::pic14e::laws::float_int::{tmp, under_way};
use crate::pic14e::laws::float_order::lemma_masks;
use crate::pic14e::laws::float_parts::returning;
use crate::pic14e::laws::float_product::lemma_top_bit;
use crate::pic14e::laws::ready;
use crate::pic14e::Gen;

verus! {

/// The window with its lowest bit set if anything was lost below it.
pub open spec fn jammed(w: int, lost: bool) -> int {
    if lost && w % 2 == 0 {
        w + 1
    } else {
        w
    }
}

impl<'a> Gen<'a> {
    /// The way to the difference for different signs.
    pub open spec fn fadd_signs(&self, st: St, scr: u32, l: u32) -> St {
        st.emit(movf(scr)).emit(w_op(Op::Xorwf, at(scr, 5))).emit(on_z(BitOp::Btfss)).emit(
            goto_tmp(label_at(l, 8)),
        )
    }

    proof fn lemma_fadd_signs(&self, st: St, scr: u32, l: u32, base: int, m: Machine)
        requires
            under_way(st, base, m),
            l <= u32::MAX - 50,
        ensures
            ({
                let b = exec(st.rows, base, m);
                let s = self.fadd_signs(st, scr, l);
                let a = exec(s.rows, base, m);
                &&& under_way(s, base, m)
                &&& b.flow is Next ==> a.ram == b.ram && a.flow == (if b.ram[scr] == b.ram[at(scr, 5)] {
                    Flow::Next
                } else {
                    tmp(l, 8)
                })
                &&& b.flow is Seek ==> a == b
            }),
    {
        lemma_masks();
        broadcast use group_exec;

    }

    /// The way to the shift for a carry.
    pub open spec fn fadd_carried(&self, st: St, scr: u32, l: u32) -> St {
        st.emit(on_c(BitOp::Btfsc)).emit(goto_tmp(label_at(l, 9))).emit(
            goto_tmp(label_at(l, 20)),
        ).emit(label_tmp(label_at(l, 9))).emit(ram_bit(BitOp::Btfsc, at(scr, 10), 0)).emit(
            ram_bit(BitOp::Bsf, at(scr, 10), 1),
        ).emit(on_c(BitOp::Bcf))
    }

    /// The shift back after a carry.
    pub open spec fn fadd_back(&self, st: St, scr: u32, l: u32) -> St {
        self.right3(st, at(scr, 2)).emit(ram_bit(BitOp::Bcf, at(scr, 10), 0)).emit(
            on_c(BitOp::Btfsc),
        ).emit(ram_bit(BitOp::Bsf, at(scr, 10), 0)).emit(ram_bit(BitOp::Bsf, at(scr, 4), 7)).emit(
            movlw(0x01),
        ).emit(f_op(Op::Addwf, at(scr, 1))).emit(goto_tmp(label_at(l, 20)))
    }

    #[verifier::rlimit(50)]
    proof fn lemma_fadd_back(&self, st: St, scr: u32, l: u32, base: int, m: Machine)
        requires
            ready(st, base, m),
            scr <= 0xFFFF,
            l <= u32::MAX - 50,
            !exec(st.rows, base, m).c,
            exec(st.rows, base, m).ram[at(scr, 10)] < 4,
            exec(st.rows, base, m).ram[at(scr, 1)] < 255,
        ensures
            ({
                let b = exec(st.rows, base, m);
                let s = self.fadd_back(st, scr, l);
                let a = exec(s.rows, base, m);
                let t = three(b, at(scr, 2));
                &&& under_way(s, base, m)
                &&& a.flow == tmp(l, 20)
                &&& three(a, at(scr, 2)) == 0x80_0000 + t / 2
                &&& a.ram[at(scr, 10)] == t % 2 + 2 * (b.ram[at(scr, 10)] / 2)
                &&& a.ram[at(scr, 1)] == b.ram[at(scr, 1)] + 1
                &&& a.ram[scr] == b.ram[scr]
                &&& window(a, scr) == window(b, scr)
            }),
    {
        let b = exec(st.rows, base, m);
        let t = three(b, at(scr, 2));
        let s1 = self.right3(st, at(scr, 2));
        self.lemma_right3(st, at(scr, 2), base, m);
        let c1 = exec(s1.rows, base, m);
        lemma_top_bit(b, at(scr, 2), at(scr, 3), at(scr, 4));
        lemma_top_bit(c1, at(scr, 2), at(scr, 3), at(scr, 4));
        assert(three(c1, at(scr, 2)) == t / 2);
        assert(c1.ram[at(scr, 4)] < 128);
        let x = c1.ram[at(scr, 10)];
        let s2 = s1.emit(ram_bit(BitOp::Bcf, at(scr, 10), 0)).emit(on_c(BitOp::Btfsc)).emit(
            ram_bit(BitOp::Bsf, at(scr, 10), 0),
        );
        let c2 = exec(s2.rows, base, m);
        assert(ready(s2, base, m) && c2.core == b.core && c2.ram == c1.ram.insert(
            at(scr, 10),
            (flag(c1.c) + 2 * (x / 2)) as u8,
        )) by {
            broadcast use group_exec;

        }
        let s = self.fadd_back(st, scr, l);
        let a = exec(s.rows, base, m);
        assert(base <= s.rows.len() && a.core == b.core && a.flow == tmp(l, 20) && a.ram
            == c2.ram.insert(at(scr, 4), (c2.ram[at(scr, 4)] + 128) as u8).insert(
            at(scr, 1),
            (c2.ram[at(scr, 1)] + 1) as u8,
        )) by {
            broadcast use group_exec;

        }
    }

    /// A sum without a carry is left as it is.
    proof fn lemma_fadd_plain(&self, st: St, scr: u32, l: u32, base: int, m: Machine)
        requires
            ready(st, base, m),
            l <= u32::MAX - 50,
            !exec(st.rows, base, m).c,
        ensures
            ({
                let b = exec(st.rows, base, m);
                let a = exec(self.fadd_back(self.fadd_carried(st, scr, l), scr, l).rows, base, m);
                a.core == b.core && a.flow == tmp(l, 20) && a.ram == b.ram
            }),
    {
        let b = exec(st.rows, base, m);
        let s3 = self.fadd_carried(st, scr, l);
        let c3 = exec(s3.rows, base, m);
        assert(base <= s3.rows.len() && c3.core == b.core && c3.flow == tmp(l, 20) && c3.ram == b.ram) by {
            broadcast use group_exec;

        }
        assert(exec(self.fadd_back(s3, scr, l).rows, base, m) == c3) by {
            broadcast use group_exec;

        }
    }

    /// After a carry the lowest bits are gathered before the shift.
    proof fn lemma_fadd_carried(&self, st: St, scr: u32, l: u32, base: int, m: Machine)
        requires
            ready(st, base, m),
            l <= u32::MAX - 50,
            exec(st.rows, base, m).c,
            exec(st.rows, base, m).ram[at(scr, 10)] < 4,
        ensures
            ({
                let b = exec(st.rows, base, m);
                let s = self.fadd_carried(st, scr, l);
                let a = exec(s.rows, base, m);
                let x = b.ram[at(scr, 10)];
                &&& ready(s, base, m)
                &&& a.core == b.core
                &&& !a.c
                &&& a.ram[at(scr, 10)] == x % 2 + 2 * flag(x != 0)
                &&& forall|y: u32| y != at(scr, 10) ==> #[trigger] a.ram[y] == b.ram[y]
            }),
    {
        broadcast use group_exec;

    }

    /// Equal signs: the mantissas are added, and shifted back after a carry.
    #[verifier::rlimit(50)]
    pub(crate) proof fn lemma_fadd_sum(&self, st: St, scr: u32, l: u32, base: int, m: Machine)
        requires
            under_way(st, base, m),
            exec(st.rows, base, m).flow is Next,
            scr <= 0xFFFF,
            l <= u32::MAX - 50,
            ({
                let b = exec(st.rows, base, m);
                &&& b.ram[scr] == b.ram[at(scr, 5)]
                &&& b.ram[at(scr, 10)] < 4
                &&& b.ram[at(scr, 1)] < 255
            }),
        ensures
            ({
                let b = exec(st.rows, base, m);
                let s = self.addf_sum(st, scr, l);
                let a = exec(s.rows, base, m);
                let t = three(b, at(scr, 2)) + three(b, at(scr, 7));
                let x = b.ram[at(scr, 10)];
                &&& under_way(s, base, m)
                &&& s.next == st.next
                &&& a.flow == tmp(l, 20)
                &&& a.ram[scr] == b.ram[scr]
                &&& window(a, scr) == window(b, scr)
                &&& if t < 0x100_0000 {
                    &&& three(a, at(scr, 2)) == t
                    &&& a.ram[at(scr, 10)] == x
                    &&& a.ram[at(scr, 1)] == b.ram[at(scr, 1)]
                } else {
                    &&& three(a, at(scr, 2)) == t / 2
                    &&& a.ram[at(scr, 10)] == t % 2 + 2 * flag(x != 0)
                    &&& a.ram[at(scr, 1)] == b.ram[at(scr, 1)] + 1
                }
            }),
    {
        let b = exec(st.rows, base, m);
        let t = three(b, at(scr, 2)) + three(b, at(scr, 7));
        let s1 = self.fadd_signs(st, scr, l);
        self.lemma_fadd_signs(st, scr, l, base, m);
        let c1 = exec(s1.rows, base, m);
        assert(three(c1, at(scr, 2)) == three(b, at(scr, 2)) && three(c1, at(scr, 7)) == three(
            b,
            at(scr, 7),
        ));
        let s2 = self.add3(s1, at(scr, 7), at(scr, 2));
        self.lemma_add3(s1, at(scr, 7), at(scr, 2), base, m);
        let c2 = exec(s2.rows, base, m);
        lemma_top_bit(c2, at(scr, 2), at(scr, 3), at(scr, 4));
        let s3 = self.fadd_carried(s2, scr, l);
        let c3 = exec(s3.rows, base, m);
        let s4 = self.fadd_back(s3, scr, l);
        let a = exec(s4.rows, base, m);
        assert(self.addf_sum(st, scr, l) == s4) by {
            reveal(Gen::addf_sum);
        }
        assert(base <= s3.rows.len() <= s4.rows.len());
        let x = b.ram[at(scr, 10)];
        assert(c2.ram[at(scr, 10)] == x);
        if t < 0x100_0000 {
            self.lemma_fadd_plain(s2, scr, l, base, m);
        } else {
            assert(c2.c);
            self.lemma_fadd_carried(s2, scr, l, base, m);
            assert(three(c3, at(scr, 2)) == t - 0x100_0000);
            assert(window(c3, scr) == window(b, scr));
            self.lemma_fadd_back(s3, scr, l, base, m);
        }
    }

    /// Different signs, or a run on its way back: the sum is passed over.
    #[verifier::rlimit(50)]
    pub(crate) proof fn lemma_fadd_sum_over(&self, st: St, scr: u32, l: u32, base: int, m: Machine)
        requires
            under_way(st, base, m),
            l <= u32::MAX - 50,
            ({
                let b = exec(st.rows, base, m);
                returning(b.flow, l) || b.flow is Next && b.ram[scr] != b.ram[at(scr, 5)]
            }),
        ensures
            ({
                let b = exec(st.rows, base, m);
                let s = self.addf_sum(st, scr, l);
                let a = exec(s.rows, base, m);
                &&& under_way(s, base, m)
                &&& s.next == st.next
                &&& b.flow is Next ==> a.ram == b.ram && a.flow == tmp(l, 8)
                &&& returning(b.flow, l) ==> a == b
            }),
    {
        let b = exec(st.rows, base, m);
        let s1 = self.fadd_signs(st, scr, l);
        self.lemma_fadd_signs(st, scr, l, base, m);
        let c1 = exec(s1.rows, base, m);
        let s2 = self.add3(s1, at(scr, 7), at(scr, 2));
        assert(base <= s2.rows.len() && exec(s2.rows, base, m) == c1) by {
            broadcast use group_exec;

        }
        let s3 = self.fadd_carried(s2, scr, l);
        assert(base <= s3.rows.len() && exec(s3.rows, base, m) == c1) by {
            broadcast use group_exec;

        }
        let s4 = self.fadd_back(s3, scr, l);
        assert(base <= s4.rows.len() && exec(s4.rows, base, m) == c1) by {
            broadcast use group_exec;

        }
        assert(self.addf_sum(st, scr, l) == s4) by {
            reveal(Gen::addf_sum);
        }
    }

    /// The comparison of two bytes of the mantissas.
    pub open spec fn fadd_compare(&self, st: St, x: u32, y: u32, l: u32, l_same: u32) -> St {
        st.emit(movf(y)).emit(w_op(Op::Subwf, x)).emit(on_c(BitOp::Btfss)).emit(
            goto_tmp(label_at(l, 14)),
        ).emit(on_z(BitOp::Btfsc)).emit(goto_tmp(l_same)).emit(goto_tmp(label_at(l, 15))).emit(
            label_tmp(l_same),
        )
    }

    #[verifier::rlimit(50)]
    proof fn lemma_fadd_compare(
        &self,
        st: St,
        x: u32,
        y: u32,
        l: u32,
        i: u32,
        base: int,
        m: Machine,
    )
        requires
            under_way(st, base, m),
            l <= u32::MAX - 50,
            10 <= i <= 12,
            ({
                let b = exec(st.rows, base, m);
                ||| returning(b.flow, l)
                ||| b.flow is Next
                ||| b.flow == tmp(l, 14)
                ||| b.flow == tmp(l, 15)
                ||| b.flow == tmp(l, 20)
            }),
        ensures
            ({
                let b = exec(st.rows, base, m);
                let s = self.fadd_compare(st, x, y, l, (l + i) as u32);
                let a = exec(s.rows, base, m);
                &&& under_way(s, base, m)
                &&& b.flow is Next ==> a.ram == b.ram && a.flow == (if b.ram[x] < b.ram[y] {
                    tmp(l, 14)
                } else if b.ram[x] == b.ram[y] {
                    Flow::Next
                } else {
                    tmp(l, 15)
                })
                &&& b.flow is Seek ==> a == b
            }),
    {
        let b = exec(st.rows, base, m);
        let s = self.fadd_compare(st, x, y, l, (l + i) as u32);
        let a = exec(s.rows, base, m);
        assert(base <= s.rows.len());
        if b.flow is Next {
            assert(a.core == b.core && a.ram == b.ram && a.flow == (if b.ram[x] < b.ram[y] {
                tmp(l, 14)
            } else if b.ram[x] == b.ram[y] {
                Flow::Next
            } else {
                tmp(l, 15)
            })) by {
                broadcast use group_exec;

            }
        } else {
            assert(a == b) by {
                broadcast use group_exec;

            }
        }
    }

    /// The comparison of the mantissas.
    pub open spec fn fadd_compares(&self, st: St, scr: u32, l: u32) -> St {
        let s = st.emit(label_tmp(label_at(l, 8)));
        let s = self.fadd_compare(s, at(scr, 4), at(scr, 9), l, label_at(l, 10));
        let s = self.fadd_compare(s, at(scr, 3), at(scr, 8), l, label_at(l, 11));
        self.fadd_compare(s, at(scr, 2), at(scr, 7), l, label_at(l, 12))
    }

    proof fn lemma_fadd_compares(&self, st: St, scr: u32, l: u32, base: int, m: Machine)
        requires
            under_way(st, base, m),
            l <= u32::MAX - 50,
            ({
                let b = exec(st.rows, base, m);
                returning(b.flow, l) || b.flow == tmp(l, 8) || b.flow == tmp(l, 20)
            }),
        ensures
            ({
                let b = exec(st.rows, base, m);
                let s = self.fadd_compares(st, scr, l);
                let a = exec(s.rows, base, m);
                let (x, y) = (three(b, at(scr, 2)), three(b, at(scr, 7)));
                &&& under_way(s, base, m)
                &&& b.flow == tmp(l, 8) ==> a.ram == b.ram && a.flow == (if x < y {
                    tmp(l, 14)
                } else if x == y {
                    Flow::Next
                } else {
                    tmp(l, 15)
                })
                &&& b.flow != tmp(l, 8) ==> a == b
            }),
    {
        let b = exec(st.rows, base, m);
        let s0 = st.emit(label_tmp(label_at(l, 8)));
        let c0 = exec(s0.rows, base, m);
        assert(base <= s0.rows.len() && c0.core == b.core && c0.ram == b.ram && (b.flow == tmp(l, 8)
            ==> c0.flow is Next) && (b.flow != tmp(l, 8) ==> c0 == b)) by {
            broadcast use group_exec;

        }
        let s1 = self.fadd_compare(s0, at(scr, 4), at(scr, 9), l, label_at(l, 10));
        self.lemma_fadd_compare(s0, at(scr, 4), at(scr, 9), l, 10, base, m);
        let s2 = self.fadd_compare(s1, at(scr, 3), at(scr, 8), l, label_at(l, 11));
        self.lemma_fadd_compare(s1, at(scr, 3), at(scr, 8), l, 11, base, m);
        self.lemma_fadd_compare(s2, at(scr, 2), at(scr, 7), l, 12, base, m);
    }

    /// Equal mantissas: zero, or what the window holds.
    pub open spec fn fadd_equal(&self, st: St, scr: u32, l: u32) -> St {
        st.emit(movf(at(scr, 6))).emit(w_op(Op::Iorwf, at(scr, 12))).emit(
            w_op(Op::Iorwf, at(scr, 13)),
        ).emit(on_z(BitOp::Btfss)).emit(goto_tmp(label_at(l, 13))).emit(
            ram_bit(BitOp::Btfss, at(scr, 10), 1),
        ).emit(goto_tmp(label_at(l, 2))).emit(label_tmp(label_at(l, 13))).emit(
            ram_bit(BitOp::Btfsc, at(scr, 10), 1),
        ).emit(ram_bit(BitOp::Bsf, at(scr, 6), 0)).emit(clrf(at(scr, 2))).emit(
            clrf(at(scr, 3)),
        ).emit(clrf(at(scr, 4))).emit(goto_tmp(label_at(l, 18))).emit(label_tmp(label_at(l, 14)))
    }

    #[verifier::rlimit(50)]
    proof fn lemma_fadd_equal(&self, st: St, scr: u32, l: u32, base: int, m: Machine)
        requires
            under_way(st, base, m),
            scr <= 0xFFFF,
            l <= u32::MAX - 50,
            ({
                let b = exec(st.rows, base, m);
                ||| returning(b.flow, l)
                ||| b.flow == tmp(l, 14)
                ||| b.flow == tmp(l, 15)
                ||| b.flow == tmp(l, 20)
                ||| b.flow is Next && window(b, scr) == 0 && b.ram[at(scr, 10)] < 2
            }),
        ensures
            ({
                let b = exec(st.rows, base, m);
                let s = self.fadd_equal(st, scr, l);
                let a = exec(s.rows, base, m);
                &&& under_way(s, base, m)
                &&& a.ram == b.ram
                &&& b.flow is Next ==> a.flow == tmp(l, 2)
                &&& b.flow == tmp(l, 14) ==> a.flow is Next
                &&& b.flow is Seek && b.flow != tmp(l, 14) ==> a == b
            }),
    {
        let b = exec(st.rows, base, m);
        let s = self.fadd_equal(st, scr, l);
        let a = exec(s.rows, base, m);
        assert(base <= s.rows.len());
        if b.flow is Next {
            lemma_masks();
            assert(b.ram[at(scr, 6)] == 0 && b.ram[at(scr, 12)] == 0 && b.ram[at(scr, 13)] == 0);
            assert(a.core == b.core && a.ram == b.ram && a.flow == tmp(l, 2)) by {
                broadcast use group_exec;

            }
        } else if b.flow == tmp(l, 14) {
            assert(a.core == b.core && a.ram == b.ram && a.flow is Next) by {
                broadcast use group_exec;

            }
        } else {
            assert(a == b) by {
                broadcast use group_exec;

            }
        }
    }

    /// The mantissas exchanged, and the other sign.
    pub open spec fn fadd_turned(&self, st: St, scr: u32) -> St {
        let st = self.xor_swap(st, at(scr, 2), at(scr, 7));
        let st = self.xor_swap(st, at(scr, 3), at(scr, 8));
        let st = self.xor_swap(st, at(scr, 4), at(scr, 9));
        st.emit(movf(at(scr, 5))).emit(movwf(scr))
    }

    #[verifier::rlimit(50)]
    proof fn lemma_fadd_turned(&self, st: St, scr: u32, base: int, m: Machine)
        requires
            under_way(st, base, m),
            scr <= 0xFFFF,
        ensures
            ({
                let b = exec(st.rows, base, m);
                let s = self.fadd_turned(st, scr);
                let a = exec(s.rows, base, m);
                &&& under_way(s, base, m)
                &&& b.flow is Next ==> {
                    &&& a.flow is Next
                    &&& a.ram[scr] == b.ram[at(scr, 5)]
                    &&& three(a, at(scr, 2)) == three(b, at(scr, 7))
                    &&& three(a, at(scr, 7)) == three(b, at(scr, 2))
                    &&& a.ram[at(scr, 1)] == b.ram[at(scr, 1)]
                    &&& a.ram[at(scr, 10)] == b.ram[at(scr, 10)]
                    &&& window(a, scr) == window(b, scr)
                }
                &&& b.flow is Seek ==> a == b
            }),
    {
        let b = exec(st.rows, base, m);
        let s1 = self.xor_swap(st, at(scr, 2), at(scr, 7));
        self.lemma_xor_swap(st, at(scr, 2), at(scr, 7), base, m);
        let s2 = self.xor_swap(s1, at(scr, 3), at(scr, 8));
        self.lemma_xor_swap(s1, at(scr, 3), at(scr, 8), base, m);
        let s3 = self.xor_swap(s2, at(scr, 4), at(scr, 9));
        self.lemma_xor_swap(s2, at(scr, 4), at(scr, 9), base, m);
        let c3 = exec(s3.rows, base, m);
        let s = self.fadd_turned(st, scr);
        let a = exec(s.rows, base, m);
        assert(base <= s.rows.len());
        if b.flow is Next {
            assert(a.core == c3.core && a.flow is Next && a.ram == c3.ram.insert(
                scr,
                c3.ram[at(scr, 5)],
            )) by {
                broadcast use group_exec;

            }
        } else {
            assert(a == b) by {
                broadcast use group_exec;

            }
        }
    }

    /// Different signs: the greater mantissa comes first and gives the sign; equal
    /// ones have no difference.
    pub(crate) proof fn lemma_fadd_order(&self, st: St, scr: u32, l: u32, base: int, m: Machine)
        requires
            under_way(st, base, m),
            scr <= 0xFFFF,
            l <= u32::MAX - 50,
            ({
                let b = exec(st.rows, base, m);
                ||| returning(b.flow, l)
                ||| b.flow == tmp(l, 20)
                ||| b.flow == tmp(l, 8) && (three(b, at(scr, 2)) == three(b, at(scr, 7)) ==> window(
                    b,
                    scr,
                ) == 0 && b.ram[at(scr, 10)] < 2)
            }),
        ensures
            ({
                let b = exec(st.rows, base, m);
                let s = self.addf_order(st, scr, l);
                let a = exec(s.rows, base, m);
                let (x, y) = (three(b, at(scr, 2)), three(b, at(scr, 7)));
                &&& under_way(s, base, m)
                &&& s.next == st.next
                &&& b.flow == tmp(l, 8) ==> {
                    &&& x == y ==> a.flow == tmp(l, 2) && a.ram == b.ram
                    &&& x > y ==> a.flow == tmp(l, 15) && a.ram == b.ram
                    &&& x < y ==> {
                        &&& a.flow is Next
                        &&& a.ram[scr] == b.ram[at(scr, 5)]
                        &&& three(a, at(scr, 2)) == y
                        &&& three(a, at(scr, 7)) == x
                        &&& a.ram[at(scr, 1)] == b.ram[at(scr, 1)]
                        &&& a.ram[at(scr, 10)] == b.ram[at(scr, 10)]
                        &&& window(a, scr) == window(b, scr)
                    }
                }
                &&& b.flow != tmp(l, 8) ==> a == b
            }),
    {
        let b = exec(st.rows, base, m);
        let s1 = self.fadd_compares(st, scr, l);
        self.lemma_fadd_compares(st, scr, l, base, m);
        let c1 = exec(s1.rows, base, m);
        if b.flow == tmp(l, 8) {
            assert(window(c1, scr) == window(b, scr));
        }
        let s2 = self.fadd_equal(s1, scr, l);
        self.lemma_fadd_equal(s1, scr, l, base, m);
        let c2 = exec(s2.rows, base, m);
        let s3 = self.fadd_turned(s2, scr);
        self.lemma_fadd_turned(s2, scr, base, m);
        assert(self.addf_order(st, scr, l) == s3) by {
            reveal(Gen::addf_order);
        }
        if b.flow == tmp(l, 8) {
            assert(window(c2, scr) == window(b, scr));
            assert(three(c2, at(scr, 2)) == three(b, at(scr, 2)) && three(c2, at(scr, 7)) == three(
                b,
                at(scr, 7),
            ));
        }
    }
}

} // verus!
