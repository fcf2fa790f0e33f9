//! The conversion routines from single-precision numbers give integers.
use vstd::prelude::*;
use crate::emit::{
    at, clrf, f_op, goto_tmp, label_at, label_tmp, lit, movf, movlw, movwf, on_c, on_z, ram_bit, w_op, Row, St,
};
use crate::line::{BitOp, Line, LitOp, Op, Sym};
use crate::machine::{exec, group_exec, lemma_exec_push, runs_to, settle, step, wrap, Flow, Machine};
use crate::meaning::{apart, lemma_pow2_positive, lemma_shift_more, number, pow2, word};
use crate::ir::BinOp;
use crate::pic14e::laws::float_order::{
    exponent, fraction, lemma_masks, lemma_parts, negative,
};
use crate::pic14e::laws::ready;
use crate::pic14e::Gen;

verus! {

/// The magnitude of a number, its fraction dropped. A number with exponent zero
/// is less than one.
pub open spec fn whole(x: int) -> int {
    if exponent(x) == 0 {
        0
    } else if exponent(x) <= 150 {
        (0x80_0000 + fraction(x)) / pow2(150 - exponent(x))
    } else {
        (0x80_0000 + fraction(x)) * pow2(exponent(x) - 150)
    }
}

/// The integer that a number becomes: truncated toward zero, and the nearest end
/// of the range for a number out of range. An unsigned conversion drops the
/// sign. A negative integer is written as two's complement.
pub open spec fn integer(x: int, signed: bool) -> int {
    if !signed {
        if whole(x) > 0xFFFF_FFFF {
            0xFFFF_FFFF
        } else {
            whole(x)
        }
    } else if !negative(x) {
        if whole(x) > 0x7FFF_FFFF {
            0x7FFF_FFFF
        } else {
            whole(x)
        }
    } else if whole(x) > 0x8000_0000 {
        0x8000_0000
    } else if whole(x) == 0 {
        0
    } else {
        0x1_0000_0000 - whole(x)
    }
}

/// The working number of the conversion; its top byte stands apart.
pub open spec fn working(m: Machine, scr: u32) -> int {
    number(m.ram[at(scr, 2)], m.ram[at(scr, 3)], m.ram[at(scr, 4)], m.ram[at(scr, 6)], 4)
}

/// The working number with the sign applied.
pub open spec fn settled_sign(m: Machine, scr: u32, v: int, signed: bool) -> int {
    if signed && m.ram[at(scr, 5)] >= 128 && v != 0 {
        0x1_0000_0000 - v
    } else {
        v
    }
}

/// Whether the slots of a conversion share no byte.
pub open spec fn convert_slots(val: u32, scr: u32, r: u32) -> bool {
    &&& val <= 0xFFFF && scr <= 0xFFFF && r <= 0xFFFF
    &&& apart(val, 4, scr, 8)
    &&& apart(r, 4, scr, 8)
}

/// Whether the run of the rows from `base` on is at the next row or on its way to
/// a label.
pub open spec fn under_way(st: St, base: int, m: Machine) -> bool {
    &&& 0 <= base <= st.rows.len()
    &&& exec(st.rows, base, m).core is Enhanced
    &&& exec(st.rows, base, m).flow is Next || exec(st.rows, base, m).flow is Seek
}

/// On the way to label `i` of a body whose labels start at `l`.
pub open spec fn tmp(l: u32, i: u32) -> Flow {
    Flow::Seek(Sym::Tmp((l + i) as u32))
}

impl<'a> Gen<'a> {
    proof fn lemma_unpack(
        &self,
        st: St,
        val: u32,
        scr: u32,
        signed: bool,
        l: u32,
        base: int,
        m: Machine,
    )
        requires
            under_way(st, base, m),
            convert_slots(val, scr, self.retval),
            l <= u32::MAX - 8,
        ensures
            ({
                let b = exec(st.rows, base, m);
                let s = self.ftoi_unpack(st, val, scr, signed, l);
                let a = exec(s.rows, base, m);
                let x = word(b, val, 4);
                &&& base <= s.rows.len()
                &&& b.flow is Next ==> {
                    &&& a.core == b.core
                    &&& a.ram[scr] == exponent(x)
                    &&& signed ==> (a.ram[at(scr, 5)] >= 128) == negative(x)
                    &&& a.ram[at(scr, 6)] == 0
                    &&& if exponent(x) == 0 {
                        a.flow == tmp(l, 6) && working(a, scr) == 0
                    } else {
                        a.flow is Next && working(a, scr) == 0x80_0000 + fraction(x)
                    }
                }
                &&& b.flow is Seek && b.flow != tmp(l, 0) ==> a == b
            }),
    {
        let b = exec(st.rows, base, m);
        let s1 = self.unpack_exponent(st, val, scr);
        self.lemma_unpack_exponent(st, val, scr, base, m);
        let m1 = exec(s1.rows, base, m);
        let s2 = self.unpack_sign(s1, val, scr, signed);
        self.lemma_unpack_sign(s1, val, scr, signed, base, m);
        let m2 = exec(s2.rows, base, m);
        self.lemma_unpack_mantissa(s2, val, scr, l, base, m);
        assert(self.ftoi_unpack(st, val, scr, signed, l) == self.unpack_mantissa(s2, val, scr, l));
        if b.flow is Next {
            lemma_parts(b, val);
            assert(m2.ram[val] == b.ram[val] && m2.ram[at(val, 1)] == b.ram[at(val, 1)] && m2.ram[at(
                val,
                2,
            )] == b.ram[at(val, 2)] && m2.ram[at(val, 3)] == b.ram[at(val, 3)]);
            assert(m2.ram[scr] == m1.ram[scr]);
        }
    }

    /// The exponent of the number at `val` into the byte at `e`.
    pub open spec fn unpack_exponent(&self, st: St, val: u32, e: u32) -> St {
        st.emit(movf(at(val, 3))).emit(lit(LitOp::Andlw, 0x7F)).emit(movwf(e)).emit(
            on_c(BitOp::Bcf),
        ).emit(f_op(Op::Rlf, e)).emit(ram_bit(BitOp::Btfsc, at(val, 2), 7)).emit(
            ram_bit(BitOp::Bsf, e, 0),
        )
    }

    #[verifier::rlimit(50)]
    pub(crate) proof fn lemma_unpack_exponent(&self, st: St, val: u32, e: u32, base: int, m: Machine)
        requires
            under_way(st, base, m),
            val <= 0xFFFF,
            e <= 0x1_FFFF,
            apart(val, 4, e, 1),
        ensures
            ({
                let b = exec(st.rows, base, m);
                let s = self.unpack_exponent(st, val, e);
                let a = exec(s.rows, base, m);
                &&& base <= s.rows.len()
                &&& b.flow is Next ==> {
                    &&& a.core == b.core
                    &&& a.flow is Next
                    &&& a.ram[e] == exponent(word(b, val, 4))
                    &&& forall|y: u32| y != e ==> #[trigger] a.ram[y] == b.ram[y]
                }
                &&& b.flow is Seek ==> a == b
            }),
    {
        let b = exec(st.rows, base, m);
        let s = self.unpack_exponent(st, val, e);
        let a = exec(s.rows, base, m);
        if b.flow is Next {
            lemma_masks();
            let (x, y) = (b.ram[at(val, 3)], b.ram[at(val, 2)]);
            assert(a.core == b.core && a.flow is Next && a.ram[e] == 2 * (x % 128) + y / 128 && (
            forall|z: u32| z != e ==> #[trigger] a.ram[z] == b.ram[z])) by {
                broadcast use group_exec;

            }
            lemma_parts(b, val);
        } else if b.flow is Seek {
            assert(a == b) by {
                broadcast use group_exec;

            }
        }
    }

    /// Its sign into the byte above the mantissa.
    pub open spec fn unpack_sign(&self, st: St, val: u32, scr: u32, signed: bool) -> St {
        if signed {
            st.emit(movf(at(val, 3))).emit(lit(LitOp::Andlw, 0x80)).emit(movwf(at(scr, 5)))
        } else {
            st
        }
    }

    proof fn lemma_unpack_sign(
        &self,
        st: St,
        val: u32,
        scr: u32,
        signed: bool,
        base: int,
        m: Machine,
    )
        requires
            under_way(st, base, m),
        ensures
            ({
                let b = exec(st.rows, base, m);
                let s = self.unpack_sign(st, val, scr, signed);
                let a = exec(s.rows, base, m);
                &&& base <= s.rows.len()
                &&& b.flow is Next ==> {
                    &&& a.core == b.core
                    &&& a.flow is Next
                    &&& signed ==> (a.ram[at(scr, 5)] >= 128) == (b.ram[at(val, 3)] >= 128)
                    &&& forall|y: u32| y != at(scr, 5) ==> #[trigger] a.ram[y] == b.ram[y]
                }
                &&& b.flow is Seek ==> a == b
            }),
    {
        broadcast use group_exec;

        lemma_masks();
    }

    /// Its mantissa, or zero and the jump to the end.
    pub open spec fn unpack_mantissa(&self, st: St, val: u32, scr: u32, l: u32) -> St {
        let m0 = at(scr, 2);
        let m1 = at(scr, 3);
        let m2 = at(scr, 4);
        let m3 = at(scr, 6);
        st.emit(movf(scr)).emit(on_z(BitOp::Btfss)).emit(goto_tmp(label_at(l, 0))).emit(clrf(m0))
            .emit(clrf(m1)).emit(clrf(m2)).emit(clrf(m3)).emit(goto_tmp(label_at(l, 6)))
            .emit(label_tmp(label_at(l, 0))).emit(movf(val)).emit(movwf(m0)).emit(movf(at(val, 1)))
            .emit(movwf(m1)).emit(movf(at(val, 2))).emit(lit(LitOp::Andlw, 0x7F))
            .emit(lit(LitOp::Iorlw, 0x80)).emit(movwf(m2)).emit(clrf(m3))
    }

    #[verifier::rlimit(50)]
    proof fn lemma_unpack_mantissa(
        &self,
        st: St,
        val: u32,
        scr: u32,
        l: u32,
        base: int,
        m: Machine,
    )
        requires
            under_way(st, base, m),
            convert_slots(val, scr, self.retval),
            l <= u32::MAX - 8,
        ensures
            ({
                let b = exec(st.rows, base, m);
                let s = self.unpack_mantissa(st, val, scr, l);
                let a = exec(s.rows, base, m);
                &&& base <= s.rows.len()
                &&& b.flow is Next ==> {
                    &&& a.core == b.core
                    &&& a.ram[scr] == b.ram[scr]
                    &&& a.ram[at(scr, 5)] == b.ram[at(scr, 5)]
                    &&& a.ram[at(scr, 6)] == 0
                    &&& if b.ram[scr] == 0 {
                        a.flow == tmp(l, 6) && working(a, scr) == 0
                    } else {
                        a.flow is Next && working(a, scr) == 0x80_0000 + b.ram[val] + 0x100 * b.ram[at(
                            val,
                            1,
                        )] + 0x1_0000 * (b.ram[at(val, 2)] % 128)
                    }
                }
                &&& b.flow is Seek && b.flow != tmp(l, 0) ==> a == b
            }),
    {
        let b = exec(st.rows, base, m);
        let s = self.unpack_mantissa(st, val, scr, l);
        let a = exec(s.rows, base, m);
        let b2 = b.ram[at(val, 2)];
        assert((b2 & 0x7Fu8) | 0x80u8 == 128 + b2 % 128) by (bit_vector);
        assert(base <= s.rows.len());
        if b.flow is Next && b.ram[scr] == 0 {
            assert(a.core == b.core && a.ram[scr] == b.ram[scr] && a.ram[at(scr, 5)] == b.ram[at(
                scr,
                5,
            )] && a.ram[at(scr, 6)] == 0 && a.flow == tmp(l, 6) && a.ram[at(scr, 2)] == 0
                && a.ram[at(scr, 3)] == 0 && a.ram[at(scr, 4)] == 0) by {
                broadcast use group_exec;

            }
        } else if b.flow is Next {
            assert(a.core == b.core && a.ram[scr] == b.ram[scr] && a.ram[at(scr, 5)] == b.ram[at(
                scr,
                5,
            )] && a.ram[at(scr, 6)] == 0 && a.flow is Next && a.ram[at(scr, 2)] == b.ram[val]
                && a.ram[at(scr, 3)] == b.ram[at(val, 1)] && a.ram[at(scr, 4)] == 128 + b2 % 128) by {
                broadcast use group_exec;

            }
        } else if b.flow is Seek && b.flow != tmp(l, 0) {
            assert(a == b) by {
                broadcast use group_exec;

            }
        }
    }

    /// What a right shift does before its loop.
    pub open spec fn right_head(&self, st: St, scr: u32, l: u32) -> St {
        let cnt = at(scr, 1);
        st.emit(movf(scr)).emit(lit(LitOp::Sublw, 0x96)).emit(on_c(BitOp::Btfss)).emit(
            goto_tmp(label_at(l, 1)),
        ).emit(movwf(cnt)).emit(movlw(0x1F)).emit(w_op(Op::Subwf, cnt)).emit(on_c(BitOp::Btfss))
            .emit(goto_tmp(label_at(l, 2))).emit(movlw(0x1F)).emit(movwf(cnt)).emit(
            label_tmp(label_at(l, 2)),
        ).emit(movf(cnt)).emit(on_z(BitOp::Btfss)).emit(goto_tmp(label_at(l, 3))).emit(
            goto_tmp(label_at(l, 6)),
        )
    }

    /// One turn of its loop, and the way on.
    pub open spec fn right_turn(&self, st: St, scr: u32, l: u32) -> St {
        st.emit(label_tmp(label_at(l, 3))).emit(on_c(BitOp::Bcf)).emit(
            f_op(Op::Rrf, at(scr, 4)),
        ).emit(f_op(Op::Rrf, at(scr, 3))).emit(f_op(Op::Rrf, at(scr, 2))).emit(
            f_op(Op::Decfsz, at(scr, 1)),
        ).emit(goto_tmp(label_at(l, 3))).emit(goto_tmp(label_at(l, 6)))
    }

    #[verifier::rlimit(50)]
    proof fn lemma_right_head(&self, st: St, scr: u32, l: u32, base: int, m: Machine)
        requires
            under_way(st, base, m),
            scr <= 0xFFFF,
            l <= u32::MAX - 8,
        ensures
            ({
                let b = exec(st.rows, base, m);
                let s = self.right_head(st, scr, l);
                let a = exec(s.rows, base, m);
                let e = b.ram[scr];
                &&& base <= s.rows.len()
                &&& b.flow is Next ==> {
                    &&& a.core == b.core
                    &&& forall|y: u32| y != at(scr, 1) ==> #[trigger] a.ram[y] == b.ram[y]
                    &&& if e > 150 {
                        a.flow == tmp(l, 1) && a.w == 150 - e + 256
                    } else {
                        a.ram[at(scr, 1)] == (if 150 - e >= 31 {
                            31
                        } else {
                            150 - e
                        }) && a.flow == (if e == 150 {
                            tmp(l, 6)
                        } else {
                            tmp(l, 3)
                        })
                    }
                }
                &&& b.flow is Seek && b.flow != tmp(l, 2) ==> a == b
            }),
    {
        let b = exec(st.rows, base, m);
        let s = self.right_head(st, scr, l);
        let a = exec(s.rows, base, m);
        let e = b.ram[scr];
        let cnt = at(scr, 1);
        assert(base <= s.rows.len());
        if b.flow is Next {
            let s1 = st.emit(movf(scr)).emit(lit(LitOp::Sublw, 0x96)).emit(on_c(BitOp::Btfss)).emit(
                goto_tmp(label_at(l, 1)),
            ).emit(movwf(cnt));
            let m1 = exec(s1.rows, base, m);
            let s2 = s1.emit(movlw(0x1F)).emit(w_op(Op::Subwf, cnt)).emit(on_c(BitOp::Btfss)).emit(
                goto_tmp(label_at(l, 2)),
            ).emit(movlw(0x1F)).emit(movwf(cnt)).emit(label_tmp(label_at(l, 2)));
            let m2 = exec(s2.rows, base, m);
            assert(base <= s1.rows.len() <= s2.rows.len());
            if e > 150 {
                assert(m1.core == b.core && m1.ram == b.ram && m1.flow == tmp(l, 1) && m1.w == 150 - e
                    + 256) by {
                    broadcast use group_exec;

                }
                assert(m2 == m1) by {
                    broadcast use group_exec;

                }
                assert(a == m2) by {
                    broadcast use group_exec;

                }
            } else {
                assert(m1.core == b.core && m1.ram == b.ram.insert(cnt, (150 - e) as u8) && m1.flow is Next) by {
                    broadcast use group_exec;

                }
                assert(m2.core == b.core && m2.flow is Next && m2.ram[cnt] == (if 150 - e >= 31 {
                    31
                } else {
                    150 - e
                }) && (forall|y: u32| y != cnt ==> #[trigger] m2.ram[y] == b.ram[y])) by {
                    broadcast use group_exec;

                }
                assert(a.core == b.core && a.ram == m2.ram && a.flow == (if m2.ram[cnt] == 0 {
                    tmp(l, 6)
                } else {
                    tmp(l, 3)
                })) by {
                    broadcast use group_exec;

                }
            }
        } else if b.flow is Seek && b.flow != tmp(l, 2) {
            assert(a == b) by {
                broadcast use group_exec;

            }
        }
    }

    #[verifier::rlimit(50)]
    proof fn lemma_right_turn(&self, st: St, scr: u32, l: u32, base: int, m: Machine)
        requires
            under_way(st, base, m),
            scr <= 0xFFFF,
            l <= u32::MAX - 8,
        ensures
            ({
                let b = exec(st.rows, base, m);
                let s = self.right_turn(st, scr, l);
                let a = exec(s.rows, base, m);
                &&& base <= s.rows.len()
                &&& b.flow == tmp(l, 3) && b.ram[at(scr, 6)] == 0 && b.ram[at(scr, 1)] > 0 ==> {
                    &&& a.core == b.core
                    &&& a.ram[at(scr, 6)] == 0
                    &&& a.ram[at(scr, 5)] == b.ram[at(scr, 5)]
                    &&& a.ram[at(scr, 1)] == b.ram[at(scr, 1)] - 1
                    &&& working(a, scr) == working(b, scr) / 2
                    &&& a.flow == (if b.ram[at(scr, 1)] == 1 {
                        tmp(l, 6)
                    } else {
                        tmp(l, 3)
                    })
                }
                &&& b.flow is Seek && b.flow != tmp(l, 3) ==> a == b
            }),
    {
        let b = exec(st.rows, base, m);
        let s = self.right_turn(st, scr, l);
        let a = exec(s.rows, base, m);
        let (x, y, z) = (b.ram[at(scr, 2)] as int, b.ram[at(scr, 3)] as int, b.ram[at(scr, 4)] as int);
        assert(base <= s.rows.len());
        assert(b.flow is Seek && b.flow != tmp(l, 3) ==> a == b) by {
            broadcast use group_exec;

        }
        if b.flow == tmp(l, 3) && b.ram[at(scr, 6)] == 0 && b.ram[at(scr, 1)] > 0 {
            assert(a.core == b.core && a.ram[at(scr, 6)] == 0 && a.ram[at(scr, 5)] == b.ram[at(scr, 5)]
                && a.ram[at(scr, 1)] == b.ram[at(scr, 1)] - 1 && a.ram[at(scr, 4)] == z / 2
                && a.ram[at(scr, 3)] == y / 2 + 128 * (z % 2) && a.ram[at(scr, 2)] == x / 2 + 128 * (y
                % 2) && a.flow == (if b.ram[at(scr, 1)] == 1 {
                tmp(l, 6)
            } else {
                tmp(l, 3)
            })) by {
                broadcast use group_exec;

            }
        }
    }

    /// What a left shift does before its loop, or the clamped result.
    pub open spec fn left_head(&self, st: St, scr: u32, signed: bool, l: u32) -> St {
        let cnt = at(scr, 1);
        let st = st.emit(label_tmp(label_at(l, 1))).emit(lit(LitOp::Sublw, 0x00)).emit(movwf(cnt));
        let st = if signed {
            st.emit(movlw(0x08))
        } else {
            st.emit(movlw(0x09))
        };
        let st = st.emit(w_op(Op::Subwf, cnt)).emit(on_c(BitOp::Btfss)).emit(
            goto_tmp(label_at(l, 4)),
        );
        self.clamp(st, scr, signed, l)
    }

    /// The end of the range that is nearest.
    pub open spec fn clamp(&self, st: St, scr: u32, signed: bool, l: u32) -> St {
        let m0 = at(scr, 2);
        let m1 = at(scr, 3);
        let m2 = at(scr, 4);
        let m3 = at(scr, 6);
        let st = if signed {
            st.emit(ram_bit(BitOp::Btfss, at(scr, 5), 7)).emit(goto_tmp(label_at(l, 5))).emit(
                clrf(m0),
            ).emit(clrf(m1)).emit(clrf(m2)).emit(movlw(0x80)).emit(movwf(m3)).emit(
                goto_tmp(label_at(l, 6)),
            ).emit(label_tmp(label_at(l, 5))).emit(movlw(0xFF)).emit(movwf(m0)).emit(movwf(m1))
                .emit(movwf(m2)).emit(movlw(0x7F)).emit(movwf(m3))
        } else {
            st.emit(movlw(0xFF)).emit(movwf(m0)).emit(movwf(m1)).emit(movwf(m2)).emit(movwf(m3))
        };
        st.emit(goto_tmp(label_at(l, 6)))
    }

    #[verifier::rlimit(50)]
    proof fn lemma_clamp_over(&self, st: St, scr: u32, signed: bool, l: u32, base: int, m: Machine)
        requires
            under_way(st, base, m),
            l <= u32::MAX - 8,
            exec(st.rows, base, m).flow is Seek,
            exec(st.rows, base, m).flow != tmp(l, 5),
        ensures
            exec(self.clamp(st, scr, signed, l).rows, base, m) == exec(st.rows, base, m),
    {
        if signed {
            broadcast use group_exec;

        } else {
            broadcast use group_exec;

        }
    }

    proof fn lemma_clamp_unsigned(&self, st: St, scr: u32, l: u32, base: int, m: Machine)
        requires
            under_way(st, base, m),
            scr <= 0xFFFF,
            l <= u32::MAX - 8,
            exec(st.rows, base, m).flow is Next,
        ensures
            ({
                let b = exec(st.rows, base, m);
                let a = exec(self.clamp(st, scr, false, l).rows, base, m);
                &&& a.core == b.core
                &&& a.ram[at(scr, 5)] == b.ram[at(scr, 5)]
                &&& a.flow == tmp(l, 6)
                &&& working(a, scr) == 0xFFFF_FFFF
            }),
    {
        let b = exec(st.rows, base, m);
        let a = exec(self.clamp(st, scr, false, l).rows, base, m);
        assert(a.core == b.core && a.flow == tmp(l, 6) && a.ram == b.ram.insert(at(scr, 2), 255).insert(
            at(scr, 3),
            255,
        ).insert(at(scr, 4), 255).insert(at(scr, 6), 255)) by {
            broadcast use group_exec;

        }
    }

    #[verifier::rlimit(50)]
    proof fn lemma_clamp_signed(&self, st: St, scr: u32, l: u32, base: int, m: Machine)
        requires
            under_way(st, base, m),
            scr <= 0xFFFF,
            l <= u32::MAX - 8,
            exec(st.rows, base, m).flow is Next,
        ensures
            ({
                let b = exec(st.rows, base, m);
                let a = exec(self.clamp(st, scr, true, l).rows, base, m);
                &&& a.core == b.core
                &&& a.ram[at(scr, 5)] == b.ram[at(scr, 5)]
                &&& a.flow == tmp(l, 6)
                &&& working(a, scr) == (if b.ram[at(scr, 5)] >= 128 {
                    0x8000_0000
                } else {
                    0x7FFF_FFFFint
                })
            }),
    {
        let b = exec(st.rows, base, m);
        let a = exec(self.clamp(st, scr, true, l).rows, base, m);
        let m0 = at(scr, 2);
        let m1 = at(scr, 3);
        let m2 = at(scr, 4);
        let m3 = at(scr, 6);
        let s1 = st.emit(ram_bit(BitOp::Btfss, at(scr, 5), 7)).emit(goto_tmp(label_at(l, 5)));
        let s2 = s1.emit(clrf(m0)).emit(clrf(m1)).emit(clrf(m2)).emit(movlw(0x80)).emit(
            movwf(m3),
        ).emit(goto_tmp(label_at(l, 6)));
        let c1 = exec(s1.rows, base, m);
        let c2 = exec(s2.rows, base, m);
        assert(base <= s1.rows.len() <= s2.rows.len());
        let neg = b.ram[at(scr, 5)] >= 128;
        assert(c1.core == b.core && c1.ram == b.ram && c1.flow == (if neg {
            Flow::Next
        } else {
            tmp(l, 5)
        })) by {
            broadcast use group_exec;

        }
        if neg {
            assert(c2.core == b.core && c2.flow == tmp(l, 6) && c2.ram == b.ram.insert(m0, 0).insert(
                m1,
                0,
            ).insert(m2, 0).insert(m3, 128)) by {
                broadcast use group_exec;

            }
            assert(a == c2) by {
                broadcast use group_exec;

            }
        } else {
            assert(c2 == c1) by {
                broadcast use group_exec;

            }
            assert(a.core == b.core && a.flow == tmp(l, 6) && a.ram == b.ram.insert(m0, 255).insert(
                m1,
                255,
            ).insert(m2, 255).insert(m3, 127)) by {
                broadcast use group_exec;

            }
        }
    }

    proof fn lemma_clamp(&self, st: St, scr: u32, signed: bool, l: u32, base: int, m: Machine)
        requires
            under_way(st, base, m),
            scr <= 0xFFFF,
            l <= u32::MAX - 8,
        ensures
            ({
                let b = exec(st.rows, base, m);
                let s = self.clamp(st, scr, signed, l);
                let a = exec(s.rows, base, m);
                &&& base <= s.rows.len()
                &&& b.flow is Next ==> {
                    &&& a.core == b.core
                    &&& a.ram[at(scr, 5)] == b.ram[at(scr, 5)]
                    &&& a.flow == tmp(l, 6)
                    &&& working(a, scr) == (if !signed {
                        0xFFFF_FFFF
                    } else if b.ram[at(scr, 5)] >= 128 {
                        0x8000_0000
                    } else {
                        0x7FFF_FFFFint
                    })
                }
                &&& b.flow is Seek && b.flow != tmp(l, 5) ==> a == b
            }),
    {
        let b = exec(st.rows, base, m);
        assert(base <= self.clamp(st, scr, signed, l).rows.len());
        if b.flow is Seek {
            if b.flow != tmp(l, 5) {
                self.lemma_clamp_over(st, scr, signed, l, base, m);
            }
        } else if signed {
            self.lemma_clamp_signed(st, scr, l, base, m);
        } else {
            self.lemma_clamp_unsigned(st, scr, l, base, m);
        }
    }

    /// One turn of its loop.
    pub open spec fn left_turn(&self, st: St, scr: u32, l: u32) -> St {
        st.emit(label_tmp(label_at(l, 4))).emit(on_c(BitOp::Bcf)).emit(
            f_op(Op::Rlf, at(scr, 2)),
        ).emit(f_op(Op::Rlf, at(scr, 3))).emit(f_op(Op::Rlf, at(scr, 4))).emit(
            f_op(Op::Rlf, at(scr, 6)),
        ).emit(f_op(Op::Decfsz, at(scr, 1))).emit(goto_tmp(label_at(l, 4)))
    }

    #[verifier::rlimit(50)]
    proof fn lemma_left_head(&self, st: St, scr: u32, signed: bool, l: u32, base: int, m: Machine)
        requires
            under_way(st, base, m),
            scr <= 0xFFFF,
            l <= u32::MAX - 8,
        ensures
            ({
                let b = exec(st.rows, base, m);
                let s = self.left_head(st, scr, signed, l);
                let a = exec(s.rows, base, m);
                let over = if signed {
                    8int
                } else {
                    9int
                };
                &&& base <= s.rows.len()
                &&& b.flow == tmp(l, 1) && b.w > 0 ==> {
                    let n = 256 - b.w;
                    &&& a.core == b.core
                    &&& a.ram[at(scr, 5)] == b.ram[at(scr, 5)]
                    &&& if n >= over {
                        a.flow == tmp(l, 6) && working(a, scr) == (if !signed {
                            0xFFFF_FFFF
                        } else if b.ram[at(scr, 5)] >= 128 {
                            0x8000_0000
                        } else {
                            0x7FFF_FFFFint
                        })
                    } else {
                        a.flow == tmp(l, 4) && a.ram[at(scr, 1)] == n && working(a, scr) == working(
                            b,
                            scr,
                        )
                    }
                }
                &&& b.flow is Seek && b.flow != tmp(l, 1) && b.flow != tmp(l, 5) ==> a == b
            }),
    {
        let b = exec(st.rows, base, m);
        let cnt = at(scr, 1);
        let s1 = st.emit(label_tmp(label_at(l, 1))).emit(lit(LitOp::Sublw, 0x00)).emit(movwf(cnt));
        let m1 = exec(s1.rows, base, m);
        let k = if signed {
            8u8
        } else {
            9u8
        };
        let s2 = s1.emit(movlw(k)).emit(w_op(Op::Subwf, cnt)).emit(on_c(BitOp::Btfss)).emit(
            goto_tmp(label_at(l, 4)),
        );
        let m2 = exec(s2.rows, base, m);
        assert(self.left_head(st, scr, signed, l) == self.clamp(s2, scr, signed, l));
        assert(base <= s1.rows.len() <= s2.rows.len() <= self.clamp(s2, scr, signed, l).rows.len());
        if b.flow == tmp(l, 1) && b.w > 0 {
            let n = 256 - b.w;
            assert(m1.core == b.core && m1.flow is Next && m1.ram == b.ram.insert(cnt, n as u8)) by {
                broadcast use group_exec;

            }
            assert(m2.core == b.core && m2.ram == m1.ram && m2.flow == (if n >= k {
                Flow::Next
            } else {
                tmp(l, 4)
            })) by {
                broadcast use group_exec;

            }
            self.lemma_clamp(s2, scr, signed, l, base, m);
        } else if b.flow is Seek && b.flow != tmp(l, 1) && b.flow != tmp(l, 5) {
            assert(m2 == b) by {
                broadcast use group_exec;

            }
            self.lemma_clamp(s2, scr, signed, l, base, m);
        }
    }

    proof fn lemma_left_turn(&self, st: St, scr: u32, l: u32, base: int, m: Machine)
        requires
            under_way(st, base, m),
            scr <= 0xFFFF,
            l <= u32::MAX - 8,
        ensures
            ({
                let b = exec(st.rows, base, m);
                let s = self.left_turn(st, scr, l);
                let a = exec(s.rows, base, m);
                &&& base <= s.rows.len()
                &&& b.flow == tmp(l, 4) && working(b, scr) < 0x8000_0000 && b.ram[at(scr, 1)] > 0 ==> {
                    &&& a.core == b.core
                    &&& a.ram[at(scr, 5)] == b.ram[at(scr, 5)]
                    &&& a.ram[at(scr, 1)] == b.ram[at(scr, 1)] - 1
                    &&& working(a, scr) == 2 * working(b, scr)
                    &&& a.flow == (if b.ram[at(scr, 1)] == 1 {
                        Flow::Next
                    } else {
                        tmp(l, 4)
                    })
                }
                &&& b.flow is Seek && b.flow != tmp(l, 4) ==> a == b
            }),
    {
        broadcast use group_exec;

    }

    proof fn lemma_store(&self, st: St, scr: u32, signed: bool, l: u32, base: int, m: Machine)
        requires
            under_way(st, base, m),
            scr <= 0xFFFF,
            self.retval <= 0xFFFF,
            apart(self.retval, 4, scr, 8),
            l <= u32::MAX - 8,
        ensures
            ({
                let b = exec(st.rows, base, m);
                let s = self.ftoi_store(st, scr, signed, l);
                let a = exec(s.rows, base, m);
                &&& b.flow is Next || b.flow == tmp(l, 6) ==> a.flow is Gone && word(
                    a,
                    self.retval,
                    4,
                ) == settled_sign(b, scr, working(b, scr), signed)
                &&& b.flow is Seek && b.flow != tmp(l, 6) && b.flow != tmp(l, 7) ==> a == b
            }),
    {
        let b = exec(st.rows, base, m);
        let sign = at(scr, 5);
        let s1 = st.emit(label_tmp(label_at(l, 6)));
        let s2 = if signed {
            self.split_negate(
                s1.emit(ram_bit(BitOp::Btfss, sign, 7)).emit(goto_tmp(label_at(l, 7))),
                scr,
            ).emit(label_tmp(label_at(l, 7)))
        } else {
            s1
        };
        let c = exec(s2.rows, base, m);
        assert(self.ftoi_store(st, scr, signed, l) == self.hand_over(s2, scr));
        assert(base <= s2.rows.len());
        if b.flow is Seek && b.flow != tmp(l, 6) && b.flow != tmp(l, 7) {
            assert(c == b) by {
                broadcast use group_exec;

            }
            self.lemma_hand_over(s2, scr, base, m);
        }
        if b.flow is Next || b.flow == tmp(l, 6) {
            self.lemma_signed_part(st, scr, signed, l, base, m);
            self.lemma_hand_over(s2, scr, base, m);
        }
    }

    /// The working number into the result bytes, and the return.
    pub open spec fn hand_over(&self, st: St, scr: u32) -> St {
        let r = self.retval;
        st.emit(movf(at(scr, 2))).emit(movwf(r)).emit(movf(at(scr, 3))).emit(movwf(at(r, 1))).emit(
            movf(at(scr, 4)),
        ).emit(movwf(at(r, 2))).emit(movf(at(scr, 6))).emit(movwf(at(r, 3))).emit(Line::Return)
    }

    #[verifier::rlimit(50)]
    proof fn lemma_hand_over(&self, st: St, scr: u32, base: int, m: Machine)
        requires
            under_way(st, base, m),
            scr <= 0xFFFF,
            self.retval <= 0xFFFF,
            apart(self.retval, 4, scr, 8),
        ensures
            ({
                let b = exec(st.rows, base, m);
                let a = exec(self.hand_over(st, scr).rows, base, m);
                &&& b.flow is Next ==> a.flow is Gone && word(a, self.retval, 4) == working(b, scr)
                &&& b.flow is Seek ==> a == b
            }),
    {
        let b = exec(st.rows, base, m);
        let r = self.retval;
        let s1 = st.emit(movf(at(scr, 2))).emit(movwf(r)).emit(movf(at(scr, 3))).emit(
            movwf(at(r, 1)),
        ).emit(movf(at(scr, 4))).emit(movwf(at(r, 2))).emit(movf(at(scr, 6))).emit(movwf(at(r, 3)));
        let c = exec(s1.rows, base, m);
        let a = exec(self.hand_over(st, scr).rows, base, m);
        assert(base <= s1.rows.len());
        if b.flow is Next {
            assert(c.flow is Next && c.ram[r] == b.ram[at(scr, 2)] && c.ram[at(r, 1)] == b.ram[at(
                scr,
                3,
            )] && c.ram[at(r, 2)] == b.ram[at(scr, 4)] && c.ram[at(r, 3)] == b.ram[at(scr, 6)]) by {
                broadcast use group_exec;

            }
        } else {
            assert(c == b) by {
                broadcast use group_exec;

            }
        }
        lemma_exec_push(s1.rows, Row { line: Line::Return, loc: None }, base, m);
        reveal(step);
    }

    /// The negative of the working number.
    pub open spec fn split_negate(&self, st: St, scr: u32) -> St {
        let m0 = at(scr, 2);
        let m1 = at(scr, 3);
        let m2 = at(scr, 4);
        let m3 = at(scr, 6);
        st.emit(f_op(Op::Comf, m0)).emit(f_op(Op::Comf, m1)).emit(f_op(Op::Comf, m2)).emit(
            f_op(Op::Comf, m3),
        ).emit(f_op(Op::Incf, m0)).emit(on_z(BitOp::Btfsc)).emit(f_op(Op::Incf, m1)).emit(
            on_z(BitOp::Btfsc),
        ).emit(f_op(Op::Incf, m2)).emit(on_z(BitOp::Btfsc)).emit(f_op(Op::Incf, m3))
    }

    #[verifier::rlimit(50)]
    proof fn lemma_split_negate(&self, st: St, scr: u32, base: int, m: Machine)
        requires
            ready(st, base, m),
            scr <= 0xFFFF,
        ensures
            ({
                let b = exec(st.rows, base, m);
                let s = self.split_negate(st, scr);
                let a = exec(s.rows, base, m);
                let v = working(b, scr);
                &&& ready(s, base, m)
                &&& a.core == b.core
                &&& working(a, scr) == (if v == 0 {
                    0
                } else {
                    0x1_0000_0000 - v
                })
            }),
    {
        let b = exec(st.rows, base, m);
        let m0 = at(scr, 2);
        let m1 = at(scr, 3);
        let m2 = at(scr, 4);
        let m3 = at(scr, 6);
        let s1 = st.emit(f_op(Op::Comf, m0)).emit(f_op(Op::Comf, m1)).emit(f_op(Op::Comf, m2)).emit(
            f_op(Op::Comf, m3),
        );
        let c = exec(s1.rows, base, m);
        assert(ready(s1, base, m) && c.core == b.core && c.ram[m0] == 255 - b.ram[m0] && c.ram[m1]
            == 255 - b.ram[m1] && c.ram[m2] == 255 - b.ram[m2] && c.ram[m3] == 255 - b.ram[m3]) by {
            broadcast use group_exec;

        }
        let s2 = self.split_negate(st, scr);
        let a = exec(s2.rows, base, m);
        let (x0, x1, x2) = (c.ram[m0], c.ram[m1], c.ram[m2]);
        assert(ready(s2, base, m) && a.core == b.core && a.ram[m0] == wrap(x0 + 1) && a.ram[m1] == (
        if x0 == 255 {
            wrap(x1 + 1)
        } else {
            x1
        }) && a.ram[m2] == (if x0 == 255 && x1 == 255 {
            wrap(x2 + 1)
        } else {
            x2
        }) && a.ram[m3] == (if x0 == 255 && x1 == 255 && x2 == 255 {
            wrap(c.ram[m3] + 1)
        } else {
            c.ram[m3]
        })) by {
            broadcast use group_exec;

        }
    }

    #[verifier::rlimit(50)]
    proof fn lemma_signed_part(&self, st: St, scr: u32, signed: bool, l: u32, base: int, m: Machine)
        requires
            under_way(st, base, m),
            exec(st.rows, base, m).flow is Next || exec(st.rows, base, m).flow == tmp(l, 6),
            scr <= 0xFFFF,
            l <= u32::MAX - 8,
        ensures
            ({
                let b = exec(st.rows, base, m);
                let s1 = st.emit(label_tmp(label_at(l, 6)));
                let s2 = if signed {
                    self.split_negate(
                        s1.emit(ram_bit(BitOp::Btfss, at(scr, 5), 7)).emit(
                            goto_tmp(label_at(l, 7)),
                        ),
                        scr,
                    ).emit(label_tmp(label_at(l, 7)))
                } else {
                    s1
                };
                let c = exec(s2.rows, base, m);
                c.flow is Next && c.core == b.core && working(c, scr) == settled_sign(
                    b,
                    scr,
                    working(b, scr),
                    signed,
                )
            }),
    {
        let b = exec(st.rows, base, m);
        let s1 = st.emit(label_tmp(label_at(l, 6)));
        let c1 = exec(s1.rows, base, m);
        assert(c1 == (Machine { flow: Flow::Next, ..b })) by {
            broadcast use group_exec;

        }
        if signed {
            let s2 = s1.emit(ram_bit(BitOp::Btfss, at(scr, 5), 7)).emit(goto_tmp(label_at(l, 7)));
            let c2 = exec(s2.rows, base, m);
            let neg = b.ram[at(scr, 5)] >= 128;
            assert(base <= s2.rows.len() && s2.w is None && c2.core == b.core && c2.ram == b.ram && c2.flow
                == (if neg {
                Flow::Next
            } else {
                tmp(l, 7)
            })) by {
                broadcast use group_exec;

            }
            let s3 = self.split_negate(s2, scr);
            let c3 = exec(s3.rows, base, m);
            if neg {
                self.lemma_split_negate(s2, scr, base, m);
                assert(working(c2, scr) == working(b, scr));
            } else {
                assert(c3 == c2) by {
                    broadcast use group_exec;

                }
            }
            let s4 = s3.emit(label_tmp(label_at(l, 7)));
            assert(base <= s3.rows.len());
            assert(exec(s4.rows, base, m) == (Machine { flow: Flow::Next, ..c3 })) by {
                broadcast use group_exec;

            }
        }
    }

    /// Where a conversion has got to when it jumps back: to the right shift or to
    /// the left shift, with `left` turns to go; `r` is what comes out.
    pub open spec fn converting(
        &self,
        l: u32,
        scr: u32,
        signed: bool,
        m: Machine,
        right: bool,
        left: nat,
        r: int,
    ) -> bool {
        &&& m.core is Enhanced
        &&& m.ram[at(scr, 1)] == left
        &&& if right {
            m.flow == tmp(l, 3) && m.ram[at(scr, 6)] == 0 && r == settled_sign(
                m,
                scr,
                working(m, scr) / pow2(left as int),
                signed,
            )
        } else {
            m.flow == tmp(l, 4) && working(m, scr) * pow2(left as int) <= 0xFFFF_FFFF && r
                == settled_sign(m, scr, working(m, scr) * pow2(left as int), signed)
        }
    }

    /// From the left shift on.
    proof fn lemma_tail(
        &self,
        st: St,
        scr: u32,
        signed: bool,
        l: u32,
        right: bool,
        left: nat,
        r: int,
        base: int,
        m: Machine,
    )
        requires
            under_way(st, base, m),
            scr <= 0xFFFF,
            self.retval <= 0xFFFF,
            apart(self.retval, 4, scr, 8),
            l <= u32::MAX - 8,
            ({
                let b = exec(st.rows, base, m);
                ||| b.flow == tmp(l, 6) && left <= 1 && r == settled_sign(
                    b,
                    scr,
                    working(b, scr),
                    signed,
                )
                ||| left > 0 && !right && self.converting(l, scr, signed, b, false, left, r)
                ||| left > 1 && right && self.converting(l, scr, signed, b, true, (left - 1) as nat, r)
            }),
        ensures
            ({
                let s = self.ftoi_store(self.left_turn(st, scr, l), scr, signed, l);
                let a = exec(s.rows, base, m);
                if left <= 1 {
                    a.flow is Gone && word(a, self.retval, 4) == r
                } else {
                    self.converting(l, scr, signed, a, right, (left - 1) as nat, r)
                }
            }),
    {
        let b = exec(st.rows, base, m);
        let s1 = self.left_turn(st, scr, l);
        if left > 0 && !right && self.converting(l, scr, signed, b, false, left, r) {
            let v = working(b, scr);
            let p = pow2(left - 1);
            lemma_pow2_positive(left - 1);
            assert(v * pow2(left as int) == (2 * v) * p) by (nonlinear_arith)
                requires
                    pow2(left as int) == 2 * p,
            ;
            assert(2 * v <= (2 * v) * p) by (nonlinear_arith)
                requires
                    p >= 1,
                    v >= 0,
            ;
            if left == 1 {
                assert((2 * v) * p == 2 * v) by (nonlinear_arith)
                    requires
                        p == 1,
                ;
            }
        }
        self.lemma_left_turn(st, scr, l, base, m);
        self.lemma_store(s1, scr, signed, l, base, m);
    }

    proof fn lemma_parts_of_ftoi(&self, st: St, val: u32, scr: u32, signed: bool)
        requires
            st.next <= u32::MAX - 8,
        ensures
            ({
                let l = st.next;
                let s1 = self.ftoi_unpack(st.reserve(8), val, scr, signed, l);
                let s2 = self.right_turn(self.right_head(s1, scr, l), scr, l);
                let s3 = self.left_head(s2, scr, signed, l);
                self.ftoi(st, val, scr, signed) == self.ftoi_store(
                    self.left_turn(s3, scr, l),
                    scr,
                    signed,
                    l,
                )
            }),
    {
    }

    /// The first pass over the rows.
    proof fn lemma_first_pass(&self, st: St, val: u32, scr: u32, signed: bool, m: Machine) -> (t: (
        bool,
        nat,
    ))
        requires
            st.next <= u32::MAX - 8,
            convert_slots(val, scr, self.retval),
            m.flow is Next,
            m.core is Enhanced,
        ensures
            ({
                let a = exec(self.ftoi(st, val, scr, signed).rows, st.rows.len() as int, m);
                let r = integer(word(m, val, 4), signed);
                if t.1 <= 1 {
                    a.flow is Gone && word(a, self.retval, 4) == r
                } else {
                    self.converting(st.next, scr, signed, a, t.0, (t.1 - 1) as nat, r)
                }
            }),
    {
        let base = st.rows.len() as int;
        let l = st.next;
        let s0 = st.reserve(8);
        let x = word(m, val, 4);
        let e = exponent(x);
        let mant = 0x80_0000 + fraction(x);
        let r = integer(x, signed);
        assert(exec(s0.rows, base, m) == m) by {
            broadcast use group_exec;

        }
        self.lemma_parts_of_ftoi(st, val, scr, signed);
        let s1 = self.ftoi_unpack(s0, val, scr, signed, l);
        self.lemma_unpack(s0, val, scr, signed, l, base, m);
        let s2 = self.right_head(s1, scr, l);
        self.lemma_right_head(s1, scr, l, base, m);
        let s3 = self.right_turn(s2, scr, l);
        self.lemma_right_turn(s2, scr, l, base, m);
        let s4 = self.left_head(s3, scr, signed, l);
        self.lemma_left_head(s3, scr, signed, l, base, m);
        let m2 = exec(s2.rows, base, m);
        let m3 = exec(s3.rows, base, m);
        let m4 = exec(s4.rows, base, m);
        lemma_whole(x);
        let (right, left) = if e == 0 {
            (true, 0nat)
        } else if e <= 150 {
            (true, m2.ram[at(scr, 1)] as nat)
        } else if m4.flow == tmp(l, 4) {
            (false, m4.ram[at(scr, 1)] as nat)
        } else {
            (false, 0nat)
        };
        if e != 0 && e <= 150 {
            assert(working(m2, scr) == mant);
            if e == 150 {
                assert(mant / pow2(0) == mant);
                assert(m4 == m2);
            } else {
                lemma_shift_more(BinOp::LShr, mant, mant / 2, left as int, 4);
                assert(m4 == m3);
                if left == 1 {
                    assert((mant / 2) / pow2(0) == mant / 2);
                }
                assert(r == settled_sign(m3, scr, mant / pow2(left as int), signed));
            }
        }
        if e > 150 {
            assert(m3 == m2);
            if m4.flow == tmp(l, 4) {
                assert(working(m4, scr) == mant && left == e - 150);
            }
        }
        self.lemma_tail(s4, scr, signed, l, right, left, r, base, m);
        (right, left)
    }

    proof fn lemma_next_pass(
        &self,
        st: St,
        val: u32,
        scr: u32,
        signed: bool,
        m: Machine,
        right: bool,
        left: nat,
        r: int,
    )
        requires
            st.next <= u32::MAX - 8,
            convert_slots(val, scr, self.retval),
            left > 0,
            self.converting(st.next, scr, signed, m, right, left, r),
        ensures
            ({
                let a = exec(self.ftoi(st, val, scr, signed).rows, st.rows.len() as int, m);
                if left <= 1 {
                    a.flow is Gone && word(a, self.retval, 4) == r
                } else {
                    self.converting(st.next, scr, signed, a, right, (left - 1) as nat, r)
                }
            }),
    {
        let base = st.rows.len() as int;
        let l = st.next;
        let s0 = st.reserve(8);
        assert(exec(s0.rows, base, m) == m) by {
            broadcast use group_exec;

        }
        self.lemma_parts_of_ftoi(st, val, scr, signed);
        let s1 = self.ftoi_unpack(s0, val, scr, signed, l);
        self.lemma_unpack(s0, val, scr, signed, l, base, m);
        let s2 = self.right_head(s1, scr, l);
        self.lemma_right_head(s1, scr, l, base, m);
        let s3 = self.right_turn(s2, scr, l);
        self.lemma_right_turn(s2, scr, l, base, m);
        let s4 = self.left_head(s3, scr, signed, l);
        self.lemma_left_head(s3, scr, signed, l, base, m);
        if right {
            let v = working(m, scr);
            lemma_shift_more(BinOp::LShr, v, v / 2, left as int, 4);
            if left == 1 {
                assert((v / 2) / pow2(0) == v / 2);
            }
        }
        self.lemma_tail(s4, scr, signed, l, right, left, r, base, m);
    }

    proof fn lemma_passes(
        &self,
        st: St,
        val: u32,
        scr: u32,
        signed: bool,
        m: Machine,
        right: bool,
        left: nat,
        r: int,
    )
        requires
            st.next <= u32::MAX - 8,
            convert_slots(val, scr, self.retval),
            left > 0,
            self.converting(st.next, scr, signed, m, right, left, r),
        ensures
            ({
                let a = settle(
                    self.ftoi(st, val, scr, signed).rows,
                    st.rows.len() as int,
                    m,
                    left,
                );
                a.flow is Gone && word(a, self.retval, 4) == r
            }),
        decreases left,
    {
        self.lemma_next_pass(st, val, scr, signed, m, right, left, r);
        if left > 1 {
            let a = exec(self.ftoi(st, val, scr, signed).rows, st.rows.len() as int, m);
            self.lemma_passes(st, val, scr, signed, a, right, (left - 1) as nat, r);
        }
    }

    /// The conversion routine leaves the integer that its number becomes in the
    /// result bytes.
    pub proof fn law_float_becomes_an_integer(
        &self,
        st: St,
        val: u32,
        scr: u32,
        signed: bool,
        m: Machine,
    )
        requires
            st.next <= u32::MAX - 8,
            convert_slots(val, scr, self.retval),
            m.flow is Next,
            m.core is Enhanced,
        ensures
            exists|a: Machine| #[trigger]
                runs_to(self.ftoi(st, val, scr, signed).rows, st.rows.len() as int, m, a)
                    && a.flow is Gone && word(a, self.retval, 4) == integer(
                    word(m, val, 4),
                    signed,
                ),
    {
        let rows = self.ftoi(st, val, scr, signed).rows;
        let base = st.rows.len() as int;
        let r = integer(word(m, val, 4), signed);
        let (right, left) = self.lemma_first_pass(st, val, scr, signed, m);
        let y = exec(rows, base, m);
        if left <= 1 {
            assert(settle(rows, base, m, 1) == y);
            assert(runs_to(rows, base, m, y));
        } else {
            self.lemma_passes(st, val, scr, signed, y, right, (left - 1) as nat, r);
            let a = settle(rows, base, y, (left - 1) as nat);
            assert(settle(rows, base, m, left) == a);
            assert(runs_to(rows, base, m, a));
        }
    }
}

/// How large the magnitudes are: those shifted far right vanish, those shifted
/// left by nine bits or more pass 32 bits.
proof fn lemma_whole(x: int)
    requires
        0 <= x < 0x1_0000_0000,
    ensures
        ({
            let e = exponent(x);
            let mant = 0x80_0000 + fraction(x);
            &&& 0 < e <= 119 ==> whole(x) == 0 && mant / pow2(31) == 0
            &&& 0 < e <= 150 ==> 0 <= whole(x) <= mant
            &&& 150 < e < 158 ==> whole(x) < 0x8000_0000
            &&& e == 158 ==> 0x8000_0000 <= whole(x) <= 0xFFFF_FFFF
            &&& e > 158 ==> whole(x) > 0xFFFF_FFFF
        }),
{
    let e = exponent(x);
    let mant = 0x80_0000 + fraction(x);
    assert(pow2(31) == 0x8000_0000) by {
        reveal_with_fuel(pow2, 32);
    }
    if 0 < e <= 150 {
        let k = 150 - e;
        lemma_pow2_positive(k);
        let p = pow2(k);
        assert(0 <= mant / p <= mant) by (nonlinear_arith)
            requires
                p >= 1,
                mant >= 0,
        ;
        if k >= 31 {
            lemma_pow2_grows(31, k);
            assert(mant / p == 0) by (nonlinear_arith)
                requires
                    p >= 0x8000_0000,
                    0 <= mant < 0x8000_0000,
            ;
        }
    } else if e > 150 {
        let k = e - 150;
        let p = pow2(k);
        assert(pow2(7) == 128 && pow2(8) == 256 && pow2(9) == 512) by {
            reveal_with_fuel(pow2, 10);
        }
        if k <= 7 {
            lemma_pow2_grows(k, 7);
            assert(mant * p <= mant * 128) by (nonlinear_arith)
                requires
                    p <= 128,
                    mant >= 0,
            ;
        } else if k >= 9 {
            lemma_pow2_grows(9, k);
            assert(mant * p >= mant * 512) by (nonlinear_arith)
                requires
                    p >= 512,
                    mant >= 0,
            ;
        }
    }
}

pub(crate) proof fn lemma_pow2_grows(j: int, k: int)
    requires
        0 <= j <= k,
    ensures
        pow2(j) <= pow2(k),
    decreases k,
{
    if j < k {
        lemma_pow2_grows(j, k - 1);
        lemma_pow2_positive(k - 1);
    }
}

} // verus!
