//! The conversion routines from integers give the nearest single-precision
//! numbers.
use vstd::prelude::*;
use crate::emit::{
    at, clrf, f_op, goto_tmp, label_at, label_tmp, lit, movf, movwf, on_c, on_z, ram_bit, w_op, Row, St,
};
use crate::line::{BitOp, Line, LitOp, Op};
use crate::machine::{
    exec, group_exec, lemma_exec_push, lemma_step_gone, runs_to, settle, step, Flow, Machine,
};
use crate::meaning::{apart, limit, magnitude, pow2, seeking, signed, word};
use crate::pic14e::laws::float_int::{convert_slots, tmp, under_way};
use crate::pic14e::laws::float_order::lemma_masks;
use crate::pic14e::laws::float_round::{half_even, mantissa, packed_float};
use crate::pic14e::laws::ready;
use crate::pic14e::Gen;

verus! {

/// How often a 32-bit number can be doubled before its top bit is set.
pub open spec fn leading(v: int) -> nat
    decreases
            (if v < 0x8000_0000 {
                0x8000_0000 - v
            } else {
                0
            }),
{
    if v <= 0 || v >= 0x8000_0000 {
        0
    } else {
        1 + leading(2 * v)
    }
}

/// The number nearest to an integer of the given magnitude, ties to even. Its
/// mantissa is the top 24 bits from the leading one on.
pub open spec fn nearest(neg: bool, v: int) -> int {
    if v == 0 {
        if neg {
            0x8000_0000
        } else {
            0
        }
    } else {
        packed_float(neg, 158 - leading(v), half_even(v * pow2(leading(v) as int), 256))
    }
}

proof fn lemma_leading(v: int, j: int)
    requires
        0 <= j <= 31,
        v >= pow2(j),
    ensures
        leading(v) <= 31 - j,
    decreases 31 - j,
{
    if 0 < v < 0x8000_0000 {
        if j == 31 {
            assert(pow2(31) == 0x8000_0000) by {
                reveal_with_fuel(pow2, 32);
            }
        } else {
            lemma_leading(2 * v, j + 1);
        }
    }
}

/// The top 24 bits of a number and its low byte.
proof fn lemma_halves_of(b: Machine, val: u32)
    ensures
        ({
            let v = word(b, val, 4);
            let mant = mantissa(b, at(val, 1), at(val, 2), at(val, 3));
            &&& v / 256 == mant
            &&& v % 256 == b.ram[val]
            &&& mant % 2 == b.ram[at(val, 1)] % 2
            &&& v >= 0x8000_0000 ==> mant >= 0x80_0000
            &&& mant <= 0xFF_FFFF
        }),
{
}

/// Four bytes rotated left, a zero coming in.
proof fn lemma_doubled(b: Machine, a: Machine, val: u32)
    requires
        b.ram[at(val, 3)] < 128,
        a.ram[val] == 2 * b.ram[val] % 256,
        a.ram[at(val, 1)] == 2 * b.ram[at(val, 1)] % 256 + b.ram[val] / 128,
        a.ram[at(val, 2)] == 2 * b.ram[at(val, 2)] % 256 + b.ram[at(val, 1)] / 128,
        a.ram[at(val, 3)] == 2 * b.ram[at(val, 3)] + b.ram[at(val, 2)] / 128,
    ensures
        word(a, val, 4) == 2 * word(b, val, 4),
{
    let (x, y, z) = (b.ram[val], b.ram[at(val, 1)], b.ram[at(val, 2)]);
    assert(2 * x % 256 == 2 * x - 256 * (x / 128));
    assert(2 * y % 256 == 2 * y - 256 * (y / 128));
    assert(2 * z % 256 == 2 * z - 256 * (z / 128));
}

impl<'a> Gen<'a> {
    /// The sign that a conversion gives its result.
    pub open spec fn aside(&self, m: Machine, scr: u32) -> bool {
        m.ram[at(scr, 5)] >= 128
    }

    #[verifier::rlimit(50)]
    proof fn lemma_from_zero(
        &self,
        st: St,
        val: u32,
        scr: u32,
        with_sign: bool,
        l: u32,
        base: int,
        m: Machine,
    )
        requires
            under_way(st, base, m),
            convert_slots(val, scr, self.retval),
            l <= u32::MAX - 8,
        ensures
            ({
                let b = exec(st.rows, base, m);
                let s = self.utof_zero(st, val, scr, with_sign, l);
                let a = exec(s.rows, base, m);
                let v = word(b, val, 4);
                let neg = with_sign && self.aside(b, scr);
                &&& base <= s.rows.len()
                &&& b.flow is Next && v == 0 ==> a.core == b.core && a.flow is Gone && word(
                    a,
                    self.retval,
                    4,
                ) == nearest(neg, 0)
                &&& b.flow is Next && v != 0 ==> {
                    &&& a.core == b.core
                    &&& a.flow is Next
                    &&& self.aside(a, scr) == neg
                    &&& word(a, val, 4) == v
                }
                &&& b.flow is Seek && b.flow != tmp(l, 1) ==> a == b
            }),
    {
        let b = exec(st.rows, base, m);
        let r = self.retval;
        let sign = at(scr, 5);
        let s1 = st.emit(movf(val)).emit(w_op(Op::Iorwf, at(val, 1))).emit(
            w_op(Op::Iorwf, at(val, 2)),
        ).emit(w_op(Op::Iorwf, at(val, 3))).emit(on_z(BitOp::Btfss)).emit(goto_tmp(label_at(l, 1)));
        let c1 = exec(s1.rows, base, m);
        let s2 = s1.emit(clrf(r)).emit(clrf(at(r, 1))).emit(clrf(at(r, 2))).emit(clrf(at(r, 3)));
        let c2 = exec(s2.rows, base, m);
        let s3 = if with_sign {
            s2.emit(ram_bit(BitOp::Btfsc, sign, 7)).emit(ram_bit(BitOp::Bsf, at(r, 3), 7))
        } else {
            s2
        };
        let c3 = exec(s3.rows, base, m);
        let s4 = s3.emit(Line::Return);
        let c4 = exec(s4.rows, base, m);
        let s5 = if !with_sign {
            s4.emit(label_tmp(label_at(l, 1))).emit(clrf(sign))
        } else {
            s4.emit(label_tmp(label_at(l, 1)))
        };
        assert(self.utof_zero(st, val, scr, with_sign, l) == s5);
        let a = exec(s5.rows, base, m);
        assert(base <= s1.rows.len() <= s2.rows.len() <= s3.rows.len() < s4.rows.len());
        lemma_exec_push(s3.rows, Row { line: Line::Return, loc: None }, base, m);
        if b.flow is Next {
            lemma_masks();
            let none = b.ram[val] == 0 && b.ram[at(val, 1)] == 0 && b.ram[at(val, 2)] == 0 && b.ram[at(
                val,
                3,
            )] == 0;
            assert(c1.core == b.core && c1.ram == b.ram && c1.flow == (if none {
                Flow::Next
            } else {
                tmp(l, 1)
            })) by {
                broadcast use group_exec;

            }
            if none {
                assert(c2.flow is Next && c2.core == b.core && c2.ram[r] == 0 && c2.ram[at(r, 1)] == 0
                    && c2.ram[at(r, 2)] == 0 && c2.ram[at(r, 3)] == 0 && c2.ram[sign] == b.ram[sign]) by {
                    broadcast use group_exec;

                }
                assert(c3.core == b.core && c3.flow is Next && c3.ram[r] == 0 && c3.ram[at(r, 1)] == 0 && c3.ram[at(r, 2)]
                    == 0 && c3.ram[at(r, 3)] == (if with_sign && b.ram[sign] >= 128 {
                    128int
                } else {
                    0
                })) by {
                    broadcast use group_exec;

                }
                assert(c4.core == b.core && c4.flow is Gone && c4.ram == c3.ram) by {
                    reveal(step);
                }
                assert(a == c4) by {
                    broadcast use group_exec, lemma_step_gone;

                }
            } else {
                assert(c3 == c1) by {
                    broadcast use group_exec;

                }
                assert(c4 == c1) by {
                    broadcast use group_exec;

                }
                assert(a.core == b.core && a.flow is Next && (with_sign ==> a.ram == b.ram) && (!with_sign
                    ==> a.ram == b.ram.insert(sign, 0))) by {
                    broadcast use group_exec;

                }
            }
        } else if b.flow != tmp(l, 1) {
            assert(c3 == b) by {
                broadcast use group_exec;

            }
            assert(a == b) by {
                broadcast use group_exec;

            }
        }
    }

    /// One turn of the search for the leading one.
    pub open spec fn scale_turn(&self, st: St, val: u32, scr: u32, l: u32) -> St {
        st.emit(label_tmp(label_at(l, 2))).emit(ram_bit(BitOp::Btfsc, at(val, 3), 7)).emit(
            goto_tmp(label_at(l, 0)),
        ).emit(on_c(BitOp::Bcf)).emit(f_op(Op::Rlf, val)).emit(f_op(Op::Rlf, at(val, 1))).emit(
            f_op(Op::Rlf, at(val, 2)),
        ).emit(f_op(Op::Rlf, at(val, 3))).emit(f_op(Op::Incf, scr)).emit(goto_tmp(label_at(l, 2)))
    }

    #[verifier::rlimit(50)]
    proof fn lemma_scale_turn(&self, st: St, val: u32, scr: u32, l: u32, base: int, m: Machine)
        requires
            0 <= base <= st.rows.len(),
            exec(st.rows, base, m).core is Enhanced,
            convert_slots(val, scr, self.retval),
            l <= u32::MAX - 8,
        ensures
            ({
                let b = exec(st.rows, base, m);
                let s = self.scale_turn(st, val, scr, l);
                let a = exec(s.rows, base, m);
                let v = word(b, val, 4);
                &&& base <= s.rows.len()
                &&& b.flow is Next || b.flow == tmp(l, 2) ==> {
                    &&& a.core == b.core
                    &&& self.aside(a, scr) == self.aside(b, scr)
                    &&& if v >= 0x8000_0000 {
                        a.flow == tmp(l, 0) && a.ram == b.ram
                    } else {
                        a.flow == tmp(l, 2) && word(a, val, 4) == 2 * v && (b.ram[scr] < 255
                            ==> a.ram[scr] == b.ram[scr] + 1)
                    }
                }
                &&& b.flow is Gone ==> a == b
            }),
    {
        let b = exec(st.rows, base, m);
        let s = self.scale_turn(st, val, scr, l);
        let a = exec(s.rows, base, m);
        assert(base <= s.rows.len());
        let (x0, x1, x2, x3) = (
            b.ram[val] as int,
            b.ram[at(val, 1)] as int,
            b.ram[at(val, 2)] as int,
            b.ram[at(val, 3)] as int,
        );
        if b.flow is Next || b.flow == tmp(l, 2) {
            let s1 = st.emit(label_tmp(label_at(l, 2))).emit(
                ram_bit(BitOp::Btfsc, at(val, 3), 7),
            ).emit(goto_tmp(label_at(l, 0)));
            let c = exec(s1.rows, base, m);
            assert(base <= s1.rows.len() && c.core == b.core && c.ram == b.ram && c.flow == (if x3
                >= 128 {
                tmp(l, 0)
            } else {
                Flow::Next
            })) by {
                broadcast use group_exec;

            }
            if x3 >= 128 {
                assert(a == c) by {
                    broadcast use group_exec;

                }
            } else {
                assert(a.core == b.core && a.flow == tmp(l, 2) && a.ram[at(scr, 5)] == b.ram[at(
                    scr,
                    5,
                )] && a.ram[val] == 2 * x0 % 256 && a.ram[at(val, 1)] == 2 * x1 % 256 + x0 / 128
                    && a.ram[at(val, 2)] == 2 * x2 % 256 + x1 / 128 && a.ram[at(val, 3)] == 2 * x3
                    + x2 / 128 && (b.ram[scr] < 255 ==> a.ram[scr] == b.ram[scr] + 1)) by {
                    broadcast use group_exec;

                }
                lemma_doubled(b, a, val);
            }
        } else if b.flow is Gone {
            assert(a == b) by {
                broadcast use group_exec, lemma_step_gone;

            }
        }
    }

    /// The exponent, the round bit and the bits below it.
    pub open spec fn scale_end(&self, st: St, val: u32, scr: u32, l: u32) -> St {
        let e = at(scr, 1);
        st.emit(label_tmp(label_at(l, 0))).emit(movf(scr)).emit(lit(LitOp::Sublw, 0x9E)).emit(
            movwf(e),
        ).emit(clrf(at(e, 1))).emit(movf(val)).emit(lit(LitOp::Andlw, 0x80)).emit(
            movwf(at(scr, 3)),
        ).emit(movf(val)).emit(lit(LitOp::Andlw, 0x7F)).emit(movwf(at(scr, 4)))
    }

    #[verifier::rlimit(50)]
    proof fn lemma_scale_end(&self, st: St, val: u32, scr: u32, l: u32, base: int, m: Machine)
        requires
            0 <= base <= st.rows.len(),
            exec(st.rows, base, m).core is Enhanced,
            convert_slots(val, scr, self.retval),
            l <= u32::MAX - 8,
        ensures
            ({
                let b = exec(st.rows, base, m);
                let s = self.scale_end(st, val, scr, l);
                let a = exec(s.rows, base, m);
                &&& base <= s.rows.len()
                &&& b.flow == tmp(l, 0) && b.ram[scr] <= 0x9E ==> {
                    &&& a.core == b.core
                    &&& a.flow is Next
                    &&& a.ram[at(scr, 1)] == 0x9E - b.ram[scr]
                    &&& (a.ram[at(scr, 3)] >= 128) == (b.ram[val] >= 128)
                    &&& a.ram[at(scr, 4)] == b.ram[val] % 128
                    &&& forall|y: u32| y < scr || y >= scr + 5 ==> #[trigger] a.ram[y] == b.ram[y]
                }
                &&& b.flow is Seek && b.flow != tmp(l, 0) || b.flow is Gone ==> a == b
            }),
    {
        let b = exec(st.rows, base, m);
        let s = self.scale_end(st, val, scr, l);
        let a = exec(s.rows, base, m);
        assert(base <= s.rows.len());
        let e = at(scr, 1);
        let s1 = st.emit(label_tmp(label_at(l, 0))).emit(movf(scr)).emit(lit(LitOp::Sublw, 0x9E)).emit(
            movwf(e),
        ).emit(clrf(at(e, 1)));
        let c = exec(s1.rows, base, m);
        assert(base <= s1.rows.len());
        if b.flow == tmp(l, 0) {
            if b.ram[scr] <= 0x9E {
                assert(c.core == b.core && c.flow is Next && c.ram == b.ram.insert(
                    e,
                    (0x9E - b.ram[scr]) as u8,
                ).insert(at(e, 1), 0)) by {
                    broadcast use group_exec;

                }
                lemma_masks();
                let x = b.ram[val];
                assert(c.ram[val] == x);
                assert(a.core == b.core && a.flow is Next && a.ram == c.ram.insert(
                    at(scr, 3),
                    x & 0x80,
                ).insert(at(scr, 4), x & 0x7F)) by {
                    broadcast use group_exec;

                }
            }
        } else if b.flow is Seek {
            assert(a == b) by {
                broadcast use group_exec;

            }
        } else if b.flow is Gone {
            assert(a == b) by {
                broadcast use group_exec, lemma_step_gone;

            }
        }
    }

    /// The test whether to round up.
    pub open spec fn round_test(&self, st: St, val: u32, scr: u32, l: u32) -> St {
        st.emit(ram_bit(BitOp::Btfss, at(scr, 3), 7)).emit(goto_tmp(label_at(l, 4))).emit(
            movf(at(scr, 4)),
        ).emit(on_z(BitOp::Btfss)).emit(goto_tmp(label_at(l, 3))).emit(
            ram_bit(BitOp::Btfsc, at(val, 1), 0),
        ).emit(goto_tmp(label_at(l, 3))).emit(goto_tmp(label_at(l, 4))).emit(
            label_tmp(label_at(l, 3)),
        )
    }

    proof fn lemma_round_test(&self, st: St, val: u32, scr: u32, l: u32, base: int, m: Machine)
        requires
            under_way(st, base, m),
            l <= u32::MAX - 8,
        ensures
            ({
                let b = exec(st.rows, base, m);
                let s = self.round_test(st, val, scr, l);
                let a = exec(s.rows, base, m);
                let up = b.ram[at(scr, 3)] >= 128 && (b.ram[at(scr, 4)] != 0 || b.ram[at(val, 1)] % 2
                    == 1);
                &&& base <= s.rows.len()
                &&& b.flow is Next ==> a.core == b.core && a.ram == b.ram && a.flow == (if up {
                    Flow::Next
                } else {
                    tmp(l, 4)
                })
                &&& b.flow is Seek && b.flow != tmp(l, 3) ==> a == b
            }),
    {
        broadcast use group_exec;

    }

    proof fn lemma_from_round(&self, st: St, val: u32, scr: u32, l: u32, base: int, m: Machine)
        requires
            0 <= base <= st.rows.len(),
            exec(st.rows, base, m).core is Enhanced,
            convert_slots(val, scr, self.retval),
            apart(val, 4, self.retval, 4),
            l <= u32::MAX - 8,
            st.next == l + 5,
        ensures
            ({
                let b = exec(st.rows, base, m);
                let a = exec(self.utof_round(st, val, scr, l).rows, base, m);
                let v = word(b, val, 4);
                &&& b.flow is Next && v >= 0x8000_0000 && b.ram[at(scr, 1)] < 255 && (b.ram[at(
                    scr,
                    3,
                )] >= 128) == (b.ram[val] >= 128) && b.ram[at(scr, 4)] == b.ram[val] % 128 ==> {
                    &&& a.flow is Gone
                    &&& word(a, self.retval, 4) == packed_float(
                        self.aside(b, scr),
                        b.ram[at(scr, 1)] as int,
                        half_even(v, 256),
                    )
                }
                &&& b.flow == tmp(l, 2) || b.flow is Gone ==> a == b
            }),
    {
        let b = exec(st.rows, base, m);
        let e = at(scr, 1);
        let (m0, m1, m2) = (at(val, 1), at(val, 2), at(val, 3));
        let s1 = self.round_test(st, val, scr, l);
        let s2 = self.round_up(s1, m0, m1, m2, e);
        let s3 = s2.emit(label_tmp(label_at(l, 4)));
        let s4 = self.assemble(s3, at(scr, 5), e, m0, m1, m2);
        assert(self.utof_round(st, val, scr, l) == s4);
        assert(base <= s1.rows.len() <= s2.rows.len() <= s3.rows.len());
        let c1 = exec(s1.rows, base, m);
        let c2 = exec(s2.rows, base, m);
        let c3 = exec(s3.rows, base, m);
        if b.flow is Gone {
            self.lemma_round_gone(st, val, scr, l, base, m);
        } else if b.flow == tmp(l, 2) {
            self.lemma_round_test(st, val, scr, l, base, m);
            self.lemma_round_up(s1, m0, m1, m2, e, base, m);
            assert(c3 == b) by {
                broadcast use group_exec;

            }
            self.lemma_assemble(s3, at(scr, 5), e, m0, m1, m2, base, m);
        } else if b.flow is Next && word(b, val, 4) >= 0x8000_0000 && b.ram[e] < 255 && (b.ram[at(scr, 3)]
            >= 128) == (b.ram[val] >= 128) && b.ram[at(scr, 4)] == b.ram[val] % 128 {
            self.lemma_rounded(st, val, scr, l, base, m);
        }
    }

    #[verifier::rlimit(100)]
    #[verifier::spinoff_prover]
    proof fn lemma_rounded(&self, st: St, val: u32, scr: u32, l: u32, base: int, m: Machine)
        requires
            under_way(st, base, m),
            convert_slots(val, scr, self.retval),
            apart(val, 4, self.retval, 4),
            l <= u32::MAX - 8,
            st.next == l + 5,
            ({
                let b = exec(st.rows, base, m);
                &&& b.flow is Next
                &&& word(b, val, 4) >= 0x8000_0000
                &&& b.ram[at(scr, 1)] < 255
                &&& (b.ram[at(scr, 3)] >= 128) == (b.ram[val] >= 128)
                &&& b.ram[at(scr, 4)] == b.ram[val] % 128
            }),
        ensures
            ({
                let b = exec(st.rows, base, m);
                let a = exec(self.utof_round(st, val, scr, l).rows, base, m);
                a.flow is Gone && word(a, self.retval, 4) == packed_float(
                    self.aside(b, scr),
                    b.ram[at(scr, 1)] as int,
                    half_even(word(b, val, 4), 256),
                )
            }),
    {
        let b = exec(st.rows, base, m);
        let e = at(scr, 1);
        let (m0, m1, m2) = (at(val, 1), at(val, 2), at(val, 3));
        let s1 = self.round_test(st, val, scr, l);
        let s2 = self.round_up(s1, m0, m1, m2, e);
        let s3 = s2.emit(label_tmp(label_at(l, 4)));
        let c1 = exec(s1.rows, base, m);
        let c2 = exec(s2.rows, base, m);
        let c3 = exec(s3.rows, base, m);
        self.lemma_round_test(st, val, scr, l, base, m);
        self.lemma_round_up(s1, m0, m1, m2, e, base, m);
        assert(c3 == (Machine { flow: Flow::Next, ..c2 })) by {
            broadcast use group_exec;

        }
        self.lemma_assemble(s3, at(scr, 5), e, m0, m1, m2, base, m);
        assert(self.utof_round(st, val, scr, l) == self.assemble(s3, at(scr, 5), e, m0, m1, m2));
        lemma_halves_of(b, val);
        let mant = mantissa(b, m0, m1, m2);
        let up = half_even(word(b, val, 4), 256) == mant + 1;
        assert(c1.ram == b.ram);
        assert((c1.flow is Next) == up);
        assert(c3.ram[at(scr, 5)] == b.ram[at(scr, 5)]);
        if up && mant == 0xFF_FFFF {
            assert(mantissa(c3, m0, m1, m2) == 0x80_0000 && c3.ram[e] == b.ram[e] + 1);
        } else {
            assert(mantissa(c3, m0, m1, m2) == half_even(word(b, val, 4), 256) && c3.ram[e] == b.ram[e]);
            assert(0x80_0000 <= mantissa(c3, m0, m1, m2) < 0x100_0000);
        }
    }

    #[verifier::rlimit(50)]
    proof fn lemma_round_gone(&self, st: St, val: u32, scr: u32, l: u32, base: int, m: Machine)
        requires
            0 <= base <= st.rows.len(),
            exec(st.rows, base, m).flow is Gone,
        ensures
            exec(self.utof_round(st, val, scr, l).rows, base, m) == exec(st.rows, base, m),
    {
        let b = exec(st.rows, base, m);
        let e = at(scr, 1);
        let (m0, m1, m2) = (at(val, 1), at(val, 2), at(val, 3));
        let s1 = self.round_test(st, val, scr, l);
        let s2 = self.round_up(s1, m0, m1, m2, e).emit(label_tmp(label_at(l, 4)));
        let s3 = self.assemble(s2, at(scr, 5), e, m0, m1, m2);
        assert(base <= s1.rows.len() <= s2.rows.len());
        assert(exec(s1.rows, base, m) == b) by {
            broadcast use group_exec, lemma_step_gone;

        }
        assert(exec(s2.rows, base, m) == b) by {
            broadcast use group_exec, lemma_step_gone;

        }
        assert(exec(s3.rows, base, m) == b) by {
            broadcast use group_exec, lemma_step_gone;

        }
    }

    /// Where a conversion has got to when it jumps back: `left` doublings to go,
    /// and `r` is what comes out.
    pub open spec fn scaling(&self, l: u32, val: u32, scr: u32, m: Machine, left: nat, r: int) -> bool {
        let v = word(m, val, 4);
        &&& m.core is Enhanced
        &&& v > 0
        &&& leading(v) == left
        &&& m.ram[scr] + left <= 31
        &&& r == packed_float(
            self.aside(m, scr),
            158 - m.ram[scr] - left,
            half_even(v * pow2(left as int), 256),
        )
    }

    #[verifier::rlimit(50)]
    proof fn lemma_from_pass(
        &self,
        st: St,
        val: u32,
        scr: u32,
        with_sign: bool,
        left: nat,
        r: int,
        base: int,
        m: Machine,
    )
        requires
            under_way(st, base, m),
            convert_slots(val, scr, self.retval),
            apart(val, 4, self.retval, 4),
            st.next <= u32::MAX - 10,
            ({
                let b = exec(st.rows, base, m);
                let neg = with_sign && self.aside(b, scr);
                ||| b.flow is Next && left == leading(word(b, val, 4)) && r == nearest(
                    neg,
                    word(b, val, 4),
                )
                ||| b.flow == tmp(st.next, 2) && self.scaling(st.next, val, scr, b, left, r)
            }),
        ensures
            ({
                let a = exec(self.utof(st, val, scr, with_sign).rows, base, m);
                if left == 0 {
                    a.flow is Gone && word(a, self.retval, 4) == r
                } else {
                    a.flow == tmp(st.next, 2) && self.scaling(
                        st.next,
                        val,
                        scr,
                        a,
                        (left - 1) as nat,
                        r,
                    )
                }
            }),
    {
        let b = exec(st.rows, base, m);
        let l = st.next;
        let s0 = st.reserve(5);
        let s1 = self.utof_zero(s0, val, scr, with_sign, l);
        self.lemma_from_zero(s0, val, scr, with_sign, l, base, m);
        let c1 = exec(s1.rows, base, m);
        let s2 = s1.emit(clrf(scr));
        let c2 = exec(s2.rows, base, m);
        let s3 = self.scale_turn(s2, val, scr, l);
        let s4 = self.scale_end(s3, val, scr, l);
        assert(self.utof_scale(s1, val, scr, l) == s4);
        assert(base <= s1.rows.len() <= s2.rows.len() <= s3.rows.len() <= s4.rows.len());
        assert(s4.next == l + 5);
        let c3 = exec(s3.rows, base, m);
        let c4 = exec(s4.rows, base, m);
        let v0 = word(b, val, 4);
        if b.flow is Next && v0 == 0 {
            assert(c2 == c1) by {
                broadcast use group_exec, lemma_step_gone;

            }
        } else if b.flow is Next {
            assert(c2 == (Machine { ram: c1.ram.insert(scr, 0), z: true, cycles: c2.cycles, ..c1 })) by {
                broadcast use group_exec;

            }
            assert(word(c2, val, 4) == v0);
            assert(pow2(0) == 1);
            lemma_leading(v0, 0);
            assert(self.scaling(l, val, scr, c2, left, r));
        } else {
            assert(c2 == c1) by {
                broadcast use group_exec;

            }
        }
        self.lemma_scale_turn(s2, val, scr, l, base, m);
        self.lemma_scale_end(s3, val, scr, l, base, m);
        if !(b.flow is Next && v0 == 0) {
            let v = word(c2, val, 4);
            if left > 0 {
                let p = pow2(left - 1);
                assert(v * pow2(left as int) == (2 * v) * p) by (nonlinear_arith)
                    requires
                        pow2(left as int) == 2 * p,
                ;
                assert(v < 0x8000_0000);
            } else {
                assert(v * pow2(0) == v) by (nonlinear_arith)
                    requires
                        pow2(0) == 1,
                ;
                assert(v >= 0x8000_0000);
                assert(word(c4, val, 4) == v);
                assert(self.aside(c4, scr) == self.aside(c2, scr));
            }
        }
        self.lemma_from_round(s4, val, scr, l, base, m);
    }

    proof fn lemma_from_passes(
        &self,
        st: St,
        val: u32,
        scr: u32,
        with_sign: bool,
        left: nat,
        r: int,
        base: int,
        m: Machine,
    )
        requires
            0 <= base <= st.rows.len(),
            exec(st.rows, base, m) == m,
            forall|x: Machine|
                x.flow == tmp(st.next, 2) ==> #[trigger] exec(st.rows, base, x) == x,
            convert_slots(val, scr, self.retval),
            apart(val, 4, self.retval, 4),
            st.next <= u32::MAX - 10,
            m.flow == tmp(st.next, 2),
            self.scaling(st.next, val, scr, m, left, r),
        ensures
            ({
                let a = settle(
                    self.utof(st, val, scr, with_sign).rows,
                    base,
                    m,
                    (left + 1) as nat,
                );
                a.flow is Gone && word(a, self.retval, 4) == r
            }),
        decreases left,
    {
        self.lemma_from_pass(st, val, scr, with_sign, left, r, base, m);
        if left > 0 {
            let a = exec(self.utof(st, val, scr, with_sign).rows, base, m);
            self.lemma_from_passes(st, val, scr, with_sign, (left - 1) as nat, r, base, a);
        }
    }

    /// From the conversion of a magnitude on.
    proof fn lemma_from_run(
        &self,
        st: St,
        val: u32,
        scr: u32,
        with_sign: bool,
        base: int,
        m: Machine,
    )
        requires
            under_way(st, base, m),
            exec(st.rows, base, m).flow is Next,
            forall|x: Machine|
                x.flow == tmp(st.next, 2) ==> #[trigger] exec(st.rows, base, x) == x,
            convert_slots(val, scr, self.retval),
            apart(val, 4, self.retval, 4),
            st.next <= u32::MAX - 10,
        ensures
            ({
                let b = exec(st.rows, base, m);
                exists|a: Machine| #[trigger]
                    runs_to(self.utof(st, val, scr, with_sign).rows, base, m, a) && a.flow is Gone
                        && word(a, self.retval, 4) == nearest(
                        with_sign && self.aside(b, scr),
                        word(b, val, 4),
                    )
            }),
    {
        let b = exec(st.rows, base, m);
        let rows = self.utof(st, val, scr, with_sign).rows;
        let left = leading(word(b, val, 4));
        let r = nearest(with_sign && self.aside(b, scr), word(b, val, 4));
        self.lemma_from_pass(st, val, scr, with_sign, left, r, base, m);
        let y = exec(rows, base, m);
        if left == 0 {
            assert(settle(rows, base, m, 1) == y);
            assert(runs_to(rows, base, m, y));
        } else {
            self.lemma_from_passes(st, val, scr, with_sign, (left - 1) as nat, r, base, y);
            let a = settle(rows, base, y, left);
            assert(settle(rows, base, m, left + 1) == a);
            assert(runs_to(rows, base, m, a));
        }
    }

    /// The conversion routine leaves the number nearest to its unsigned integer in
    /// the result bytes.
    pub proof fn law_unsigned_becomes_a_float(&self, st: St, val: u32, scr: u32, m: Machine)
        requires
            convert_slots(val, scr, self.retval),
            apart(val, 4, self.retval, 4),
            st.next <= u32::MAX - 10,
            m.flow is Next,
            m.core is Enhanced,
        ensures
            exists|a: Machine| #[trigger]
                runs_to(self.utof(st, val, scr, false).rows, st.rows.len() as int, m, a)
                    && a.flow is Gone && word(a, self.retval, 4) == nearest(
                    false,
                    word(m, val, 4),
                ),
    {
        let base = st.rows.len() as int;
        assert(forall|x: Machine| #[trigger] exec(st.rows, base, x) == x) by {
            broadcast use group_exec;

        }
        self.lemma_from_run(st, val, scr, false, base, m);
    }

    #[verifier::rlimit(50)]
    proof fn lemma_aside(&self, st: St, val: u32, sign: u32, base: int, m: Machine)
        requires
            ready(st, base, m),
            st.next < u32::MAX,
            val <= 0xFFFF,
            sign <= 0x1_FFFF,
            apart(val, 4, sign, 1),
        ensures
            ({
                let b = exec(st.rows, base, m);
                let s = self.set_sign_aside(st, val, sign);
                let a = exec(s.rows, base, m);
                let v = signed(word(b, val, 4), 4);
                &&& base <= s.rows.len()
                &&& a.core == b.core
                &&& a.flow is Next
                &&& (a.ram[sign] >= 128) == (v < 0)
                &&& word(a, val, 4) == magnitude(v)
            }),
    {
        let b = exec(st.rows, base, m);
        let l = st.next;
        let s1 = st.bump().emit(movf(at(val, 3))).emit(lit(LitOp::Andlw, 0x80)).emit(
            movwf(sign),
        ).emit(ram_bit(BitOp::Btfss, at(val, 3), 7)).emit(goto_tmp(l));
        let c1 = exec(s1.rows, base, m);
        let neg = b.ram[at(val, 3)] >= 128;
        lemma_masks();
        assert(s1.w is None && base <= s1.rows.len() && c1.core == b.core && c1.ram == b.ram.insert(
            sign,
            b.ram[at(val, 3)] & 0x80,
        ) && c1.flow == (if neg {
            Flow::Next
        } else {
            tmp(l, 0)
        })) by {
            broadcast use group_exec;

        }
        assert(word(c1, val, 4) == word(b, val, 4));
        let s2 = self.negate(s1, val, 4);
        let c2 = exec(s2.rows, base, m);
        if neg {
            self.lemma_negate(s1, val, 4, base, m);
            assert(c2.ram[sign] == c1.ram[sign]);
        } else {
            self.lemma_negate_over(s1, val, 4, base, m);
        }
        let s3 = s2.emit(label_tmp(l));
        assert(exec(s3.rows, base, m) == (Machine { flow: Flow::Next, ..c2 })) by {
            broadcast use group_exec;

        }
        assert(neg == (2 * word(b, val, 4) >= limit(4)));
    }

    #[verifier::rlimit(50)]
    proof fn lemma_aside_over(&self, st: St, val: u32, sign: u32, base: int, m: Machine)
        requires
            seeking(st, base, m),
            st.next < u32::MAX,
            exec(st.rows, base, m).flow != tmp(st.next, 0),
        ensures
            exec(self.set_sign_aside(st, val, sign).rows, base, m) == exec(st.rows, base, m),
    {
        let l = st.next;
        let s1 = st.bump().emit(movf(at(val, 3))).emit(lit(LitOp::Andlw, 0x80)).emit(
            movwf(sign),
        ).emit(ram_bit(BitOp::Btfss, at(val, 3), 7)).emit(goto_tmp(l));
        assert(base <= s1.rows.len() && exec(s1.rows, base, m) == exec(st.rows, base, m)) by {
            broadcast use group_exec;

        }
        self.lemma_negate_over(s1, val, 4, base, m);
        let s2 = self.negate(s1, val, 4);
        assert(exec(s2.emit(label_tmp(l)).rows, base, m) == exec(s2.rows, base, m)) by {
            broadcast use group_exec;

        }
    }

    /// The conversion routine leaves the number nearest to its signed integer in
    /// the result bytes.
    pub proof fn law_signed_becomes_a_float(&self, st: St, val: u32, scr: u32, m: Machine)
        requires
            convert_slots(val, scr, self.retval),
            apart(val, 4, self.retval, 4),
            st.w is None,
            st.next <= u32::MAX - 11,
            m.flow is Next,
            m.core is Enhanced,
        ensures
            ({
                let v = signed(word(m, val, 4), 4);
                let s = self.utof(self.set_sign_aside(st, val, at(scr, 5)), val, scr, true);
                exists|a: Machine| #[trigger]
                    runs_to(s.rows, st.rows.len() as int, m, a) && a.flow is Gone && word(
                        a,
                        self.retval,
                        4,
                    ) == nearest(v < 0, magnitude(v))
            }),
    {
        let base = st.rows.len() as int;
        let sign = at(scr, 5);
        assert(exec(st.rows, base, m) == m) by {
            broadcast use group_exec;

        }
        let s1 = self.set_sign_aside(st, val, sign);
        self.lemma_aside(st, val, sign, base, m);
        assert(s1.next == st.next + 1) by {
            reveal_with_fuel(Gen::flip_from, 5);
            reveal_with_fuel(Gen::carry_up, 5);
        }
        assert forall|x: Machine| x.flow == tmp(s1.next, 2) implies #[trigger] exec(
            s1.rows,
            base,
            x,
        ) == x by {
            assert(exec(st.rows, base, x) == x) by {
                broadcast use group_exec;

            }
            self.lemma_aside_over(st, val, sign, base, x);
        }
        self.lemma_from_run(s1, val, scr, true, base, m);
    }
}

} // verus!
