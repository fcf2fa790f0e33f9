//! Rounding, and how a single-precision result is put together.
use vstd::prelude::*;
use crate::emit::{
    at, clrf, f_op, goto_tmp, label_tmp, movf, movlw, movwf, on_c, on_z, ram_bit, w_op, Row, St,
};
use crate::line::{BitOp, Line, Op};
use crate::machine::{exec, group_exec, lemma_exec_push, step, wrap, Flow, Machine};
use crate::meaning::word;
use crate::pic14e::laws::float_int::{tmp, under_way};
use crate::pic14e::Gen;

verus! {

/// `n / d` rounded to the nearest integer, ties to the even one.
pub open spec fn half_even(n: int, d: int) -> int {
    let q = n / d;
    let r = n % d;
    if 2 * r > d || (2 * r == d && q % 2 == 1) {
        q + 1
    } else {
        q
    }
}

/// The bits of a number with a 24-bit mantissa at a biased exponent. A mantissa
/// of 25 bits, with the lower ones zero, is one at the next exponent.
pub open spec fn packed_float(neg: bool, e: int, mant: int) -> int {
    (if neg {
        0x8000_0000int
    } else {
        0
    }) + 0x80_0000 * e + mant - 0x80_0000
}

/// The three bytes of a mantissa.
pub open spec fn mantissa(m: Machine, m0: u32, m1: u32, m2: u32) -> int {
    m.ram[m0] + 0x100 * m.ram[m1] + 0x1_0000 * m.ram[m2]
}

/// Whether four bytes are different ones.
pub open spec fn four_apart(m0: u32, m1: u32, m2: u32, e: u32) -> bool {
    &&& m0 != m1 && m0 != m2 && m0 != e
    &&& m1 != m2 && m1 != e
    &&& m2 != e
}

impl<'a> Gen<'a> {
    /// One more: the carries of `round_up`.
    pub open spec fn round_carry(&self, st: St, m0: u32, m1: u32, m2: u32) -> St {
        st.emit(f_op(Op::Incf, m0)).emit(on_z(BitOp::Btfsc)).emit(f_op(Op::Incf, m1)).emit(
            on_z(BitOp::Btfsc),
        ).emit(f_op(Op::Incf, m2)).emit(on_z(BitOp::Btfsc))
    }

    #[verifier::rlimit(50)]
    proof fn lemma_round_carry(
        &self,
        st: St,
        m0: u32,
        m1: u32,
        m2: u32,
        e: u32,
        base: int,
        m: Machine,
    )
        requires
            under_way(st, base, m),
            exec(st.rows, base, m).flow is Next,
            four_apart(m0, m1, m2, e),
        ensures
            ({
                let b = exec(st.rows, base, m);
                let s = self.round_carry(st, m0, m1, m2);
                let a = exec(s.rows, base, m);
                let full = mantissa(b, m0, m1, m2) == 0xFF_FFFF;
                &&& base <= s.rows.len()
                &&& a.core == b.core
                &&& a.flow == (if full {
                    Flow::Next
                } else {
                    Flow::Skip
                })
                &&& !full ==> mantissa(a, m0, m1, m2) == mantissa(b, m0, m1, m2) + 1
                &&& forall|y: u32|
                    y != m0 && y != m1 && y != m2 ==> #[trigger] a.ram[y] == b.ram[y]
            }),
    {
        let b = exec(st.rows, base, m);
        let s = self.round_carry(st, m0, m1, m2);
        let a = exec(s.rows, base, m);
        let (x, y, z) = (b.ram[m0], b.ram[m1], b.ram[m2]);
        if x < 255 {
            assert(base <= s.rows.len() && a.core == b.core && a.flow is Skip && a.ram == b.ram.insert(
                m0,
                (x + 1) as u8,
            )) by {
                broadcast use group_exec;

            }
        } else if y < 255 {
            assert(base <= s.rows.len() && a.core == b.core && a.flow is Skip && a.ram == b.ram.insert(
                m0,
                0,
            ).insert(m1, (y + 1) as u8)) by {
                broadcast use group_exec;

            }
        } else {
            assert(base <= s.rows.len() && a.core == b.core && a.ram == b.ram.insert(m0, 0).insert(
                m1,
                0,
            ).insert(m2, wrap(z + 1)) && a.flow == (if z == 255 {
                Flow::Next
            } else {
                Flow::Skip
            })) by {
                broadcast use group_exec;

            }
        }
    }

    /// A rounded up mantissa is one more, or 2^23 at the next exponent.
    #[verifier::rlimit(50)]
    pub(crate) proof fn lemma_round_up(
        &self,
        st: St,
        m0: u32,
        m1: u32,
        m2: u32,
        e: u32,
        base: int,
        m: Machine,
    )
        requires
            under_way(st, base, m),
            four_apart(m0, m1, m2, e),
            st.next < u32::MAX - 1,
        ensures
            ({
                let b = exec(st.rows, base, m);
                let s = self.round_up(st, m0, m1, m2, e);
                let a = exec(s.rows, base, m);
                let v = mantissa(b, m0, m1, m2);
                &&& base <= s.rows.len()
                &&& s.next == st.next + 2
                &&& s.w is None
                &&& b.flow is Next ==> {
                    &&& a.core == b.core
                    &&& a.flow is Next
                    &&& if v == 0xFF_FFFF {
                        mantissa(a, m0, m1, m2) == 0x80_0000 && a.ram[e] == wrap(b.ram[e] + 1)
                    } else {
                        mantissa(a, m0, m1, m2) == v + 1 && a.ram[e] == b.ram[e]
                    }
                    &&& forall|y: u32|
                        y != m0 && y != m1 && y != m2 && y != e ==> #[trigger] a.ram[y] == b.ram[y]
                }
                &&& b.flow is Seek && b.flow != tmp(st.next, 0) && b.flow != tmp(st.next, 1)
                    ==> a == b
            }),
    {
        let b = exec(st.rows, base, m);
        let s = self.round_up(st, m0, m1, m2, e);
        let a = exec(s.rows, base, m);
        let l = st.next;
        let l1 = (l + 1) as u32;
        let s0 = st.bump().bump();
        assert(exec(s0.rows, base, m) == b);
        let s1 = self.round_carry(s0, m0, m1, m2);
        let c = exec(s1.rows, base, m);
        let s2 = s1.emit(goto_tmp(l)).emit(goto_tmp(l1));
        let c2 = exec(s2.rows, base, m);
        let s3 = s2.emit(label_tmp(l)).emit(movlw(0x80)).emit(movwf(m2)).emit(clrf(m1)).emit(
            clrf(m0),
        ).emit(movlw(0x01)).emit(f_op(Op::Addwf, e)).emit(label_tmp(l1));
        assert(s == s3);
        if b.flow is Next {
            self.lemma_round_carry(s0, m0, m1, m2, e, base, m);
            let full = mantissa(b, m0, m1, m2) == 0xFF_FFFF;
            assert(base <= s2.rows.len() && c2.core == b.core && c2.ram == c.ram && c2.flow == (if full {
                tmp(l, 0)
            } else {
                tmp(l, 1)
            })) by {
                broadcast use group_exec;

            }
            if full {
                assert(a.core == b.core && a.flow is Next && a.ram == c.ram.insert(m2, 128).insert(
                    m1,
                    0,
                ).insert(m0, 0).insert(e, wrap(c.ram[e] + 1))) by {
                    broadcast use group_exec;

                }
            } else {
                assert(a.core == b.core && a.flow is Next && a.ram == c.ram) by {
                    broadcast use group_exec;

                }
            }
        } else if b.flow != tmp(l, 0) && b.flow != tmp(l, 1) {
            assert(c2 == b && base <= s2.rows.len()) by {
                broadcast use group_exec;

            }
            assert(a == b) by {
                broadcast use group_exec;

            }
        }
    }

    /// The low bytes of the result.
    pub open spec fn assemble_low(&self, st: St, e: u32, m0: u32, m1: u32, m2: u32) -> St {
        let r = self.retval;
        st.emit(movf(m0)).emit(movwf(r)).emit(movf(m1)).emit(movwf(at(r, 1))).emit(movlw(0x7F)).emit(
            w_op(Op::Andwf, m2),
        ).emit(movwf(at(r, 2))).emit(ram_bit(BitOp::Btfsc, e, 0)).emit(
            ram_bit(BitOp::Bsf, at(r, 2), 7),
        )
    }

    /// The high byte of the result.
    pub open spec fn assemble_high(&self, st: St, sign: u32, e: u32) -> St {
        let r = self.retval;
        st.emit(movf(e)).emit(movwf(at(r, 3))).emit(on_c(BitOp::Bcf)).emit(
            f_op(Op::Rrf, at(r, 3)),
        ).emit(ram_bit(BitOp::Btfsc, sign, 7)).emit(ram_bit(BitOp::Bsf, at(r, 3), 7))
    }

    /// Whether a byte is not one of the result bytes.
    pub open spec fn off_result(&self, x: u32) -> bool {
        x < self.retval || x >= self.retval + 4
    }

    /// The result is the number with the sign, the exponent and the low 23 bits
    /// of the mantissa.
    #[verifier::rlimit(50)]
    pub(crate) proof fn lemma_assemble(
        &self,
        st: St,
        sign: u32,
        e: u32,
        m0: u32,
        m1: u32,
        m2: u32,
        base: int,
        m: Machine,
    )
        requires
            under_way(st, base, m),
            self.retval <= 0xFFFF,
            self.off_result(sign) && self.off_result(e) && self.off_result(m0) && self.off_result(m1)
                && self.off_result(m2),
        ensures
            ({
                let b = exec(st.rows, base, m);
                let a = exec(self.assemble(st, sign, e, m0, m1, m2).rows, base, m);
                &&& b.flow is Next ==> a.flow is Gone && word(a, self.retval, 4) == packed_float(
                    b.ram[sign] >= 128,
                    b.ram[e] as int,
                    mantissa(b, m0, m1, m2) % 0x80_0000 + 0x80_0000,
                )
                &&& b.flow is Seek ==> a == b
            }),
    {
        let b = exec(st.rows, base, m);
        let r = self.retval;
        let s1 = self.assemble_low(st, e, m0, m1, m2);
        let c1 = exec(s1.rows, base, m);
        let s2 = self.assemble_high(s1, sign, e);
        let c2 = exec(s2.rows, base, m);
        let s3 = s2.emit(Line::Return);
        assert(self.assemble(st, sign, e, m0, m1, m2) == s3);
        let (x2, y) = (b.ram[m2], b.ram[e]);
        assert(base <= s1.rows.len() <= s2.rows.len());
        if b.flow is Next {
            assert(0x7Fu8 & x2 == x2 % 128 && x2 & 0x7Fu8 == x2 % 128) by (bit_vector);
            assert(c1.core == b.core && c1.flow is Next && c1.ram[r] == b.ram[m0] && c1.ram[at(r, 1)]
                == b.ram[m1] && c1.ram[at(r, 2)] == x2 % 128 + 128 * (y % 2) && (forall|z: u32|
                self.off_result(z) ==> #[trigger] c1.ram[z] == b.ram[z])) by {
                broadcast use group_exec;

            }
            assert(c2.core == b.core && c2.flow is Next && c2.ram[at(r, 3)] == y / 2 + (
            if b.ram[sign] >= 128 {
                128int
            } else {
                0
            }) && c2.ram[r] == c1.ram[r] && c2.ram[at(r, 1)] == c1.ram[at(r, 1)] && c2.ram[at(r, 2)]
                == c1.ram[at(r, 2)]) by {
                broadcast use group_exec;

            }
            let v = mantissa(b, m0, m1, m2);
            assert(v % 0x80_0000 == b.ram[m0] + 0x100 * b.ram[m1] + 0x1_0000 * (x2 % 128));
        } else {
            assert(c1 == b) by {
                broadcast use group_exec;

            }
            assert(c2 == b) by {
                broadcast use group_exec;

            }
        }
        lemma_exec_push(s2.rows, Row { line: Line::Return, loc: None }, base, m);
        reveal(step);
    }
}

} // verus!
