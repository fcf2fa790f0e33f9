//! The integer runtime routines: multiplication, division, variable shifts,
//! and which body belongs to which routine.
//!
//! Operands sit in the parameter slots of the routine, working bytes at its
//! `__scr` slot, and the result leaves in the result bytes. A routine is full
//! of skips, so all its slots have to lie in one bank: a bank select between
//! a skip and its target would change what is skipped.
use vstd::prelude::*;
use crate::emit::{
    at, clrf, f_op, goto_tmp, label_tmp, lit, movf, movlw, movwf, on_c, on_z, ram_bit, w_op, Emitter, St,
};
use crate::error::IselError;
use crate::ir::BinOp;
use crate::line::{BitOp, Line, LitOp, Op, Sym};
use crate::pic14e::Gen;
use crate::runtime::{routine, routine_recipe, Routine};

verus! {

/// The bits of a value of `n` bytes.
#[verifier::allow_in_spec]
pub fn bits_of(n: u8) -> u8
    returns
        (match n {
            1u8 => 8u8,
            2u8 => 16u8,
            _ => 32u8,
        }),
{
    match n {
        1 => 8,
        2 => 16,
        _ => 32,
    }
}

/// The largest shift count of a value of `n` bytes, as a mask.
#[verifier::allow_in_spec]
pub fn count_mask(n: u8) -> u8
    returns
        (match n {
            1u8 => 0x07u8,
            2u8 => 0x0Fu8,
            _ => 0x1Fu8,
        }),
{
    match n {
        1 => 0x07,
        2 => 0x0F,
        _ => 0x1F,
    }
}

/// The labels of a division loop.
#[derive(Clone, Copy, PartialEq, Eq, Structural, Debug)]
pub struct LoopLabels {
    pub again: u32,
    pub restore: u32,
    pub next: u32,
}

/// Where a division keeps its numbers: the dividend, which becomes the
/// quotient, the divisor, the remainder and the count of turns.
#[derive(Clone, Copy, PartialEq, Eq, Structural, Debug)]
pub struct Division {
    pub num: u32,
    pub den: u32,
    pub rem: u32,
    pub cnt: u32,
}

/// Twice a width of one or two bytes.
#[verifier::allow_in_spec]
pub fn wide_of(n: u8) -> u8
    returns
        (if n == 1 {
            2u8
        } else {
            4u8
        }),
{
    if n == 1 {
        2
    } else {
        4
    }
}

/// Four times a width of one or two bytes.
#[verifier::allow_in_spec]
pub fn four_times(n: u8) -> u8
    returns
        (if n == 1 {
            4u8
        } else {
            8u8
        }),
{
    if n == 1 {
        4
    } else {
        8
    }
}

/// The bytes of the remainder of a division of `n` bytes.
#[verifier::allow_in_spec]
pub fn rem_bytes(n: u8) -> u8
    returns
        (if n == 1 {
            2u8
        } else {
            n
        }),
{
    if n == 1 {
        2
    } else {
        n
    }
}

/// The index of the last of `n` bytes.
#[verifier::allow_in_spec]
pub fn last_of(n: u8) -> u8
    returns
        (if n == 0 {
            0u8
        } else {
            (n - 1) as u8
        }),
{
    if n == 0 {
        0
    } else {
        n - 1
    }
}

/// Where an unsigned division keeps its numbers. Four bytes of divisor are
/// copied next to the remainder.
#[verifier::allow_in_spec]
pub fn unsigned_layout(n: u8, num: u32, den: u32, scr: u32) -> Division
    returns
        (if n <= 2 {
            Division { num, den, rem: scr, cnt: at(scr, 2) }
        } else {
            Division { num, den: at(scr, 4), rem: scr, cnt: at(scr, 8) }
        }),
{
    if n <= 2 {
        Division { num, den, rem: scr, cnt: at(scr, 2) }
    } else {
        Division { num, den: at(scr, 4), rem: scr, cnt: at(scr, 8) }
    }
}

impl<'a> Gen<'a> {
    /// Bytes `i..n` from `src` to `dst`.
    pub open spec fn copy_bytes(&self, st: St, src: u32, dst: u32, n: u8, i: u8) -> St
        decreases n - i,
    {
        if i >= n {
            st
        } else {
            let st = st.emit(movf(at(src, i))).emit(movwf(at(dst, i)));
            self.copy_bytes(st, src, dst, n, (i + 1) as u8)
        }
    }

    pub open spec fn flip_from(&self, st: St, a: u32, n: u8, i: u8) -> St
        decreases n - i,
    {
        if i >= n {
            st
        } else {
            self.flip_from(st.emit(f_op(Op::Comf, at(a, i))), a, n, (i + 1) as u8)
        }
    }

    pub open spec fn carry_up(&self, st: St, a: u32, n: u8, i: u8) -> St
        decreases n - i,
    {
        if i >= n {
            st
        } else {
            let st = st.emit(on_z(BitOp::Btfsc)).emit(f_op(Op::Incf, at(a, i)));
            self.carry_up(st, a, n, (i + 1) as u8)
        }
    }

    /// The `n` bytes at `a` negated: flipped, plus one.
    pub open spec fn negate(&self, st: St, a: u32, n: u8) -> St {
        self.carry_up(self.flip_from(st, a, n, 0).emit(f_op(Op::Incf, a)), a, n, 1)
    }

    pub open spec fn add_chain(&self, st: St, t: u32, r: u32, n: u8, i: u8) -> St
        decreases n - i,
    {
        if i >= n {
            st
        } else {
            let st = st.emit(movf(at(t, i))).emit(on_c(BitOp::Btfsc)).emit(
                w_op(Op::Incfsz, at(t, i)),
            ).emit(f_op(Op::Addwf, at(r, i)));
            self.add_chain(st, t, r, n, (i + 1) as u8)
        }
    }

    /// The `n` bytes at `r` plus those at `t`; C is the carry.
    pub open spec fn add_bytes(&self, st: St, t: u32, r: u32, n: u8) -> St {
        self.add_chain(st.emit(movf(t)).emit(f_op(Op::Addwf, r)), t, r, n, 1)
    }

    pub open spec fn sub_chain(&self, st: St, t: u32, r: u32, n: u8, i: u8) -> St
        decreases n - i,
    {
        if i >= n {
            st
        } else {
            let st = st.emit(movf(at(t, i))).emit(on_c(BitOp::Btfss)).emit(
                w_op(Op::Incfsz, at(t, i)),
            ).emit(f_op(Op::Subwf, at(r, i)));
            self.sub_chain(st, t, r, n, (i + 1) as u8)
        }
    }

    /// The `n` bytes at `r` minus those at `t`; C is the absence of a borrow.
    pub open spec fn sub_bytes(&self, st: St, t: u32, r: u32, n: u8) -> St {
        self.sub_chain(st.emit(movf(t)).emit(f_op(Op::Subwf, r)), t, r, n, 1)
    }

    /// The result bytes become the `n` bytes at `src`, and the return.
    pub open spec fn give_back(&self, st: St, src: u32, n: u8) -> St {
        self.copy_bytes(st, src, self.retval, n, 0).emit(Line::Return)
    }

    /// Whether the byte at `a` lies in bank `b`.
    pub open spec fn bank_check(&self, st: St, b: Option<usize>, a: u32) -> St {
        match self.cx.device.bank(a) {
            None => st.fail(IselError::RoutineSlot),
            Some(x) => st.check(b == Some(x), IselError::RoutineStraddles),
        }
    }

    /// Whether three ranges, given by their ends, lie in one bank.
    pub open spec fn one_bank(
        &self,
        st: St,
        a: u32,
        a_end: u32,
        b: u32,
        b_end: u32,
        s: u32,
        s_end: u32,
    ) -> St {
        let bank = self.cx.device.bank(a);
        let st = self.bank_check(st, bank, a);
        let st = self.bank_check(st, bank, a_end);
        let st = self.bank_check(st, bank, b);
        let st = self.bank_check(st, bank, b_end);
        let st = self.bank_check(st, bank, s);
        self.bank_check(st, bank, s_end)
    }

    /// The `n` bytes at `t` added to those at `r` if bit zero at `bk` is set.
    pub open spec fn mul_add(
        &self,
        st: St,
        again: u32,
        skip: u32,
        bk: u32,
        r: u32,
        t: u32,
        n: u8,
    ) -> St {
        let st = st.emit(label_tmp(again)).emit(ram_bit(BitOp::Btfss, bk, 0)).emit(goto_tmp(skip));
        self.add_bytes(st, t, r, n).emit(label_tmp(skip)).emit(on_c(BitOp::Bcf))
    }

    /// The `n` bytes at `t` doubled and the `nb` bytes at `bk` halved.
    pub open spec fn mul_shift(&self, st: St, bk: u32, nb: u8, t: u32, n: u8) -> St {
        let st = self.rotate_up(st, t, n, 0).emit(on_c(BitOp::Bcf));
        self.rotate_down(st, bk, nb)
    }

    /// Shift and add over the bits of the `nb` bytes at `bk`: for each bit that is
    /// set the `n` bytes at `t` are added to those at `r`; `t` doubles every time.
    pub open spec fn mul_loop(
        &self,
        st: St,
        again: u32,
        skip: u32,
        bk: u32,
        nb: u8,
        cnt: u32,
        r: u32,
        t: u32,
        n: u8,
    ) -> St {
        let st = self.mul_add(st, again, skip, bk, r, t, n);
        self.mul_shift(st, bk, nb, t, n).emit(f_op(Op::Decfsz, cnt)).emit(goto_tmp(again))
    }

    /// The count of turns.
    pub open spec fn set_count(&self, st: St, cnt: u32, k: u8) -> St {
        st.emit(movlw(k)).emit(movwf(cnt))
    }

    /// A multiplication of one or two bytes. The multiplier sits at `scr`, the
    /// count of turns above it, then the product and the multiplicand, each of
    /// twice the width.
    pub open spec fn mul_short(&self, st: St, n: u8, a: u32, b: u32, scr: u32) -> St {
        let cnt = at(scr, n);
        let r = at(at(scr, n), 1);
        let t = at(at(r, n), n);
        let again = st.next;
        let st = st.bump();
        let skip = st.next;
        let st = st.bump();
        let st = self.clear_from(st, r, four_times(n), 0);
        let st = self.copy_bytes(st, a, t, n, 0);
        let st = self.copy_bytes(st, b, scr, n, 0);
        let st = self.set_count(st, cnt, bits_of(n));
        let st = self.mul_loop(st, again, skip, scr, n, cnt, r, t, wide_of(n));
        self.give_back(st, r, 2)
    }

    /// A multiplication of four bytes, the multiplier two bytes at a time. What is
    /// shifted out of the multiplicand is lost: the product wraps.
    pub open spec fn mul_long(&self, st: St, a: u32, b: u32, scr: u32) -> St {
        let cnt = at(scr, 2);
        let r = at(scr, 3);
        let t = at(scr, 7);
        let st = st.emit(clrf(r)).emit(clrf(t)).emit(clrf(at(r, 1))).emit(clrf(at(t, 1)))
            .emit(clrf(at(r, 2))).emit(clrf(at(t, 2))).emit(clrf(at(r, 3))).emit(clrf(at(t, 3)));
        let st = self.copy_bytes(st, a, t, 4, 0);
        let st = self.copy_bytes(st, b, scr, 2, 0);
        let st = self.set_count(st, cnt, 16);
        let again = st.next;
        let st = st.bump();
        let skip = st.next;
        let st = st.bump();
        let st = self.mul_loop(st, again, skip, scr, 2, cnt, r, t, 4);
        let st = self.copy_bytes(st, at(b, 2), scr, 2, 0);
        let st = self.set_count(st, cnt, 16);
        let again2 = st.next;
        let st = st.bump();
        let skip2 = st.next;
        let st = st.bump();
        let st = self.mul_loop(st, again2, skip2, scr, 2, cnt, r, t, 4);
        self.give_back(st, r, 4)
    }

    /// A multiplication of `n` bytes.
    pub open spec fn mul_body(&self, st: St, n: u8, a: u32, b: u32, scr: u32) -> St {
        if n == 1 {
            let st = self.one_bank(st, a, a, b, b, scr, at(scr, 5));
            self.mul_short(st, 1, a, b, scr)
        } else {
            if n == 2 {
                let st = self.one_bank(st, a, at(a, 1), b, at(b, 1), scr, at(scr, 10));
                self.mul_short(st, 2, a, b, scr)
            } else {
                let st = self.one_bank(st, a, at(a, 3), b, at(b, 3), scr, at(scr, 10));
                self.mul_long(st, a, b, scr)
            }
        }
    }

    /// The byte at `a` plus the carry.
    pub open spec fn add_bit(&self, st: St, a: u32) -> St {
        st.emit(movlw(0)).emit(on_c(BitOp::Btfsc)).emit(lit(LitOp::Addlw, 1))
            .emit(f_op(Op::Addwf, a))
    }

    /// The byte at `a` minus the borrow; C is the absence of one.
    pub open spec fn sub_bit(&self, st: St, a: u32) -> St {
        st.emit(movlw(0)).emit(on_c(BitOp::Btfss)).emit(lit(LitOp::Addlw, 1))
            .emit(f_op(Op::Subwf, a))
    }

    /// The next bit of the dividend moves into the remainder, and the divisor is
    /// taken away. C says whether it fitted. The remainder of a one-byte division
    /// has a second byte.
    pub open spec fn div_bring(&self, st: St, n: u8, d: Division, again: u32) -> St {
        let st = st.emit(label_tmp(again)).emit(on_c(BitOp::Bcf));
        let st = self.rotate_up(st, d.num, n, 0);
        let st = self.rotate_up(st, d.rem, rem_bytes(n), 0);
        let st = self.sub_bytes(st, d.den, d.rem, n);
        if n == 1 {
            self.sub_bit(st, at(d.rem, 1))
        } else {
            st
        }
    }

    /// Where the divisor fitted, the bit that came free in the dividend is set,
    /// else the divisor is added back.
    pub open spec fn div_settle(&self, st: St, n: u8, d: Division, l: LoopLabels) -> St {
        let st = st.emit(on_c(BitOp::Btfss)).emit(goto_tmp(l.restore))
            .emit(ram_bit(BitOp::Bsf, d.num, 0)).emit(goto_tmp(l.next))
            .emit(label_tmp(l.restore));
        let st = self.add_bytes(st, d.den, d.rem, n);
        let st = if n == 1 {
            self.add_bit(st, at(d.rem, 1))
        } else {
            st
        };
        st.emit(label_tmp(l.next))
    }

    /// The turns of a restoring division, one for each bit of the dividend, which
    /// becomes the quotient.
    pub open spec fn div_loop(&self, st: St, n: u8, d: Division, l: LoopLabels) -> St {
        self.div_settle(self.div_bring(st, n, d, l.again), n, d, l).emit(
            f_op(Op::Decfsz, d.cnt),
        ).emit(goto_tmp(l.again))
    }

    /// The division of `d.num` by `d.den`.
    pub open spec fn divide(&self, st: St, n: u8, d: Division, l: LoopLabels) -> St {
        let st = self.clear_from(st, d.rem, rem_bytes(n), 0);
        let st = self.set_count(st, d.cnt, bits_of(n));
        self.div_loop(st, n, d, l)
    }

    /// An unsigned division of `n` bytes, for its quotient or its remainder.
    pub open spec fn unsigned_div(
        &self,
        st: St,
        n: u8,
        quotient: bool,
        num: u32,
        den: u32,
        scr: u32,
    ) -> St {
        let st = if n == 1 {
            self.one_bank(st, num, num, den, den, scr, at(scr, 3))
        } else {
            if n == 2 {
                self.one_bank(st, num, at(num, 1), den, at(den, 1), scr, at(scr, 6))
            } else {
                let st = self.one_bank(st, num, at(num, 3), den, at(den, 3), scr, at(scr, 9));
                self.copy_bytes(st, den, at(scr, 4), 4, 0)
            }
        };
        let again = st.next;
        let st = st.bump();
        let restore = st.next;
        let st = st.bump();
        let next = st.next;
        let st = st.bump();
        let d = unsigned_layout(n, num, den, scr);
        let st = self.divide(st, n, d, (LoopLabels { again, restore, next }));
        self.give_back(st, if quotient {
                d.num
            } else {
                d.rem
            }, n)
    }

    /// The operands become their magnitudes. Bit zero of the flags says that the
    /// quotient is negative, bit one that the remainder is.
    pub open spec fn magnitudes(
        &self,
        st: St,
        n: u8,
        num: u32,
        den: u32,
        flags: u32,
        l_den: u32,
        l_go: u32,
    ) -> St {
        let top = last_of(n);
        let st = st.emit(clrf(flags)).emit(ram_bit(BitOp::Btfss, at(num, top), 7)).emit(goto_tmp(l_den))
            .emit(ram_bit(BitOp::Bsf, flags, 1)).emit(ram_bit(BitOp::Bsf, flags, 0));
        let st = self.negate(st, num, n);
        let st = st.emit(label_tmp(l_den)).emit(ram_bit(BitOp::Btfss, at(den, top), 7))
            .emit(goto_tmp(l_go));
        let st = self.negate(st, den, n);
        st.emit(movlw(1)).emit(f_op(Op::Xorwf, flags)).emit(label_tmp(l_go))
    }

    /// The result at `a`, negated if its flag is set.
    pub open spec fn signed_result(
        &self,
        st: St,
        n: u8,
        flags: u32,
        bit: u8,
        a: u32,
        l_store: u32,
    ) -> St {
        let st = st.emit(ram_bit(BitOp::Btfss, flags, bit)).emit(goto_tmp(l_store));
        let st = self.negate(st, a, n);
        let st = st.emit(label_tmp(l_store));
        self.give_back(st, a, n)
    }

    /// A signed division of one or two bytes.
    pub open spec fn signed_short(
        &self,
        st: St,
        n: u8,
        quotient: bool,
        num: u32,
        den: u32,
        scr: u32,
    ) -> St {
        let l_den = st.next;
        let st = st.bump();
        let l_go = st.next;
        let st = st.bump();
        let again = st.next;
        let st = st.bump();
        let restore = st.next;
        let st = st.bump();
        let next = st.next;
        let st = st.bump();
        let l_store = st.next;
        let st = st.bump();
        let d = (Division { num, den, rem: at(scr, 1), cnt: at(scr, 3) });
        let st = self.magnitudes(st, n, num, den, scr, l_den, l_go);
        let st = self.divide(st, n, d, (LoopLabels { again, restore, next }));
        self.signed_result(st, n, scr, if quotient { 0 } else { 1 }, if quotient {
                d.num
            } else {
                d.rem
            }, l_store)
    }

    /// A signed division of four bytes.
    pub open spec fn signed_long(
        &self,
        st: St,
        quotient: bool,
        num: u32,
        den: u32,
        scr: u32,
    ) -> St {
        let l_den = st.next;
        let st = st.bump();
        let l_go = st.next;
        let st = st.bump();
        let l_store = st.next;
        let st = st.bump();
        let flags = at(scr, 10);
        let d = (Division { num, den: at(scr, 4), rem: scr, cnt: at(scr, 8) });
        let st = self.magnitudes(st, 4, num, den, flags, l_den, l_go);
        let st = self.copy_bytes(st, den, d.den, 4, 0);
        let again = st.next;
        let st = st.bump();
        let restore = st.next;
        let st = st.bump();
        let next = st.next;
        let st = st.bump();
        let st = self.divide(st, 4, d, (LoopLabels { again, restore, next }));
        self.signed_result(st, 4, flags, if quotient { 0 } else { 1 }, if quotient {
                d.num
            } else {
                d.rem
            }, l_store)
    }

    /// A signed division of `n` bytes, truncated toward zero, for its quotient or
    /// its remainder, which has the sign of the dividend.
    pub open spec fn signed_div(
        &self,
        st: St,
        n: u8,
        quotient: bool,
        num: u32,
        den: u32,
        scr: u32,
    ) -> St {
        if n == 1 {
            let st = self.one_bank(st, num, num, den, den, scr, at(scr, 4));
            self.signed_short(st, 1, quotient, num, den, scr)
        } else {
            if n == 2 {
                let st = self.one_bank(st, num, at(num, 1), den, at(den, 1), scr, at(scr, 6));
                self.signed_short(st, 2, quotient, num, den, scr)
            } else {
                let st = self.one_bank(st, num, at(num, 3), den, at(den, 3), scr, at(scr, 11));
                self.signed_long(st, quotient, num, den, scr)
            }
        }
    }

    /// The `n` bytes at `val` shifted as often as the count at `cnt`, modulo the
    /// width, says.
    pub open spec fn shift_body(
        &self,
        st: St,
        n: u8,
        op: BinOp,
        val: u32,
        cnt: u32,
        scr: u32,
    ) -> St {
        let st = st.emit(movf(cnt)).emit(lit(LitOp::Andlw, count_mask(n))).emit(movwf(scr));
        let st = if n == 2 {
            st.emit(clrf(at(scr, 1)))
        } else {
            st
        };
        let again = st.next;
        let st = st.bump();
        let done = st.next;
        let st = st.bump();
        let st = st.emit(f_op(Op::Movf, scr)).emit(on_z(BitOp::Btfsc)).emit(goto_tmp(done))
            .emit(label_tmp(again));
        let st = self.shift_once(st, op, val, n);
        let st = st.emit(f_op(Op::Decfsz, scr)).emit(goto_tmp(again)).emit(label_tmp(done));
        self.give_back(st, val, n)
    }

    /// The sign of the integer at `val` into the byte at `sign`, and the integer
    /// becomes its magnitude.
    pub open spec fn set_sign_aside(&self, st: St, val: u32, sign: u32) -> St {
        let l_pos = st.next;
        let st = st.bump();
        let st = st.emit(movf(at(val, 3))).emit(lit(LitOp::Andlw, 0x80)).emit(movwf(sign))
            .emit(ram_bit(BitOp::Btfss, at(val, 3), 7)).emit(goto_tmp(l_pos));
        let st = self.negate(st, val, 4);
        st.emit(label_tmp(l_pos))
    }

    /// The body of a routine, by its recipe.
    pub open spec fn recipe_step(&self, st: St, r: Routine, scr: u32) -> St {
        match r {
            Routine::Mul(n) => {
                let (st, a) = self.cx.local_step(st, "a"@);
                let (st, b) = self.cx.local_step(st, "b"@);
                self.mul_body(st, n, a, b, scr)
            },
            Routine::UDiv(n) => {
                let (st, num) = self.cx.local_step(st, "num"@);
                let (st, den) = self.cx.local_step(st, "den"@);
                self.unsigned_div(st, n, true, num, den, scr)
            },
            Routine::URem(n) => {
                let (st, num) = self.cx.local_step(st, "num"@);
                let (st, den) = self.cx.local_step(st, "den"@);
                self.unsigned_div(st, n, false, num, den, scr)
            },
            Routine::SDiv(n) => {
                let (st, num) = self.cx.local_step(st, "num"@);
                let (st, den) = self.cx.local_step(st, "den"@);
                self.signed_div(st, n, true, num, den, scr)
            },
            Routine::SRem(n) => {
                let (st, num) = self.cx.local_step(st, "num"@);
                let (st, den) = self.cx.local_step(st, "den"@);
                self.signed_div(st, n, false, num, den, scr)
            },
            Routine::Shl(n) => self.shift_routine(st, n, BinOp::Shl, scr),
            Routine::LShr(n) => self.shift_routine(st, n, BinOp::LShr, scr),
            Routine::AShr(n) => self.shift_routine(st, n, BinOp::AShr, scr),
            Routine::AddF => self.addf_routine(st, scr, false),
            Routine::SubF => self.addf_routine(st, scr, true),
            Routine::MulF => {
                let (st, a) = self.cx.local_step(st, "a"@);
                let (st, b) = self.cx.local_step(st, "b"@);
                let st = self.one_bank(st, a, at(a, 3), b, at(b, 3), scr, at(scr, 13));
                self.mulf(st, a, b, scr)
            },
            Routine::DivF => {
                let (st, a) = self.cx.local_step(st, "a"@);
                let (st, b) = self.cx.local_step(st, "b"@);
                let st = self.one_bank(st, a, at(a, 3), b, at(b, 3), scr, at(scr, 11));
                self.divf(st, a, b, scr)
            },
            Routine::OrderF => {
                let (st, a) = self.cx.local_step(st, "a"@);
                let (st, b) = self.cx.local_step(st, "b"@);
                let st = self.one_bank(st, a, at(a, 3), b, at(b, 3), scr, at(scr, 5));
                self.orderf(st, a, b, scr)
            },
            Routine::UintToF => {
                let (st, val) = self.cx.local_step(st, "val"@);
                let st = self.one_bank(st, val, at(val, 3), val, at(val, 3), scr, at(scr, 7));
                self.utof(st, val, scr, false)
            },
            Routine::IntToF => {
                let (st, val) = self.cx.local_step(st, "val"@);
                let st = self.one_bank(st, val, at(val, 3), val, at(val, 3), scr, at(scr, 7));
                self.utof(self.set_sign_aside(st, val, at(scr, 5)), val, scr, true)
            },
            Routine::FToUint => {
                let (st, val) = self.cx.local_step(st, "val"@);
                let st = self.one_bank(st, val, at(val, 3), val, at(val, 3), scr, at(scr, 7));
                self.ftoi(st, val, scr, false)
            },
            Routine::FToInt => {
                let (st, val) = self.cx.local_step(st, "val"@);
                let st = self.one_bank(st, val, at(val, 3), val, at(val, 3), scr, at(scr, 7));
                self.ftoi(st, val, scr, true)
            },
        }
    }

    /// A variable shift: the count masked to the width, the value shifted in
    /// its parameter slot.
    pub open spec fn shift_routine(&self, st: St, n: u8, op: BinOp, scr: u32) -> St {
        let (st, val) = self.cx.local_step(st, "val"@);
        let (st, cnt) = self.cx.local_step(st, "cnt"@);
        let st = self.one_bank(
            st,
            val,
            at(val, (n - 1) as u8),
            cnt,
            at(cnt, (n - 1) as u8),
            scr,
            at(scr, 1),
        );
        self.shift_body(st, n, op, val, cnt, scr)
    }

    /// The sum of two numbers, or their difference: the sign of the second is
    /// flipped.
    pub open spec fn addf_routine(&self, st: St, scr: u32, flip: bool) -> St {
        let (st, pa) = self.cx.local_step(st, "a"@);
        let (st, pb) = self.cx.local_step(st, "b"@);
        let st = self.one_bank(st, pa, at(pa, 3), pb, at(pb, 3), scr, at(scr, 13));
        let st = self.extract(st, pa, scr, at(scr, 1), at(scr, 2), false);
        let st = self.extract(st, pb, at(scr, 5), at(scr, 6), at(scr, 7), flip);
        self.addf(st, scr)
    }

    /// The current function, which is a runtime routine.
    #[verifier::opaque]
    pub open spec fn routine_step(&self, st: St) -> St {
        match routine(self.cx.fname()) {
            Some(r) => {
                let (st, scr) = self.cx.local_step(st, "__scr"@);
                self.recipe_step(st.emit(Line::Label(Sym::Func(self.cx.func))), r, scr)
            },
            None => st.fail(IselError::NotARoutine),
        }
    }

    pub fn emit_copy_bytes(&self, g: &mut Emitter, src: u32, dst: u32, n: u8)
        ensures
            final(g)@ == self.copy_bytes(old(g)@, src, dst, n, 0),
    {
        let mut i: u8 = 0;
        while i < n
            invariant
                self.copy_bytes(old(g)@, src, dst, n, 0) == self.copy_bytes(g@, src, dst, n, i),
            decreases n - i,
        {
            g.emit(movf(at(src, i)));
            g.emit(movwf(at(dst, i)));
            i += 1;
        }
    }

    /// Negates the `n` bytes at `a` in place.
    pub fn emit_negate(&self, g: &mut Emitter, a: u32, n: u8)
        ensures
            final(g)@ == self.negate(old(g)@, a, n),
    {
        let mut i: u8 = 0;
        while i < n
            invariant
                self.flip_from(old(g)@, a, n, 0) == self.flip_from(g@, a, n, i),
            decreases n - i,
        {
            g.emit(f_op(Op::Comf, at(a, i)));
            i += 1;
        }
        g.emit(f_op(Op::Incf, a));
        let ghost mid = g@;
        let mut i: u8 = 1;
        while i < n
            invariant
                self.carry_up(mid, a, n, 1) == self.carry_up(g@, a, n, i),
            decreases n - i,
        {
            g.emit(on_z(BitOp::Btfsc));
            g.emit(f_op(Op::Incf, at(a, i)));
            i += 1;
        }
    }

    /// Adds the `n` bytes at `t` to those at `r`.
    fn emit_add_bytes(&self, g: &mut Emitter, t: u32, r: u32, n: u8)
        ensures
            final(g)@ == self.add_bytes(old(g)@, t, r, n),
    {
        g.emit(movf(t));
        g.emit(f_op(Op::Addwf, r));
        let mut i: u8 = 1;
        while i < n
            invariant
                self.add_bytes(old(g)@, t, r, n) == self.add_chain(g@, t, r, n, i),
            decreases n - i,
        {
            g.emit(movf(at(t, i)));
            g.emit(on_c(BitOp::Btfsc));
            g.emit(w_op(Op::Incfsz, at(t, i)));
            g.emit(f_op(Op::Addwf, at(r, i)));
            i += 1;
        }
    }

    /// Subtracts the `n` bytes at `t` from those at `r`.
    fn emit_sub_bytes(&self, g: &mut Emitter, t: u32, r: u32, n: u8)
        ensures
            final(g)@ == self.sub_bytes(old(g)@, t, r, n),
    {
        g.emit(movf(t));
        g.emit(f_op(Op::Subwf, r));
        let mut i: u8 = 1;
        while i < n
            invariant
                self.sub_bytes(old(g)@, t, r, n) == self.sub_chain(g@, t, r, n, i),
            decreases n - i,
        {
            g.emit(movf(at(t, i)));
            g.emit(on_c(BitOp::Btfss));
            g.emit(w_op(Op::Incfsz, at(t, i)));
            g.emit(f_op(Op::Subwf, at(r, i)));
            i += 1;
        }
    }

    fn emit_give_back(&self, g: &mut Emitter, src: u32, n: u8)
        ensures
            final(g)@ == self.give_back(old(g)@, src, n),
    {
        self.emit_copy_bytes(g, src, self.retval, n);
        g.emit(Line::Return);
    }

    fn check_bank(&self, g: &mut Emitter, b: Option<usize>, a: u32)
        ensures
            final(g)@ == self.bank_check(old(g)@, b, a),
    {
        match self.cx.device.bank_of(a) {
            None => g.fail(IselError::RoutineSlot),
            Some(x) => g.check(b == Some(x), IselError::RoutineStraddles),
        }
    }

    /// Refuses slots that do not share a bank.
    fn emit_one_bank(
        &self,
        g: &mut Emitter,
        a: u32,
        a_end: u32,
        b: u32,
        b_end: u32,
        s: u32,
        s_end: u32,
    )
        ensures
            final(g)@ == self.one_bank(old(g)@, a, a_end, b, b_end, s, s_end),
    {
        let bank: Option<usize> = self.cx.device.bank_of(a);
        self.check_bank(g, bank, a);
        self.check_bank(g, bank, a_end);
        self.check_bank(g, bank, b);
        self.check_bank(g, bank, b_end);
        self.check_bank(g, bank, s);
        self.check_bank(g, bank, s_end);
    }

    fn emit_mul_loop(
        &self,
        g: &mut Emitter,
        again: u32,
        skip: u32,
        bk: u32,
        nb: u8,
        cnt: u32,
        r: u32,
        t: u32,
        n: u8,
    )
        ensures
            final(g)@ == self.mul_loop(old(g)@, again, skip, bk, nb, cnt, r, t, n),
    {
        g.emit(label_tmp(again));
        g.emit(ram_bit(BitOp::Btfss, bk, 0));
        g.emit(goto_tmp(skip));
        self.emit_add_bytes(g, t, r, n);
        g.emit(label_tmp(skip));
        g.emit(on_c(BitOp::Bcf));
        self.emit_rotate_up(g, t, n);
        g.emit(on_c(BitOp::Bcf));
        self.emit_rotate_down(g, bk, nb);
        g.emit(f_op(Op::Decfsz, cnt));
        g.emit(goto_tmp(again));
    }

    fn emit_set_count(&self, g: &mut Emitter, cnt: u32, k: u8)
        ensures
            final(g)@ == self.set_count(old(g)@, cnt, k),
    {
        g.emit(movlw(k));
        g.emit(movwf(cnt));
    }

    fn emit_mul_short(&self, g: &mut Emitter, n: u8, a: u32, b: u32, scr: u32)
        ensures
            final(g)@ == self.mul_short(old(g)@, n, a, b, scr),
    {
        let cnt: u32 = at(scr, n);
        let r: u32 = at(at(scr, n), 1);
        let t: u32 = at(at(r, n), n);
        let again: u32 = g.fresh_label();
        let skip: u32 = g.fresh_label();
        self.emit_clear_from(g, r, four_times(n), 0);
        self.emit_copy_bytes(g, a, t, n);
        self.emit_copy_bytes(g, b, scr, n);
        self.emit_set_count(g, cnt, bits_of(n));
        self.emit_mul_loop(g, again, skip, scr, n, cnt, r, t, wide_of(n));
        self.emit_give_back(g, r, 2);
    }

    fn emit_mul_long(&self, g: &mut Emitter, a: u32, b: u32, scr: u32)
        ensures
            final(g)@ == self.mul_long(old(g)@, a, b, scr),
    {
        let cnt: u32 = at(scr, 2);
        let r: u32 = at(scr, 3);
        let t: u32 = at(scr, 7);
        g.emit(clrf(r));
        g.emit(clrf(t));
        g.emit(clrf(at(r, 1)));
        g.emit(clrf(at(t, 1)));
        g.emit(clrf(at(r, 2)));
        g.emit(clrf(at(t, 2)));
        g.emit(clrf(at(r, 3)));
        g.emit(clrf(at(t, 3)));
        self.emit_copy_bytes(g, a, t, 4);
        self.emit_copy_bytes(g, b, scr, 2);
        self.emit_set_count(g, cnt, 16);
        let again: u32 = g.fresh_label();
        let skip: u32 = g.fresh_label();
        self.emit_mul_loop(g, again, skip, scr, 2, cnt, r, t, 4);
        self.emit_copy_bytes(g, at(b, 2), scr, 2);
        self.emit_set_count(g, cnt, 16);
        let again2: u32 = g.fresh_label();
        let skip2: u32 = g.fresh_label();
        self.emit_mul_loop(g, again2, skip2, scr, 2, cnt, r, t, 4);
        self.emit_give_back(g, r, 4);
    }

    fn emit_mul_body(&self, g: &mut Emitter, n: u8, a: u32, b: u32, scr: u32)
        ensures
            final(g)@ == self.mul_body(old(g)@, n, a, b, scr),
    {
        if n == 1 {
            self.emit_one_bank(g, a, a, b, b, scr, at(scr, 5));
            self.emit_mul_short(g, 1, a, b, scr);
        } else {
            if n == 2 {
                self.emit_one_bank(g, a, at(a, 1), b, at(b, 1), scr, at(scr, 10));
                self.emit_mul_short(g, 2, a, b, scr);
            } else {
                self.emit_one_bank(g, a, at(a, 3), b, at(b, 3), scr, at(scr, 10));
                self.emit_mul_long(g, a, b, scr);
            }
        }
    }

    fn emit_add_bit(&self, g: &mut Emitter, a: u32)
        ensures
            final(g)@ == self.add_bit(old(g)@, a),
    {
        g.emit(movlw(0));
        g.emit(on_c(BitOp::Btfsc));
        g.emit(lit(LitOp::Addlw, 1));
        g.emit(f_op(Op::Addwf, a));
    }

    fn emit_sub_bit(&self, g: &mut Emitter, a: u32)
        ensures
            final(g)@ == self.sub_bit(old(g)@, a),
    {
        g.emit(movlw(0));
        g.emit(on_c(BitOp::Btfss));
        g.emit(lit(LitOp::Addlw, 1));
        g.emit(f_op(Op::Subwf, a));
    }

    fn emit_div_loop(&self, g: &mut Emitter, n: u8, d: Division, l: LoopLabels)
        ensures
            final(g)@ == self.div_loop(old(g)@, n, d, l),
    {
        g.emit(label_tmp(l.again));
        g.emit(on_c(BitOp::Bcf));
        self.emit_rotate_up(g, d.num, n);
        self.emit_rotate_up(g, d.rem, rem_bytes(n));
        self.emit_sub_bytes(g, d.den, d.rem, n);
        if n == 1 {
            self.emit_sub_bit(g, at(d.rem, 1));
        }
        g.emit(on_c(BitOp::Btfss));
        g.emit(goto_tmp(l.restore));
        g.emit(ram_bit(BitOp::Bsf, d.num, 0));
        g.emit(goto_tmp(l.next));
        g.emit(label_tmp(l.restore));
        self.emit_add_bytes(g, d.den, d.rem, n);
        if n == 1 {
            self.emit_add_bit(g, at(d.rem, 1));
        }
        g.emit(label_tmp(l.next));
        g.emit(f_op(Op::Decfsz, d.cnt));
        g.emit(goto_tmp(l.again));
    }

    fn emit_divide(&self, g: &mut Emitter, n: u8, d: Division, l: LoopLabels)
        ensures
            final(g)@ == self.divide(old(g)@, n, d, l),
    {
        self.emit_clear_from(g, d.rem, rem_bytes(n), 0);
        self.emit_set_count(g, d.cnt, bits_of(n));
        self.emit_div_loop(g, n, d, l);
    }

    fn emit_unsigned_div(
        &self,
        g: &mut Emitter,
        n: u8,
        quotient: bool,
        num: u32,
        den: u32,
        scr: u32,
    )
        ensures
            final(g)@ == self.unsigned_div(old(g)@, n, quotient, num, den, scr),
    {
        if n == 1 {
            self.emit_one_bank(g, num, num, den, den, scr, at(scr, 3));
        } else {
            if n == 2 {
                self.emit_one_bank(g, num, at(num, 1), den, at(den, 1), scr, at(scr, 6));
            } else {
                self.emit_one_bank(g, num, at(num, 3), den, at(den, 3), scr, at(scr, 9));
                self.emit_copy_bytes(g, den, at(scr, 4), 4);
            }
        }
        let again: u32 = g.fresh_label();
        let restore: u32 = g.fresh_label();
        let next: u32 = g.fresh_label();
        let d: Division = unsigned_layout(n, num, den, scr);
        self.emit_divide(g, n, d, (LoopLabels { again, restore, next }));
        self.emit_give_back(g, if quotient {
                d.num
            } else {
                d.rem
            }, n);
    }

    fn emit_magnitudes(
        &self,
        g: &mut Emitter,
        n: u8,
        num: u32,
        den: u32,
        flags: u32,
        l_den: u32,
        l_go: u32,
    )
        ensures
            final(g)@ == self.magnitudes(old(g)@, n, num, den, flags, l_den, l_go),
    {
        let top: u8 = last_of(n);
        g.emit(clrf(flags));
        g.emit(ram_bit(BitOp::Btfss, at(num, top), 7));
        g.emit(goto_tmp(l_den));
        g.emit(ram_bit(BitOp::Bsf, flags, 1));
        g.emit(ram_bit(BitOp::Bsf, flags, 0));
        self.emit_negate(g, num, n);
        g.emit(label_tmp(l_den));
        g.emit(ram_bit(BitOp::Btfss, at(den, top), 7));
        g.emit(goto_tmp(l_go));
        self.emit_negate(g, den, n);
        g.emit(movlw(1));
        g.emit(f_op(Op::Xorwf, flags));
        g.emit(label_tmp(l_go));
    }

    fn emit_signed_result(
        &self,
        g: &mut Emitter,
        n: u8,
        flags: u32,
        bit: u8,
        a: u32,
        l_store: u32,
    )
        ensures
            final(g)@ == self.signed_result(old(g)@, n, flags, bit, a, l_store),
    {
        g.emit(ram_bit(BitOp::Btfss, flags, bit));
        g.emit(goto_tmp(l_store));
        self.emit_negate(g, a, n);
        g.emit(label_tmp(l_store));
        self.emit_give_back(g, a, n);
    }

    fn emit_signed_short(
        &self,
        g: &mut Emitter,
        n: u8,
        quotient: bool,
        num: u32,
        den: u32,
        scr: u32,
    )
        ensures
            final(g)@ == self.signed_short(old(g)@, n, quotient, num, den, scr),
    {
        let l_den: u32 = g.fresh_label();
        let l_go: u32 = g.fresh_label();
        let again: u32 = g.fresh_label();
        let restore: u32 = g.fresh_label();
        let next: u32 = g.fresh_label();
        let l_store: u32 = g.fresh_label();
        let d: Division = (Division { num, den, rem: at(scr, 1), cnt: at(scr, 3) });
        self.emit_magnitudes(g, n, num, den, scr, l_den, l_go);
        self.emit_divide(g, n, d, (LoopLabels { again, restore, next }));
        self.emit_signed_result(g, n, scr, if quotient { 0 } else { 1 }, if quotient {
                d.num
            } else {
                d.rem
            }, l_store);
    }

    fn emit_signed_long(&self, g: &mut Emitter, quotient: bool, num: u32, den: u32, scr: u32)
        ensures
            final(g)@ == self.signed_long(old(g)@, quotient, num, den, scr),
    {
        let l_den: u32 = g.fresh_label();
        let l_go: u32 = g.fresh_label();
        let l_store: u32 = g.fresh_label();
        let flags: u32 = at(scr, 10);
        let d: Division = (Division { num, den: at(scr, 4), rem: scr, cnt: at(scr, 8) });
        self.emit_magnitudes(g, 4, num, den, flags, l_den, l_go);
        self.emit_copy_bytes(g, den, d.den, 4);
        let again: u32 = g.fresh_label();
        let restore: u32 = g.fresh_label();
        let next: u32 = g.fresh_label();
        self.emit_divide(g, 4, d, (LoopLabels { again, restore, next }));
        self.emit_signed_result(g, 4, flags, if quotient { 0 } else { 1 }, if quotient {
                d.num
            } else {
                d.rem
            }, l_store);
    }

    fn emit_signed_div(
        &self,
        g: &mut Emitter,
        n: u8,
        quotient: bool,
        num: u32,
        den: u32,
        scr: u32,
    )
        ensures
            final(g)@ == self.signed_div(old(g)@, n, quotient, num, den, scr),
    {
        if n == 1 {
            self.emit_one_bank(g, num, num, den, den, scr, at(scr, 4));
            self.emit_signed_short(g, 1, quotient, num, den, scr);
        } else {
            if n == 2 {
                self.emit_one_bank(g, num, at(num, 1), den, at(den, 1), scr, at(scr, 6));
                self.emit_signed_short(g, 2, quotient, num, den, scr);
            } else {
                self.emit_one_bank(g, num, at(num, 3), den, at(den, 3), scr, at(scr, 11));
                self.emit_signed_long(g, quotient, num, den, scr);
            }
        }
    }

    fn emit_shift_body(&self, g: &mut Emitter, n: u8, op: BinOp, val: u32, cnt: u32, scr: u32)
        requires
            n > 0,
        ensures
            final(g)@ == self.shift_body(old(g)@, n, op, val, cnt, scr),
    {
        g.emit(movf(cnt));
        g.emit(lit(LitOp::Andlw, count_mask(n)));
        g.emit(movwf(scr));
        if n == 2 {
            g.emit(clrf(at(scr, 1)));
        }
        let again: u32 = g.fresh_label();
        let done: u32 = g.fresh_label();
        g.emit(f_op(Op::Movf, scr));
        g.emit(on_z(BitOp::Btfsc));
        g.emit(goto_tmp(done));
        g.emit(label_tmp(again));
        self.emit_shift_once(g, op, val, n);
        g.emit(f_op(Op::Decfsz, scr));
        g.emit(goto_tmp(again));
        g.emit(label_tmp(done));
        self.emit_give_back(g, val, n);
    }

    fn emit_set_sign_aside(&self, g: &mut Emitter, val: u32, sign: u32)
        ensures
            final(g)@ == self.set_sign_aside(old(g)@, val, sign),
    {
        let l_pos: u32 = g.fresh_label();
        g.emit(movf(at(val, 3)));
        g.emit(lit(LitOp::Andlw, 0x80));
        g.emit(movwf(sign));
        g.emit(ram_bit(BitOp::Btfss, at(val, 3), 7));
        g.emit(goto_tmp(l_pos));
        self.emit_negate(g, val, 4);
        g.emit(label_tmp(l_pos));
    }

    fn emit_shift_routine(&self, g: &mut Emitter, n: u8, op: BinOp, scr: u32)
        requires
            self.wf(),
            n > 0,
        ensures
            final(g)@ == self.shift_routine(old(g)@, n, op, scr),
    {
        let val: u32 = self.cx.local_addr(g, "val");
        let cnt: u32 = self.cx.local_addr(g, "cnt");
        self.emit_one_bank(g, val, at(val, n - 1), cnt, at(cnt, n - 1), scr, at(scr, 1));
        self.emit_shift_body(g, n, op, val, cnt, scr);
    }

    fn emit_addf_routine(&self, g: &mut Emitter, scr: u32, flip: bool)
        requires
            self.wf(),
        ensures
            final(g)@ == self.addf_routine(old(g)@, scr, flip),
    {
        let pa: u32 = self.cx.local_addr(g, "a");
        let pb: u32 = self.cx.local_addr(g, "b");
        self.emit_one_bank(g, pa, at(pa, 3), pb, at(pb, 3), scr, at(scr, 13));
        self.emit_extract(g, pa, scr, at(scr, 1), at(scr, 2), false);
        self.emit_extract(g, pb, at(scr, 5), at(scr, 6), at(scr, 7), flip);
        self.emit_addf(g, scr);
    }

    fn operands(&self, g: &mut Emitter, scr: u32, top: u8) -> (r: (u32, u32))
        requires
            self.wf(),
        ensures
            ({
                let (st, a) = self.cx.local_step(old(g)@, "a"@);
                let (st, b) = self.cx.local_step(st, "b"@);
                &&& r == (a, b)
                &&& final(g)@ == self.one_bank(st, a, at(a, 3), b, at(b, 3), scr, at(scr, top))
            }),
    {
        let a: u32 = self.cx.local_addr(g, "a");
        let b: u32 = self.cx.local_addr(g, "b");
        self.emit_one_bank(g, a, at(a, 3), b, at(b, 3), scr, at(scr, top));
        (a, b)
    }

    fn operand(&self, g: &mut Emitter, scr: u32) -> (r: u32)
        requires
            self.wf(),
        ensures
            ({
                let (st, val) = self.cx.local_step(old(g)@, "val"@);
                &&& r == val
                &&& final(g)@ == self.one_bank(
                    st,
                    val,
                    at(val, 3),
                    val,
                    at(val, 3),
                    scr,
                    at(scr, 7),
                )
            }),
    {
        let val: u32 = self.cx.local_addr(g, "val");
        self.emit_one_bank(g, val, at(val, 3), val, at(val, 3), scr, at(scr, 7));
        val
    }

    fn emit_float_recipe(&self, g: &mut Emitter, r: Routine, scr: u32)
        requires
            self.wf(),
            !(r is Mul || r is UDiv || r is URem || r is SDiv || r is SRem || r is Shl || r is LShr
                || r is AShr),
        ensures
            final(g)@ == self.recipe_step(old(g)@, r, scr),
    {
        match r {
            Routine::AddF => self.emit_addf_routine(g, scr, false),
            Routine::SubF => self.emit_addf_routine(g, scr, true),
            Routine::MulF => {
                let (a, b) = self.operands(g, scr, 13);
                self.emit_mulf(g, a, b, scr);
            },
            Routine::DivF => {
                let (a, b) = self.operands(g, scr, 11);
                self.emit_divf(g, a, b, scr);
            },
            Routine::OrderF => {
                let (a, b) = self.operands(g, scr, 5);
                self.emit_orderf(g, a, b, scr);
            },
            Routine::UintToF => {
                let val: u32 = self.operand(g, scr);
                self.emit_utof(g, val, scr, false);
            },
            Routine::IntToF => {
                let val: u32 = self.operand(g, scr);
                self.emit_set_sign_aside(g, val, at(scr, 5));
                self.emit_utof(g, val, scr, true);
            },
            Routine::FToUint => {
                let val: u32 = self.operand(g, scr);
                self.emit_ftoi(g, val, scr, false);
            },
            Routine::FToInt => {
                let val: u32 = self.operand(g, scr);
                self.emit_ftoi(g, val, scr, true);
            },
            _ => {},
        }
    }

    fn emit_recipe(&self, g: &mut Emitter, r: Routine, scr: u32)
        requires
            self.wf(),
            r matches Routine::Shl(n) ==> n > 0,
            r matches Routine::LShr(n) ==> n > 0,
            r matches Routine::AShr(n) ==> n > 0,
            r matches Routine::Mul(n) ==> n > 0,
            r matches Routine::UDiv(n) ==> n > 0,
            r matches Routine::URem(n) ==> n > 0,
            r matches Routine::SDiv(n) ==> n > 0,
            r matches Routine::SRem(n) ==> n > 0,
        ensures
            final(g)@ == self.recipe_step(old(g)@, r, scr),
    {
        match r {
            Routine::Mul(n) => {
                let a: u32 = self.cx.local_addr(g, "a");
                let b: u32 = self.cx.local_addr(g, "b");
                self.emit_mul_body(g, n, a, b, scr);
            },
            Routine::UDiv(n) => {
                let num: u32 = self.cx.local_addr(g, "num");
                let den: u32 = self.cx.local_addr(g, "den");
                self.emit_unsigned_div(g, n, true, num, den, scr);
            },
            Routine::URem(n) => {
                let num: u32 = self.cx.local_addr(g, "num");
                let den: u32 = self.cx.local_addr(g, "den");
                self.emit_unsigned_div(g, n, false, num, den, scr);
            },
            Routine::SDiv(n) => {
                let num: u32 = self.cx.local_addr(g, "num");
                let den: u32 = self.cx.local_addr(g, "den");
                self.emit_signed_div(g, n, true, num, den, scr);
            },
            Routine::SRem(n) => {
                let num: u32 = self.cx.local_addr(g, "num");
                let den: u32 = self.cx.local_addr(g, "den");
                self.emit_signed_div(g, n, false, num, den, scr);
            },
            Routine::Shl(n) => self.emit_shift_routine(g, n, BinOp::Shl, scr),
            Routine::LShr(n) => self.emit_shift_routine(g, n, BinOp::LShr, scr),
            Routine::AShr(n) => self.emit_shift_routine(g, n, BinOp::AShr, scr),
            _ => self.emit_float_recipe(g, r, scr),
        }
    }

    /// Emits the current function as the runtime routine its name says. A
    /// division by zero runs its loop all the same: its result is unspecified,
    /// but it is one.
    pub fn emit_routine(&self, g: &mut Emitter)
        requires
            self.wf(),
        ensures
            final(g)@ == self.routine_step(old(g)@),
    {
        reveal(Gen::routine_step);
        match routine_recipe(self.cx.name()) {
            Some(r) => {
                let scr: u32 = self.cx.local_addr(g, "__scr");
                g.emit(Line::Label(Sym::Func(self.cx.func)));
                self.emit_recipe(g, r, scr);
            },
            None => g.fail(IselError::NotARoutine),
        }
    }
}

} // verus!
