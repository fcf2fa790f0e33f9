//! Two-operand arithmetic, shifts and width changes.
use vstd::prelude::*;
use crate::emit::{
    at, clrf, const_byte, f_op, goto_tmp, label_tmp, lit, movf, movlw, movwf, note_c, on_c, ram_bit, w_op,
    Emitter, St,
};
use crate::error::IselError;
use crate::ir::{Bin, BinOp, Conv, Ty, Val};
use crate::line::{BitOp, LitOp, Op};
use crate::pic14e::Gen;

verus! {

impl<'a> Gen<'a> {
    /// W plus one if the carry is set, with its comment.
    pub open spec fn take_carry(&self, st: St) -> St {
        st.emit(note_c(BitOp::Btfsc)).emit(lit(LitOp::Addlw, 1))
    }

    /// W plus one if there is a borrow.
    pub open spec fn take_borrow(&self, st: St) -> St {
        st.emit(note_c(BitOp::Btfss)).emit(lit(LitOp::Addlw, 1))
    }

    /// `dst = ra + bb` over two bytes.
    pub open spec fn add16_regs(&self, st: St, ra: u32, bb: u32, dst: u32) -> St {
        let st = self.add8_regs(st, ra, bb, dst).emit(movf(at(bb, 1)));
        self.take_carry(st).emit(w_op(Op::Addwf, at(ra, 1))).emit(movwf(at(dst, 1)))
    }

    /// `dst = ra + k` over two bytes.
    pub open spec fn add16_const(&self, st: St, ra: u32, k: i64, dst: u32) -> St {
        let st = self.add8_const(st, ra, const_byte(k, 0), dst).emit(movf(at(ra, 1)));
        self.take_carry(st).emit(lit(LitOp::Addlw, const_byte(k, 1))).emit(movwf(at(dst, 1)))
    }

    /// `dst = register + other` over two bytes.
    pub open spec fn add16_with(&self, st: St, r: Seq<char>, other: Val, dst: u32) -> St {
        let (st, ra) = self.cx.local_step(st, r);
        match other {
            Val::Reg(rb) => {
                let (st, bb) = self.cx.local_step(st, rb@);
                self.add16_regs(st, ra, bb, dst)
            },
            Val::Const(k) => self.add16_const(st, ra, k, dst),
            Val::Global(_) => st.fail(IselError::GlobalOperand),
        }
    }

    pub open spec fn add16(&self, st: St, a: Val, b: Val, dst: u32) -> St {
        match (a, b) {
            (Val::Reg(r), _) => self.add16_with(st, r@, b, dst),
            (_, Val::Reg(r)) => self.add16_with(st, r@, a, dst),
            _ => st.fail(IselError::NeedsRegister),
        }
    }

    /// The byte at `dst` plus the staged byte, which W holds, plus the carry.
    /// Where the sum of the two wraps, the byte stays and so does the carry.
    pub open spec fn add_staged(&self, st: St, dst: u32) -> St {
        st.emit(note_c(BitOp::Btfsc)).emit(w_op(Op::Incfsz, self.scratch)).emit(
            f_op(Op::Addwf, dst),
        )
    }

    /// One byte of `dst = ra + bb`, the byte of `bb` staged.
    pub open spec fn add_byte_regs(&self, st: St, ra: u32, bb: u32, dst: u32) -> St {
        let st = st.emit(movf(bb)).emit(movwf(self.scratch)).emit(movf(ra)).emit(
            movwf(dst),
        ).emit(movf(self.scratch));
        self.add_staged(st, dst)
    }

    /// One byte of `dst = ra + k`.
    pub open spec fn add_byte_const(&self, st: St, ra: u32, k: u8, dst: u32) -> St {
        let st = st.emit(movf(ra)).emit(movwf(dst)).emit(movlw(k)).emit(movwf(self.scratch));
        self.add_staged(st, dst)
    }

    /// Bytes `i` and up of `dst = ra + bb`.
    pub open spec fn add32_regs(&self, st: St, ra: u32, bb: u32, dst: u32, i: u8) -> St
        decreases 4 - i,
    {
        if i >= 4 {
            st
        } else {
            let st = self.add_byte_regs(st, at(ra, i), at(bb, i), at(dst, i));
            self.add32_regs(st, ra, bb, dst, (i + 1) as u8)
        }
    }

    pub open spec fn add32_const(&self, st: St, ra: u32, k: i64, dst: u32, i: u8) -> St
        decreases 4 - i,
    {
        if i >= 4 {
            st
        } else {
            let st = self.add_byte_const(st, at(ra, i), const_byte(k, i), at(dst, i));
            self.add32_const(st, ra, k, dst, (i + 1) as u8)
        }
    }

    /// `dst = register + other` over four bytes.
    pub open spec fn add32_with(&self, st: St, r: Seq<char>, other: Val, dst: u32) -> St {
        let (st, ra) = self.cx.local_step(st, r);
        match other {
            Val::Reg(rb) => {
                let (st, bb) = self.cx.local_step(st, rb@);
                self.add32_regs(self.add8_regs(st, ra, bb, dst), ra, bb, dst, 1)
            },
            Val::Const(k) => self.add32_const(
                self.add8_const(st, ra, const_byte(k, 0), dst),
                ra,
                k,
                dst,
                1,
            ),
            Val::Global(_) => st.fail(IselError::GlobalOperand),
        }
    }

    pub open spec fn add32(&self, st: St, a: Val, b: Val, dst: u32) -> St {
        match (a, b) {
            (Val::Reg(r), _) => self.add32_with(st, r@, b, dst),
            (_, Val::Reg(r)) => self.add32_with(st, r@, a, dst),
            _ => st.fail(IselError::NeedsRegister),
        }
    }

    /// `dst = aa + bb` over one byte.
    pub open spec fn add8_regs(&self, st: St, aa: u32, bb: u32, dst: u32) -> St {
        st.emit(movf(bb)).emit(w_op(Op::Addwf, aa)).emit(movwf(dst))
    }

    /// `dst = aa + k` over one byte.
    pub open spec fn add8_const(&self, st: St, aa: u32, k: u8, dst: u32) -> St {
        st.emit(movf(aa)).emit(lit(LitOp::Addlw, k)).emit(movwf(dst))
    }

    /// `dst = a + b` over one byte; a constant is the second operand.
    pub open spec fn add8_ordered(&self, st: St, a: Val, b: Val, dst: u32) -> St {
        let (st, aa) = self.cx.val_step(st, a);
        match b {
            Val::Const(k) => self.add8_const(st, aa, const_byte(k, 0), dst),
            _ => {
                let (st, bb) = self.cx.val_step(st, b);
                self.add8_regs(st, aa, bb, dst)
            },
        }
    }

    pub open spec fn add8(&self, st: St, a: Val, b: Val, dst: u32) -> St {
        match (a, b) {
            (Val::Const(_), Val::Const(_)) => st.fail(IselError::ConstantFolding),
            (Val::Const(_), _) => self.add8_ordered(st, b, a, dst),
            _ => self.add8_ordered(st, a, b, dst),
        }
    }

    pub open spec fn bitwise_regs(&self, st: St, op: Op, ra: u32, bb: u32, dst: u32, n: u8, i: u8) -> St
        decreases n - i,
    {
        if i >= n {
            st
        } else {
            let st = self.w_load(st, at(bb, i)).emit(w_op(op, at(ra, i)));
            self.bitwise_regs(self.w_store(st, at(dst, i)), op, ra, bb, dst, n, (i + 1) as u8)
        }
    }

    pub open spec fn bitwise_const(
        &self,
        st: St,
        op: LitOp,
        ra: u32,
        k: i64,
        dst: u32,
        n: u8,
        i: u8,
    ) -> St
        decreases n - i,
    {
        if i >= n {
            st
        } else {
            let st = self.w_load(st, at(ra, i)).emit(lit(op, const_byte(k, i)));
            self.bitwise_const(self.w_store(st, at(dst, i)), op, ra, k, dst, n, (i + 1) as u8)
        }
    }

    pub open spec fn bitwise_with(
        &self,
        st: St,
        r: Seq<char>,
        other: Val,
        n: u8,
        dst: u32,
        op: Op,
        opw: LitOp,
    ) -> St {
        let (st, ra) = self.cx.local_step(st, r);
        match other {
            Val::Reg(rb) => {
                let (st, bb) = self.cx.local_step(st, rb@);
                self.bitwise_regs(st, op, ra, bb, dst, n, 0)
            },
            Val::Const(k) => self.bitwise_const(st, opw, ra, k, dst, n, 0),
            Val::Global(_) => st.fail(IselError::GlobalOperand),
        }
    }

    /// `dst = a OP b` byte by byte, for and, or and xor.
    pub open spec fn bitwise(&self, st: St, a: Val, b: Val, n: u8, dst: u32, op: Op, opw: LitOp) -> St {
        match (a, b) {
            (Val::Reg(r), _) => self.bitwise_with(st, r@, b, n, dst, op, opw),
            (_, Val::Reg(r)) => self.bitwise_with(st, r@, a, n, dst, op, opw),
            _ => st.fail(IselError::NeedsRegister),
        }
    }

    /// `dst = aa - bb` over one byte: `SUBWF` subtracts W from the file.
    pub open spec fn sub8_regs(&self, st: St, aa: u32, bb: u32, dst: u32) -> St {
        st.emit(movf(bb)).emit(w_op(Op::Subwf, aa)).emit(movwf(dst))
    }

    /// `dst = aa - k` over one byte.
    pub open spec fn sub8_const(&self, st: St, aa: u32, k: u8, dst: u32) -> St {
        st.emit(movlw(k)).emit(w_op(Op::Subwf, aa)).emit(movwf(dst))
    }

    /// `dst = a - b` over one byte.
    pub open spec fn sub8(&self, st: St, a: Val, b: Val, dst: u32) -> St {
        let (st, aa) = self.cx.val_step(st, a);
        match b {
            Val::Const(k) => self.sub8_const(st, aa, const_byte(k, 0), dst),
            Val::Reg(_) => {
                let (st, bb) = self.cx.val_step(st, b);
                self.sub8_regs(st, aa, bb, dst)
            },
            Val::Global(_) => st.fail(IselError::GlobalOperand),
        }
    }

    /// The byte at `dst` minus the staged byte minus the borrow. Where the
    /// sum of the two wraps, the byte stays and so does the borrow.
    pub open spec fn sub_staged(&self, st: St, dst: u32) -> St {
        st.emit(note_c(BitOp::Btfss)).emit(w_op(Op::Incfsz, self.scratch)).emit(
            f_op(Op::Subwf, dst),
        )
    }

    /// One byte of `dst = k - aa`.
    pub open spec fn sub_byte_lhs(&self, st: St, k: u8, aa: u32, dst: u32) -> St {
        let st = st.emit(movf(aa)).emit(movwf(self.scratch)).emit(movlw(k)).emit(
            movwf(dst),
        ).emit(movf(self.scratch));
        self.sub_staged(st, dst)
    }

    pub open spec fn sub_const_from(&self, st: St, k: i64, aa: u32, dst: u32, n: u8, i: u8) -> St
        decreases n - i,
    {
        if i >= n {
            st
        } else {
            let st = self.sub_byte_lhs(st, const_byte(k, i), at(aa, i), at(dst, i));
            self.sub_const_from(st, k, aa, dst, n, (i + 1) as u8)
        }
    }

    /// `dst = k - aa` over one byte.
    pub open spec fn sub8_lhs(&self, st: St, k: u8, aa: u32, dst: u32) -> St {
        st.emit(movf(aa)).emit(lit(LitOp::Sublw, k)).emit(movwf(dst))
    }

    /// `dst = k - a` over `n` bytes.
    pub open spec fn sub_const_lhs(&self, st: St, k: i64, a: Val, dst: u32, n: u8) -> St {
        let (st, aa) = self.cx.val_step(st, a);
        self.sub_const_from(self.sub8_lhs(st, const_byte(k, 0), aa, dst), k, aa, dst, n, 1)
    }

    /// The high byte of `dst = a - b`, the subtrahend's high byte in W.
    pub open spec fn sub16_high(&self, st: St, aa: u32, dst: u32) -> St {
        self.take_borrow(st).emit(w_op(Op::Subwf, at(aa, 1))).emit(movwf(at(dst, 1)))
    }

    /// `dst = a - b` over two bytes.
    pub open spec fn sub16(&self, st: St, a: Val, b: Val, dst: u32) -> St {
        let (st, aa) = self.cx.val_step(st, a);
        match b {
            Val::Const(k) => {
                let st = self.sub8_const(st, aa, const_byte(k, 0), dst);
                self.sub16_high(st.emit(movlw(const_byte(k, 1))), aa, dst)
            },
            Val::Reg(rb) => {
                let (st, bb) = self.cx.local_step(st, rb@);
                let st = self.sub8_regs(st, aa, bb, dst);
                self.sub16_high(st.emit(movf(at(bb, 1))), aa, dst)
            },
            Val::Global(_) => st.fail(IselError::GlobalOperand),
        }
    }

    /// One byte of `dst = aa - bb`, the byte of `bb` staged.
    pub open spec fn sub_byte_regs(&self, st: St, aa: u32, bb: u32, dst: u32) -> St {
        let st = st.emit(movf(bb)).emit(movwf(self.scratch)).emit(movf(aa)).emit(
            movwf(dst),
        ).emit(movf(self.scratch));
        self.sub_staged(st, dst)
    }

    /// One byte of `dst = aa - k`.
    pub open spec fn sub_byte_const(&self, st: St, aa: u32, k: u8, dst: u32) -> St {
        let st = st.emit(movf(aa)).emit(movwf(dst)).emit(movlw(k)).emit(movwf(self.scratch));
        self.sub_staged(st, dst)
    }

    pub open spec fn sub32_regs(&self, st: St, aa: u32, bb: u32, dst: u32, i: u8) -> St
        decreases 4 - i,
    {
        if i >= 4 {
            st
        } else {
            let st = self.sub_byte_regs(st, at(aa, i), at(bb, i), at(dst, i));
            self.sub32_regs(st, aa, bb, dst, (i + 1) as u8)
        }
    }

    pub open spec fn sub32_const(&self, st: St, aa: u32, k: i64, dst: u32, i: u8) -> St
        decreases 4 - i,
    {
        if i >= 4 {
            st
        } else {
            let st = self.sub_byte_const(st, at(aa, i), const_byte(k, i), at(dst, i));
            self.sub32_const(st, aa, k, dst, (i + 1) as u8)
        }
    }

    /// `dst = a - b` over four bytes.
    pub open spec fn sub32(&self, st: St, a: Val, b: Val, dst: u32) -> St {
        let (st, aa) = self.cx.val_step(st, a);
        match b {
            Val::Const(k) => self.sub32_const(
                self.sub8_const(st, aa, const_byte(k, 0), dst),
                aa,
                k,
                dst,
                1,
            ),
            Val::Reg(rb) => {
                let (st, bb) = self.cx.local_step(st, rb@);
                self.sub32_regs(self.sub8_regs(st, aa, bb, dst), aa, bb, dst, 1)
            },
            Val::Global(_) => st.fail(IselError::GlobalOperand),
        }
    }

    /// `RLF` over bytes `i..n`, low byte first.
    pub open spec fn rotate_up(&self, st: St, da: u32, n: u8, i: u8) -> St
        decreases n - i,
    {
        if i >= n {
            st
        } else {
            self.rotate_up(st.emit(f_op(Op::Rlf, at(da, i))), da, n, (i + 1) as u8)
        }
    }

    /// `RRF` over bytes `n-1` down to zero.
    pub open spec fn rotate_down(&self, st: St, da: u32, n: u8) -> St
        decreases n,
    {
        if n == 0 {
            st
        } else {
            let i = (n - 1) as u8;
            self.rotate_down(st.emit(f_op(Op::Rrf, at(da, i))), da, i)
        }
    }

    /// C becomes bit 7 of the byte at `a`.
    pub open spec fn sign_to_c(&self, st: St, a: u32) -> St {
        st.emit(ram_bit(BitOp::Btfsc, a, 7)).emit(on_c(BitOp::Bsf)).emit(
            ram_bit(BitOp::Btfss, a, 7),
        ).emit(on_c(BitOp::Bcf))
    }

    /// One shift by a single bit of the `n` bytes at `da`.
    pub open spec fn shift_once(&self, st: St, op: BinOp, da: u32, n: u8) -> St {
        match op {
            BinOp::Shl => self.rotate_up(st.emit(on_c(BitOp::Bcf)), da, n, 0),
            BinOp::LShr => self.rotate_down(st.emit(on_c(BitOp::Bcf)), da, n),
            _ => self.rotate_down(self.sign_to_c(st, at(da, (n - 1) as u8)), da, n),
        }
    }

    pub open spec fn shift_times(&self, st: St, op: BinOp, da: u32, n: u8, k: u8) -> St
        decreases k,
    {
        if k == 0 {
            st
        } else {
            self.shift_times(self.shift_once(st, op, da, n), op, da, n, (k - 1) as u8)
        }
    }

    /// `dst = a << k` and its right-shifting kin, for a constant count.
    pub open spec fn shift(&self, st: St, x: Bin, da: u32) -> St {
        match x.b {
            Val::Const(k) => if 0 <= k && k < 8 * x.ty.bytes() {
                let st = self.move_val(st, x.a, x.ty, da);
                self.shift_times(st, x.op, da, x.ty.bytes(), k as u8)
            } else {
                st.fail(IselError::ShiftRange)
            },
            _ => st.fail(IselError::VariableShift),
        }
    }

    pub open spec fn bitwise_at(&self, st: St, x: Bin, da: u32, op: Op, opw: LitOp) -> St {
        match x.ty {
            Ty::F32 => st.fail(IselError::UnsupportedBinop),
            _ => self.bitwise(st, x.a, x.b, x.ty.bytes(), da, op, opw),
        }
    }

    /// One two-operand instruction.
    #[verifier::opaque]
    pub open spec fn bin(&self, st: St, x: Bin) -> St {
        let st = st.check(
            x.ty != Ty::I1 || x.op == BinOp::And || x.op == BinOp::Or || x.op == BinOp::Xor,
            IselError::UnsupportedBinop,
        );
        let (st, da) = self.cx.local_step(st, x.dst@);
        match x.op {
            BinOp::Add => match x.ty {
                Ty::I8 => self.add8(st, x.a, x.b, da),
                Ty::I16 => self.add16(st, x.a, x.b, da),
                Ty::I32 => self.add32(st, x.a, x.b, da),
                _ => st.fail(IselError::UnsupportedBinop),
            },
            BinOp::And => self.bitwise_at(st, x, da, Op::Andwf, LitOp::Andlw),
            BinOp::Or => self.bitwise_at(st, x, da, Op::Iorwf, LitOp::Iorlw),
            BinOp::Xor => self.bitwise_at(st, x, da, Op::Xorwf, LitOp::Xorlw),
            BinOp::Sub => match x.ty {
                Ty::I8 => match x.a {
                    Val::Const(k) => self.sub_const_lhs(st, k, x.b, da, 1),
                    _ => self.sub8(st, x.a, x.b, da),
                },
                Ty::I16 => match x.a {
                    Val::Const(k) => self.sub_const_lhs(st, k, x.b, da, 2),
                    _ => self.sub16(st, x.a, x.b, da),
                },
                Ty::I32 => match x.a {
                    Val::Const(k) => self.sub_const_lhs(st, k, x.b, da, 4),
                    _ => self.sub32(st, x.a, x.b, da),
                },
                _ => st.fail(IselError::UnsupportedBinop),
            },
            BinOp::Shl | BinOp::LShr | BinOp::AShr => self.shift(st, x, da),
            _ => st.fail(IselError::NotLegalized),
        }
    }

    /// Bytes `i..n` of `val` to RAM at `base`, untracked.
    pub open spec fn store_to(&self, st: St, val: Val, n: u8, base: u32, i: u8) -> St
        decreases n - i,
    {
        if i >= n {
            st
        } else {
            let st = self.load_byte(st, val, i).emit(movwf(at(base, i)));
            self.store_to(st, val, n, base, (i + 1) as u8)
        }
    }

    /// `CLRF` over bytes `i..n` of the slot at `da`.
    pub open spec fn clear_from(&self, st: St, da: u32, n: u8, i: u8) -> St
        decreases n - i,
    {
        if i >= n {
            st
        } else {
            self.clear_from(st.emit(clrf(at(da, i))), da, n, (i + 1) as u8)
        }
    }

    pub open spec fn zext(&self, st: St, x: Conv) -> St {
        let st = st.check(x.from.bytes() <= x.to.bytes(), IselError::ZextNarrows);
        let (st, da) = self.cx.local_step(st, x.dst@);
        let st = self.store_to(st, x.val, x.from.bytes(), da, 0);
        self.clear_from(st, da, x.to.bytes(), x.from.bytes())
    }

    pub open spec fn inttoptr(&self, st: St, x: Conv) -> St {
        let st = st.check(x.from == x.to, IselError::IntToPtrWidth);
        let (st, da) = self.cx.local_step(st, x.dst@);
        self.store_to(st, x.val, x.from.bytes(), da, 0)
    }

    /// Stores of W over bytes `i..n` of the slot at `da`.
    pub open spec fn fill_from(&self, st: St, da: u32, n: u8, i: u8) -> St
        decreases n - i,
    {
        if i >= n {
            st
        } else {
            self.fill_from(st.emit(movwf(at(da, i))), da, n, (i + 1) as u8)
        }
    }

    pub open spec fn sext(&self, st: St, x: Conv) -> St {
        let st = st.check(
            x.from != Ty::I1 && x.from.bytes() < x.to.bytes(),
            IselError::SextWidth,
        );
        let st = st.check(!(x.val is Const), IselError::SextConst);
        let (st, da) = self.cx.local_step(st, x.dst@);
        let st = self.store_to(st, x.val, x.from.bytes(), da, 0);
        let (st, a) = self.cx.val_step(st, x.val);
        let hi = at(a, (x.from.bytes() - 1) as u8);
        let l_pos = st.next;
        let st = st.bump();
        let l_fill = st.next;
        let st = st.bump().emit(ram_bit(BitOp::Btfss, hi, 7)).emit(goto_tmp(l_pos)).emit(
            movlw(0xFF),
        ).emit(goto_tmp(l_fill)).emit(label_tmp(l_pos)).emit(movlw(0)).emit(label_tmp(l_fill));
        self.fill_from(st, da, x.to.bytes(), x.from.bytes())
    }

    pub open spec fn trunc(&self, st: St, x: Conv) -> St {
        let st = st.check(
            x.from.bytes() > x.to.bytes() || (x.to == Ty::I1 && x.from != Ty::I1),
            IselError::TruncWidens,
        );
        let (st, da) = self.cx.local_step(st, x.dst@);
        let st = self.store_to(st, x.val, x.to.bytes(), da, 0);
        if x.to == Ty::I1 {
            st.emit(movlw(1)).emit(f_op(Op::Andwf, da))
        } else {
            st
        }
    }

    fn emit_take_carry(&self, g: &mut Emitter)
        ensures
            final(g)@ == self.take_carry(old(g)@),
    {
        g.emit(note_c(BitOp::Btfsc));
        g.emit(lit(LitOp::Addlw, 1));
    }

    fn emit_take_borrow(&self, g: &mut Emitter)
        ensures
            final(g)@ == self.take_borrow(old(g)@),
    {
        g.emit(note_c(BitOp::Btfss));
        g.emit(lit(LitOp::Addlw, 1));
    }

    fn emit_add16_with(&self, g: &mut Emitter, r: &str, other: &Val, dst: u32)
        requires
            self.wf(),
        ensures
            final(g)@ == self.add16_with(old(g)@, r@, *other, dst),
    {
        let ra: u32 = self.cx.local_addr(g, r);
        match other {
            Val::Reg(rb) => {
                let bb: u32 = self.cx.local_addr(g, rb.as_str());
                g.emit(movf(bb));
                g.emit(w_op(Op::Addwf, ra));
                g.emit(movwf(dst));
                g.emit(movf(at(bb, 1)));
                self.emit_take_carry(g);
                g.emit(w_op(Op::Addwf, at(ra, 1)));
                g.emit(movwf(at(dst, 1)));
            },
            Val::Const(k) => {
                g.emit(movf(ra));
                g.emit(lit(LitOp::Addlw, const_byte(*k, 0)));
                g.emit(movwf(dst));
                g.emit(movf(at(ra, 1)));
                self.emit_take_carry(g);
                g.emit(lit(LitOp::Addlw, const_byte(*k, 1)));
                g.emit(movwf(at(dst, 1)));
            },
            Val::Global(_) => g.fail(IselError::GlobalOperand),
        }
    }

    /// `dst = a + b` over two bytes; at most one operand is a constant.
    pub fn emit_add16(&self, g: &mut Emitter, a: &Val, b: &Val, dst: u32)
        requires
            self.wf(),
        ensures
            final(g)@ == self.add16(old(g)@, *a, *b, dst),
    {
        match (a, b) {
            (Val::Reg(r), _) => self.emit_add16_with(g, r.as_str(), b, dst),
            (_, Val::Reg(r)) => self.emit_add16_with(g, r.as_str(), a, dst),
            _ => g.fail(IselError::NeedsRegister),
        }
    }

    fn emit_add32_regs(&self, g: &mut Emitter, ra: u32, bb: u32, dst: u32)
        ensures
            final(g)@ == self.add32_regs(old(g)@, ra, bb, dst, 1),
    {
        let mut i: u8 = 1;
        while i < 4
            invariant
                self.add32_regs(old(g)@, ra, bb, dst, 1) == self.add32_regs(g@, ra, bb, dst, i),
            decreases 4 - i,
        {
            g.emit(movf(at(bb, i)));
            g.emit(movwf(self.scratch));
            g.emit(movf(at(ra, i)));
            g.emit(movwf(at(dst, i)));
            g.emit(movf(self.scratch));
            g.emit(note_c(BitOp::Btfsc));
            g.emit(w_op(Op::Incfsz, self.scratch));
            g.emit(f_op(Op::Addwf, at(dst, i)));
            i += 1;
        }
    }

    fn emit_add32_const(&self, g: &mut Emitter, ra: u32, k: i64, dst: u32)
        ensures
            final(g)@ == self.add32_const(old(g)@, ra, k, dst, 1),
    {
        let mut i: u8 = 1;
        while i < 4
            invariant
                self.add32_const(old(g)@, ra, k, dst, 1) == self.add32_const(g@, ra, k, dst, i),
            decreases 4 - i,
        {
            g.emit(movf(at(ra, i)));
            g.emit(movwf(at(dst, i)));
            g.emit(movlw(const_byte(k, i)));
            g.emit(movwf(self.scratch));
            g.emit(note_c(BitOp::Btfsc));
            g.emit(w_op(Op::Incfsz, self.scratch));
            g.emit(f_op(Op::Addwf, at(dst, i)));
            i += 1;
        }
    }

    fn emit_add32_with(&self, g: &mut Emitter, r: &str, other: &Val, dst: u32)
        requires
            self.wf(),
        ensures
            final(g)@ == self.add32_with(old(g)@, r@, *other, dst),
    {
        let ra: u32 = self.cx.local_addr(g, r);
        match other {
            Val::Reg(rb) => {
                let bb: u32 = self.cx.local_addr(g, rb.as_str());
                g.emit(movf(bb));
                g.emit(w_op(Op::Addwf, ra));
                g.emit(movwf(dst));
                self.emit_add32_regs(g, ra, bb, dst);
            },
            Val::Const(k) => {
                g.emit(movf(ra));
                g.emit(lit(LitOp::Addlw, const_byte(*k, 0)));
                g.emit(movwf(dst));
                self.emit_add32_const(g, ra, *k, dst);
            },
            Val::Global(_) => g.fail(IselError::GlobalOperand),
        }
    }

    /// `dst = a + b` over four bytes; at most one operand is a constant.
    pub fn emit_add32(&self, g: &mut Emitter, a: &Val, b: &Val, dst: u32)
        requires
            self.wf(),
        ensures
            final(g)@ == self.add32(old(g)@, *a, *b, dst),
    {
        match (a, b) {
            (Val::Reg(r), _) => self.emit_add32_with(g, r.as_str(), b, dst),
            (_, Val::Reg(r)) => self.emit_add32_with(g, r.as_str(), a, dst),
            _ => g.fail(IselError::NeedsRegister),
        }
    }

    fn emit_add8_ordered(&self, g: &mut Emitter, a: &Val, b: &Val, dst: u32)
        requires
            self.wf(),
        ensures
            final(g)@ == self.add8_ordered(old(g)@, *a, *b, dst),
    {
        let aa: u32 = self.cx.val_addr(g, a);
        match b {
            Val::Const(k) => {
                g.emit(movf(aa));
                g.emit(lit(LitOp::Addlw, const_byte(*k, 0)));
                g.emit(movwf(dst));
            },
            _ => {
                let bb: u32 = self.cx.val_addr(g, b);
                g.emit(movf(bb));
                g.emit(w_op(Op::Addwf, aa));
                g.emit(movwf(dst));
            },
        }
    }

    /// `dst = a + b` over one byte. A constant on the left moves to the
    /// right, so that no constant is read as an address.
    pub fn emit_add8(&self, g: &mut Emitter, a: &Val, b: &Val, dst: u32)
        requires
            self.wf(),
        ensures
            final(g)@ == self.add8(old(g)@, *a, *b, dst),
    {
        match (a, b) {
            (Val::Const(_), Val::Const(_)) => g.fail(IselError::ConstantFolding),
            (Val::Const(_), _) => self.emit_add8_ordered(g, b, a, dst),
            _ => self.emit_add8_ordered(g, a, b, dst),
        }
    }

    fn emit_bitwise_with(&self, g: &mut Emitter, r: &str, other: &Val, n: u8, dst: u32, op: Op, opw: LitOp)
        requires
            self.wf(),
        ensures
            final(g)@ == self.bitwise_with(old(g)@, r@, *other, n, dst, op, opw),
    {
        let ra: u32 = self.cx.local_addr(g, r);
        match other {
            Val::Reg(rb) => {
                let bb: u32 = self.cx.local_addr(g, rb.as_str());
                let ghost start = g@;
                let mut i: u8 = 0;
                while i < n
                    invariant
                        self.bitwise_regs(start, op, ra, bb, dst, n, 0) == self.bitwise_regs(
                            g@,
                            op,
                            ra,
                            bb,
                            dst,
                            n,
                            i,
                        ),
                    decreases n - i,
                {
                    self.emit_w_load(g, at(bb, i));
                    g.emit(w_op(op, at(ra, i)));
                    self.emit_w_store(g, at(dst, i));
                    i += 1;
                }
            },
            Val::Const(k) => {
                let ghost start = g@;
                let mut i: u8 = 0;
                while i < n
                    invariant
                        self.bitwise_const(start, opw, ra, *k, dst, n, 0) == self.bitwise_const(
                            g@,
                            opw,
                            ra,
                            *k,
                            dst,
                            n,
                            i,
                        ),
                    decreases n - i,
                {
                    self.emit_w_load(g, at(ra, i));
                    g.emit(lit(opw, const_byte(*k, i)));
                    self.emit_w_store(g, at(dst, i));
                    i += 1;
                }
            },
            Val::Global(_) => g.fail(IselError::GlobalOperand),
        }
    }

    /// `dst = a OP b` over `n` bytes, for and, or and xor.
    pub fn emit_commutative(&self, g: &mut Emitter, a: &Val, b: &Val, n: u8, dst: u32, op: Op, opw: LitOp)
        requires
            self.wf(),
        ensures
            final(g)@ == self.bitwise(old(g)@, *a, *b, n, dst, op, opw),
    {
        match (a, b) {
            (Val::Reg(r), _) => self.emit_bitwise_with(g, r.as_str(), b, n, dst, op, opw),
            (_, Val::Reg(r)) => self.emit_bitwise_with(g, r.as_str(), a, n, dst, op, opw),
            _ => g.fail(IselError::NeedsRegister),
        }
    }

    /// `dst = a - b` over one byte; a constant `a` is not for this shape.
    pub fn emit_sub8(&self, g: &mut Emitter, a: &Val, b: &Val, dst: u32)
        requires
            self.wf(),
        ensures
            final(g)@ == self.sub8(old(g)@, *a, *b, dst),
    {
        let aa: u32 = self.cx.val_addr(g, a);
        match b {
            Val::Const(k) => {
                g.emit(movlw(const_byte(*k, 0)));
                g.emit(w_op(Op::Subwf, aa));
                g.emit(movwf(dst));
            },
            Val::Reg(_) => {
                let bb: u32 = self.cx.val_addr(g, b);
                g.emit(movf(bb));
                g.emit(w_op(Op::Subwf, aa));
                g.emit(movwf(dst));
            },
            Val::Global(_) => g.fail(IselError::GlobalOperand),
        }
    }

    fn emit_sub_staged(&self, g: &mut Emitter, dst: u32)
        ensures
            final(g)@ == self.sub_staged(old(g)@, dst),
    {
        g.emit(note_c(BitOp::Btfss));
        g.emit(w_op(Op::Incfsz, self.scratch));
        g.emit(f_op(Op::Subwf, dst));
    }

    /// `dst = k - a` over `n` bytes. Above byte zero the constant is put in
    /// place first and the borrow folds into the staged subtrahend.
    pub fn emit_sub_const_lhs(&self, g: &mut Emitter, k: i64, a: &Val, dst: u32, n: u8)
        requires
            self.wf(),
        ensures
            final(g)@ == self.sub_const_lhs(old(g)@, k, *a, dst, n),
    {
        let aa: u32 = self.cx.val_addr(g, a);
        g.emit(movf(aa));
        g.emit(lit(LitOp::Sublw, const_byte(k, 0)));
        g.emit(movwf(dst));
        let mut i: u8 = 1;
        while i < n
            invariant
                self.sub_const_lhs(old(g)@, k, *a, dst, n) == self.sub_const_from(
                    g@,
                    k,
                    aa,
                    dst,
                    n,
                    i,
                ),
            decreases n - i,
        {
            g.emit(movf(at(aa, i)));
            g.emit(movwf(self.scratch));
            g.emit(movlw(const_byte(k, i)));
            g.emit(movwf(at(dst, i)));
            g.emit(movf(self.scratch));
            self.emit_sub_staged(g, at(dst, i));
            i += 1;
        }
    }

    /// `dst = a - b` over two bytes.
    pub fn emit_sub16(&self, g: &mut Emitter, a: &Val, b: &Val, dst: u32)
        requires
            self.wf(),
        ensures
            final(g)@ == self.sub16(old(g)@, *a, *b, dst),
    {
        let aa: u32 = self.cx.val_addr(g, a);
        match b {
            Val::Const(k) => {
                g.emit(movlw(const_byte(*k, 0)));
                g.emit(w_op(Op::Subwf, aa));
                g.emit(movwf(dst));
                g.emit(movlw(const_byte(*k, 1)));
                self.emit_take_borrow(g);
                g.emit(w_op(Op::Subwf, at(aa, 1)));
                g.emit(movwf(at(dst, 1)));
            },
            Val::Reg(rb) => {
                let bb: u32 = self.cx.local_addr(g, rb.as_str());
                g.emit(movf(bb));
                g.emit(w_op(Op::Subwf, aa));
                g.emit(movwf(dst));
                g.emit(movf(at(bb, 1)));
                self.emit_take_borrow(g);
                g.emit(w_op(Op::Subwf, at(aa, 1)));
                g.emit(movwf(at(dst, 1)));
            },
            Val::Global(_) => g.fail(IselError::GlobalOperand),
        }
    }

    fn emit_sub32_regs(&self, g: &mut Emitter, aa: u32, bb: u32, dst: u32)
        ensures
            final(g)@ == self.sub32_regs(old(g)@, aa, bb, dst, 1),
    {
        let mut i: u8 = 1;
        while i < 4
            invariant
                self.sub32_regs(old(g)@, aa, bb, dst, 1) == self.sub32_regs(g@, aa, bb, dst, i),
            decreases 4 - i,
        {
            g.emit(movf(at(bb, i)));
            g.emit(movwf(self.scratch));
            g.emit(movf(at(aa, i)));
            g.emit(movwf(at(dst, i)));
            g.emit(movf(self.scratch));
            self.emit_sub_staged(g, at(dst, i));
            i += 1;
        }
    }

    fn emit_sub32_const(&self, g: &mut Emitter, aa: u32, k: i64, dst: u32)
        ensures
            final(g)@ == self.sub32_const(old(g)@, aa, k, dst, 1),
    {
        let mut i: u8 = 1;
        while i < 4
            invariant
                self.sub32_const(old(g)@, aa, k, dst, 1) == self.sub32_const(g@, aa, k, dst, i),
            decreases 4 - i,
        {
            g.emit(movf(at(aa, i)));
            g.emit(movwf(at(dst, i)));
            g.emit(movlw(const_byte(k, i)));
            g.emit(movwf(self.scratch));
            self.emit_sub_staged(g, at(dst, i));
            i += 1;
        }
    }

    /// `dst = a - b` over four bytes; a constant `a` is not for this shape.
    pub fn emit_sub32(&self, g: &mut Emitter, a: &Val, b: &Val, dst: u32)
        requires
            self.wf(),
        ensures
            final(g)@ == self.sub32(old(g)@, *a, *b, dst),
    {
        let aa: u32 = self.cx.val_addr(g, a);
        match b {
            Val::Const(k) => {
                g.emit(movlw(const_byte(*k, 0)));
                g.emit(w_op(Op::Subwf, aa));
                g.emit(movwf(dst));
                self.emit_sub32_const(g, aa, *k, dst);
            },
            Val::Reg(rb) => {
                let bb: u32 = self.cx.local_addr(g, rb.as_str());
                g.emit(movf(bb));
                g.emit(w_op(Op::Subwf, aa));
                g.emit(movwf(dst));
                self.emit_sub32_regs(g, aa, bb, dst);
            },
            Val::Global(_) => g.fail(IselError::GlobalOperand),
        }
    }

    pub fn emit_rotate_up(&self, g: &mut Emitter, da: u32, n: u8)
        ensures
            final(g)@ == self.rotate_up(old(g)@, da, n, 0),
    {
        let mut i: u8 = 0;
        while i < n
            invariant
                self.rotate_up(old(g)@, da, n, 0) == self.rotate_up(g@, da, n, i),
            decreases n - i,
        {
            g.emit(f_op(Op::Rlf, at(da, i)));
            i += 1;
        }
    }

    pub fn emit_rotate_down(&self, g: &mut Emitter, da: u32, n: u8)
        ensures
            final(g)@ == self.rotate_down(old(g)@, da, n),
    {
        let mut i: u8 = n;
        while i > 0
            invariant
                self.rotate_down(old(g)@, da, n) == self.rotate_down(g@, da, i),
            decreases i,
        {
            i -= 1;
            g.emit(f_op(Op::Rrf, at(da, i)));
        }
    }

    pub fn emit_sign_to_c(&self, g: &mut Emitter, a: u32)
        ensures
            final(g)@ == self.sign_to_c(old(g)@, a),
    {
        g.emit(ram_bit(BitOp::Btfsc, a, 7));
        g.emit(on_c(BitOp::Bsf));
        g.emit(ram_bit(BitOp::Btfss, a, 7));
        g.emit(on_c(BitOp::Bcf));
    }

    pub fn emit_shift_once(&self, g: &mut Emitter, op: BinOp, da: u32, n: u8)
        requires
            n > 0,
        ensures
            final(g)@ == self.shift_once(old(g)@, op, da, n),
    {
        match op {
            BinOp::Shl => {
                g.emit(on_c(BitOp::Bcf));
                self.emit_rotate_up(g, da, n);
            },
            BinOp::LShr => {
                g.emit(on_c(BitOp::Bcf));
                self.emit_rotate_down(g, da, n);
            },
            _ => {
                self.emit_sign_to_c(g, at(da, n - 1));
                self.emit_rotate_down(g, da, n);
            },
        }
    }

    /// A shift by a constant count: a copy, then rotates in place. A count
    /// of the width or more is refused.
    pub fn emit_shift(&self, g: &mut Emitter, x: &Bin, da: u32)
        requires
            self.wf(),
        ensures
            final(g)@ == self.shift(old(g)@, *x, da),
    {
        let n: u8 = x.ty.bytes();
        match &x.b {
            Val::Const(k) => {
                if 0 <= *k && *k < 8 * (n as i64) {
                    self.emit_move_val_to_slot(g, &x.a, x.ty, da);
                    let ghost start = g@;
                    let mut i: u8 = *k as u8;
                    while i > 0
                        invariant
                            n > 0,
                            self.shift_times(start, x.op, da, n, *k as u8) == self.shift_times(
                                g@,
                                x.op,
                                da,
                                n,
                                i,
                            ),
                        decreases i,
                    {
                        self.emit_shift_once(g, x.op, da, n);
                        i -= 1;
                    }
                } else {
                    g.fail(IselError::ShiftRange);
                }
            },
            _ => g.fail(IselError::VariableShift),
        }
    }

    fn emit_bitwise_at(&self, g: &mut Emitter, x: &Bin, da: u32, op: Op, opw: LitOp)
        requires
            self.wf(),
        ensures
            final(g)@ == self.bitwise_at(old(g)@, *x, da, op, opw),
    {
        match x.ty {
            Ty::F32 => g.fail(IselError::UnsupportedBinop),
            _ => self.emit_commutative(g, &x.a, &x.b, x.ty.bytes(), da, op, opw),
        }
    }

    /// Lowers a two-operand instruction.
    pub fn emit_bin(&self, g: &mut Emitter, x: &Bin)
        requires
            self.wf(),
        ensures
            final(g)@ == self.bin(old(g)@, *x),
    {
        reveal(Gen::bin);
        g.check(
            x.ty != Ty::I1 || x.op == BinOp::And || x.op == BinOp::Or || x.op == BinOp::Xor,
            IselError::UnsupportedBinop,
        );
        let da: u32 = self.cx.local_addr(g, x.dst.as_str());
        match x.op {
            BinOp::Add => match x.ty {
                Ty::I8 => self.emit_add8(g, &x.a, &x.b, da),
                Ty::I16 => self.emit_add16(g, &x.a, &x.b, da),
                Ty::I32 => self.emit_add32(g, &x.a, &x.b, da),
                _ => g.fail(IselError::UnsupportedBinop),
            },
            BinOp::And => self.emit_bitwise_at(g, x, da, Op::Andwf, LitOp::Andlw),
            BinOp::Or => self.emit_bitwise_at(g, x, da, Op::Iorwf, LitOp::Iorlw),
            BinOp::Xor => self.emit_bitwise_at(g, x, da, Op::Xorwf, LitOp::Xorlw),
            BinOp::Sub => match x.ty {
                Ty::I8 => match &x.a {
                    Val::Const(k) => self.emit_sub_const_lhs(g, *k, &x.b, da, 1),
                    _ => self.emit_sub8(g, &x.a, &x.b, da),
                },
                Ty::I16 => match &x.a {
                    Val::Const(k) => self.emit_sub_const_lhs(g, *k, &x.b, da, 2),
                    _ => self.emit_sub16(g, &x.a, &x.b, da),
                },
                Ty::I32 => match &x.a {
                    Val::Const(k) => self.emit_sub_const_lhs(g, *k, &x.b, da, 4),
                    _ => self.emit_sub32(g, &x.a, &x.b, da),
                },
                _ => g.fail(IselError::UnsupportedBinop),
            },
            BinOp::Shl | BinOp::LShr | BinOp::AShr => self.emit_shift(g, x, da),
            _ => g.fail(IselError::NotLegalized),
        }
    }

    /// Stores the first `n` bytes of `val` at `base`.
    pub fn emit_store_to(&self, g: &mut Emitter, val: &Val, n: u8, base: u32)
        requires
            self.wf(),
        ensures
            final(g)@ == self.store_to(old(g)@, *val, n, base, 0),
    {
        let mut i: u8 = 0;
        while i < n
            invariant
                self.wf(),
                self.store_to(old(g)@, *val, n, base, 0) == self.store_to(g@, *val, n, base, i),
            decreases n - i,
        {
            self.emit_load_byte(g, val, i);
            g.emit(movwf(at(base, i)));
            i += 1;
        }
    }

    pub fn emit_clear_from(&self, g: &mut Emitter, da: u32, n: u8, from: u8)
        ensures
            final(g)@ == self.clear_from(old(g)@, da, n, from),
    {
        let mut i: u8 = from;
        while i < n
            invariant
                self.clear_from(old(g)@, da, n, from) == self.clear_from(g@, da, n, i),
            decreases n - i,
        {
            g.emit(clrf(at(da, i)));
            i += 1;
        }
    }

    /// Zero extension: a copy, then cleared bytes.
    pub fn emit_zext(&self, g: &mut Emitter, x: &Conv)
        requires
            self.wf(),
        ensures
            final(g)@ == self.zext(old(g)@, *x),
    {
        let from: u8 = x.from.bytes();
        let to: u8 = x.to.bytes();
        g.check(from <= to, IselError::ZextNarrows);
        let da: u32 = self.cx.local_addr(g, x.dst.as_str());
        self.emit_store_to(g, &x.val, from, da);
        self.emit_clear_from(g, da, to, from);
    }

    /// An integer that becomes a pointer value: its bytes are the address.
    pub fn emit_inttoptr(&self, g: &mut Emitter, x: &Conv)
        requires
            self.wf(),
        ensures
            final(g)@ == self.inttoptr(old(g)@, *x),
    {
        g.check(x.from == x.to, IselError::IntToPtrWidth);
        let da: u32 = self.cx.local_addr(g, x.dst.as_str());
        self.emit_store_to(g, &x.val, x.from.bytes(), da);
    }

    pub fn emit_fill_from(&self, g: &mut Emitter, da: u32, n: u8, from: u8)
        ensures
            final(g)@ == self.fill_from(old(g)@, da, n, from),
    {
        let mut i: u8 = from;
        while i < n
            invariant
                self.fill_from(old(g)@, da, n, from) == self.fill_from(g@, da, n, i),
            decreases n - i,
        {
            g.emit(movwf(at(da, i)));
            i += 1;
        }
    }

    /// Sign extension: a copy, then the sign in every byte above it.
    pub fn emit_sext(&self, g: &mut Emitter, x: &Conv)
        requires
            self.wf(),
        ensures
            final(g)@ == self.sext(old(g)@, *x),
    {
        let from: u8 = x.from.bytes();
        let to: u8 = x.to.bytes();
        g.check(x.from != Ty::I1 && from < to, IselError::SextWidth);
        let is_const: bool = matches!(&x.val, Val::Const(_));
        g.check(!is_const, IselError::SextConst);
        let da: u32 = self.cx.local_addr(g, x.dst.as_str());
        self.emit_store_to(g, &x.val, from, da);
        let a: u32 = self.cx.val_addr(g, &x.val);
        let hi: u32 = at(a, from - 1);
        let l_pos: u32 = g.fresh_label();
        let l_fill: u32 = g.fresh_label();
        g.emit(ram_bit(BitOp::Btfss, hi, 7));
        g.emit(goto_tmp(l_pos));
        g.emit(movlw(0xFF));
        g.emit(goto_tmp(l_fill));
        g.emit(label_tmp(l_pos));
        g.emit(movlw(0));
        g.emit(label_tmp(l_fill));
        self.emit_fill_from(g, da, to, from);
    }

    /// Truncation: the low bytes, masked to one bit for an `i1`.
    pub fn emit_trunc(&self, g: &mut Emitter, x: &Conv)
        requires
            self.wf(),
        ensures
            final(g)@ == self.trunc(old(g)@, *x),
    {
        let from: u8 = x.from.bytes();
        let to: u8 = x.to.bytes();
        g.check(from > to || (x.to == Ty::I1 && x.from != Ty::I1), IselError::TruncWidens);
        let da: u32 = self.cx.local_addr(g, x.dst.as_str());
        self.emit_store_to(g, &x.val, to, da);
        if x.to == Ty::I1 {
            g.emit(movlw(1));
            g.emit(f_op(Op::Andwf, da));
        }
    }
}

} // verus!
