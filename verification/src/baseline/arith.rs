//! Two-operand arithmetic, shifts and width changes.
use vstd::prelude::*;
use crate::baseline::Gen;
use crate::emit::{
    at, const_byte, f_op, goto_tmp, label_tmp, lit, movf, movlw, movwf, note_c, on_c, w_op, Emitter, St,
};
use crate::error::IselError;
use crate::ir::{Bin, BinOp, Conv, Ty, Val};
use crate::line::{BitOp, LitOp, Op};

verus! {

impl<'a> Gen<'a> {
    /// `dst = ra + bb` over two bytes, both in memory. The carry folds into
    /// a staged copy of the high byte of `bb`.
    pub open spec fn add16_regs(&self, st: St, ra: u32, bb: u32, dst: u32) -> St {
        let st = self.w_store(self.acc_w(self.w_load(st, bb), Op::Addwf, ra), dst);
        let st = self.acc_w(st, Op::Movf, at(bb, 1)).emit(movwf(self.tmp)).emit(
            note_c(BitOp::Btfsc),
        ).emit(f_op(Op::Incf, self.tmp)).emit(movf(self.tmp));
        self.w_store(self.acc_w(st, Op::Addwf, at(ra, 1)), at(dst, 1))
    }

    /// `dst = ra + k` over two bytes.
    pub open spec fn add16_const(&self, st: St, ra: u32, k: i64, dst: u32) -> St {
        let st = self.acc_w(st, Op::Movf, ra).emit(movwf(self.tmp)).emit(movlw(const_byte(k, 0)));
        let st = self.w_store(st.emit(w_op(Op::Addwf, self.tmp)), dst);
        let st = self.acc_w(st, Op::Movf, at(ra, 1)).emit(movwf(self.tmp)).emit(
            note_c(BitOp::Btfsc),
        ).emit(f_op(Op::Incf, self.tmp)).emit(movlw(const_byte(k, 1))).emit(
            w_op(Op::Addwf, self.tmp),
        );
        self.w_store(st, at(dst, 1))
    }

    /// `dst = register + other` over two bytes.
    pub open spec fn add16_with(&self, st: St, r: Seq<char>, other: Val, dst: u32) -> St {
        let (st, ra) = self.cx.local_step(st, r);
        match other {
            Val::Reg(rb) => {
                let (st, bb) = self.cx.local_step(st, rb@);
                self.add16_regs(st, ra, bb, dst)
            },
            Val::Const(k) => self.add16_const(st, ra, k, dst),
            Val::Global(_) => st.fail(IselError::GlobalOperand),
        }
    }

    pub open spec fn add16(&self, st: St, a: Val, b: Val, dst: u32) -> St {
        match (a, b) {
            (Val::Reg(r), _) => self.add16_with(st, r@, b, dst),
            (_, Val::Reg(r)) => self.add16_with(st, r@, a, dst),
            _ => st.fail(IselError::NeedsRegister),
        }
    }

    /// `dst = a + b` over one byte; a constant is the second operand.
    pub open spec fn add8_ordered(&self, st: St, a: Val, b: Val, dst: u32) -> St {
        match b {
            Val::Const(k) => {
                let (st, aa) = self.cx.val_step(st, a);
                let st = self.acc_w(st, Op::Movf, aa).emit(movwf(self.tmp)).emit(
                    movlw(const_byte(k, 0)),
                );
                self.w_store(st.emit(w_op(Op::Addwf, self.tmp)), dst)
            },
            _ => {
                let (st, aa) = self.cx.val_step(st, a);
                let (st, bb) = self.cx.val_step(st, b);
                self.w_store(self.acc_w(self.acc_w(st, Op::Movf, bb), Op::Addwf, aa), dst)
            },
        }
    }

    pub open spec fn add8(&self, st: St, a: Val, b: Val, dst: u32) -> St {
        match (a, b) {
            (Val::Const(_), Val::Const(_)) => st.fail(IselError::ConstantFolding),
            (Val::Const(_), _) => self.add8_ordered(st, b, a, dst),
            _ => self.add8_ordered(st, a, b, dst),
        }
    }

    pub open spec fn bitwise_regs(&self, st: St, op: Op, ra: u32, bb: u32, dst: u32, n: u8, i: u8) -> St
        decreases n - i,
    {
        if i >= n {
            st
        } else {
            let st = self.acc_w(self.w_load(st, at(bb, i)), op, at(ra, i));
            self.bitwise_regs(self.w_store(st, at(dst, i)), op, ra, bb, dst, n, (i + 1) as u8)
        }
    }

    pub open spec fn bitwise_const(
        &self,
        st: St,
        op: LitOp,
        ra: u32,
        k: i64,
        dst: u32,
        n: u8,
        i: u8,
    ) -> St
        decreases n - i,
    {
        if i >= n {
            st
        } else {
            let st = self.w_load(st, at(ra, i)).emit(lit(op, const_byte(k, i)));
            self.bitwise_const(self.w_store(st, at(dst, i)), op, ra, k, dst, n, (i + 1) as u8)
        }
    }

    pub open spec fn bitwise_with(
        &self,
        st: St,
        r: Seq<char>,
        other: Val,
        n: u8,
        dst: u32,
        op: Op,
        opw: LitOp,
    ) -> St {
        let (st, ra) = self.cx.local_step(st, r);
        match other {
            Val::Reg(rb) => {
                let (st, bb) = self.cx.local_step(st, rb@);
                self.bitwise_regs(st, op, ra, bb, dst, n, 0)
            },
            Val::Const(k) => self.bitwise_const(st, opw, ra, k, dst, n, 0),
            Val::Global(_) => st.fail(IselError::GlobalOperand),
        }
    }

    /// `dst = a OP b` byte by byte, for and, or and xor.
    pub open spec fn bitwise(&self, st: St, a: Val, b: Val, n: u8, dst: u32, op: Op, opw: LitOp) -> St {
        match (a, b) {
            (Val::Reg(r), _) => self.bitwise_with(st, r@, b, n, dst, op, opw),
            (_, Val::Reg(r)) => self.bitwise_with(st, r@, a, n, dst, op, opw),
            _ => st.fail(IselError::NeedsRegister),
        }
    }

    /// `dst = a - b` over one byte: `SUBWF` subtracts W from the file.
    pub open spec fn sub8(&self, st: St, a: Val, b: Val, dst: u32) -> St {
        let (st, aa) = self.cx.val_step(st, a);
        match b {
            Val::Const(k) => self.w_store(
                self.acc_w(st.emit(movlw(const_byte(k, 0))), Op::Subwf, aa),
                dst,
            ),
            Val::Reg(_) => {
                let (st, bb) = self.cx.val_step(st, b);
                self.w_store(self.acc_w(self.acc_w(st, Op::Movf, bb), Op::Subwf, aa), dst)
            },
            Val::Global(_) => st.fail(IselError::GlobalOperand),
        }
    }

    pub open spec fn sub_const_from(&self, st: St, k: i64, aa: u32, dst: u32, n: u8, i: u8) -> St
        decreases n - i,
    {
        if i >= n {
            st
        } else {
            let st = self.acc_w(st, Op::Movf, at(aa, i)).emit(movwf(self.scratch)).emit(
                movlw(const_byte(k, i)),
            );
            let st = self.w_store(st, at(dst, i)).emit(movf(self.scratch)).emit(
                note_c(BitOp::Btfss),
            ).emit(w_op(Op::Incfsz, self.scratch));
            self.sub_const_from(
                self.op_f(st, Op::Subwf, at(dst, i)),
                k,
                aa,
                dst,
                n,
                (i + 1) as u8,
            )
        }
    }

    /// `dst = k - a` over `n` bytes.
    pub open spec fn sub_const_lhs(&self, st: St, k: i64, a: Val, dst: u32, n: u8) -> St {
        let (st, aa) = self.cx.val_step(st, a);
        let st = st.emit(movlw(const_byte(k, 0))).emit(movwf(self.tmp));
        let st = self.acc_w(st, Op::Movf, aa).emit(w_op(Op::Subwf, self.tmp));
        self.sub_const_from(self.w_store(st, dst), k, aa, dst, n, 1)
    }

    /// The high byte of `dst = a - b`, the subtrahend's high byte in W.
    pub open spec fn sub16_high(&self, st: St, aa: u32, dst: u32) -> St {
        let st = st.emit(movwf(self.tmp)).emit(note_c(BitOp::Btfss)).emit(
            f_op(Op::Incf, self.tmp),
        ).emit(movf(self.tmp));
        self.w_store(self.acc_w(st, Op::Subwf, at(aa, 1)), at(dst, 1))
    }

    /// `dst = a - b` over two bytes.
    pub open spec fn sub16(&self, st: St, a: Val, b: Val, dst: u32) -> St {
        let (st, aa) = self.cx.val_step(st, a);
        match b {
            Val::Const(k) => {
                let st = self.acc_w(st.emit(movlw(const_byte(k, 0))), Op::Subwf, aa);
                let st = self.w_store(st, dst).emit(movlw(const_byte(k, 1)));
                self.sub16_high(st, aa, dst)
            },
            Val::Reg(rb) => {
                let (st, bb) = self.cx.local_step(st, rb@);
                let st = self.acc_w(self.acc_w(st, Op::Movf, bb), Op::Subwf, aa);
                let st = self.acc_w(self.w_store(st, dst), Op::Movf, at(bb, 1));
                self.sub16_high(st, aa, dst)
            },
            Val::Global(_) => st.fail(IselError::GlobalOperand),
        }
    }

    /// `RLF` over bytes `i..n`, low byte first.
    pub open spec fn rotate_up(&self, st: St, da: u32, n: u8, i: u8) -> St
        decreases n - i,
    {
        if i >= n {
            st
        } else {
            self.rotate_up(self.acc_f(st, Op::Rlf, at(da, i)), da, n, (i + 1) as u8)
        }
    }

    /// `RRF` over bytes `n-1` down to zero.
    pub open spec fn rotate_down(&self, st: St, da: u32, n: u8) -> St
        decreases n,
    {
        if n == 0 {
            st
        } else {
            let i = (n - 1) as u8;
            self.rotate_down(self.acc_f(st, Op::Rrf, at(da, i)), da, i)
        }
    }

    /// One shift by a single bit of the `n` bytes at `da`.
    pub open spec fn shift_once(&self, st: St, op: BinOp, da: u32, n: u8) -> St {
        match op {
            BinOp::Shl => self.rotate_up(st.emit(on_c(BitOp::Bcf)), da, n, 0),
            BinOp::LShr => self.rotate_down(st.emit(on_c(BitOp::Bcf)), da, n),
            _ => {
                let hi = at(da, (n - 1) as u8);
                let st = self.bit(self.bank(st, hi), BitOp::Btfsc, hi, 7).emit(on_c(BitOp::Bsf));
                let st = self.bit(st, BitOp::Btfss, hi, 7).emit(on_c(BitOp::Bcf));
                self.rotate_down(st, da, n)
            },
        }
    }

    pub open spec fn shift_times(&self, st: St, op: BinOp, da: u32, n: u8, k: u8) -> St
        decreases k,
    {
        if k == 0 {
            st
        } else {
            self.shift_times(self.shift_once(st, op, da, n), op, da, n, (k - 1) as u8)
        }
    }

    /// `dst = a << k` and its right-shifting kin, for a constant count.
    pub open spec fn shift(&self, st: St, x: Bin, da: u32) -> St {
        if x.ty == Ty::I32 {
            st.fail(IselError::WideArithmetic)
        } else {
            match x.b {
                Val::Const(k) => if 0 <= k && k < 8 * x.ty.bytes() {
                    let st = self.move_val(st, x.a, x.ty, da);
                    self.shift_times(st, x.op, da, x.ty.bytes(), k as u8)
                } else {
                    st.fail(IselError::ShiftRange)
                },
                _ => st.fail(IselError::VariableShift),
            }
        }
    }

    /// One two-operand instruction.
    #[verifier::opaque]
    pub open spec fn bin(&self, st: St, x: Bin) -> St {
        let st = st.check(
            x.ty != Ty::I1 || x.op == BinOp::And || x.op == BinOp::Or || x.op == BinOp::Xor,
            IselError::UnsupportedBinop,
        );
        let ty = if x.ty == Ty::I1 {
            Ty::I8
        } else {
            x.ty
        };
        let (st, da) = self.cx.local_step(st, x.dst@);
        match x.op {
            BinOp::Add => match ty {
                Ty::I8 => self.add8(st, x.a, x.b, da),
                Ty::I16 => self.add16(st, x.a, x.b, da),
                Ty::I32 => st.fail(IselError::WideArithmetic),
                _ => st.fail(IselError::UnsupportedBinop),
            },
            BinOp::And => self.bitwise_at(st, x, ty, da, Op::Andwf, LitOp::Andlw),
            BinOp::Or => self.bitwise_at(st, x, ty, da, Op::Iorwf, LitOp::Iorlw),
            BinOp::Xor => self.bitwise_at(st, x, ty, da, Op::Xorwf, LitOp::Xorlw),
            BinOp::Sub => match ty {
                Ty::I8 => match x.a {
                    Val::Const(k) => self.sub_const_lhs(st, k, x.b, da, 1),
                    _ => self.sub8(st, x.a, x.b, da),
                },
                Ty::I16 => match x.a {
                    Val::Const(k) => self.sub_const_lhs(st, k, x.b, da, 2),
                    _ => self.sub16(st, x.a, x.b, da),
                },
                Ty::I32 => st.fail(IselError::WideArithmetic),
                _ => st.fail(IselError::UnsupportedBinop),
            },
            BinOp::Shl | BinOp::LShr | BinOp::AShr => self.shift(st, x, da),
            _ => st.fail(IselError::NotLegalized),
        }
    }

    pub open spec fn bitwise_at(&self, st: St, x: Bin, ty: Ty, da: u32, op: Op, opw: LitOp) -> St {
        match ty {
            Ty::I8 | Ty::I16 => self.bitwise(st, x.a, x.b, x.ty.bytes(), da, op, opw),
            Ty::I32 => st.fail(IselError::WideArithmetic),
            _ => st.fail(IselError::UnsupportedBinop),
        }
    }

    /// `CLRF` over bytes `i..n` of the slot at `da`.
    pub open spec fn clear_from(&self, st: St, da: u32, n: u8, i: u8) -> St
        decreases n - i,
    {
        if i >= n {
            st
        } else {
            self.clear_from(self.clear(st, at(da, i)), da, n, (i + 1) as u8)
        }
    }

    pub open spec fn zext(&self, st: St, x: Conv) -> St {
        let st = st.check(x.from.bytes() <= x.to.bytes(), IselError::ZextNarrows);
        let (st, da) = self.cx.local_step(st, x.dst@);
        let st = self.move_from(st, x.val, x.from.bytes(), da, 0);
        self.clear_from(st, da, x.to.bytes(), x.from.bytes())
    }

    pub open spec fn inttoptr(&self, st: St, x: Conv) -> St {
        let st = st.check(x.from == x.to, IselError::IntToPtrWidth);
        let (st, da) = self.cx.local_step(st, x.dst@);
        self.move_from(st, x.val, x.from.bytes(), da, 0)
    }

    /// Stores of W over bytes `i..n` of the slot at `da`.
    pub open spec fn fill_from(&self, st: St, da: u32, n: u8, i: u8) -> St
        decreases n - i,
    {
        if i >= n {
            st
        } else {
            self.fill_from(self.w_store(st, at(da, i)), da, n, (i + 1) as u8)
        }
    }

    pub open spec fn sext(&self, st: St, x: Conv) -> St {
        let st = st.check(
            x.from != Ty::I1 && x.from.bytes() < x.to.bytes(),
            IselError::SextWidth,
        );
        let st = st.check(!(x.val is Const), IselError::SextConst);
        let (st, da) = self.cx.local_step(st, x.dst@);
        let st = self.move_from(st, x.val, x.from.bytes(), da, 0);
        let (st, a) = self.cx.val_step(st, x.val);
        let hi = at(a, (x.from.bytes() - 1) as u8);
        let l_pos = st.next;
        let st = st.bump();
        let l_fill = st.next;
        let st = st.bump();
        let st = self.bit(self.bank(st, hi), BitOp::Btfss, hi, 7).emit(goto_tmp(l_pos)).emit(
            movlw(0xFF),
        ).emit(goto_tmp(l_fill)).emit(label_tmp(l_pos)).emit(movlw(0)).emit(label_tmp(l_fill));
        self.fill_from(st, da, x.to.bytes(), x.from.bytes())
    }

    pub open spec fn trunc(&self, st: St, x: Conv) -> St {
        let st = st.check(
            x.from.bytes() > x.to.bytes() || (x.to == Ty::I1 && x.from != Ty::I1),
            IselError::TruncWidens,
        );
        let (st, da) = self.cx.local_step(st, x.dst@);
        let st = self.move_from(st, x.val, x.to.bytes(), da, 0);
        if x.to == Ty::I1 {
            self.acc_f(st.emit(movlw(1)), Op::Andwf, da)
        } else {
            st
        }
    }

    fn emit_add16_with(&self, g: &mut Emitter, r: &str, other: &Val, dst: u32)
        requires
            self.wf(),
        ensures
            final(g)@ == self.add16_with(old(g)@, r@, *other, dst),
    {
        let ra: u32 = self.cx.local_addr(g, r);
        match other {
            Val::Reg(rb) => {
                let bb: u32 = self.cx.local_addr(g, rb.as_str());
                self.emit_w_load(g, bb);
                self.emit_acc_w(g, Op::Addwf, ra);
                self.emit_w_store(g, dst);
                self.emit_acc_w(g, Op::Movf, at(bb, 1));
                g.emit(movwf(self.tmp));
                g.emit(note_c(BitOp::Btfsc));
                g.emit(f_op(Op::Incf, self.tmp));
                g.emit(movf(self.tmp));
                self.emit_acc_w(g, Op::Addwf, at(ra, 1));
                self.emit_w_store(g, at(dst, 1));
            },
            Val::Const(k) => {
                self.emit_acc_w(g, Op::Movf, ra);
                g.emit(movwf(self.tmp));
                g.emit(movlw(const_byte(*k, 0)));
                g.emit(w_op(Op::Addwf, self.tmp));
                self.emit_w_store(g, dst);
                self.emit_acc_w(g, Op::Movf, at(ra, 1));
                g.emit(movwf(self.tmp));
                g.emit(note_c(BitOp::Btfsc));
                g.emit(f_op(Op::Incf, self.tmp));
                g.emit(movlw(const_byte(*k, 1)));
                g.emit(w_op(Op::Addwf, self.tmp));
                self.emit_w_store(g, at(dst, 1));
            },
            Val::Global(_) => g.fail(IselError::GlobalOperand),
        }
    }

    /// `dst = a + b` over two bytes; at most one operand is a constant.
    pub fn emit_add16(&self, g: &mut Emitter, a: &Val, b: &Val, dst: u32)
        requires
            self.wf(),
        ensures
            final(g)@ == self.add16(old(g)@, *a, *b, dst),
    {
        match (a, b) {
            (Val::Reg(r), _) => self.emit_add16_with(g, r.as_str(), b, dst),
            (_, Val::Reg(r)) => self.emit_add16_with(g, r.as_str(), a, dst),
            _ => g.fail(IselError::NeedsRegister),
        }
    }

    fn emit_add8_ordered(&self, g: &mut Emitter, a: &Val, b: &Val, dst: u32)
        requires
            self.wf(),
        ensures
            final(g)@ == self.add8_ordered(old(g)@, *a, *b, dst),
    {
        match b {
            Val::Const(k) => {
                let aa: u32 = self.cx.val_addr(g, a);
                self.emit_acc_w(g, Op::Movf, aa);
                g.emit(movwf(self.tmp));
                g.emit(movlw(const_byte(*k, 0)));
                g.emit(w_op(Op::Addwf, self.tmp));
                self.emit_w_store(g, dst);
            },
            _ => {
                let aa: u32 = self.cx.val_addr(g, a);
                let bb: u32 = self.cx.val_addr(g, b);
                self.emit_acc_w(g, Op::Movf, bb);
                self.emit_acc_w(g, Op::Addwf, aa);
                self.emit_w_store(g, dst);
            },
        }
    }

    /// `dst = a + b` over one byte. A constant on the left moves to the
    /// right, so that no constant is read as an address.
    pub fn emit_add8(&self, g: &mut Emitter, a: &Val, b: &Val, dst: u32)
        requires
            self.wf(),
        ensures
            final(g)@ == self.add8(old(g)@, *a, *b, dst),
    {
        match (a, b) {
            (Val::Const(_), Val::Const(_)) => g.fail(IselError::ConstantFolding),
            (Val::Const(_), _) => self.emit_add8_ordered(g, b, a, dst),
            _ => self.emit_add8_ordered(g, a, b, dst),
        }
    }

    fn emit_bitwise_with(&self, g: &mut Emitter, r: &str, other: &Val, n: u8, dst: u32, op: Op, opw: LitOp)
        requires
            self.wf(),
        ensures
            final(g)@ == self.bitwise_with(old(g)@, r@, *other, n, dst, op, opw),
    {
        let ra: u32 = self.cx.local_addr(g, r);
        match other {
            Val::Reg(rb) => {
                let bb: u32 = self.cx.local_addr(g, rb.as_str());
                let ghost start = g@;
                let mut i: u8 = 0;
                while i < n
                    invariant
                        self.bitwise_regs(start, op, ra, bb, dst, n, 0) == self.bitwise_regs(
                            g@,
                            op,
                            ra,
                            bb,
                            dst,
                            n,
                            i,
                        ),
                    decreases n - i,
                {
                    self.emit_w_load(g, at(bb, i));
                    self.emit_acc_w(g, op, at(ra, i));
                    self.emit_w_store(g, at(dst, i));
                    i += 1;
                }
            },
            Val::Const(k) => {
                let ghost start = g@;
                let mut i: u8 = 0;
                while i < n
                    invariant
                        self.bitwise_const(start, opw, ra, *k, dst, n, 0) == self.bitwise_const(
                            g@,
                            opw,
                            ra,
                            *k,
                            dst,
                            n,
                            i,
                        ),
                    decreases n - i,
                {
                    self.emit_w_load(g, at(ra, i));
                    g.emit(lit(opw, const_byte(*k, i)));
                    self.emit_w_store(g, at(dst, i));
                    i += 1;
                }
            },
            Val::Global(_) => g.fail(IselError::GlobalOperand),
        }
    }

    /// `dst = a OP b` over `n` bytes, for and, or and xor.
    pub fn emit_commutative(&self, g: &mut Emitter, a: &Val, b: &Val, n: u8, dst: u32, op: Op, opw: LitOp)
        requires
            self.wf(),
        ensures
            final(g)@ == self.bitwise(old(g)@, *a, *b, n, dst, op, opw),
    {
        match (a, b) {
            (Val::Reg(r), _) => self.emit_bitwise_with(g, r.as_str(), b, n, dst, op, opw),
            (_, Val::Reg(r)) => self.emit_bitwise_with(g, r.as_str(), a, n, dst, op, opw),
            _ => g.fail(IselError::NeedsRegister),
        }
    }

    /// `dst = a - b` over one byte; a constant `a` is not for this shape.
    pub fn emit_sub8(&self, g: &mut Emitter, a: &Val, b: &Val, dst: u32)
        requires
            self.wf(),
        ensures
            final(g)@ == self.sub8(old(g)@, *a, *b, dst),
    {
        let aa: u32 = self.cx.val_addr(g, a);
        match b {
            Val::Const(k) => {
                g.emit(movlw(const_byte(*k, 0)));
                self.emit_acc_w(g, Op::Subwf, aa);
                self.emit_w_store(g, dst);
            },
            Val::Reg(_) => {
                let bb: u32 = self.cx.val_addr(g, b);
                self.emit_acc_w(g, Op::Movf, bb);
                self.emit_acc_w(g, Op::Subwf, aa);
                self.emit_w_store(g, dst);
            },
            Val::Global(_) => g.fail(IselError::GlobalOperand),
        }
    }

    /// `dst = k - a` over `n` bytes. Above byte zero the constant is put in
    /// place first and the borrow folds into the staged subtrahend. The bank
    /// of `dst` was set by that store, so none is set inside the skips.
    pub fn emit_sub_const_lhs(&self, g: &mut Emitter, k: i64, a: &Val, dst: u32, n: u8)
        requires
            self.wf(),
        ensures
            final(g)@ == self.sub_const_lhs(old(g)@, k, *a, dst, n),
    {
        let aa: u32 = self.cx.val_addr(g, a);
        g.emit(movlw(const_byte(k, 0)));
        g.emit(movwf(self.tmp));
        self.emit_acc_w(g, Op::Movf, aa);
        g.emit(w_op(Op::Subwf, self.tmp));
        self.emit_w_store(g, dst);
        let mut i: u8 = 1;
        while i < n
            invariant
                self.sub_const_lhs(old(g)@, k, *a, dst, n) == self.sub_const_from(
                    g@,
                    k,
                    aa,
                    dst,
                    n,
                    i,
                ),
            decreases n - i,
        {
            self.emit_acc_w(g, Op::Movf, at(aa, i));
            g.emit(movwf(self.scratch));
            g.emit(movlw(const_byte(k, i)));
            self.emit_w_store(g, at(dst, i));
            g.emit(movf(self.scratch));
            g.emit(note_c(BitOp::Btfss));
            g.emit(w_op(Op::Incfsz, self.scratch));
            self.emit_op_f(g, Op::Subwf, at(dst, i));
            i += 1;
        }
    }

    fn emit_sub16_high(&self, g: &mut Emitter, aa: u32, dst: u32)
        ensures
            final(g)@ == self.sub16_high(old(g)@, aa, dst),
    {
        g.emit(movwf(self.tmp));
        g.emit(note_c(BitOp::Btfss));
        g.emit(f_op(Op::Incf, self.tmp));
        g.emit(movf(self.tmp));
        self.emit_acc_w(g, Op::Subwf, at(aa, 1));
        self.emit_w_store(g, at(dst, 1));
    }

    /// `dst = a - b` over two bytes, the borrow folded into a staged copy of
    /// the subtrahend's high byte.
    pub fn emit_sub16(&self, g: &mut Emitter, a: &Val, b: &Val, dst: u32)
        requires
            self.wf(),
        ensures
            final(g)@ == self.sub16(old(g)@, *a, *b, dst),
    {
        let aa: u32 = self.cx.val_addr(g, a);
        match b {
            Val::Const(k) => {
                g.emit(movlw(const_byte(*k, 0)));
                self.emit_acc_w(g, Op::Subwf, aa);
                self.emit_w_store(g, dst);
                g.emit(movlw(const_byte(*k, 1)));
                self.emit_sub16_high(g, aa, dst);
            },
            Val::Reg(rb) => {
                let bb: u32 = self.cx.local_addr(g, rb.as_str());
                self.emit_acc_w(g, Op::Movf, bb);
                self.emit_acc_w(g, Op::Subwf, aa);
                self.emit_w_store(g, dst);
                self.emit_acc_w(g, Op::Movf, at(bb, 1));
                self.emit_sub16_high(g, aa, dst);
            },
            Val::Global(_) => g.fail(IselError::GlobalOperand),
        }
    }

    fn emit_rotate_up(&self, g: &mut Emitter, da: u32, n: u8)
        ensures
            final(g)@ == self.rotate_up(old(g)@, da, n, 0),
    {
        let mut i: u8 = 0;
        while i < n
            invariant
                self.rotate_up(old(g)@, da, n, 0) == self.rotate_up(g@, da, n, i),
            decreases n - i,
        {
            self.emit_acc_f(g, Op::Rlf, at(da, i));
            i += 1;
        }
    }

    fn emit_rotate_down(&self, g: &mut Emitter, da: u32, n: u8)
        ensures
            final(g)@ == self.rotate_down(old(g)@, da, n),
    {
        let mut i: u8 = n;
        while i > 0
            invariant
                self.rotate_down(old(g)@, da, n) == self.rotate_down(g@, da, i),
            decreases i,
        {
            i -= 1;
            self.emit_acc_f(g, Op::Rrf, at(da, i));
        }
    }

    fn emit_shift_once(&self, g: &mut Emitter, op: BinOp, da: u32, n: u8)
        requires
            n > 0,
        ensures
            final(g)@ == self.shift_once(old(g)@, op, da, n),
    {
        match op {
            BinOp::Shl => {
                g.emit(on_c(BitOp::Bcf));
                self.emit_rotate_up(g, da, n);
            },
            BinOp::LShr => {
                g.emit(on_c(BitOp::Bcf));
                self.emit_rotate_down(g, da, n);
            },
            _ => {
                let hi: u32 = at(da, n - 1);
                self.emit_bank_select(g, hi);
                self.emit_bit(g, BitOp::Btfsc, hi, 7);
                g.emit(on_c(BitOp::Bsf));
                self.emit_bit(g, BitOp::Btfss, hi, 7);
                g.emit(on_c(BitOp::Bcf));
                self.emit_rotate_down(g, da, n);
            },
        }
    }

    /// A shift by a constant count: a copy, then rotates in place. A count
    /// of the width or more is refused.
    pub fn emit_shift(&self, g: &mut Emitter, x: &Bin, da: u32)
        requires
            self.wf(),
        ensures
            final(g)@ == self.shift(old(g)@, *x, da),
    {
        if x.ty == Ty::I32 {
            g.fail(IselError::WideArithmetic);
            return;
        }
        let n: u8 = x.ty.bytes();
        match &x.b {
            Val::Const(k) => {
                if 0 <= *k && *k < 8 * (n as i64) {
                    self.emit_move_val_to_slot(g, &x.a, x.ty, da);
                    let ghost start = g@;
                    let mut i: u8 = *k as u8;
                    while i > 0
                        invariant
                            n > 0,
                            self.shift_times(start, x.op, da, n, *k as u8) == self.shift_times(
                                g@,
                                x.op,
                                da,
                                n,
                                i,
                            ),
                        decreases i,
                    {
                        self.emit_shift_once(g, x.op, da, n);
                        i -= 1;
                    }
                } else {
                    g.fail(IselError::ShiftRange);
                }
            },
            _ => g.fail(IselError::VariableShift),
        }
    }

    fn emit_bitwise_at(&self, g: &mut Emitter, x: &Bin, ty: Ty, da: u32, op: Op, opw: LitOp)
        requires
            self.wf(),
        ensures
            final(g)@ == self.bitwise_at(old(g)@, *x, ty, da, op, opw),
    {
        match ty {
            Ty::I8 | Ty::I16 => self.emit_commutative(g, &x.a, &x.b, x.ty.bytes(), da, op, opw),
            Ty::I32 => g.fail(IselError::WideArithmetic),
            _ => g.fail(IselError::UnsupportedBinop),
        }
    }

    /// Lowers a two-operand instruction.
    pub fn emit_bin(&self, g: &mut Emitter, x: &Bin)
        requires
            self.wf(),
        ensures
            final(g)@ == self.bin(old(g)@, *x),
    {
        reveal(Gen::bin);
        g.check(
            x.ty != Ty::I1 || x.op == BinOp::And || x.op == BinOp::Or || x.op == BinOp::Xor,
            IselError::UnsupportedBinop,
        );
        let ty = if x.ty == Ty::I1 {
            Ty::I8
        } else {
            x.ty
        };
        let da: u32 = self.cx.local_addr(g, x.dst.as_str());
        match x.op {
            BinOp::Add => match ty {
                Ty::I8 => self.emit_add8(g, &x.a, &x.b, da),
                Ty::I16 => self.emit_add16(g, &x.a, &x.b, da),
                Ty::I32 => g.fail(IselError::WideArithmetic),
                _ => g.fail(IselError::UnsupportedBinop),
            },
            BinOp::And => self.emit_bitwise_at(g, x, ty, da, Op::Andwf, LitOp::Andlw),
            BinOp::Or => self.emit_bitwise_at(g, x, ty, da, Op::Iorwf, LitOp::Iorlw),
            BinOp::Xor => self.emit_bitwise_at(g, x, ty, da, Op::Xorwf, LitOp::Xorlw),
            BinOp::Sub => match ty {
                Ty::I8 => match &x.a {
                    Val::Const(k) => self.emit_sub_const_lhs(g, *k, &x.b, da, 1),
                    _ => self.emit_sub8(g, &x.a, &x.b, da),
                },
                Ty::I16 => match &x.a {
                    Val::Const(k) => self.emit_sub_const_lhs(g, *k, &x.b, da, 2),
                    _ => self.emit_sub16(g, &x.a, &x.b, da),
                },
                Ty::I32 => g.fail(IselError::WideArithmetic),
                _ => g.fail(IselError::UnsupportedBinop),
            },
            BinOp::Shl | BinOp::LShr | BinOp::AShr => self.emit_shift(g, x, da),
            _ => g.fail(IselError::NotLegalized),
        }
    }

    /// Zero extension: a copy, then cleared bytes.
    pub fn emit_zext(&self, g: &mut Emitter, x: &Conv)
        requires
            self.wf(),
        ensures
            final(g)@ == self.zext(old(g)@, *x),
    {
        let from: u8 = x.from.bytes();
        let to: u8 = x.to.bytes();
        g.check(from <= to, IselError::ZextNarrows);
        let da: u32 = self.cx.local_addr(g, x.dst.as_str());
        self.emit_move_bytes(g, &x.val, from, da);
        let ghost start = g@;
        let mut i: u8 = from;
        while i < to
            invariant
                self.clear_from(start, da, to, from) == self.clear_from(g@, da, to, i),
            decreases to - i,
        {
            self.emit_clear(g, at(da, i));
            i += 1;
        }
    }

    /// An integer that becomes a pointer value: its bytes are the address.
    pub fn emit_inttoptr(&self, g: &mut Emitter, x: &Conv)
        requires
            self.wf(),
        ensures
            final(g)@ == self.inttoptr(old(g)@, *x),
    {
        g.check(x.from == x.to, IselError::IntToPtrWidth);
        let da: u32 = self.cx.local_addr(g, x.dst.as_str());
        let n: u8 = x.from.bytes();
        self.emit_move_bytes(g, &x.val, n, da);
    }

    /// Sign extension: a copy, then the sign in every byte above it.
    pub fn emit_sext(&self, g: &mut Emitter, x: &Conv)
        requires
            self.wf(),
        ensures
            final(g)@ == self.sext(old(g)@, *x),
    {
        let from: u8 = x.from.bytes();
        let to: u8 = x.to.bytes();
        g.check(x.from != Ty::I1 && from < to, IselError::SextWidth);
        let is_const: bool = matches!(&x.val, Val::Const(_));
        g.check(!is_const, IselError::SextConst);
        let da: u32 = self.cx.local_addr(g, x.dst.as_str());
        self.emit_move_bytes(g, &x.val, from, da);
        let a: u32 = self.cx.val_addr(g, &x.val);
        let hi: u32 = at(a, from - 1);
        let l_pos: u32 = g.fresh_label();
        let l_fill: u32 = g.fresh_label();
        self.emit_bank_select(g, hi);
        self.emit_bit(g, BitOp::Btfss, hi, 7);
        g.emit(goto_tmp(l_pos));
        g.emit(movlw(0xFF));
        g.emit(goto_tmp(l_fill));
        g.emit(label_tmp(l_pos));
        g.emit(movlw(0));
        g.emit(label_tmp(l_fill));
        let ghost start = g@;
        let mut i: u8 = from;
        while i < to
            invariant
                self.fill_from(start, da, to, from) == self.fill_from(g@, da, to, i),
            decreases to - i,
        {
            self.emit_w_store(g, at(da, i));
            i += 1;
        }
    }

    /// Truncation: the low bytes, masked to one bit for an `i1`.
    pub fn emit_trunc(&self, g: &mut Emitter, x: &Conv)
        requires
            self.wf(),
        ensures
            final(g)@ == self.trunc(old(g)@, *x),
    {
        let from: u8 = x.from.bytes();
        let to: u8 = x.to.bytes();
        g.check(from > to || (x.to == Ty::I1 && x.from != Ty::I1), IselError::TruncWidens);
        let da: u32 = self.cx.local_addr(g, x.dst.as_str());
        self.emit_move_bytes(g, &x.val, to, da);
        if x.to == Ty::I1 {
            g.emit(movlw(1));
            self.emit_acc_f(g, Op::Andwf, da);
        }
    }
}

} // verus!
