//! Instruction selection for the 12-bit baseline core.
//!
//! The core has no `ADDLW`, `SUBLW` or `RETURN`: literals add and subtract
//! through a staging byte, and every return is a `RETLW`. Data addresses have
//! six bits and direct operands five: a byte in banked RAM is reached after
//! the bank bits of FSR were set for it, unconditionally and right before the
//! access. Such a bank select is never placed between a skip and the
//! instruction it may skip. A call reaches the low 256 words of program
//! memory: a program with more words is refused.
use vstd::prelude::*;
use crate::ctx::Ctx;
use crate::emit::{at, clrf, f_op, movlw, movwf, ram_bit, w_op, Emitter, St};
use crate::error::IselError;
use crate::line::{BitOp, Imm, Line, LitOp, Note, Op, Reg};

pub mod arith;
pub mod call;
pub mod inst;
pub mod laws;
pub mod pointer;
pub mod select;
pub mod value;

pub use crate::baseline::select::{select, select_with_locs};
pub use crate::ctx::literal_ptr_addr;
pub use crate::output::word_size;

verus! {

/// The selector for one function: its context and the fixed bytes in common
/// RAM. `scratch` is the comparison byte, `retval` the first of four result
/// bytes, `tmp` and `tmp2` are staging bytes.
#[derive(Clone, Copy)]
pub struct Gen<'a> {
    pub cx: Ctx<'a>,
    pub scratch: u32,
    pub retval: u32,
    pub tmp: u32,
    pub tmp2: u32,
}

/// Bit `i` of a bank number.
pub open spec fn bank_bit(bank: usize, i: u8) -> bool {
    i < 32 && (bank >> i) & 1 == 1
}

fn has_bank_bit(bank: usize, i: u8) -> (r: bool)
    ensures
        r == bank_bit(bank, i),
{
    i < 32 && (bank >> i) & 1 == 1
}

/// The line that sets bank bit `i` in FSR for `bank`.
pub open spec fn bank_line(bank: usize, i: u8) -> Line {
    Line::Bit(
        if bank_bit(bank, i) {
            BitOp::Bsf
        } else {
            BitOp::Bcf
        },
        Reg::Fsr,
        5u8.wrapping_add(i),
        Note::Bare,
    )
}

impl<'a> Gen<'a> {
    pub open spec fn wf(&self) -> bool {
        self.cx.wf()
    }

    /// Bank bits `i..` of `bank`.
    pub open spec fn bank_lines(&self, st: St, bank: usize, i: u8) -> St
        decreases self.cx.device.fsr_bank_bits - i,
    {
        if i >= self.cx.device.fsr_bank_bits {
            st
        } else {
            self.bank_lines(st.keep(bank_line(bank, i)), bank, (i + 1) as u8)
        }
    }

    /// The bank select for a direct access to `addr`: one line per bank bit,
    /// none for an address that is the same in every bank. W stays known.
    pub open spec fn bank(&self, st: St, addr: u32) -> St {
        match self.cx.device.bank(addr) {
            Some(b) => self.bank_lines(st, b, 0),
            None => st,
        }
    }

    /// The five-bit operand for a direct access to `addr`: the offset in its
    /// bank for banked RAM, the address itself otherwise.
    pub open spec fn reg_of(&self, addr: u32) -> Option<u32> {
        if self.cx.device.bank(addr) is Some {
            Some(addr & 0x1F)
        } else if addr <= 0x1F {
            Some(addr)
        } else {
            None
        }
    }

    pub open spec fn operand(&self, st: St, addr: u32) -> (St, u32) {
        match self.reg_of(addr) {
            Some(f) => (st, f),
            None => (st.fail(IselError::FileRegisterRange), 0),
        }
    }

    /// `op addr, W`, the bank being set.
    pub open spec fn op_w(&self, st: St, op: Op, addr: u32) -> St {
        let (st, f) = self.operand(st, addr);
        st.emit(w_op(op, f))
    }

    /// `op addr, F`, the bank being set.
    pub open spec fn op_f(&self, st: St, op: Op, addr: u32) -> St {
        let (st, f) = self.operand(st, addr);
        st.emit(f_op(op, f))
    }

    /// Sets the bank, then `op addr, W`.
    pub open spec fn acc_w(&self, st: St, op: Op, addr: u32) -> St {
        self.op_w(self.bank(st, addr), op, addr)
    }

    /// Sets the bank, then `op addr, F`.
    pub open spec fn acc_f(&self, st: St, op: Op, addr: u32) -> St {
        self.op_f(self.bank(st, addr), op, addr)
    }

    /// Sets the bank, then `MOVWF addr`.
    pub open spec fn put(&self, st: St, addr: u32) -> St {
        let (st, f) = self.operand(self.bank(st, addr), addr);
        st.emit(movwf(f))
    }

    /// Sets the bank, then `CLRF addr`.
    pub open spec fn clear(&self, st: St, addr: u32) -> St {
        let (st, f) = self.operand(self.bank(st, addr), addr);
        st.emit(clrf(f))
    }

    /// A bit instruction on `addr`, the bank being set.
    pub open spec fn bit(&self, st: St, op: BitOp, addr: u32, b: u8) -> St {
        let (st, f) = self.operand(st, addr);
        st.emit(ram_bit(op, f, b))
    }

    /// Stores W to `addr`, unless W is known to hold its value. The bank is
    /// set either way.
    pub open spec fn w_store(&self, st: St, addr: u32) -> St {
        let st = self.bank(st, addr);
        (if st.w == Some(addr) {
            st
        } else {
            let (st, f) = self.operand(st, addr);
            st.emit(movwf(f))
        }).holding(addr)
    }

    /// Loads `addr` into W, unless W is known to hold its value. The bank is
    /// set either way.
    pub open spec fn w_load(&self, st: St, addr: u32) -> St {
        let st = self.bank(st, addr);
        (if st.w == Some(addr) {
            st
        } else {
            self.op_w(st, Op::Movf, addr)
        }).holding(addr)
    }

    /// `W = W + k`, through the staging byte.
    pub open spec fn add_w_lit(&self, st: St, k: u8) -> St {
        st.emit(movwf(self.tmp)).emit(movlw(k)).emit(w_op(Op::Addwf, self.tmp))
    }

    /// The two-byte address value `b` into the slot at `dst`: the byte, then
    /// zero, as every data address fits one byte.
    pub open spec fn put_addr(&self, st: St, b: Imm, dst: u32) -> St {
        let st = self.w_store(st.emit(Line::Lit(LitOp::Movlw, b)), dst);
        self.w_store(st.emit(movlw(0)), at(dst, 1))
    }

    /// Emits the bank select for one direct access to `addr`. The reassert
    /// touches neither W nor the flags, so what W holds stays known.
    pub fn emit_bank_select(&self, g: &mut Emitter, addr: u32)
        ensures
            final(g)@ == self.bank(old(g)@, addr),
    {
        if let Some(b) = self.cx.device.bank_of(addr) {
            let mut i: u8 = 0;
            while i < self.cx.device.fsr_bank_bits
                invariant
                    self.bank_lines(old(g)@, b, 0) == self.bank_lines(g@, b, i),
                decreases self.cx.device.fsr_bank_bits - i,
            {
                let op = if has_bank_bit(b, i) {
                    BitOp::Bsf
                } else {
                    BitOp::Bcf
                };
                g.keep(Line::Bit(op, Reg::Fsr, 5u8.wrapping_add(i), Note::Bare));
                i += 1;
            }
        }
    }

    /// The five-bit file-register operand for a direct access to `addr`.
    pub fn file_reg(&self, g: &mut Emitter, addr: u32) -> (r: u32)
        ensures
            (final(g)@, r) == self.operand(old(g)@, addr),
    {
        if self.cx.device.bank_of(addr).is_some() {
            addr & 0x1F
        } else if addr <= 0x1F {
            addr
        } else {
            g.fail(IselError::FileRegisterRange);
            0
        }
    }

    pub fn emit_op_w(&self, g: &mut Emitter, op: Op, addr: u32)
        ensures
            final(g)@ == self.op_w(old(g)@, op, addr),
    {
        let f: u32 = self.file_reg(g, addr);
        g.emit(w_op(op, f));
    }

    pub fn emit_op_f(&self, g: &mut Emitter, op: Op, addr: u32)
        ensures
            final(g)@ == self.op_f(old(g)@, op, addr),
    {
        let f: u32 = self.file_reg(g, addr);
        g.emit(f_op(op, f));
    }

    pub fn emit_acc_w(&self, g: &mut Emitter, op: Op, addr: u32)
        ensures
            final(g)@ == self.acc_w(old(g)@, op, addr),
    {
        self.emit_bank_select(g, addr);
        self.emit_op_w(g, op, addr);
    }

    pub fn emit_acc_f(&self, g: &mut Emitter, op: Op, addr: u32)
        ensures
            final(g)@ == self.acc_f(old(g)@, op, addr),
    {
        self.emit_bank_select(g, addr);
        self.emit_op_f(g, op, addr);
    }

    pub fn emit_put(&self, g: &mut Emitter, addr: u32)
        ensures
            final(g)@ == self.put(old(g)@, addr),
    {
        self.emit_bank_select(g, addr);
        let f: u32 = self.file_reg(g, addr);
        g.emit(movwf(f));
    }

    pub fn emit_clear(&self, g: &mut Emitter, addr: u32)
        ensures
            final(g)@ == self.clear(old(g)@, addr),
    {
        self.emit_bank_select(g, addr);
        let f: u32 = self.file_reg(g, addr);
        g.emit(clrf(f));
    }

    pub fn emit_bit(&self, g: &mut Emitter, op: BitOp, addr: u32, b: u8)
        ensures
            final(g)@ == self.bit(old(g)@, op, addr, b),
    {
        let f: u32 = self.file_reg(g, addr);
        g.emit(ram_bit(op, f, b));
    }

    /// `MOVWF addr`, unless the byte there is known to equal W.
    pub fn emit_w_store(&self, g: &mut Emitter, addr: u32)
        ensures
            final(g)@ == self.w_store(old(g)@, addr),
    {
        self.emit_bank_select(g, addr);
        if g.w != Some(addr) {
            let f: u32 = self.file_reg(g, addr);
            g.emit(movwf(f));
        }
        g.holding(addr);
    }

    /// `MOVF addr, W`, unless W is known to equal the byte there.
    pub fn emit_w_load(&self, g: &mut Emitter, addr: u32)
        ensures
            final(g)@ == self.w_load(old(g)@, addr),
    {
        self.emit_bank_select(g, addr);
        if g.w != Some(addr) {
            self.emit_op_w(g, Op::Movf, addr);
        }
        g.holding(addr);
    }

    /// Adds a literal to W. The staging byte is dead between instructions,
    /// so the sequence is free at any use.
    pub fn emit_add_w_lit(&self, g: &mut Emitter, k: u8)
        ensures
            final(g)@ == self.add_w_lit(old(g)@, k),
    {
        g.emit(movwf(self.tmp));
        g.emit(movlw(k));
        g.emit(w_op(Op::Addwf, self.tmp));
    }

    /// Writes an address value to a two-byte slot.
    pub fn emit_put_addr(&self, g: &mut Emitter, b: Imm, dst: u32)
        ensures
            final(g)@ == self.put_addr(old(g)@, b, dst),
    {
        g.emit(Line::Lit(LitOp::Movlw, b));
        self.emit_w_store(g, dst);
        g.emit(movlw(0));
        self.emit_w_store(g, at(dst, 1));
    }
}

} // verus!
