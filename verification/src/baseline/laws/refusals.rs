//! What is refused.
use vstd::prelude::*;
use crate::baseline::pointer::Addr;
use crate::baseline::{bank_line, Gen};
use crate::emit::{at, goto_tmp, label_tmp, movf, movlw, movwf, w_op, St};
use crate::error::IselError;
use crate::ir::{Base, Bin, BinOp, Conv, Inst, Pointer, Store, Term, Ty, Val};
use crate::line::{BitOp, Op};

verus! {

impl<'a> Gen<'a> {
    proof fn lemma_refused_bank_lines(&self, st: St, b: usize, i: u8)
        ensures
            self.bank_lines(st, b, i).err == st.err,
        decreases self.cx.device.fsr_bank_bits - i,
    {
        if i < self.cx.device.fsr_bank_bits {
            self.lemma_refused_bank_lines(
                st.keep(bank_line(b, i)),
                b,
                (i + 1) as u8,
            );
        }
    }

    /// A bank select refuses nothing and forgives nothing.
    proof fn lemma_refused_bank(&self, st: St, a: u32)
        ensures
            self.bank(st, a).err == st.err,
    {
        if let Some(b) = self.cx.device.bank(a) {
            self.lemma_refused_bank_lines(st, b, 0);
        }
    }

    proof fn lemma_refused_load(&self, st: St, a: u32)
        requires
            st.err is Some,
        ensures
            self.w_load(st, a).err is Some,
            self.w_store(st, a).err is Some,
            self.clear(st, a).err is Some,
            forall|op: Op| #[trigger] self.acc_w(st, op, a).err is Some,
            forall|op: Op| #[trigger] self.acc_f(st, op, a).err is Some,
    {
        self.lemma_refused_bank(st, a);
    }

    proof fn lemma_refused_terms(&self, st: St, p: Pointer, a: u32, b: u32)
        requires
            st.err is Some,
        ensures
            self.add_terms(st, p.terms@, a, b).err is Some,
    {
        self.lemma_refused_load(st, a);
        self.lemma_refused_load(self.acc_w(st, Op::Addwf, a), b);
    }

    proof fn lemma_refused_pointer(&self, st: St, p: Pointer, i: u8)
        requires
            st.err is Some,
        ensures
            self.pointer_byte(st, p, i).err is Some,
    {
        if i != 1 {
            let s = st.check(p.k == 0 || p.terms@.len() == 0, IselError::OffsetWithTerms);
            match p.base {
                Base::Global(name) => {
                    let (s, base) = self.cx.global_step(s, name@);
                    let (s, a, b) = self.term_slots(s, p.terms@);
                    let s = s.emit(movlw((at(base, p.k) & 0x3F) as u8));
                    self.lemma_refused_terms(s, p, a, b);
                },
                Base::Slot(name, indirect) => {
                    let s = s.check(
                        indirect || self.cx.holds_addr(name@),
                        IselError::SlotAddressValue,
                    );
                    let (s, z) = self.cx.local_step(s, name@);
                    let (s, a, b) = self.term_slots(s, p.terms@);
                    self.lemma_refused_load(s, z);
                    self.lemma_refused_terms(self.acc_w(s, Op::Movf, z), p, a, b);
                },
            }
        }
    }

    proof fn lemma_refused_byte(&self, st: St, v: Val, i: u8)
        requires
            st.err is Some,
        ensures
            self.load_byte(st, v, i).err is Some,
    {
        if let Val::Reg(r) = v {
            if let Some(p) = self.cx.pointer(r@) {
                self.lemma_refused_pointer(st, p, i);
            } else {
                let (s, a) = self.cx.local_step(st, r@);
                self.lemma_refused_load(s, at(a, i));
            }
        }
    }

    proof fn lemma_refused_move(&self, st: St, v: Val, n: u8, a: u32, i: u8)
        requires
            st.err is Some,
        ensures
            self.move_from(st, v, n, a, i).err is Some,
        decreases n - i,
    {
        if i < n {
            self.lemma_refused_byte(st, v, i);
            let s = self.load_byte(st, v, i);
            self.lemma_refused_load(s, at(a, i));
            self.lemma_refused_move(self.w_store(s, at(a, i)), v, n, a, (i + 1) as u8);
        }
    }

    proof fn lemma_refused_clear(&self, st: St, a: u32, n: u8, i: u8)
        requires
            st.err is Some,
        ensures
            self.clear_from(st, a, n, i).err is Some,
        decreases n - i,
    {
        if i < n {
            self.lemma_refused_load(st, at(a, i));
            self.lemma_refused_clear(self.clear(st, at(a, i)), a, n, (i + 1) as u8);
        }
    }

    proof fn lemma_refused_fill(&self, st: St, a: u32, n: u8, i: u8)
        requires
            st.err is Some,
        ensures
            self.fill_from(st, a, n, i).err is Some,
        decreases n - i,
    {
        if i < n {
            self.lemma_refused_load(st, at(a, i));
            self.lemma_refused_fill(self.w_store(st, at(a, i)), a, n, (i + 1) as u8);
        }
    }

    proof fn lemma_refused_sext(&self, st: St, x: Conv)
        requires
            x.from == Ty::I1 || x.from.bytes() >= x.to.bytes() || x.val is Const,
        ensures
            self.sext(st, x).err is Some,
    {
        let (from, to) = (x.from.bytes(), x.to.bytes());
        let s = st.check(x.from != Ty::I1 && from < to, IselError::SextWidth).check(
            !(x.val is Const),
            IselError::SextConst,
        );
        let (s, da) = self.cx.local_step(s, x.dst@);
        self.lemma_refused_move(s, x.val, from, da, 0);
        let s = self.move_from(s, x.val, from, da, 0);
        let (s, a) = self.cx.val_step(s, x.val);
        let hi = at(a, (from - 1) as u8);
        let l_pos = s.next;
        let s = s.bump();
        let l_fill = s.next;
        let s = s.bump();
        self.lemma_refused_bank(s, hi);
        let s = self.bit(self.bank(s, hi), BitOp::Btfss, hi, 7).emit(goto_tmp(l_pos)).emit(
            movlw(0xFF),
        ).emit(goto_tmp(l_fill)).emit(label_tmp(l_pos)).emit(movlw(0)).emit(label_tmp(l_fill));
        self.lemma_refused_fill(s, da, to, from);
    }

    proof fn lemma_refused_term(&self, st: St, a: u32, scale: u8)
        requires
            st.err is Some,
        ensures
            self.accum_term(st, a, scale).err is Some,
        decreases scale,
    {
        if scale > 0 {
            self.lemma_refused_load(st, a);
            let s = self.acc_w(st, Op::Movf, a).emit(w_op(Op::Addwf, self.scratch));
            self.lemma_refused_load(s, self.scratch);
            self.lemma_refused_term(self.w_store(s, self.scratch), a, (scale - 1) as u8);
        }
    }

    proof fn lemma_refused_accum(&self, st: St, terms: Seq<Term>, i: int)
        requires
            st.err is Some,
        ensures
            self.accum_from(st, terms, i).err is Some,
        decreases terms.len() - i,
    {
        if 0 <= i < terms.len() {
            let (s, a) = self.cx.local_step(st, terms[i].reg@);
            self.lemma_refused_term(s, a, terms[i].scale);
            self.lemma_refused_accum(self.accum_term(s, a, terms[i].scale), terms, i + 1);
        }
    }

    proof fn lemma_refused_fsr(&self, st: St, z: u32, k: u8, terms: Seq<Term>, off: u8)
        requires
            st.err is Some,
        ensures
            self.fsr_to(st, z, k, terms, off).err is Some,
            self.fsr_indirect(st, z, k, terms, off).err is Some,
    {
        let s = st.check(at(at(z, k), off) <= 0x3F, IselError::DataSpaceRange);
        if terms.len() == 1 && terms[0].scale == 1 {
            let (t, a) = self.cx.local_step(s, terms[0].reg@);
            self.lemma_refused_load(t, a);
        }
        self.lemma_refused_load(s.emit(movlw(0)), self.scratch);
        self.lemma_refused_accum(self.w_store(s.emit(movlw(0)), self.scratch), terms, 0);
        let s = st.check(at(k as u32, off) <= 0x3F, IselError::OffsetRange);
        self.lemma_refused_load(s, z);
        self.lemma_refused_load(s.emit(movlw(0)), self.scratch);
        self.lemma_refused_accum(self.w_store(s.emit(movlw(0)), self.scratch), terms, 0);
        self.lemma_refused_load(self.accum_terms(s, terms), z);
    }

    proof fn lemma_refused_setup(&self, st: St, p: Pointer, off: u8)
        requires
            st.err is Some,
        ensures
            self.setup_pointer(st, p, off).0.err is Some,
    {
        match p.base {
            Base::Global(name) => {
                let (s, flash) = self.cx.flash_step(st, name@);
                let s = s.check(!flash, IselError::StoreToConst);
                let (s, a) = self.cx.global_step(s, name@);
                self.lemma_refused_fsr(s, a, p.k, p.terms@, off);
            },
            Base::Slot(name, indirect) => {
                let (s, a) = self.cx.local_step(st, name@);
                self.lemma_refused_fsr(s, a, p.k, p.terms@, off);
            },
        }
    }

    proof fn lemma_refused_reg(&self, st: St, r: Seq<char>, off: u8)
        requires
            st.err is Some,
        ensures
            self.reg_setup(st, r, off).0.err is Some,
    {
        if let Some(p) = self.cx.pointer(r) {
            self.lemma_refused_setup(st, p, off);
        }
    }

    proof fn lemma_refused_finish(&self, st: St, a: Addr)
        requires
            st.err is Some,
        ensures
            self.finish_store(st, a).err is Some,
    {
        if let Addr::Direct(z) = a {
            self.lemma_refused_bank(st, z);
        }
    }

    proof fn lemma_refused_through(&self, st: St, r: Seq<char>, v: Val, n: u8, k: u8)
        requires
            st.err is Some,
        ensures
            self.store_through(st, r, v, n, k).err is Some,
        decreases n - k,
    {
        if k < n {
            if self.reg_needs_fsr(r) && self.sets_bank(v, k) {
                self.lemma_refused_byte(st, v, k);
                let s = self.load_byte(st, v, k).emit(movwf(self.tmp2));
                self.lemma_refused_reg(s, r, k);
                let (s, a) = self.reg_setup(s, r, k);
                self.lemma_refused_finish(s.emit(movf(self.tmp2)), a);
            } else {
                self.lemma_refused_reg(st, r, k);
                let (s, a) = self.reg_setup(st, r, k);
                self.lemma_refused_byte(s, v, k);
                self.lemma_refused_finish(self.load_byte(s, v, k), a);
            }
            self.lemma_refused_through(
                self.reg_store_byte(st, r, k, v),
                r,
                v,
                n,
                (k + 1) as u8,
            );
        }
    }

    /// A conversion that its name does not fit is refused: a widening one to fewer bytes, a
    /// narrowing one to no fewer, a signed one of a single bit or of a number, and one to a
    /// pointer that changes the width.
    pub proof fn law_conversion_must_fit_its_name(&self, st: St, x: Conv)
        ensures
            x.from.bytes() > x.to.bytes() ==> self.inst(st, Inst::Zext(x)).err is Some,
            x.from.bytes() >= x.to.bytes() ==> self.inst(st, Inst::Sext(x)).err is Some,
            x.from == Ty::I1 || x.val is Const ==> self.inst(st, Inst::Sext(x)).err is Some,
            x.from.bytes() <= x.to.bytes() && x.to != Ty::I1 ==> self.inst(
                st,
                Inst::Trunc(x),
            ).err is Some,
            x.from == Ty::I1 && x.to == Ty::I1 ==> self.inst(st, Inst::Trunc(x)).err is Some,
            x.from != x.to ==> self.inst(st, Inst::IntToPtr(x)).err is Some,
    {
        reveal(Gen::inst);
        let (from, to) = (x.from.bytes(), x.to.bytes());
        if from > to {
            let s = st.check(false, IselError::ZextNarrows);
            let (s, da) = self.cx.local_step(s, x.dst@);
            self.lemma_refused_move(s, x.val, from, da, 0);
            self.lemma_refused_clear(self.move_from(s, x.val, from, da, 0), da, to, from);
        }
        if x.from == Ty::I1 || from >= to || x.val is Const {
            self.lemma_refused_sext(st, x);
        }
        if from <= to && !(x.to == Ty::I1 && x.from != Ty::I1) {
            let s = st.check(false, IselError::TruncWidens);
            let (s, da) = self.cx.local_step(s, x.dst@);
            self.lemma_refused_move(s, x.val, to, da, 0);
            let s = self.move_from(s, x.val, to, da, 0).emit(movlw(1));
            self.lemma_refused_load(s, da);
        }
        if x.from != x.to {
            let s = st.check(false, IselError::IntToPtrWidth);
            let (s, da) = self.cx.local_step(s, x.dst@);
            self.lemma_refused_move(s, x.val, from, da, 0);
        }
    }

    /// A shift by anything but a number is refused, and so is one by a number of bits that
    /// the value does not have; so is every operation on four bytes or on a float, and what
    /// a routine would compute.
    pub proof fn law_operation_must_be_one_of_the_core(&self, st: St, x: Bin)
        ensures
            (x.op == BinOp::Shl || x.op == BinOp::LShr || x.op == BinOp::AShr) && !(x.b is Const)
                ==> self.inst(st, Inst::Bin(x)).err is Some,
            (x.op == BinOp::Shl || x.op == BinOp::LShr || x.op == BinOp::AShr) && (x.b matches Val::Const(
                k,
            ) && (k < 0 || k >= 8 * x.ty.bytes())) ==> self.inst(st, Inst::Bin(x)).err is Some,
            x.ty == Ty::I32 ==> self.inst(st, Inst::Bin(x)).err is Some,
            x.ty == Ty::F32 && x.op != BinOp::Shl && x.op != BinOp::LShr && x.op != BinOp::AShr
                ==> self.inst(st, Inst::Bin(x)).err is Some,
            x.op == BinOp::Mul || x.op == BinOp::UDiv || x.op == BinOp::SDiv || x.op == BinOp::URem
                || x.op == BinOp::SRem ==> self.inst(st, Inst::Bin(x)).err is Some,
    {
        reveal(Gen::inst);
        reveal(Gen::bin);
    }

    /// An instruction on floats is refused, and so is a list of arguments.
    pub proof fn law_float_instruction_is_refused(&self, st: St, i: Inst)
        requires
            i is FloatBin || i is Fcmp || i is FloatConv || i is VaStart || i is VaArg,
        ensures
            self.inst(st, i).err is Some,
    {
        reveal(Gen::inst);
    }

    /// A store through a pointer into a constant in flash is refused, and so are one through
    /// a register that is no pointer, and one to what is spelled as no pointer at all.
    pub proof fn law_store_needs_a_place_in_ram(&self, st: St, x: Store)
        ensures
            x.ptr@.len() > 0 && x.ptr@[0] == '%' && (self.cx.pointer(x.ptr@.skip(1)) matches Some(p)
                && (p.base matches Base::Global(name) && self.cx.in_flash(name@) == Some(true)))
                ==> self.inst(st, Inst::Store(x)).err is Some,
            x.ptr@.len() > 0 && x.ptr@[0] == '%' && self.cx.pointer(x.ptr@.skip(1)) is None
                ==> self.inst(st, Inst::Store(x)).err is Some,
            x.ptr@.len() == 0 || (x.ptr@[0] != '%' && x.ptr@[0] != '@' && x.ptr@[0] != '0')
                ==> self.inst(st, Inst::Store(x)).err is Some,
    {
        reveal(Gen::inst);
        let r = x.ptr@.skip(1);
        let s = self.refuse_const(st, r);
        if s.err is Some {
            self.lemma_refused_through(s, r, x.val, x.ty.bytes(), 0);
        }
    }
}

} // verus!
