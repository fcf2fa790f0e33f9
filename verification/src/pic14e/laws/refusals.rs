//! What is refused.
use vstd::prelude::*;
use crate::body::Lower;
use crate::emit::{
    at, clrf, goto_tmp, hi8, label_tmp, lo8, movf, movlw, movwf, ram_bit, w_op, St,
};
use crate::error::IselError;
use crate::ir::{Base, Bin, BinOp, Conv, Func, Inst, Pointer, Ret, Store, Term, Ty, Val};
use crate::line::{BitOp, Line, Op, Reg};
use crate::pic14e::pointer::offset_of;
use crate::pic14e::value::addr_byte;
use crate::pic14e::Gen;

verus! {

impl<'a> Gen<'a> {
    proof fn lemma_refused_terms(&self, st: St, n: nat, a: u32, b: u32, i: u8)
        requires
            st.err is Some,
        ensures
            self.add_terms(st, n, a, b, i).err is Some,
    {
    }

    proof fn lemma_refused_held(&self, st: St, a: u32, k: u8, i: u8)
        requires
            st.err is Some,
        ensures
            self.held_byte(st, a, k, i).err is Some,
    {
    }

    proof fn lemma_refused_pointer(&self, st: St, p: Pointer, i: u8)
        requires
            st.err is Some,
        ensures
            self.pointer_byte(st, p, i).err is Some,
    {
        match p.base {
            Base::Global(name) => {
                let (s, v) = self.value_step(st, name@, p.k);
                assert(s.err is Some);
                let (s, a, b) = self.term_slots(s, p.terms@);
                assert(s.err is Some);
                self.lemma_refused_terms(
                    s.emit(movlw(addr_byte(v, i))),
                    p.terms@.len(),
                    a,
                    b,
                    i,
                );
            },
            Base::Slot(name, indirect) => {
                let s = st.check(
                    indirect || self.cx.holds_addr(name@),
                    IselError::SlotAddressValue,
                );
                let (s, at) = self.cx.local_step(s, name@);
                let s = s.check(p.k == 0 || p.terms@.len() == 0, IselError::OffsetWithTerms);
                assert(s.err is Some);
                let (s, a, b) = self.term_slots(s, p.terms@);
                assert(s.err is Some);
                self.lemma_refused_held(s, at, p.k, i);
                self.lemma_refused_terms(
                    self.held_byte(s, at, p.k, i),
                    p.terms@.len(),
                    a,
                    b,
                    i,
                );
            },
        }
    }

    proof fn lemma_refused_byte(&self, st: St, v: Val, i: u8)
        requires
            st.err is Some,
        ensures
            self.load_byte(st, v, i).err is Some,
    {
        if let Val::Reg(r) = v {
            if let Some(p) = self.cx.pointer(r@) {
                self.lemma_refused_pointer(st, p, i);
            }
        }
    }

    proof fn lemma_refused_store(&self, st: St, v: Val, n: u8, a: u32, i: u8)
        requires
            st.err is Some,
        ensures
            self.store_to(st, v, n, a, i).err is Some,
        decreases n - i,
    {
        if i < n {
            self.lemma_refused_byte(st, v, i);
            let s = self.load_byte(st, v, i).emit(movwf(at(a, i)));
            self.lemma_refused_store(s, v, n, a, (i + 1) as u8);
        }
    }

    proof fn lemma_refused_clear(&self, st: St, a: u32, n: u8, i: u8)
        requires
            st.err is Some,
        ensures
            self.clear_from(st, a, n, i).err is Some,
        decreases n - i,
    {
        if i < n {
            let s = st.emit(clrf(at(a, i)));
            self.lemma_refused_clear(s, a, n, (i + 1) as u8);
        }
    }

    proof fn lemma_refused_fill(&self, st: St, a: u32, n: u8, i: u8)
        requires
            st.err is Some,
        ensures
            self.fill_from(st, a, n, i).err is Some,
        decreases n - i,
    {
        if i < n {
            let s = st.emit(movwf(at(a, i)));
            self.lemma_refused_fill(s, a, n, (i + 1) as u8);
        }
    }

    proof fn lemma_refused_term(&self, st: St, a: u32, scale: u8)
        requires
            st.err is Some,
        ensures
            self.accum_term(st, a, scale).err is Some,
        decreases scale,
    {
        if scale > 0 {
            let s = st.emit(movf(a)).emit(w_op(Op::Addwf, self.scratch)).emit(
                movwf(self.scratch),
            );
            self.lemma_refused_term(s, a, (scale - 1) as u8);
        }
    }

    proof fn lemma_refused_accum(&self, st: St, terms: Seq<Term>, i: int)
        requires
            st.err is Some,
        ensures
            self.accum_from(st, terms, i).err is Some,
        decreases terms.len() - i,
    {
        if 0 <= i < terms.len() {
            let (s, a) = self.cx.local_step(st, terms[i].reg@);
            self.lemma_refused_term(s, a, terms[i].scale);
            self.lemma_refused_accum(self.accum_term(s, a, terms[i].scale), terms, i + 1);
        }
    }

    proof fn lemma_refused_offset(&self, st: St, kk: u8, terms: Seq<Term>)
        requires
            st.err is Some,
        ensures
            self.offset_w(st, kk, terms).err is Some,
    {
        self.lemma_refused_accum(st.emit(movlw(0)).emit(movwf(self.scratch)), terms, 0);
    }

    proof fn lemma_refused_fsr(&self, st: St, a: u32, k: u8, terms: Seq<Term>, off: u8, n: u16)
        requires
            st.err is Some,
        ensures
            self.fsr_to(st, a, k, terms, off, n).err is Some,
            self.fsr_indirect(st, a, k, terms, off).err is Some,
    {
        let kk = offset_of(k, off);
        let (s, from) = self.base_step(st, a, n);
        let s = s.check(kk <= 0xFF, IselError::OffsetRange).emit(movlw(lo8(from))).emit(
            Line::Movwf(Reg::Fsr0L),
        ).emit(movlw(hi8(from))).emit(Line::Movwf(Reg::Fsr0H));
        self.lemma_refused_offset(s, lo8(kk), terms);
        let s = st.check(kk <= 0xFF, IselError::OffsetRange).emit(movf(a)).emit(
            Line::Movwf(Reg::Fsr0L),
        ).emit(movf(at(a, 1))).emit(Line::Movwf(Reg::Fsr0H));
        self.lemma_refused_offset(s, lo8(kk), terms);
    }

    proof fn lemma_refused_object(&self, st: St, a: u32, k: u8, terms: Seq<Term>, off: u8, n: u16)
        requires
            st.err is Some,
        ensures
            self.object_setup(st, a, k, terms, off, n).0.err is Some,
    {
        let (s, _) = self.straddle_step(st, a, n);
        self.lemma_refused_fsr(s, a, k, terms, off, n);
    }

    proof fn lemma_refused_setup(&self, st: St, p: Pointer, off: u8)
        requires
            st.err is Some,
        ensures
            self.setup_pointer(st, p, off).0.err is Some,
    {
        match p.base {
            Base::Global(name) => {
                let (s, flash) = self.cx.flash_step(st, name@);
                let s = s.check(!flash, IselError::StoreToConst);
                let (s, n) = self.cx.size_step(s, name@);
                let (s, a) = self.cx.global_step(s, name@);
                self.lemma_refused_object(s, a, p.k, p.terms@, off, n);
            },
            Base::Slot(name, indirect) => {
                let (s, a) = self.cx.local_step(st, name@);
                self.lemma_refused_fsr(s, a, p.k, p.terms@, off, 0);
                let (s, n) = self.span_step(s, p.base);
                self.lemma_refused_object(s, a, p.k, p.terms@, off, n);
            },
        }
    }

    proof fn lemma_refused_through(&self, st: St, r: Seq<char>, v: Val, n: u8, k: u8)
        requires
            st.err is Some,
        ensures
            self.store_through(st, r, v, n, k).err is Some,
        decreases n - k,
    {
        if k < n {
            if let Some(p) = self.cx.pointer(r) {
                self.lemma_refused_setup(st, p, k);
            }
            let (s, a) = self.reg_setup(st, r, k);
            assert(s.err is Some);
            self.lemma_refused_byte(s, v, k);
            assert(self.reg_store_byte(st, r, k, v).err is Some);
            self.lemma_refused_through(
                self.reg_store_byte(st, r, k, v),
                r,
                v,
                n,
                (k + 1) as u8,
            );
        }
    }

    /// A conversion that its name does not fit is refused: a widening one to fewer bytes, a
    /// narrowing one to no fewer, a signed one of a single bit or of a number, and one to a
    /// pointer that changes the width.
    pub proof fn law_conversion_must_fit_its_name(&self, st: St, x: Conv)
        ensures
            x.from.bytes() > x.to.bytes() ==> self.inst(st, Inst::Zext(x)).err is Some,
            x.from.bytes() >= x.to.bytes() ==> self.inst(st, Inst::Sext(x)).err is Some,
            x.from == Ty::I1 || x.val is Const ==> self.inst(st, Inst::Sext(x)).err is Some,
            x.from.bytes() <= x.to.bytes() && x.to != Ty::I1 ==> self.inst(
                st,
                Inst::Trunc(x),
            ).err is Some,
            x.from == Ty::I1 && x.to == Ty::I1 ==> self.inst(st, Inst::Trunc(x)).err is Some,
            x.from != x.to ==> self.inst(st, Inst::IntToPtr(x)).err is Some,
    {
        reveal(Gen::inst);
        let (from, to) = (x.from.bytes(), x.to.bytes());
        if from > to {
            let s = st.check(false, IselError::ZextNarrows);
            let (s, da) = self.cx.local_step(s, x.dst@);
            self.lemma_refused_store(s, x.val, from, da, 0);
            self.lemma_refused_clear(self.store_to(s, x.val, from, da, 0), da, to, from);
        }
        if x.from == Ty::I1 || from >= to || x.val is Const {
            let s = st.check(
                x.from != Ty::I1 && from < to,
                IselError::SextWidth,
            ).check(!(x.val is Const), IselError::SextConst);
            let (s, da) = self.cx.local_step(s, x.dst@);
            self.lemma_refused_store(s, x.val, from, da, 0);
            let s = self.store_to(s, x.val, from, da, 0);
            let (s, a) = self.cx.val_step(s, x.val);
            let hi = at(a, (from - 1) as u8);
            let l_pos = s.next;
            let s = s.bump();
            let l_fill = s.next;
            let s = s.bump().emit(ram_bit(BitOp::Btfss, hi, 7)).emit(
                goto_tmp(l_pos),
            ).emit(movlw(0xFF)).emit(goto_tmp(l_fill)).emit(
                label_tmp(l_pos),
            ).emit(movlw(0)).emit(label_tmp(l_fill));
            self.lemma_refused_fill(s, da, to, from);
        }
        if from <= to && !(x.to == Ty::I1 && x.from != Ty::I1) {
            let s = st.check(false, IselError::TruncWidens);
            let (s, da) = self.cx.local_step(s, x.dst@);
            self.lemma_refused_store(s, x.val, to, da, 0);
        }
        if x.from != x.to {
            let s = st.check(false, IselError::IntToPtrWidth);
            let (s, da) = self.cx.local_step(s, x.dst@);
            self.lemma_refused_store(s, x.val, from, da, 0);
        }
    }

    /// A shift by anything but a number is refused, and so is one by a number of bits that
    /// the value does not have; a single bit is not added to; and what a routine computes
    /// is no instruction.
    pub proof fn law_operation_must_be_one_of_the_core(&self, st: St, x: Bin)
        ensures
            (x.op == BinOp::Shl || x.op == BinOp::LShr || x.op == BinOp::AShr) && !(x.b is Const)
                ==> self.inst(st, Inst::Bin(x)).err is Some,
            (x.op == BinOp::Shl || x.op == BinOp::LShr || x.op == BinOp::AShr) && (x.b matches Val::Const(
                k,
            ) && (k < 0 || k >= 8 * x.ty.bytes())) ==> self.inst(st, Inst::Bin(x)).err is Some,
            (x.op == BinOp::Add || x.op == BinOp::Sub) && (x.ty == Ty::I1 || x.ty == Ty::F32)
                ==> self.inst(st, Inst::Bin(x)).err is Some,
            x.op == BinOp::Mul || x.op == BinOp::UDiv || x.op == BinOp::SDiv || x.op == BinOp::URem
                || x.op == BinOp::SRem ==> self.inst(st, Inst::Bin(x)).err is Some,
    {
        reveal(Gen::inst);
        reveal(Gen::bin);
    }

    /// An instruction on floats is refused: a routine computes it.
    pub proof fn law_float_instruction_is_refused(&self, st: St, i: Inst)
        requires
            i is FloatBin || i is Fcmp || i is FloatConv,
        ensures
            self.inst(st, i).err is Some,
    {
        reveal(Gen::inst);
    }

    /// A handler has nothing to return to: a value that it would return is refused.
    pub proof fn law_handler_returns_no_value(&self, st: St, f: Func, x: Ret)
        requires
            f.isr,
            x.val is Some,
        ensures
            self.ret_step(st, f, x).err is Some,
    {
    }

    /// A store through a pointer into a constant in flash is refused, and so are one through
    /// a register that is no pointer, and one to what is spelled as no pointer at all.
    pub proof fn law_store_needs_a_place_in_ram(&self, st: St, x: Store)
        ensures
            x.ptr@.len() > 0 && x.ptr@[0] == '%' && (self.cx.pointer(x.ptr@.skip(1)) matches Some(p)
                && (p.base matches Base::Global(name) && self.cx.in_flash(name@) == Some(true)))
                ==> self.inst(st, Inst::Store(x)).err is Some,
            x.ptr@.len() > 0 && x.ptr@[0] == '%' && self.cx.pointer(x.ptr@.skip(1)) is None
                ==> self.inst(st, Inst::Store(x)).err is Some,
            x.ptr@.len() == 0 || (x.ptr@[0] != '%' && x.ptr@[0] != '@' && x.ptr@[0] != '0')
                ==> self.inst(st, Inst::Store(x)).err is Some,
    {
        reveal(Gen::inst);
        let r = x.ptr@.skip(1);
        let s = self.refuse_const(st, r);
        if s.err is Some {
            self.lemma_refused_through(s, r, x.val, x.ty.bytes(), 0);
        }
    }
}

} // verus!
