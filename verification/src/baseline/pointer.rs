//! Byte accesses through pointers.
use vstd::prelude::*;
use crate::baseline::Gen;
use crate::emit::{at, movf, movlw, movwf, w_op, Emitter, St};
use crate::error::IselError;
use crate::ir::{Base, Pointer, Term, Val};
use crate::line::{Dest, Line, Op, Reg};

verus! {

/// How a byte access through a pointer completes.
#[derive(Clone, Copy, PartialEq, Eq, Structural, Debug)]
pub enum Addr {
    /// The address is known: a plain file register.
    Direct(u32),
    /// FSR holds the address; the access goes through INDF.
    Indirect,
}

/// `MOVWF FSR`.
pub open spec fn to_fsr() -> Line {
    Line::Movwf(Reg::Fsr)
}

impl<'a> Gen<'a> {
    /// A direct access to `base + k + off`, which has to fit six bits.
    pub open spec fn direct(&self, st: St, base: u32, k: u8, off: u8) -> (St, Addr) {
        let a = at(at(base, k), off);
        (st.check(a <= 0x3F, IselError::DataSpaceRange), Addr::Direct(a))
    }

    /// `scale` further additions of slot `a` to the scratch byte.
    pub open spec fn accum_term(&self, st: St, a: u32, scale: u8) -> St
        decreases scale,
    {
        if scale == 0 {
            st
        } else {
            let st = self.acc_w(st, Op::Movf, a).emit(w_op(Op::Addwf, self.scratch));
            self.accum_term(self.w_store(st, self.scratch), a, (scale - 1) as u8)
        }
    }

    pub open spec fn accum_from(&self, st: St, terms: Seq<Term>, i: int) -> St
        decreases terms.len() - i,
    {
        if i < 0 || i >= terms.len() {
            st
        } else {
            let (st, a) = self.cx.local_step(st, terms[i].reg@);
            self.accum_from(self.accum_term(st, a, terms[i].scale), terms, i + 1)
        }
    }

    /// The sum of the scaled terms, in the scratch byte.
    pub open spec fn accum_terms(&self, st: St, terms: Seq<Term>) -> St {
        self.accum_from(self.w_store(st.emit(movlw(0)), self.scratch), terms, 0)
    }

    /// FSR becomes `base + k + off` plus the terms.
    pub open spec fn fsr_to(&self, st: St, base: u32, k: u8, terms: Seq<Term>, off: u8) -> St {
        let sum = at(at(base, k), off);
        let st = st.check(sum <= 0x3F, IselError::DataSpaceRange);
        let lit = (sum & 0x3F) as u8;
        if terms.len() == 1 && terms[0].scale == 1 {
            let (st, a) = self.cx.local_step(st, terms[0].reg@);
            self.acc_w(st, Op::Movf, a).emit(movwf(self.tmp)).emit(movlw(lit)).emit(
                w_op(Op::Addwf, self.tmp),
            ).emit(to_fsr())
        } else {
            self.accum_terms(st, terms).emit(movf(self.scratch)).emit(movlw(lit)).emit(
                w_op(Op::Addwf, self.scratch),
            ).emit(to_fsr())
        }
    }

    /// FSR becomes the address in `slot`, plus `k + off` plus the terms.
    pub open spec fn fsr_indirect(
        &self,
        st: St,
        slot: u32,
        k: u8,
        terms: Seq<Term>,
        off: u8,
    ) -> St {
        let kk = at(k as u32, off);
        let st = st.check(kk <= 0x3F, IselError::OffsetRange);
        let st = if terms.len() == 0 {
            self.acc_w(st, Op::Movf, slot)
        } else {
            self.acc_w(self.accum_terms(st, terms), Op::Movf, slot).emit(
                w_op(Op::Addwf, self.scratch),
            )
        };
        st.emit(movwf(self.tmp)).emit(movlw(kk as u8)).emit(w_op(Op::Addwf, self.tmp)).emit(
            to_fsr(),
        )
    }

    pub open spec fn setup_pointer(&self, st: St, p: Pointer, off: u8) -> (St, Addr) {
        match p.base {
            Base::Global(name) => {
                let (st, flash) = self.cx.flash_step(st, name@);
                let st = st.check(!flash, IselError::StoreToConst);
                let (st, base) = self.cx.global_step(st, name@);
                if p.terms@.len() == 0 {
                    self.direct(st, base, p.k, off)
                } else {
                    (self.fsr_to(st, base, p.k, p.terms@, off), Addr::Indirect)
                }
            },
            Base::Slot(sname, indirect) => {
                let (st, sa) = self.cx.local_step(st, sname@);
                if indirect || self.cx.holds_addr(sname@) {
                    (self.fsr_indirect(st, sa, p.k, p.terms@, off), Addr::Indirect)
                } else if p.terms@.len() == 0 {
                    self.direct(st, sa, p.k, off)
                } else {
                    (self.fsr_to(st, sa, p.k, p.terms@, off), Addr::Indirect)
                }
            },
        }
    }

    /// Whatever the access to byte `off` behind `ptr` needs first, and how
    /// it completes. A constant in flash is refused.
    pub open spec fn ptr_setup(&self, st: St, ptr: Val, off: u8) -> (St, Addr) {
        match ptr {
            Val::Global(name) => {
                let (st, flash) = self.cx.flash_step(st, name@);
                let st = st.check(!flash, IselError::StoreToConst);
                let (st, base) = self.cx.global_step(st, name@);
                self.direct(st, base, 0, off)
            },
            Val::Reg(r) => self.reg_setup(st, r@, off),
            Val::Const(_) => (st.fail(IselError::ConstPointer), Addr::Direct(0)),
        }
    }

    /// The setup for the pointer in register `r`.
    pub open spec fn reg_setup(&self, st: St, r: Seq<char>, off: u8) -> (St, Addr) {
        match self.cx.pointer(r) {
            Some(p) => self.setup_pointer(st, p, off),
            None => (st.fail(IselError::UnresolvedPointer), Addr::Direct(0)),
        }
    }

    /// The refusal of a load from flash through register `r`.
    pub open spec fn refuse_flash(&self, st: St, r: Seq<char>) -> St {
        match self.cx.pointer(r) {
            Some(p) => match p.base {
                Base::Global(name) => {
                    let (st, flash) = self.cx.flash_step(st, name@);
                    st.check(!flash, IselError::ConstTableRead)
                },
                Base::Slot(_, _) => st,
            },
            None => st.fail(IselError::UnresolvedPointer),
        }
    }

    pub open spec fn finish_load(&self, st: St, addr: Addr) -> St {
        match addr {
            Addr::Direct(a) => self.acc_w(st, Op::Movf, a),
            Addr::Indirect => st.emit(Line::Byte(Op::Movf, Reg::Indf, Dest::W)),
        }
    }

    pub open spec fn finish_store(&self, st: St, addr: Addr) -> St {
        match addr {
            Addr::Direct(a) => self.put(st, a),
            Addr::Indirect => st.emit(Line::Movwf(Reg::Indf)),
        }
    }

    /// `W = RAM[r + off]` for the pointer in register `r`.
    pub open spec fn reg_load_byte(&self, st: St, r: Seq<char>, off: u8) -> St {
        let (st, addr) = self.reg_setup(self.refuse_flash(st, r), r, off);
        self.finish_load(st, addr)
    }

    /// `W = RAM[ptr + off]`.
    pub open spec fn ptr_load_byte(&self, st: St, ptr: Val, off: u8) -> St {
        match ptr {
            Val::Reg(r) => self.reg_load_byte(st, r@, off),
            Val::Global(name) => {
                let (st, flash) = self.cx.flash_step(st, name@);
                let st = st.check(!flash, IselError::ConstTableRead);
                let (st, addr) = self.ptr_setup(st, ptr, off);
                self.finish_load(st, addr)
            },
            Val::Const(_) => st.fail(IselError::ConstPointer),
        }
    }

    /// Whether an access through register `r` needs FSR, whose setup clobbers
    /// W.
    pub open spec fn reg_needs_fsr(&self, r: Seq<char>) -> bool {
        match self.cx.pointer(r) {
            Some(p) => match p.base {
                Base::Global(_) => p.terms@.len() > 0,
                Base::Slot(sname, indirect) => indirect || self.cx.holds_addr(sname@)
                    || p.terms@.len() > 0,
            },
            None => false,
        }
    }

    /// Whether the access needs FSR.
    pub open spec fn needs_fsr(&self, ptr: Val) -> bool {
        match ptr {
            Val::Reg(r) => self.reg_needs_fsr(r@),
            _ => false,
        }
    }

    /// `RAM[ptr + off] = W`. A setup that clobbers W runs with the byte
    /// parked in the second staging byte.
    pub open spec fn ptr_store_w(&self, st: St, ptr: Val, off: u8) -> St {
        let parked = self.needs_fsr(ptr);
        let st = if parked {
            st.emit(movwf(self.tmp2))
        } else {
            st
        };
        let (st, addr) = self.ptr_setup(st, ptr, off);
        let st = if parked {
            st.emit(movf(self.tmp2))
        } else {
            st
        };
        self.finish_store(st, addr)
    }

    fn addr_direct(&self, g: &mut Emitter, base: u32, k: u8, off: u8) -> (r: Addr)
        ensures
            (final(g)@, r) == self.direct(old(g)@, base, k, off),
    {
        let a: u32 = at(at(base, k), off);
        g.check(a <= 0x3F, IselError::DataSpaceRange);
        Addr::Direct(a)
    }

    /// Sums the scaled terms into the scratch byte. `ADDWF f, W` consumes W,
    /// so the term is loaded again for each repetition.
    pub fn emit_accum_terms(&self, g: &mut Emitter, terms: &Vec<Term>)
        requires
            self.wf(),
        ensures
            final(g)@ == self.accum_terms(old(g)@, terms@),
    {
        g.emit(movlw(0));
        self.emit_w_store(g, self.scratch);
        let mut i: usize = 0;
        while i < terms.len()
            invariant
                self.wf(),
                i <= terms@.len(),
                self.accum_terms(old(g)@, terms@) == self.accum_from(g@, terms@, i as int),
            decreases terms@.len() - i,
        {
            let ghost entry = g@;
            let a: u32 = self.cx.local_addr(g, terms[i].reg.as_str());
            let ghost here = g@;
            let mut n: u8 = terms[i].scale;
            while n > 0
                invariant
                    self.wf(),
                    self.accum_term(here, a, terms@[i as int].scale) == self.accum_term(g@, a, n),
                decreases n,
            {
                self.emit_acc_w(g, Op::Movf, a);
                g.emit(w_op(Op::Addwf, self.scratch));
                self.emit_w_store(g, self.scratch);
                n -= 1;
            }
            i += 1;
        }
    }

    /// Points FSR at `base + k + off` plus the terms. FSR holds the whole
    /// address, so the bank needs no select of its own.
    pub fn emit_fsr_to(&self, g: &mut Emitter, base: u32, k: u8, terms: &Vec<Term>, off: u8)
        requires
            self.wf(),
        ensures
            final(g)@ == self.fsr_to(old(g)@, base, k, terms@, off),
    {
        let sum: u32 = at(at(base, k), off);
        g.check(sum <= 0x3F, IselError::DataSpaceRange);
        let b: u8 = (sum & 0x3F) as u8;
        if terms.len() == 1 && terms[0].scale == 1 {
            let a: u32 = self.cx.local_addr(g, terms[0].reg.as_str());
            self.emit_acc_w(g, Op::Movf, a);
            g.emit(movwf(self.tmp));
            g.emit(movlw(b));
            g.emit(w_op(Op::Addwf, self.tmp));
        } else {
            self.emit_accum_terms(g, terms);
            g.emit(movf(self.scratch));
            g.emit(movlw(b));
            g.emit(w_op(Op::Addwf, self.scratch));
        }
        g.emit(Line::Movwf(Reg::Fsr));
    }

    /// Points FSR at the address held in `slot`, plus `k + off` and the
    /// terms.
    pub fn emit_fsr_indirect(&self, g: &mut Emitter, slot: u32, k: u8, terms: &Vec<Term>, off: u8)
        requires
            self.wf(),
        ensures
            final(g)@ == self.fsr_indirect(old(g)@, slot, k, terms@, off),
    {
        let kk: u32 = at(k as u32, off);
        g.check(kk <= 0x3F, IselError::OffsetRange);
        if terms.len() == 0 {
            self.emit_acc_w(g, Op::Movf, slot);
        } else {
            self.emit_accum_terms(g, terms);
            self.emit_acc_w(g, Op::Movf, slot);
            g.emit(w_op(Op::Addwf, self.scratch));
        }
        g.emit(movwf(self.tmp));
        g.emit(movlw(kk as u8));
        g.emit(w_op(Op::Addwf, self.tmp));
        g.emit(Line::Movwf(Reg::Fsr));
    }

    /// Prepares a byte access at offset `off` behind register `r`.
    pub fn emit_reg_setup(&self, g: &mut Emitter, r: &str, off: u8) -> (a: Addr)
        requires
            self.wf(),
        ensures
            (final(g)@, a) == self.reg_setup(old(g)@, r@, off),
    {
        match self.cx.find_pointer(r) {
            Some(p) => match &p.base {
                Base::Global(name) => {
                    let flash: bool = self.cx.global_is_const(g, name.as_str());
                    g.check(!flash, IselError::StoreToConst);
                    let base: u32 = self.cx.global_addr(g, name.as_str());
                    if p.terms.len() == 0 {
                        self.addr_direct(g, base, p.k, off)
                    } else {
                        self.emit_fsr_to(g, base, p.k, &p.terms, off);
                        Addr::Indirect
                    }
                },
                Base::Slot(sname, indirect) => {
                    let sa: u32 = self.cx.local_addr(g, sname.as_str());
                    if *indirect || self.cx.param_holds_addr(sname.as_str()) {
                        self.emit_fsr_indirect(g, sa, p.k, &p.terms, off);
                        Addr::Indirect
                    } else if p.terms.len() == 0 {
                        self.addr_direct(g, sa, p.k, off)
                    } else {
                        self.emit_fsr_to(g, sa, p.k, &p.terms, off);
                        Addr::Indirect
                    }
                },
            },
            None => {
                g.fail(IselError::UnresolvedPointer);
                Addr::Direct(0)
            },
        }
    }

    /// Prepares a byte access at `ptr + off`: a plain file register, or FSR
    /// loaded right before the access.
    pub fn emit_ptr_setup(&self, g: &mut Emitter, ptr: &Val, off: u8) -> (r: Addr)
        requires
            self.wf(),
        ensures
            (final(g)@, r) == self.ptr_setup(old(g)@, *ptr, off),
    {
        match ptr {
            Val::Global(name) => {
                let flash: bool = self.cx.global_is_const(g, name.as_str());
                g.check(!flash, IselError::StoreToConst);
                let base: u32 = self.cx.global_addr(g, name.as_str());
                self.addr_direct(g, base, 0, off)
            },
            Val::Reg(r) => self.emit_reg_setup(g, r.as_str(), off),
            Val::Const(_) => {
                g.fail(IselError::ConstPointer);
                Addr::Direct(0)
            },
        }
    }

    fn emit_finish_load(&self, g: &mut Emitter, addr: Addr)
        ensures
            final(g)@ == self.finish_load(old(g)@, addr),
    {
        match addr {
            Addr::Direct(a) => self.emit_acc_w(g, Op::Movf, a),
            Addr::Indirect => g.emit(Line::Byte(Op::Movf, Reg::Indf, Dest::W)),
        }
    }

    pub fn emit_finish_store(&self, g: &mut Emitter, addr: Addr)
        ensures
            final(g)@ == self.finish_store(old(g)@, addr),
    {
        match addr {
            Addr::Direct(a) => self.emit_put(g, a),
            Addr::Indirect => g.emit(Line::Movwf(Reg::Indf)),
        }
    }

    /// `W = RAM[r + off]`. A constant in flash cannot be read this way.
    pub fn emit_reg_load_byte(&self, g: &mut Emitter, r: &str, off: u8)
        requires
            self.wf(),
        ensures
            final(g)@ == self.reg_load_byte(old(g)@, r@, off),
    {
        match self.cx.find_pointer(r) {
            Some(p) => match &p.base {
                Base::Global(name) => {
                    let flash: bool = self.cx.global_is_const(g, name.as_str());
                    g.check(!flash, IselError::ConstTableRead);
                },
                Base::Slot(_, _) => {},
            },
            None => g.fail(IselError::UnresolvedPointer),
        }
        let addr = self.emit_reg_setup(g, r, off);
        self.emit_finish_load(g, addr);
    }

    /// `W = RAM[ptr + off]`.
    pub fn emit_ptr_load_byte(&self, g: &mut Emitter, ptr: &Val, off: u8)
        requires
            self.wf(),
        ensures
            final(g)@ == self.ptr_load_byte(old(g)@, *ptr, off),
    {
        match ptr {
            Val::Reg(r) => self.emit_reg_load_byte(g, r.as_str(), off),
            Val::Global(name) => {
                let flash: bool = self.cx.global_is_const(g, name.as_str());
                g.check(!flash, IselError::ConstTableRead);
                let addr = self.emit_ptr_setup(g, ptr, off);
                self.emit_finish_load(g, addr);
            },
            Val::Const(_) => g.fail(IselError::ConstPointer),
        }
    }

    pub(crate) fn reg_uses_fsr(&self, r: &str) -> (b: bool)
        requires
            self.wf(),
        ensures
            b == self.reg_needs_fsr(r@),
    {
        match self.cx.find_pointer(r) {
            Some(p) => match &p.base {
                Base::Global(_) => p.terms.len() > 0,
                Base::Slot(sname, indirect) => *indirect || self.cx.param_holds_addr(
                    sname.as_str(),
                ) || p.terms.len() > 0,
            },
            None => false,
        }
    }

    fn setup_uses_fsr(&self, ptr: &Val) -> (r: bool)
        requires
            self.wf(),
        ensures
            r == self.needs_fsr(*ptr),
    {
        match ptr {
            Val::Reg(r) => self.reg_uses_fsr(r.as_str()),
            _ => false,
        }
    }

    /// `RAM[ptr + off] = W`.
    pub fn emit_ptr_store_w(&self, g: &mut Emitter, ptr: &Val, off: u8)
        requires
            self.wf(),
        ensures
            final(g)@ == self.ptr_store_w(old(g)@, *ptr, off),
    {
        let parked: bool = self.setup_uses_fsr(ptr);
        if parked {
            g.emit(movwf(self.tmp2));
        }
        let addr = self.emit_ptr_setup(g, ptr, off);
        if parked {
            g.emit(movf(self.tmp2));
        }
        self.emit_finish_store(g, addr);
    }
}

} // verus!
