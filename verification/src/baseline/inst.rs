//! One instruction at a time.
use vstd::prelude::*;
use crate::baseline::Gen;
use crate::ctx::{literal_ptr, parse_literal_ptr};
use crate::emit::{at, Emitter, St};
use crate::error::IselError;
use crate::ir::{Asm, Base, Icmp, Inst, Load, MemLen, Memcpy, Pred, Ret, Select, Store, Val};
use crate::line::{Imm, Line, LitOp, Op};
use crate::shape::{cond_of, is_signed, needs_z};
use crate::text::{lines_of, split_lines, strip_char};

verus! {

impl<'a> Gen<'a> {
    /// Bytes `k..n` of RAM at `src` into the slot at `dst`. The source is
    /// read every time, the slot is tracked.
    pub open spec fn load_from(&self, st: St, src: u32, dst: u32, n: u8, k: u8) -> St
        decreases n - k,
    {
        if k >= n {
            st
        } else {
            let st = self.w_store(self.acc_w(st, Op::Movf, at(src, k)), at(dst, k));
            self.load_from(st, src, dst, n, (k + 1) as u8)
        }
    }

    pub open spec fn load_through(&self, st: St, r: Seq<char>, dst: u32, n: u8, k: u8) -> St
        decreases n - k,
    {
        if k >= n {
            st
        } else {
            let st = self.w_store(self.reg_load_byte(st, r, k), at(dst, k));
            self.load_through(st, r, dst, n, (k + 1) as u8)
        }
    }

    pub open spec fn load(&self, st: St, x: Load) -> St {
        let (st, dst) = self.cx.local_step(st, x.dst@);
        let ptr = x.ptr@;
        if ptr.len() > 0 && ptr[0] == '@' {
            let (st, src) = self.cx.global_step(st, ptr.skip(1));
            self.load_from(st, src, dst, x.ty.bytes(), 0)
        } else if ptr.len() > 1 && ptr[0] == '0' && ptr[1] == 'x' {
            match literal_ptr(ptr) {
                Some(a) => self.load_from(st, a as u32, dst, x.ty.bytes(), 0),
                None => st.fail(IselError::MalformedLiteralPointer),
            }
        } else if ptr.len() > 0 && ptr[0] == '%' {
            self.load_through(st, ptr.skip(1), dst, x.ty.bytes(), 0)
        } else {
            st.fail(IselError::MalformedPointer)
        }
    }

    /// Bytes `k..n` of `val` to RAM at `base`, untracked.
    pub open spec fn store_to(&self, st: St, val: Val, base: u32, n: u8, k: u8) -> St
        decreases n - k,
    {
        if k >= n {
            st
        } else {
            let st = self.put(self.load_byte(st, val, k), at(base, k));
            self.store_to(st, val, base, n, (k + 1) as u8)
        }
    }

    pub open spec fn store_through(&self, st: St, r: Seq<char>, val: Val, n: u8, k: u8) -> St
        decreases n - k,
    {
        if k >= n {
            st
        } else {
            self.store_through(self.reg_store_byte(st, r, k, val), r, val, n, (k + 1) as u8)
        }
    }

    /// The refusal of a store to flash through register `r`.
    pub open spec fn refuse_const(&self, st: St, r: Seq<char>) -> St {
        match self.cx.pointer(r) {
            Some(p) => match p.base {
                Base::Global(name) => {
                    let (st, flash) = self.cx.flash_step(st, name@);
                    st.check(!flash, IselError::StoreToConst)
                },
                Base::Slot(_, _) => st,
            },
            None => st.fail(IselError::UnresolvedPointer),
        }
    }

    pub open spec fn store(&self, st: St, x: Store) -> St {
        let ptr = x.ptr@;
        if ptr.len() > 0 && ptr[0] == '@' {
            let (st, dst) = self.cx.global_step(st, ptr.skip(1));
            self.move_val(st, x.val, x.ty, dst)
        } else if ptr.len() > 1 && ptr[0] == '0' && ptr[1] == 'x' {
            match literal_ptr(ptr) {
                Some(a) => self.store_to(st, x.val, a as u32, x.ty.bytes(), 0),
                None => st.fail(IselError::MalformedLiteralPointer),
            }
        } else if ptr.len() > 0 && ptr[0] == '%' {
            let st = self.refuse_const(st, ptr.skip(1));
            self.store_through(st, ptr.skip(1), x.val, x.ty.bytes(), 0)
        } else {
            st.fail(IselError::MalformedPointer)
        }
    }

    pub open spec fn copy_from(&self, st: St, dst: Val, src: Val, n: u8, i: u8) -> St
        decreases n - i,
    {
        if i >= n {
            st
        } else {
            let st = self.ptr_store_w(self.ptr_load_byte(st, src, i), dst, i);
            self.copy_from(st, dst, src, n, (i + 1) as u8)
        }
    }

    pub open spec fn memcpy(&self, st: St, x: Memcpy) -> St {
        match x.len {
            MemLen::Const(n) => self.copy_from(st, x.dst, x.src, n, 0),
            MemLen::Reg(_) => st.fail(IselError::DynamicMemcpy),
        }
    }

    pub open spec fn icmp(&self, st: St, x: Icmp) -> St {
        let (st, da) = self.cx.local_step(st, x.dst@);
        let st = match x.pred {
            Pred::Eq | Pred::Ne => self.equal(st, x.a, x.b, x.ty),
            _ => {
                let st = self.compare(st, x.a, x.b, x.ty, is_signed(x.pred));
                if needs_z(x.pred) && x.ty.bytes() > 1 {
                    self.equal(st, x.a, x.b, x.ty)
                } else {
                    st
                }
            },
        };
        self.materialize(st, cond_of(x.pred), da)
    }

    /// A select. One between pointers that was folded away emits nothing.
    pub open spec fn select_inst(&self, st: St, x: Select) -> St {
        if x.ptr && !(x.a is Const && x.b is Const) && !self.cx.seeded(x.dst@) {
            st
        } else {
            self.choose_val(st, x.dst@, x.cond, x.ty, x.a, x.b)
        }
    }

    /// The lines of an assembly template.
    pub open spec fn asm_lines(&self, st: St, x: Asm) -> St {
        match self.cx.subst(x.template@, x.operands@) {
            Ok(t) => st.emit_texts(split_lines(t), 0),
            Err(e) => st.fail(e),
        }
    }

    /// One instruction that does not end its block.
    #[verifier::opaque]
    pub open spec fn inst(&self, st: St, i: Inst) -> St {
        match i {
            Inst::Load(x) => self.load(st, x),
            Inst::Store(x) => self.store(st, x),
            Inst::Gep(_) => st,
            Inst::Alloca(_) => st,
            Inst::Memcpy(x) => self.memcpy(st, x),
            Inst::Bin(x) => self.bin(st, x),
            Inst::Freeze(x) => {
                let (st, da) = self.cx.local_step(st, x.dst@);
                self.move_val(st, x.val, x.ty, da)
            },
            Inst::Zext(x) => self.zext(st, x),
            Inst::IntToPtr(x) => self.inttoptr(st, x),
            Inst::Sext(x) => self.sext(st, x),
            Inst::Trunc(x) => self.trunc(st, x),
            Inst::Icmp(x) => self.icmp(st, x),
            Inst::Select(x) => self.select_inst(st, x),
            Inst::Call(x) => self.call(st, x.dst, x.ty, x.func@, x.args@, x.callees@),
            Inst::VaStart(_) => st.fail(IselError::Variadic),
            Inst::VaArg(_) => st.fail(IselError::Variadic),
            Inst::Asm(x) => self.asm_lines(st.emit(Line::AsmStart), x).emit(Line::AsmEnd),
            Inst::FloatBin(_) | Inst::Fcmp(_) | Inst::FloatConv(_) => st.fail(
                IselError::FloatInstruction,
            ),
            _ => st.fail(IselError::UnsupportedInstruction),
        }
    }

    /// A return: the value into the result bytes, then `RETLW 0`.
    pub open spec fn ret(&self, st: St, x: Ret) -> St {
        let st = match x.val {
            Some(v) => self.move_from(st, v.1, v.0.bytes(), self.retval, 0),
            None => st,
        };
        st.emit(Line::Lit(LitOp::Retlw, Imm::Byte(0)))
    }

    fn emit_load_from(&self, g: &mut Emitter, src: u32, dst: u32, n: u8)
        ensures
            final(g)@ == self.load_from(old(g)@, src, dst, n, 0),
    {
        let mut k: u8 = 0;
        while k < n
            invariant
                self.load_from(old(g)@, src, dst, n, 0) == self.load_from(g@, src, dst, n, k),
            decreases n - k,
        {
            self.emit_acc_w(g, Op::Movf, at(src, k));
            self.emit_w_store(g, at(dst, k));
            k += 1;
        }
    }

    fn emit_load(&self, g: &mut Emitter, x: &Load)
        requires
            self.wf(),
        ensures
            final(g)@ == self.load(old(g)@, *x),
    {
        let dst: u32 = self.cx.local_addr(g, x.dst.as_str());
        let n: u8 = x.ty.bytes();
        let ptr = x.ptr.as_str();
        if let Some(name) = strip_char(ptr, '@') {
            let src: u32 = self.cx.global_addr(g, name);
            self.emit_load_from(g, src, dst, n);
        } else if ptr.unicode_len() > 1 && ptr.get_char(0) == '0' && ptr.get_char(1) == 'x' {
            match parse_literal_ptr(ptr) {
                Some(a) => self.emit_load_from(g, a as u32, dst, n),
                None => g.fail(IselError::MalformedLiteralPointer),
            }
        } else if let Some(r) = strip_char(ptr, '%') {
            let ghost start = g@;
            let mut k: u8 = 0;
            while k < n
                invariant
                    self.wf(),
                    self.load_through(start, r@, dst, n, 0) == self.load_through(
                        g@,
                        r@,
                        dst,
                        n,
                        k,
                    ),
                decreases n - k,
            {
                self.emit_reg_load_byte(g, r, k);
                self.emit_w_store(g, at(dst, k));
                k += 1;
            }
        } else {
            g.fail(IselError::MalformedPointer);
        }
    }

    fn emit_store(&self, g: &mut Emitter, x: &Store)
        requires
            self.wf(),
        ensures
            final(g)@ == self.store(old(g)@, *x),
    {
        let n: u8 = x.ty.bytes();
        let ptr = x.ptr.as_str();
        if let Some(name) = strip_char(ptr, '@') {
            let dst: u32 = self.cx.global_addr(g, name);
            self.emit_move_val_to_slot(g, &x.val, x.ty, dst);
        } else if ptr.unicode_len() > 1 && ptr.get_char(0) == '0' && ptr.get_char(1) == 'x' {
            match parse_literal_ptr(ptr) {
                Some(a) => {
                    let base: u32 = a as u32;
                    let ghost start = g@;
                    let mut k: u8 = 0;
                    while k < n
                        invariant
                            self.wf(),
                            self.store_to(start, x.val, base, n, 0) == self.store_to(
                                g@,
                                x.val,
                                base,
                                n,
                                k,
                            ),
                        decreases n - k,
                    {
                        self.emit_load_byte(g, &x.val, k);
                        self.emit_put(g, at(base, k));
                        k += 1;
                    }
                },
                None => g.fail(IselError::MalformedLiteralPointer),
            }
        } else if let Some(r) = strip_char(ptr, '%') {
            match self.cx.find_pointer(r) {
                Some(p) => match &p.base {
                    Base::Global(name) => {
                        let flash: bool = self.cx.global_is_const(g, name.as_str());
                        g.check(!flash, IselError::StoreToConst);
                    },
                    Base::Slot(_, _) => {},
                },
                None => g.fail(IselError::UnresolvedPointer),
            }
            let ghost start = g@;
            let mut k: u8 = 0;
            while k < n
                invariant
                    self.wf(),
                    self.store_through(start, r@, x.val, n, 0) == self.store_through(
                        g@,
                        r@,
                        x.val,
                        n,
                        k,
                    ),
                decreases n - k,
            {
                self.emit_ptr_store_byte(g, r, k, &x.val);
                k += 1;
            }
        } else {
            g.fail(IselError::MalformedPointer);
        }
    }

    fn emit_memcpy(&self, g: &mut Emitter, x: &Memcpy)
        requires
            self.wf(),
        ensures
            final(g)@ == self.memcpy(old(g)@, *x),
    {
        match &x.len {
            MemLen::Const(n) => {
                let mut i: u8 = 0;
                while i < *n
                    invariant
                        self.wf(),
                        self.copy_from(old(g)@, x.dst, x.src, *n, 0) == self.copy_from(
                            g@,
                            x.dst,
                            x.src,
                            *n,
                            i,
                        ),
                    decreases *n - i,
                {
                    self.emit_ptr_load_byte(g, &x.src, i);
                    self.emit_ptr_store_w(g, &x.dst, i);
                    i += 1;
                }
            },
            MemLen::Reg(_) => g.fail(IselError::DynamicMemcpy),
        }
    }

    fn emit_icmp(&self, g: &mut Emitter, x: &Icmp)
        requires
            self.wf(),
        ensures
            final(g)@ == self.icmp(old(g)@, *x),
    {
        let da: u32 = self.cx.local_addr(g, x.dst.as_str());
        match x.pred {
            Pred::Eq | Pred::Ne => self.emit_cmp_eq(g, &x.a, &x.b, x.ty),
            _ => {
                self.emit_cmp_c(g, &x.a, &x.b, x.ty, is_signed(x.pred));
                if needs_z(x.pred) && x.ty.bytes() > 1 {
                    self.emit_cmp_eq(g, &x.a, &x.b, x.ty);
                }
            },
        }
        self.emit_materialize(g, cond_of(x.pred), da);
    }

    /// The lines of an assembly template, its operands filled in.
    pub fn emit_asm_lines(&self, g: &mut Emitter, x: &Asm)
        requires
            self.wf(),
        ensures
            final(g)@ == self.asm_lines(old(g)@, *x),
    {
        match self.cx.substitute_asm(x.template.as_str(), &x.operands) {
            Ok(t) => g.emit_texts(&lines_of(t.as_str())),
            Err(e) => g.fail(e),
        }
    }

    /// Lowers one instruction that does not end its block.
    pub fn emit_inst(&self, g: &mut Emitter, i: &Inst)
        requires
            self.wf(),
        ensures
            final(g)@ == self.inst(old(g)@, *i),
    {
        reveal(Gen::inst);
        match i {
            Inst::Load(x) => self.emit_load(g, x),
            Inst::Store(x) => self.emit_store(g, x),
            Inst::Gep(_) => {},
            Inst::Alloca(_) => {},
            Inst::Memcpy(x) => self.emit_memcpy(g, x),
            Inst::Bin(x) => self.emit_bin(g, x),
            Inst::Freeze(x) => {
                let da: u32 = self.cx.local_addr(g, x.dst.as_str());
                self.emit_move_val_to_slot(g, &x.val, x.ty, da);
            },
            Inst::Zext(x) => self.emit_zext(g, x),
            Inst::IntToPtr(x) => self.emit_inttoptr(g, x),
            Inst::Sext(x) => self.emit_sext(g, x),
            Inst::Trunc(x) => self.emit_trunc(g, x),
            Inst::Icmp(x) => self.emit_icmp(g, x),
            Inst::Select(x) => {
                let consts: bool = matches!(&x.a, Val::Const(_)) && matches!(&x.b, Val::Const(_));
                if x.ptr && !consts && !self.cx.select_is_seeded(x.dst.as_str()) {
                    // Folded away: its uses read the folded pointer.
                } else {
                    self.emit_select(g, x.dst.as_str(), &x.cond, x.ty, &x.a, &x.b);
                }
            },
            Inst::Call(x) => self.emit_call(g, &x.dst, x.ty, x.func.as_str(), &x.args, &x.callees),
            Inst::VaStart(_) => g.fail(IselError::Variadic),
            Inst::VaArg(_) => g.fail(IselError::Variadic),
            Inst::Asm(x) => {
                g.emit(Line::AsmStart);
                self.emit_asm_lines(g, x);
                g.emit(Line::AsmEnd);
            },
            Inst::FloatBin(_) | Inst::Fcmp(_) | Inst::FloatConv(_) => g.fail(
                IselError::FloatInstruction,
            ),
            _ => g.fail(IselError::UnsupportedInstruction),
        }
    }

    /// Lowers a return. There is no plain return: `RETLW` overwrites W, so a
    /// value leaves through the fixed result bytes.
    pub fn emit_ret(&self, g: &mut Emitter, x: &Ret)
        requires
            self.wf(),
        ensures
            final(g)@ == self.ret(old(g)@, *x),
    {
        if let Some(v) = &x.val {
            let n: u8 = v.0.bytes();
            self.emit_move_bytes(g, &v.1, n, self.retval);
        }
        g.emit(Line::Lit(LitOp::Retlw, Imm::Byte(0)));
    }
}

} // verus!
