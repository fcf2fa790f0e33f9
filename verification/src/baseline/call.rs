//! Calls: arguments, the call itself, the result.
use vstd::prelude::*;
use crate::baseline::Gen;
use crate::delay::{count32, delay, emit_delay};
use crate::emit::{at, goto_tmp, label_tmp, movf, movlw, note_z, Emitter, St};
use crate::error::IselError;
use crate::ir::{Base, CallArg, Param, Pointer, Ty, Val};
use crate::line::{BitOp, Imm, Line, LitOp, Op, Sym};
use crate::names::{find_func, func_index};
use crate::text::same;

verus! {

impl<'a> Gen<'a> {
    /// W, then zero, into the two-byte slot at `pa`.
    pub open spec fn close_addr(&self, st: St, pa: u32) -> St {
        self.w_store(self.w_store(st, pa).emit(movlw(0)), at(pa, 1))
    }

    pub open spec fn add_offset(&self, st: St, k: u8) -> St {
        if k != 0 {
            self.add_w_lit(st, k)
        } else {
            st
        }
    }

    /// The address literal `a`, which has to fit six bits.
    pub open spec fn put_known(&self, st: St, a: u32, pa: u32) -> St {
        self.put_addr(
            st.check(a <= 0x3F, IselError::DataSpaceRange),
            Imm::Byte((a & 0x3F) as u8),
            pa,
        )
    }

    /// The address held in slot `sa`, plus the pointer's offset and term.
    pub open spec fn put_runtime(&self, st: St, p: Pointer, sa: u32, pa: u32) -> St {
        if p.terms@.len() == 0 {
            self.close_addr(self.add_offset(self.w_load(st, sa), p.k), pa)
        } else if p.terms@.len() == 1 && p.terms@[0].scale == 1 {
            let (st, ra) = self.cx.local_step(st, p.terms@[0].reg@);
            let st = self.acc_w(self.w_load(st, sa), Op::Addwf, ra);
            self.close_addr(self.add_offset(st, p.k), pa)
        } else {
            st.fail(IselError::TooManyTerms)
        }
    }

    pub open spec fn pointer_arg(&self, st: St, p: Pointer, pa: u32) -> St {
        match p.base {
            Base::Global(name) => {
                let (st, base) = self.cx.global_step(st, name@);
                if p.terms@.len() == 0 {
                    self.put_known(st, at(base, p.k), pa)
                } else if p.terms@.len() == 1 && p.terms@[0].scale == 1 {
                    let (st, ra) = self.cx.local_step(st, p.terms@[0].reg@);
                    let st = self.acc_w(st.emit(movlw((base & 0x3F) as u8)), Op::Addwf, ra);
                    self.close_addr(self.add_offset(st, p.k), pa)
                } else {
                    st.fail(IselError::TooManyTerms)
                }
            },
            Base::Slot(sname, indirect) => {
                let (st, sa) = self.cx.local_step(st, sname@);
                if indirect || self.cx.holds_addr(sname@) {
                    self.put_runtime(st, p, sa, pa)
                } else {
                    self.put_known(st, sa, pa)
                }
            },
        }
    }

    /// A pointer argument into the parameter slot at `pa`.
    pub open spec fn ptr_arg(&self, st: St, val: Val, pa: u32) -> St {
        match val {
            Val::Global(n) => if self.cx.is_func(n@) {
                self.put_addr(st, Imm::Low(Sym::Func(self.cx.func_no(n@))), pa)
            } else {
                let (st, flash) = self.cx.flash_step(st, n@);
                let st = st.check(!flash, IselError::ConstTooLarge);
                let (st, a) = self.cx.global_step(st, n@);
                self.put_known(st, a, pa)
            },
            Val::Const(c) => {
                let st = st.check(c == 0, IselError::NonNullConstPointer);
                self.clear(self.clear(st, pa), at(pa, 1))
            },
            Val::Reg(r) => match self.cx.pointer(r@) {
                None => {
                    let (st, sa) = self.cx.local_step(st, r@);
                    self.close_addr(self.w_load(st, sa), pa)
                },
                Some(p) => self.pointer_arg(st, p, pa),
            },
        }
    }

    /// Bytes `b..size` behind `val` into the struct copy at `pa`.
    pub open spec fn byval_from(&self, st: St, val: Val, size: u8, pa: u32, b: u8) -> St
        decreases size - b,
    {
        if b >= size {
            st
        } else {
            let st = self.w_store(self.ptr_load_byte(st, val, b), at(pa, b));
            self.byval_from(st, val, size, pa, (b + 1) as u8)
        }
    }

    /// The address of the object a result pointer names.
    pub open spec fn sret_target(&self, st: St, val: Val) -> (St, u32) {
        match val {
            Val::Global(n) => self.cx.global_step(st, n@),
            Val::Reg(r) => match self.cx.pointer(r@) {
                Some(p) => {
                    let st = st.check(p.k == 0 && p.terms@.len() == 0, IselError::SretTarget);
                    match p.base {
                        Base::Global(name) => self.cx.global_step(st, name@),
                        Base::Slot(sname, false) => self.cx.local_step(st, sname@),
                        Base::Slot(_, true) => (st.fail(IselError::SretTarget), 0),
                    }
                },
                None => (st.fail(IselError::UnresolvedPointer), 0),
            },
            Val::Const(_) => (st.fail(IselError::SretTarget), 0),
        }
    }

    /// Argument `arg` for parameter `p` of function `func`.
    pub open spec fn arg_step(&self, st: St, func: Seq<char>, p: Param, arg: CallArg) -> St {
        let (st, pa) = self.cx.slot_step(st, func, p.name@);
        match arg.byval {
            Some(size) => self.byval_from(
                st.check(p.byval == Some(size), IselError::ByvalMismatch),
                arg.val,
                size,
                pa,
                0,
            ),
            None => if arg.sret {
                let (st, a) = self.sret_target(
                    st.check(p.sret, IselError::SretMismatch),
                    arg.val,
                );
                self.put_known(st, a, pa)
            } else {
                match arg.ty {
                    None => self.ptr_arg(
                        st.check(p.width == 2, IselError::PointerParamWidth),
                        arg.val,
                        pa,
                    ),
                    Some(t) => self.move_val(st, arg.val, t, pa).check(
                        t.bytes() >= p.width,
                        IselError::NarrowArgument,
                    ),
                }
            },
        }
    }

    pub open spec fn args_from(
        &self,
        st: St,
        func: Seq<char>,
        params: Seq<Param>,
        args: Seq<CallArg>,
        i: int,
    ) -> St
        decreases args.len() - i,
    {
        if i < 0 || i >= args.len() {
            st
        } else if i >= params.len() {
            st.fail(IselError::Variadic)
        } else {
            self.args_from(self.arg_step(st, func, params[i], args[i]), func, params, args, i + 1)
        }
    }

    /// Every argument into the slots of the function it is passed to.
    pub open spec fn call_args(&self, st: St, func: Seq<char>, args: Seq<CallArg>) -> St {
        match func_index(self.cx.m, func) {
            Some(f) => self.args_from(st, func, self.cx.m.funcs@[f as int].params@, args, 0),
            None => st.fail(IselError::UnknownFunction),
        }
    }

    pub open spec fn result_from(&self, st: St, da: u32, n: u8, i: u8) -> St
        decreases n - i,
    {
        if i >= n {
            st
        } else {
            let st = self.bank(st, at(self.retval, i)).emit(movf(at(self.retval, i)));
            self.result_from(self.w_store(st, at(da, i)), da, n, (i + 1) as u8)
        }
    }

    /// The result bytes into the slot of `dst`.
    pub open spec fn take_result(&self, st: St, dst: Option<String>, ty: Option<Ty>) -> St {
        match dst {
            Some(d) => match ty {
                Some(t) => {
                    let (st, da) = self.cx.local_step(st, d@);
                    self.result_from(st, da, t.bytes(), 0)
                },
                None => st.fail(IselError::UntypedCall),
            },
            None => st,
        }
    }

    /// A jump to itself.
    pub open spec fn trap(&self, st: St) -> St {
        let l = st.next;
        st.bump().emit(label_tmp(l)).emit(goto_tmp(l))
    }

    /// The built-in delay, for a constant count.
    pub open spec fn delay_call(&self, st: St, args: Seq<CallArg>) -> St {
        if args.len() == 1 {
            match args[0].val {
                Val::Const(k) => delay(st, count32(k), self.retval),
                _ => st.fail(IselError::DelayCount),
            }
        } else {
            st.fail(IselError::DelayCount)
        }
    }

    /// The comparisons and calls for the candidates from `i` on.
    pub open spec fn candidates_from(
        &self,
        st: St,
        fp: u32,
        l_done: u32,
        args: Seq<CallArg>,
        callees: Seq<String>,
        i: int,
    ) -> St
        decreases callees.len() - i,
    {
        if i < 0 || i >= callees.len() {
            st
        } else {
            let f = Sym::Func(self.cx.func_no(callees[i]@));
            let l_next = st.next;
            let st = self.acc_w(st.bump(), Op::Movf, fp).emit(
                Line::Lit(LitOp::Xorlw, Imm::Low(f)),
            ).emit(note_z(BitOp::Btfss)).emit(goto_tmp(l_next));
            let st = self.acc_w(st, Op::Movf, at(fp, 1)).emit(
                Line::Lit(LitOp::Xorlw, Imm::High(f)),
            ).emit(note_z(BitOp::Btfss)).emit(goto_tmp(l_next));
            let st = self.call_args(st, callees[i]@, args).emit(Line::Call(f)).emit(
                goto_tmp(l_done),
            ).emit(label_tmp(l_next));
            self.candidates_from(st, fp, l_done, args, callees, i + 1)
        }
    }

    /// A call through the function pointer in register `func`.
    pub open spec fn indirect_call(
        &self,
        st: St,
        dst: Option<String>,
        ty: Option<Ty>,
        func: Seq<char>,
        args: Seq<CallArg>,
        callees: Seq<String>,
    ) -> St {
        let (st, fp) = self.cx.local_step(st, func);
        let l_done = st.next;
        let st = self.candidates_from(st.bump(), fp, l_done, args, callees, 0);
        self.take_result(self.trap(st).emit(label_tmp(l_done)), dst, ty)
    }

    #[verifier::opaque]
    pub open spec fn call(
        &self,
        st: St,
        dst: Option<String>,
        ty: Option<Ty>,
        func: Seq<char>,
        args: Seq<CallArg>,
        callees: Seq<String>,
    ) -> St {
        if callees.len() > 0 {
            self.indirect_call(st, dst, ty, func, args, callees)
        } else if !self.cx.is_func(func) {
            if func == "_delay"@ {
                self.delay_call(st, args)
            } else {
                self.trap(st)
            }
        } else {
            let st = self.call_args(st, func, args).emit(
                Line::Call(Sym::Func(self.cx.func_no(func))),
            );
            self.take_result(st, dst, ty)
        }
    }

    fn emit_close_addr(&self, g: &mut Emitter, pa: u32)
        ensures
            final(g)@ == self.close_addr(old(g)@, pa),
    {
        self.emit_w_store(g, pa);
        g.emit(movlw(0));
        self.emit_w_store(g, at(pa, 1));
    }

    fn emit_add_offset(&self, g: &mut Emitter, k: u8)
        ensures
            final(g)@ == self.add_offset(old(g)@, k),
    {
        if k != 0 {
            self.emit_add_w_lit(g, k);
        }
    }

    fn emit_put_known(&self, g: &mut Emitter, a: u32, pa: u32)
        ensures
            final(g)@ == self.put_known(old(g)@, a, pa),
    {
        g.check(a <= 0x3F, IselError::DataSpaceRange);
        self.emit_put_addr(g, Imm::Byte((a & 0x3F) as u8), pa);
    }

    fn emit_put_runtime(&self, g: &mut Emitter, p: &Pointer, sa: u32, pa: u32)
        requires
            self.wf(),
        ensures
            final(g)@ == self.put_runtime(old(g)@, *p, sa, pa),
    {
        if p.terms.len() == 0 {
            self.emit_w_load(g, sa);
            self.emit_add_offset(g, p.k);
            self.emit_close_addr(g, pa);
        } else if p.terms.len() == 1 && p.terms[0].scale == 1 {
            let ra: u32 = self.cx.local_addr(g, p.terms[0].reg.as_str());
            self.emit_w_load(g, sa);
            self.emit_acc_w(g, Op::Addwf, ra);
            self.emit_add_offset(g, p.k);
            self.emit_close_addr(g, pa);
        } else {
            g.fail(IselError::TooManyTerms);
        }
    }

    fn emit_pointer_arg(&self, g: &mut Emitter, p: &Pointer, pa: u32)
        requires
            self.wf(),
        ensures
            final(g)@ == self.pointer_arg(old(g)@, *p, pa),
    {
        match &p.base {
            Base::Global(name) => {
                let base: u32 = self.cx.global_addr(g, name.as_str());
                if p.terms.len() == 0 {
                    self.emit_put_known(g, at(base, p.k), pa);
                } else if p.terms.len() == 1 && p.terms[0].scale == 1 {
                    let ra: u32 = self.cx.local_addr(g, p.terms[0].reg.as_str());
                    g.emit(movlw((base & 0x3F) as u8));
                    self.emit_acc_w(g, Op::Addwf, ra);
                    self.emit_add_offset(g, p.k);
                    self.emit_close_addr(g, pa);
                } else {
                    g.fail(IselError::TooManyTerms);
                }
            },
            Base::Slot(sname, indirect) => {
                let sa: u32 = self.cx.local_addr(g, sname.as_str());
                if *indirect || self.cx.param_holds_addr(sname.as_str()) {
                    self.emit_put_runtime(g, p, sa, pa);
                } else {
                    // The slot is the object: its address is known.
                    self.emit_put_known(g, sa, pa);
                }
            },
        }
    }

    fn emit_ptr_arg(&self, g: &mut Emitter, val: &Val, pa: u32)
        requires
            self.wf(),
        ensures
            final(g)@ == self.ptr_arg(old(g)@, *val, pa),
    {
        match val {
            Val::Global(n) => {
                if self.cx.is_function(n.as_str()) {
                    let f: usize = self.cx.func_number(n.as_str());
                    self.emit_put_addr(g, Imm::Low(Sym::Func(f)), pa);
                } else {
                    let flash: bool = self.cx.global_is_const(g, n.as_str());
                    g.check(!flash, IselError::ConstTooLarge);
                    let a: u32 = self.cx.global_addr(g, n.as_str());
                    self.emit_put_known(g, a, pa);
                }
            },
            Val::Const(c) => {
                g.check(*c == 0, IselError::NonNullConstPointer);
                self.emit_clear(g, pa);
                self.emit_clear(g, at(pa, 1));
            },
            Val::Reg(r) => match self.cx.find_pointer(r.as_str()) {
                None => {
                    let sa: u32 = self.cx.local_addr(g, r.as_str());
                    self.emit_w_load(g, sa);
                    self.emit_close_addr(g, pa);
                },
                Some(p) => self.emit_pointer_arg(g, p, pa),
            },
        }
    }

    fn emit_sret_target(&self, g: &mut Emitter, val: &Val) -> (r: u32)
        requires
            self.wf(),
        ensures
            (final(g)@, r) == self.sret_target(old(g)@, *val),
    {
        match val {
            Val::Global(n) => self.cx.global_addr(g, n.as_str()),
            Val::Reg(r) => match self.cx.find_pointer(r.as_str()) {
                Some(p) => {
                    g.check(p.k == 0 && p.terms.len() == 0, IselError::SretTarget);
                    match &p.base {
                        Base::Global(name) => self.cx.global_addr(g, name.as_str()),
                        Base::Slot(sname, false) => self.cx.local_addr(g, sname.as_str()),
                        Base::Slot(_, true) => {
                            g.fail(IselError::SretTarget);
                            0
                        },
                    }
                },
                None => {
                    g.fail(IselError::UnresolvedPointer);
                    0
                },
            },
            Val::Const(_) => {
                g.fail(IselError::SretTarget);
                0
            },
        }
    }

    fn emit_arg(&self, g: &mut Emitter, func: &str, p: &Param, arg: &CallArg)
        requires
            self.wf(),
        ensures
            final(g)@ == self.arg_step(old(g)@, func@, *p, *arg),
    {
        let pa: u32 = self.cx.slot_addr(g, func, p.name.as_str());
        if let Some(size) = arg.byval {
            g.check(p.byval == Some(size), IselError::ByvalMismatch);
            let ghost start = g@;
            let mut b: u8 = 0;
            while b < size
                invariant
                    self.wf(),
                    self.byval_from(start, arg.val, size, pa, 0) == self.byval_from(
                        g@,
                        arg.val,
                        size,
                        pa,
                        b,
                    ),
                decreases size - b,
            {
                self.emit_ptr_load_byte(g, &arg.val, b);
                self.emit_w_store(g, at(pa, b));
                b += 1;
            }
        } else if arg.sret {
            g.check(p.sret, IselError::SretMismatch);
            let a: u32 = self.emit_sret_target(g, &arg.val);
            self.emit_put_known(g, a, pa);
        } else {
            match arg.ty {
                None => {
                    g.check(p.width == 2, IselError::PointerParamWidth);
                    self.emit_ptr_arg(g, &arg.val, pa);
                },
                Some(t) => {
                    self.emit_move_val_to_slot(g, &arg.val, t, pa);
                    g.check(t.bytes() >= p.width, IselError::NarrowArgument);
                },
            }
        }
    }

    /// Copies each argument into the slots of the function called. Pointers
    /// travel as one address byte and a zero.
    pub fn emit_call_args(&self, g: &mut Emitter, func: &str, args: &Vec<CallArg>)
        requires
            self.wf(),
        ensures
            final(g)@ == self.call_args(old(g)@, func@, args@),
    {
        let f: usize = match find_func(self.cx.m, func) {
            Some(f) => f,
            None => {
                g.fail(IselError::UnknownFunction);
                return;
            },
        };
        let params = &self.cx.m.funcs[f].params;
        let mut i: usize = 0;
        while i < args.len()
            invariant
                self.wf(),
                i <= args@.len(),
                self.call_args(old(g)@, func@, args@) == self.args_from(
                    g@,
                    func@,
                    params@,
                    args@,
                    i as int,
                ),
            decreases args@.len() - i,
        {
            if i >= params.len() {
                g.fail(IselError::Variadic);
                return;
            }
            self.emit_arg(g, func, &params[i], &args[i]);
            i += 1;
        }
    }

    fn emit_result(&self, g: &mut Emitter, dst: &Option<String>, ty: Option<Ty>)
        requires
            self.wf(),
        ensures
            final(g)@ == self.take_result(old(g)@, *dst, ty),
    {
        if let Some(d) = dst {
            let t = match ty {
                Some(t) => t,
                None => {
                    g.fail(IselError::UntypedCall);
                    return;
                },
            };
            let da: u32 = self.cx.local_addr(g, d.as_str());
            let n: u8 = t.bytes();
            let ghost start = g@;
            let mut i: u8 = 0;
            while i < n
                invariant
                    self.result_from(start, da, n, 0) == self.result_from(g@, da, n, i),
                decreases n - i,
            {
                self.emit_bank_select(g, at(self.retval, i));
                g.emit(movf(at(self.retval, i)));
                self.emit_w_store(g, at(da, i));
                i += 1;
            }
        }
    }

    fn emit_trap(&self, g: &mut Emitter)
        ensures
            final(g)@ == self.trap(old(g)@),
    {
        let l: u32 = g.fresh_label();
        g.emit(label_tmp(l));
        g.emit(goto_tmp(l));
    }

    fn emit_delay_call(&self, g: &mut Emitter, args: &Vec<CallArg>)
        ensures
            final(g)@ == self.delay_call(old(g)@, args@),
    {
        if args.len() == 1 {
            if let Val::Const(k) = &args[0].val {
                emit_delay(g, count32(*k), self.retval);
                return;
            }
        }
        g.fail(IselError::DelayCount);
    }

    /// Calls through a function pointer: the candidates are compared in
    /// turn, the one that matches is called. A pointer that matches none
    /// ends in a trap.
    pub fn emit_indirect_call(
        &self,
        g: &mut Emitter,
        dst: &Option<String>,
        ty: Option<Ty>,
        func: &str,
        args: &Vec<CallArg>,
        callees: &Vec<String>,
    )
        requires
            self.wf(),
        ensures
            final(g)@ == self.indirect_call(old(g)@, *dst, ty, func@, args@, callees@),
    {
        let fp: u32 = self.cx.local_addr(g, func);
        let l_done: u32 = g.fresh_label();
        let ghost start = g@;
        let mut i: usize = 0;
        while i < callees.len()
            invariant
                self.wf(),
                i <= callees@.len(),
                self.candidates_from(start, fp, l_done, args@, callees@, 0)
                    == self.candidates_from(g@, fp, l_done, args@, callees@, i as int),
            decreases callees@.len() - i,
        {
            let cand = callees[i].as_str();
            let f = Sym::Func(self.cx.func_number(cand));
            let l_next: u32 = g.fresh_label();
            self.emit_acc_w(g, Op::Movf, fp);
            g.emit(Line::Lit(LitOp::Xorlw, Imm::Low(f)));
            g.emit(note_z(BitOp::Btfss));
            g.emit(goto_tmp(l_next));
            self.emit_acc_w(g, Op::Movf, at(fp, 1));
            g.emit(Line::Lit(LitOp::Xorlw, Imm::High(f)));
            g.emit(note_z(BitOp::Btfss));
            g.emit(goto_tmp(l_next));
            self.emit_call_args(g, cand, args);
            g.emit(Line::Call(f));
            g.emit(goto_tmp(l_done));
            g.emit(label_tmp(l_next));
            i += 1;
        }
        self.emit_trap(g);
        g.emit(label_tmp(l_done));
        self.emit_result(g, dst, ty);
    }

    /// Lowers a call. A function the module lacks is the built-in delay or
    /// traps.
    pub fn emit_call(
        &self,
        g: &mut Emitter,
        dst: &Option<String>,
        ty: Option<Ty>,
        func: &str,
        args: &Vec<CallArg>,
        callees: &Vec<String>,
    )
        requires
            self.wf(),
        ensures
            final(g)@ == self.call(old(g)@, *dst, ty, func@, args@, callees@),
    {
        reveal(Gen::call);
        if callees.len() > 0 {
            self.emit_indirect_call(g, dst, ty, func, args, callees);
        } else if !self.cx.is_function(func) {
            if same(func, "_delay") {
                self.emit_delay_call(g, args);
            } else {
                self.emit_trap(g);
            }
        } else {
            self.emit_call_args(g, func, args);
            let f: usize = self.cx.func_number(func);
            g.emit(Line::Call(Sym::Func(f)));
            self.emit_result(g, dst, ty);
        }
    }
}

} // verus!
