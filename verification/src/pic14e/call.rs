//! Calls: arguments, the call itself, the result.
use vstd::prelude::*;
use crate::delay::{count32, delay, emit_delay};
use crate::emit::{
    at, clrf, goto_tmp, hi8, label_tmp, lo8, movf, movlw, movwf, note_z, ram_bit, w_op, Emitter, St,
};
use crate::error::IselError;
use crate::ir::{Base, CallArg, Param, Pointer, Ty, Val};
use crate::line::{BitOp, Imm, Line, LitOp, Op, Sym};
use crate::names::{find_func, func_index};
use crate::pic14e::Gen;
use crate::text::same;

verus! {

impl<'a> Gen<'a> {
    /// The address held at `sa` plus `k` into the two bytes at `pa`.
    pub open spec fn put_held(&self, st: St, sa: u32, k: u8, pa: u32) -> St {
        if k == 0 {
            self.copy2(st, sa, pa)
        } else {
            let st = self.add_offset(st.emit(movf(sa)), k).emit(movwf(pa)).emit(movf(at(sa, 1)));
            self.add_carry(st).emit(movwf(at(pa, 1)))
        }
    }

    /// W plus the term at `ra` plus `k`, the low byte of an address, into the
    /// byte at `pa`. The carry is that of the last addition.
    pub open spec fn put_low(&self, st: St, ra: u32, k: u8, pa: u32) -> St {
        self.add_offset(st.emit(w_op(Op::Addwf, ra)), k).emit(movwf(pa))
    }

    /// W plus the high byte of the term at `ra` plus the carry, the high byte
    /// of an address, into the byte above `pa`.
    pub open spec fn put_high(&self, st: St, ra: u32, pa: u32) -> St {
        self.add_carry(st).emit(w_op(Op::Addwf, at(ra, 1))).emit(movwf(at(pa, 1)))
    }

    /// The address `v` plus the term at `ra` plus `k` into the two bytes at `pa`.
    pub open spec fn put_indexed(&self, st: St, v: u32, ra: u32, k: u8, pa: u32) -> St {
        let st = self.put_low(st.emit(movlw(lo8(v))), ra, k, pa);
        self.put_high(st.emit(movlw(hi8(v))), ra, pa)
    }

    /// The address held at `sa` plus the term at `ra` plus `k` into the two
    /// bytes at `pa`.
    pub open spec fn put_held_indexed(&self, st: St, sa: u32, ra: u32, k: u8, pa: u32) -> St {
        let st = self.put_low(st.emit(movf(sa)), ra, k, pa);
        self.put_high(st.emit(movf(at(sa, 1))), ra, pa)
    }

    /// A folded pointer into the two bytes at `pa`. One into a local that is an
    /// object itself is passed as the address of the local.
    pub open spec fn pointer_arg(&self, st: St, p: Pointer, pa: u32) -> St {
        let one = p.terms@.len() == 1 && p.terms@[0].scale == 1;
        match p.base {
            Base::Global(name) => if p.terms@.len() == 0 {
                self.put_global(st, name@, p.k, pa)
            } else if one {
                let (st, v) = self.value_step(st, name@, 0);
                let (st, ra) = self.cx.local_step(st, p.terms@[0].reg@);
                self.put_indexed(st, v, ra, p.k, pa)
            } else {
                st.fail(IselError::TooManyTerms)
            },
            Base::Slot(sname, indirect) => {
                let (st, sa) = self.cx.local_step(st, sname@);
                if !indirect && !self.cx.holds_addr(sname@) {
                    self.put_addr(st, sa, pa)
                } else if p.terms@.len() == 0 {
                    self.put_held(st, sa, p.k, pa)
                } else if one {
                    let (st, ra) = self.cx.local_step(st, p.terms@[0].reg@);
                    self.put_held_indexed(st, sa, ra, p.k, pa)
                } else {
                    st.fail(IselError::TooManyTerms)
                }
            },
        }
    }

    /// A pointer argument into the parameter slot at `pa`.
    pub open spec fn ptr_arg(&self, st: St, val: Val, pa: u32) -> St {
        match val {
            Val::Global(n) => if self.cx.is_func(n@) {
                self.put_func(st, n@, pa)
            } else {
                let (st, flash) = self.cx.flash_step(st, n@);
                self.put_global(st.check(!flash, IselError::ConstTooLarge), n@, 0, pa)
            },
            Val::Const(c) => st.check(c == 0, IselError::NonNullConstPointer).emit(clrf(pa)).emit(
                clrf(at(pa, 1)),
            ),
            Val::Reg(r) => match self.cx.pointer(r@) {
                None => {
                    let (st, sa) = self.cx.local_step(st, r@);
                    self.copy2(st, sa, pa)
                },
                Some(p) => self.pointer_arg(st, p, pa),
            },
        }
    }

    /// Bytes `b..size` behind `val` into the struct copy at `pa`.
    pub open spec fn byval_from(&self, st: St, val: Val, size: u8, pa: u32, b: u8) -> St
        decreases size - b,
    {
        if b >= size {
            st
        } else {
            let st = self.ptr_load_byte(st, val, b).emit(movwf(at(pa, b)));
            self.byval_from(st, val, size, pa, (b + 1) as u8)
        }
    }

    /// The address of the object a result pointer names. The object lies in
    /// one bank.
    pub open spec fn sret_target(&self, st: St, val: Val) -> (St, u32) {
        match val {
            Val::Global(n) => {
                let (st, a) = self.cx.global_step(st, n@);
                let (st, span) = self.cx.size_step(st, n@);
                self.in_one_bank(st, a, span)
            },
            Val::Reg(r) => match self.cx.pointer(r@) {
                Some(p) => {
                    let st = st.check(p.k == 0 && p.terms@.len() == 0, IselError::SretTarget);
                    match p.base {
                        Base::Global(name) => {
                            let (st, a) = self.cx.global_step(st, name@);
                            let (st, span) = self.span_step(st, p.base);
                            self.in_one_bank(st, a, span)
                        },
                        Base::Slot(sname, false) => {
                            let (st, a) = self.cx.local_step(st, sname@);
                            let (st, span) = self.span_step(st, p.base);
                            self.in_one_bank(st, a, span)
                        },
                        Base::Slot(_, true) => (st.fail(IselError::SretTarget), 0),
                    }
                },
                None => (st.fail(IselError::UnresolvedPointer), 0),
            },
            Val::Const(_) => (st.fail(IselError::SretTarget), 0),
        }
    }

    pub open spec fn in_one_bank(&self, st: St, a: u32, span: u16) -> (St, u32) {
        let (st, crosses) = self.straddle_step(st, a, span);
        (st.check(!crosses, IselError::SretStraddles), a)
    }

    /// The bytes from `n` on of a four-byte conversion source at `pa`: zero
    /// for an unsigned source, the sign for a signed one.
    pub open spec fn widen(&self, st: St, func: Seq<char>, pa: u32, n: u8) -> St {
        if func == "__uitofp_f32"@ {
            self.clear_from(st, pa, 4, n)
        } else if func == "__sitofp_f32"@ {
            let sign = at(pa, (n - 1) as u8);
            let st = st.emit(movlw(0)).emit(ram_bit(BitOp::Btfsc, sign, 7)).emit(movlw(0xFF));
            self.fill_from(st, pa, 4, n)
        } else {
            st.fail(IselError::NarrowArgument)
        }
    }

    /// A scalar argument into the parameter slot at `pa`.
    pub open spec fn scalar_arg(&self, st: St, func: Seq<char>, p: Param, val: Val, t: Ty, pa: u32) -> St {
        let st = self.move_val(st, val, t, pa);
        if t.bytes() < p.width {
            self.widen(st.check(p.width == 4, IselError::NarrowArgument), func, pa, t.bytes())
        } else {
            st
        }
    }

    /// Argument `arg` for parameter `p` of function `func`.
    pub open spec fn arg_step(&self, st: St, func: Seq<char>, p: Param, arg: CallArg) -> St {
        let (st, pa) = self.cx.slot_step(st, func, p.name@);
        match arg.byval {
            Some(size) => self.byval_from(
                st.check(p.byval == Some(size), IselError::ByvalMismatch),
                arg.val,
                size,
                pa,
                0,
            ),
            None => if arg.sret {
                let (st, a) = self.sret_target(
                    st.check(p.sret, IselError::SretMismatch),
                    arg.val,
                );
                self.put_addr(st, a, pa)
            } else {
                match arg.ty {
                    None => self.ptr_arg(
                        st.check(p.width == 2, IselError::PointerParamWidth),
                        arg.val,
                        pa,
                    ),
                    Some(t) => self.scalar_arg(st, func, p, arg.val, t, pa),
                }
            },
        }
    }

    /// A variadic argument into the region of `func`, `off` bytes in; the
    /// offset after it.
    pub open spec fn extra_step(&self, st: St, func: Seq<char>, arg: CallArg, off: u32) -> (St, u32) {
        match self.cx.slot(func, "__va"@) {
            None => (st.fail(IselError::Variadic), off),
            Some(va) => match arg.ty {
                None => (st.fail(IselError::UntypedVariadic), off),
                Some(t) => {
                    let st = st.check(
                        (va & 0xFF) + off + t.bytes() <= 0x100,
                        IselError::VariadicOverflow,
                    );
                    (
                        self.move_val(st, arg.val, t, va.wrapping_add(off)),
                        off.wrapping_add(t.bytes() as u32),
                    )
                },
            },
        }
    }

    pub open spec fn args_from(
        &self,
        st: St,
        func: Seq<char>,
        params: Seq<Param>,
        args: Seq<CallArg>,
        off: u32,
        i: int,
    ) -> St
        decreases args.len() - i,
    {
        if i < 0 || i >= args.len() {
            st
        } else if i >= params.len() {
            let (st, off) = self.extra_step(st, func, args[i], off);
            self.args_from(st, func, params, args, off, i + 1)
        } else {
            self.args_from(
                self.arg_step(st, func, params[i], args[i]),
                func,
                params,
                args,
                off,
                i + 1,
            )
        }
    }

    /// Every argument into the slots of the function it is passed to.
    pub open spec fn call_args(&self, st: St, func: Seq<char>, args: Seq<CallArg>) -> St {
        match func_index(self.cx.m, func) {
            Some(f) => self.args_from(st, func, self.cx.m.funcs@[f as int].params@, args, 0, 0),
            None => st.fail(IselError::UnknownFunction),
        }
    }

    pub open spec fn result_from(&self, st: St, da: u32, n: u8, i: u8) -> St
        decreases n - i,
    {
        if i >= n {
            st
        } else {
            let st = st.emit(movf(at(self.retval, i))).emit(movwf(at(da, i)));
            self.result_from(st, da, n, (i + 1) as u8)
        }
    }

    /// The result bytes into the slot of `dst`.
    pub open spec fn take_result(&self, st: St, dst: Option<String>, ty: Option<Ty>) -> St {
        match dst {
            Some(d) => match ty {
                Some(t) => {
                    let (st, da) = self.cx.local_step(st, d@);
                    self.result_from(st, da, t.bytes(), 0)
                },
                None => st.fail(IselError::UntypedCall),
            },
            None => st,
        }
    }

    /// A jump to itself.
    pub open spec fn trap(&self, st: St) -> St {
        let l = st.next;
        st.bump().emit(label_tmp(l)).emit(goto_tmp(l))
    }

    /// The built-in delay, for a constant count.
    pub open spec fn delay_call(&self, st: St, args: Seq<CallArg>) -> St {
        if args.len() == 1 {
            match args[0].val {
                Val::Const(k) => delay(st, count32(k), self.retval),
                _ => st.fail(IselError::DelayCount),
            }
        } else {
            st.fail(IselError::DelayCount)
        }
    }

    /// The comparisons and calls for the candidates from `i` on.
    pub open spec fn candidates_from(
        &self,
        st: St,
        fp: u32,
        l_done: u32,
        args: Seq<CallArg>,
        callees: Seq<String>,
        i: int,
    ) -> St
        decreases callees.len() - i,
    {
        if i < 0 || i >= callees.len() {
            st
        } else {
            let f = Sym::Func(self.cx.func_no(callees[i]@));
            let l_next = st.next;
            let st = st.bump().emit(movf(fp)).emit(Line::Lit(LitOp::Xorlw, Imm::Low(f))).emit(
                note_z(BitOp::Btfss),
            ).emit(goto_tmp(l_next)).emit(movf(at(fp, 1))).emit(
                Line::Lit(LitOp::Xorlw, Imm::High(f)),
            ).emit(note_z(BitOp::Btfss)).emit(goto_tmp(l_next));
            let st = self.far_call(self.call_args(st, callees[i]@, args), f).emit(
                goto_tmp(l_done),
            ).emit(label_tmp(l_next));
            self.candidates_from(st, fp, l_done, args, callees, i + 1)
        }
    }

    /// A call through the function pointer in register `func`.
    pub open spec fn indirect_call(
        &self,
        st: St,
        dst: Option<String>,
        ty: Option<Ty>,
        func: Seq<char>,
        args: Seq<CallArg>,
        callees: Seq<String>,
    ) -> St {
        let (st, fp) = self.cx.local_step(st, func);
        let l_done = st.next;
        let st = self.candidates_from(st.bump(), fp, l_done, args, callees, 0);
        self.take_result(self.trap(st).emit(label_tmp(l_done)), dst, ty)
    }

    #[verifier::opaque]
    pub open spec fn call(
        &self,
        st: St,
        dst: Option<String>,
        ty: Option<Ty>,
        func: Seq<char>,
        args: Seq<CallArg>,
        callees: Seq<String>,
    ) -> St {
        if callees.len() > 0 {
            self.indirect_call(st, dst, ty, func, args, callees)
        } else if !self.cx.is_func(func) {
            if func == "_delay"@ {
                self.delay_call(st, args)
            } else {
                self.trap(st)
            }
        } else {
            let f = Sym::Func(self.cx.func_no(func));
            self.take_result(self.far_call(self.call_args(st, func, args), f), dst, ty)
        }
    }

    fn emit_put_held(&self, g: &mut Emitter, sa: u32, k: u8, pa: u32)
        ensures
            final(g)@ == self.put_held(old(g)@, sa, k, pa),
    {
        if k == 0 {
            self.emit_copy2(g, sa, pa);
        } else {
            g.emit(movf(sa));
            self.emit_add_offset(g, k);
            g.emit(movwf(pa));
            g.emit(movf(at(sa, 1)));
            self.emit_add_carry(g);
            g.emit(movwf(at(pa, 1)));
        }
    }

    fn emit_put_low(&self, g: &mut Emitter, ra: u32, k: u8, pa: u32)
        ensures
            final(g)@ == self.put_low(old(g)@, ra, k, pa),
    {
        g.emit(w_op(Op::Addwf, ra));
        self.emit_add_offset(g, k);
        g.emit(movwf(pa));
    }

    fn emit_put_high(&self, g: &mut Emitter, ra: u32, pa: u32)
        ensures
            final(g)@ == self.put_high(old(g)@, ra, pa),
    {
        self.emit_add_carry(g);
        g.emit(w_op(Op::Addwf, at(ra, 1)));
        g.emit(movwf(at(pa, 1)));
    }

    fn emit_put_indexed(&self, g: &mut Emitter, v: u32, ra: u32, k: u8, pa: u32)
        ensures
            final(g)@ == self.put_indexed(old(g)@, v, ra, k, pa),
    {
        g.emit(movlw(lo8(v)));
        self.emit_put_low(g, ra, k, pa);
        g.emit(movlw(hi8(v)));
        self.emit_put_high(g, ra, pa);
    }

    fn emit_put_held_indexed(&self, g: &mut Emitter, sa: u32, ra: u32, k: u8, pa: u32)
        ensures
            final(g)@ == self.put_held_indexed(old(g)@, sa, ra, k, pa),
    {
        g.emit(movf(sa));
        self.emit_put_low(g, ra, k, pa);
        g.emit(movf(at(sa, 1)));
        self.emit_put_high(g, ra, pa);
    }

    fn emit_pointer_arg(&self, g: &mut Emitter, p: &Pointer, pa: u32)
        requires
            self.wf(),
        ensures
            final(g)@ == self.pointer_arg(old(g)@, *p, pa),
    {
        let one: bool = p.terms.len() == 1 && p.terms[0].scale == 1;
        match &p.base {
            Base::Global(name) => {
                if p.terms.len() == 0 {
                    self.emit_put_global(g, name.as_str(), p.k, pa);
                } else if one {
                    let v: u32 = self.ptr_value_addr(g, name.as_str(), 0);
                    let ra: u32 = self.cx.local_addr(g, p.terms[0].reg.as_str());
                    self.emit_put_indexed(g, v, ra, p.k, pa);
                } else {
                    g.fail(IselError::TooManyTerms);
                }
            },
            Base::Slot(sname, indirect) => {
                let sa: u32 = self.cx.local_addr(g, sname.as_str());
                if !*indirect && !self.cx.param_holds_addr(sname.as_str()) {
                    // The slot is the object: its address is known.
                    self.emit_put_addr(g, sa, pa);
                } else if p.terms.len() == 0 {
                    self.emit_put_held(g, sa, p.k, pa);
                } else if one {
                    let ra: u32 = self.cx.local_addr(g, p.terms[0].reg.as_str());
                    self.emit_put_held_indexed(g, sa, ra, p.k, pa);
                } else {
                    g.fail(IselError::TooManyTerms);
                }
            },
        }
    }

    fn emit_ptr_arg(&self, g: &mut Emitter, val: &Val, pa: u32)
        requires
            self.wf(),
        ensures
            final(g)@ == self.ptr_arg(old(g)@, *val, pa),
    {
        match val {
            Val::Global(n) => {
                if self.cx.is_function(n.as_str()) {
                    self.emit_put_func(g, n.as_str(), pa);
                } else {
                    let flash: bool = self.cx.global_is_const(g, n.as_str());
                    g.check(!flash, IselError::ConstTooLarge);
                    self.emit_put_global(g, n.as_str(), 0, pa);
                }
            },
            Val::Const(c) => {
                g.check(*c == 0, IselError::NonNullConstPointer);
                g.emit(clrf(pa));
                g.emit(clrf(at(pa, 1)));
            },
            Val::Reg(r) => match self.cx.find_pointer(r.as_str()) {
                None => {
                    let sa: u32 = self.cx.local_addr(g, r.as_str());
                    self.emit_copy2(g, sa, pa);
                },
                Some(p) => self.emit_pointer_arg(g, p, pa),
            },
        }
    }

    fn check_one_bank(&self, g: &mut Emitter, a: u32, span: u16) -> (r: u32)
        ensures
            (final(g)@, r) == self.in_one_bank(old(g)@, a, span),
    {
        let crosses: bool = self.check_straddle(g, a, span);
        g.check(!crosses, IselError::SretStraddles);
        a
    }

    fn emit_sret_target(&self, g: &mut Emitter, val: &Val) -> (r: u32)
        requires
            self.wf(),
        ensures
            (final(g)@, r) == self.sret_target(old(g)@, *val),
    {
        match val {
            Val::Global(n) => {
                let a: u32 = self.cx.global_addr(g, n.as_str());
                let span: u16 = self.cx.global_size(g, n.as_str());
                self.check_one_bank(g, a, span)
            },
            Val::Reg(r) => match self.cx.find_pointer(r.as_str()) {
                Some(p) => {
                    g.check(p.k == 0 && p.terms.len() == 0, IselError::SretTarget);
                    match &p.base {
                        Base::Global(name) => {
                            let a: u32 = self.cx.global_addr(g, name.as_str());
                            let span: u16 = self.object_span(g, &p.base);
                            self.check_one_bank(g, a, span)
                        },
                        Base::Slot(sname, false) => {
                            let a: u32 = self.cx.local_addr(g, sname.as_str());
                            let span: u16 = self.object_span(g, &p.base);
                            self.check_one_bank(g, a, span)
                        },
                        Base::Slot(_, true) => {
                            g.fail(IselError::SretTarget);
                            0
                        },
                    }
                },
                None => {
                    g.fail(IselError::UnresolvedPointer);
                    0
                },
            },
            Val::Const(_) => {
                g.fail(IselError::SretTarget);
                0
            },
        }
    }

    fn emit_widen(&self, g: &mut Emitter, func: &str, pa: u32, n: u8)
        requires
            n > 0,
        ensures
            final(g)@ == self.widen(old(g)@, func@, pa, n),
    {
        if same(func, "__uitofp_f32") {
            self.emit_clear_from(g, pa, 4, n);
        } else if same(func, "__sitofp_f32") {
            let sign: u32 = at(pa, n - 1);
            g.emit(movlw(0));
            g.emit(ram_bit(BitOp::Btfsc, sign, 7));
            g.emit(movlw(0xFF));
            self.emit_fill_from(g, pa, 4, n);
        } else {
            g.fail(IselError::NarrowArgument);
        }
    }

    /// Copies a scalar. A source narrower than the four-byte parameter of an
    /// integer-to-float conversion is extended, so that the routine reads a
    /// defined 32-bit value.
    fn emit_scalar_arg(&self, g: &mut Emitter, func: &str, p: &Param, val: &Val, t: Ty, pa: u32)
        requires
            self.wf(),
        ensures
            final(g)@ == self.scalar_arg(old(g)@, func@, *p, *val, t, pa),
    {
        self.emit_move_val_to_slot(g, val, t, pa);
        if t.bytes() < p.width {
            g.check(p.width == 4, IselError::NarrowArgument);
            self.emit_widen(g, func, pa, t.bytes());
        }
    }

    fn emit_arg(&self, g: &mut Emitter, func: &str, p: &Param, arg: &CallArg)
        requires
            self.wf(),
        ensures
            final(g)@ == self.arg_step(old(g)@, func@, *p, *arg),
    {
        let pa: u32 = self.cx.slot_addr(g, func, p.name.as_str());
        if let Some(size) = arg.byval {
            g.check(p.byval == Some(size), IselError::ByvalMismatch);
            let ghost start = g@;
            let mut b: u8 = 0;
            while b < size
                invariant
                    self.wf(),
                    self.byval_from(start, arg.val, size, pa, 0) == self.byval_from(
                        g@,
                        arg.val,
                        size,
                        pa,
                        b,
                    ),
                decreases size - b,
            {
                self.emit_ptr_load_byte(g, &arg.val, b);
                g.emit(movwf(at(pa, b)));
                b += 1;
            }
        } else if arg.sret {
            g.check(p.sret, IselError::SretMismatch);
            let a: u32 = self.emit_sret_target(g, &arg.val);
            self.emit_put_addr(g, a, pa);
        } else {
            match arg.ty {
                None => {
                    g.check(p.width == 2, IselError::PointerParamWidth);
                    self.emit_ptr_arg(g, &arg.val, pa);
                },
                Some(t) => self.emit_scalar_arg(g, func, p, &arg.val, t, pa),
            }
        }
    }

    fn emit_extra(&self, g: &mut Emitter, func: &str, arg: &CallArg, off: u32) -> (r: u32)
        requires
            self.wf(),
        ensures
            (final(g)@, r) == self.extra_step(old(g)@, func@, *arg, off),
    {
        match self.cx.find_slot(func, "__va") {
            None => {
                g.fail(IselError::Variadic);
                off
            },
            Some(va) => match arg.ty {
                None => {
                    g.fail(IselError::UntypedVariadic);
                    off
                },
                Some(t) => {
                    let n: u8 = t.bytes();
                    assert(va & 0xFF <= 0xFF) by (bit_vector);
                    g.check(
                        off <= 0x100 && (va & 0xFF) + off + n as u32 <= 0x100,
                        IselError::VariadicOverflow,
                    );
                    self.emit_move_val_to_slot(g, &arg.val, t, va.wrapping_add(off));
                    off.wrapping_add(n as u32)
                },
            },
        }
    }

    /// Copies each argument into the slots of the function called. Arguments
    /// past the named parameters line up in its variadic region.
    pub fn emit_call_args(&self, g: &mut Emitter, func: &str, args: &Vec<CallArg>)
        requires
            self.wf(),
        ensures
            final(g)@ == self.call_args(old(g)@, func@, args@),
    {
        let f: usize = match find_func(self.cx.m, func) {
            Some(f) => f,
            None => {
                g.fail(IselError::UnknownFunction);
                return;
            },
        };
        let params = &self.cx.m.funcs[f].params;
        let mut off: u32 = 0;
        let mut i: usize = 0;
        while i < args.len()
            invariant
                self.wf(),
                i <= args@.len(),
                self.call_args(old(g)@, func@, args@) == self.args_from(
                    g@,
                    func@,
                    params@,
                    args@,
                    off,
                    i as int,
                ),
            decreases args@.len() - i,
        {
            if i >= params.len() {
                off = self.emit_extra(g, func, &args[i], off);
            } else {
                self.emit_arg(g, func, &params[i], &args[i]);
            }
            i += 1;
        }
    }

    fn emit_result(&self, g: &mut Emitter, dst: &Option<String>, ty: Option<Ty>)
        requires
            self.wf(),
        ensures
            final(g)@ == self.take_result(old(g)@, *dst, ty),
    {
        if let Some(d) = dst {
            let t = match ty {
                Some(t) => t,
                None => {
                    g.fail(IselError::UntypedCall);
                    return;
                },
            };
            let da: u32 = self.cx.local_addr(g, d.as_str());
            let n: u8 = t.bytes();
            let ghost start = g@;
            let mut i: u8 = 0;
            while i < n
                invariant
                    self.result_from(start, da, n, 0) == self.result_from(g@, da, n, i),
                decreases n - i,
            {
                g.emit(movf(at(self.retval, i)));
                g.emit(movwf(at(da, i)));
                i += 1;
            }
        }
    }

    fn emit_trap(&self, g: &mut Emitter)
        ensures
            final(g)@ == self.trap(old(g)@),
    {
        let l: u32 = g.fresh_label();
        g.emit(label_tmp(l));
        g.emit(goto_tmp(l));
    }

    fn emit_delay_call(&self, g: &mut Emitter, args: &Vec<CallArg>)
        ensures
            final(g)@ == self.delay_call(old(g)@, args@),
    {
        if args.len() == 1 {
            if let Val::Const(k) = &args[0].val {
                emit_delay(g, count32(*k), self.retval);
                return;
            }
        }
        g.fail(IselError::DelayCount);
    }

    /// Calls through a function pointer: the candidates are compared in
    /// turn, the one that matches is called. A pointer that matches none
    /// ends in a trap.
    pub fn emit_indirect_call(
        &self,
        g: &mut Emitter,
        dst: &Option<String>,
        ty: Option<Ty>,
        func: &str,
        args: &Vec<CallArg>,
        callees: &Vec<String>,
    )
        requires
            self.wf(),
        ensures
            final(g)@ == self.indirect_call(old(g)@, *dst, ty, func@, args@, callees@),
    {
        let fp: u32 = self.cx.local_addr(g, func);
        let l_done: u32 = g.fresh_label();
        let ghost start = g@;
        let mut i: usize = 0;
        while i < callees.len()
            invariant
                self.wf(),
                i <= callees@.len(),
                self.candidates_from(start, fp, l_done, args@, callees@, 0)
                    == self.candidates_from(g@, fp, l_done, args@, callees@, i as int),
            decreases callees@.len() - i,
        {
            let cand = callees[i].as_str();
            let f = Sym::Func(self.cx.func_number(cand));
            let l_next: u32 = g.fresh_label();
            g.emit(movf(fp));
            g.emit(Line::Lit(LitOp::Xorlw, Imm::Low(f)));
            g.emit(note_z(BitOp::Btfss));
            g.emit(goto_tmp(l_next));
            g.emit(movf(at(fp, 1)));
            g.emit(Line::Lit(LitOp::Xorlw, Imm::High(f)));
            g.emit(note_z(BitOp::Btfss));
            g.emit(goto_tmp(l_next));
            self.emit_call_args(g, cand, args);
            self.emit_far_call(g, f);
            g.emit(goto_tmp(l_done));
            g.emit(label_tmp(l_next));
            i += 1;
        }
        self.emit_trap(g);
        g.emit(label_tmp(l_done));
        self.emit_result(g, dst, ty);
    }

    /// Lowers a call. A function the module lacks is the built-in delay or
    /// traps.
    pub fn emit_call(
        &self,
        g: &mut Emitter,
        dst: &Option<String>,
        ty: Option<Ty>,
        func: &str,
        args: &Vec<CallArg>,
        callees: &Vec<String>,
    )
        requires
            self.wf(),
        ensures
            final(g)@ == self.call(old(g)@, *dst, ty, func@, args@, callees@),
    {
        reveal(Gen::call);
        if callees.len() > 0 {
            self.emit_indirect_call(g, dst, ty, func, args, callees);
        } else if !self.cx.is_function(func) {
            if same(func, "_delay") {
                self.emit_delay_call(g, args);
            } else {
                self.emit_trap(g);
            }
        } else {
            self.emit_call_args(g, func, args);
            self.emit_far_call(g, Sym::Func(self.cx.func_number(func)));
            self.emit_result(g, dst, ty);
        }
    }
}

} // verus!
