//! Values byte by byte: loads, moves, comparisons, selects.
use vstd::prelude::*;
use crate::baseline::Gen;
use crate::emit::{
    at, const_byte, f_op, goto_tmp, label_tmp, lit, movf, movlw, movwf, note_c, note_z, w_op, Emitter,
    St,
};
use crate::error::IselError;
use crate::ir::{Base, Pointer, Term, Ty, Val};
use crate::line::{BitOp, Imm, Line, LitOp, Op, Sym};
use crate::shape::{are_plain, cond_on_equal, cond_skip, ordered_byte, plain_terms, Cond};

verus! {

impl<'a> Gen<'a> {
    /// The slots of up to two terms.
    pub open spec fn term_slots(&self, st: St, terms: Seq<Term>) -> (St, u32, u32) {
        if terms.len() == 0 {
            (st, 0, 0)
        } else if terms.len() == 1 {
            let (st, a) = self.cx.local_step(st, terms[0].reg@);
            (st, a, 0)
        } else {
            let (st, a) = self.cx.local_step(st, terms[0].reg@);
            let (st, b) = self.cx.local_step(st, terms[1].reg@);
            (st, a, b)
        }
    }

    /// W plus the terms in slots `a` and `b`.
    pub open spec fn add_terms(&self, st: St, terms: Seq<Term>, a: u32, b: u32) -> St {
        if terms.len() == 0 {
            st
        } else if terms.len() == 1 {
            self.acc_w(st, Op::Addwf, a)
        } else {
            self.acc_w(self.acc_w(st, Op::Addwf, a), Op::Addwf, b)
        }
    }

    /// W becomes byte `idx` of a folded pointer's address. Byte one of an
    /// address is zero.
    pub open spec fn pointer_byte(&self, st: St, p: Pointer, idx: u8) -> St {
        if idx == 1 {
            st.emit(movlw(0))
        } else {
            let st = st.check(p.k == 0 || p.terms@.len() == 0, IselError::OffsetWithTerms);
            match p.base {
                Base::Global(name) => {
                    let (st, base) = self.cx.global_step(st, name@);
                    let lo = (at(base, p.k) & 0x3F) as u8;
                    if plain_terms(p.terms@) {
                        let (st, a, b) = self.term_slots(st, p.terms@);
                        self.add_terms(st.emit(movlw(lo)), p.terms@, a, b)
                    } else {
                        st.fail(IselError::TooManyTerms)
                    }
                },
                Base::Slot(sname, indirect) => {
                    let st = st.check(
                        indirect || self.cx.holds_addr(sname@),
                        IselError::SlotAddressValue,
                    );
                    let (st, sa) = self.cx.local_step(st, sname@);
                    if plain_terms(p.terms@) {
                        let (st, a, b) = self.term_slots(st, p.terms@);
                        let st = self.add_terms(self.acc_w(st, Op::Movf, sa), p.terms@, a, b);
                        if p.terms@.len() == 0 && p.k != 0 {
                            self.add_w_lit(st, p.k)
                        } else {
                            st
                        }
                    } else {
                        st.fail(IselError::TooManyTerms)
                    }
                },
            }
        }
    }

    /// W becomes byte `idx` of `val`.
    pub open spec fn load_byte(&self, st: St, val: Val, idx: u8) -> St {
        match val {
            Val::Const(k) => st.emit(movlw(const_byte(k, idx))),
            Val::Reg(r) => match self.cx.pointer(r@) {
                Some(p) => self.pointer_byte(st, p, idx),
                None => {
                    let (st, a) = self.cx.local_step(st, r@);
                    self.w_load(st, at(a, idx))
                },
            },
            Val::Global(n) => if self.cx.is_func(n@) {
                if idx == 0 {
                    st.emit(Line::Lit(LitOp::Movlw, Imm::Low(Sym::Func(self.cx.func_no(n@)))))
                } else {
                    st.emit(movlw(0))
                }
            } else {
                let (st, a) = self.cx.global_step(st, n@);
                st.emit(
                    movlw(
                        if idx == 0 {
                            (a & 0x3F) as u8
                        } else {
                            0
                        },
                    ),
                )
            },
        }
    }

    /// W becomes W xor byte `idx` of `val`.
    pub open spec fn xor_byte(&self, st: St, val: Val, idx: u8) -> St {
        match val {
            Val::Const(k) => st.emit(lit(LitOp::Xorlw, const_byte(k, idx))),
            _ => {
                let (st, a) = self.cx.val_step(st, val);
                self.acc_w(st, Op::Xorwf, at(a, idx))
            },
        }
    }

    /// Bytes `i..n` of `val` into the slot at `dst`.
    pub open spec fn move_from(&self, st: St, val: Val, n: u8, dst: u32, i: u8) -> St
        decreases n - i,
    {
        if i >= n {
            st
        } else {
            self.move_from(
                self.w_store(self.load_byte(st, val, i), at(dst, i)),
                val,
                n,
                dst,
                (i + 1) as u8,
            )
        }
    }

    /// `val` into the slot at `dst`.
    pub open spec fn move_val(&self, st: St, val: Val, ty: Ty, dst: u32) -> St {
        self.move_from(st, val, ty.bytes(), dst, 0)
    }

    /// Whether the load of byte `off` of a value writes to FSR: that of a register
    /// in banked RAM sets the bank there.
    pub open spec fn sets_bank(&self, val: Val, off: u8) -> bool {
        self.cx.device.fsr_bank_bits > 0 && match val {
            Val::Reg(r) => match self.cx.pointer(r@) {
                Some(_) => true,
                None => match self.cx.slot(self.cx.fname(), r@) {
                    Some(a) => self.cx.device.bank(at(a, off)) is Some,
                    None => true,
                },
            },
            _ => false,
        }
    }

    /// `RAM[r + off] = byte off of val` for the pointer in register `r`. The value
    /// is loaded once FSR is final. One whose load writes to FSR is loaded before,
    /// and parked in the second staging byte meanwhile.
    pub open spec fn reg_store_byte(&self, st: St, r: Seq<char>, off: u8, val: Val) -> St {
        if self.reg_needs_fsr(r) && self.sets_bank(val, off) {
            let st = self.load_byte(st, val, off).emit(movwf(self.tmp2));
            let (st, addr) = self.reg_setup(st, r, off);
            self.finish_store(st.emit(movf(self.tmp2)), addr)
        } else {
            let (st, addr) = self.reg_setup(st, r, off);
            self.finish_store(self.load_byte(st, val, off), addr)
        }
    }

    pub open spec fn equal_from(&self, st: St, a: Val, b: Val, n: u8, i: u8) -> St
        decreases n - i,
    {
        if i >= n {
            st
        } else {
            let st = self.xor_byte(self.load_byte(st, a, i), b, i);
            let st = st.emit(w_op(Op::Iorwf, self.scratch)).emit(movwf(self.scratch));
            self.equal_from(st, a, b, n, (i + 1) as u8)
        }
    }

    /// Z becomes `a == b`; the xors of the byte pairs gather in the scratch
    /// byte.
    pub open spec fn equal(&self, st: St, a: Val, b: Val, ty: Ty) -> St {
        let st = self.xor_byte(self.load_byte(st, a, 0), b, 0).emit(movwf(self.scratch));
        self.equal_from(st, a, b, ty.bytes(), 1)
    }

    /// W becomes byte `i` of `v`, ready for an unsigned comparison.
    pub open spec fn load_ordered(&self, st: St, v: Val, i: u8, signed: bool, high: u8) -> St {
        match v {
            Val::Const(k) => st.emit(movlw(ordered_byte(k, i, signed, high))),
            _ => {
                let (st, a) = self.cx.val_step(st, v);
                if signed && i == high {
                    self.acc_w(st.emit(movlw(0x80)), Op::Xorwf, at(a, i))
                } else {
                    self.acc_w(st, Op::Movf, at(a, i))
                }
            },
        }
    }

    /// Byte zero of `k` compared with byte zero of `b`: `SUBWF tmp, W` with
    /// the constant staged in `tmp`.
    pub open spec fn const_low(&self, st: St, k: i64, b: Val, signed: bool, high: u8) -> St {
        self.load_ordered(st, b, 0, signed, high).emit(movwf(self.tmp2)).emit(
            movlw(ordered_byte(k, 0, signed, high)),
        ).emit(movwf(self.tmp)).emit(movf(self.tmp2)).emit(w_op(Op::Subwf, self.tmp))
    }

    /// Byte `i` of the borrow chain for `a >= b` with `a` in memory at `aa`.
    /// The subtrahend sits in common RAM, and the bank of `a` is set before
    /// the skip.
    pub open spec fn file_byte(&self, st: St, aa: u32, b: Val, high: u8, signed: bool, i: u8) -> St {
        if signed && i == high {
            let st = self.load_ordered(st, b, i, signed, high).emit(movwf(self.retval)).emit(
                movlw(0x80),
            );
            self.acc_w(st, Op::Xorwf, at(aa, i)).emit(movwf(self.scratch)).emit(
                movf(self.retval),
            ).emit(note_c(BitOp::Btfss)).emit(w_op(Op::Incfsz, self.retval)).emit(
                w_op(Op::Subwf, self.scratch),
            )
        } else {
            let stage = match b {
                Val::Const(_) => self.scratch,
                _ => self.tmp2,
            };
            let st = self.load_ordered(st, b, i, signed, high).emit(movwf(stage));
            let st = self.bank(st, at(aa, i)).emit(note_c(BitOp::Btfss)).emit(
                w_op(Op::Incfsz, stage),
            );
            self.op_w(st, Op::Subwf, at(aa, i))
        }
    }

    /// The borrow chain over bytes `i..n`.
    pub open spec fn file_chain(
        &self,
        st: St,
        aa: u32,
        b: Val,
        n: u8,
        high: u8,
        signed: bool,
        i: u8,
    ) -> St
        decreases n - i,
    {
        if i >= n {
            st
        } else {
            let st = self.file_byte(st, aa, b, high, signed, i);
            self.file_chain(st, aa, b, n, high, signed, (i + 1) as u8)
        }
    }

    /// Byte `i` of the borrow chain for `k >= b`, `k` being the byte of the
    /// constant: the constant in `tmp`, the subtrahend in common RAM.
    pub open spec fn lit_byte(&self, st: St, k: u8, b: Val, high: u8, signed: bool, i: u8) -> St {
        let stage = if signed && i == high {
            self.retval
        } else {
            self.tmp2
        };
        self.load_ordered(st, b, i, signed, high).emit(movwf(stage)).emit(movlw(k)).emit(
            movwf(self.tmp),
        ).emit(movf(stage)).emit(note_c(BitOp::Btfss)).emit(w_op(Op::Incfsz, stage)).emit(
            f_op(Op::Subwf, self.tmp),
        )
    }

    /// The borrow chain for `k >= b` over bytes `i..n`.
    pub open spec fn const_chain(
        &self,
        st: St,
        k: i64,
        b: Val,
        n: u8,
        high: u8,
        signed: bool,
        i: u8,
    ) -> St
        decreases n - i,
    {
        if i >= n {
            st
        } else {
            let st = self.lit_byte(st, ordered_byte(k, i, signed, high), b, high, signed, i);
            self.const_chain(st, k, b, n, high, signed, (i + 1) as u8)
        }
    }

    /// C becomes `a >= b`, signed or unsigned.
    pub open spec fn compare(&self, st: St, a: Val, b: Val, ty: Ty, signed: bool) -> St {
        let n = ty.bytes();
        let high = (n - 1) as u8;
        match (a, b) {
            (Val::Const(_), Val::Const(_)) => st.fail(IselError::ConstantFolding),
            (Val::Const(k), _) => self.const_chain(
                self.const_low(st, k, b, signed, high),
                k,
                b,
                n,
                high,
                signed,
                1,
            ),
            _ => {
                let (st, aa) = self.cx.val_step(st, a);
                if n > 1 {
                    let st = self.load_ordered(st, b, 0, signed, high);
                    self.file_chain(
                        self.acc_w(st, Op::Subwf, aa),
                        aa,
                        b,
                        n,
                        high,
                        signed,
                        1,
                    )
                } else if signed {
                    let st = self.acc_w(st.emit(movlw(0x80)), Op::Xorwf, aa).emit(
                        movwf(self.scratch),
                    );
                    let st = self.load_ordered(st, b, 0, signed, high);
                    self.acc_w(st, Op::Subwf, self.scratch)
                } else {
                    self.acc_w(self.load_ordered(st, b, 0, signed, high), Op::Subwf, aa)
                }
            },
        }
    }

    /// The slot at `dst` becomes one if `c` holds of the flags, else zero.
    pub open spec fn materialize(&self, st: St, c: Cond, dst: u32) -> St {
        let st = st.emit(movlw(0)).emit(cond_skip(c)).emit(movlw(1));
        let st = match cond_on_equal(c) {
            Some(b) => st.emit(note_z(BitOp::Btfsc)).emit(movlw(b)),
            None => st,
        };
        self.put(st, dst)
    }

    /// The address value of `val` into the two-byte slot at `dst`.
    pub open spec fn move_addr(&self, st: St, val: Val, dst: u32) -> St {
        match val {
            Val::Const(k) => self.put_addr(st, Imm::Byte(const_byte(k, 0)), dst),
            Val::Global(n) => if self.cx.is_func(n@) {
                self.put_addr(st, Imm::Low(Sym::Func(self.cx.func_no(n@))), dst)
            } else {
                let (st, a) = self.cx.global_step(st, n@);
                let st = st.check(a <= 0x3F, IselError::DataSpaceRange);
                self.put_addr(st, Imm::Byte((a & 0x3F) as u8), dst)
            },
            Val::Reg(r) => match self.cx.pointer(r@) {
                Some(p) => {
                    let st = st.check(
                        p.k == 0 && p.terms@.len() == 0,
                        IselError::ComputedSelectArm,
                    );
                    match p.base {
                        Base::Slot(sname, true) => {
                            let (st, sa) = self.cx.local_step(st, sname@);
                            let st = self.w_store(self.w_load(st, sa), dst);
                            self.w_store(st.emit(movlw(0)), at(dst, 1))
                        },
                        Base::Global(name) => {
                            let (st, a) = self.cx.global_step(st, name@);
                            let st = st.check(a <= 0x3F, IselError::DataSpaceRange);
                            self.put_addr(st, Imm::Byte((a & 0x3F) as u8), dst)
                        },
                        Base::Slot(_, false) => st.fail(IselError::ComputedSelectArm),
                    }
                },
                None => st.fail(IselError::UnresolvedPointer),
            },
        }
    }

    pub open spec fn select_arm(&self, st: St, v: Val, ty: Ty, dst: u32, addr_value: bool) -> St {
        if addr_value {
            self.move_addr(st, v, dst)
        } else {
            self.move_val(st, v, ty, dst)
        }
    }

    /// `dst = cond ? a : b`, by a jump over two copies.
    pub open spec fn choose_val(&self, st: St, dst: Seq<char>, cond: Val, ty: Ty, a: Val, b: Val) -> St {
        let (st, da) = self.cx.local_step(st, dst);
        let av = self.cx.seeded(dst);
        match cond {
            Val::Const(k) => self.select_arm(
                st,
                if k != 0 {
                    a
                } else {
                    b
                },
                ty,
                da,
                av,
            ),
            Val::Global(_) => st.fail(IselError::SelectOnGlobal),
            Val::Reg(r) => {
                let l_else = st.next;
                let st = st.bump();
                let l_end = st.next;
                let st = st.bump();
                let (st, ca) = self.cx.local_step(st, r@);
                let st = self.acc_w(st, Op::Movf, ca).emit(note_z(BitOp::Btfsc)).emit(
                    goto_tmp(l_else),
                );
                let st = self.select_arm(st, a, ty, da, av).emit(goto_tmp(l_end)).emit(
                    label_tmp(l_else),
                );
                self.select_arm(st, b, ty, da, av).emit(label_tmp(l_end))
            },
        }
    }

    fn find_term_slots(&self, g: &mut Emitter, terms: &Vec<Term>) -> (r: (u32, u32))
        requires
            self.wf(),
            terms@.len() <= 2,
        ensures
            (final(g)@, r.0, r.1) == self.term_slots(old(g)@, terms@),
    {
        if terms.len() == 0 {
            (0, 0)
        } else if terms.len() == 1 {
            let a: u32 = self.cx.local_addr(g, terms[0].reg.as_str());
            (a, 0)
        } else {
            let a: u32 = self.cx.local_addr(g, terms[0].reg.as_str());
            let b: u32 = self.cx.local_addr(g, terms[1].reg.as_str());
            (a, b)
        }
    }

    fn emit_add_terms(&self, g: &mut Emitter, terms: &Vec<Term>, a: u32, b: u32)
        ensures
            final(g)@ == self.add_terms(old(g)@, terms@, a, b),
    {
        if terms.len() >= 1 {
            self.emit_acc_w(g, Op::Addwf, a);
        }
        if terms.len() >= 2 {
            self.emit_acc_w(g, Op::Addwf, b);
        }
    }

    fn emit_pointer_byte(&self, g: &mut Emitter, p: &Pointer, idx: u8)
        requires
            self.wf(),
        ensures
            final(g)@ == self.pointer_byte(old(g)@, *p, idx),
    {
        if idx == 1 {
            g.emit(movlw(0));
            return;
        }
        g.check(p.k == 0 || p.terms.len() == 0, IselError::OffsetWithTerms);
        match &p.base {
            Base::Global(name) => {
                let base: u32 = self.cx.global_addr(g, name.as_str());
                let lo: u8 = (at(base, p.k) & 0x3F) as u8;
                if are_plain(&p.terms) {
                    let (a, b) = self.find_term_slots(g, &p.terms);
                    g.emit(movlw(lo));
                    self.emit_add_terms(g, &p.terms, a, b);
                } else {
                    g.fail(IselError::TooManyTerms);
                }
            },
            Base::Slot(sname, indirect) => {
                let ok: bool = *indirect || self.cx.param_holds_addr(sname.as_str());
                g.check(ok, IselError::SlotAddressValue);
                let sa: u32 = self.cx.local_addr(g, sname.as_str());
                if are_plain(&p.terms) {
                    let (a, b) = self.find_term_slots(g, &p.terms);
                    self.emit_acc_w(g, Op::Movf, sa);
                    self.emit_add_terms(g, &p.terms, a, b);
                    if p.terms.len() == 0 && p.k != 0 {
                        self.emit_add_w_lit(g, p.k);
                    }
                } else {
                    g.fail(IselError::TooManyTerms);
                }
            },
        }
    }

    /// Loads byte `idx` of `val` into W. The value of a pointer register is
    /// its address: the low byte is computed, the byte above it is zero.
    pub fn emit_load_byte(&self, g: &mut Emitter, val: &Val, idx: u8)
        requires
            self.wf(),
        ensures
            final(g)@ == self.load_byte(old(g)@, *val, idx),
    {
        match val {
            Val::Const(k) => g.emit(movlw(const_byte(*k, idx))),
            Val::Reg(r) => match self.cx.find_pointer(r.as_str()) {
                Some(p) => self.emit_pointer_byte(g, p, idx),
                None => {
                    let a: u32 = self.cx.local_addr(g, r.as_str());
                    self.emit_w_load(g, at(a, idx));
                },
            },
            Val::Global(n) => {
                if self.cx.is_function(n.as_str()) {
                    if idx == 0 {
                        let f: usize = self.cx.func_number(n.as_str());
                        g.emit(Line::Lit(LitOp::Movlw, Imm::Low(Sym::Func(f))));
                    } else {
                        g.emit(movlw(0));
                    }
                } else {
                    let a: u32 = self.cx.global_addr(g, n.as_str());
                    let b: u8 = if idx == 0 {
                        (a & 0x3F) as u8
                    } else {
                        0
                    };
                    g.emit(movlw(b));
                }
            },
        }
    }

    /// Xors byte `idx` of `val` into W.
    pub fn emit_xor_byte(&self, g: &mut Emitter, val: &Val, idx: u8)
        requires
            self.wf(),
        ensures
            final(g)@ == self.xor_byte(old(g)@, *val, idx),
    {
        match val {
            Val::Const(k) => g.emit(lit(LitOp::Xorlw, const_byte(*k, idx))),
            _ => {
                let a: u32 = self.cx.val_addr(g, val);
                self.emit_acc_w(g, Op::Xorwf, at(a, idx));
            },
        }
    }

    /// Copies `val` into the slot at `dst`.
    pub fn emit_move_val_to_slot(&self, g: &mut Emitter, val: &Val, ty: Ty, dst: u32)
        requires
            self.wf(),
        ensures
            final(g)@ == self.move_val(old(g)@, *val, ty, dst),
    {
        let n: u8 = ty.bytes();
        self.emit_move_bytes(g, val, n, dst);
    }

    /// Copies the first `n` bytes of `val` into the slot at `dst`.
    pub fn emit_move_bytes(&self, g: &mut Emitter, val: &Val, n: u8, dst: u32)
        requires
            self.wf(),
        ensures
            final(g)@ == self.move_from(old(g)@, *val, n, dst, 0),
    {
        let mut i: u8 = 0;
        while i < n
            invariant
                self.wf(),
                self.move_from(old(g)@, *val, n, dst, 0) == self.move_from(g@, *val, n, dst, i),
            decreases n - i,
        {
            self.emit_load_byte(g, val, i);
            self.emit_w_store(g, at(dst, i));
            i += 1;
        }
    }

    /// `RAM[r + off] = byte off of val`. The computation of the address
    /// clobbers W, and nothing touches FSR between it and the access.
    fn load_sets_bank(&self, val: &Val, off: u8) -> (b: bool)
        requires
            self.wf(),
        ensures
            b == self.sets_bank(*val, off),
    {
        self.cx.device.fsr_bank_bits > 0 && match val {
            Val::Reg(r) => match self.cx.find_pointer(r.as_str()) {
                Some(_) => true,
                None => match self.cx.find_slot(self.cx.name(), r.as_str()) {
                    Some(a) => self.cx.device.bank_of(at(a, off)).is_some(),
                    None => true,
                },
            },
            _ => false,
        }
    }

    pub fn emit_ptr_store_byte(&self, g: &mut Emitter, r: &str, off: u8, val: &Val)
        requires
            self.wf(),
        ensures
            final(g)@ == self.reg_store_byte(old(g)@, r@, off, *val),
    {
        let parked: bool = self.reg_uses_fsr(r) && self.load_sets_bank(val, off);
        if parked {
            self.emit_load_byte(g, val, off);
            g.emit(movwf(self.tmp2));
        }
        let addr = self.emit_reg_setup(g, r, off);
        if parked {
            g.emit(movf(self.tmp2));
        } else {
            self.emit_load_byte(g, val, off);
        }
        self.emit_finish_store(g, addr);
    }

    /// Sets Z to `a == b` and leaves C alone.
    pub fn emit_cmp_eq(&self, g: &mut Emitter, a: &Val, b: &Val, ty: Ty)
        requires
            self.wf(),
        ensures
            final(g)@ == self.equal(old(g)@, *a, *b, ty),
    {
        let n: u8 = ty.bytes();
        self.emit_load_byte(g, a, 0);
        self.emit_xor_byte(g, b, 0);
        g.emit(movwf(self.scratch));
        let mut i: u8 = 1;
        while i < n
            invariant
                self.wf(),
                self.equal(old(g)@, *a, *b, ty) == self.equal_from(g@, *a, *b, n, i),
            decreases n - i,
        {
            self.emit_load_byte(g, a, i);
            self.emit_xor_byte(g, b, i);
            g.emit(w_op(Op::Iorwf, self.scratch));
            g.emit(movwf(self.scratch));
            i += 1;
        }
    }

    /// Loads byte `i` of `v`, with the sign bit flipped in the sign byte of
    /// a signed comparison: flipping maps signed order onto unsigned order.
    pub fn emit_load_cmp_byte(&self, g: &mut Emitter, v: &Val, i: u8, signed: bool, high: u8)
        requires
            self.wf(),
        ensures
            final(g)@ == self.load_ordered(old(g)@, *v, i, signed, high),
    {
        match v {
            Val::Const(k) => g.emit(movlw(ordered_byte(*k, i, signed, high))),
            _ => {
                let a: u32 = self.cx.val_addr(g, v);
                if signed && i == high {
                    g.emit(movlw(0x80));
                    self.emit_acc_w(g, Op::Xorwf, at(a, i));
                } else {
                    self.emit_acc_w(g, Op::Movf, at(a, i));
                }
            },
        }
    }

    /// The borrow chain above byte zero for a left side in memory. The skip
    /// pair's operand is staged in common RAM, so no bank select can fall
    /// between the skip and its target.
    fn emit_cmp_c_file_lhs_wide(
        &self,
        g: &mut Emitter,
        aa: u32,
        b: &Val,
        n: u8,
        high: u8,
        signed: bool,
    )
        requires
            self.wf(),
        ensures
            final(g)@ == self.file_chain(old(g)@, aa, *b, n, high, signed, 1),
    {
        let mut i: u8 = 1;
        while i < n
            invariant
                self.wf(),
                self.file_chain(old(g)@, aa, *b, n, high, signed, 1) == self.file_chain(
                    g@,
                    aa,
                    *b,
                    n,
                    high,
                    signed,
                    i,
                ),
            decreases n - i,
        {
            self.emit_load_cmp_byte(g, b, i, signed, high);
            if signed && i == high {
                g.emit(movwf(self.retval));
                g.emit(movlw(0x80));
                self.emit_acc_w(g, Op::Xorwf, at(aa, i));
                g.emit(movwf(self.scratch));
                g.emit(movf(self.retval));
                g.emit(note_c(BitOp::Btfss));
                g.emit(w_op(Op::Incfsz, self.retval));
                g.emit(w_op(Op::Subwf, self.scratch));
            } else {
                let stage: u32 = match b {
                    Val::Const(_) => self.scratch,
                    _ => self.tmp2,
                };
                g.emit(movwf(stage));
                self.emit_bank_select(g, at(aa, i));
                g.emit(note_c(BitOp::Btfss));
                g.emit(w_op(Op::Incfsz, stage));
                self.emit_op_w(g, Op::Subwf, at(aa, i));
            }
            i += 1;
        }
    }

    /// The borrow chain above byte zero for a constant left side. The reload
    /// of the staged byte is needed: staging the constant clobbers W.
    fn emit_cmp_c_const_lhs_wide(
        &self,
        g: &mut Emitter,
        k: i64,
        b: &Val,
        n: u8,
        high: u8,
        signed: bool,
    )
        requires
            self.wf(),
        ensures
            final(g)@ == self.const_chain(old(g)@, k, *b, n, high, signed, 1),
    {
        let mut i: u8 = 1;
        while i < n
            invariant
                self.wf(),
                self.const_chain(old(g)@, k, *b, n, high, signed, 1) == self.const_chain(
                    g@,
                    k,
                    *b,
                    n,
                    high,
                    signed,
                    i,
                ),
            decreases n - i,
        {
            let stage: u32 = if signed && i == high {
                self.retval
            } else {
                self.tmp2
            };
            self.emit_load_cmp_byte(g, b, i, signed, high);
            g.emit(movwf(stage));
            g.emit(movlw(ordered_byte(k, i, signed, high)));
            g.emit(movwf(self.tmp));
            g.emit(movf(stage));
            g.emit(note_c(BitOp::Btfss));
            g.emit(w_op(Op::Incfsz, stage));
            g.emit(f_op(Op::Subwf, self.tmp));
            i += 1;
        }
    }

    /// Sets C to `a >= b`. On one byte Z is `a == b` too; a wider chain
    /// leaves only the last byte's Z.
    pub fn emit_cmp_c(&self, g: &mut Emitter, a: &Val, b: &Val, ty: Ty, signed: bool)
        requires
            self.wf(),
        ensures
            final(g)@ == self.compare(old(g)@, *a, *b, ty, signed),
    {
        let n: u8 = ty.bytes();
        let high: u8 = n - 1;
        match (a, b) {
            (Val::Const(_), Val::Const(_)) => g.fail(IselError::ConstantFolding),
            (Val::Const(k), _) => {
                self.emit_load_cmp_byte(g, b, 0, signed, high);
                g.emit(movwf(self.tmp2));
                g.emit(movlw(ordered_byte(*k, 0, signed, high)));
                g.emit(movwf(self.tmp));
                g.emit(movf(self.tmp2));
                g.emit(w_op(Op::Subwf, self.tmp));
                self.emit_cmp_c_const_lhs_wide(g, *k, b, n, high, signed);
            },
            _ => {
                let aa: u32 = self.cx.val_addr(g, a);
                if n > 1 {
                    self.emit_load_cmp_byte(g, b, 0, signed, high);
                    self.emit_acc_w(g, Op::Subwf, aa);
                    self.emit_cmp_c_file_lhs_wide(g, aa, b, n, high, signed);
                } else if signed {
                    g.emit(movlw(0x80));
                    self.emit_acc_w(g, Op::Xorwf, aa);
                    g.emit(movwf(self.scratch));
                    self.emit_load_cmp_byte(g, b, 0, signed, high);
                    self.emit_acc_w(g, Op::Subwf, self.scratch);
                } else {
                    self.emit_load_cmp_byte(g, b, 0, signed, high);
                    self.emit_acc_w(g, Op::Subwf, aa);
                }
            },
        }
    }

    /// Turns a condition on the flags into an `i1` at `dst`.
    pub fn emit_materialize(&self, g: &mut Emitter, c: Cond, dst: u32)
        ensures
            final(g)@ == self.materialize(old(g)@, c, dst),
    {
        g.emit(movlw(0));
        g.emit(cond_skip(c));
        g.emit(movlw(1));
        if let Some(b) = cond_on_equal(c) {
            g.emit(note_z(BitOp::Btfsc));
            g.emit(movlw(b));
        }
        self.emit_put(g, dst);
    }

    /// Copies the address value of `val` into a two-byte slot. The byte
    /// above the address is zero and never read.
    pub fn emit_move_addr_to_slot(&self, g: &mut Emitter, val: &Val, dst: u32)
        requires
            self.wf(),
        ensures
            final(g)@ == self.move_addr(old(g)@, *val, dst),
    {
        match val {
            Val::Const(k) => self.emit_put_addr(g, Imm::Byte(const_byte(*k, 0)), dst),
            Val::Global(n) => {
                if self.cx.is_function(n.as_str()) {
                    let f: usize = self.cx.func_number(n.as_str());
                    self.emit_put_addr(g, Imm::Low(Sym::Func(f)), dst);
                } else {
                    let a: u32 = self.cx.global_addr(g, n.as_str());
                    g.check(a <= 0x3F, IselError::DataSpaceRange);
                    self.emit_put_addr(g, Imm::Byte((a & 0x3F) as u8), dst);
                }
            },
            Val::Reg(r) => match self.cx.find_pointer(r.as_str()) {
                Some(p) => {
                    g.check(p.k == 0 && p.terms.len() == 0, IselError::ComputedSelectArm);
                    match &p.base {
                        Base::Slot(sname, true) => {
                            let sa: u32 = self.cx.local_addr(g, sname.as_str());
                            self.emit_w_load(g, sa);
                            self.emit_w_store(g, dst);
                            g.emit(movlw(0));
                            self.emit_w_store(g, at(dst, 1));
                        },
                        Base::Global(name) => {
                            let a: u32 = self.cx.global_addr(g, name.as_str());
                            g.check(a <= 0x3F, IselError::DataSpaceRange);
                            self.emit_put_addr(g, Imm::Byte((a & 0x3F) as u8), dst);
                        },
                        Base::Slot(_, false) => g.fail(IselError::ComputedSelectArm),
                    }
                },
                None => g.fail(IselError::UnresolvedPointer),
            },
        }
    }

    fn emit_select_arm(&self, g: &mut Emitter, v: &Val, ty: Ty, dst: u32, addr_value: bool)
        requires
            self.wf(),
        ensures
            final(g)@ == self.select_arm(old(g)@, *v, ty, dst, addr_value),
    {
        if addr_value {
            self.emit_move_addr_to_slot(g, v, dst);
        } else {
            self.emit_move_val_to_slot(g, v, ty, dst);
        }
    }

    /// `dst = cond ? a : b`. A destination that holds an address value gets
    /// address bytes, not the bytes behind the address.
    pub fn emit_select(&self, g: &mut Emitter, dst: &str, cond: &Val, ty: Ty, a: &Val, b: &Val)
        requires
            self.wf(),
        ensures
            final(g)@ == self.choose_val(old(g)@, dst@, *cond, ty, *a, *b),
    {
        let da: u32 = self.cx.local_addr(g, dst);
        let av: bool = self.cx.select_is_seeded(dst);
        match cond {
            Val::Const(k) => {
                if *k != 0 {
                    self.emit_select_arm(g, a, ty, da, av);
                } else {
                    self.emit_select_arm(g, b, ty, da, av);
                }
            },
            Val::Global(_) => g.fail(IselError::SelectOnGlobal),
            Val::Reg(r) => {
                let l_else: u32 = g.fresh_label();
                let l_end: u32 = g.fresh_label();
                let ca: u32 = self.cx.local_addr(g, r.as_str());
                self.emit_acc_w(g, Op::Movf, ca);
                g.emit(note_z(BitOp::Btfsc));
                g.emit(goto_tmp(l_else));
                self.emit_select_arm(g, a, ty, da, av);
                g.emit(goto_tmp(l_end));
                g.emit(label_tmp(l_else));
                self.emit_select_arm(g, b, ty, da, av);
                g.emit(label_tmp(l_end));
            },
        }
    }
}

} // verus!
