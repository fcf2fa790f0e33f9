//! Values byte by byte: loads, moves, comparisons, selects.
use vstd::prelude::*;
use crate::emit::{
    at, clrf, const_byte, f_op, goto_tmp, hi8, label_tmp, lit, lo8, movf, movlw, movwf, note_c, note_z, on_c, w_op,
    Emitter, St,
};
use crate::error::IselError;
use crate::ir::{Base, Pointer, Term, Ty, Val};
use crate::line::{BitOp, Imm, Line, LitOp, Op, Sym};
use crate::pic14e::{Gen, HOLD};
use crate::shape::{are_plain, cond_on_equal, cond_skip, ordered_byte, plain_terms, Cond};

verus! {

/// Byte `idx` of an address: the low byte, or the one above it.
#[verifier::allow_in_spec]
pub fn addr_byte(a: u32, idx: u8) -> u8
    returns
        (if idx == 0 {
            lo8(a)
        } else {
            hi8(a)
        }),
{
    if idx == 0 {
        lo8(a)
    } else {
        hi8(a)
    }
}

impl<'a> Gen<'a> {
    /// The slots of up to two terms.
    pub open spec fn term_slots(&self, st: St, terms: Seq<Term>) -> (St, u32, u32) {
        if terms.len() == 0 {
            (st, 0, 0)
        } else if terms.len() == 1 {
            let (st, a) = self.cx.local_step(st, terms[0].reg@);
            (st, a, 0)
        } else {
            let (st, a) = self.cx.local_step(st, terms[0].reg@);
            let (st, b) = self.cx.local_step(st, terms[1].reg@);
            (st, a, b)
        }
    }

    /// W plus one if the carry is set.
    pub open spec fn add_carry(&self, st: St) -> St {
        st.emit(on_c(BitOp::Btfsc)).emit(lit(LitOp::Addlw, 1))
    }

    /// The carry into the parking byte.
    pub open spec fn park_carry(&self, st: St) -> St {
        st.emit(clrf(HOLD)).emit(on_c(BitOp::Btfsc)).emit(f_op(Op::Incf, HOLD))
    }

    /// W plus byte `idx` of the terms in slots `a` and `b`, and the carries of
    /// the byte below. Two terms carry twice: the first carry is parked.
    pub open spec fn add_terms(&self, st: St, n: nat, a: u32, b: u32, idx: u8) -> St {
        if n == 0 {
            st
        } else if n == 1 {
            if idx == 0 {
                st.emit(w_op(Op::Addwf, a))
            } else {
                self.add_carry(st).emit(w_op(Op::Addwf, at(a, 1)))
            }
        } else if idx == 0 {
            self.park_carry(st.emit(w_op(Op::Addwf, a))).emit(w_op(Op::Addwf, b))
        } else {
            self.add_carry(st).emit(w_op(Op::Addwf, HOLD)).emit(w_op(Op::Addwf, at(a, 1))).emit(
                w_op(Op::Addwf, at(b, 1)),
            )
        }
    }

    /// W becomes byte `idx` of the address held at `sa` plus `k`.
    pub open spec fn held_byte(&self, st: St, sa: u32, k: u8, idx: u8) -> St {
        if idx == 0 {
            self.add_offset(st.emit(movf(sa)), k)
        } else if k != 0 {
            self.add_carry(st.emit(movf(at(sa, 1))))
        } else {
            st.emit(movf(at(sa, 1)))
        }
    }

    /// W becomes byte `idx` of a folded pointer's address.
    pub open spec fn pointer_byte(&self, st: St, p: Pointer, idx: u8) -> St {
        match p.base {
            Base::Global(name) => {
                let (st, v) = self.value_step(st, name@, p.k);
                if plain_terms(p.terms@) {
                    let (st, a, b) = self.term_slots(st, p.terms@);
                    self.add_terms(st.emit(movlw(addr_byte(v, idx))), p.terms@.len(), a, b, idx)
                } else {
                    st.fail(IselError::TooManyTerms)
                }
            },
            Base::Slot(sname, indirect) => {
                let st = st.check(
                    indirect || self.cx.holds_addr(sname@),
                    IselError::SlotAddressValue,
                );
                let (st, sa) = self.cx.local_step(st, sname@);
                let st = st.check(p.k == 0 || p.terms@.len() == 0, IselError::OffsetWithTerms);
                if plain_terms(p.terms@) {
                    let (st, a, b) = self.term_slots(st, p.terms@);
                    self.add_terms(self.held_byte(st, sa, p.k, idx), p.terms@.len(), a, b, idx)
                } else {
                    st.fail(IselError::TooManyTerms)
                }
            },
        }
    }

    /// W becomes byte `idx` of `val`. The value of a global is its address.
    pub open spec fn load_byte(&self, st: St, val: Val, idx: u8) -> St {
        match val {
            Val::Const(k) => st.emit(movlw(const_byte(k, idx))),
            Val::Reg(r) => match self.cx.pointer(r@) {
                Some(p) => self.pointer_byte(st, p, idx),
                None => {
                    let (st, a) = self.cx.local_step(st, r@);
                    self.w_load(st, at(a, idx))
                },
            },
            Val::Global(n) => if self.cx.is_func(n@) {
                let f = Sym::Func(self.cx.func_no(n@));
                st.emit(
                    Line::Lit(
                        LitOp::Movlw,
                        if idx == 0 {
                            Imm::Low(f)
                        } else {
                            Imm::High(f)
                        },
                    ),
                )
            } else {
                let (st, v) = self.value_step(st, n@, 0);
                st.check(idx < 2, IselError::GlobalOperand).emit(movlw(addr_byte(v, idx)))
            },
        }
    }

    /// W becomes W xor byte `idx` of `val`.
    pub open spec fn xor_byte(&self, st: St, val: Val, idx: u8) -> St {
        match val {
            Val::Const(k) => st.emit(lit(LitOp::Xorlw, const_byte(k, idx))),
            _ => {
                let (st, a) = self.cx.val_step(st, val);
                st.emit(w_op(Op::Xorwf, at(a, idx)))
            },
        }
    }

    /// Bytes `i..n` of `val` into the slot at `dst`.
    pub open spec fn move_from(&self, st: St, val: Val, n: u8, dst: u32, i: u8) -> St
        decreases n - i,
    {
        if i >= n {
            st
        } else {
            self.move_from(
                self.w_store(self.load_byte(st, val, i), at(dst, i)),
                val,
                n,
                dst,
                (i + 1) as u8,
            )
        }
    }

    /// `val` into the slot at `dst`.
    pub open spec fn move_val(&self, st: St, val: Val, ty: Ty, dst: u32) -> St {
        self.move_from(st, val, ty.bytes(), dst, 0)
    }

    /// `RAM[r + off] = byte off of val` for the pointer in register `r`.
    pub open spec fn reg_store_byte(&self, st: St, r: Seq<char>, off: u8, val: Val) -> St {
        let (st, addr) = self.reg_setup(st, r, off);
        self.finish_store(self.load_byte(st, val, off), addr)
    }

    pub open spec fn equal_from(&self, st: St, a: Val, b: Val, n: u8, i: u8) -> St
        decreases n - i,
    {
        if i >= n {
            st
        } else {
            let st = self.xor_byte(self.load_byte(st, a, i), b, i);
            let st = st.emit(w_op(Op::Iorwf, self.scratch)).emit(movwf(self.scratch));
            self.equal_from(st, a, b, n, (i + 1) as u8)
        }
    }

    /// Z becomes `a == b`; the xors of the byte pairs gather in the scratch
    /// byte.
    pub open spec fn equal(&self, st: St, a: Val, b: Val, ty: Ty) -> St {
        let st = self.xor_byte(self.load_byte(st, a, 0), b, 0).emit(movwf(self.scratch));
        self.equal_from(st, a, b, ty.bytes(), 1)
    }

    /// W becomes byte `i` of `v`, ready for an unsigned comparison.
    pub open spec fn load_ordered(&self, st: St, v: Val, i: u8, signed: bool, high: u8) -> St {
        match v {
            Val::Const(k) => st.emit(movlw(ordered_byte(k, i, signed, high))),
            _ => {
                let (st, a) = self.cx.val_step(st, v);
                if signed && i == high {
                    st.emit(movlw(0x80)).emit(w_op(Op::Xorwf, at(a, i)))
                } else {
                    st.emit(movf(at(a, i)))
                }
            },
        }
    }

    /// W becomes the byte at `a`, which W holds already, plus the borrow.
    /// When the sum wraps, the subtraction that follows is skipped: it would
    /// take nothing away and lose the borrow.
    pub open spec fn fold_borrow(&self, st: St, a: u32) -> St {
        st.emit(note_c(BitOp::Btfss)).emit(w_op(Op::Incfsz, a))
    }

    /// Byte `i` of the borrow chain for `a >= b` with `a` in memory at `aa`.
    pub open spec fn file_byte(&self, st: St, aa: u32, b: Val, high: u8, signed: bool, i: u8) -> St {
        let st = self.load_ordered(st, b, i, signed, high);
        if signed && i == high {
            let st = st.emit(movwf(self.retval)).emit(movlw(0x80)).emit(
                w_op(Op::Xorwf, at(aa, i)),
            ).emit(movwf(self.scratch)).emit(movf(self.retval));
            self.fold_borrow(st, self.retval).emit(w_op(Op::Subwf, self.scratch))
        } else {
            let st = match b {
                Val::Const(_) => self.fold_borrow(st.emit(movwf(self.scratch)), self.scratch),
                _ => {
                    let (st, ba) = self.cx.val_step(st, b);
                    self.fold_borrow(st, at(ba, i))
                },
            };
            st.emit(w_op(Op::Subwf, at(aa, i)))
        }
    }

    /// Bytes `i..n` of that chain.
    pub open spec fn file_chain(
        &self,
        st: St,
        aa: u32,
        b: Val,
        n: u8,
        high: u8,
        signed: bool,
        i: u8,
    ) -> St
        decreases n - i,
    {
        if i >= n {
            st
        } else {
            let st = self.file_byte(st, aa, b, high, signed, i);
            self.file_chain(st, aa, b, n, high, signed, (i + 1) as u8)
        }
    }

    /// Byte `i` of the borrow chain for `k >= b`, `k` being the byte of the
    /// constant.
    pub open spec fn lit_byte(&self, st: St, k: u8, b: Val, high: u8, signed: bool, i: u8) -> St {
        let st = self.load_ordered(st, b, i, signed, high);
        let st = if signed && i == high {
            self.fold_borrow(st.emit(movwf(self.retval)), self.retval)
        } else {
            let (st, ba) = self.cx.val_step(st, b);
            self.fold_borrow(st, at(ba, i))
        };
        st.emit(lit(LitOp::Sublw, k))
    }

    /// Bytes `i..n` of that chain.
    pub open spec fn const_chain(
        &self,
        st: St,
        k: i64,
        b: Val,
        n: u8,
        high: u8,
        signed: bool,
        i: u8,
    ) -> St
        decreases n - i,
    {
        if i >= n {
            st
        } else {
            let st = self.lit_byte(st, ordered_byte(k, i, signed, high), b, high, signed, i);
            self.const_chain(st, k, b, n, high, signed, (i + 1) as u8)
        }
    }

    /// C becomes `a >= b`, signed or unsigned.
    pub open spec fn compare(&self, st: St, a: Val, b: Val, ty: Ty, signed: bool) -> St {
        let n = ty.bytes();
        let high = (n - 1) as u8;
        match (a, b) {
            (Val::Const(_), Val::Const(_)) => st.fail(IselError::ConstantFolding),
            (Val::Const(k), _) => self.const_chain(
                self.load_ordered(st, b, 0, signed, high).emit(
                    lit(LitOp::Sublw, ordered_byte(k, 0, signed, high)),
                ),
                k,
                b,
                n,
                high,
                signed,
                1,
            ),
            _ => {
                let (st, aa) = self.cx.val_step(st, a);
                if n > 1 {
                    let st = self.load_ordered(st, b, 0, signed, high).emit(w_op(Op::Subwf, aa));
                    self.file_chain(st, aa, b, n, high, signed, 1)
                } else if signed {
                    let st = st.emit(movlw(0x80)).emit(w_op(Op::Xorwf, aa)).emit(
                        movwf(self.scratch),
                    );
                    self.load_ordered(st, b, 0, signed, high).emit(w_op(Op::Subwf, self.scratch))
                } else {
                    self.load_ordered(st, b, 0, signed, high).emit(w_op(Op::Subwf, aa))
                }
            },
        }
    }

    /// The slot at `dst` becomes one if `c` holds of the flags, else zero.
    pub open spec fn materialize(&self, st: St, c: Cond, dst: u32) -> St {
        let st = st.emit(movlw(0)).emit(cond_skip(c)).emit(movlw(1));
        let st = match cond_on_equal(c) {
            Some(b) => st.emit(note_z(BitOp::Btfsc)).emit(movlw(b)),
            None => st,
        };
        st.emit(movwf(dst))
    }

    /// The address of global `name` into the two-byte slot at `dst`.
    pub open spec fn put_global(&self, st: St, name: Seq<char>, k: u8, dst: u32) -> St {
        let (st, v) = self.value_step(st, name, k);
        self.put_addr(st, v, dst)
    }

    /// The address of a function into the two-byte slot at `dst`.
    pub open spec fn put_func(&self, st: St, name: Seq<char>, dst: u32) -> St {
        let f = Sym::Func(self.cx.func_no(name));
        self.put2(st, Imm::Low(f), Imm::High(f), dst)
    }

    /// The address value of `val` into the two-byte slot at `dst`.
    pub open spec fn move_addr(&self, st: St, val: Val, dst: u32) -> St {
        match val {
            Val::Const(k) => self.put2(
                st,
                Imm::Byte(const_byte(k, 0)),
                Imm::Byte(const_byte(k, 1)),
                dst,
            ),
            Val::Global(n) => if self.cx.is_func(n@) {
                self.put_func(st, n@, dst)
            } else {
                self.put_global(st, n@, 0, dst)
            },
            Val::Reg(r) => match self.cx.pointer(r@) {
                Some(p) => {
                    let st = st.check(
                        p.k == 0 && p.terms@.len() == 0,
                        IselError::ComputedSelectArm,
                    );
                    match p.base {
                        Base::Slot(sname, true) => {
                            let (st, sa) = self.cx.local_step(st, sname@);
                            self.copy2(st, sa, dst)
                        },
                        Base::Global(name) => self.put_global(st, name@, p.k, dst),
                        Base::Slot(_, false) => st.fail(IselError::ComputedSelectArm),
                    }
                },
                None => st.fail(IselError::UnresolvedPointer),
            },
        }
    }

    pub open spec fn select_arm(&self, st: St, v: Val, ty: Ty, dst: u32, addr_value: bool) -> St {
        if addr_value {
            self.move_addr(st, v, dst)
        } else {
            self.move_val(st, v, ty, dst)
        }
    }

    /// `dst = cond ? a : b`, by a jump over two copies.
    pub open spec fn choose_val(&self, st: St, dst: Seq<char>, cond: Val, ty: Ty, a: Val, b: Val) -> St {
        let (st, da) = self.cx.local_step(st, dst);
        let av = self.cx.seeded(dst);
        match cond {
            Val::Const(k) => self.select_arm(
                st,
                if k != 0 {
                    a
                } else {
                    b
                },
                ty,
                da,
                av,
            ),
            Val::Global(_) => st.fail(IselError::SelectOnGlobal),
            Val::Reg(r) => {
                let l_else = st.next;
                let st = st.bump();
                let l_end = st.next;
                let st = st.bump();
                let (st, ca) = self.cx.local_step(st, r@);
                let st = st.emit(movf(ca)).emit(note_z(BitOp::Btfsc)).emit(goto_tmp(l_else));
                let st = self.select_arm(st, a, ty, da, av).emit(goto_tmp(l_end)).emit(
                    label_tmp(l_else),
                );
                self.select_arm(st, b, ty, da, av).emit(label_tmp(l_end))
            },
        }
    }

    fn find_term_slots(&self, g: &mut Emitter, terms: &Vec<Term>) -> (r: (u32, u32))
        requires
            self.wf(),
            terms@.len() <= 2,
        ensures
            (final(g)@, r.0, r.1) == self.term_slots(old(g)@, terms@),
    {
        if terms.len() == 0 {
            (0, 0)
        } else if terms.len() == 1 {
            let a: u32 = self.cx.local_addr(g, terms[0].reg.as_str());
            (a, 0)
        } else {
            let a: u32 = self.cx.local_addr(g, terms[0].reg.as_str());
            let b: u32 = self.cx.local_addr(g, terms[1].reg.as_str());
            (a, b)
        }
    }

    pub fn emit_add_carry(&self, g: &mut Emitter)
        ensures
            final(g)@ == self.add_carry(old(g)@),
    {
        g.emit(on_c(BitOp::Btfsc));
        g.emit(lit(LitOp::Addlw, 1));
    }

    pub fn emit_park_carry(&self, g: &mut Emitter)
        ensures
            final(g)@ == self.park_carry(old(g)@),
    {
        g.emit(clrf(HOLD));
        g.emit(on_c(BitOp::Btfsc));
        g.emit(f_op(Op::Incf, HOLD));
    }

    fn emit_add_terms(&self, g: &mut Emitter, n: usize, a: u32, b: u32, idx: u8)
        ensures
            final(g)@ == self.add_terms(old(g)@, n as nat, a, b, idx),
    {
        if n == 0 {
            return;
        }
        if idx == 0 {
            g.emit(w_op(Op::Addwf, a));
            if n > 1 {
                self.emit_park_carry(g);
                g.emit(w_op(Op::Addwf, b));
            }
        } else {
            self.emit_add_carry(g);
            if n > 1 {
                g.emit(w_op(Op::Addwf, HOLD));
            }
            g.emit(w_op(Op::Addwf, at(a, 1)));
            if n > 1 {
                g.emit(w_op(Op::Addwf, at(b, 1)));
            }
        }
    }

    fn emit_held_byte(&self, g: &mut Emitter, sa: u32, k: u8, idx: u8)
        ensures
            final(g)@ == self.held_byte(old(g)@, sa, k, idx),
    {
        if idx == 0 {
            g.emit(movf(sa));
            self.emit_add_offset(g, k);
        } else {
            g.emit(movf(at(sa, 1)));
            if k != 0 {
                self.emit_add_carry(g);
            }
        }
    }

    fn emit_pointer_byte(&self, g: &mut Emitter, p: &Pointer, idx: u8)
        requires
            self.wf(),
        ensures
            final(g)@ == self.pointer_byte(old(g)@, *p, idx),
    {
        match &p.base {
            Base::Global(name) => {
                let v: u32 = self.ptr_value_addr(g, name.as_str(), p.k);
                if are_plain(&p.terms) {
                    let (a, b) = self.find_term_slots(g, &p.terms);
                    g.emit(movlw(addr_byte(v, idx)));
                    self.emit_add_terms(g, p.terms.len(), a, b, idx);
                } else {
                    g.fail(IselError::TooManyTerms);
                }
            },
            Base::Slot(sname, indirect) => {
                let ok: bool = *indirect || self.cx.param_holds_addr(sname.as_str());
                g.check(ok, IselError::SlotAddressValue);
                let sa: u32 = self.cx.local_addr(g, sname.as_str());
                g.check(p.k == 0 || p.terms.len() == 0, IselError::OffsetWithTerms);
                if are_plain(&p.terms) {
                    let (a, b) = self.find_term_slots(g, &p.terms);
                    self.emit_held_byte(g, sa, p.k, idx);
                    self.emit_add_terms(g, p.terms.len(), a, b, idx);
                } else {
                    g.fail(IselError::TooManyTerms);
                }
            },
        }
    }

    /// Loads byte `idx` of `val` into W. The value of a pointer register and
    /// of a global is an address: the high byte takes the carry that the low
    /// byte left.
    pub fn emit_load_byte(&self, g: &mut Emitter, val: &Val, idx: u8)
        requires
            self.wf(),
        ensures
            final(g)@ == self.load_byte(old(g)@, *val, idx),
    {
        match val {
            Val::Const(k) => g.emit(movlw(const_byte(*k, idx))),
            Val::Reg(r) => match self.cx.find_pointer(r.as_str()) {
                Some(p) => self.emit_pointer_byte(g, p, idx),
                None => {
                    let a: u32 = self.cx.local_addr(g, r.as_str());
                    self.emit_w_load(g, at(a, idx));
                },
            },
            Val::Global(n) => {
                if self.cx.is_function(n.as_str()) {
                    let f = Sym::Func(self.cx.func_number(n.as_str()));
                    let half = if idx == 0 {
                        Imm::Low(f)
                    } else {
                        Imm::High(f)
                    };
                    g.emit(Line::Lit(LitOp::Movlw, half));
                } else {
                    let v: u32 = self.ptr_value_addr(g, n.as_str(), 0);
                    g.check(idx < 2, IselError::GlobalOperand);
                    g.emit(movlw(addr_byte(v, idx)));
                }
            },
        }
    }

    /// Xors byte `idx` of `val` into W.
    pub fn emit_xor_byte(&self, g: &mut Emitter, val: &Val, idx: u8)
        requires
            self.wf(),
        ensures
            final(g)@ == self.xor_byte(old(g)@, *val, idx),
    {
        match val {
            Val::Const(k) => g.emit(lit(LitOp::Xorlw, const_byte(*k, idx))),
            _ => {
                let a: u32 = self.cx.val_addr(g, val);
                g.emit(w_op(Op::Xorwf, at(a, idx)));
            },
        }
    }

    /// Copies `val` into the slot at `dst`.
    pub fn emit_move_val_to_slot(&self, g: &mut Emitter, val: &Val, ty: Ty, dst: u32)
        requires
            self.wf(),
        ensures
            final(g)@ == self.move_val(old(g)@, *val, ty, dst),
    {
        self.emit_move_bytes(g, val, ty.bytes(), dst);
    }

    /// Copies the first `n` bytes of `val` into the slot at `dst`.
    pub fn emit_move_bytes(&self, g: &mut Emitter, val: &Val, n: u8, dst: u32)
        requires
            self.wf(),
        ensures
            final(g)@ == self.move_from(old(g)@, *val, n, dst, 0),
    {
        let mut i: u8 = 0;
        while i < n
            invariant
                self.wf(),
                self.move_from(old(g)@, *val, n, dst, 0) == self.move_from(g@, *val, n, dst, i),
            decreases n - i,
        {
            self.emit_load_byte(g, val, i);
            self.emit_w_store(g, at(dst, i));
            i += 1;
        }
    }

    /// `RAM[r + off] = byte off of val`. The address comes first: its
    /// computation clobbers W.
    pub fn emit_ptr_store_byte(&self, g: &mut Emitter, r: &str, off: u8, val: &Val)
        requires
            self.wf(),
        ensures
            final(g)@ == self.reg_store_byte(old(g)@, r@, off, *val),
    {
        let addr = self.emit_reg_setup(g, r, off);
        self.emit_load_byte(g, val, off);
        self.emit_finish_store(g, addr);
    }

    /// Sets Z to `a == b` and leaves C alone.
    pub fn emit_cmp_eq(&self, g: &mut Emitter, a: &Val, b: &Val, ty: Ty)
        requires
            self.wf(),
        ensures
            final(g)@ == self.equal(old(g)@, *a, *b, ty),
    {
        let n: u8 = ty.bytes();
        self.emit_load_byte(g, a, 0);
        self.emit_xor_byte(g, b, 0);
        g.emit(movwf(self.scratch));
        let mut i: u8 = 1;
        while i < n
            invariant
                self.wf(),
                self.equal(old(g)@, *a, *b, ty) == self.equal_from(g@, *a, *b, n, i),
            decreases n - i,
        {
            self.emit_load_byte(g, a, i);
            self.emit_xor_byte(g, b, i);
            g.emit(w_op(Op::Iorwf, self.scratch));
            g.emit(movwf(self.scratch));
            i += 1;
        }
    }

    /// Loads byte `i` of `v`, with the sign bit flipped in the sign byte of
    /// a signed comparison: flipping maps signed order onto unsigned order.
    pub fn emit_load_cmp_byte(&self, g: &mut Emitter, v: &Val, i: u8, signed: bool, high: u8)
        requires
            self.wf(),
        ensures
            final(g)@ == self.load_ordered(old(g)@, *v, i, signed, high),
    {
        match v {
            Val::Const(k) => g.emit(movlw(ordered_byte(*k, i, signed, high))),
            _ => {
                let a: u32 = self.cx.val_addr(g, v);
                if signed && i == high {
                    g.emit(movlw(0x80));
                    g.emit(w_op(Op::Xorwf, at(a, i)));
                } else {
                    g.emit(movf(at(a, i)));
                }
            },
        }
    }

    fn emit_fold_borrow(&self, g: &mut Emitter, a: u32)
        ensures
            final(g)@ == self.fold_borrow(old(g)@, a),
    {
        g.emit(note_c(BitOp::Btfss));
        g.emit(w_op(Op::Incfsz, a));
    }

    /// The borrow chain above byte zero for a left side in memory.
    fn emit_cmp_c_file_lhs_wide(
        &self,
        g: &mut Emitter,
        aa: u32,
        b: &Val,
        n: u8,
        high: u8,
        signed: bool,
    )
        requires
            self.wf(),
        ensures
            final(g)@ == self.file_chain(old(g)@, aa, *b, n, high, signed, 1),
    {
        let mut i: u8 = 1;
        while i < n
            invariant
                self.wf(),
                self.file_chain(old(g)@, aa, *b, n, high, signed, 1) == self.file_chain(
                    g@,
                    aa,
                    *b,
                    n,
                    high,
                    signed,
                    i,
                ),
            decreases n - i,
        {
            self.emit_load_cmp_byte(g, b, i, signed, high);
            if signed && i == high {
                g.emit(movwf(self.retval));
                g.emit(movlw(0x80));
                g.emit(w_op(Op::Xorwf, at(aa, i)));
                g.emit(movwf(self.scratch));
                g.emit(movf(self.retval));
                self.emit_fold_borrow(g, self.retval);
                g.emit(w_op(Op::Subwf, self.scratch));
            } else {
                match b {
                    Val::Const(_) => {
                        g.emit(movwf(self.scratch));
                        self.emit_fold_borrow(g, self.scratch);
                    },
                    _ => {
                        let ba: u32 = self.cx.val_addr(g, b);
                        self.emit_fold_borrow(g, at(ba, i));
                    },
                }
                g.emit(w_op(Op::Subwf, at(aa, i)));
            }
            i += 1;
        }
    }

    /// The borrow chain above byte zero for a constant left side.
    fn emit_cmp_c_const_lhs_wide(
        &self,
        g: &mut Emitter,
        k: i64,
        b: &Val,
        n: u8,
        high: u8,
        signed: bool,
    )
        requires
            self.wf(),
        ensures
            final(g)@ == self.const_chain(old(g)@, k, *b, n, high, signed, 1),
    {
        let mut i: u8 = 1;
        while i < n
            invariant
                self.wf(),
                self.const_chain(old(g)@, k, *b, n, high, signed, 1) == self.const_chain(
                    g@,
                    k,
                    *b,
                    n,
                    high,
                    signed,
                    i,
                ),
            decreases n - i,
        {
            self.emit_load_cmp_byte(g, b, i, signed, high);
            if signed && i == high {
                g.emit(movwf(self.retval));
                self.emit_fold_borrow(g, self.retval);
            } else {
                let ba: u32 = self.cx.val_addr(g, b);
                self.emit_fold_borrow(g, at(ba, i));
            }
            g.emit(lit(LitOp::Sublw, ordered_byte(k, i, signed, high)));
            i += 1;
        }
    }

    /// Sets C to `a >= b`. On one byte Z is `a == b` too; a wider chain
    /// leaves only the last byte's Z.
    pub fn emit_cmp_c(&self, g: &mut Emitter, a: &Val, b: &Val, ty: Ty, signed: bool)
        requires
            self.wf(),
        ensures
            final(g)@ == self.compare(old(g)@, *a, *b, ty, signed),
    {
        let n: u8 = ty.bytes();
        let high: u8 = n - 1;
        match (a, b) {
            (Val::Const(_), Val::Const(_)) => g.fail(IselError::ConstantFolding),
            (Val::Const(k), _) => {
                self.emit_load_cmp_byte(g, b, 0, signed, high);
                g.emit(lit(LitOp::Sublw, ordered_byte(*k, 0, signed, high)));
                self.emit_cmp_c_const_lhs_wide(g, *k, b, n, high, signed);
            },
            _ => {
                let aa: u32 = self.cx.val_addr(g, a);
                if n > 1 {
                    self.emit_load_cmp_byte(g, b, 0, signed, high);
                    g.emit(w_op(Op::Subwf, aa));
                    self.emit_cmp_c_file_lhs_wide(g, aa, b, n, high, signed);
                } else if signed {
                    g.emit(movlw(0x80));
                    g.emit(w_op(Op::Xorwf, aa));
                    g.emit(movwf(self.scratch));
                    self.emit_load_cmp_byte(g, b, 0, signed, high);
                    g.emit(w_op(Op::Subwf, self.scratch));
                } else {
                    self.emit_load_cmp_byte(g, b, 0, signed, high);
                    g.emit(w_op(Op::Subwf, aa));
                }
            },
        }
    }

    /// Turns a condition on the flags into an `i1` at `dst`.
    pub fn emit_materialize(&self, g: &mut Emitter, c: Cond, dst: u32)
        ensures
            final(g)@ == self.materialize(old(g)@, c, dst),
    {
        g.emit(movlw(0));
        g.emit(cond_skip(c));
        g.emit(movlw(1));
        if let Some(b) = cond_on_equal(c) {
            g.emit(note_z(BitOp::Btfsc));
            g.emit(movlw(b));
        }
        g.emit(movwf(dst));
    }

    pub fn emit_put_global(&self, g: &mut Emitter, name: &str, k: u8, dst: u32)
        ensures
            final(g)@ == self.put_global(old(g)@, name@, k, dst),
    {
        let v: u32 = self.ptr_value_addr(g, name, k);
        self.emit_put_addr(g, v, dst);
    }

    pub fn emit_put_func(&self, g: &mut Emitter, name: &str, dst: u32)
        ensures
            final(g)@ == self.put_func(old(g)@, name@, dst),
    {
        let f = Sym::Func(self.cx.func_number(name));
        self.emit_put2(g, Imm::Low(f), Imm::High(f), dst);
    }

    /// Copies the address value of `val` into a two-byte slot.
    pub fn emit_move_addr_to_slot(&self, g: &mut Emitter, val: &Val, dst: u32)
        requires
            self.wf(),
        ensures
            final(g)@ == self.move_addr(old(g)@, *val, dst),
    {
        match val {
            Val::Const(k) => self.emit_put2(
                g,
                Imm::Byte(const_byte(*k, 0)),
                Imm::Byte(const_byte(*k, 1)),
                dst,
            ),
            Val::Global(n) => {
                if self.cx.is_function(n.as_str()) {
                    self.emit_put_func(g, n.as_str(), dst);
                } else {
                    self.emit_put_global(g, n.as_str(), 0, dst);
                }
            },
            Val::Reg(r) => match self.cx.find_pointer(r.as_str()) {
                Some(p) => {
                    g.check(p.k == 0 && p.terms.len() == 0, IselError::ComputedSelectArm);
                    match &p.base {
                        Base::Slot(sname, true) => {
                            let sa: u32 = self.cx.local_addr(g, sname.as_str());
                            self.emit_copy2(g, sa, dst);
                        },
                        Base::Global(name) => self.emit_put_global(g, name.as_str(), p.k, dst),
                        Base::Slot(_, false) => g.fail(IselError::ComputedSelectArm),
                    }
                },
                None => g.fail(IselError::UnresolvedPointer),
            },
        }
    }

    fn emit_select_arm(&self, g: &mut Emitter, v: &Val, ty: Ty, dst: u32, addr_value: bool)
        requires
            self.wf(),
        ensures
            final(g)@ == self.select_arm(old(g)@, *v, ty, dst, addr_value),
    {
        if addr_value {
            self.emit_move_addr_to_slot(g, v, dst);
        } else {
            self.emit_move_val_to_slot(g, v, ty, dst);
        }
    }

    /// `dst = cond ? a : b`. A destination that holds an address value gets
    /// address bytes, not the bytes behind the address.
    pub fn emit_select(&self, g: &mut Emitter, dst: &str, cond: &Val, ty: Ty, a: &Val, b: &Val)
        requires
            self.wf(),
        ensures
            final(g)@ == self.choose_val(old(g)@, dst@, *cond, ty, *a, *b),
    {
        let da: u32 = self.cx.local_addr(g, dst);
        let av: bool = self.cx.select_is_seeded(dst);
        match cond {
            Val::Const(k) => {
                if *k != 0 {
                    self.emit_select_arm(g, a, ty, da, av);
                } else {
                    self.emit_select_arm(g, b, ty, da, av);
                }
            },
            Val::Global(_) => g.fail(IselError::SelectOnGlobal),
            Val::Reg(r) => {
                let l_else: u32 = g.fresh_label();
                let l_end: u32 = g.fresh_label();
                let ca: u32 = self.cx.local_addr(g, r.as_str());
                g.emit(movf(ca));
                g.emit(note_z(BitOp::Btfsc));
                g.emit(goto_tmp(l_else));
                self.emit_select_arm(g, a, ty, da, av);
                g.emit(goto_tmp(l_end));
                g.emit(label_tmp(l_else));
                self.emit_select_arm(g, b, ty, da, av);
                g.emit(label_tmp(l_end));
            },
        }
    }
}

} // verus!
