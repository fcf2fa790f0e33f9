//! Byte accesses through pointers: file registers, FSR0, and the readers of
//! constant tables.
use vstd::prelude::*;
use crate::emit::{
    at, clrf, f_op, goto_tmp, hi8, label_tmp, lit, lo8, movf, movlw, movwf, on_c, on_z, ram_bit, w_op,
    Emitter, St,
};
use crate::error::IselError;
use crate::ir::{Base, Pointer, Term, Val};
use crate::line::{BitOp, Dest, Line, LitOp, Op, Reg, Sym};
use crate::names::{find_global, global_index};
use crate::pic14e::{Gen, COPY_INDEX, HOLD};

verus! {

/// How a byte access through a pointer completes.
#[derive(Clone, Copy, PartialEq, Eq, Structural, Debug)]
pub enum Addr {
    /// The address is known: a plain file register.
    Direct(u32),
    /// FSR0 holds the address; the access goes through INDF0.
    Indirect,
}

/// `op FSR0L, F`.
#[verifier::allow_in_spec]
pub fn fsr_low(op: Op) -> Line
    returns
        Line::Byte(op, Reg::Fsr0L, Dest::F),
{
    Line::Byte(op, Reg::Fsr0L, Dest::F)
}

/// `op FSR0H, F`.
#[verifier::allow_in_spec]
pub fn fsr_high(op: Op) -> Line
    returns
        Line::Byte(op, Reg::Fsr0H, Dest::F),
{
    Line::Byte(op, Reg::Fsr0H, Dest::F)
}

/// `MOVF INDF0, W`.
#[verifier::allow_in_spec]
pub fn from_indf() -> Line
    returns
        Line::Byte(Op::Movf, Reg::Indf0, Dest::W),
{
    Line::Byte(Op::Movf, Reg::Indf0, Dest::W)
}

/// `MOVWF INDF0`.
#[verifier::allow_in_spec]
pub fn to_indf() -> Line
    returns
        Line::Movwf(Reg::Indf0),
{
    Line::Movwf(Reg::Indf0)
}

/// The number of 256-byte chunks of a table of `size` bytes.
#[verifier::allow_in_spec]
pub fn chunks_of(size: u16) -> u32
    returns
        ((size + 255) / 256) as u32,
{
    (size as u32 + 255) / 256
}

/// The constant part of an offset.
#[verifier::allow_in_spec]
pub fn offset_of(k: u8, off: u8) -> u32
    returns
        (k + off) as u32,
{
    k as u32 + off as u32
}

impl<'a> Gen<'a> {
    /// The index of a global, for the label of its reader.
    pub open spec fn table_no(&self, name: Seq<char>) -> usize {
        global_index(self.cx.m, name).unwrap_or(0)
    }

    /// `scale` further additions of slot `a` to the scratch byte.
    pub open spec fn accum_term(&self, st: St, a: u32, scale: u8) -> St
        decreases scale,
    {
        if scale == 0 {
            st
        } else {
            let st = st.emit(movf(a)).emit(w_op(Op::Addwf, self.scratch)).emit(movwf(self.scratch));
            self.accum_term(st, a, (scale - 1) as u8)
        }
    }

    pub open spec fn accum_from(&self, st: St, terms: Seq<Term>, i: int) -> St
        decreases terms.len() - i,
    {
        if i < 0 || i >= terms.len() {
            st
        } else {
            let (st, a) = self.cx.local_step(st, terms[i].reg@);
            self.accum_from(self.accum_term(st, a, terms[i].scale), terms, i + 1)
        }
    }

    /// The sum of the scaled terms, in the scratch byte.
    pub open spec fn accum_terms(&self, st: St, terms: Seq<Term>) -> St {
        self.accum_from(st.emit(movlw(0)).emit(movwf(self.scratch)), terms, 0)
    }

    /// W plus `kk`.
    pub open spec fn add_offset(&self, st: St, kk: u8) -> St {
        if kk != 0 {
            st.emit(lit(LitOp::Addlw, kk))
        } else {
            st
        }
    }

    /// W becomes `kk` plus the terms.
    pub open spec fn offset_w(&self, st: St, kk: u8, terms: Seq<Term>) -> St {
        if terms.len() == 0 {
            st.emit(movlw(kk))
        } else if terms.len() == 1 && terms[0].scale == 1 {
            let (st, a) = self.cx.local_step(st, terms[0].reg@);
            self.add_offset(st.emit(movf(a)), kk)
        } else {
            self.add_offset(self.accum_terms(st, terms).emit(movf(self.scratch)), kk)
        }
    }

    /// FSR0 plus W, the carry included.
    pub open spec fn fsr_add(&self, st: St) -> St {
        st.emit(fsr_low(Op::Addwf)).emit(on_c(BitOp::Btfsc)).emit(fsr_high(Op::Incf))
    }

    /// FSR0 becomes `base + k + off` plus the terms, for an object of `span`
    /// bytes at `base`.
    pub open spec fn fsr_to(
        &self,
        st: St,
        base: u32,
        k: u8,
        terms: Seq<Term>,
        off: u8,
        span: u16,
    ) -> St {
        let (st, from) = self.base_step(st, base, span);
        let kk = offset_of(k, off);
        let st = st.check(kk <= 0xFF, IselError::OffsetRange);
        let st = st.emit(movlw(lo8(from))).emit(Line::Movwf(Reg::Fsr0L)).emit(
            movlw(hi8(from)),
        ).emit(Line::Movwf(Reg::Fsr0H));
        self.fsr_add(self.offset_w(st, lo8(kk), terms))
    }

    /// FSR0 becomes the address held at `slot`, plus `k + off` plus the terms.
    pub open spec fn fsr_indirect(
        &self,
        st: St,
        slot: u32,
        k: u8,
        terms: Seq<Term>,
        off: u8,
    ) -> St {
        let kk = offset_of(k, off);
        let st = st.check(kk <= 0xFF, IselError::OffsetRange);
        let st = st.emit(movf(slot)).emit(Line::Movwf(Reg::Fsr0L)).emit(movf(at(slot, 1))).emit(
            Line::Movwf(Reg::Fsr0H),
        );
        self.fsr_add(self.offset_w(st, lo8(kk), terms))
    }

    /// The access to byte `k + off` of an object of `span` bytes at `base`.
    pub open spec fn object_setup(
        &self,
        st: St,
        base: u32,
        k: u8,
        terms: Seq<Term>,
        off: u8,
        span: u16,
    ) -> (St, Addr) {
        let (st, crosses) = self.straddle_step(st, base, span);
        if terms.len() == 0 && !crosses {
            (st, Addr::Direct(at(at(base, k), off)))
        } else {
            (self.fsr_to(st, base, k, terms, off, span), Addr::Indirect)
        }
    }

    pub open spec fn global_setup(
        &self,
        st: St,
        name: Seq<char>,
        k: u8,
        terms: Seq<Term>,
        off: u8,
    ) -> (St, Addr) {
        let (st, flash) = self.cx.flash_step(st, name);
        let st = st.check(!flash, IselError::StoreToConst);
        let (st, span) = self.cx.size_step(st, name);
        let (st, base) = self.cx.global_step(st, name);
        self.object_setup(st, base, k, terms, off, span)
    }

    pub open spec fn setup_pointer(&self, st: St, p: Pointer, off: u8) -> (St, Addr) {
        match p.base {
            Base::Global(name) => self.global_setup(st, name@, p.k, p.terms@, off),
            Base::Slot(sname, indirect) => {
                let (st, sa) = self.cx.local_step(st, sname@);
                if indirect || self.cx.holds_addr(sname@) {
                    (self.fsr_indirect(st, sa, p.k, p.terms@, off), Addr::Indirect)
                } else {
                    let (st, span) = self.span_step(st, p.base);
                    self.object_setup(st, sa, p.k, p.terms@, off, span)
                }
            },
        }
    }

    /// The setup for the pointer in register `r`.
    pub open spec fn reg_setup(&self, st: St, r: Seq<char>, off: u8) -> (St, Addr) {
        match self.cx.pointer(r) {
            Some(p) => self.setup_pointer(st, p, off),
            None => (st.fail(IselError::UnresolvedPointer), Addr::Direct(0)),
        }
    }

    /// Whatever the access to byte `off` behind `ptr` needs first, and how
    /// it completes. A constant in flash is refused.
    pub open spec fn ptr_setup(&self, st: St, ptr: Val, off: u8) -> (St, Addr) {
        match ptr {
            Val::Global(name) => self.global_setup(st, name@, 0, Seq::empty(), off),
            Val::Reg(r) => self.reg_setup(st, r@, off),
            Val::Const(_) => (st.fail(IselError::ConstPointer), Addr::Direct(0)),
        }
    }

    pub open spec fn object_uses_fsr(&self, st: St, base: u32, terms: nat, span: u16) -> (St, bool) {
        let (st, crosses) = self.straddle_step(st, base, span);
        (st, terms > 0 || crosses)
    }

    /// Whether the access needs FSR0, whose setup clobbers W.
    pub open spec fn needs_fsr(&self, st: St, ptr: Val) -> (St, bool) {
        match ptr {
            Val::Global(name) => {
                let (st, span) = self.cx.size_step(st, name@);
                let (st, base) = self.cx.global_step(st, name@);
                self.object_uses_fsr(st, base, 0, span)
            },
            Val::Reg(r) => match self.cx.pointer(r@) {
                Some(p) => match p.base {
                    Base::Global(name) => {
                        let (st, span) = self.cx.size_step(st, name@);
                        let (st, base) = self.cx.global_step(st, name@);
                        self.object_uses_fsr(st, base, p.terms@.len(), span)
                    },
                    Base::Slot(sname, indirect) => {
                        let (st, sa) = self.cx.local_step(st, sname@);
                        if indirect || self.cx.holds_addr(sname@) {
                            (st, true)
                        } else {
                            let (st, span) = self.span_step(st, p.base);
                            self.object_uses_fsr(st, sa, p.terms@.len(), span)
                        }
                    },
                },
                None => (st.fail(IselError::UnresolvedPointer), false),
            },
            Val::Const(_) => (st.fail(IselError::ConstPointer), false),
        }
    }

    pub open spec fn finish_load(&self, st: St, addr: Addr) -> St {
        match addr {
            Addr::Direct(a) => st.emit(movf(a)),
            Addr::Indirect => st.emit(from_indf()),
        }
    }

    pub open spec fn finish_store(&self, st: St, addr: Addr) -> St {
        match addr {
            Addr::Direct(a) => st.emit(movwf(a)),
            Addr::Indirect => st.emit(to_indf()),
        }
    }

    /// The call of a reader whose index is in W, the byte parked across the
    /// restore of the page and back in W after it.
    pub open spec fn reader_call(&self, st: St, reader: Sym) -> St {
        self.restore_page(
            st.emit(Line::Call(reader)).emit(movwf(self.scratch)),
            reader,
        ).emit(movf(self.scratch))
    }

    /// W becomes the index into a small table.
    pub open spec fn index_w(&self, st: St, k: u8, terms: Seq<Term>, off: u8) -> St {
        let kk = offset_of(k, off);
        let st = st.check(kk <= 0xFF, IselError::OffsetRange);
        if terms.len() <= 1 && (terms.len() == 1 ==> terms[0].scale == 1) {
            self.offset_w(st, lo8(kk), terms)
        } else {
            self.accum_terms(st, terms).emit(movf(self.scratch)).emit(lit(LitOp::Addlw, lo8(kk)))
        }
    }

    /// W becomes a byte of a table of at most 255 bytes.
    pub open spec fn read_small(&self, st: St, name: Seq<char>, k: u8, terms: Seq<Term>, off: u8) -> St {
        let reader = Sym::Reader(self.table_no(name), 0);
        self.reader_call(self.index_w(self.set_page(st, reader), k, terms, off), reader)
    }

    /// W becomes byte `retval` of chunk `c` of a table.
    pub open spec fn chunk_call(&self, st: St, gi: usize, c: u32) -> St {
        let reader = Sym::Reader(gi, c);
        self.reader_call(self.set_page(st, reader).emit(movf(self.retval)), reader)
    }

    /// The test of bit zero of the chunk number: chunk zero, or chunk one.
    pub open spec fn two_chunks(&self, st: St, gi: usize, done: u32) -> St {
        let l_hi = st.next;
        let st = st.bump().emit(movf(self.retval)).emit(ram_bit(BitOp::Btfsc, self.scratch, 0)).emit(
            goto_tmp(l_hi),
        );
        let st = self.chunk_call(st, gi, 0).emit(goto_tmp(done)).emit(label_tmp(l_hi));
        self.chunk_call(st, gi, 1)
    }

    /// The tests for chunks `c` down to one, each with a fresh label.
    pub open spec fn chunk_tests(&self, st: St, c: u32) -> St
        decreases c,
    {
        if c == 0 {
            st
        } else {
            let l = st.next;
            let st = st.bump().emit(movlw((0x100 - c) as u8)).emit(
                w_op(Op::Addwf, self.scratch),
            ).emit(on_c(BitOp::Btfsc)).emit(goto_tmp(l));
            self.chunk_tests(st, (c - 1) as u32)
        }
    }

    /// The calls for chunks `c` down to one, under labels `l` and up.
    pub open spec fn chunk_calls(&self, st: St, gi: usize, c: u32, l: u32, done: u32) -> St
        decreases c,
    {
        if c == 0 {
            st
        } else {
            let st = self.chunk_call(st.emit(label_tmp(l)), gi, c).emit(goto_tmp(done));
            self.chunk_calls(st, gi, (c - 1) as u32, l.wrapping_add(1), done)
        }
    }

    /// The dispatch over three chunks or more, the last one first.
    pub open spec fn chunk_chain(&self, st: St, gi: usize, n: u32, done: u32) -> St {
        let first = st.next;
        let st = self.chunk_tests(st, (n - 1) as u32);
        let st = self.chunk_call(st, gi, 0).emit(goto_tmp(done));
        self.chunk_calls(st, gi, (n - 1) as u32, first, done)
    }

    pub open spec fn dispatch(&self, st: St, gi: usize, n: u32, done: u32) -> St {
        let st = if n <= 2 {
            self.two_chunks(st, gi, done)
        } else {
            self.chunk_chain(st, gi, n, done)
        };
        st.emit(label_tmp(done))
    }

    /// The index of a byte table: its low byte in the first result byte, its
    /// chunk in the scratch byte.
    pub open spec fn plain_index(&self, st: St, a: u32, kk: u8) -> St {
        st.emit(movf(a)).emit(lit(LitOp::Addlw, kk)).emit(movwf(self.retval)).emit(
            movf(at(a, 1)),
        ).emit(on_c(BitOp::Btfsc)).emit(lit(LitOp::Addlw, 1)).emit(movwf(self.scratch))
    }

    /// The index pair doubled once, and once more for elements of four bytes.
    pub open spec fn double_index(&self, st: St, scale: u8) -> St {
        let st = st.emit(on_c(BitOp::Bcf)).emit(f_op(Op::Rlf, self.retval)).emit(
            f_op(Op::Rlf, self.scratch),
        );
        if scale == 4 {
            st.emit(f_op(Op::Rlf, self.retval)).emit(f_op(Op::Rlf, self.scratch))
        } else {
            st
        }
    }

    /// The scratch byte plus `scale` times the byte at `a`.
    pub open spec fn add_high(&self, st: St, a: u32, scale: u8) -> St {
        let st = st.emit(movf(a)).emit(f_op(Op::Addwf, self.scratch)).emit(
            f_op(Op::Addwf, self.scratch),
        );
        if scale == 4 {
            st.emit(f_op(Op::Addwf, self.scratch)).emit(f_op(Op::Addwf, self.scratch))
        } else {
            st
        }
    }

    /// The index of a table of two-byte or four-byte elements.
    pub open spec fn scaled_index(&self, st: St, a: u32, kk: u8, scale: u8, chunks: u32) -> St {
        let st = self.double_index(
            st.emit(movf(a)).emit(movwf(self.retval)).emit(clrf(self.scratch)),
            scale,
        );
        let st = if chunks >= 3 {
            self.add_high(st, at(a, 1), scale)
        } else {
            st
        };
        st.emit(movf(self.retval)).emit(lit(LitOp::Addlw, kk)).emit(movwf(self.retval)).emit(
            movf(self.scratch),
        ).emit(on_c(BitOp::Btfsc)).emit(lit(LitOp::Addlw, 1)).emit(movwf(self.scratch))
    }

    /// W becomes a byte of a table of 256 bytes or more.
    pub open spec fn read_large(&self, st: St, name: Seq<char>, k: u8, terms: Seq<Term>, off: u8) -> St {
        let kk = offset_of(k, off);
        let st = st.check(kk <= 0xFF, IselError::OffsetRange);
        let (st, size) = self.cx.size_step(st, name);
        let chunks = chunks_of(size);
        if terms.len() == 1 {
            let scale = terms[0].scale;
            let (st, width) = self.width_step(st, terms[0].reg@);
            let st = st.check(width == 2, IselError::LargeTableIndex);
            let st = st.check(scale == 1 || scale == 2 || scale == 4, IselError::LargeTableScale);
            let (st, a) = self.cx.local_step(st, terms[0].reg@);
            let done = st.next;
            let st = st.bump();
            let st = if scale == 1 {
                self.plain_index(st, a, lo8(kk))
            } else {
                self.scaled_index(st, a, lo8(kk), scale, chunks)
            };
            self.dispatch(st, self.table_no(name), chunks, done)
        } else {
            st.fail(IselError::LargeTableIndex)
        }
    }

    /// `W = RAM[ptr + off]`, or the byte of a constant table.
    pub open spec fn ptr_load_byte(&self, st: St, ptr: Val, off: u8) -> St {
        match ptr {
            Val::Reg(r) => self.reg_load_byte(st, r@, off),
            Val::Global(name) => {
                let (st, flash) = self.cx.flash_step(st, name@);
                if flash {
                    let (st, size) = self.cx.size_step(st, name@);
                    let st = st.check(size <= 255, IselError::LargeTableIndex);
                    self.read_small(st, name@, 0, Seq::empty(), off)
                } else {
                    let (st, addr) = self.ptr_setup(st, ptr, off);
                    self.finish_load(st, addr)
                }
            },
            Val::Const(_) => st.fail(IselError::ConstPointer),
        }
    }

    /// `W = RAM[r + off]` for the pointer in register `r`.
    pub open spec fn reg_load_byte(&self, st: St, r: Seq<char>, off: u8) -> St {
        match self.cx.pointer(r) {
            Some(p) => match p.base {
                Base::Global(name) => {
                    let (st, flash) = self.cx.flash_step(st, name@);
                    if flash {
                        let (st, size) = self.cx.size_step(st, name@);
                        if size > 255 {
                            self.read_large(st, name@, p.k, p.terms@, off)
                        } else {
                            self.read_small(st, name@, p.k, p.terms@, off)
                        }
                    } else {
                        let (st, addr) = self.setup_pointer(st, p, off);
                        self.finish_load(st, addr)
                    }
                },
                Base::Slot(_, _) => {
                    let (st, addr) = self.setup_pointer(st, p, off);
                    self.finish_load(st, addr)
                },
            },
            None => st.fail(IselError::UnresolvedPointer),
        }
    }

    /// FSR0 becomes the object behind `ptr` plus the index of the copy loop: the
    /// index byte, and the third result byte above it.
    pub open spec fn copy_fsr(&self, st: St, ptr: Val) -> St {
        let st = match ptr {
            Val::Global(name) => self.copy_base(st, name@, 0, Seq::empty()),
            Val::Reg(r) => match self.cx.pointer(r@) {
                Some(p) => match p.base {
                    Base::Global(name) => self.copy_base(st, name@, p.k, p.terms@),
                    Base::Slot(sname, indirect) => {
                        let st = st.check(!indirect, IselError::MemcpyIndirect);
                        let (st, sa) = self.cx.local_step(st, sname@);
                        let (st, span) = self.span_step(st, p.base);
                        self.fsr_to(st, sa, p.k, p.terms@, 0, span)
                    },
                },
                None => st.fail(IselError::UnresolvedPointer),
            },
            Val::Const(_) => st.fail(IselError::MemcpyPointer),
        };
        self.fsr_add(st.emit(movf(COPY_INDEX))).emit(movf(at(self.retval, 2))).emit(
            fsr_high(Op::Addwf),
        )
    }

    pub open spec fn copy_base(&self, st: St, name: Seq<char>, k: u8, terms: Seq<Term>) -> St {
        let (st, flash) = self.cx.flash_step(st, name);
        let st = st.check(!flash, IselError::MemcpyPointer);
        let (st, span) = self.cx.size_step(st, name);
        let (st, base) = self.cx.global_step(st, name);
        self.fsr_to(st, base, k, terms, 0, span)
    }

    /// A copy of as many bytes as the two bytes at the slot of `len` say. The
    /// count runs down in the first two result bytes.
    pub open spec fn copy_loop(&self, st: St, dst: Val, src: Val, len: Val) -> St {
        let again = st.next;
        let st = st.bump();
        let done = st.next;
        let st = st.bump();
        let (st, la) = self.cx.val_step(st, len);
        let lo = self.retval;
        let hi = at(self.retval, 1);
        let up = at(self.retval, 2);
        let st = self.copy2(st, la, lo).emit(clrf(COPY_INDEX)).emit(clrf(up)).emit(
            label_tmp(again),
        ).emit(movf(lo)).emit(w_op(Op::Iorwf, hi)).emit(on_z(BitOp::Btfsc)).emit(goto_tmp(done));
        let st = self.copy_fsr(st, src).emit(from_indf()).emit(movwf(HOLD));
        let st = self.copy_fsr(st, dst).emit(movf(HOLD)).emit(to_indf());
        let st = st.emit(f_op(Op::Incf, COPY_INDEX)).emit(on_z(BitOp::Btfsc)).emit(
            f_op(Op::Incf, up),
        );
        st.emit(movlw(1)).emit(f_op(Op::Subwf, lo)).emit(on_c(BitOp::Btfss)).emit(f_op(Op::Subwf, hi)).emit(goto_tmp(again)).emit(label_tmp(done))
    }

    pub fn table_number(&self, name: &str) -> (r: usize)
        ensures
            r == self.table_no(name@),
    {
        match find_global(self.cx.m, name) {
            Some(i) => i,
            None => 0,
        }
    }

    /// Sums the scaled terms into the scratch byte. `ADDWF f, W` consumes W,
    /// so the term is loaded again for each repetition.
    pub fn emit_accum_terms(&self, g: &mut Emitter, terms: &Vec<Term>)
        requires
            self.wf(),
        ensures
            final(g)@ == self.accum_terms(old(g)@, terms@),
    {
        g.emit(movlw(0));
        g.emit(movwf(self.scratch));
        let mut i: usize = 0;
        while i < terms.len()
            invariant
                self.wf(),
                i <= terms@.len(),
                self.accum_terms(old(g)@, terms@) == self.accum_from(g@, terms@, i as int),
            decreases terms@.len() - i,
        {
            let a: u32 = self.cx.local_addr(g, terms[i].reg.as_str());
            let ghost here = g@;
            let mut n: u8 = terms[i].scale;
            while n > 0
                invariant
                    self.accum_term(here, a, terms@[i as int].scale) == self.accum_term(g@, a, n),
                decreases n,
            {
                g.emit(movf(a));
                g.emit(w_op(Op::Addwf, self.scratch));
                g.emit(movwf(self.scratch));
                n -= 1;
            }
            i += 1;
        }
    }

    pub fn emit_add_offset(&self, g: &mut Emitter, kk: u8)
        ensures
            final(g)@ == self.add_offset(old(g)@, kk),
    {
        if kk != 0 {
            g.emit(lit(LitOp::Addlw, kk));
        }
    }

    fn emit_offset_w(&self, g: &mut Emitter, kk: u8, terms: &Vec<Term>)
        requires
            self.wf(),
        ensures
            final(g)@ == self.offset_w(old(g)@, kk, terms@),
    {
        if terms.len() == 0 {
            g.emit(movlw(kk));
        } else if terms.len() == 1 && terms[0].scale == 1 {
            let a: u32 = self.cx.local_addr(g, terms[0].reg.as_str());
            g.emit(movf(a));
            self.emit_add_offset(g, kk);
        } else {
            self.emit_accum_terms(g, terms);
            g.emit(movf(self.scratch));
            self.emit_add_offset(g, kk);
        }
    }

    fn emit_fsr_add(&self, g: &mut Emitter)
        ensures
            final(g)@ == self.fsr_add(old(g)@),
    {
        g.emit(fsr_low(Op::Addwf));
        g.emit(on_c(BitOp::Btfsc));
        g.emit(fsr_high(Op::Incf));
    }

    /// Points FSR0 at `base + k + off` plus the terms. The offset stays in
    /// one byte, so one carry suffices.
    pub fn emit_fsr_to(
        &self,
        g: &mut Emitter,
        base: u32,
        k: u8,
        terms: &Vec<Term>,
        off: u8,
        span: u16,
    )
        requires
            self.wf(),
        ensures
            final(g)@ == self.fsr_to(old(g)@, base, k, terms@, off, span),
    {
        let from: u32 = self.find_base(g, base, span);
        let kk: u32 = offset_of(k, off);
        g.check(kk <= 0xFF, IselError::OffsetRange);
        g.emit(movlw(lo8(from)));
        g.emit(Line::Movwf(Reg::Fsr0L));
        g.emit(movlw(hi8(from)));
        g.emit(Line::Movwf(Reg::Fsr0H));
        self.emit_offset_w(g, lo8(kk), terms);
        self.emit_fsr_add(g);
    }

    /// Points FSR0 at the address held in `slot`, plus `k + off` and the
    /// terms.
    pub fn emit_fsr_indirect(&self, g: &mut Emitter, slot: u32, k: u8, terms: &Vec<Term>, off: u8)
        requires
            self.wf(),
        ensures
            final(g)@ == self.fsr_indirect(old(g)@, slot, k, terms@, off),
    {
        let kk: u32 = offset_of(k, off);
        g.check(kk <= 0xFF, IselError::OffsetRange);
        g.emit(movf(slot));
        g.emit(Line::Movwf(Reg::Fsr0L));
        g.emit(movf(at(slot, 1)));
        g.emit(Line::Movwf(Reg::Fsr0H));
        self.emit_offset_w(g, lo8(kk), terms);
        self.emit_fsr_add(g);
    }

    fn emit_object_setup(
        &self,
        g: &mut Emitter,
        base: u32,
        k: u8,
        terms: &Vec<Term>,
        off: u8,
        span: u16,
    ) -> (r: Addr)
        requires
            self.wf(),
        ensures
            (final(g)@, r) == self.object_setup(old(g)@, base, k, terms@, off, span),
    {
        let crosses: bool = self.check_straddle(g, base, span);
        if terms.len() == 0 && !crosses {
            Addr::Direct(at(at(base, k), off))
        } else {
            self.emit_fsr_to(g, base, k, terms, off, span);
            Addr::Indirect
        }
    }

    fn emit_global_setup(&self, g: &mut Emitter, name: &str, k: u8, terms: &Vec<Term>, off: u8) -> (r:
        Addr)
        requires
            self.wf(),
        ensures
            (final(g)@, r) == self.global_setup(old(g)@, name@, k, terms@, off),
    {
        let flash: bool = self.cx.global_is_const(g, name);
        g.check(!flash, IselError::StoreToConst);
        let span: u16 = self.cx.global_size(g, name);
        let base: u32 = self.cx.global_addr(g, name);
        self.emit_object_setup(g, base, k, terms, off, span)
    }

    fn emit_setup_pointer(&self, g: &mut Emitter, p: &Pointer, off: u8) -> (r: Addr)
        requires
            self.wf(),
        ensures
            (final(g)@, r) == self.setup_pointer(old(g)@, *p, off),
    {
        match &p.base {
            Base::Global(name) => self.emit_global_setup(g, name.as_str(), p.k, &p.terms, off),
            Base::Slot(sname, indirect) => {
                let sa: u32 = self.cx.local_addr(g, sname.as_str());
                if *indirect || self.cx.param_holds_addr(sname.as_str()) {
                    self.emit_fsr_indirect(g, sa, p.k, &p.terms, off);
                    Addr::Indirect
                } else {
                    let span: u16 = self.object_span(g, &p.base);
                    self.emit_object_setup(g, sa, p.k, &p.terms, off, span)
                }
            },
        }
    }

    /// Prepares a byte access at offset `off` behind register `r`.
    pub fn emit_reg_setup(&self, g: &mut Emitter, r: &str, off: u8) -> (a: Addr)
        requires
            self.wf(),
        ensures
            (final(g)@, a) == self.reg_setup(old(g)@, r@, off),
    {
        match self.cx.find_pointer(r) {
            Some(p) => self.emit_setup_pointer(g, p, off),
            None => {
                g.fail(IselError::UnresolvedPointer);
                Addr::Direct(0)
            },
        }
    }

    /// Prepares a byte access at `ptr + off`: a plain file register, or FSR0
    /// loaded right before the access.
    pub fn emit_ptr_setup(&self, g: &mut Emitter, ptr: &Val, off: u8) -> (r: Addr)
        requires
            self.wf(),
        ensures
            (final(g)@, r) == self.ptr_setup(old(g)@, *ptr, off),
    {
        match ptr {
            Val::Global(name) => {
                let none: Vec<Term> = Vec::new();
                assert(none@ =~= Seq::<Term>::empty());
                self.emit_global_setup(g, name.as_str(), 0, &none, off)
            },
            Val::Reg(r) => self.emit_reg_setup(g, r.as_str(), off),
            Val::Const(_) => {
                g.fail(IselError::ConstPointer);
                Addr::Direct(0)
            },
        }
    }

    fn check_object_fsr(&self, g: &mut Emitter, base: u32, terms: usize, span: u16) -> (r: bool)
        ensures
            (final(g)@, r) == self.object_uses_fsr(old(g)@, base, terms as nat, span),
    {
        let crosses: bool = self.check_straddle(g, base, span);
        terms > 0 || crosses
    }

    /// Whether the access at `ptr` goes through FSR0.
    pub fn ptr_setup_is_indirect(&self, g: &mut Emitter, ptr: &Val) -> (r: bool)
        requires
            self.wf(),
        ensures
            (final(g)@, r) == self.needs_fsr(old(g)@, *ptr),
    {
        match ptr {
            Val::Global(name) => {
                let span: u16 = self.cx.global_size(g, name.as_str());
                let base: u32 = self.cx.global_addr(g, name.as_str());
                self.check_object_fsr(g, base, 0, span)
            },
            Val::Reg(r) => match self.cx.find_pointer(r.as_str()) {
                Some(p) => match &p.base {
                    Base::Global(name) => {
                        let span: u16 = self.cx.global_size(g, name.as_str());
                        let base: u32 = self.cx.global_addr(g, name.as_str());
                        self.check_object_fsr(g, base, p.terms.len(), span)
                    },
                    Base::Slot(sname, indirect) => {
                        let sa: u32 = self.cx.local_addr(g, sname.as_str());
                        if *indirect || self.cx.param_holds_addr(sname.as_str()) {
                            true
                        } else {
                            let span: u16 = self.object_span(g, &p.base);
                            self.check_object_fsr(g, sa, p.terms.len(), span)
                        }
                    },
                },
                None => {
                    g.fail(IselError::UnresolvedPointer);
                    false
                },
            },
            Val::Const(_) => {
                g.fail(IselError::ConstPointer);
                false
            },
        }
    }

    fn emit_finish_load(&self, g: &mut Emitter, addr: Addr)
        ensures
            final(g)@ == self.finish_load(old(g)@, addr),
    {
        match addr {
            Addr::Direct(a) => g.emit(movf(a)),
            Addr::Indirect => g.emit(from_indf()),
        }
    }

    pub fn emit_finish_store(&self, g: &mut Emitter, addr: Addr)
        ensures
            final(g)@ == self.finish_store(old(g)@, addr),
    {
        match addr {
            Addr::Direct(a) => g.emit(movwf(a)),
            Addr::Indirect => g.emit(to_indf()),
        }
    }

    fn emit_reader_call(&self, g: &mut Emitter, reader: Sym)
        requires
            self.wf(),
        ensures
            final(g)@ == self.reader_call(old(g)@, reader),
    {
        g.emit(Line::Call(reader));
        g.emit(movwf(self.scratch));
        self.emit_pclath_restore(g, reader);
        g.emit(movf(self.scratch));
    }

    /// Computes the index into a small table in W.
    fn emit_ptr_index_w(&self, g: &mut Emitter, k: u8, terms: &Vec<Term>, off: u8)
        requires
            self.wf(),
        ensures
            final(g)@ == self.index_w(old(g)@, k, terms@, off),
    {
        let kk: u32 = offset_of(k, off);
        g.check(kk <= 0xFF, IselError::OffsetRange);
        if terms.len() == 0 || (terms.len() == 1 && terms[0].scale == 1) {
            self.emit_offset_w(g, lo8(kk), terms);
        } else {
            self.emit_accum_terms(g, terms);
            g.emit(movf(self.scratch));
            g.emit(lit(LitOp::Addlw, lo8(kk)));
        }
    }

    /// Reads a small table. PCLATH is set first, as setting it clobbers W.
    fn emit_read_small(&self, g: &mut Emitter, name: &str, k: u8, terms: &Vec<Term>, off: u8)
        requires
            self.wf(),
        ensures
            final(g)@ == self.read_small(old(g)@, name@, k, terms@, off),
    {
        let reader = Sym::Reader(self.table_number(name), 0);
        self.emit_set_page(g, reader);
        self.emit_ptr_index_w(g, k, terms, off);
        self.emit_reader_call(g, reader);
    }

    fn emit_chunk_call(&self, g: &mut Emitter, gi: usize, c: u32)
        requires
            self.wf(),
        ensures
            final(g)@ == self.chunk_call(old(g)@, gi, c),
    {
        let reader = Sym::Reader(gi, c);
        self.emit_set_page(g, reader);
        g.emit(movf(self.retval));
        self.emit_reader_call(g, reader);
    }

    fn emit_two_chunks(&self, g: &mut Emitter, gi: usize, done: u32)
        requires
            self.wf(),
        ensures
            final(g)@ == self.two_chunks(old(g)@, gi, done),
    {
        let l_hi: u32 = g.fresh_label();
        g.emit(movf(self.retval));
        g.emit(ram_bit(BitOp::Btfsc, self.scratch, 0));
        g.emit(goto_tmp(l_hi));
        self.emit_chunk_call(g, gi, 0);
        g.emit(goto_tmp(done));
        g.emit(label_tmp(l_hi));
        self.emit_chunk_call(g, gi, 1);
    }

    /// Descending threshold tests, each of which branches to the call of its
    /// chunk; chunk zero is what falls through.
    fn emit_chunk_chain(&self, g: &mut Emitter, gi: usize, n: u32, done: u32)
        requires
            self.wf(),
            3 <= n <= 256,
        ensures
            final(g)@ == self.chunk_chain(old(g)@, gi, n, done),
    {
        let first: u32 = g.next;
        let ghost entry = g@;
        let mut c: u32 = n - 1;
        while c > 0
            invariant
                c <= n - 1,
                n <= 256,
                self.chunk_tests(entry, (n - 1) as u32) == self.chunk_tests(g@, c),
            decreases c,
        {
            let l: u32 = g.fresh_label();
            g.emit(movlw((0x100 - c) as u8));
            g.emit(w_op(Op::Addwf, self.scratch));
            g.emit(on_c(BitOp::Btfsc));
            g.emit(goto_tmp(l));
            c -= 1;
        }
        self.emit_chunk_call(g, gi, 0);
        g.emit(goto_tmp(done));
        let ghost mid = g@;
        let mut c: u32 = n - 1;
        let mut l: u32 = first;
        while c > 0
            invariant
                self.wf(),
                self.chunk_calls(mid, gi, (n - 1) as u32, first, done) == self.chunk_calls(
                    g@,
                    gi,
                    c,
                    l,
                    done,
                ),
            decreases c,
        {
            g.emit(label_tmp(l));
            self.emit_chunk_call(g, gi, c);
            g.emit(goto_tmp(done));
            l = l.wrapping_add(1);
            c -= 1;
        }
    }

    fn emit_dispatch(&self, g: &mut Emitter, gi: usize, n: u32, done: u32)
        requires
            self.wf(),
            n <= 256,
        ensures
            final(g)@ == self.dispatch(old(g)@, gi, n, done),
    {
        if n <= 2 {
            self.emit_two_chunks(g, gi, done);
        } else {
            self.emit_chunk_chain(g, gi, n, done);
        }
        g.emit(label_tmp(done));
    }

    fn emit_plain_index(&self, g: &mut Emitter, a: u32, kk: u8)
        ensures
            final(g)@ == self.plain_index(old(g)@, a, kk),
    {
        g.emit(movf(a));
        g.emit(lit(LitOp::Addlw, kk));
        g.emit(movwf(self.retval));
        g.emit(movf(at(a, 1)));
        g.emit(on_c(BitOp::Btfsc));
        g.emit(lit(LitOp::Addlw, 1));
        g.emit(movwf(self.scratch));
    }

    fn emit_scaled_index(&self, g: &mut Emitter, a: u32, kk: u8, scale: u8, chunks: u32)
        ensures
            final(g)@ == self.scaled_index(old(g)@, a, kk, scale, chunks),
    {
        g.emit(movf(a));
        g.emit(movwf(self.retval));
        g.emit(clrf(self.scratch));
        g.emit(on_c(BitOp::Bcf));
        g.emit(f_op(Op::Rlf, self.retval));
        g.emit(f_op(Op::Rlf, self.scratch));
        if scale == 4 {
            g.emit(f_op(Op::Rlf, self.retval));
            g.emit(f_op(Op::Rlf, self.scratch));
        }
        if chunks >= 3 {
            g.emit(movf(at(a, 1)));
            g.emit(f_op(Op::Addwf, self.scratch));
            g.emit(f_op(Op::Addwf, self.scratch));
            if scale == 4 {
                g.emit(f_op(Op::Addwf, self.scratch));
                g.emit(f_op(Op::Addwf, self.scratch));
            }
        }
        g.emit(movf(self.retval));
        g.emit(lit(LitOp::Addlw, kk));
        g.emit(movwf(self.retval));
        g.emit(movf(self.scratch));
        g.emit(on_c(BitOp::Btfsc));
        g.emit(lit(LitOp::Addlw, 1));
        g.emit(movwf(self.scratch));
    }

    /// Reads a large table by a 16-bit index: the byte within the chunk, and
    /// the chunk, whose reader is picked by a test or a chain of them.
    pub fn emit_const_read_large(
        &self,
        g: &mut Emitter,
        name: &str,
        k: u8,
        terms: &Vec<Term>,
        off: u8,
    )
        requires
            self.wf(),
        ensures
            final(g)@ == self.read_large(old(g)@, name@, k, terms@, off),
    {
        let kk: u32 = offset_of(k, off);
        g.check(kk <= 0xFF, IselError::OffsetRange);
        let size: u16 = self.cx.global_size(g, name);
        let chunks: u32 = chunks_of(size);
        if terms.len() == 1 {
            let scale: u8 = terms[0].scale;
            let width: u8 = self.reg_bytes(g, terms[0].reg.as_str());
            g.check(width == 2, IselError::LargeTableIndex);
            g.check(scale == 1 || scale == 2 || scale == 4, IselError::LargeTableScale);
            let a: u32 = self.cx.local_addr(g, terms[0].reg.as_str());
            let done: u32 = g.fresh_label();
            if scale == 1 {
                self.emit_plain_index(g, a, lo8(kk));
            } else {
                self.emit_scaled_index(g, a, lo8(kk), scale, chunks);
            }
            self.emit_dispatch(g, self.table_number(name), chunks, done);
        } else {
            g.fail(IselError::LargeTableIndex);
        }
    }

    /// `W = RAM[ptr + off]`. A constant in flash is read by its reader.
    pub fn emit_ptr_load_byte(&self, g: &mut Emitter, ptr: &Val, off: u8)
        requires
            self.wf(),
        ensures
            final(g)@ == self.ptr_load_byte(old(g)@, *ptr, off),
    {
        match ptr {
            Val::Reg(r) => self.emit_reg_load_byte(g, r.as_str(), off),
            Val::Global(name) => {
                let flash: bool = self.cx.global_is_const(g, name.as_str());
                if flash {
                    let size: u16 = self.cx.global_size(g, name.as_str());
                    g.check(size <= 255, IselError::LargeTableIndex);
                    let none: Vec<Term> = Vec::new();
                    assert(none@ =~= Seq::<Term>::empty());
                    self.emit_read_small(g, name.as_str(), 0, &none, off);
                } else {
                    let addr = self.emit_ptr_setup(g, ptr, off);
                    self.emit_finish_load(g, addr);
                }
            },
            Val::Const(_) => g.fail(IselError::ConstPointer),
        }
    }

    /// `W = RAM[r + off]` for the pointer in register `r`.
    pub fn emit_reg_load_byte(&self, g: &mut Emitter, r: &str, off: u8)
        requires
            self.wf(),
        ensures
            final(g)@ == self.reg_load_byte(old(g)@, r@, off),
    {
        match self.cx.find_pointer(r) {
            Some(p) => match &p.base {
                Base::Global(name) => {
                    let flash: bool = self.cx.global_is_const(g, name.as_str());
                    if flash {
                        let size: u16 = self.cx.global_size(g, name.as_str());
                        if size > 255 {
                            self.emit_const_read_large(g, name.as_str(), p.k, &p.terms, off);
                        } else {
                            self.emit_read_small(g, name.as_str(), p.k, &p.terms, off);
                        }
                    } else {
                        let addr = self.emit_setup_pointer(g, p, off);
                        self.emit_finish_load(g, addr);
                    }
                },
                Base::Slot(_, _) => {
                    let addr = self.emit_setup_pointer(g, p, off);
                    self.emit_finish_load(g, addr);
                },
            },
            None => g.fail(IselError::UnresolvedPointer),
        }
    }

    fn emit_copy_base(&self, g: &mut Emitter, name: &str, k: u8, terms: &Vec<Term>)
        requires
            self.wf(),
        ensures
            final(g)@ == self.copy_base(old(g)@, name@, k, terms@),
    {
        let flash: bool = self.cx.global_is_const(g, name);
        g.check(!flash, IselError::MemcpyPointer);
        let span: u16 = self.cx.global_size(g, name);
        let base: u32 = self.cx.global_addr(g, name);
        self.emit_fsr_to(g, base, k, terms, 0, span);
    }

    fn emit_copy_fsr(&self, g: &mut Emitter, ptr: &Val)
        requires
            self.wf(),
        ensures
            final(g)@ == self.copy_fsr(old(g)@, *ptr),
    {
        match ptr {
            Val::Global(name) => {
                let none: Vec<Term> = Vec::new();
                assert(none@ =~= Seq::<Term>::empty());
                self.emit_copy_base(g, name.as_str(), 0, &none);
            },
            Val::Reg(r) => match self.cx.find_pointer(r.as_str()) {
                Some(p) => match &p.base {
                    Base::Global(name) => self.emit_copy_base(g, name.as_str(), p.k, &p.terms),
                    Base::Slot(sname, indirect) => {
                        g.check(!*indirect, IselError::MemcpyIndirect);
                        let sa: u32 = self.cx.local_addr(g, sname.as_str());
                        let span: u16 = self.object_span(g, &p.base);
                        self.emit_fsr_to(g, sa, p.k, &p.terms, 0, span);
                    },
                },
                None => g.fail(IselError::UnresolvedPointer),
            },
            Val::Const(_) => g.fail(IselError::MemcpyPointer),
        }
        g.emit(movf(COPY_INDEX));
        self.emit_fsr_add(g);
        g.emit(movf(at(self.retval, 2)));
        g.emit(fsr_high(Op::Addwf));
    }

    /// Copies a run-time number of bytes. All loop state is common RAM, so
    /// that no bank select falls between a skip and its target; FSR0 is
    /// computed anew for each byte, as it serves both pointers.
    pub fn emit_memcpy_dynamic(&self, g: &mut Emitter, dst: &Val, src: &Val, len: &Val)
        requires
            self.wf(),
        ensures
            final(g)@ == self.copy_loop(old(g)@, *dst, *src, *len),
    {
        let again: u32 = g.fresh_label();
        let done: u32 = g.fresh_label();
        let la: u32 = self.cx.val_addr(g, len);
        let lo: u32 = self.retval;
        let hi: u32 = at(self.retval, 1);
        let up: u32 = at(self.retval, 2);
        self.emit_copy2(g, la, lo);
        g.emit(clrf(COPY_INDEX));
        g.emit(clrf(up));
        g.emit(label_tmp(again));
        g.emit(movf(lo));
        g.emit(w_op(Op::Iorwf, hi));
        g.emit(on_z(BitOp::Btfsc));
        g.emit(goto_tmp(done));
        self.emit_copy_fsr(g, src);
        g.emit(from_indf());
        g.emit(movwf(HOLD));
        self.emit_copy_fsr(g, dst);
        g.emit(movf(HOLD));
        g.emit(to_indf());
        g.emit(f_op(Op::Incf, COPY_INDEX));
        g.emit(on_z(BitOp::Btfsc));
        g.emit(f_op(Op::Incf, up));
        g.emit(movlw(1));
        g.emit(f_op(Op::Subwf, lo));
        g.emit(on_c(BitOp::Btfss));
        g.emit(f_op(Op::Subwf, hi));
        g.emit(goto_tmp(again));
        g.emit(label_tmp(done));
    }
}

} // verus!
