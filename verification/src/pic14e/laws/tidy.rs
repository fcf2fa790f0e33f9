//! Lines that a jump passes over, that take no label and meet no error.
use vstd::prelude::*;
use crate::emit::{at, clrf, hi8, lo8, movf, movlw, movwf, w_op, Row, St};
use crate::ir::{Base, Pointer, Term, Val};
use crate::line::{Line, Op, Reg};
use crate::machine::Machine;
use crate::pic14e::pointer::{offset_of, Addr};
use crate::pic14e::span::{base_for, straddles};
use crate::pic14e::Gen;
use crate::shape::plain_terms;
use crate::runs::{lemma_tidy_emit, tidy};

verus! {

impl<'a> Gen<'a> {
    /// Whether an object's address is known and its bytes can be reached.
    pub open spec fn object_stands(&self, a: u32, span: u16) -> bool {
        straddles(self.cx.device, a, span) is Ok && base_for(self.cx.device, a, span) is Ok
    }

    /// Whether a global has an address of its own in RAM.
    pub open spec fn placed(&self, name: Seq<char>) -> bool {
        self.cx.global(name) is Some && self.cx.size_of(name) is Some && self.object_stands(
            self.cx.global(name)->0,
            self.cx.size_of(name)->0,
        )
    }

    /// The address by which a pointer reaches a global.
    pub open spec fn address(&self, name: Seq<char>) -> int {
        base_for(self.cx.device, self.cx.global(name)->0, self.cx.size_of(name)->0)->Ok_0 as int
    }

    /// Whether a folded pointer is one whose value code is written for: known slots,
    /// unscaled terms, and an offset on a held address only without terms.
    pub open spec fn has_value(&self, p: Pointer) -> bool {
        &&& plain_terms(p.terms@)
        &&& forall|i: int| 0 <= i < p.terms@.len() ==> self.term_slot(#[trigger] p.terms@[i]) is Some
        &&& match p.base {
            Base::Global(name) => self.placed(name@) && self.address(name@) + p.k <= 0xFFFF,
            Base::Slot(s, indirect) => (indirect || self.cx.holds_addr(s@)) && self.cx.slot(
                self.cx.fname(),
                s@,
            ) is Some && (p.k == 0 || p.terms@.len() == 0),
        }
    }

    /// Whether an operand has a value of `n` bytes: a constant, a register, a folded
    /// pointer, or the address of a global or of a function.
    pub open spec fn has_bytes(&self, v: Val, n: u8) -> bool {
        match v {
            Val::Const(_) => true,
            Val::Reg(r) => match self.cx.pointer(r@) {
                Some(p) => n == 2 && self.has_value(p),
                None => self.cx.slot(self.cx.fname(), r@) is Some,
            },
            Val::Global(g) => self.cx.is_func(g@) || (n <= 2 && self.placed(g@)),
        }
    }

    /// The value of a pointer to a global is the global's address and the offset.
    pub(crate) proof fn lemma_value_step(&self, st: St, name: Seq<char>, k: u8)
        requires
            self.placed(name),
            self.address(name) + k <= 0xFFFF,
        ensures
            self.value_step(st, name, k) == (st, (self.address(name) + k) as u32),
            0 <= self.address(name) <= 0xFFFF,
    {
    }

    pub(crate) proof fn lemma_tidy_load(&self, r0: Seq<Row>, next: u32, st: St, v: Val, n: u8, i: u8)
        requires
            tidy(r0, next, st),
            self.has_bytes(v, n),
            i < n,
        ensures
            tidy(r0, next, self.load_byte(st, v, i)),
    {
        broadcast use lemma_tidy_emit;

        match v {
            Val::Reg(r) => match self.cx.pointer(r@) {
                Some(p) => {
                    if p.terms@.len() >= 1 {
                        assert(self.term_slot(p.terms@[0]) is Some);
                    }
                    if p.terms@.len() >= 2 {
                        assert(self.term_slot(p.terms@[1]) is Some);
                    }
                    if let Base::Global(name) = p.base {
                        self.lemma_value_step(st, name@, p.k);
                    }
                },
                None => {},
            },
            Val::Global(g) => if !self.cx.is_func(g@) {
                self.lemma_value_step(st, g@, 0);
            },
            _ => {},
        }
    }

    pub(crate) proof fn lemma_tidy_move(
        &self,
        r0: Seq<Row>,
        next: u32,
        st: St,
        v: Val,
        n: u8,
        dst: u32,
        i: u8,
    )
        requires
            tidy(r0, next, st),
            self.has_bytes(v, n),
        ensures
            tidy(r0, next, self.move_from(st, v, n, dst, i)),
        decreases n - i,
    {
        if i < n {
            self.lemma_tidy_load(r0, next, st, v, n, i);
            let s1 = self.load_byte(st, v, i);
            let s2 = self.w_store(s1, at(dst, i));
            assert(tidy(r0, next, s2)) by {
                broadcast use lemma_tidy_emit;

            }
            self.lemma_tidy_move(r0, next, s2, v, n, dst, (i + 1) as u8);
        }
    }

    pub(crate) proof fn lemma_tidy_store(
        &self,
        r0: Seq<Row>,
        next: u32,
        st: St,
        v: Val,
        n: u8,
        dst: u32,
        i: u8,
    )
        requires
            tidy(r0, next, st),
            self.has_bytes(v, n),
        ensures
            tidy(r0, next, self.store_to(st, v, n, dst, i)),
        decreases n - i,
    {
        broadcast use lemma_tidy_emit;

        if i < n {
            self.lemma_tidy_load(r0, next, st, v, n, i);
            let s2 = self.load_byte(st, v, i).emit(movwf(at(dst, i)));
            self.lemma_tidy_store(r0, next, s2, v, n, dst, (i + 1) as u8);
        }
    }

    pub(crate) proof fn lemma_tidy_clear(&self, r0: Seq<Row>, next: u32, st: St, da: u32, n: u8, i: u8)
        requires
            tidy(r0, next, st),
        ensures
            tidy(r0, next, self.clear_from(st, da, n, i)),
        decreases n - i,
    {
        broadcast use lemma_tidy_emit;

        if i < n {
            let s1 = st.emit(clrf(at(da, i)));
            self.lemma_tidy_clear(r0, next, s1, da, n, (i + 1) as u8);
        }
    }

    pub(crate) proof fn lemma_tidy_fill(&self, r0: Seq<Row>, next: u32, st: St, da: u32, n: u8, i: u8)
        requires
            tidy(r0, next, st),
        ensures
            tidy(r0, next, self.fill_from(st, da, n, i)),
        decreases n - i,
    {
        broadcast use lemma_tidy_emit;

        if i < n {
            self.lemma_tidy_fill(r0, next, st.emit(movwf(at(da, i))), da, n, (i + 1) as u8);
        }
    }

    proof fn lemma_tidy_accum(&self, r0: Seq<Row>, next: u32, st: St, a: u32, scale: u8)
        requires
            tidy(r0, next, st),
        ensures
            tidy(r0, next, self.accum_term(st, a, scale)),
        decreases scale,
    {
        broadcast use lemma_tidy_emit;

        if scale > 0 {
            let s1 = st.emit(movf(a)).emit(
                w_op(Op::Addwf, self.scratch),
            ).emit(movwf(self.scratch));
            self.lemma_tidy_accum(r0, next, s1, a, (scale - 1) as u8);
        }
    }

    proof fn lemma_tidy_accum_from(&self, r0: Seq<Row>, next: u32, st: St, terms: Seq<Term>, i: int)
        requires
            tidy(r0, next, st),
            self.good_terms(terms),
            0 <= i,
        ensures
            tidy(r0, next, self.accum_from(st, terms, i)),
        decreases terms.len() - i,
    {
        if i < terms.len() {
            let a = self.term_slot(terms[i])->0;
            self.lemma_tidy_accum(r0, next, st, a, terms[i].scale);
            self.lemma_tidy_accum_from(
                r0,
                next,
                self.accum_term(st, a, terms[i].scale),
                terms,
                i + 1,
            );
        }
    }

    proof fn lemma_tidy_offset(&self, r0: Seq<Row>, next: u32, st: St, kk: u8, terms: Seq<Term>)
        requires
            tidy(r0, next, st),
            self.good_terms(terms),
        ensures
            tidy(r0, next, self.fsr_add(self.offset_w(st, kk, terms))),
    {
        broadcast use lemma_tidy_emit;

        if terms.len() == 1 && terms[0].scale == 1 {
            assert(self.term_slot(terms[0]) is Some);
        } else if terms.len() > 0 {
            let s1 = st.emit(movlw(0)).emit(movwf(self.scratch));
            self.lemma_tidy_accum_from(r0, next, s1, terms, 0);
        }
    }

    /// The setup of a pointer that leads to RAM.
    pub(crate) proof fn lemma_tidy_setup(
        &self,
        r0: Seq<Row>,
        next: u32,
        st: St,
        p: Pointer,
        off: u8,
        m: Machine,
    )
        requires
            tidy(r0, next, st),
            self.leads(m, p, off),
        ensures
            tidy(r0, next, self.setup_pointer(st, p, off).0),
    {
        broadcast use lemma_tidy_emit;

        let kk = offset_of(p.k, off);
        let a = self.home_of(p)->0;
        let lo = lo8(kk);
        if self.is_held(p) {
            let s1 = st.emit(movf(a)).emit(
                Line::Movwf(Reg::Fsr0L),
            ).emit(movf(at(a, 1))).emit(Line::Movwf(Reg::Fsr0H));
            self.lemma_tidy_offset(r0, next, s1, lo, p.terms@);
        } else {
            let q = base_for(self.cx.device, a, self.span_of(p)->0)->Ok_0;
            let s1 = st.emit(movlw(lo8(q))).emit(
                Line::Movwf(Reg::Fsr0L),
            ).emit(movlw(hi8(q))).emit(
                Line::Movwf(Reg::Fsr0H),
            );
            self.lemma_tidy_offset(r0, next, s1, lo, p.terms@);
        }
    }

    pub(crate) proof fn lemma_tidy_finish(&self, r0: Seq<Row>, next: u32, st: St, addr: Addr)
        requires
            tidy(r0, next, st),
        ensures
            tidy(r0, next, self.finish_load(st, addr)),
            tidy(r0, next, self.finish_store(st, addr)),
    {
        broadcast use lemma_tidy_emit;

    }

    /// A read behind a pointer that leads to RAM.
    pub(crate) proof fn lemma_tidy_read(
        &self,
        r0: Seq<Row>,
        next: u32,
        st: St,
        v: Val,
        p: Pointer,
        off: u8,
        m: Machine,
    )
        requires
            tidy(r0, next, st),
            self.behind(v, p),
            self.leads(m, p, off),
        ensures
            tidy(r0, next, self.ptr_load_byte(st, v, off)),
    {
        self.lemma_tidy_setup(r0, next, st, p, off, m);
        let (s, addr) = self.setup_pointer(st, p, off);
        self.lemma_tidy_finish(r0, next, s, addr);
    }
}

} // verus!
