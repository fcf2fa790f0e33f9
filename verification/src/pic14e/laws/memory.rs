//! What loads and stores through pointers reach.
use vstd::prelude::*;
use crate::error::IselError;
use crate::emit::{at, hi8, lo8, movf, movlw, movwf, w_op, St};
use crate::ir::{Base, Load, Pointer, Store, Term, Val};
use crate::line::{Line, Op, Reg};
use crate::machine::{exec, group_exec, group_exec_pointer, unlinear, Machine};
use crate::meaning::{apart, kept, kept_but, number, passes, word};
use crate::pic14e::laws::{lemma_movf, lemma_movlw, lemma_movwf, ready};
use crate::pic14e::pointer::{offset_of, Addr};
use crate::names::param_from;
use crate::pic14e::span::{alloca_from, base_for, straddles};
use crate::pic14e::Gen;

verus! {

/// Whether a run went on to the next row and left the registers alone but
/// for W, the flags and FSR0.
pub open spec fn points(before: Machine, after: Machine) -> bool {
    &&& after.flow is Next
    &&& after.core == before.core
    &&& after.pclath == before.pclath
    &&& after.links == before.links
}

/// The address in FSR0.
pub open spec fn fsr_of(m: Machine) -> int {
    m.fsr0.0 + 256 * m.fsr0.1
}

pub(crate) proof fn lemma_halves(p: u32)
    requires
        p <= 0xFFFF,
    ensures
        p == lo8(p) + 256 * hi8(p),
{
    assert(p <= 0xFFFF ==> p == (p & 0xFF) as u8 + 256 * (((p >> 8) & 0xFF) as u8))
        by (bit_vector);
}

impl<'a> Gen<'a> {
    /// The slot of a term.
    pub open spec fn term_slot(&self, t: Term) -> Option<u32> {
        self.cx.slot(self.cx.fname(), t.reg@)
    }

    /// Whether the terms are registers with slots, none of them the scratch
    /// byte.
    pub open spec fn good_terms(&self, terms: Seq<Term>) -> bool {
        forall|i: int|
            0 <= i < terms.len() ==> (self.term_slot(#[trigger] terms[i]) matches Some(a) && a
                != self.scratch)
    }

    /// The sum of the terms from `i` on.
    pub open spec fn terms_sum(&self, m: Machine, terms: Seq<Term>, i: int) -> int
        decreases terms.len() - i,
    {
        if i < 0 || i >= terms.len() {
            0
        } else {
            terms[i].scale * m.ram[self.term_slot(terms[i])->0] + self.terms_sum(m, terms, i + 1)
        }
    }

    /// Whether nothing but the scratch byte changed in RAM.
    pub open spec fn keeps_ram(&self, before: Machine, after: Machine) -> bool {
        forall|x: u32| x != self.scratch ==> #[trigger] after.ram[x] == before.ram[x]
    }

    #[verifier::rlimit(50)]
    proof fn lemma_accum_term(&self, st: St, a: u32, scale: u8, base: int, m: Machine)
        requires
            ready(st, base, m),
            a != self.scratch,
        ensures
            ready(self.accum_term(st, a, scale), base, m),
            ({
                let b = exec(st.rows, base, m);
                let n = exec(self.accum_term(st, a, scale).rows, base, m);
                passes(b, n) && self.keeps_ram(b, n) && n.ram[self.scratch] == (
                b.ram[self.scratch] + scale * b.ram[a]) % 256
            }),
        decreases scale,
    {
        let b = exec(st.rows, base, m);
        let x = b.ram[a] as int;
        if scale > 0 {
            let s1 = st.emit(movf(a)).emit(w_op(Op::Addwf, self.scratch)).emit(movwf(self.scratch));
            assert({
                let n = exec(s1.rows, base, m);
                ready(s1, base, m) && passes(b, n) && self.keeps_ram(b, n) && n.ram[self.scratch]
                    == (b.ram[self.scratch] + x) % 256
            }) by {
                broadcast use group_exec;

            }
            self.lemma_accum_term(s1, a, (scale - 1) as u8, base, m);
            assert(scale * x == x + (scale - 1) * x) by (nonlinear_arith);
        } else {
            assert(0 * x == 0);
        }
    }

    pub(crate) proof fn lemma_accum_from(&self, st: St, terms: Seq<Term>, i: int, base: int, m: Machine)
        requires
            ready(st, base, m),
            self.good_terms(terms),
            0 <= i,
        ensures
            ready(self.accum_from(st, terms, i), base, m),
            ({
                let b = exec(st.rows, base, m);
                let n = exec(self.accum_from(st, terms, i).rows, base, m);
                passes(b, n) && self.keeps_ram(b, n) && n.ram[self.scratch] == (
                b.ram[self.scratch] + self.terms_sum(b, terms, i)) % 256
            }),
        decreases terms.len() - i,
    {
        if i < terms.len() {
            let b = exec(st.rows, base, m);
            let a = self.term_slot(terms[i])->0;
            let s1 = self.accum_term(st, a, terms[i].scale);
            self.lemma_accum_term(st, a, terms[i].scale, base, m);
            self.lemma_accum_from(s1, terms, i + 1, base, m);
            self.lemma_sum_same(b, exec(s1.rows, base, m), terms, i + 1);
        }
    }

    pub(crate) proof fn lemma_sum_same(&self, b: Machine, a: Machine, terms: Seq<Term>, i: int)
        requires
            self.good_terms(terms),
            self.keeps_ram(b, a),
            0 <= i,
        ensures
            self.terms_sum(a, terms, i) == self.terms_sum(b, terms, i),
        decreases terms.len() - i,
    {
        if i < terms.len() {
            self.lemma_sum_same(b, a, terms, i + 1);
        }
    }

    proof fn lemma_add_offset(&self, st: St, kk: u8, base: int, m: Machine)
        requires
            ready(st, base, m),
        ensures
            ready(self.add_offset(st, kk), base, m),
            ({
                let b = exec(st.rows, base, m);
                let n = exec(self.add_offset(st, kk).rows, base, m);
                passes(b, n) && n.ram == b.ram && n.w == (b.w + kk) % 256
            }),
    {
        broadcast use group_exec;

    }

    /// W becomes the offset, modulo 256.
    pub(crate) proof fn lemma_offset_w(&self, st: St, kk: u8, terms: Seq<Term>, base: int, m: Machine)
        requires
            ready(st, base, m),
            self.good_terms(terms),
        ensures
            ready(self.offset_w(st, kk, terms), base, m),
            ({
                let b = exec(st.rows, base, m);
                let n = exec(self.offset_w(st, kk, terms).rows, base, m);
                passes(b, n) && self.keeps_ram(b, n) && n.w == (kk + self.terms_sum(b, terms, 0))
                    % 256
            }),
    {
        let b = exec(st.rows, base, m);
        if terms.len() == 0 {
            lemma_movlw(st, kk, base, m);
        } else if terms.len() == 1 && terms[0].scale == 1 {
            let a = self.term_slot(terms[0])->0;
            lemma_movf(st, a, base, m);
            self.lemma_add_offset(st.emit(movf(a)), kk, base, m);
            reveal_with_fuel(Gen::terms_sum, 2);
            assert(1 * b.ram[a] == b.ram[a]);
        } else {
            let s1 = st.emit(movlw(0));
            lemma_movlw(st, 0, base, m);
            let s2 = s1.emit(movwf(self.scratch));
            lemma_movwf(s1, self.scratch, base, m);
            let s3 = self.accum_from(s2, terms, 0);
            self.lemma_accum_from(s2, terms, 0, base, m);
            self.lemma_sum_same(b, exec(s2.rows, base, m), terms, 0);
            let s4 = s3.emit(movf(self.scratch));
            lemma_movf(s3, self.scratch, base, m);
            self.lemma_add_offset(s4, kk, base, m);
        }
    }

    /// FSR0 plus W.
    pub(crate) proof fn lemma_fsr_add(&self, st: St, base: int, m: Machine)
        requires
            ready(st, base, m),
            fsr_of(exec(st.rows, base, m)) + exec(st.rows, base, m).w <= 0xFFFF,
        ensures
            ready(self.fsr_add(st), base, m),
            ({
                let b = exec(st.rows, base, m);
                let n = exec(self.fsr_add(st).rows, base, m);
                points(b, n) && n.ram == b.ram && fsr_of(n) == fsr_of(b) + b.w
            }),
    {
        broadcast use group_exec_pointer;

    }

    pub(crate) proof fn lemma_fsr_set(&self, st: St, p: u32, base: int, m: Machine)
        requires
            ready(st, base, m),
            p <= 0xFFFF,
        ensures
            ({
                let t = st.emit(movlw(lo8(p))).emit(Line::Movwf(Reg::Fsr0L)).emit(
                    movlw(hi8(p)),
                ).emit(Line::Movwf(Reg::Fsr0H));
                let b = exec(st.rows, base, m);
                let n = exec(t.rows, base, m);
                ready(t, base, m) && points(b, n) && n.ram == b.ram && fsr_of(n) == p
            }),
    {
        broadcast use group_exec_pointer;

        lemma_halves(p);
    }

    pub(crate) proof fn lemma_fsr_from(&self, st: St, slot: u32, base: int, m: Machine)
        requires
            ready(st, base, m),
        ensures
            ({
                let t = st.emit(movf(slot)).emit(Line::Movwf(Reg::Fsr0L)).emit(
                    movf(at(slot, 1)),
                ).emit(Line::Movwf(Reg::Fsr0H));
                let b = exec(st.rows, base, m);
                let n = exec(t.rows, base, m);
                ready(t, base, m) && points(b, n) && n.ram == b.ram && fsr_of(n) == b.ram[slot] + 256
                    * b.ram[at(slot, 1)]
            }),
    {
        broadcast use group_exec_pointer;

    }

    /// The size of the object a folded pointer starts at.
    pub open spec fn span_of(&self, p: Pointer) -> Option<u16> {
        let f = self.cx.m.funcs@[self.cx.func as int];
        match p.base {
            Base::Global(name) => self.cx.size_of(name@),
            Base::Slot(sname, _) => match param_from(f.params@, sname@, 0) {
                Some(i) => Some(f.params@[i as int].width as u16),
                None => alloca_from(f.blocks@, sname@, 0),
            },
        }
    }

    /// Whether a folded pointer starts at an address that a slot holds.
    pub open spec fn is_held(&self, p: Pointer) -> bool {
        match p.base {
            Base::Global(_) => false,
            Base::Slot(sname, indirect) => indirect || self.cx.holds_addr(sname@),
        }
    }

    /// The byte that a folded pointer's object starts at.
    pub open spec fn home_of(&self, p: Pointer) -> Option<u32> {
        match p.base {
            Base::Global(name) => if self.cx.in_flash(name@) == Some(false) {
                self.cx.global(name@)
            } else {
                None
            },
            Base::Slot(sname, _) => self.cx.slot(self.cx.fname(), sname@),
        }
    }

    /// The pointer value that a folded pointer starts from.
    pub open spec fn start_of(&self, m: Machine, p: Pointer) -> int {
        let a = self.home_of(p)->0;
        if self.is_held(p) {
            m.ram[a] + 256 * m.ram[at(a, 1)]
        } else {
            base_for(self.cx.device, a, self.span_of(p)->0)->Ok_0 as int
        }
    }

    /// The byte behind a folded pointer at offset `off`.
    pub open spec fn target(&self, m: Machine, p: Pointer, off: u8) -> u32 {
        unlinear(self.start_of(m, p) + (p.k + off + self.terms_sum(m, p.terms@, 0)) % 256)
    }

    /// Whether a folded pointer leads to RAM at offset `off`: its object is
    /// known, its constant offset fits a byte, its terms have slots, and it
    /// stays in the address space.
    pub open spec fn leads(&self, m: Machine, p: Pointer, off: u8) -> bool {
        &&& self.home_of(p) is Some
        &&& p.k + off <= 0xFF
        &&& self.good_terms(p.terms@)
        &&& self.start_of(m, p) + 255 <= 0xFFFF
        &&& !self.is_held(p) ==> {
            &&& self.span_of(p) is Some
            &&& straddles(self.cx.device, self.home_of(p)->0, self.span_of(p)->0) is Ok
            &&& base_for(self.cx.device, self.home_of(p)->0, self.span_of(p)->0) is Ok
            &&& straddles(self.cx.device, self.home_of(p)->0, self.span_of(p)->0) == Ok::<
                bool,
                IselError,
            >(false) ==> self.home_of(p)->0 + p.k + off < 0x2000
        }
    }

    /// After the setup the access completes at the target.
    pub(crate) proof fn lemma_setup(&self, st: St, p: Pointer, off: u8, base: int, m: Machine)
        requires
            ready(st, base, m),
            self.leads(exec(st.rows, base, m), p, off),
        ensures
            ({
                let (s, addr) = self.setup_pointer(st, p, off);
                let b = exec(st.rows, base, m);
                let a = exec(s.rows, base, m);
                ready(s, base, m) && points(b, a) && self.keeps_ram(b, a) && match addr {
                    Addr::Direct(x) => x == self.target(b, p, off),
                    Addr::Indirect => unlinear(fsr_of(a)) == self.target(b, p, off),
                }
            }),
    {
        let b = exec(st.rows, base, m);
        let a = self.home_of(p)->0;
        let kk = offset_of(p.k, off);
        assert(lo8(kk) == kk) by {
            assert(kk <= 0xFF ==> (kk & 0xFF) as u8 == kk) by (bit_vector);
        }
        if self.is_held(p) {
            let s1 = st.emit(movf(a)).emit(Line::Movwf(Reg::Fsr0L)).emit(movf(at(a, 1))).emit(
                Line::Movwf(Reg::Fsr0H),
            );
            self.lemma_fsr_from(st, a, base, m);
            self.lemma_offset_w(s1, lo8(kk), p.terms@, base, m);
            self.lemma_sum_same(b, exec(s1.rows, base, m), p.terms@, 0);
            self.lemma_fsr_add(self.offset_w(s1, lo8(kk), p.terms@), base, m);
        } else {
            let span = self.span_of(p)->0;
            let crosses = straddles(self.cx.device, a, span)->Ok_0;
            if p.terms@.len() == 0 && !crosses {
            } else {
                let q = base_for(self.cx.device, a, span)->Ok_0;
                let s1 = st.emit(movlw(lo8(q))).emit(Line::Movwf(Reg::Fsr0L)).emit(
                    movlw(hi8(q)),
                ).emit(Line::Movwf(Reg::Fsr0H));
                self.lemma_fsr_set(st, q, base, m);
                self.lemma_offset_w(s1, lo8(kk), p.terms@, base, m);
                self.lemma_sum_same(b, exec(s1.rows, base, m), p.terms@, 0);
                self.lemma_fsr_add(self.offset_w(s1, lo8(kk), p.terms@), base, m);
            }
        }
    }

    pub(crate) proof fn lemma_finish_load(&self, st: St, addr: Addr, base: int, m: Machine)
        requires
            ready(st, base, m),
        ensures
            ready(self.finish_load(st, addr), base, m),
            ({
                let b = exec(st.rows, base, m);
                let a = exec(self.finish_load(st, addr).rows, base, m);
                points(b, a) && a.ram == b.ram && a.w == (match addr {
                    Addr::Direct(x) => b.ram[x],
                    Addr::Indirect => b.ram[unlinear(fsr_of(b))],
                })
            }),
    {
        broadcast use group_exec_pointer;

    }

    pub(crate) proof fn lemma_finish_store(&self, st: St, addr: Addr, base: int, m: Machine)
        requires
            ready(st, base, m),
        ensures
            ready(self.finish_store(st, addr), base, m),
            ({
                let b = exec(st.rows, base, m);
                let a = exec(self.finish_store(st, addr).rows, base, m);
                points(b, a) && a.ram == b.ram.insert(
                    match addr {
                        Addr::Direct(x) => x,
                        Addr::Indirect => unlinear(fsr_of(b)),
                    },
                    b.w,
                )
            }),
    {
        broadcast use group_exec_pointer;

    }

    /// A read through a folded pointer gives the byte that the pointer leads
    /// to, and changes nothing in RAM but the scratch byte.
    pub proof fn law_pointer_reads_its_target(
        &self,
        st: St,
        r: Seq<char>,
        off: u8,
        base: int,
        m: Machine,
    )
        requires
            ready(st, base, m),
            self.cx.pointer(r) is Some,
            self.leads(exec(st.rows, base, m), self.cx.pointer(r)->0, off),
            self.target(exec(st.rows, base, m), self.cx.pointer(r)->0, off) != self.scratch,
        ensures
            ready(self.reg_load_byte(st, r, off), base, m),
            ({
                let p = self.cx.pointer(r)->0;
                let b = exec(st.rows, base, m);
                let a = exec(self.reg_load_byte(st, r, off).rows, base, m);
                points(b, a) && self.keeps_ram(b, a) && a.w == b.ram[self.target(b, p, off)]
            }),
    {
        let p = self.cx.pointer(r)->0;
        self.lemma_setup(st, p, off, base, m);
        let (s, addr) = self.setup_pointer(st, p, off);
        self.lemma_finish_load(s, addr, base, m);
    }

    /// A write through a folded pointer puts the byte where the pointer
    /// leads to, and changes nothing else in RAM but the scratch byte.
    pub proof fn law_pointer_writes_its_target(
        &self,
        st: St,
        r: Seq<char>,
        off: u8,
        v: Val,
        base: int,
        m: Machine,
    )
        requires
            ready(st, base, m),
            self.cx.pointer(r) is Some,
            self.leads(exec(st.rows, base, m), self.cx.pointer(r)->0, off),
            self.plain(v),
            self.slot_of(v) matches Some(a) ==> at(a, off) != self.scratch,
        ensures
            ready(self.reg_store_byte(st, r, off, v), base, m),
            ({
                let p = self.cx.pointer(r)->0;
                let b = exec(st.rows, base, m);
                let a = exec(self.reg_store_byte(st, r, off, v).rows, base, m);
                let t = self.target(b, p, off);
                points(b, a) && a.ram[t] == self.byte_of(b, v, off) && (forall|x: u32|
                    x != t && x != self.scratch ==> #[trigger] a.ram[x] == b.ram[x])
            }),
    {
        let p = self.cx.pointer(r)->0;
        let b = exec(st.rows, base, m);
        self.lemma_setup(st, p, off, base, m);
        let (s, addr) = self.setup_pointer(st, p, off);
        self.lemma_load_byte(s, v, off, base, m);
        self.lemma_finish_store(self.load_byte(s, v, off), addr, base, m);
        assert(self.byte_of(exec(s.rows, base, m), v, off) == self.byte_of(b, v, off));
    }

    /// Whether a folded pointer is computed from the same bytes in both
    /// machines.
    pub open spec fn same_pointer(&self, b: Machine, a: Machine, p: Pointer) -> bool {
        &&& forall|i: int|
            0 <= i < p.terms@.len() ==> a.ram[self.term_slot(#[trigger] p.terms@[i])->0]
                == b.ram[self.term_slot(p.terms@[i])->0]
        &&& self.is_held(p) ==> a.ram[self.home_of(p)->0] == b.ram[self.home_of(p)->0] && a.ram[at(
            self.home_of(p)->0,
            1,
        )] == b.ram[at(self.home_of(p)->0, 1)]
    }

    proof fn lemma_same_sum(&self, b: Machine, a: Machine, p: Pointer, i: int)
        requires
            self.same_pointer(b, a, p),
            0 <= i,
        ensures
            self.terms_sum(a, p.terms@, i) == self.terms_sum(b, p.terms@, i),
        decreases p.terms@.len() - i,
    {
        if i < p.terms@.len() {
            self.lemma_same_sum(b, a, p, i + 1);
        }
    }

    pub(crate) proof fn lemma_same_target(&self, b: Machine, a: Machine, p: Pointer)
        requires
            self.same_pointer(b, a, p),
        ensures
            forall|off: u8| #[trigger] self.target(a, p, off) == self.target(b, p, off),
            forall|off: u8| #[trigger] self.leads(b, p, off) ==> self.leads(a, p, off),
    {
        self.lemma_same_sum(b, a, p, 0);
    }

    /// Whether the `n` bytes at `dst` hold nothing that a folded pointer is
    /// computed from.
    pub open spec fn beside(&self, p: Pointer, dst: u32, n: int) -> bool {
        &&& dst <= 0xFFFF
        &&& apart(dst, n, self.scratch, 1)
        &&& forall|i: int|
            0 <= i < p.terms@.len() ==> apart(
                dst,
                n,
                self.term_slot(#[trigger] p.terms@[i])->0,
                1,
            )
        &&& self.is_held(p) ==> apart(dst, n, self.home_of(p)->0, 2) && apart(
            self.home_of(p)->0,
            2,
            self.scratch,
            1,
        )
    }

    /// What was written through a folded pointer is what is read back
    /// through it.
    pub proof fn law_read_gives_back_the_write(
        &self,
        st: St,
        r: Seq<char>,
        off: u8,
        v: Val,
        base: int,
        m: Machine,
    )
        requires
            ready(st, base, m),
            self.cx.pointer(r) is Some,
            self.leads(exec(st.rows, base, m), self.cx.pointer(r)->0, off),
            self.plain(v),
            self.slot_of(v) matches Some(a) ==> at(a, off) != self.scratch,
            self.beside(
                self.cx.pointer(r)->0,
                self.target(exec(st.rows, base, m), self.cx.pointer(r)->0, off),
                1,
            ),
        ensures
            ({
                let s1 = self.reg_store_byte(st, r, off, v);
                let b = exec(st.rows, base, m);
                let a = exec(self.reg_load_byte(s1, r, off).rows, base, m);
                a.flow is Next && a.w == self.byte_of(b, v, off)
            }),
    {
        let p = self.cx.pointer(r)->0;
        let b = exec(st.rows, base, m);
        let s1 = self.reg_store_byte(st, r, off, v);
        self.law_pointer_writes_its_target(st, r, off, v, base, m);
        let c = exec(s1.rows, base, m);
        let t = self.target(b, p, off);
        assert(self.same_pointer(b, c, p)) by {
            assert forall|i: int| 0 <= i < p.terms@.len() implies c.ram[self.term_slot(
                #[trigger] p.terms@[i],
            )->0] == b.ram[self.term_slot(p.terms@[i])->0] by {}
        }
        self.lemma_same_target(b, c, p);
        self.law_pointer_reads_its_target(s1, r, off, base, m);
    }

    proof fn lemma_load_through(
        &self,
        st: St,
        r: Seq<char>,
        dst: u32,
        n: u8,
        k: u8,
        base: int,
        m: Machine,
    )
        requires
            ready(st, base, m),
            self.cx.pointer(r) is Some,
            self.beside(self.cx.pointer(r)->0, dst, n as int),
            ({
                let b = exec(st.rows, base, m);
                let p = self.cx.pointer(r)->0;
                forall|j: u8|
                    k <= j < n ==> #[trigger] self.leads(b, p, j) && self.target(b, p, j)
                        != self.scratch && apart(dst, n as int, self.target(b, p, j), 1)
            }),
        ensures
            ready(self.load_through(st, r, dst, n, k), base, m),
            ({
                let b = exec(st.rows, base, m);
                let a = exec(self.load_through(st, r, dst, n, k).rows, base, m);
                let p = self.cx.pointer(r)->0;
                points(b, a) && kept_but(b, a, dst, n as int, self.scratch) && (forall|j: u8|
                    k <= j < n ==> #[trigger] a.ram[at(dst, j)] == b.ram[self.target(b, p, j)]) && (
                forall|j: u8| j < k ==> #[trigger] a.ram[at(dst, j)] == b.ram[at(dst, j)])
            }),
        decreases n - k,
    {
        if k < n {
            let p = self.cx.pointer(r)->0;
            let b = exec(st.rows, base, m);
            assert(self.leads(b, p, k));
            self.law_pointer_reads_its_target(st, r, k, base, m);
            let s1 = self.reg_load_byte(st, r, k);
            self.lemma_w_store(s1, at(dst, k), base, m);
            let s2 = self.w_store(s1, at(dst, k));
            let c = exec(s2.rows, base, m);
            assert(self.same_pointer(b, c, p)) by {
                assert forall|i: int| 0 <= i < p.terms@.len() implies c.ram[self.term_slot(
                    #[trigger] p.terms@[i],
                )->0] == b.ram[self.term_slot(p.terms@[i])->0] by {}
            }
            self.lemma_same_target(b, c, p);
            assert forall|j: u8| k + 1 <= j < n implies #[trigger] self.leads(c, p, j)
                && self.target(c, p, j) != self.scratch && apart(
                dst,
                n as int,
                self.target(c, p, j),
                1,
            ) by {
                assert(self.leads(b, p, j));
            }
            self.lemma_load_through(s2, r, dst, n, (k + 1) as u8, base, m);
            let a = exec(self.load_through(st, r, dst, n, k).rows, base, m);
            assert forall|j: u8| k <= j < n implies #[trigger] a.ram[at(dst, j)]
                == b.ram[self.target(b, p, j)] by {
                assert(self.leads(b, p, j));
                assert(c.ram[self.target(b, p, j)] == b.ram[self.target(b, p, j)]);
            }
        }
    }

    /// A load through a folded pointer leaves the number that its target
    /// bytes write in the slot of its result.
    pub proof fn law_load_reads_memory(
        &self,
        st: St,
        r: Seq<char>,
        dst: u32,
        n: u8,
        base: int,
        m: Machine,
    )
        requires
            ready(st, base, m),
            n == 1 || n == 2 || n == 4,
            self.cx.pointer(r) is Some,
            self.beside(self.cx.pointer(r)->0, dst, n as int),
            ({
                let b = exec(st.rows, base, m);
                let p = self.cx.pointer(r)->0;
                forall|j: u8|
                    j < n ==> #[trigger] self.leads(b, p, j) && self.target(b, p, j)
                        != self.scratch && apart(dst, n as int, self.target(b, p, j), 1)
            }),
        ensures
            ready(self.load_through(st, r, dst, n, 0), base, m),
            ({
                let b = exec(st.rows, base, m);
                let a = exec(self.load_through(st, r, dst, n, 0).rows, base, m);
                let p = self.cx.pointer(r)->0;
                points(b, a) && kept_but(b, a, dst, n as int, self.scratch) && word(a, dst, n)
                    == number(
                    b.ram[self.target(b, p, 0)],
                    b.ram[self.target(b, p, 1)],
                    b.ram[self.target(b, p, 2)],
                    b.ram[self.target(b, p, 3)],
                    n,
                )
            }),
    {
        self.lemma_load_through(st, r, dst, n, 0, base, m);
        let b = exec(st.rows, base, m);
        let a = exec(self.load_through(st, r, dst, n, 0).rows, base, m);
        let p = self.cx.pointer(r)->0;
        assert(a.ram[at(dst, 0)] == b.ram[self.target(b, p, 0)]);
        if n > 1 {
            assert(a.ram[at(dst, 1)] == b.ram[self.target(b, p, 1)]);
        }
        if n > 2 {
            assert(a.ram[at(dst, 2)] == b.ram[self.target(b, p, 2)]);
            assert(a.ram[at(dst, 3)] == b.ram[self.target(b, p, 3)]);
        }
    }

    pub(crate) proof fn lemma_load_from(&self, st: St, src: u32, dst: u32, n: u8, k: u8, base: int, m: Machine)
        requires
            ready(st, base, m),
            dst <= 0xFFFF,
            src <= 0xFFFF,
            src == dst || apart(src, n as int, dst, n as int),
        ensures
            ready(self.load_from(st, src, dst, n, k), base, m),
            ({
                let b = exec(st.rows, base, m);
                let a = exec(self.load_from(st, src, dst, n, k).rows, base, m);
                passes(b, a) && kept(b, a, dst, n as int) && (forall|j: u8|
                    k <= j < n ==> #[trigger] a.ram[at(dst, j)] == b.ram[at(src, j)]) && (forall|
                    j: u8,
                | j < k ==> #[trigger] a.ram[at(dst, j)] == b.ram[at(dst, j)])
            }),
        decreases n - k,
    {
        if k < n {
            let b = exec(st.rows, base, m);
            let s1 = st.emit(movf(at(src, k)));
            lemma_movf(st, at(src, k), base, m);
            let s2 = self.w_store(s1, at(dst, k));
            self.lemma_w_store(s1, at(dst, k), base, m);
            let c = exec(s2.rows, base, m);
            self.lemma_load_from(s2, src, dst, n, (k + 1) as u8, base, m);
            let a = exec(self.load_from(st, src, dst, n, k).rows, base, m);
            assert forall|j: u8| k <= j < n implies #[trigger] a.ram[at(dst, j)] == b.ram[at(
                src,
                j,
            )] by {
                if j > k {
                    assert(c.ram[at(src, j)] == b.ram[at(src, j)]);
                }
            }
        }
    }

    /// A load of a global gives the global's value. An `i1` is one byte.
    pub proof fn law_load_reads_the_global(&self, st: St, x: Load, base: int, m: Machine)
        requires
            ready(st, base, m),
            x.ptr@.len() > 0 && x.ptr@[0] == '@',
            self.cx.global(x.ptr@.skip(1)) is Some,
            self.cx.slot(self.cx.fname(), x.dst@) is Some,
            ({
                let src = self.cx.global(x.ptr@.skip(1))->0;
                let dst = self.cx.slot(self.cx.fname(), x.dst@)->0;
                src == dst || apart(src, x.ty.bytes() as int, dst, x.ty.bytes() as int)
            }),
        ensures
            ready(self.load(st, x), base, m),
            ({
                let n = x.ty.bytes();
                let src = self.cx.global(x.ptr@.skip(1))->0;
                let dst = self.cx.slot(self.cx.fname(), x.dst@)->0;
                let b = exec(st.rows, base, m);
                let a = exec(self.load(st, x).rows, base, m);
                passes(b, a) && kept(b, a, dst, n as int) && word(a, dst, n) == word(b, src, n)
            }),
    {
        let n = x.ty.bytes();
        let src = self.cx.global(x.ptr@.skip(1))->0;
        let dst = self.cx.slot(self.cx.fname(), x.dst@)->0;
        self.lemma_load_from(st, src, dst, n, 0, base, m);
        let b = exec(st.rows, base, m);
        let a = exec(self.load(st, x).rows, base, m);
        assert(a.ram[at(dst, 0)] == b.ram[at(src, 0)]);
        if n > 1 {
            assert(a.ram[at(dst, 1)] == b.ram[at(src, 1)]);
        }
        if n > 2 {
            assert(a.ram[at(dst, 2)] == b.ram[at(src, 2)]);
            assert(a.ram[at(dst, 3)] == b.ram[at(src, 3)]);
        }
    }

    /// A store to a global leaves the operand in the global. An `i1` is one
    /// byte.
    pub proof fn law_store_writes_the_global(&self, st: St, x: Store, base: int, m: Machine)
        requires
            ready(st, base, m),
            x.ptr@.len() > 0 && x.ptr@[0] == '@',
            self.cx.global(x.ptr@.skip(1)) is Some,
            self.plain(x.val),
            self.fits(x.val, self.cx.global(x.ptr@.skip(1))->0, x.ty.bytes() as int),
        ensures
            ready(self.store(st, x), base, m),
            ({
                let n = x.ty.bytes();
                let dst = self.cx.global(x.ptr@.skip(1))->0;
                let b = exec(st.rows, base, m);
                let a = exec(self.store(st, x).rows, base, m);
                passes(b, a) && kept(b, a, dst, n as int) && word(a, dst, n) == self.word_of(
                    b,
                    x.val,
                    n,
                )
            }),
    {
        let dst = self.cx.global(x.ptr@.skip(1))->0;
        self.lemma_move_from(st, x.val, x.ty.bytes(), dst, 0, base, m);
        self.lemma_moved(st, x.val, x.ty.bytes(), dst, base, m);
    }
}

} // verus!
