//! The value of an operand of any kind, and the bytes it is moved to.
use vstd::prelude::*;
use crate::baseline::laws::passing::lemma_six_bits;
use crate::baseline::pointer::Addr;
use crate::baseline::{bank_line, Gen};
use crate::emit::{at, movlw, w_op, Row, St};
use crate::ir::{Base, Pointer, Term, Val};
use crate::line::{Imm, Line, Op, Sym};
use crate::machine::{exec, literal, Machine};
use crate::meaning::{kept, limit, passes, word};
use crate::runs::{law_constant_bytes_write_the_constant, lemma_tidy_emit, tidy};

verus! {

proof fn lemma_tidy_keep(r0: Seq<Row>, next: u32, s: St, l: Line)
    requires
        tidy(r0, next, s),
        !(l is Label),
    ensures
        tidy(r0, next, s.keep(l)),
{
}

impl<'a> Gen<'a> {
    proof fn lemma_tidy_bank_lines(&self, r0: Seq<Row>, next: u32, st: St, b: usize, i: u8)
        requires
            tidy(r0, next, st),
        ensures
            tidy(r0, next, self.bank_lines(st, b, i)),
        decreases self.cx.device.fsr_bank_bits - i,
    {
        if i < self.cx.device.fsr_bank_bits {
            lemma_tidy_keep(r0, next, st, bank_line(b, i));
            self.lemma_tidy_bank_lines(r0, next, st.keep(bank_line(b, i)), b, (i + 1) as u8);
        }
    }

    pub(crate) proof fn lemma_tidy_bank(&self, r0: Seq<Row>, next: u32, st: St, a: u32)
        requires
            tidy(r0, next, st),
        ensures
            tidy(r0, next, self.bank(st, a)),
    {
        if let Some(b) = self.cx.device.bank(a) {
            self.lemma_tidy_bank_lines(r0, next, st, b, 0);
        }
    }

    /// An access to a byte that can be reached takes no label and meets no error.
    pub(crate) proof fn lemma_tidy_access(&self, r0: Seq<Row>, next: u32, st: St, op: Op, a: u32)
        requires
            tidy(r0, next, st),
            self.sound(a),
        ensures
            tidy(r0, next, self.acc_w(st, op, a)),
            tidy(r0, next, self.put(st, a)),
            tidy(r0, next, self.clear(st, a)),
            tidy(r0, next, self.w_store(st, a)),
            tidy(r0, next, self.w_load(st, a)),
    {
        self.lemma_tidy_bank(r0, next, st, a);
        broadcast use lemma_tidy_emit;

        assert(self.reg_of(a) is Some);
    }

    proof fn lemma_tidy_add_terms(&self, r0: Seq<Row>, next: u32, st: St, p: Pointer)
        requires
            tidy(r0, next, st),
            self.terms_read(p.terms@),
            p.terms@.len() <= 2,
        ensures
            ({
                let (s, a, b) = self.term_slots(st, p.terms@);
                s == st && tidy(r0, next, self.add_terms(st, p.terms@, a, b))
            }),
    {
        if p.terms@.len() >= 1 {
            let a = self.cx.slot(self.cx.fname(), p.terms@[0].reg@)->0;
            assert(self.sound(a));
            self.lemma_tidy_access(r0, next, st, Op::Addwf, a);
            if p.terms@.len() == 2 {
                let b = self.cx.slot(self.cx.fname(), p.terms@[1].reg@)->0;
                assert(self.sound(b));
                self.lemma_tidy_access(r0, next, self.acc_w(st, Op::Addwf, a), Op::Addwf, b);
            }
        }
    }

    pub(crate) proof fn lemma_tidy_load(
        &self,
        r0: Seq<Row>,
        next: u32,
        st: St,
        v: Val,
        n: u8,
        i: u8,
        m: Machine,
    )
        requires
            tidy(r0, next, st),
            self.has_bytes(m, v, n),
            i < n,
        ensures
            tidy(r0, next, self.load_byte(st, v, i)),
    {
        match v {
            Val::Reg(r) => match self.cx.pointer(r@) {
                Some(p) => {
                    if i == 1 {
                        lemma_tidy_emit(r0, next, st, movlw(0));
                    } else {
                        match p.base {
                            Base::Global(name) => {
                                let lo = (at(self.cx.global(name@)->0, p.k) & 0x3F) as u8;
                                lemma_tidy_emit(r0, next, st, movlw(lo));
                                self.lemma_tidy_add_terms(r0, next, st.emit(movlw(lo)), p);
                                self.lemma_tidy_add_terms(r0, next, st, p);
                            },
                            Base::Slot(s, _) => {
                                let sa = self.cx.slot(self.cx.fname(), s@)->0;
                                self.lemma_tidy_access(r0, next, st, Op::Movf, sa);
                                let s1 = self.acc_w(st, Op::Movf, sa);
                                self.lemma_tidy_add_terms(r0, next, s1, p);
                                self.lemma_tidy_add_terms(r0, next, st, p);
                                broadcast use lemma_tidy_emit;

                            },
                        }
                    }
                },
                None => {
                    let a = at(self.cx.slot(self.cx.fname(), r@)->0, i);
                    assert(self.sound(a));
                    self.lemma_tidy_access(r0, next, st, Op::Movf, a);
                },
            },
            _ => {
                broadcast use lemma_tidy_emit;

            },
        }
    }

    pub(crate) proof fn lemma_tidy_move(
        &self,
        r0: Seq<Row>,
        next: u32,
        st: St,
        v: Val,
        n: u8,
        dst: u32,
        i: u8,
        m: Machine,
    )
        requires
            tidy(r0, next, st),
            self.has_bytes(m, v, n),
            self.sound_bytes(dst, n),
        ensures
            tidy(r0, next, self.move_from(st, v, n, dst, i)),
        decreases n - i,
    {
        if i < n {
            self.lemma_tidy_load(r0, next, st, v, n, i, m);
            let s1 = self.load_byte(st, v, i);
            assert(self.sound(at(dst, i)));
            self.lemma_tidy_access(r0, next, s1, Op::Movf, at(dst, i));
            self.lemma_tidy_move(
                r0,
                next,
                self.w_store(s1, at(dst, i)),
                v,
                n,
                dst,
                (i + 1) as u8,
                m,
            );
        }
    }

    proof fn lemma_tidy_store(
        &self,
        r0: Seq<Row>,
        next: u32,
        st: St,
        v: Val,
        n: u8,
        dst: u32,
        i: u8,
        m: Machine,
    )
        requires
            tidy(r0, next, st),
            self.has_bytes(m, v, n),
            self.sound_bytes(dst, n),
        ensures
            tidy(r0, next, self.store_to(st, v, dst, n, i)),
        decreases n - i,
    {
        if i < n {
            self.lemma_tidy_load(r0, next, st, v, n, i, m);
            let s1 = self.load_byte(st, v, i);
            assert(self.sound(at(dst, i)));
            self.lemma_tidy_access(r0, next, s1, Op::Movf, at(dst, i));
            self.lemma_tidy_store(r0, next, self.put(s1, at(dst, i)), v, n, dst, (i + 1) as u8, m);
        }
    }

    /// Whether an operand has a value of `n` bytes: a constant, a register that can be
    /// reached, a folded pointer whose address is computed, a global or a function.
    pub open spec fn has_bytes(&self, m: Machine, v: Val, n: u8) -> bool {
        match v {
            Val::Const(_) => true,
            Val::Reg(r) => match self.cx.pointer(r@) {
                Some(p) => n == 2 && self.leads(m, p, 0) && self.is_value(p),
                None => self.plain(v, n),
            },
            Val::Global(g) => n <= 2 && (self.cx.is_func(g@) || (self.cx.global(g@) matches Some(a)
                && a <= 0x3F)),
        }
    }

    /// The value of an operand as a number of `n` bytes: that of a constant or of a
    /// register, the address a folded pointer leads to, or the address of a global
    /// or of a function. An address fits one byte.
    pub open spec fn value(&self, m: Machine, v: Val, n: u8) -> int {
        match v {
            Val::Const(k) => k as int % limit(n),
            Val::Reg(r) => match self.cx.pointer(r@) {
                Some(p) => self.target(m, p, 0) as int,
                None => word(m, self.cx.slot(self.cx.fname(), r@)->0, n),
            },
            Val::Global(g) => if self.cx.is_func(g@) {
                literal(m, Imm::Low(Sym::Func(self.cx.func_no(g@)))) as int
            } else {
                self.cx.global(g@)->0 as int
            },
        }
    }

    /// Whether the `n` bytes at `dst` can be reached, and take the place of an operand
    /// or share no byte with it.
    pub open spec fn stays(&self, v: Val, n: u8, dst: u32) -> bool {
        &&& n == 1 || n == 2 || n == 4
        &&& self.fits(v, dst, n)
    }

    /// Whether an operand is a folded pointer.
    pub open spec fn folded(&self, v: Val) -> bool {
        v matches Val::Reg(r) && self.cx.pointer(r@) is Some
    }

    /// Whether nothing but the `n` bytes at `dst` changed, and the fixed bytes where
    /// the address of a folded pointer was added up.
    pub open spec fn only(&self, b: Machine, a: Machine, v: Val, dst: u32, n: int) -> bool {
        forall|x: u32|
            (x < dst || x >= dst + n) && !(self.folded(v) && self.is_fixed(x))
                ==> #[trigger] a.ram[x] == b.ram[x]
    }

    /// The number of a plain operand is its value.
    pub(crate) proof fn lemma_plain_value(&self, m: Machine, v: Val, n: u8)
        requires
            self.plain(v, n),
            n == 1 || n == 2 || n == 4,
        ensures
            self.word_of(m, v, n) == self.value(m, v, n),
    {
        if let Val::Const(k) = v {
            law_constant_bytes_write_the_constant(k, n);
        } else {
            assert(at(self.slot_of(v)->0, 0) == self.slot_of(v)->0);
        }
    }

    /// A byte of an address: its low byte is the address, its high byte zero.
    proof fn lemma_address_byte(&self, st: St, v: Val, i: u8, base: int, m: Machine)
        requires
            self.at_row(st, base, m),
            i < 2,
            self.has_bytes(exec(st.rows, base, m), v, 2) || (i == 1 && self.folded(v)),
            self.folded(v) || v is Global,
        ensures
            ({
                let b = exec(st.rows, base, m);
                let s = self.load_byte(st, v, i);
                let a = exec(s.rows, base, m);
                &&& self.at_row(s, base, m)
                &&& passes(b, a)
                &&& if i == 1 {
                    a.ram == b.ram && a.w == 0
                } else {
                    (if self.folded(v) {
                        self.keeps(b, a)
                    } else {
                        a.ram == b.ram
                    }) && a.w == self.value(b, v, 2)
                }
            }),
    {
        match v {
            Val::Reg(r) => {
                if i == 0 {
                    self.law_pointer_value_is_its_address(st, r, base, m);
                } else {
                    self.lemma_literal(st, Imm::Byte(0), base, m);
                    assert(self.load_byte(st, v, 1) == st.emit(movlw(0)));
                }
            },
            Val::Global(g) => {
                self.lemma_literal(st, Imm::Byte(0), base, m);
                if self.cx.is_func(g@) {
                    self.lemma_literal(
                        st,
                        Imm::Low(Sym::Func(self.cx.func_no(g@))),
                        base,
                        m,
                    );
                } else {
                    let a = self.cx.global(g@)->0;
                    lemma_six_bits(a);
                    self.lemma_literal(st, Imm::Byte(a as u8), base, m);
                }
            },
            Val::Const(_) => {},
        }
    }

    /// An address, moved byte by byte and stored byte by byte.
    proof fn lemma_address_put(&self, st: St, v: Val, n: u8, dst: u32, base: int, m: Machine)
        requires
            self.at_row(st, base, m),
            n == 1 || n == 2,
            self.has_bytes(exec(st.rows, base, m), v, n),
            self.folded(v) || v is Global,
            self.sound_bytes(dst, n),
        ensures
            ({
                let b = exec(st.rows, base, m);
                let s = self.move_from(st, v, n, dst, 0);
                let a = exec(s.rows, base, m);
                self.at_row(s, base, m) && passes(b, a) && word(a, dst, n) == self.value(b, v, n)
                    && self.only(b, a, v, dst, n as int)
            }),
            ({
                let b = exec(st.rows, base, m);
                let s = self.store_to(st, v, dst, n, 0);
                let a = exec(s.rows, base, m);
                self.at_row(s, base, m) && passes(b, a) && word(a, dst, n) == self.value(b, v, n)
                    && self.only(b, a, v, dst, n as int)
            }),
    {
        assert(at(dst, 0) == dst);
        assert(self.sound(at(dst, 0)));
        reveal_with_fuel(Gen::move_from, 3);
        reveal_with_fuel(Gen::store_to, 3);
        let b = exec(st.rows, base, m);
        self.lemma_address_byte(st, v, 0, base, m);
        let s1 = self.load_byte(st, v, 0);
        let s2 = self.w_store(s1, dst);
        self.lemma_w_store(s1, dst, base, m);
        let t2 = self.put(s1, dst);
        self.lemma_put(s1, dst, base, m);
        if n == 2 {
            assert(self.sound(at(dst, 1)));
            self.lemma_address_byte(s2, v, 1, base, m);
            let s3 = self.load_byte(s2, v, 1);
            self.lemma_w_store(s3, at(dst, 1), base, m);
            self.lemma_address_byte(t2, v, 1, base, m);
            let t3 = self.load_byte(t2, v, 1);
            self.lemma_put(t3, at(dst, 1), base, m);
        }
    }

    /// An operand moved to `dst` leaves its value there.
    pub(crate) proof fn lemma_value_moved(&self, st: St, v: Val, n: u8, dst: u32, base: int, m: Machine)
        requires
            self.at_row(st, base, m),
            st.err is None,
            self.has_bytes(exec(st.rows, base, m), v, n),
            self.stays(v, n, dst),
        ensures
            ({
                let b = exec(st.rows, base, m);
                let s = self.move_from(st, v, n, dst, 0);
                let a = exec(s.rows, base, m);
                &&& self.at_row(s, base, m)
                &&& passes(b, a)
                &&& word(a, dst, n) == self.value(b, v, n)
                &&& self.only(b, a, v, dst, n as int)
                &&& tidy(st.rows, st.next, s)
            }),
    {
        let b = exec(st.rows, base, m);
        self.lemma_tidy_move(st.rows, st.next, st, v, n, dst, 0, b);
        if self.folded(v) || v is Global {
            self.lemma_address_put(st, v, n, dst, base, m);
        } else {
            self.lemma_moved(st, v, n, dst, base, m);
            self.lemma_plain_value(b, v, n);
        }
    }

    /// A plain operand, stored byte by byte.
    proof fn lemma_store_plain(
        &self,
        st: St,
        v: Val,
        n: u8,
        dst: u32,
        i: u8,
        base: int,
        m: Machine,
    )
        requires
            self.at_row(st, base, m),
            self.plain(v, n),
            self.fits(v, dst, n),
        ensures
            ({
                let b = exec(st.rows, base, m);
                let s = self.store_to(st, v, dst, n, i);
                let a = exec(s.rows, base, m);
                &&& self.at_row(s, base, m)
                &&& passes(b, a)
                &&& kept(b, a, dst, n as int)
                &&& forall|j: u8| i <= j < n ==> #[trigger] a.ram[at(dst, j)] == self.byte_of(b, v, j)
                &&& forall|j: u8| j < i ==> #[trigger] a.ram[at(dst, j)] == b.ram[at(dst, j)]
            }),
        decreases n - i,
    {
        if i < n {
            let b = exec(st.rows, base, m);
            let s1 = self.load_byte(st, v, i);
            self.lemma_load_byte(st, v, i, n, base, m);
            let s2 = self.put(s1, at(dst, i));
            assert(self.sound(at(dst, i)));
            self.lemma_put(s1, at(dst, i), base, m);
            let mid = exec(s2.rows, base, m);
            self.lemma_store_plain(s2, v, n, dst, (i + 1) as u8, base, m);
            let a = exec(self.store_to(st, v, dst, n, i).rows, base, m);
            assert forall|j: u8| i <= j < n implies #[trigger] a.ram[at(dst, j)] == self.byte_of(
                b,
                v,
                j,
            ) by {
                if j > i {
                    assert(self.byte_of(mid, v, j) == self.byte_of(b, v, j));
                }
            }
        }
    }

    /// An operand stored at `dst` leaves its value there.
    pub(crate) proof fn lemma_value_stored(&self, st: St, v: Val, n: u8, dst: u32, base: int, m: Machine)
        requires
            self.at_row(st, base, m),
            st.err is None,
            self.has_bytes(exec(st.rows, base, m), v, n),
            self.stays(v, n, dst),
        ensures
            ({
                let b = exec(st.rows, base, m);
                let s = self.store_to(st, v, dst, n, 0);
                let a = exec(s.rows, base, m);
                &&& self.at_row(s, base, m)
                &&& passes(b, a)
                &&& word(a, dst, n) == self.value(b, v, n)
                &&& self.only(b, a, v, dst, n as int)
                &&& tidy(st.rows, st.next, s)
            }),
    {
        let b = exec(st.rows, base, m);
        self.lemma_tidy_store(st.rows, st.next, st, v, n, dst, 0, b);
        if self.folded(v) || v is Global {
            self.lemma_address_put(st, v, n, dst, base, m);
        } else {
            self.lemma_store_plain(st, v, n, dst, 0, base, m);
            self.lemma_plain_value(b, v, n);
            let a = exec(self.store_to(st, v, dst, n, 0).rows, base, m);
            assert(a.ram[at(dst, 0)] == self.byte_of(b, v, 0));
            if n > 1 {
                assert(a.ram[at(dst, 1)] == self.byte_of(b, v, 1));
            }
            if n > 2 {
                assert(a.ram[at(dst, 2)] == self.byte_of(b, v, 2));
                assert(a.ram[at(dst, 3)] == self.byte_of(b, v, 3));
            }
        }
    }

    proof fn lemma_tidy_accum(&self, r0: Seq<Row>, next: u32, st: St, a: u32, scale: u8)
        requires
            tidy(r0, next, st),
            self.sound(a),
            self.sound(self.scratch),
        ensures
            tidy(r0, next, self.accum_term(st, a, scale)),
        decreases scale,
    {
        if scale > 0 {
            self.lemma_tidy_access(r0, next, st, Op::Movf, a);
            let s1 = self.acc_w(st, Op::Movf, a).emit(w_op(Op::Addwf, self.scratch));
            lemma_tidy_emit(r0, next, self.acc_w(st, Op::Movf, a), w_op(Op::Addwf, self.scratch));
            self.lemma_tidy_access(r0, next, s1, Op::Movf, self.scratch);
            self.lemma_tidy_accum(r0, next, self.w_store(s1, self.scratch), a, (scale - 1) as u8);
        }
    }

    proof fn lemma_tidy_accum_from(&self, r0: Seq<Row>, next: u32, st: St, terms: Seq<Term>, i: int)
        requires
            tidy(r0, next, st),
            self.terms_read(terms),
            self.sound(self.scratch),
            0 <= i,
        ensures
            tidy(r0, next, self.accum_from(st, terms, i)),
        decreases terms.len() - i,
    {
        if i < terms.len() {
            let a = self.cx.slot(self.cx.fname(), terms[i].reg@)->0;
            assert(self.sound(a));
            self.lemma_tidy_accum(r0, next, st, a, terms[i].scale);
            self.lemma_tidy_accum_from(
                r0,
                next,
                self.accum_term(st, a, terms[i].scale),
                terms,
                i + 1,
            );
        }
    }

    proof fn lemma_tidy_accum_terms(&self, r0: Seq<Row>, next: u32, st: St, terms: Seq<Term>)
        requires
            tidy(r0, next, st),
            self.terms_read(terms),
            self.sound(self.scratch),
        ensures
            tidy(r0, next, self.accum_terms(st, terms)),
    {
        lemma_tidy_emit(r0, next, st, movlw(0));
        self.lemma_tidy_access(r0, next, st.emit(movlw(0)), Op::Movf, self.scratch);
        self.lemma_tidy_accum_from(
            r0,
            next,
            self.w_store(st.emit(movlw(0)), self.scratch),
            terms,
            0,
        );
    }

    /// The setup of a pointer that leads to RAM.
    pub(crate) proof fn lemma_tidy_setup(
        &self,
        r0: Seq<Row>,
        next: u32,
        st: St,
        p: Pointer,
        off: u8,
        m: Machine,
    )
        requires
            tidy(r0, next, st),
            self.leads(m, p, off),
        ensures
            tidy(r0, next, self.setup_pointer(st, p, off).0),
    {
        let terms = p.terms@;
        self.lemma_tidy_accum_terms(r0, next, st, terms);
        if terms.len() == 1 && terms[0].scale == 1 {
            let a = self.cx.slot(self.cx.fname(), terms[0].reg@)->0;
            assert(self.sound(a));
            self.lemma_tidy_access(r0, next, st, Op::Movf, a);
        }
        if let Base::Slot(s, indirect) = p.base {
            if indirect || self.cx.holds_addr(s@) {
                let sa = self.cx.slot(self.cx.fname(), s@)->0;
                self.lemma_tidy_access(r0, next, st, Op::Movf, sa);
                self.lemma_tidy_access(r0, next, self.accum_terms(st, terms), Op::Movf, sa);
            }
        }
        broadcast use lemma_tidy_emit;

    }

    /// A read or a write behind a pointer that leads to RAM.
    pub(crate) proof fn lemma_tidy_finish(&self, r0: Seq<Row>, next: u32, st: St, addr: Addr)
        requires
            tidy(r0, next, st),
            addr matches Addr::Direct(a) ==> self.sound(a),
        ensures
            tidy(r0, next, self.finish_load(st, addr)),
            tidy(r0, next, self.finish_store(st, addr)),
    {
        if let Addr::Direct(a) = addr {
            self.lemma_tidy_access(r0, next, st, Op::Movf, a);
        }
        broadcast use lemma_tidy_emit;

    }

    pub(crate) proof fn lemma_tidy_read(
        &self,
        r0: Seq<Row>,
        next: u32,
        st: St,
        v: Val,
        p: Pointer,
        off: u8,
        m: Machine,
    )
        requires
            tidy(r0, next, st),
            self.behind(v, p),
            self.leads(m, p, off),
        ensures
            tidy(r0, next, self.ptr_load_byte(st, v, off)),
    {
        self.lemma_tidy_setup(r0, next, st, p, off, m);
        let (s, addr) = self.setup_pointer(st, p, off);
        assert(addr matches Addr::Direct(a) ==> self.sound(a));
        self.lemma_tidy_finish(r0, next, s, addr);
        assert(self.ptr_load_byte(st, v, off) == self.finish_load(s, addr));
    }
}

} // verus!
