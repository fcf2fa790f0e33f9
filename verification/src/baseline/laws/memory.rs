//! Loads and stores: of globals, and through pointers.
use vstd::prelude::*;
use crate::baseline::pointer::{to_fsr, Addr};
use crate::baseline::Gen;
use crate::emit::{at, movf, movlw, movwf, w_op, St};
use crate::ir::{Base, Load, Pointer, Store, Term, Val};
use crate::line::{Op, Reg};
use crate::machine::{exec, group_exec, group_exec_pointer, place, power, Core, Machine};
use crate::meaning::{apart, kept, passes, word};

verus! {

impl<'a> Gen<'a> {
    /// The sum of the scaled terms from `i` on.
    pub open spec fn terms_sum(&self, m: Machine, terms: Seq<Term>, i: int) -> int
        decreases terms.len() - i,
    {
        if i < 0 || i >= terms.len() {
            0
        } else {
            terms[i].scale * m.ram[self.cx.slot(self.cx.fname(), terms[i].reg@)->0]
                + self.terms_sum(m, terms, i + 1)
        }
    }

    /// Whether the registers of terms can be read.
    pub open spec fn terms_read(&self, terms: Seq<Term>) -> bool {
        forall|i: int|
            0 <= i < terms.len() ==> (self.cx.slot(
                self.cx.fname(),
                (#[trigger] terms[i]).reg@,
            ) matches Some(a) && self.sound(a) && !self.is_fixed(a))
    }

    proof fn lemma_sum_kept(&self, b: Machine, a: Machine, terms: Seq<Term>, i: int)
        requires
            self.terms_read(terms),
            0 <= i,
            forall|x: u32| !self.is_fixed(x) ==> #[trigger] a.ram[x] == b.ram[x],
        ensures
            self.terms_sum(a, terms, i) == self.terms_sum(b, terms, i),
        decreases terms.len() - i,
    {
        if i < terms.len() {
            let x = self.cx.slot(self.cx.fname(), terms[i].reg@)->0;
            assert(!self.is_fixed(x));
            assert(a.ram[x] == b.ram[x]);
            self.lemma_sum_kept(b, a, terms, i + 1);
        }
    }

    proof fn lemma_accum_once(&self, st: St, x: u32, base: int, m: Machine)
        requires
            self.at_row(st, base, m),
            self.fixed(),
            self.sound(x),
        ensures
            ({
                let s = self.w_store(
                    self.acc_w(st, Op::Movf, x).emit(w_op(Op::Addwf, self.scratch)),
                    self.scratch,
                );
                let b = exec(st.rows, base, m);
                let a = exec(s.rows, base, m);
                self.at_row(s, base, m) && passes(b, a) && kept(b, a, self.scratch, 1)
                    && a.ram[self.scratch] == (b.ram[self.scratch] + b.ram[x]) % 256
            }),
    {
        let s1 = self.acc_w(st, Op::Movf, x);
        self.lemma_acc_w(st, Op::Movf, x, base, m);
        let m1 = exec(s1.rows, base, m);
        let s2 = s1.emit(w_op(Op::Addwf, self.scratch));
        let m2 = exec(s2.rows, base, m);
        assert(self.at_row(s2, base, m) && passes(m1, m2) && m2.ram == m1.ram && m2.w == (
        m1.ram[self.scratch] + m1.w) % 256) by {
            broadcast use group_exec;

        }
        self.lemma_w_store(s2, self.scratch, base, m);
    }

    proof fn lemma_accum_term(&self, st: St, x: u32, scale: u8, base: int, m: Machine)
        requires
            self.at_row(st, base, m),
            self.fixed(),
            self.sound(x),
            x != self.scratch,
        ensures
            ({
                let s = self.accum_term(st, x, scale);
                let b = exec(st.rows, base, m);
                let a = exec(s.rows, base, m);
                self.at_row(s, base, m) && passes(b, a) && kept(b, a, self.scratch, 1)
                    && a.ram[self.scratch] == (b.ram[self.scratch] + scale * b.ram[x]) % 256
            }),
        decreases scale,
    {
        let b = exec(st.rows, base, m);
        if scale == 0 {
            assert(0 * b.ram[x] == 0);
        } else {
            let s1 = self.w_store(
                self.acc_w(st, Op::Movf, x).emit(w_op(Op::Addwf, self.scratch)),
                self.scratch,
            );
            self.lemma_accum_once(st, x, base, m);
            let c = exec(s1.rows, base, m);
            let k = (scale - 1) as u8;
            self.lemma_accum_term(s1, x, k, base, m);
            assert(c.ram[x] == b.ram[x]);
            let v = b.ram[x] as int;
            assert(scale * v == v + k * v) by (nonlinear_arith)
                requires
                    k == scale - 1,
            ;
            lemma_sums(b.ram[self.scratch] as int, v, k * v);
        }
    }

    proof fn lemma_accum_from(&self, st: St, terms: Seq<Term>, i: int, base: int, m: Machine)
        requires
            self.at_row(st, base, m),
            self.fixed(),
            self.terms_read(terms),
            0 <= i,
        ensures
            ({
                let s = self.accum_from(st, terms, i);
                let b = exec(st.rows, base, m);
                let a = exec(s.rows, base, m);
                self.at_row(s, base, m) && passes(b, a) && kept(b, a, self.scratch, 1)
                    && a.ram[self.scratch] == (b.ram[self.scratch] + self.terms_sum(b, terms, i))
                    % 256
            }),
        decreases terms.len() - i,
    {
        if i < terms.len() {
            let b = exec(st.rows, base, m);
            let x = self.cx.slot(self.cx.fname(), terms[i].reg@)->0;
            assert(self.sound(x) && !self.is_fixed(x));
            let s1 = self.accum_term(st, x, terms[i].scale);
            self.lemma_accum_term(st, x, terms[i].scale, base, m);
            let c = exec(s1.rows, base, m);
            self.lemma_accum_from(s1, terms, i + 1, base, m);
            self.lemma_sum_kept(b, c, terms, i + 1);
            lemma_sums(
                b.ram[self.scratch] as int,
                terms[i].scale * b.ram[x],
                self.terms_sum(b, terms, i + 1),
            );
        }
    }

    proof fn lemma_accum_terms(&self, st: St, terms: Seq<Term>, base: int, m: Machine)
        requires
            self.at_row(st, base, m),
            self.fixed(),
            self.terms_read(terms),
        ensures
            ({
                let s = self.accum_terms(st, terms);
                let b = exec(st.rows, base, m);
                let a = exec(s.rows, base, m);
                self.at_row(s, base, m) && passes(b, a) && kept(b, a, self.scratch, 1)
                    && a.ram[self.scratch] == self.terms_sum(b, terms, 0) % 256
            }),
    {
        let b = exec(st.rows, base, m);
        let s1 = st.emit(movlw(0));
        let m1 = exec(s1.rows, base, m);
        assert(self.at_row(s1, base, m) && passes(b, m1) && m1.ram == b.ram && m1.w == 0) by {
            broadcast use group_exec;

        }
        let s2 = self.w_store(s1, self.scratch);
        self.lemma_w_store(s1, self.scratch, base, m);
        let m2 = exec(s2.rows, base, m);
        self.lemma_accum_from(s2, terms, 0, base, m);
        self.lemma_sum_kept(b, m2, terms, 0);
    }

    /// Whether nothing but the comparison byte and the first staging byte
    /// changed in RAM.
    pub open spec fn keeps_most(&self, b: Machine, a: Machine) -> bool {
        forall|x: u32|
            x != self.scratch && x != self.tmp ==> #[trigger] a.ram[x] == b.ram[x]
    }

    /// FSR from a staged byte and a literal.
    proof fn lemma_to_fsr(&self, st: St, x: u32, k: u8, base: int, m: Machine)
        requires
            self.at_row(st, base, m),
            x < 16,
        ensures
            ({
                let s = st.emit(movlw(k)).emit(w_op(Op::Addwf, x)).emit(to_fsr());
                let b = exec(st.rows, base, m);
                let a = exec(s.rows, base, m);
                self.at_row(s, base, m) && passes(b, a) && a.ram == b.ram && a.fsr == (b.ram[x] + k)
                    % 256
            }),
    {
        broadcast use group_exec_pointer;

    }

    pub(crate) proof fn lemma_stage(&self, st: St, x: u32, base: int, m: Machine)
        requires
            self.at_row(st, base, m),
            x < 16,
        ensures
            ({
                let s = st.emit(movwf(x));
                let b = exec(st.rows, base, m);
                let a = exec(s.rows, base, m);
                self.at_row(s, base, m) && passes(b, a) && a.ram == b.ram.insert(x, b.w) && a.w
                    == b.w && a.fsr == b.fsr
            }),
    {
        broadcast use group_exec;

    }

    pub(crate) proof fn lemma_unstage(&self, st: St, x: u32, base: int, m: Machine)
        requires
            self.at_row(st, base, m),
            x < 16,
        ensures
            ({
                let s = st.emit(movf(x));
                let b = exec(st.rows, base, m);
                let a = exec(s.rows, base, m);
                self.at_row(s, base, m) && passes(b, a) && a.ram == b.ram && a.w == b.ram[x] && a.fsr
                    == b.fsr
            }),
    {
        broadcast use group_exec;

    }

    proof fn lemma_fsr_to(
        &self,
        st: St,
        from: u32,
        k: u8,
        terms: Seq<Term>,
        off: u8,
        base: int,
        m: Machine,
    )
        requires
            self.at_row(st, base, m),
            self.fixed(),
            self.terms_read(terms),
            at(at(from, k), off) <= 0x3F,
        ensures
            ({
                let s = self.fsr_to(st, from, k, terms, off);
                let b = exec(st.rows, base, m);
                let a = exec(s.rows, base, m);
                self.at_row(s, base, m) && passes(b, a) && self.keeps_most(b, a) && a.fsr == (at(
                    at(from, k),
                    off,
                ) + self.terms_sum(b, terms, 0)) % 256
            }),
    {
        let b = exec(st.rows, base, m);
        let sum = at(at(from, k), off);
        assert(sum & 0x3F == sum) by (bit_vector)
            requires
                sum <= 0x3F,
        ;
        let k8 = (sum & 0x3F) as u8;
        if terms.len() == 1 && terms[0].scale == 1 {
            let x = self.cx.slot(self.cx.fname(), terms[0].reg@)->0;
            assert(self.sound(x) && !self.is_fixed(x));
            assert(self.terms_sum(b, terms, 1) == 0);
            assert(self.terms_sum(b, terms, 0) == b.ram[x]);
            let s1 = self.acc_w(st, Op::Movf, x);
            self.lemma_acc_w(st, Op::Movf, x, base, m);
            let s2 = s1.emit(movwf(self.tmp));
            self.lemma_stage(s1, self.tmp, base, m);
            self.lemma_to_fsr(s2, self.tmp, k8, base, m);
        } else {
            let s1 = self.accum_terms(st, terms);
            self.lemma_accum_terms(st, terms, base, m);
            let s2 = s1.emit(movf(self.scratch));
            self.lemma_unstage(s1, self.scratch, base, m);
            self.lemma_to_fsr(s2, self.scratch, k8, base, m);
            lemma_sums(0, self.terms_sum(b, terms, 0), sum as int);
        }
    }

    /// The address in a slot, plus the terms, in W.
    proof fn lemma_slot_sum(&self, st: St, slot: u32, terms: Seq<Term>, base: int, m: Machine)
        requires
            self.at_row(st, base, m),
            self.fixed(),
            self.terms_read(terms),
            self.sound(slot),
            !self.is_fixed(slot),
        ensures
            ({
                let s = self.acc_w(self.accum_terms(st, terms), Op::Movf, slot).emit(
                    w_op(Op::Addwf, self.scratch),
                );
                let b = exec(st.rows, base, m);
                let a = exec(s.rows, base, m);
                self.at_row(s, base, m) && passes(b, a) && self.keeps_most(b, a) && a.w == (
                b.ram[slot] + self.terms_sum(b, terms, 0)) % 256
            }),
    {
        let b = exec(st.rows, base, m);
        let s1 = self.accum_terms(st, terms);
        self.lemma_accum_terms(st, terms, base, m);
        let c = exec(s1.rows, base, m);
        assert(c.ram[slot] == b.ram[slot]);
        let s2 = self.acc_w(s1, Op::Movf, slot);
        self.lemma_acc_w(s1, Op::Movf, slot, base, m);
        let d = exec(s2.rows, base, m);
        let s3 = s2.emit(w_op(Op::Addwf, self.scratch));
        let a = exec(s3.rows, base, m);
        assert(self.at_row(s3, base, m) && passes(d, a) && a.ram == d.ram && a.w == (
        d.ram[self.scratch] + d.w) % 256) by {
            broadcast use group_exec;

        }
        lemma_sums(0, self.terms_sum(b, terms, 0), b.ram[slot] as int);
    }

    proof fn lemma_fsr_indirect(
        &self,
        st: St,
        slot: u32,
        k: u8,
        terms: Seq<Term>,
        off: u8,
        base: int,
        m: Machine,
    )
        requires
            self.at_row(st, base, m),
            self.fixed(),
            self.terms_read(terms),
            self.sound(slot),
            !self.is_fixed(slot),
            k + off <= 0x3F,
        ensures
            ({
                let s = self.fsr_indirect(st, slot, k, terms, off);
                let b = exec(st.rows, base, m);
                let a = exec(s.rows, base, m);
                self.at_row(s, base, m) && passes(b, a) && self.keeps_most(b, a) && a.fsr == (
                b.ram[slot] + k + off + self.terms_sum(b, terms, 0)) % 256
            }),
    {
        let b = exec(st.rows, base, m);
        let kk = at(k as u32, off);
        let sum = self.terms_sum(b, terms, 0);
        let s1 = if terms.len() == 0 {
            self.acc_w(st, Op::Movf, slot)
        } else {
            self.acc_w(self.accum_terms(st, terms), Op::Movf, slot).emit(
                w_op(Op::Addwf, self.scratch),
            )
        };
        if terms.len() == 0 {
            self.lemma_acc_w(st, Op::Movf, slot, base, m);
        } else {
            self.lemma_slot_sum(st, slot, terms, base, m);
        }
        let m1 = exec(s1.rows, base, m);
        assert(m1.w == (b.ram[slot] + sum) % 256);
        let s2 = s1.emit(movwf(self.tmp));
        self.lemma_stage(s1, self.tmp, base, m);
        self.lemma_to_fsr(s2, self.tmp, kk as u8, base, m);
        lemma_sums(0, b.ram[slot] + sum, kk as int);
    }

    /// Where a pointer leads: byte `off` behind it.
    pub open spec fn target(&self, m: Machine, p: Pointer, off: u8) -> u32 {
        match p.base {
            Base::Global(name) => {
                let a = self.cx.global(name@)->0;
                if p.terms@.len() == 0 {
                    at(at(a, p.k), off)
                } else {
                    ((at(at(a, p.k), off) + self.terms_sum(m, p.terms@, 0)) % 256) as u32
                }
            },
            Base::Slot(sname, indirect) => {
                let sa = self.cx.slot(self.cx.fname(), sname@)->0;
                if indirect || self.cx.holds_addr(sname@) {
                    ((m.ram[sa] + p.k + off + self.terms_sum(m, p.terms@, 0)) % 256) as u32
                } else if p.terms@.len() == 0 {
                    at(at(sa, p.k), off)
                } else {
                    ((at(at(sa, p.k), off) + self.terms_sum(m, p.terms@, 0)) % 256) as u32
                }
            },
        }
    }

    /// Whether FSR can hold an address.
    pub open spec fn in_space(&self, a: u32) -> bool {
        a < 32 * power(self.cx.device.fsr_bank_bits) && (a < 16 || a % 32 >= 16)
    }

    /// Whether a pointer is one that code is written for, and its byte `off`
    /// lies in RAM.
    pub open spec fn leads(&self, m: Machine, p: Pointer, off: u8) -> bool {
        &&& self.fixed()
        &&& self.terms_read(p.terms@)
        &&& match p.base {
            Base::Global(name) => self.cx.global(name@) is Some && self.cx.in_flash(name@) == Some(
                false,
            ) && at(at(self.cx.global(name@)->0, p.k), off) <= 0x3F,
            Base::Slot(sname, indirect) => (self.cx.slot(self.cx.fname(), sname@) matches Some(sa)
                && if indirect || self.cx.holds_addr(sname@) {
                self.sound(sa) && !self.is_fixed(sa) && p.k + off <= 0x3F
            } else {
                at(at(sa, p.k), off) <= 0x3F
            }),
        }
        &&& self.in_space(self.target(m, p, off))
        &&& self.sound(self.target(m, p, off))
    }

    /// Whether an access in state `m` reaches `t`.
    pub open spec fn access(&self, m: Machine, addr: Addr, t: u32) -> bool {
        match addr {
            Addr::Direct(a) => a == t,
            Addr::Indirect => m.fsr == t,
        }
    }

    pub(crate) proof fn lemma_setup(&self, st: St, p: Pointer, off: u8, base: int, m: Machine)
        requires
            self.at_row(st, base, m),
            self.leads(exec(st.rows, base, m), p, off),
        ensures
            ({
                let (s, addr) = self.setup_pointer(st, p, off);
                let b = exec(st.rows, base, m);
                let a = exec(s.rows, base, m);
                self.at_row(s, base, m) && passes(b, a) && self.keeps_most(b, a) && self.access(
                    a,
                    addr,
                    self.target(b, p, off),
                )
            }),
    {
        match p.base {
            Base::Global(name) => {
                let from = self.cx.global(name@)->0;
                if p.terms@.len() > 0 {
                    self.lemma_fsr_to(st, from, p.k, p.terms@, off, base, m);
                }
            },
            Base::Slot(sname, indirect) => {
                let sa = self.cx.slot(self.cx.fname(), sname@)->0;
                if indirect || self.cx.holds_addr(sname@) {
                    self.lemma_fsr_indirect(st, sa, p.k, p.terms@, off, base, m);
                } else if p.terms@.len() > 0 {
                    self.lemma_fsr_to(st, sa, p.k, p.terms@, off, base, m);
                }
            },
        }
    }

    pub(crate) proof fn lemma_finish_load(&self, st: St, addr: Addr, t: u32, base: int, m: Machine)
        requires
            self.at_row(st, base, m),
            self.fixed(),
            self.access(exec(st.rows, base, m), addr, t),
            self.in_space(t),
            self.sound(t),
        ensures
            ({
                let s = self.finish_load(st, addr);
                let b = exec(st.rows, base, m);
                let a = exec(s.rows, base, m);
                self.at_row(s, base, m) && passes(b, a) && a.ram == b.ram && a.w == b.ram[t]
            }),
    {
        match addr {
            Addr::Direct(x) => self.lemma_acc_w(st, Op::Movf, x, base, m),
            Addr::Indirect => {
                self.lemma_indf(exec(st.rows, base, m), t);
                broadcast use group_exec_pointer;

            },
        }
    }

    pub(crate) proof fn lemma_finish_store(&self, st: St, addr: Addr, t: u32, base: int, m: Machine)
        requires
            self.at_row(st, base, m),
            self.fixed(),
            self.access(exec(st.rows, base, m), addr, t),
            self.in_space(t),
            self.sound(t),
        ensures
            ({
                let s = self.finish_store(st, addr);
                let b = exec(st.rows, base, m);
                let a = exec(s.rows, base, m);
                self.at_row(s, base, m) && passes(b, a) && a.ram == b.ram.insert(t, b.w)
            }),
    {
        match addr {
            Addr::Direct(x) => self.lemma_put(st, x, base, m),
            Addr::Indirect => {
                self.lemma_indf(exec(st.rows, base, m), t);
                broadcast use group_exec_pointer;

            },
        }
    }

    /// INDF is the byte that FSR holds the address of.
    proof fn lemma_indf(&self, m: Machine, t: u32)
        requires
            m.core == Core::Baseline(self.cx.device.fsr_bank_bits),
            self.cx.device.fsr_bank_bits <= 3,
            m.fsr == t,
            self.in_space(t),
        ensures
            place(m, Reg::Indf) == Some(t),
    {
        let bits = self.cx.device.fsr_bank_bits;
        let bank = m.fsr as int / 32;
        assert(bank % power(bits) == bank) by {
            if bits == 0 {
            } else if bits == 1 {
            } else if bits == 2 {
            } else {
            }
        }
    }

    /// A read through a folded pointer gives the byte that the pointer leads
    /// to, and changes nothing in RAM but the fixed bytes.
    pub proof fn law_pointer_reads_its_target(
        &self,
        st: St,
        r: Seq<char>,
        off: u8,
        base: int,
        m: Machine,
    )
        requires
            self.at_row(st, base, m),
            self.cx.pointer(r) is Some,
            self.leads(exec(st.rows, base, m), self.cx.pointer(r)->0, off),
            !self.is_fixed(self.target(exec(st.rows, base, m), self.cx.pointer(r)->0, off)),
        ensures
            self.at_row(self.reg_load_byte(st, r, off), base, m),
            ({
                let p = self.cx.pointer(r)->0;
                let b = exec(st.rows, base, m);
                let a = exec(self.reg_load_byte(st, r, off).rows, base, m);
                passes(b, a) && self.keeps(b, a) && a.w == b.ram[self.target(b, p, off)]
            }),
    {
        let p = self.cx.pointer(r)->0;
        let b = exec(st.rows, base, m);
        self.lemma_setup(st, p, off, base, m);
        let (s, addr) = self.setup_pointer(st, p, off);
        self.lemma_finish_load(s, addr, self.target(b, p, off), base, m);
    }

    /// A write through a folded pointer puts the byte where the pointer
    /// leads to, whatever bank the byte comes from, and changes nothing else
    /// in RAM but the fixed bytes.
    pub proof fn law_pointer_writes_its_target(
        &self,
        st: St,
        r: Seq<char>,
        off: u8,
        v: Val,
        base: int,
        m: Machine,
    )
        requires
            self.at_row(st, base, m),
            self.cx.pointer(r) is Some,
            off < 4,
            self.leads(exec(st.rows, base, m), self.cx.pointer(r)->0, off),
            self.plain(v, (off + 1) as u8),
            self.slot_of(v) matches Some(a) ==> self.spares(a, off + 1),
        ensures
            self.at_row(self.reg_store_byte(st, r, off, v), base, m),
            ({
                let p = self.cx.pointer(r)->0;
                let b = exec(st.rows, base, m);
                let a = exec(self.reg_store_byte(st, r, off, v).rows, base, m);
                let t = self.target(b, p, off);
                passes(b, a) && a.ram[t] == self.byte_of(b, v, off) && (forall|x: u32|
                    x != t && !self.is_fixed(x) ==> #[trigger] a.ram[x] == b.ram[x])
            }),
    {
        let p = self.cx.pointer(r)->0;
        let b = exec(st.rows, base, m);
        let t = self.target(b, p, off);
        if self.reg_needs_fsr(r) && self.sets_bank(v, off) {
            let s1 = self.load_byte(st, v, off);
            self.lemma_load_byte(st, v, off, (off + 1) as u8, base, m);
            let s2 = s1.emit(movwf(self.tmp2));
            self.lemma_stage(s1, self.tmp2, base, m);
            let m2 = exec(s2.rows, base, m);
            self.lemma_target_kept(b, m2, p, off);
            self.lemma_setup(s2, p, off, base, m);
            let (s3, addr) = self.setup_pointer(s2, p, off);
            let m3 = exec(s3.rows, base, m);
            assert(m3.ram[self.tmp2] == m2.ram[self.tmp2]);
            let s4 = s3.emit(movf(self.tmp2));
            self.lemma_unstage(s3, self.tmp2, base, m);
            self.lemma_finish_store(s4, addr, t, base, m);
        } else {
            self.lemma_setup(st, p, off, base, m);
            let (s1, addr) = self.setup_pointer(st, p, off);
            let m1 = exec(s1.rows, base, m);
            let s2 = self.load_byte(s1, v, off);
            self.lemma_load_byte(s1, v, off, (off + 1) as u8, base, m);
            assert(self.byte_of(m1, v, off) == self.byte_of(b, v, off));
            if self.reg_needs_fsr(r) {
                if let Some(a) = self.slot_of(v) {
                    assert(self.bank(s1, at(a, off)) == s1);
                }
                assert(exec(s2.rows, base, m).fsr == m1.fsr) by {
                    broadcast use group_exec;

                }
            }
            self.lemma_finish_store(s2, addr, t, base, m);
        }
    }

    /// A pointer leads to the same byte while only fixed bytes change.
    pub(crate) proof fn lemma_target_kept(&self, b: Machine, a: Machine, p: Pointer, off: u8)
        requires
            self.leads(b, p, off),
            self.keeps(b, a),
        ensures
            self.target(a, p, off) == self.target(b, p, off),
            self.leads(a, p, off),
    {
        self.lemma_sum_kept(b, a, p.terms@, 0);
        if let Base::Slot(sname, indirect) = p.base {
            let sa = self.cx.slot(self.cx.fname(), sname@)->0;
            if indirect || self.cx.holds_addr(sname@) {
                assert(a.ram[sa] == b.ram[sa]);
            }
        }
    }

    /// What was written through a folded pointer is what is read back
    /// through it, where the write leaves the pointer alone.
    pub proof fn law_read_gives_back_the_write(
        &self,
        st: St,
        r: Seq<char>,
        off: u8,
        v: Val,
        base: int,
        m: Machine,
    )
        requires
            self.at_row(st, base, m),
            self.cx.pointer(r) is Some,
            off < 4,
            self.leads(exec(st.rows, base, m), self.cx.pointer(r)->0, off),
            self.plain(v, (off + 1) as u8),
            self.slot_of(v) matches Some(a) ==> self.spares(a, off + 1),
            ({
                let p = self.cx.pointer(r)->0;
                let t = self.target(exec(st.rows, base, m), p, off);
                !self.is_fixed(t) && !self.reads(p, t)
            }),
        ensures
            ({
                let s1 = self.reg_store_byte(st, r, off, v);
                let b = exec(st.rows, base, m);
                let a = exec(self.reg_load_byte(s1, r, off).rows, base, m);
                a.flow is Next && a.w == self.byte_of(b, v, off)
            }),
    {
        let p = self.cx.pointer(r)->0;
        let b = exec(st.rows, base, m);
        let s1 = self.reg_store_byte(st, r, off, v);
        self.law_pointer_writes_its_target(st, r, off, v, base, m);
        let c = exec(s1.rows, base, m);
        let t = self.target(b, p, off);
        self.lemma_sum_apart(b, c, p.terms@, 0, t);
        if let Base::Slot(sname, indirect) = p.base {
            let sa = self.cx.slot(self.cx.fname(), sname@)->0;
            if indirect || self.cx.holds_addr(sname@) {
                assert(c.ram[sa] == b.ram[sa]);
            }
        }
        assert(self.target(c, p, off) == t);
        self.law_pointer_reads_its_target(s1, r, off, base, m);
    }

    /// Whether a pointer is computed from byte `t`.
    pub open spec fn reads(&self, p: Pointer, t: u32) -> bool {
        ||| exists|i: int|
            0 <= i < p.terms@.len() && self.cx.slot(
                self.cx.fname(),
                (#[trigger] p.terms@[i]).reg@,
            ) == Some(t)
        ||| p.base matches Base::Slot(sname, _) && self.cx.slot(self.cx.fname(), sname@) == Some(t)
    }

    pub(crate) proof fn lemma_sum_apart(&self, b: Machine, a: Machine, terms: Seq<Term>, i: int, t: u32)
        requires
            self.terms_read(terms),
            0 <= i,
            forall|x: u32| x != t && !self.is_fixed(x) ==> #[trigger] a.ram[x] == b.ram[x],
            forall|j: int|
                0 <= j < terms.len() ==> self.cx.slot(
                    self.cx.fname(),
                    (#[trigger] terms[j]).reg@,
                ) != Some(t),
        ensures
            self.terms_sum(a, terms, i) == self.terms_sum(b, terms, i),
        decreases terms.len() - i,
    {
        if i < terms.len() {
            let x = self.cx.slot(self.cx.fname(), terms[i].reg@)->0;
            assert(!self.is_fixed(x) && x != t);
            assert(a.ram[x] == b.ram[x]);
            self.lemma_sum_apart(b, a, terms, i + 1, t);
        }
    }

    pub(crate) proof fn lemma_load_from(
        &self,
        st: St,
        src: u32,
        dst: u32,
        n: u8,
        k: u8,
        base: int,
        m: Machine,
    )
        requires
            self.at_row(st, base, m),
            self.sound_bytes(src, n),
            self.sound_bytes(dst, n),
            src == dst || apart(src, n as int, dst, n as int),
        ensures
            ({
                let s = self.load_from(st, src, dst, n, k);
                let b = exec(st.rows, base, m);
                let a = exec(s.rows, base, m);
                self.at_row(s, base, m) && passes(b, a) && kept(b, a, dst, n as int) && (forall|
                    j: u8,
                |
                    k <= j < n ==> #[trigger] a.ram[at(dst, j)] == b.ram[at(src, j)]) && (forall|
                    j: u8,
                | j < k ==> #[trigger] a.ram[at(dst, j)] == b.ram[at(dst, j)])
            }),
        decreases n - k,
    {
        if k < n {
            let b = exec(st.rows, base, m);
            assert(self.sound(at(src, k)) && self.sound(at(dst, k)));
            let s1 = self.acc_w(st, Op::Movf, at(src, k));
            self.lemma_acc_w(st, Op::Movf, at(src, k), base, m);
            let s2 = self.w_store(s1, at(dst, k));
            self.lemma_w_store(s1, at(dst, k), base, m);
            let c = exec(s2.rows, base, m);
            self.lemma_load_from(s2, src, dst, n, (k + 1) as u8, base, m);
            let a = exec(self.load_from(st, src, dst, n, k).rows, base, m);
            assert forall|j: u8| k <= j < n implies #[trigger] a.ram[at(dst, j)] == b.ram[at(
                src,
                j,
            )] by {
                if j > k {
                    assert(c.ram[at(src, j)] == b.ram[at(src, j)]);
                }
            }
        }
    }

    /// A load of a global gives the global's value. An `i1` is one byte.
    pub proof fn law_load_reads_the_global(&self, st: St, x: Load, base: int, m: Machine)
        requires
            self.at_row(st, base, m),
            x.ptr@.len() > 0 && x.ptr@[0] == '@',
            self.cx.global(x.ptr@.skip(1)) is Some,
            self.cx.slot(self.cx.fname(), x.dst@) is Some,
            ({
                let n = x.ty.bytes();
                let src = self.cx.global(x.ptr@.skip(1))->0;
                let dst = self.cx.slot(self.cx.fname(), x.dst@)->0;
                self.sound_bytes(src, n) && self.sound_bytes(dst, n) && (src == dst || apart(
                    src,
                    n as int,
                    dst,
                    n as int,
                ))
            }),
        ensures
            self.at_row(self.load(st, x), base, m),
            ({
                let n = x.ty.bytes();
                let src = self.cx.global(x.ptr@.skip(1))->0;
                let dst = self.cx.slot(self.cx.fname(), x.dst@)->0;
                let b = exec(st.rows, base, m);
                let a = exec(self.load(st, x).rows, base, m);
                passes(b, a) && kept(b, a, dst, n as int) && word(a, dst, n) == word(b, src, n)
            }),
    {
        let n = x.ty.bytes();
        let src = self.cx.global(x.ptr@.skip(1))->0;
        let dst = self.cx.slot(self.cx.fname(), x.dst@)->0;
        self.lemma_load_from(st, src, dst, n, 0, base, m);
        let b = exec(st.rows, base, m);
        let a = exec(self.load(st, x).rows, base, m);
        assert(a.ram[at(dst, 0)] == b.ram[at(src, 0)]);
        if n > 1 {
            assert(a.ram[at(dst, 1)] == b.ram[at(src, 1)]);
        }
        if n > 2 {
            assert(a.ram[at(dst, 2)] == b.ram[at(src, 2)]);
            assert(a.ram[at(dst, 3)] == b.ram[at(src, 3)]);
        }
    }

    /// A store to a global leaves the operand in the global. An `i1` is one
    /// byte.
    pub proof fn law_store_writes_the_global(&self, st: St, x: Store, base: int, m: Machine)
        requires
            self.at_row(st, base, m),
            x.ptr@.len() > 0 && x.ptr@[0] == '@',
            self.cx.global(x.ptr@.skip(1)) is Some,
            self.plain(x.val, x.ty.bytes()),
            self.fits(x.val, self.cx.global(x.ptr@.skip(1))->0, x.ty.bytes()),
        ensures
            self.at_row(self.store(st, x), base, m),
            ({
                let n = x.ty.bytes();
                let dst = self.cx.global(x.ptr@.skip(1))->0;
                let b = exec(st.rows, base, m);
                let a = exec(self.store(st, x).rows, base, m);
                passes(b, a) && kept(b, a, dst, n as int) && word(a, dst, n) == self.word_of(
                    b,
                    x.val,
                    n,
                )
            }),
    {
        let dst = self.cx.global(x.ptr@.skip(1))->0;
        self.lemma_moved(st, x.val, x.ty.bytes(), dst, base, m);
    }
}

/// Sums modulo 256.
pub(crate) proof fn lemma_sums(x: int, y: int, z: int)
    ensures
        ((x + y) % 256 + z) % 256 == (x + (y + z)) % 256,
        ((x + y) % 256 + z) % 256 == (x + y + z) % 256,
{
    let q = (x + y) / 256;
    assert(x + y == 256 * q + (x + y) % 256);
    assert((x + y) % 256 + z == x + y + z - 256 * q);
    vstd::arithmetic::div_mod::lemma_mod_multiples_vanish(-q, x + y + z, 256);
    assert(256 * (-q) + (x + y + z) == (x + y) % 256 + z);
}

} // verus!
