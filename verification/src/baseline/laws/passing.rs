//! Pointer values, and the pointers, structs and result pointers of a call.
use vstd::prelude::*;
use crate::baseline::laws::memory::lemma_sums;
use crate::baseline::Gen;
use crate::emit::{at, const_byte, movlw, St};
use crate::ir::{Base, Pointer, Term, Val};
use crate::line::{Imm, Line, LitOp, Op};
use crate::machine::{exec, group_exec, literal, Machine};
use crate::meaning::{apart, kept, passes, word};
use crate::shape::plain_terms;

verus! {

pub(crate) proof fn lemma_six_bits(a: u32)
    requires
        a <= 0x3F,
    ensures
        a & 0x3F == a,
{
    assert(a <= 0x3F ==> a & 0x3F == a) by (bit_vector);
}

impl<'a> Gen<'a> {
    /// Whether the address that a pointer stands for is computed: up to two terms
    /// of scale one, an offset or terms, and from a slot only where the slot holds
    /// an address.
    pub open spec fn is_value(&self, p: Pointer) -> bool {
        &&& plain_terms(p.terms@)
        &&& p.k == 0 || p.terms@.len() == 0
        &&& p.base matches Base::Slot(sname, indirect) ==> indirect || self.cx.holds_addr(sname@)
    }

    proof fn lemma_add_term(&self, st: St, x: u32, base: int, m: Machine)
        requires
            self.at_row(st, base, m),
            self.sound(x),
        ensures
            self.at_row(self.acc_w(st, Op::Addwf, x), base, m),
            ({
                let b = exec(st.rows, base, m);
                let a = exec(self.acc_w(st, Op::Addwf, x).rows, base, m);
                passes(b, a) && a.ram == b.ram && a.w == (b.w + b.ram[x]) % 256
            }),
    {
        self.lemma_acc_w(st, Op::Addwf, x, base, m);
    }

    /// W plus up to two terms.
    proof fn lemma_add_terms(&self, st: St, p: Pointer, base: int, m: Machine)
        requires
            self.at_row(st, base, m),
            self.terms_read(p.terms@),
            plain_terms(p.terms@),
        ensures
            ({
                let (s0, x, y) = self.term_slots(st, p.terms@);
                let s = self.add_terms(st, p.terms@, x, y);
                let b = exec(st.rows, base, m);
                let a = exec(s.rows, base, m);
                s0 == st && self.at_row(s, base, m) && passes(b, a) && a.ram == b.ram && a.w == (b.w
                    + self.terms_sum(b, p.terms@, 0)) % 256
            }),
    {
        reveal_with_fuel(Gen::terms_sum, 4);
        let b = exec(st.rows, base, m);
        let terms = p.terms@;
        if terms.len() >= 1 {
            let x = self.cx.slot(self.cx.fname(), terms[0].reg@)->0;
            self.lemma_add_term(st, x, base, m);
            if terms.len() == 2 {
                let y = self.cx.slot(self.cx.fname(), terms[1].reg@)->0;
                self.lemma_add_term(self.acc_w(st, Op::Addwf, x), y, base, m);
                lemma_sums(b.w as int, b.ram[x] as int, b.ram[y] as int);
            }
        }
    }

    /// W plus a literal, through the staging byte.
    proof fn lemma_add_w_lit(&self, st: St, k: u8, base: int, m: Machine)
        requires
            self.at_row(st, base, m),
            self.fixed(),
        ensures
            self.at_row(self.add_w_lit(st, k), base, m),
            ({
                let b = exec(st.rows, base, m);
                let a = exec(self.add_w_lit(st, k).rows, base, m);
                passes(b, a) && self.keeps(b, a) && a.w == (b.w + k) % 256
            }),
    {
        broadcast use group_exec;

    }

    pub(crate) proof fn lemma_literal(&self, st: St, i: Imm, base: int, m: Machine)
        requires
            self.at_row(st, base, m),
        ensures
            self.at_row(st.emit(Line::Lit(LitOp::Movlw, i)), base, m),
            ({
                let b = exec(st.rows, base, m);
                let a = exec(st.emit(Line::Lit(LitOp::Movlw, i)).rows, base, m);
                passes(b, a) && a.ram == b.ram && a.w == literal(b, i)
            }),
    {
        broadcast use group_exec;

    }

    /// The value of a folded pointer is the address it leads to: the low byte is
    /// the address, the high byte zero.
    pub proof fn law_pointer_value_is_its_address(
        &self,
        st: St,
        r: String,
        base: int,
        m: Machine,
    )
        requires
            self.at_row(st, base, m),
            self.cx.pointer(r@) matches Some(p) && self.leads(exec(st.rows, base, m), p, 0)
                && self.is_value(p),
        ensures
            self.at_row(self.load_byte(st, Val::Reg(r), 0), base, m),
            self.at_row(self.load_byte(st, Val::Reg(r), 1), base, m),
            ({
                let p = self.cx.pointer(r@)->0;
                let b = exec(st.rows, base, m);
                let a = exec(self.load_byte(st, Val::Reg(r), 0).rows, base, m);
                let h = exec(self.load_byte(st, Val::Reg(r), 1).rows, base, m);
                &&& passes(b, a) && self.keeps(b, a) && a.w == self.target(b, p, 0)
                &&& passes(b, h) && self.keeps(b, h) && h.w == 0
            }),
    {
        let p = self.cx.pointer(r@)->0;
        let b = exec(st.rows, base, m);
        let sum = self.terms_sum(b, p.terms@, 0);
        self.lemma_literal(st, Imm::Byte(0), base, m);
        assert(self.load_byte(st, Val::Reg(r), 1) == st.emit(movlw(0)));
        match p.base {
            Base::Global(name) => {
                let g = at(self.cx.global(name@)->0, p.k);
                lemma_six_bits(g);
                self.lemma_literal(st, Imm::Byte(g as u8), base, m);
                let s1 = st.emit(movlw(g as u8));
                self.lemma_add_terms(s1, p, base, m);
                self.lemma_no_terms(b, p);
                let (s0, x, y) = self.term_slots(st, p.terms@);
                assert(self.load_byte(st, Val::Reg(r), 0) == self.add_terms(s1, p.terms@, x, y));
                assert(self.terms_sum(exec(s1.rows, base, m), p.terms@, 0) == sum) by {
                    self.lemma_same_ram(b, exec(s1.rows, base, m), p.terms@, 0);
                }
            },
            Base::Slot(sname, _) => {
                let sa = self.cx.slot(self.cx.fname(), sname@)->0;
                let s1 = self.acc_w(st, Op::Movf, sa);
                self.lemma_acc_w(st, Op::Movf, sa, base, m);
                self.lemma_add_terms(s1, p, base, m);
                self.lemma_no_terms(b, p);
                self.lemma_same_ram(b, exec(s1.rows, base, m), p.terms@, 0);
                let (s0, x, y) = self.term_slots(s1, p.terms@);
                let s2 = self.add_terms(s1, p.terms@, x, y);
                if p.terms@.len() == 0 && p.k != 0 {
                    self.lemma_add_w_lit(s2, p.k, base, m);
                }
            },
        }
    }

    pub(crate) proof fn lemma_same_ram(&self, b: Machine, a: Machine, terms: Seq<Term>, i: int)
        requires
            a.ram == b.ram,
        ensures
            self.terms_sum(a, terms, i) == self.terms_sum(b, terms, i),
        decreases terms.len() - i,
    {
        if 0 <= i < terms.len() {
            self.lemma_same_ram(b, a, terms, i + 1);
        }
    }

    pub(crate) proof fn lemma_no_terms(&self, b: Machine, p: Pointer)
        ensures
            p.terms@.len() == 0 ==> self.terms_sum(b, p.terms@, 0) == 0,
    {
        reveal_with_fuel(Gen::terms_sum, 2);
    }

    /// W, then zero, in two bytes.
    pub(crate) proof fn lemma_close_addr(&self, st: St, pa: u32, base: int, m: Machine)
        requires
            self.at_row(st, base, m),
            self.sound_bytes(pa, 2),
        ensures
            self.at_row(self.close_addr(st, pa), base, m),
            ({
                let b = exec(st.rows, base, m);
                let a = exec(self.close_addr(st, pa).rows, base, m);
                passes(b, a) && word(a, pa, 2) == b.w && kept(b, a, pa, 2)
            }),
    {
        assert(self.sound(at(pa, 0)) && self.sound(at(pa, 1)));
        let s1 = self.w_store(st, pa);
        self.lemma_w_store(st, pa, base, m);
        let s2 = s1.emit(movlw(0));
        self.lemma_literal(s1, Imm::Byte(0), base, m);
        self.lemma_w_store(s2, at(pa, 1), base, m);
    }

    /// Whether nothing changed in RAM but two bytes and the fixed ones.
    pub open spec fn only_passed(&self, b: Machine, a: Machine, pa: u32) -> bool {
        forall|x: u32|
            !(pa <= x < pa + 2) && !self.is_fixed(x) ==> #[trigger] a.ram[x] == b.ram[x]
    }

    /// Whether code is written that passes a pointer: up to one term of scale one;
    /// a slot that does not hold an address is passed from its start only.
    pub open spec fn is_passed(&self, p: Pointer) -> bool {
        &&& p.terms@.len() == 0 || (p.terms@.len() == 1 && p.terms@[0].scale == 1)
        &&& p.base matches Base::Slot(sname, indirect) ==> indirect || self.cx.holds_addr(sname@)
            || (p.k == 0 && p.terms@.len() == 0)
    }

    /// An address literal in two bytes.
    pub(crate) proof fn lemma_put_known(&self, st: St, t: u32, pa: u32, base: int, m: Machine)
        requires
            self.at_row(st, base, m),
            self.sound_bytes(pa, 2),
            t <= 0x3F,
        ensures
            self.at_row(self.put_known(st, t, pa), base, m),
            ({
                let b = exec(st.rows, base, m);
                let a = exec(self.put_known(st, t, pa).rows, base, m);
                passes(b, a) && word(a, pa, 2) == t && kept(b, a, pa, 2)
            }),
    {
        lemma_six_bits(t);
        let s1 = st.emit(movlw(t as u8));
        self.lemma_literal(st, Imm::Byte(t as u8), base, m);
        self.lemma_close_addr(s1, pa, base, m);
        assert(self.put_known(st, t, pa) == self.close_addr(s1, pa));
    }

    proof fn lemma_add_offset(&self, st: St, k: u8, base: int, m: Machine)
        requires
            self.at_row(st, base, m),
            self.fixed(),
        ensures
            self.at_row(self.add_offset(st, k), base, m),
            ({
                let b = exec(st.rows, base, m);
                let a = exec(self.add_offset(st, k).rows, base, m);
                passes(b, a) && self.keeps(b, a) && a.w == (b.w + k) % 256
            }),
    {
        if k != 0 {
            self.lemma_add_w_lit(st, k, base, m);
        }
    }

    /// An address in W, its term and its offset, in two bytes.
    proof fn lemma_put_sum(&self, st: St, p: Pointer, pa: u32, base: int, m: Machine)
        requires
            self.at_row(st, base, m),
            self.fixed(),
            self.sound_bytes(pa, 2),
            self.terms_read(p.terms@),
            p.terms@.len() == 1,
            p.terms@[0].scale == 1,
        ensures
            ({
                let ra = self.cx.slot(self.cx.fname(), p.terms@[0].reg@)->0;
                let s = self.close_addr(self.add_offset(self.acc_w(st, Op::Addwf, ra), p.k), pa);
                let b = exec(st.rows, base, m);
                let a = exec(s.rows, base, m);
                self.at_row(s, base, m) && passes(b, a) && self.only_passed(b, a, pa) && word(
                    a,
                    pa,
                    2,
                ) == (b.w + self.terms_sum(b, p.terms@, 0) + p.k) % 256
            }),
    {
        reveal_with_fuel(Gen::terms_sum, 3);
        let b = exec(st.rows, base, m);
        let ra = self.cx.slot(self.cx.fname(), p.terms@[0].reg@)->0;
        assert(self.sound(ra));
        let s1 = self.acc_w(st, Op::Addwf, ra);
        self.lemma_add_term(st, ra, base, m);
        let s2 = self.add_offset(s1, p.k);
        self.lemma_add_offset(s1, p.k, base, m);
        self.lemma_close_addr(s2, pa, base, m);
        lemma_sums(b.w as int, b.ram[ra] as int, p.k as int);
    }

    /// A pointer argument arrives as the address it leads to, in the two bytes of
    /// its parameter, and nothing else changes but the fixed bytes.
    pub proof fn law_pointer_argument_is_its_address(
        &self,
        st: St,
        v: Val,
        p: Pointer,
        pa: u32,
        base: int,
        m: Machine,
    )
        requires
            self.at_row(st, base, m),
            self.behind(v, p),
            v matches Val::Global(n) ==> !self.cx.is_func(n@),
            self.leads(exec(st.rows, base, m), p, 0),
            self.is_passed(p),
            self.sound_bytes(pa, 2),
        ensures
            self.at_row(self.ptr_arg(st, v, pa), base, m),
            ({
                let b = exec(st.rows, base, m);
                let a = exec(self.ptr_arg(st, v, pa).rows, base, m);
                passes(b, a) && word(a, pa, 2) == self.target(b, p, 0) && self.only_passed(b, a, pa)
            }),
    {
        let b = exec(st.rows, base, m);
        self.lemma_no_terms(b, p);
        match p.base {
            Base::Global(name) => {
                let g = self.cx.global(name@)->0;
                if p.terms@.len() == 0 {
                    self.lemma_put_known(st, at(g, p.k), pa, base, m);
                    assert(self.ptr_arg(st, v, pa) == self.put_known(st, at(g, p.k), pa));
                } else {
                    lemma_six_bits(g);
                    self.lemma_literal(st, Imm::Byte(g as u8), base, m);
                    let s1 = st.emit(movlw(g as u8));
                    self.lemma_put_sum(s1, p, pa, base, m);
                    self.lemma_same_ram(b, exec(s1.rows, base, m), p.terms@, 0);
                }
            },
            Base::Slot(sname, indirect) => {
                let sa = self.cx.slot(self.cx.fname(), sname@)->0;
                if indirect || self.cx.holds_addr(sname@) {
                    let s1 = self.w_load(st, sa);
                    self.lemma_w_load(st, sa, base, m);
                    if p.terms@.len() == 0 {
                        let s2 = self.add_offset(s1, p.k);
                        self.lemma_add_offset(s1, p.k, base, m);
                        self.lemma_close_addr(s2, pa, base, m);
                    } else {
                        self.lemma_put_sum(s1, p, pa, base, m);
                        self.lemma_same_ram(b, exec(s1.rows, base, m), p.terms@, 0);
                    }
                } else {
                    self.lemma_put_known(st, sa, pa, base, m);
                }
            },
        }
    }

    /// A pointer held in a register is passed on, and the null pointer arrives as
    /// zero.
    pub proof fn law_held_pointer_argument_is_passed_on(
        &self,
        st: St,
        v: Val,
        pa: u32,
        base: int,
        m: Machine,
    )
        requires
            self.at_row(st, base, m),
            self.plain(v, 1),
            v matches Val::Const(k) ==> k == 0,
            self.sound_bytes(pa, 2),
        ensures
            self.at_row(self.ptr_arg(st, v, pa), base, m),
            ({
                let b = exec(st.rows, base, m);
                let a = exec(self.ptr_arg(st, v, pa).rows, base, m);
                passes(b, a) && word(a, pa, 2) == self.word_of(b, v, 1) && kept(
                    b,
                    a,
                    pa,
                    2,
                )
            }),
    {
        assert(self.sound(at(pa, 0)) && self.sound(at(pa, 1)));
        match v {
            Val::Const(_) => {
                self.lemma_clear(st, pa, base, m);
                self.lemma_clear(self.clear(st, pa), at(pa, 1), base, m);
                assert((0i64 & 0xFF) as u8 == 0) by (bit_vector);
                assert(const_byte(0, 0) == 0);
            },
            _ => {
                let sa = self.slot_of(v)->0;
                assert(self.sound(at(sa, 0)));
                self.lemma_w_load(st, sa, base, m);
                self.lemma_close_addr(self.w_load(st, sa), pa, base, m);
            },
        }
    }

    /// Whether `n` bytes behind `p` can be copied to `pa`: they lie in RAM, apart
    /// from the copies, and `p` is not computed from a byte that is written.
    pub open spec fn passes_struct(&self, m: Machine, p: Pointer, pa: u32, n: u8) -> bool {
        &&& self.sound_bytes(pa, n)
        &&& self.spares(pa, n as int)
        &&& forall|j: u8|
            j < n ==> #[trigger] self.leads(m, p, j) && !self.is_fixed(self.target(m, p, j)) && apart(
                pa,
                n as int,
                self.target(m, p, j),
                1,
            )
        &&& forall|j: u8| j < n ==> !self.reads(p, #[trigger] at(pa, j))
    }

    proof fn lemma_byval_from(
        &self,
        st: St,
        v: Val,
        p: Pointer,
        n: u8,
        pa: u32,
        k: u8,
        base: int,
        m: Machine,
    )
        requires
            self.at_row(st, base, m),
            self.behind(v, p),
            self.passes_struct(exec(st.rows, base, m), p, pa, n),
        ensures
            self.at_row(self.byval_from(st, v, n, pa, k), base, m),
            ({
                let b = exec(st.rows, base, m);
                let a = exec(self.byval_from(st, v, n, pa, k).rows, base, m);
                &&& passes(b, a)
                &&& forall|x: u32|
                    !(pa <= x < pa + n) && !self.is_fixed(x) ==> #[trigger] a.ram[x] == b.ram[x]
                &&& forall|j: u8|
                    k <= j < n ==> #[trigger] a.ram[at(pa, j)] == b.ram[self.target(b, p, j)]
                &&& forall|j: u8| j < k && j < n ==> #[trigger] a.ram[at(pa, j)] == b.ram[at(pa, j)]
            }),
        decreases n - k,
    {
        if k < n {
            let b = exec(st.rows, base, m);
            let t = at(pa, k);
            assert(self.leads(b, p, k));
            let s1 = self.ptr_load_byte(st, v, k);
            self.lemma_ptr_load(st, v, p, k, base, m);
            assert(self.sound(t));
            let s2 = self.w_store(s1, t);
            self.lemma_w_store(s1, t, base, m);
            let c = exec(s2.rows, base, m);
            assert(self.keeps_but(b, c, t));
            assert(!self.reads(p, t));
            assert forall|j: u8| j < n implies #[trigger] self.leads(c, p, j) && self.target(c, p, j)
                == self.target(b, p, j) by {
                assert(self.leads(b, p, j));
                self.lemma_target_apart(b, c, p, t, j);
            }
            assert(self.passes_struct(c, p, pa, n)) by {
                assert forall|j: u8| j < n implies #[trigger] self.leads(c, p, j) && !self.is_fixed(
                    self.target(c, p, j),
                ) && apart(pa, n as int, self.target(c, p, j), 1) by {
                    assert(self.leads(b, p, j));
                }
            }
            self.lemma_byval_from(s2, v, p, n, pa, (k + 1) as u8, base, m);
            let a = exec(self.byval_from(st, v, n, pa, k).rows, base, m);
            assert forall|j: u8| k <= j < n implies #[trigger] a.ram[at(pa, j)]
                == b.ram[self.target(b, p, j)] by {
                assert(self.leads(b, p, j) && self.leads(c, p, j));
                if j == k {
                    assert(c.ram[t] == b.ram[self.target(b, p, k)]);
                } else {
                    assert(c.ram[self.target(b, p, j)] == b.ram[self.target(b, p, j)]);
                }
            }
            assert forall|j: u8| j < k && j < n implies #[trigger] a.ram[at(pa, j)] == b.ram[at(pa, j)] by {
                assert(c.ram[at(pa, j)] == b.ram[at(pa, j)]);
            }
        }
    }

    /// A struct that is passed by value arrives byte by byte in the slot of its
    /// parameter, in whatever banks it lies, and nothing else changes but the
    /// fixed bytes.
    pub proof fn law_struct_argument_is_copied(
        &self,
        st: St,
        v: Val,
        p: Pointer,
        n: u8,
        pa: u32,
        base: int,
        m: Machine,
    )
        requires
            self.at_row(st, base, m),
            self.behind(v, p),
            self.passes_struct(exec(st.rows, base, m), p, pa, n),
        ensures
            self.at_row(self.byval_from(st, v, n, pa, 0), base, m),
            ({
                let b = exec(st.rows, base, m);
                let a = exec(self.byval_from(st, v, n, pa, 0).rows, base, m);
                &&& passes(b, a)
                &&& forall|j: u8|
                    j < n ==> #[trigger] a.ram[at(pa, j)] == b.ram[self.target(b, p, j)]
                &&& forall|x: u32|
                    !(pa <= x < pa + n) && !self.is_fixed(x) ==> #[trigger] a.ram[x] == b.ram[x]
            }),
    {
        self.lemma_byval_from(st, v, p, n, pa, 0, base, m);
    }

    /// A result pointer arrives as the address of the object it names.
    pub proof fn law_result_pointer_is_the_address(
        &self,
        st: St,
        v: Val,
        pa: u32,
        base: int,
        m: Machine,
    )
        requires
            self.at_row(st, base, m),
            self.sret_target(st, v).0 == st,
            self.sret_target(st, v).1 <= 0x3F,
            self.sound_bytes(pa, 2),
        ensures
            ({
                let b = exec(st.rows, base, m);
                let (s0, t) = self.sret_target(st, v);
                let s = self.put_known(s0, t, pa);
                let a = exec(s.rows, base, m);
                &&& self.at_row(s, base, m)
                &&& passes(b, a)
                &&& word(a, pa, 2) == t
                &&& kept(b, a, pa, 2)
            }),
    {
        self.lemma_put_known(st, self.sret_target(st, v).1, pa, base, m);
    }
}

} // verus!
