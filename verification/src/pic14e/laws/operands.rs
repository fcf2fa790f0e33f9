//! The value of an operand of any kind, and the bytes it is moved to.
use vstd::prelude::*;
use crate::emit::{at, hi8, lo8, movwf, St};
use crate::ir::{Base, Pointer, Val};
use crate::line::{Imm, Sym};
use crate::machine::{exec, group_exec, literal, Machine};
use crate::meaning::{apart, kept, limit, passes, word};
use crate::pic14e::laws::memory::lemma_halves;
use crate::pic14e::laws::values::readable;
use crate::pic14e::laws::{lemma_movwf, ready};
use crate::pic14e::{Gen, HOLD};
use crate::runs::{byte_at, law_constant_bytes_write_the_constant, tidy};

verus! {

/// The bytes of a two-byte number.
proof fn lemma_two_bytes(lo: u8, hi: u8)
    ensures
        byte_at((lo + 0x100 * hi) % limit(2), 0) == lo,
        byte_at((lo + 0x100 * hi) % limit(2), 1) == hi,
{
    let x = lo + 0x100 * hi;
    assert(x % 0x1_0000 == x && x % 0x100 == lo && x / 0x100 == hi);
}

impl<'a> Gen<'a> {
    /// Where a folded pointer starts: the address of its global, or the address that
    /// its slot holds.
    pub open spec fn origin(&self, m: Machine, p: Pointer) -> int {
        match p.base {
            Base::Global(name) => self.address(name@),
            Base::Slot(s, _) => word(m, self.cx.slot(self.cx.fname(), s@)->0, 2),
        }
    }

    /// The address that a folded pointer stands for.
    pub open spec fn pointed(&self, m: Machine, p: Pointer) -> int {
        (self.origin(m, p) + p.k + self.index_sum(m, p)) % 0x1_0000
    }

    /// The address of a function, as the linker gives it.
    pub open spec fn entry(&self, m: Machine, name: Seq<char>) -> int {
        let f = Sym::Func(self.cx.func_no(name));
        literal(m, Imm::Low(f)) + 0x100 * literal(m, Imm::High(f))
    }

    /// The value of an operand as a number of `n` bytes: that of a constant or of a
    /// register, the address a folded pointer stands for, or the address of a
    /// global or of a function.
    pub open spec fn value(&self, m: Machine, v: Val, n: u8) -> int {
        match v {
            Val::Const(k) => k as int % limit(n),
            Val::Reg(r) => match self.cx.pointer(r@) {
                Some(p) => self.pointed(m, p),
                None => word(m, self.cx.slot(self.cx.fname(), r@)->0, n),
            },
            Val::Global(g) => (if self.cx.is_func(g@) {
                self.entry(m, g@)
            } else {
                self.address(g@)
            }) % limit(n),
        }
    }

    /// Whether an operand can be read while the `n` bytes at `dst` are written.
    pub open spec fn stays(&self, v: Val, n: u8, dst: u32) -> bool {
        &&& dst <= 0xFFFF
        &&& n == 1 || n == 2 || n == 4
        &&& match v {
            Val::Const(_) => true,
            Val::Reg(r) => match self.cx.pointer(r@) {
                Some(p) => {
                    &&& apart(dst, 2, HOLD, 1)
                    &&& forall|i: int|
                        0 <= i < p.terms@.len() ==> readable(
                            self.term_slot(#[trigger] p.terms@[i])->0,
                            dst,
                        )
                    &&& p.base matches Base::Slot(s, _) ==> readable(
                        self.cx.slot(self.cx.fname(), s@)->0,
                        dst,
                    )
                },
                None => {
                    let a = self.cx.slot(self.cx.fname(), r@)->0;
                    a == dst || apart(a, n as int, dst, n as int)
                },
            },
            Val::Global(g) => self.cx.is_func(g@) ==> n <= 2,
        }
    }

    /// Whether an operand is a folded pointer.
    pub open spec fn folded(&self, v: Val) -> bool {
        v matches Val::Reg(r) && self.cx.pointer(r@) is Some
    }

    /// Whether nothing but the `n` bytes at `dst` changed, and the parking byte where
    /// the address of a folded pointer was added up.
    pub open spec fn only(&self, b: Machine, a: Machine, v: Val, dst: u32, n: int) -> bool {
        forall|x: u32|
            (x < dst || x >= dst + n) && !(x == HOLD && self.folded(v)) ==> #[trigger] a.ram[x]
                == b.ram[x]
    }

    /// The start of a pointer, as the value laws name it.
    proof fn lemma_origin(&self, m: Machine, p: Pointer, dst: u32)
        requires
            self.has_value(p),
            forall|i: int|
                0 <= i < p.terms@.len() ==> readable(self.term_slot(#[trigger] p.terms@[i])->0, dst),
            p.base matches Base::Slot(s, _) ==> readable(self.cx.slot(self.cx.fname(), s@)->0, dst),
        ensures
            self.terms_stand(p, dst),
            self.start_stands(p, dst),
            self.value_start(m, p) == self.origin(m, p) + p.k,
    {
        if let Base::Global(name) = p.base {
            self.lemma_value_step(St::start(0), name@, p.k);
        }
        assert forall|i: int| 0 <= i < p.terms@.len() implies (self.term_slot(
            #[trigger] p.terms@[i],
        ) matches Some(a) && readable(a, dst)) by {}
    }

    /// One byte of the address of a global or of a function.
    proof fn lemma_load_global(&self, st: St, g: String, n: u8, i: u8, base: int, m: Machine)
        requires
            ready(st, base, m),
            self.has_bytes(Val::Global(g), n),
            i < n <= 2,
        ensures
            ready(self.load_byte(st, Val::Global(g), i), base, m),
            ({
                let b = exec(st.rows, base, m);
                let a = exec(self.load_byte(st, Val::Global(g), i).rows, base, m);
                passes(b, a) && a.ram == b.ram && a.w == byte_at(
                    self.value(b, Val::Global(g), 2),
                    i,
                )
            }),
    {
        let b = exec(st.rows, base, m);
        let s = self.load_byte(st, Val::Global(g), i);
        let a = exec(s.rows, base, m);
        if self.cx.is_func(g@) {
            assert(ready(s, base, m) && passes(b, a) && a.ram == b.ram && a.w == literal(
                b,
                if i == 0 {
                    Imm::Low(Sym::Func(self.cx.func_no(g@)))
                } else {
                    Imm::High(Sym::Func(self.cx.func_no(g@)))
                },
            )) by {
                broadcast use group_exec;

            }
            let f = Sym::Func(self.cx.func_no(g@));
            lemma_two_bytes(literal(b, Imm::Low(f)), literal(b, Imm::High(f)));
        } else {
            self.lemma_value_step(st, g@, 0);
            let v = self.address(g@) as u32;
            lemma_halves(v);
            lemma_two_bytes(lo8(v), hi8(v));
            assert(ready(s, base, m) && passes(b, a) && a.ram == b.ram && a.w == (if i == 0 {
                lo8(v)
            } else {
                hi8(v)
            })) by {
                broadcast use group_exec;

            }
        }
    }

    /// The address of a global or of a function, moved byte by byte.
    proof fn lemma_put_global(&self, st: St, g: String, n: u8, dst: u32, base: int, m: Machine)
        requires
            ready(st, base, m),
            self.has_bytes(Val::Global(g), n),
            n == 1 || n == 2,
            dst <= 0xFFFF,
        ensures
            ({
                let v = Val::Global(g);
                let b = exec(st.rows, base, m);
                let s = self.move_from(st, v, n, dst, 0);
                let a = exec(s.rows, base, m);
                ready(s, base, m) && passes(b, a) && word(a, dst, n) == self.value(b, v, n) && kept(
                    b,
                    a,
                    dst,
                    n as int,
                )
            }),
            ({
                let v = Val::Global(g);
                let b = exec(st.rows, base, m);
                let s = self.store_to(st, v, n, dst, 0);
                let a = exec(s.rows, base, m);
                ready(s, base, m) && passes(b, a) && word(a, dst, n) == self.value(b, v, n) && kept(
                    b,
                    a,
                    dst,
                    n as int,
                )
            }),
    {
        let v = Val::Global(g);
        let b = exec(st.rows, base, m);
        assert(at(dst, 0) == dst);
        let s1 = self.load_byte(st, v, 0);
        self.lemma_load_global(st, g, n, 0, base, m);
        let s2 = self.w_store(s1, dst);
        self.lemma_w_store(s1, dst, base, m);
        let t2 = s1.emit(movwf(dst));
        lemma_movwf(s1, dst, base, m);
        reveal_with_fuel(Gen::move_from, 3);
        reveal_with_fuel(Gen::store_to, 3);
        if n == 2 {
            let s3 = self.load_byte(s2, v, 1);
            self.lemma_load_global(s2, g, n, 1, base, m);
            self.lemma_w_store(s3, at(dst, 1), base, m);
            let t3 = self.load_byte(t2, v, 1);
            self.lemma_load_global(t2, g, n, 1, base, m);
            lemma_movwf(t3, at(dst, 1), base, m);
        }
    }

    /// A folded pointer, moved byte by byte, and stored byte by byte.
    proof fn lemma_put_pointer(&self, st: St, r: String, p: Pointer, dst: u32, base: int, m: Machine)
        requires
            ready(st, base, m),
            st.err is None,
            self.cx.pointer(r@) == Some(p),
            self.has_bytes(Val::Reg(r), 2),
            self.stays(Val::Reg(r), 2, dst),
        ensures
            ({
                let v = Val::Reg(r);
                let b = exec(st.rows, base, m);
                let s = self.move_from(st, v, 2, dst, 0);
                let a = exec(s.rows, base, m);
                ready(s, base, m) && passes(b, a) && word(a, dst, 2) == self.value(b, v, 2)
                    && self.only(b, a, v, dst, 2)
            }),
            ({
                let v = Val::Reg(r);
                let b = exec(st.rows, base, m);
                let s = self.store_to(st, v, 2, dst, 0);
                let a = exec(s.rows, base, m);
                ready(s, base, m) && passes(b, a) && word(a, dst, 2) == self.value(b, v, 2)
                    && self.only(b, a, v, dst, 2)
            }),
    {
        let v = Val::Reg(r);
        let b = exec(st.rows, base, m);
        self.lemma_origin(b, p, dst);
        self.law_pointer_value_is_its_address(st, r, p, dst, base, m);
        let s = self.move_from(st, v, 2, dst, 0);
        let t = self.store_to(st, v, 2, dst, 0);
        assert(t.rows == s.rows && t.w is None) by {
            self.lemma_tidy_load(st.rows, st.next, st, v, 2, 0);
            reveal_with_fuel(Gen::move_from, 3);
            reveal_with_fuel(Gen::store_to, 3);
            self.lemma_pointer_rows(st, p, 0);
            let s1 = self.load_byte(st, v, 0);
            let s2 = self.w_store(s1, at(dst, 0));
            let t2 = s1.emit(movwf(at(dst, 0)));
            assert(s2.rows == t2.rows && s2.next == t2.next && s2.err == t2.err);
            self.lemma_tidy_load(t2.rows, t2.next, t2, v, 2, 1);
            self.lemma_pointer_rows(s2, p, 1);
            self.lemma_pointer_rows(t2, p, 1);
            self.lemma_same_rows(s2, t2, p, 1);
        }
        assert(ready(t, base, m));
    }

    /// W is not known to hold a slot after the byte of a pointer.
    proof fn lemma_pointer_rows(&self, st: St, p: Pointer, idx: u8)
        requires
            self.has_value(p),
        ensures
            self.pointer_byte(st, p, idx).w is None,
    {
        if p.terms@.len() >= 1 {
            assert(self.term_slot(p.terms@[0]) is Some);
        }
        if p.terms@.len() >= 2 {
            assert(self.term_slot(p.terms@[1]) is Some);
        }
        if let Base::Global(name) = p.base {
            self.lemma_value_step(st, name@, p.k);
        }
    }

    /// The byte of a pointer does not go by what W holds.
    proof fn lemma_same_rows(&self, s: St, t: St, p: Pointer, idx: u8)
        requires
            self.has_value(p),
            s.rows == t.rows,
        ensures
            self.pointer_byte(s, p, idx).rows == self.pointer_byte(t, p, idx).rows,
    {
        if p.terms@.len() >= 1 {
            assert(self.term_slot(p.terms@[0]) is Some);
        }
        if p.terms@.len() >= 2 {
            assert(self.term_slot(p.terms@[1]) is Some);
        }
        if let Base::Global(name) = p.base {
            self.lemma_value_step(s, name@, p.k);
            self.lemma_value_step(t, name@, p.k);
        }
    }

    /// The number of a plain operand is its value.
    pub(crate) proof fn lemma_plain_value(&self, m: Machine, v: Val, n: u8)
        requires
            self.plain(v),
            n == 1 || n == 2 || n == 4,
        ensures
            self.word_of(m, v, n) == self.value(m, v, n),
    {
        if let Val::Const(k) = v {
            law_constant_bytes_write_the_constant(k, n);
        } else {
            assert(at(self.slot_of(v)->0, 0) == self.slot_of(v)->0);
        }
    }

    /// An operand moved to `dst` leaves its value there.
    pub(crate) proof fn lemma_value_moved(&self, st: St, v: Val, n: u8, dst: u32, base: int, m: Machine)
        requires
            ready(st, base, m),
            st.err is None,
            self.has_bytes(v, n),
            self.stays(v, n, dst),
        ensures
            ({
                let b = exec(st.rows, base, m);
                let s = self.move_from(st, v, n, dst, 0);
                let a = exec(s.rows, base, m);
                &&& ready(s, base, m)
                &&& passes(b, a)
                &&& word(a, dst, n) == self.value(b, v, n)
                &&& self.only(b, a, v, dst, n as int)
                &&& tidy(st.rows, st.next, s)
            }),
    {
        let b = exec(st.rows, base, m);
        self.lemma_tidy_move(st.rows, st.next, st, v, n, dst, 0);
        match v {
            Val::Global(g) => self.lemma_put_global(st, g, n, dst, base, m),
            Val::Reg(r) => match self.cx.pointer(r@) {
                Some(p) => self.lemma_put_pointer(st, r, p, dst, base, m),
                None => {
                    self.lemma_move_from(st, v, n, dst, 0, base, m);
                    self.lemma_moved(st, v, n, dst, base, m);
                    self.lemma_plain_value(b, v, n);
                },
            },
            Val::Const(_) => {
                self.lemma_move_from(st, v, n, dst, 0, base, m);
                self.lemma_moved(st, v, n, dst, base, m);
                self.lemma_plain_value(b, v, n);
            },
        }
    }

    /// An operand stored at `dst` leaves its value there.
    pub(crate) proof fn lemma_value_stored(&self, st: St, v: Val, n: u8, dst: u32, base: int, m: Machine)
        requires
            ready(st, base, m),
            st.err is None,
            self.has_bytes(v, n),
            self.stays(v, n, dst),
        ensures
            ({
                let b = exec(st.rows, base, m);
                let s = self.store_to(st, v, n, dst, 0);
                let a = exec(s.rows, base, m);
                &&& ready(s, base, m)
                &&& passes(b, a)
                &&& word(a, dst, n) == self.value(b, v, n)
                &&& self.only(b, a, v, dst, n as int)
                &&& tidy(st.rows, st.next, s)
            }),
    {
        let b = exec(st.rows, base, m);
        self.lemma_tidy_store(st.rows, st.next, st, v, n, dst, 0);
        match v {
            Val::Global(g) => self.lemma_put_global(st, g, n, dst, base, m),
            Val::Reg(r) => match self.cx.pointer(r@) {
                Some(p) => self.lemma_put_pointer(st, r, p, dst, base, m),
                None => {
                    self.lemma_store_to(st, v, n, dst, 0, base, m);
                    self.lemma_stored(st, v, n, dst, base, m);
                    self.lemma_plain_value(b, v, n);
                },
            },
            Val::Const(_) => {
                self.lemma_store_to(st, v, n, dst, 0, base, m);
                self.lemma_stored(st, v, n, dst, base, m);
                self.lemma_plain_value(b, v, n);
            },
        }
    }
}

} // verus!
