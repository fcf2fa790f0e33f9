//! What an instruction of the source does when its lines run.
use vstd::prelude::*;
use crate::ctx::literal_ptr;
use crate::emit::{at, movf, Row, St};
use crate::ir::{
    Alloca, Bin, BinOp, Conv, Freeze, Gep, Icmp, Inst, Load, MemLen, Memcpy, Pointer, Ret, Store,
    Ty, VaArg, VaStart, Val,
};
use crate::line::Line;
use crate::machine::{exec, lemma_exec_push, runs_to, step, unlinear, Flow, Machine};
use crate::meaning::{
    apart, bin_value, flag, holds, kept, kept_but, limit, number, passes, signed, word,
};
use crate::pic14e::laws::copy_loop::cell;
use crate::pic14e::laws::memory::points;
use crate::pic14e::laws::ready;
use crate::pic14e::{Gen, COPY_INDEX, HOLD};
use crate::runs::lemma_literal_text;

verus! {

impl<'a> Gen<'a> {
    /// The byte of data memory that the text of a pointer names outright: a literal
    /// address, or a global.
    pub open spec fn named_byte(&self, ptr: Seq<char>) -> Option<u32> {
        if ptr.len() > 0 && ptr[0] == '@' {
            self.cx.global(ptr.skip(1))
        } else {
            match literal_ptr(ptr) {
                Some(a) => Some(a as u32),
                None => None,
            }
        }
    }

    /// A store to a literal address or to a global leaves the value of its operand in
    /// the bytes there, all bytes of its type, and changes no other byte but the
    /// parking byte where it adds up an address.
    pub proof fn law_store_reaches_the_named_byte(&self, st: St, x: Store, base: int, m: Machine)
        requires
            ready(st, base, m),
            st.err is None,
            self.named_byte(x.ptr@) is Some,
            self.has_bytes(x.val, x.ty.bytes()),
            self.stays(x.val, x.ty.bytes(), self.named_byte(x.ptr@)->0),
        ensures
            ({
                let to = self.named_byte(x.ptr@)->0;
                let n = x.ty.bytes();
                let b = exec(st.rows, base, m);
                let s = self.inst(st, Inst::Store(x));
                let a = exec(s.rows, base, m);
                &&& ready(s, base, m)
                &&& s.err is None
                &&& passes(b, a)
                &&& word(a, to, n) == self.value(b, x.val, n)
                &&& self.only(b, a, x.val, to, n as int)
            }),
    {
        reveal(Gen::inst);
        let to = self.named_byte(x.ptr@)->0;
        if x.ptr@.len() > 0 && x.ptr@[0] == '@' {
            self.lemma_value_moved(st, x.val, x.ty.bytes(), to, base, m);
        } else {
            lemma_literal_text(x.ptr@);
            self.lemma_value_stored(st, x.val, x.ty.bytes(), to, base, m);
        }
    }

    proof fn lemma_load_from_tidy(&self, st: St, src: u32, dst: u32, n: u8, k: u8)
        ensures
            self.load_from(st, src, dst, n, k).err == st.err,
        decreases n - k,
    {
        if k < n {
            let s1 = self.w_store(st.emit(movf(at(src, k))), at(dst, k));
            self.lemma_load_from_tidy(s1, src, dst, n, (k + 1) as u8);
        }
    }

    /// A load from a literal address or from a global leaves the number that the bytes
    /// there write in the slot of its result, and changes nothing else.
    pub proof fn law_load_takes_the_named_byte(&self, st: St, x: Load, base: int, m: Machine)
        requires
            ready(st, base, m),
            st.err is None,
            self.named_byte(x.ptr@) is Some,
            self.cx.slot(self.cx.fname(), x.dst@) is Some,
            ({
                let src = self.named_byte(x.ptr@)->0;
                let dst = self.cx.slot(self.cx.fname(), x.dst@)->0;
                src == dst || apart(src, x.ty.bytes() as int, dst, x.ty.bytes() as int)
            }),
        ensures
            ({
                let n = x.ty.bytes();
                let src = self.named_byte(x.ptr@)->0;
                let dst = self.cx.slot(self.cx.fname(), x.dst@)->0;
                let b = exec(st.rows, base, m);
                let s = self.inst(st, Inst::Load(x));
                let a = exec(s.rows, base, m);
                &&& ready(s, base, m)
                &&& s.err is None
                &&& passes(b, a)
                &&& word(a, dst, n) == word(b, src, n)
                &&& kept(b, a, dst, n as int)
            }),
    {
        reveal(Gen::inst);
        let n = x.ty.bytes();
        let src = self.named_byte(x.ptr@)->0;
        let dst = self.cx.slot(self.cx.fname(), x.dst@)->0;
        if !(x.ptr@.len() > 0 && x.ptr@[0] == '@') {
            lemma_literal_text(x.ptr@);
        }
        self.lemma_load_from_tidy(st, src, dst, n, 0);
        self.lemma_load_from(st, src, dst, n, 0, base, m);
        let b = exec(st.rows, base, m);
        let a = exec(self.load_from(st, src, dst, n, 0).rows, base, m);
        assert(a.ram[at(dst, 0)] == b.ram[at(src, 0)]);
        if n > 1 {
            assert(a.ram[at(dst, 1)] == b.ram[at(src, 1)]);
        }
        if n > 2 {
            assert(a.ram[at(dst, 2)] == b.ram[at(src, 2)]);
            assert(a.ram[at(dst, 3)] == b.ram[at(src, 3)]);
        }
    }

    proof fn lemma_load_through_err(&self, st: St, r: Seq<char>, dst: u32, n: u8, k: u8, m: Machine)
        requires
            st.err is None,
            self.cx.pointer(r) is Some,
            forall|j: u8| j < n ==> #[trigger] self.leads(m, self.cx.pointer(r)->0, j),
        ensures
            self.load_through(st, r, dst, n, k).err is None,
        decreases n - k,
    {
        if k < n {
            let p = self.cx.pointer(r)->0;
            assert(self.leads(m, p, k));
            self.lemma_tidy_setup(st.rows, st.next, st, p, k, m);
            let (s, addr) = self.setup_pointer(st, p, k);
            self.lemma_tidy_finish(st.rows, st.next, s, addr);
            let s1 = self.w_store(self.reg_load_byte(st, r, k), at(dst, k));
            self.lemma_load_through_err(s1, r, dst, n, (k + 1) as u8, m);
        }
    }

    /// A load through a pointer leaves the number that the bytes behind it write in
    /// the slot of its result, and changes nothing else but the scratch byte.
    pub proof fn law_load_reads_behind_its_pointer(
        &self,
        st: St,
        x: Load,
        p: Pointer,
        base: int,
        m: Machine,
    )
        requires
            ready(st, base, m),
            st.err is None,
            x.ptr@.len() > 0 && x.ptr@[0] == '%',
            self.cx.pointer(x.ptr@.skip(1)) == Some(p),
            self.cx.slot(self.cx.fname(), x.dst@) is Some,
            ({
                let b = exec(st.rows, base, m);
                let n = x.ty.bytes();
                let dst = self.cx.slot(self.cx.fname(), x.dst@)->0;
                self.beside(p, dst, n as int) && forall|j: u8|
                    j < n ==> #[trigger] self.leads(b, p, j) && self.target(b, p, j) != self.scratch
                        && apart(dst, n as int, self.target(b, p, j), 1)
            }),
        ensures
            ({
                let n = x.ty.bytes();
                let dst = self.cx.slot(self.cx.fname(), x.dst@)->0;
                let b = exec(st.rows, base, m);
                let s = self.inst(st, Inst::Load(x));
                let a = exec(s.rows, base, m);
                &&& ready(s, base, m)
                &&& s.err is None
                &&& points(b, a)
                &&& kept_but(b, a, dst, n as int, self.scratch)
                &&& word(a, dst, n) == number(
                    b.ram[self.target(b, p, 0)],
                    b.ram[self.target(b, p, 1)],
                    b.ram[self.target(b, p, 2)],
                    b.ram[self.target(b, p, 3)],
                    n,
                )
            }),
    {
        reveal(Gen::inst);
        let dst = self.cx.slot(self.cx.fname(), x.dst@)->0;
        self.law_load_reads_memory(st, x.ptr@.skip(1), dst, x.ty.bytes(), base, m);
        self.lemma_load_through_err(
            st,
            x.ptr@.skip(1),
            dst,
            x.ty.bytes(),
            0,
            exec(st.rows, base, m),
        );
    }

    /// Whether the `n` bytes behind a pointer can be written: they are known, no two
    /// of them are the same, and neither the pointer nor the operand is computed from
    /// one of them.
    pub open spec fn writes(&self, b: Machine, p: Pointer, v: Val, n: u8) -> bool {
        &&& forall|j: u8|
            j < n ==> #[trigger] self.leads(b, p, j) && self.beside(p, self.target(b, p, j), 1)
        &&& forall|i: u8, j: u8|
            i < j < n ==> #[trigger] self.target(b, p, i) != #[trigger] self.target(b, p, j)
        &&& self.plain(v)
        &&& self.slot_of(v) matches Some(a) ==> apart(a, n as int, self.scratch, 1) && forall|j: u8|
            j < n ==> apart(a, n as int, #[trigger] self.target(b, p, j), 1)
    }

    #[verifier::rlimit(50)]
    proof fn lemma_store_through(
        &self,
        st: St,
        r: Seq<char>,
        p: Pointer,
        v: Val,
        n: u8,
        k: u8,
        b0: Machine,
        base: int,
        m: Machine,
    )
        requires
            ready(st, base, m),
            st.err is None,
            self.cx.pointer(r) == Some(p),
            n <= 4,
            k <= n,
            self.writes(b0, p, v, n),
            ({
                let b = exec(st.rows, base, m);
                &&& self.same_pointer(b0, b, p)
                &&& forall|j: u8| j < n ==> #[trigger] self.byte_of(b, v, j) == self.byte_of(b0, v, j)
                &&& forall|j: u8|
                    j < k ==> b.ram[#[trigger] self.target(b0, p, j)] == self.byte_of(b0, v, j)
            }),
        ensures
            ({
                let b = exec(st.rows, base, m);
                let s = self.store_through(st, r, v, n, k);
                let a = exec(s.rows, base, m);
                &&& ready(s, base, m)
                &&& s.err is None
                &&& points(b, a)
                &&& forall|j: u8|
                    j < n ==> a.ram[#[trigger] self.target(b0, p, j)] == self.byte_of(b0, v, j)
                &&& forall|y: u32|
                    y != self.scratch && (forall|j: u8|
                        j < n ==> y != #[trigger] self.target(b0, p, j)) ==> #[trigger] a.ram[y]
                        == b.ram[y]
            }),
        decreases n - k,
    {
        if k < n {
            let b = exec(st.rows, base, m);
            assert(self.leads(b0, p, k));
            self.lemma_same_target(b0, b, p);
            let t = self.target(b0, p, k);
            self.law_pointer_writes_its_target(st, r, k, v, base, m);
            let s1 = self.reg_store_byte(st, r, k, v);
            let c = exec(s1.rows, base, m);
            assert(s1.err is None) by {
                self.lemma_tidy_setup(st.rows, st.next, st, p, k, b);
                let (s, addr) = self.setup_pointer(st, p, k);
                self.lemma_tidy_load(st.rows, st.next, s, v, 4, k);
                self.lemma_tidy_finish(st.rows, st.next, self.load_byte(s, v, k), addr);
            }
            assert(self.same_pointer(b0, c, p)) by {
                assert forall|i: int| 0 <= i < p.terms@.len() implies c.ram[self.term_slot(
                    #[trigger] p.terms@[i],
                )->0] == b0.ram[self.term_slot(p.terms@[i])->0] by {
                    assert(b.ram[self.term_slot(p.terms@[i])->0] == b0.ram[self.term_slot(
                        p.terms@[i],
                    )->0]);
                    assert(self.beside(p, t, 1));
                }
                assert(self.beside(p, t, 1));
            }
            assert forall|j: u8| j < n implies #[trigger] self.byte_of(c, v, j) == self.byte_of(
                b0,
                v,
                j,
            ) by {
                assert(self.byte_of(b, v, j) == self.byte_of(b0, v, j));
                if let Some(a) = self.slot_of(v) {
                    assert(apart(a, n as int, t, 1));
                }
            }
            assert forall|j: u8| j < k + 1 implies c.ram[#[trigger] self.target(b0, p, j)]
                == self.byte_of(b0, v, j) by {
                assert(self.beside(p, self.target(b0, p, j), 1)) by {
                    assert(self.leads(b0, p, j));
                }
                if j < k {
                    assert(self.target(b0, p, j) != self.target(b0, p, k));
                }
            }
            self.lemma_store_through(s1, r, p, v, n, (k + 1) as u8, b0, base, m);
        }
    }

    /// A store through a pointer leaves every byte of its operand in its place behind
    /// the pointer, and changes nothing else but the scratch byte.
    pub proof fn law_store_writes_behind_its_pointer(
        &self,
        st: St,
        x: Store,
        p: Pointer,
        base: int,
        m: Machine,
    )
        requires
            ready(st, base, m),
            st.err is None,
            x.ptr@.len() > 0 && x.ptr@[0] == '%',
            self.cx.pointer(x.ptr@.skip(1)) == Some(p),
            self.writes(exec(st.rows, base, m), p, x.val, x.ty.bytes()),
        ensures
            ({
                let n = x.ty.bytes();
                let b = exec(st.rows, base, m);
                let s = self.inst(st, Inst::Store(x));
                let a = exec(s.rows, base, m);
                &&& ready(s, base, m)
                &&& s.err is None
                &&& points(b, a)
                &&& number(
                    a.ram[self.target(b, p, 0)],
                    a.ram[self.target(b, p, 1)],
                    a.ram[self.target(b, p, 2)],
                    a.ram[self.target(b, p, 3)],
                    n,
                ) == self.value(b, x.val, n)
                &&& forall|y: u32|
                    y != self.scratch && (forall|j: u8|
                        j < n ==> y != #[trigger] self.target(b, p, j)) ==> #[trigger] a.ram[y]
                        == b.ram[y]
            }),
    {
        reveal(Gen::inst);
        let b = exec(st.rows, base, m);
        let r = x.ptr@.skip(1);
        let n = x.ty.bytes();
        assert(self.leads(b, p, 0));
        assert(self.refuse_const(st, r) == st);
        self.lemma_store_through(st, r, p, x.val, n, 0, b, base, m);
        let a = exec(self.store_through(st, r, x.val, n, 0).rows, base, m);
        self.lemma_plain_value(b, x.val, n);
        assert(a.ram[self.target(b, p, 0)] == self.byte_of(b, x.val, 0));
        if n > 1 {
            assert(a.ram[self.target(b, p, 1)] == self.byte_of(b, x.val, 1));
        }
        if n > 2 {
            assert(a.ram[self.target(b, p, 2)] == self.byte_of(b, x.val, 2));
            assert(a.ram[self.target(b, p, 3)] == self.byte_of(b, x.val, 3));
        }
    }

    /// An integer becomes a pointer with its whole value, all bytes of its width, and
    /// nothing else changes.
    pub proof fn law_inttoptr_keeps_the_number(&self, st: St, x: Conv, base: int, m: Machine)
        requires
            ready(st, base, m),
            st.err is None,
            x.from == x.to,
            self.has_bytes(x.val, x.from.bytes()),
            self.cx.slot(self.cx.fname(), x.dst@) is Some,
            self.stays(x.val, x.from.bytes(), self.cx.slot(self.cx.fname(), x.dst@)->0),
        ensures
            ({
                let n = x.from.bytes();
                let da = self.cx.slot(self.cx.fname(), x.dst@)->0;
                let b = exec(st.rows, base, m);
                let s = self.inst(st, Inst::IntToPtr(x));
                let a = exec(s.rows, base, m);
                &&& ready(s, base, m)
                &&& s.err is None
                &&& passes(b, a)
                &&& word(a, da, n) == self.value(b, x.val, n)
                &&& self.only(b, a, x.val, da, n as int)
            }),
    {
        reveal(Gen::inst);
        let da = self.cx.slot(self.cx.fname(), x.dst@)->0;
        self.lemma_value_stored(st, x.val, x.from.bytes(), da, base, m);
    }

    /// A freeze leaves the value of its operand in the slot of its result.
    pub proof fn law_freeze_keeps_the_value(&self, st: St, x: Freeze, base: int, m: Machine)
        requires
            ready(st, base, m),
            st.err is None,
            self.has_bytes(x.val, x.ty.bytes()),
            self.cx.slot(self.cx.fname(), x.dst@) is Some,
            self.stays(x.val, x.ty.bytes(), self.cx.slot(self.cx.fname(), x.dst@)->0),
        ensures
            ({
                let n = x.ty.bytes();
                let da = self.cx.slot(self.cx.fname(), x.dst@)->0;
                let b = exec(st.rows, base, m);
                let s = self.inst(st, Inst::Freeze(x));
                let a = exec(s.rows, base, m);
                &&& ready(s, base, m)
                &&& s.err is None
                &&& passes(b, a)
                &&& word(a, da, n) == self.value(b, x.val, n)
                &&& self.only(b, a, x.val, da, n as int)
            }),
    {
        reveal(Gen::inst);
        let da = self.cx.slot(self.cx.fname(), x.dst@)->0;
        self.lemma_value_moved(st, x.val, x.ty.bytes(), da, base, m);
    }

    /// A return leaves the value of its operand in the result bytes and leaves.
    pub proof fn law_return_gives_the_value(&self, st: St, x: Ret, base: int, m: Machine)
        requires
            ready(st, base, m),
            st.err is None,
            x.val matches Some(v) ==> self.has_bytes(v.1, v.0.bytes()) && self.stays(
                v.1,
                v.0.bytes(),
                self.retval,
            ),
        ensures
            ({
                let b = exec(st.rows, base, m);
                let s = self.ret(st, x);
                let a = exec(s.rows, base, m);
                &&& s.err is None
                &&& s.rows.last().line == Line::Return
                &&& a.flow is Gone
                &&& match x.val {
                    Some(v) => word(a, self.retval, v.0.bytes()) == self.value(b, v.1, v.0.bytes())
                        && self.only(b, a, v.1, self.retval, v.0.bytes() as int),
                    None => a.ram == b.ram,
                }
            }),
    {
        let s1 = match x.val {
            Some(v) => self.store_to(st, v.1, v.0.bytes(), self.retval, 0),
            None => st,
        };
        if let Some(v) = x.val {
            self.lemma_value_stored(st, v.1, v.0.bytes(), self.retval, base, m);
        }
        let c = exec(s1.rows, base, m);
        let a = exec(self.ret(st, x).rows, base, m);
        assert(a == (Machine { flow: Flow::Gone, cycles: a.cycles, ..c })) by {
            lemma_exec_push(s1.rows, Row { line: Line::Return, loc: None }, base, m);
            reveal(step);
        }
    }

    /// A two-operand instruction leaves its value in the slot of its result, and changes
    /// nothing else but the comparison byte.
    pub proof fn law_operation_leaves_its_value(&self, st: St, x: Bin, base: int, m: Machine)
        requires
            ready(st, base, m),
            self.lowers(x),
        ensures
            ({
                let n = x.ty.bytes();
                let da = self.cx.slot(self.cx.fname(), x.dst@)->0;
                let b = exec(st.rows, base, m);
                let s = self.inst(st, Inst::Bin(x));
                let a = exec(s.rows, base, m);
                &&& ready(s, base, m)
                &&& passes(b, a)
                &&& kept_but(b, a, da, n as int, self.scratch)
                &&& word(a, da, n) == bin_value(
                    x.op,
                    self.value(b, x.a, n),
                    if x.op == BinOp::Shl || x.op == BinOp::LShr || x.op == BinOp::AShr {
                        x.b->Const_0 as int
                    } else {
                        self.value(b, x.b, n)
                    },
                    n,
                )
            }),
    {
        reveal(Gen::inst);
        self.law_bin_computes(st, x, base, m);
        let b = exec(st.rows, base, m);
        self.lemma_plain_value(b, x.a, x.ty.bytes());
        if !(x.op == BinOp::Shl || x.op == BinOp::LShr || x.op == BinOp::AShr) {
            self.lemma_plain_value(b, x.b, x.ty.bytes());
        }
    }

    /// A comparison leaves one in the slot of its result if its predicate holds of its
    /// operands, else zero, and changes nothing else but the comparison byte and the
    /// first result byte.
    pub proof fn law_comparison_leaves_its_answer(&self, st: St, x: Icmp, base: int, m: Machine)
        requires
            ready(st, base, m),
            self.orders(x),
        ensures
            ({
                let n = x.ty.bytes();
                let da = self.cx.slot(self.cx.fname(), x.dst@)->0;
                let b = exec(st.rows, base, m);
                let s = self.inst(st, Inst::Icmp(x));
                let a = exec(s.rows, base, m);
                &&& ready(s, base, m)
                &&& passes(b, a)
                &&& a.ram[da] == flag(
                    holds(x.pred, self.word_of(b, x.a, n), self.word_of(b, x.b, n), n),
                )
                &&& forall|z: u32|
                    z != da && z != self.scratch && z != self.retval ==> #[trigger] a.ram[z]
                        == b.ram[z]
            }),
    {
        reveal(Gen::inst);
        self.law_icmp_decides(st, x, base, m);
    }

    /// A change of width leaves the same number in the slot of its result: a zero
    /// extension the unsigned one, a sign extension the signed one, a truncation the
    /// one modulo the narrow limit. Nothing else changes.
    pub proof fn law_width_change_keeps_the_number(&self, st: St, x: Conv, base: int, m: Machine)
        requires
            ready(st, base, m),
            self.converts(x),
            st.next < u32::MAX,
        ensures
            ({
                let da = self.cx.slot(self.cx.fname(), x.dst@)->0;
                let (n, to) = (x.from.bytes(), x.to.bytes());
                let b = exec(st.rows, base, m);
                let v = self.value(b, x.val, n);
                let (z, s, t) = (
                    self.inst(st, Inst::Zext(x)),
                    self.inst(st, Inst::Sext(x)),
                    self.inst(st, Inst::Trunc(x)),
                );
                let (za, sa, ta) = (
                    exec(z.rows, base, m),
                    exec(s.rows, base, m),
                    exec(t.rows, base, m),
                );
                &&& n <= to ==> ready(z, base, m) && passes(b, za) && kept(b, za, da, to as int)
                    && word(za, da, to) == v
                &&& n < to && x.from != Ty::I1 && !(x.val is Const) ==> ready(s, base, m) && passes(
                    b,
                    sa,
                ) && kept(b, sa, da, to as int) && signed(word(sa, da, to), to) == signed(v, n)
                &&& n > to || (x.to == Ty::I1 && x.from != Ty::I1) ==> ready(t, base, m) && passes(
                    b,
                    ta,
                ) && kept(b, ta, da, to as int) && word(ta, da, to) == v % (if x.to == Ty::I1 {
                    2
                } else {
                    limit(to)
                })
            }),
    {
        reveal(Gen::inst);
        let (n, to) = (x.from.bytes(), x.to.bytes());
        let b = exec(st.rows, base, m);
        self.lemma_plain_value(b, x.val, n);
        if n <= to {
            self.law_zext_keeps_the_number(st, x, base, m);
        }
        if n < to && x.from != Ty::I1 && !(x.val is Const) {
            self.law_sext_keeps_the_signed_number(st, x, base, m);
        }
        if n > to || (x.to == Ty::I1 && x.from != Ty::I1) {
            self.law_trunc_keeps_the_low_bytes(st, x, base, m);
        }
    }

    /// A copy of a known length leaves every byte behind the source in its place behind
    /// the destination, and changes nothing else but the scratch byte and the parking
    /// byte.
    pub proof fn law_copy_moves_every_byte(
        &self,
        st: St,
        x: Memcpy,
        p: Pointer,
        q: Pointer,
        n: u8,
        base: int,
        m: Machine,
    )
        requires
            ready(st, base, m),
            x.len == MemLen::Const(n),
            self.behind(x.dst, p),
            self.behind(x.src, q),
            self.copies(exec(st.rows, base, m), p, q, n),
        ensures
            ({
                let b = exec(st.rows, base, m);
                let s = self.inst(st, Inst::Memcpy(x));
                let a = exec(s.rows, base, m);
                &&& ready(s, base, m)
                &&& points(b, a)
                &&& forall|j: u8|
                    j < n ==> a.ram[#[trigger] self.target(b, p, j)] == b.ram[self.target(b, q, j)]
                &&& forall|y: u32|
                    y != self.scratch && y != HOLD && !self.one_of(b, p, 0, n, y)
                        ==> #[trigger] a.ram[y] == b.ram[y]
            }),
    {
        reveal(Gen::inst);
        self.law_memory_is_copied(st, x, p, q, n, base, m);
    }

    /// A copy whose length a register holds does the same for as many bytes as the two
    /// bytes of the register say.
    pub proof fn law_counted_copy_moves_every_byte(
        &self,
        st: St,
        x: Memcpy,
        p: Pointer,
        q: Pointer,
        m: Machine,
    )
        requires
            st.next <= u32::MAX - 4,
            m.flow is Next,
            m.core is Enhanced,
            self.retval + 3 <= COPY_INDEX,
            x.len is Reg,
            self.behind(x.dst, p),
            self.behind(x.src, q),
            self.is_fixed(p),
            self.is_fixed(q),
            self.slot_of(x.len->Reg_0) matches Some(a) && a <= 0xFFFF && self.off_count(a)
                && self.off_count(at(a, 1)) && self.fixed_start(q) + word(m, a, 2) <= 0x1_0000
                && self.fixed_start(p) + word(m, a, 2) <= 0x1_0000 && self.copy_is_clear(
                self.fixed_start(q),
                self.fixed_start(p),
                word(m, a, 2),
            ),
        ensures
            exists|z: Machine| #[trigger]
                runs_to(self.inst(st, Inst::Memcpy(x)).rows, st.rows.len() as int, m, z)
                    && z.flow is Next && (forall|j: int|
                    0 <= j < word(m, self.slot_of(x.len->Reg_0)->0, 2) ==> z.ram[#[trigger] cell(
                        self.fixed_start(p),
                        j,
                    )] == m.ram[cell(self.fixed_start(q), j)]),
    {
        reveal(Gen::inst);
        self.law_run_time_copy_copies(st, x.dst, x.src, x.len->Reg_0, p, q, m);
    }

    /// The start of a list of variadic arguments, and each argument taken from it.
    pub proof fn law_list_is_walked(&self, st: St, x: VaStart, y: VaArg, base: int, m: Machine)
        requires
            ready(st, base, m),
        ensures
            ({
                let list = self.cx.slot(self.cx.fname(), x.list@);
                let va = self.cx.slot(self.cx.fname(), "__va"@);
                let b = exec(st.rows, base, m);
                let s = self.inst(st, Inst::VaStart(x));
                let a = exec(s.rows, base, m);
                list is Some && va is Some && s.err is None ==> ready(s, base, m) && passes(b, a)
                    && kept(b, a, list->0, 2) && word(a, list->0, 2) == va->0
            }),
            ({
                let n = y.ty.bytes();
                let dst = self.cx.slot(self.cx.fname(), y.dst@);
                let list = self.cx.slot(self.cx.fname(), y.ptr@);
                let b = exec(st.rows, base, m);
                let p = word(b, list->0, 2);
                let s = self.inst(st, Inst::VaArg(y));
                let a = exec(s.rows, base, m);
                list is Some && dst is Some && apart(dst->0, n as int, list->0, 2) && p + 255 <= 0xFFFF
                    && (forall|j: u8| j < n ==> apart(dst->0, n as int, #[trigger] unlinear(p + j), 1))
                    ==> ready(s, base, m) && points(b, a) && word(a, dst->0, n) == number(
                    b.ram[unlinear(p)],
                    b.ram[unlinear(p + 1)],
                    b.ram[unlinear(p + 2)],
                    b.ram[unlinear(p + 3)],
                    n,
                ) && word(a, list->0, 2) == p + n && (forall|z: u32|
                    (z < dst->0 || z >= dst->0 + n) && (z < list->0 || z >= list->0 + 2)
                        ==> #[trigger] a.ram[z] == b.ram[z])
            }),
    {
        reveal(Gen::inst);
        let list = self.cx.slot(self.cx.fname(), x.list@);
        let va = self.cx.slot(self.cx.fname(), "__va"@);
        if list is Some && va is Some && self.va_start(st, x).err is None {
            self.law_list_starts_at_its_region(st, x, base, m);
        }
        let n = y.ty.bytes();
        let dst = self.cx.slot(self.cx.fname(), y.dst@);
        let from = self.cx.slot(self.cx.fname(), y.ptr@);
        let p = word(exec(st.rows, base, m), from->0, 2);
        if from is Some && dst is Some && apart(dst->0, n as int, from->0, 2) && p + 255 <= 0xFFFF && (
        forall|j: u8| j < n ==> apart(dst->0, n as int, #[trigger] unlinear(p + j), 1)) {
            self.law_list_gives_its_arguments(st, y, base, m);
        }
    }

    /// Addresses and reservations of memory take no code.
    pub proof fn law_addresses_take_no_code(&self, st: St, g: Gep, l: Alloca)
        ensures
            self.inst(st, Inst::Gep(g)) == st,
            self.inst(st, Inst::Alloca(l)) == st,
    {
        reveal(Gen::inst);
    }
}

} // verus!
