//! What an instruction of the source does when its lines run.
use vstd::prelude::*;
use crate::baseline::pointer::Addr;
use crate::baseline::Gen;
use crate::ctx::literal_ptr;
use crate::emit::{at, movf, movwf, St};
use crate::error::IselError;
use crate::ir::{
    Alloca, Bin, BinOp, Conv, Freeze, Gep, Icmp, Inst, Load, MemLen, Memcpy, Pointer, Ret, Store, Ty,
    VaArg, VaStart, Val,
};
use crate::line::{Imm, Line, LitOp, Op};
use crate::machine::{exec, group_exec, Flow, Machine};
use crate::meaning::{
    apart, bin_value, flag, holds, kept, limit, number, passes, signed, word,
};
use crate::runs::{lemma_literal_text, lemma_tidy_emit};

verus! {

impl<'a> Gen<'a> {
    /// The byte of data memory that the text of a pointer names outright: a literal
    /// address, or a global.
    pub open spec fn named_byte(&self, ptr: Seq<char>) -> Option<u32> {
        if ptr.len() > 0 && ptr[0] == '@' {
            self.cx.global(ptr.skip(1))
        } else {
            match literal_ptr(ptr) {
                Some(a) => Some(a as u32),
                None => None,
            }
        }
    }

    /// A store to a literal address or to a global leaves the value of its operand in
    /// the bytes there, all bytes of its type, and changes no other byte but the
    /// fixed ones where it adds up an address.
    pub proof fn law_store_reaches_the_named_byte(&self, st: St, x: Store, base: int, m: Machine)
        requires
            self.at_row(st, base, m),
            st.err is None,
            self.named_byte(x.ptr@) is Some,
            self.has_bytes(exec(st.rows, base, m), x.val, x.ty.bytes()),
            self.stays(x.val, x.ty.bytes(), self.named_byte(x.ptr@)->0),
        ensures
            ({
                let to = self.named_byte(x.ptr@)->0;
                let n = x.ty.bytes();
                let b = exec(st.rows, base, m);
                let s = self.inst(st, Inst::Store(x));
                let a = exec(s.rows, base, m);
                &&& self.at_row(s, base, m)
                &&& s.err is None
                &&& passes(b, a)
                &&& word(a, to, n) == self.value(b, x.val, n)
                &&& self.only(b, a, x.val, to, n as int)
            }),
    {
        reveal(Gen::inst);
        let to = self.named_byte(x.ptr@)->0;
        if x.ptr@.len() > 0 && x.ptr@[0] == '@' {
            self.lemma_value_moved(st, x.val, x.ty.bytes(), to, base, m);
        } else {
            lemma_literal_text(x.ptr@);
            self.lemma_value_stored(st, x.val, x.ty.bytes(), to, base, m);
        }
    }

    proof fn lemma_load_from_tidy(&self, st: St, src: u32, dst: u32, n: u8, k: u8)
        requires
            st.err is None,
            self.sound_bytes(src, n),
            self.sound_bytes(dst, n),
        ensures
            self.load_from(st, src, dst, n, k).err is None,
        decreases n - k,
    {
        if k < n {
            assert(self.sound(at(src, k)) && self.sound(at(dst, k)));
            self.lemma_tidy_access(st.rows, st.next, st, Op::Movf, at(src, k));
            let s1 = self.acc_w(st, Op::Movf, at(src, k));
            self.lemma_tidy_access(st.rows, st.next, s1, Op::Movf, at(dst, k));
            self.lemma_load_from_tidy(self.w_store(s1, at(dst, k)), src, dst, n, (k + 1) as u8);
        }
    }

    /// A load from a literal address or from a global leaves the number that the bytes
    /// there write in the slot of its result, and changes nothing else.
    pub proof fn law_load_takes_the_named_byte(&self, st: St, x: Load, base: int, m: Machine)
        requires
            self.at_row(st, base, m),
            st.err is None,
            self.named_byte(x.ptr@) is Some,
            self.cx.slot(self.cx.fname(), x.dst@) is Some,
            ({
                let n = x.ty.bytes();
                let src = self.named_byte(x.ptr@)->0;
                let dst = self.cx.slot(self.cx.fname(), x.dst@)->0;
                self.sound_bytes(src, n) && self.sound_bytes(dst, n) && (src == dst || apart(
                    src,
                    n as int,
                    dst,
                    n as int,
                ))
            }),
        ensures
            ({
                let n = x.ty.bytes();
                let src = self.named_byte(x.ptr@)->0;
                let dst = self.cx.slot(self.cx.fname(), x.dst@)->0;
                let b = exec(st.rows, base, m);
                let s = self.inst(st, Inst::Load(x));
                let a = exec(s.rows, base, m);
                &&& self.at_row(s, base, m)
                &&& s.err is None
                &&& passes(b, a)
                &&& word(a, dst, n) == word(b, src, n)
                &&& kept(b, a, dst, n as int)
            }),
    {
        reveal(Gen::inst);
        let n = x.ty.bytes();
        let src = self.named_byte(x.ptr@)->0;
        let dst = self.cx.slot(self.cx.fname(), x.dst@)->0;
        if !(x.ptr@.len() > 0 && x.ptr@[0] == '@') {
            lemma_literal_text(x.ptr@);
        }
        self.lemma_load_from_tidy(st, src, dst, n, 0);
        self.lemma_load_from(st, src, dst, n, 0, base, m);
        let b = exec(st.rows, base, m);
        let a = exec(self.load_from(st, src, dst, n, 0).rows, base, m);
        assert(a.ram[at(dst, 0)] == b.ram[at(src, 0)]);
        if n > 1 {
            assert(a.ram[at(dst, 1)] == b.ram[at(src, 1)]);
        }
        if n > 2 {
            assert(a.ram[at(dst, 2)] == b.ram[at(src, 2)]);
            assert(a.ram[at(dst, 3)] == b.ram[at(src, 3)]);
        }
    }

    proof fn lemma_load_through(
        &self,
        st: St,
        r: Seq<char>,
        p: Pointer,
        n: u8,
        pa: u32,
        k: u8,
        base: int,
        m: Machine,
    )
        requires
            self.at_row(st, base, m),
            st.err is None,
            self.cx.pointer(r) == Some(p),
            self.passes_struct(exec(st.rows, base, m), p, pa, n),
        ensures
            ({
                let b = exec(st.rows, base, m);
                let s = self.load_through(st, r, pa, n, k);
                let a = exec(s.rows, base, m);
                &&& self.at_row(s, base, m)
                &&& s.err is None
                &&& passes(b, a)
                &&& forall|x: u32|
                    !(pa <= x < pa + n) && !self.is_fixed(x) ==> #[trigger] a.ram[x] == b.ram[x]
                &&& forall|j: u8|
                    k <= j < n ==> #[trigger] a.ram[at(pa, j)] == b.ram[self.target(b, p, j)]
                &&& forall|j: u8| j < k && j < n ==> #[trigger] a.ram[at(pa, j)] == b.ram[at(pa, j)]
            }),
        decreases n - k,
    {
        if k < n {
            let b = exec(st.rows, base, m);
            let t = at(pa, k);
            assert(self.leads(b, p, k));
            let s1 = self.reg_load_byte(st, r, k);
            self.law_pointer_reads_its_target(st, r, k, base, m);
            assert(self.sound(t));
            let s2 = self.w_store(s1, t);
            self.lemma_w_store(s1, t, base, m);
            assert(s2.err is None) by {
                self.lemma_tidy_setup(st.rows, st.next, st, p, k, b);
                let (s, addr) = self.setup_pointer(st, p, k);
                assert(addr matches Addr::Direct(a) ==> self.sound(a));
                self.lemma_tidy_finish(st.rows, st.next, s, addr);
                self.lemma_tidy_access(st.rows, st.next, s1, Op::Movf, t);
            }
            let c = exec(s2.rows, base, m);
            assert(self.keeps_but(b, c, t));
            assert(!self.reads(p, t));
            assert forall|j: u8| j < n implies #[trigger] self.leads(c, p, j) && self.target(c, p, j)
                == self.target(b, p, j) by {
                assert(self.leads(b, p, j));
                self.lemma_target_apart(b, c, p, t, j);
            }
            assert(self.passes_struct(c, p, pa, n)) by {
                assert forall|j: u8| j < n implies #[trigger] self.leads(c, p, j) && !self.is_fixed(
                    self.target(c, p, j),
                ) && apart(pa, n as int, self.target(c, p, j), 1) by {
                    assert(self.leads(b, p, j));
                }
            }
            self.lemma_load_through(s2, r, p, n, pa, (k + 1) as u8, base, m);
            let a = exec(self.load_through(st, r, pa, n, k).rows, base, m);
            assert forall|j: u8| k <= j < n implies #[trigger] a.ram[at(pa, j)]
                == b.ram[self.target(b, p, j)] by {
                assert(self.leads(b, p, j) && self.leads(c, p, j));
                if j == k {
                    assert(c.ram[t] == b.ram[self.target(b, p, k)]);
                } else {
                    assert(c.ram[self.target(b, p, j)] == b.ram[self.target(b, p, j)]);
                }
            }
            assert forall|j: u8| j < k && j < n implies #[trigger] a.ram[at(pa, j)] == b.ram[at(pa, j)] by {
                assert(c.ram[at(pa, j)] == b.ram[at(pa, j)]);
            }
        }
    }

    /// A load through a pointer leaves the number that the bytes behind it write in
    /// the slot of its result, and changes nothing else but the fixed bytes.
    pub proof fn law_load_reads_behind_its_pointer(
        &self,
        st: St,
        x: Load,
        p: Pointer,
        base: int,
        m: Machine,
    )
        requires
            self.at_row(st, base, m),
            st.err is None,
            x.ptr@.len() > 0 && x.ptr@[0] == '%',
            self.cx.pointer(x.ptr@.skip(1)) == Some(p),
            self.cx.slot(self.cx.fname(), x.dst@) is Some,
            self.passes_struct(
                exec(st.rows, base, m),
                p,
                self.cx.slot(self.cx.fname(), x.dst@)->0,
                x.ty.bytes(),
            ),
        ensures
            ({
                let n = x.ty.bytes();
                let dst = self.cx.slot(self.cx.fname(), x.dst@)->0;
                let b = exec(st.rows, base, m);
                let s = self.inst(st, Inst::Load(x));
                let a = exec(s.rows, base, m);
                &&& self.at_row(s, base, m)
                &&& s.err is None
                &&& self.settled(b, a, dst, n as int)
                &&& word(a, dst, n) == number(
                    b.ram[self.target(b, p, 0)],
                    b.ram[self.target(b, p, 1)],
                    b.ram[self.target(b, p, 2)],
                    b.ram[self.target(b, p, 3)],
                    n,
                )
            }),
    {
        reveal(Gen::inst);
        let n = x.ty.bytes();
        let dst = self.cx.slot(self.cx.fname(), x.dst@)->0;
        self.lemma_load_through(st, x.ptr@.skip(1), p, n, dst, 0, base, m);
        let b = exec(st.rows, base, m);
        let a = exec(self.inst(st, Inst::Load(x)).rows, base, m);
        assert(a.ram[at(dst, 0)] == b.ram[self.target(b, p, 0)]);
        if n > 1 {
            assert(a.ram[at(dst, 1)] == b.ram[self.target(b, p, 1)]);
        }
        if n > 2 {
            assert(a.ram[at(dst, 2)] == b.ram[self.target(b, p, 2)]);
            assert(a.ram[at(dst, 3)] == b.ram[self.target(b, p, 3)]);
        }
    }

    /// Whether the `n` bytes behind a pointer can be written: they are known, no two
    /// of them are the same, and neither the pointer nor the operand is computed from
    /// one of them.
    pub open spec fn writes(&self, b: Machine, p: Pointer, v: Val, n: u8) -> bool {
        &&& forall|j: u8|
            j < n ==> #[trigger] self.leads(b, p, j) && !self.is_fixed(self.target(b, p, j))
                && !self.reads(p, self.target(b, p, j))
        &&& forall|i: u8, j: u8|
            i < j < n ==> #[trigger] self.target(b, p, i) != #[trigger] self.target(b, p, j)
        &&& self.plain(v, n)
        &&& self.slot_of(v) matches Some(a) ==> self.spares(a, n as int) && forall|j: u8|
            j < n ==> apart(a, n as int, #[trigger] self.target(b, p, j), 1)
    }

    #[verifier::rlimit(50)]
    proof fn lemma_store_through(
        &self,
        st: St,
        r: Seq<char>,
        p: Pointer,
        v: Val,
        n: u8,
        k: u8,
        base: int,
        m: Machine,
    )
        requires
            self.at_row(st, base, m),
            st.err is None,
            self.cx.pointer(r) == Some(p),
            n <= 4,
            k <= n,
            self.writes(exec(st.rows, base, m), p, v, n),
        ensures
            ({
                let b = exec(st.rows, base, m);
                let s = self.store_through(st, r, v, n, k);
                let a = exec(s.rows, base, m);
                &&& self.at_row(s, base, m)
                &&& s.err is None
                &&& passes(b, a)
                &&& forall|j: u8|
                    k <= j < n ==> a.ram[#[trigger] self.target(b, p, j)] == self.byte_of(b, v, j)
                &&& forall|j: u8|
                    j < k ==> a.ram[#[trigger] self.target(b, p, j)] == b.ram[self.target(b, p, j)]
                &&& forall|y: u32|
                    !self.is_fixed(y) && (forall|j: u8|
                        j < n ==> y != #[trigger] self.target(b, p, j)) ==> #[trigger] a.ram[y]
                        == b.ram[y]
            }),
        decreases n - k,
    {
        if k < n {
            let b = exec(st.rows, base, m);
            assert(self.leads(b, p, k));
            let t = self.target(b, p, k);
            assert(self.plain(v, (k + 1) as u8)) by {
                if let Some(a) = self.slot_of(v) {
                    assert forall|i: u8| i < k + 1 implies self.sound(#[trigger] at(a, i)) by {}
                }
            }
            self.law_pointer_writes_its_target(st, r, k, v, base, m);
            let s1 = self.reg_store_byte(st, r, k, v);
            let c = exec(s1.rows, base, m);
            assert(s1.err is None) by {
                self.lemma_tidy_write(st, r, p, v, n, k, b);
            }
            assert(self.keeps_but(b, c, t));
            assert forall|j: u8| j < n implies #[trigger] self.leads(c, p, j) && self.target(c, p, j)
                == self.target(b, p, j) by {
                assert(self.leads(b, p, j));
                self.lemma_target_apart(b, c, p, t, j);
            }
            assert(self.writes(c, p, v, n)) by {
                assert forall|j: u8| j < n implies #[trigger] self.leads(c, p, j) && !self.is_fixed(
                    self.target(c, p, j),
                ) && !self.reads(p, self.target(c, p, j)) by {
                    assert(self.leads(b, p, j));
                }
                assert forall|i: u8, j: u8| i < j < n implies #[trigger] self.target(c, p, i)
                    != #[trigger] self.target(c, p, j) by {
                    assert(self.leads(c, p, i) && self.leads(c, p, j));
                }
                if let Some(a) = self.slot_of(v) {
                    assert forall|j: u8| j < n implies apart(
                        a,
                        n as int,
                        #[trigger] self.target(c, p, j),
                        1,
                    ) by {
                        assert(self.leads(c, p, j));
                    }
                }
            }
            assert forall|j: u8| j < n implies #[trigger] self.byte_of(c, v, j) == self.byte_of(b, v, j) by {
                if let Some(a) = self.slot_of(v) {
                    assert(apart(a, n as int, t, 1));
                    assert(!self.is_fixed(at(a, j)) && at(a, j) != t);
                }
            }
            self.lemma_store_through(s1, r, p, v, n, (k + 1) as u8, base, m);
            let a = exec(self.store_through(st, r, v, n, k).rows, base, m);
            assert forall|j: u8| k <= j < n implies a.ram[#[trigger] self.target(b, p, j)]
                == self.byte_of(b, v, j) by {
                assert(self.leads(c, p, j));
                assert(self.byte_of(c, v, j) == self.byte_of(b, v, j));
            }
            assert forall|j: u8| j < k implies a.ram[#[trigger] self.target(b, p, j)]
                == b.ram[self.target(b, p, j)] by {
                assert(self.leads(c, p, j) && self.leads(b, p, j));
                assert(self.target(b, p, j) != t);
            }
            assert forall|y: u32|
                !self.is_fixed(y) && (forall|j: u8|
                    j < n ==> y != #[trigger] self.target(b, p, j)) implies #[trigger] a.ram[y]
                == b.ram[y] by {
                assert(y != t);
                assert forall|j: u8| j < n implies y != #[trigger] self.target(c, p, j) by {
                    assert(self.leads(c, p, j));
                    assert(y != self.target(b, p, j));
                }
                assert(c.ram[y] == b.ram[y]);
            }
        }
    }

    proof fn lemma_tidy_write(&self, st: St, r: Seq<char>, p: Pointer, v: Val, n: u8, k: u8, b: Machine)
        requires
            st.err is None,
            self.cx.pointer(r) == Some(p),
            k < n,
            self.leads(b, p, k),
            self.plain(v, n),
        ensures
            self.reg_store_byte(st, r, k, v).err is None,
    {
        let (r0, next) = (st.rows, st.next);
        assert(self.has_bytes(b, v, n));
        if self.reg_needs_fsr(r) && self.sets_bank(v, k) {
            self.lemma_tidy_load(r0, next, st, v, n, k, b);
            let s1 = self.load_byte(st, v, k);
            lemma_tidy_emit(r0, next, s1, movwf(self.tmp2));
            let s2 = s1.emit(movwf(self.tmp2));
            self.lemma_tidy_setup(r0, next, s2, p, k, b);
            let (s3, addr) = self.setup_pointer(s2, p, k);
            lemma_tidy_emit(r0, next, s3, movf(self.tmp2));
            assert(addr matches Addr::Direct(a) ==> self.sound(a));
            self.lemma_tidy_finish(r0, next, s3.emit(movf(self.tmp2)), addr);
        } else {
            self.lemma_tidy_setup(r0, next, st, p, k, b);
            let (s1, addr) = self.setup_pointer(st, p, k);
            self.lemma_tidy_load(r0, next, s1, v, n, k, b);
            assert(addr matches Addr::Direct(a) ==> self.sound(a));
            self.lemma_tidy_finish(r0, next, self.load_byte(s1, v, k), addr);
        }
    }

    /// A store through a pointer leaves every byte of its operand in its place behind
    /// the pointer, and changes nothing else but the fixed bytes.
    pub proof fn law_store_writes_behind_its_pointer(
        &self,
        st: St,
        x: Store,
        p: Pointer,
        base: int,
        m: Machine,
    )
        requires
            self.at_row(st, base, m),
            st.err is None,
            x.ptr@.len() > 0 && x.ptr@[0] == '%',
            self.cx.pointer(x.ptr@.skip(1)) == Some(p),
            self.writes(exec(st.rows, base, m), p, x.val, x.ty.bytes()),
        ensures
            ({
                let n = x.ty.bytes();
                let b = exec(st.rows, base, m);
                let s = self.inst(st, Inst::Store(x));
                let a = exec(s.rows, base, m);
                &&& self.at_row(s, base, m)
                &&& s.err is None
                &&& passes(b, a)
                &&& number(
                    a.ram[self.target(b, p, 0)],
                    a.ram[self.target(b, p, 1)],
                    a.ram[self.target(b, p, 2)],
                    a.ram[self.target(b, p, 3)],
                    n,
                ) == self.value(b, x.val, n)
                &&& forall|y: u32|
                    !self.is_fixed(y) && (forall|j: u8|
                        j < n ==> y != #[trigger] self.target(b, p, j)) ==> #[trigger] a.ram[y]
                        == b.ram[y]
            }),
    {
        reveal(Gen::inst);
        let b = exec(st.rows, base, m);
        let r = x.ptr@.skip(1);
        let n = x.ty.bytes();
        assert(self.leads(b, p, 0));
        assert(self.refuse_const(st, r) == st);
        self.lemma_store_through(st, r, p, x.val, n, 0, base, m);
        let a = exec(self.store_through(st, r, x.val, n, 0).rows, base, m);
        self.lemma_plain_value(b, x.val, n);
        assert(a.ram[self.target(b, p, 0)] == self.byte_of(b, x.val, 0));
        if n > 1 {
            assert(a.ram[self.target(b, p, 1)] == self.byte_of(b, x.val, 1));
        }
        if n > 2 {
            assert(a.ram[self.target(b, p, 2)] == self.byte_of(b, x.val, 2));
            assert(a.ram[self.target(b, p, 3)] == self.byte_of(b, x.val, 3));
        }
    }

    /// An integer becomes a pointer with its whole value, all bytes of its width, and
    /// nothing else changes.
    pub proof fn law_inttoptr_keeps_the_number(&self, st: St, x: Conv, base: int, m: Machine)
        requires
            self.at_row(st, base, m),
            st.err is None,
            x.from == x.to,
            self.has_bytes(exec(st.rows, base, m), x.val, x.from.bytes()),
            self.cx.slot(self.cx.fname(), x.dst@) is Some,
            self.stays(x.val, x.from.bytes(), self.cx.slot(self.cx.fname(), x.dst@)->0),
        ensures
            ({
                let n = x.from.bytes();
                let da = self.cx.slot(self.cx.fname(), x.dst@)->0;
                let b = exec(st.rows, base, m);
                let s = self.inst(st, Inst::IntToPtr(x));
                let a = exec(s.rows, base, m);
                &&& self.at_row(s, base, m)
                &&& s.err is None
                &&& passes(b, a)
                &&& word(a, da, n) == self.value(b, x.val, n)
                &&& self.only(b, a, x.val, da, n as int)
            }),
    {
        reveal(Gen::inst);
        let da = self.cx.slot(self.cx.fname(), x.dst@)->0;
        self.lemma_value_moved(st, x.val, x.from.bytes(), da, base, m);
    }

    /// A freeze leaves the value of its operand in the slot of its result.
    pub proof fn law_freeze_keeps_the_value(&self, st: St, x: Freeze, base: int, m: Machine)
        requires
            self.at_row(st, base, m),
            st.err is None,
            self.has_bytes(exec(st.rows, base, m), x.val, x.ty.bytes()),
            self.cx.slot(self.cx.fname(), x.dst@) is Some,
            self.stays(x.val, x.ty.bytes(), self.cx.slot(self.cx.fname(), x.dst@)->0),
        ensures
            ({
                let n = x.ty.bytes();
                let da = self.cx.slot(self.cx.fname(), x.dst@)->0;
                let b = exec(st.rows, base, m);
                let s = self.inst(st, Inst::Freeze(x));
                let a = exec(s.rows, base, m);
                &&& self.at_row(s, base, m)
                &&& s.err is None
                &&& passes(b, a)
                &&& word(a, da, n) == self.value(b, x.val, n)
                &&& self.only(b, a, x.val, da, n as int)
            }),
    {
        reveal(Gen::inst);
        let da = self.cx.slot(self.cx.fname(), x.dst@)->0;
        self.lemma_value_moved(st, x.val, x.ty.bytes(), da, base, m);
    }

    /// A return leaves the value of its operand in the result bytes and leaves, with
    /// zero in W.
    pub proof fn law_return_gives_the_value(&self, st: St, x: Ret, base: int, m: Machine)
        requires
            self.at_row(st, base, m),
            st.err is None,
            x.val matches Some(v) ==> self.has_bytes(exec(st.rows, base, m), v.1, v.0.bytes())
                && self.stays(v.1, v.0.bytes(), self.retval),
        ensures
            ({
                let b = exec(st.rows, base, m);
                let s = self.ret(st, x);
                let a = exec(s.rows, base, m);
                &&& s.err is None
                &&& s.rows.last().line == Line::Lit(LitOp::Retlw, Imm::Byte(0))
                &&& a.flow is Gone
                &&& match x.val {
                    Some(v) => word(a, self.retval, v.0.bytes()) == self.value(b, v.1, v.0.bytes())
                        && self.only(b, a, v.1, self.retval, v.0.bytes() as int),
                    None => a.ram == b.ram,
                }
            }),
    {
        let s1 = match x.val {
            Some(v) => self.move_from(st, v.1, v.0.bytes(), self.retval, 0),
            None => st,
        };
        if let Some(v) = x.val {
            self.lemma_value_moved(st, v.1, v.0.bytes(), self.retval, base, m);
        }
        let c = exec(s1.rows, base, m);
        let a = exec(self.ret(st, x).rows, base, m);
        assert(a == (Machine { w: 0, flow: Flow::Gone, cycles: a.cycles, ..c })) by {
            broadcast use group_exec;

        }
    }

    /// A two-operand instruction leaves its value in the slot of its result, and changes
    /// nothing else but the fixed bytes.
    pub proof fn law_operation_leaves_its_value(&self, st: St, x: Bin, base: int, m: Machine)
        requires
            self.at_row(st, base, m),
            self.lowers(x),
        ensures
            ({
                let n = x.ty.bytes();
                let da = self.cx.slot(self.cx.fname(), x.dst@)->0;
                let b = exec(st.rows, base, m);
                let s = self.inst(st, Inst::Bin(x));
                let a = exec(s.rows, base, m);
                &&& self.at_row(s, base, m)
                &&& self.settled(b, a, da, n as int)
                &&& word(a, da, n) == bin_value(
                    x.op,
                    self.value(b, x.a, n),
                    if x.op == BinOp::Shl || x.op == BinOp::LShr || x.op == BinOp::AShr {
                        x.b->Const_0 as int
                    } else {
                        self.value(b, x.b, n)
                    },
                    n,
                )
            }),
    {
        reveal(Gen::inst);
        self.law_bin_computes(st, x, base, m);
        let b = exec(st.rows, base, m);
        self.lemma_plain_value(b, x.a, x.ty.bytes());
        if !(x.op == BinOp::Shl || x.op == BinOp::LShr || x.op == BinOp::AShr) {
            self.lemma_plain_value(b, x.b, x.ty.bytes());
        }
    }

    /// A comparison leaves one in the slot of its result if its predicate holds of its
    /// operands, else zero, and changes nothing else but the fixed bytes.
    pub proof fn law_comparison_leaves_its_answer(&self, st: St, x: Icmp, base: int, m: Machine)
        requires
            self.at_row(st, base, m),
            self.orders(x),
        ensures
            ({
                let n = x.ty.bytes();
                let da = self.cx.slot(self.cx.fname(), x.dst@)->0;
                let b = exec(st.rows, base, m);
                let s = self.inst(st, Inst::Icmp(x));
                let a = exec(s.rows, base, m);
                &&& self.at_row(s, base, m)
                &&& self.settled(b, a, da, 1)
                &&& a.ram[da] == flag(
                    holds(x.pred, self.word_of(b, x.a, n), self.word_of(b, x.b, n), n),
                )
            }),
    {
        reveal(Gen::inst);
        self.law_icmp_decides(st, x, base, m);
    }

    /// A change of width leaves the same number in the slot of its result: a zero
    /// extension the unsigned one, a sign extension the signed one, a truncation the
    /// one modulo the narrow limit. Nothing else changes.
    pub proof fn law_width_change_keeps_the_number(&self, st: St, x: Conv, base: int, m: Machine)
        requires
            self.at_row(st, base, m),
            self.converts(x),
            st.next < u32::MAX,
        ensures
            ({
                let da = self.cx.slot(self.cx.fname(), x.dst@)->0;
                let (n, to) = (x.from.bytes(), x.to.bytes());
                let b = exec(st.rows, base, m);
                let v = self.value(b, x.val, n);
                let (z, s, t) = (
                    self.inst(st, Inst::Zext(x)),
                    self.inst(st, Inst::Sext(x)),
                    self.inst(st, Inst::Trunc(x)),
                );
                let (za, sa, ta) = (
                    exec(z.rows, base, m),
                    exec(s.rows, base, m),
                    exec(t.rows, base, m),
                );
                &&& n <= to ==> self.at_row(z, base, m) && passes(b, za) && kept(
                    b,
                    za,
                    da,
                    to as int,
                ) && word(za, da, to) == v
                &&& n < to && x.from != Ty::I1 && !(x.val is Const) ==> self.at_row(s, base, m)
                    && passes(b, sa) && kept(b, sa, da, to as int) && signed(word(sa, da, to), to)
                    == signed(v, n)
                &&& n > to || (x.to == Ty::I1 && x.from != Ty::I1) ==> self.at_row(t, base, m)
                    && passes(b, ta) && kept(b, ta, da, to as int) && word(ta, da, to) == v % (if x.to
                    == Ty::I1 {
                    2
                } else {
                    limit(to)
                })
            }),
    {
        reveal(Gen::inst);
        let (n, to) = (x.from.bytes(), x.to.bytes());
        let b = exec(st.rows, base, m);
        self.lemma_plain_value(b, x.val, n);
        if n <= to {
            self.law_zext_keeps_the_number(st, x, base, m);
        }
        if n < to && x.from != Ty::I1 && !(x.val is Const) {
            self.law_sext_keeps_the_signed_number(st, x, base, m);
        }
        if n > to || (x.to == Ty::I1 && x.from != Ty::I1) {
            self.law_trunc_keeps_the_low_bytes(st, x, base, m);
        }
    }

    /// A copy leaves every byte behind the source in its place behind the destination,
    /// and changes nothing else but the fixed bytes.
    pub proof fn law_copy_moves_every_byte(
        &self,
        st: St,
        x: Memcpy,
        p: Pointer,
        q: Pointer,
        n: u8,
        base: int,
        m: Machine,
    )
        requires
            self.at_row(st, base, m),
            x.len == MemLen::Const(n),
            self.behind(x.dst, p),
            self.behind(x.src, q),
            self.copies(exec(st.rows, base, m), p, q, n),
        ensures
            ({
                let b = exec(st.rows, base, m);
                let s = self.inst(st, Inst::Memcpy(x));
                let a = exec(s.rows, base, m);
                &&& self.at_row(s, base, m)
                &&& passes(b, a)
                &&& forall|j: u8|
                    j < n ==> a.ram[#[trigger] self.target(b, p, j)] == b.ram[self.target(b, q, j)]
                &&& forall|y: u32|
                    !self.is_fixed(y) && !self.one_of(b, p, 0, n, y) ==> #[trigger] a.ram[y]
                        == b.ram[y]
            }),
    {
        reveal(Gen::inst);
        self.law_memory_is_copied(st, x, p, q, n, base, m);
    }

    /// Addresses and reservations of memory take no code, and there are no lists of
    /// variadic arguments and no copies of a run-time length.
    pub proof fn law_addresses_take_no_code(
        &self,
        st: St,
        g: Gep,
        l: Alloca,
        s: VaStart,
        a: VaArg,
        c: Memcpy,
    )
        requires
            st.err is None,
            c.len is Reg,
        ensures
            self.inst(st, Inst::Gep(g)) == st,
            self.inst(st, Inst::Alloca(l)) == st,
            self.inst(st, Inst::VaStart(s)).err == Some(IselError::Variadic),
            self.inst(st, Inst::VaArg(a)).err == Some(IselError::Variadic),
            self.inst(st, Inst::Memcpy(c)).err == Some(IselError::DynamicMemcpy),
    {
        reveal(Gen::inst);
    }
}

} // verus!
