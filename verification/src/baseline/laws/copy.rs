//! What a copy of memory leaves in RAM.
use vstd::prelude::*;
use crate::baseline::Gen;
use crate::emit::{movf, movwf, St};
use crate::ir::{Base, Memcpy, MemLen, Pointer, Term, Val};
use crate::machine::{exec, Machine};
use crate::meaning::passes;

verus! {

impl<'a> Gen<'a> {
    /// Whether `p` is the folded pointer that an operand stands for; a global
    /// stands for the pointer to its first byte.
    pub open spec fn behind(&self, v: Val, p: Pointer) -> bool {
        match v {
            Val::Reg(r) => self.cx.pointer(r@) == Some(p),
            Val::Global(name) => p.base == Base::Global(name) && p.k == 0 && p.terms@ == Seq::<
                Term,
            >::empty(),
            Val::Const(_) => false,
        }
    }

    /// Whether nothing but the byte `t` and the fixed bytes changed in RAM.
    pub open spec fn keeps_but(&self, before: Machine, after: Machine, t: u32) -> bool {
        forall|x: u32| x != t && !self.is_fixed(x) ==> #[trigger] after.ram[x] == before.ram[x]
    }

    pub(crate) proof fn lemma_ptr_load(&self, st: St, v: Val, p: Pointer, off: u8, base: int, m: Machine)
        requires
            self.at_row(st, base, m),
            self.behind(v, p),
            self.leads(exec(st.rows, base, m), p, off),
            !self.is_fixed(self.target(exec(st.rows, base, m), p, off)),
        ensures
            self.at_row(self.ptr_load_byte(st, v, off), base, m),
            ({
                let b = exec(st.rows, base, m);
                let a = exec(self.ptr_load_byte(st, v, off).rows, base, m);
                passes(b, a) && self.keeps(b, a) && a.w == b.ram[self.target(b, p, off)]
            }),
    {
        let b = exec(st.rows, base, m);
        self.lemma_setup(st, p, off, base, m);
        let (s, addr) = self.setup_pointer(st, p, off);
        assert(self.ptr_load_byte(st, v, off) == self.finish_load(s, addr));
        self.lemma_finish_load(s, addr, self.target(b, p, off), base, m);
    }

    proof fn lemma_ptr_store(&self, st: St, v: Val, p: Pointer, off: u8, base: int, m: Machine)
        requires
            self.at_row(st, base, m),
            self.behind(v, p),
            self.leads(exec(st.rows, base, m), p, off),
        ensures
            self.at_row(self.ptr_store_w(st, v, off), base, m),
            ({
                let b = exec(st.rows, base, m);
                let a = exec(self.ptr_store_w(st, v, off).rows, base, m);
                let t = self.target(b, p, off);
                passes(b, a) && self.keeps_but(b, a, t) && a.ram[t] == b.w
            }),
    {
        let b = exec(st.rows, base, m);
        let t = self.target(b, p, off);
        if self.needs_fsr(v) {
            let s1 = st.emit(movwf(self.tmp2));
            self.lemma_stage(st, self.tmp2, base, m);
            let m1 = exec(s1.rows, base, m);
            assert(self.is_fixed(self.tmp2));
            self.lemma_target_kept(b, m1, p, off);
            self.lemma_setup(s1, p, off, base, m);
            let (s2, addr) = self.setup_pointer(s1, p, off);
            let m2 = exec(s2.rows, base, m);
            assert(m2.ram[self.tmp2] == m1.ram[self.tmp2]);
            let s3 = s2.emit(movf(self.tmp2));
            self.lemma_unstage(s2, self.tmp2, base, m);
            self.lemma_finish_store(s3, addr, t, base, m);
        } else {
            let (s1, addr) = self.setup_pointer(st, p, off);
            assert(self.ptr_setup(st, v, off) == (s1, addr));
            assert(s1 == st);
            self.lemma_setup(st, p, off, base, m);
            self.lemma_finish_store(st, addr, t, base, m);
        }
    }

    /// A pointer leads to the same bytes while nothing it is computed from
    /// changes.
    pub(crate) proof fn lemma_target_apart(&self, b: Machine, a: Machine, p: Pointer, t: u32, off: u8)
        requires
            self.leads(b, p, off),
            self.keeps_but(b, a, t),
            !self.reads(p, t),
        ensures
            self.target(a, p, off) == self.target(b, p, off),
            self.leads(a, p, off),
    {
        self.lemma_sum_apart(b, a, p.terms@, 0, t);
        if let Base::Slot(sname, indirect) = p.base {
            let sa = self.cx.slot(self.cx.fname(), sname@)->0;
            if indirect || self.cx.holds_addr(sname@) {
                assert(a.ram[sa] == b.ram[sa]);
            }
        }
    }

    /// Whether `n` bytes can be copied from behind `q` to behind `p`: both lead
    /// to RAM, the copies are `n` different bytes, none of them is read, and
    /// neither pointer is computed from a byte that the copy writes.
    pub open spec fn copies(&self, m: Machine, p: Pointer, q: Pointer, n: u8) -> bool {
        &&& forall|j: u8|
            j < n ==> #[trigger] self.leads(m, p, j) && !self.is_fixed(self.target(m, p, j))
                && !self.reads(p, self.target(m, p, j)) && !self.reads(q, self.target(m, p, j))
        &&& forall|j: u8|
            j < n ==> #[trigger] self.leads(m, q, j) && !self.is_fixed(self.target(m, q, j))
        &&& forall|i: u8, j: u8|
            i < n && j < n ==> #[trigger] self.target(m, p, i) != #[trigger] self.target(m, q, j)
        &&& forall|i: u8, j: u8|
            #![trigger self.target(m, p, i), self.target(m, p, j)]
            i < j < n ==> self.target(m, p, i) != self.target(m, p, j)
    }

    proof fn lemma_copies_kept(&self, b: Machine, d: Machine, p: Pointer, q: Pointer, n: u8, t: u32)
        requires
            self.copies(b, p, q, n),
            self.keeps_but(b, d, t),
            !self.reads(p, t),
            !self.reads(q, t),
        ensures
            self.copies(d, p, q, n),
            forall|j: u8| j < n ==> #[trigger] self.target(d, p, j) == self.target(b, p, j),
            forall|j: u8| j < n ==> #[trigger] self.target(d, q, j) == self.target(b, q, j),
    {
        assert forall|j: u8| j < n implies #[trigger] self.target(d, p, j) == self.target(b, p, j) by {
            assert(self.leads(b, p, j));
            self.lemma_target_apart(b, d, p, t, j);
        }
        assert forall|j: u8| j < n implies #[trigger] self.target(d, q, j) == self.target(b, q, j) by {
            assert(self.leads(b, q, j));
            self.lemma_target_apart(b, d, q, t, j);
        }
        assert forall|j: u8| j < n implies #[trigger] self.leads(d, p, j) && !self.is_fixed(
            self.target(d, p, j),
        ) && !self.reads(p, self.target(d, p, j)) && !self.reads(q, self.target(d, p, j)) by {
            assert(self.leads(b, p, j));
            self.lemma_target_apart(b, d, p, t, j);
        }
        assert forall|j: u8| j < n implies #[trigger] self.leads(d, q, j) && !self.is_fixed(
            self.target(d, q, j),
        ) by {
            assert(self.leads(b, q, j));
            self.lemma_target_apart(b, d, q, t, j);
        }
    }

    /// Whether `x` is one of the bytes from `i` to `n` behind `p`.
    pub open spec fn one_of(&self, m: Machine, p: Pointer, i: u8, n: u8, x: u32) -> bool {
        exists|j: u8| i <= j < n && x == #[trigger] self.target(m, p, j)
    }

    proof fn lemma_copy_from(
        &self,
        st: St,
        dst: Val,
        src: Val,
        p: Pointer,
        q: Pointer,
        n: u8,
        i: u8,
        base: int,
        m: Machine,
    )
        requires
            self.at_row(st, base, m),
            self.behind(dst, p),
            self.behind(src, q),
            self.copies(exec(st.rows, base, m), p, q, n),
        ensures
            self.at_row(self.copy_from(st, dst, src, n, i), base, m),
            ({
                let b = exec(st.rows, base, m);
                let a = exec(self.copy_from(st, dst, src, n, i).rows, base, m);
                passes(b, a) && (forall|j: u8|
                    i <= j < n ==> a.ram[#[trigger] self.target(b, p, j)] == b.ram[self.target(
                        b,
                        q,
                        j,
                    )]) && (forall|x: u32|
                    !self.is_fixed(x) && !self.one_of(b, p, i, n, x) ==> #[trigger] a.ram[x]
                        == b.ram[x])
            }),
        decreases n - i,
    {
        if i < n {
            let b = exec(st.rows, base, m);
            assert(self.leads(b, q, i) && self.leads(b, p, i));
            let t = self.target(b, p, i);
            let s1 = self.ptr_load_byte(st, src, i);
            self.lemma_ptr_load(st, src, q, i, base, m);
            let c = exec(s1.rows, base, m);
            self.lemma_target_kept(b, c, p, i);
            let s2 = self.ptr_store_w(s1, dst, i);
            self.lemma_ptr_store(s1, dst, p, i, base, m);
            let d = exec(s2.rows, base, m);
            assert(d.ram[t] == b.ram[self.target(b, q, i)]);
            assert(self.keeps_but(b, d, t));
            self.lemma_copies_kept(b, d, p, q, n, t);
            self.lemma_copy_from(s2, dst, src, p, q, n, (i + 1) as u8, base, m);
            let a = exec(self.copy_from(st, dst, src, n, i).rows, base, m);
            assert forall|j: u8| i <= j < n implies a.ram[#[trigger] self.target(b, p, j)]
                == b.ram[self.target(b, q, j)] by {
                assert(self.leads(b, p, j) && self.leads(b, q, j));
                assert(self.target(d, p, j) == self.target(b, p, j));
                assert(self.target(d, q, j) == self.target(b, q, j));
                if j == i {
                    assert(!self.one_of(d, p, (i + 1) as u8, n, t)) by {
                        assert forall|y: u8| i + 1 <= y < n implies t != #[trigger] self.target(
                            d,
                            p,
                            y,
                        ) by {
                            assert(self.target(d, p, y) == self.target(b, p, y));
                        }
                    }
                } else {
                    let u = self.target(b, q, j);
                    assert(u != t);
                    assert(d.ram[u] == b.ram[u]);
                }
            }
            assert forall|x: u32| !self.is_fixed(x) && !self.one_of(b, p, i, n, x) implies #[trigger] a.ram[x]
                == b.ram[x] by {
                assert(x != t);
                assert(!self.one_of(d, p, (i + 1) as u8, n, x)) by {
                    assert forall|y: u8| i + 1 <= y < n implies x != #[trigger] self.target(d, p, y) by {
                        assert(self.target(d, p, y) == self.target(b, p, y));
                    }
                }
            }
        }
    }

    /// A copy of `n` bytes leaves every byte behind the source in its place
    /// behind the destination, in whatever banks they lie, and changes nothing
    /// else but the fixed bytes.
    pub proof fn law_memory_is_copied(
        &self,
        st: St,
        x: Memcpy,
        p: Pointer,
        q: Pointer,
        n: u8,
        base: int,
        m: Machine,
    )
        requires
            self.at_row(st, base, m),
            x.len == MemLen::Const(n),
            self.behind(x.dst, p),
            self.behind(x.src, q),
            self.copies(exec(st.rows, base, m), p, q, n),
        ensures
            self.at_row(self.memcpy(st, x), base, m),
            ({
                let b = exec(st.rows, base, m);
                let a = exec(self.memcpy(st, x).rows, base, m);
                passes(b, a) && (forall|j: u8|
                    j < n ==> a.ram[#[trigger] self.target(b, p, j)] == b.ram[self.target(b, q, j)])
                    && (forall|y: u32|
                    !self.is_fixed(y) && !self.one_of(b, p, 0, n, y) ==> #[trigger] a.ram[y]
                        == b.ram[y])
            }),
    {
        self.lemma_copy_from(st, x.dst, x.src, p, q, n, 0, base, m);
    }
}

} // verus!
