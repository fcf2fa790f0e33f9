//! What copies of memory and variadic arguments leave in RAM.
use vstd::prelude::*;
use crate::emit::{at, f_op, lo8, movf, movlw, movwf, on_z, St};
use crate::ir::{Base, Memcpy, MemLen, Pointer, Term, VaArg, VaStart, Val};
use crate::line::{BitOp, Line, Op, Reg};
use crate::machine::{exec, group_exec, unlinear, Machine};
use crate::meaning::{apart, kept, number, passes, word};
use crate::pic14e::laws::memory::{fsr_of, lemma_halves, points};
use crate::pic14e::laws::{lemma_movf, lemma_movlw, lemma_movwf, ready};
use crate::pic14e::pointer::{from_indf, to_indf, Addr};
use crate::pic14e::{Gen, HOLD};

verus! {

impl<'a> Gen<'a> {
    /// Whether `p` is the folded pointer that an operand stands for; a global
    /// stands for the pointer to its first byte.
    pub open spec fn behind(&self, v: Val, p: Pointer) -> bool {
        match v {
            Val::Reg(r) => self.cx.pointer(r@) == Some(p),
            Val::Global(name) => p.base == Base::Global(name) && p.k == 0 && p.terms@ == Seq::<
                Term,
            >::empty(),
            Val::Const(_) => false,
        }
    }

    /// Whether nothing but the byte `t`, the scratch byte and the holding byte
    /// changed in RAM.
    pub open spec fn keeps_but(&self, before: Machine, after: Machine, t: u32) -> bool {
        forall|x: u32|
            x != t && x != self.scratch && x != HOLD ==> #[trigger] after.ram[x] == before.ram[x]
    }

    /// Whether a folded pointer is computed from neither of the helping bytes
    /// nor the byte `t`.
    pub open spec fn free_of(&self, p: Pointer, t: u32) -> bool {
        self.beside(p, t, 1) && self.beside(p, HOLD, 1)
    }

    /// A byte read through an operand is the byte that it leads to.
    pub(crate) proof fn lemma_ptr_load(&self, st: St, v: Val, p: Pointer, off: u8, base: int, m: Machine)
        requires
            ready(st, base, m),
            self.behind(v, p),
            self.leads(exec(st.rows, base, m), p, off),
            self.target(exec(st.rows, base, m), p, off) != self.scratch,
        ensures
            ready(self.ptr_load_byte(st, v, off), base, m),
            ({
                let b = exec(st.rows, base, m);
                let a = exec(self.ptr_load_byte(st, v, off).rows, base, m);
                points(b, a) && self.keeps_ram(b, a) && a.w == b.ram[self.target(b, p, off)]
            }),
    {
        self.lemma_setup(st, p, off, base, m);
        let (s, addr) = self.setup_pointer(st, p, off);
        self.lemma_finish_load(s, addr, base, m);
    }

    /// W written through an operand goes to the byte that it leads to.
    proof fn lemma_ptr_store(&self, st: St, v: Val, p: Pointer, off: u8, base: int, m: Machine)
        requires
            ready(st, base, m),
            self.behind(v, p),
            self.leads(exec(st.rows, base, m), p, off),
            self.beside(p, HOLD, 1),
            self.scratch != HOLD,
        ensures
            ready(self.ptr_store_w(st, v, off), base, m),
            ({
                let b = exec(st.rows, base, m);
                let a = exec(self.ptr_store_w(st, v, off).rows, base, m);
                let t = self.target(b, p, off);
                points(b, a) && self.keeps_but(b, a, t) && a.ram[t] == b.w
            }),
    {
        let b = exec(st.rows, base, m);
        let (s0, parked) = self.needs_fsr(st, v);
        assert(s0 == st);
        if parked {
            let s1 = st.emit(movwf(HOLD));
            lemma_movwf(st, HOLD, base, m);
            let c = exec(s1.rows, base, m);
            assert(self.same_pointer(b, c, p)) by {
                assert forall|i: int| 0 <= i < p.terms@.len() implies c.ram[self.term_slot(
                    #[trigger] p.terms@[i],
                )->0] == b.ram[self.term_slot(p.terms@[i])->0] by {}
            }
            self.lemma_same_target(b, c, p);
            self.lemma_setup(s1, p, off, base, m);
            let (s2, addr) = self.setup_pointer(s1, p, off);
            assert(addr == Addr::Indirect);
            assert(self.ptr_setup(s1, v, off) == self.setup_pointer(s1, p, off));
            let s3 = s2.emit(movf(HOLD));
            lemma_movf(s2, HOLD, base, m);
            assert(self.ptr_store_w(st, v, off) == s3.emit(to_indf()));
            self.lemma_finish_store(s3, Addr::Indirect, base, m);
        } else {
            assert(self.ptr_setup(st, v, off) == self.setup_pointer(st, p, off));
            self.lemma_setup(st, p, off, base, m);
            let (s2, addr) = self.setup_pointer(st, p, off);
            assert(s2 == st);
            self.lemma_finish_store(s2, addr, base, m);
        }
    }

    /// Whether `n` bytes can be copied from behind `q` to behind `p`: both lead
    /// to RAM, the copies are `n` different bytes, none of them is read, and
    /// neither pointer is computed from a byte that the copy writes.
    pub open spec fn copies(&self, m: Machine, p: Pointer, q: Pointer, n: u8) -> bool {
        &&& self.scratch != HOLD
        &&& forall|j: u8|
            j < n ==> #[trigger] self.leads(m, p, j) && self.free_of(p, self.target(m, p, j))
                && self.free_of(q, self.target(m, p, j)) && self.target(m, p, j) != HOLD
        &&& forall|j: u8|
            j < n ==> #[trigger] self.leads(m, q, j) && self.target(m, q, j) != self.scratch
                && self.target(m, q, j) != HOLD
        &&& forall|i: u8, j: u8|
            i < n && j < n ==> #[trigger] self.target(m, p, i) != #[trigger] self.target(m, q, j)
        &&& forall|i: u8, j: u8|
            #![trigger self.target(m, p, i), self.target(m, p, j)]
            i < j < n ==> self.target(m, p, i) != self.target(m, p, j)
    }

    /// Whether `x` is one of the bytes from `i` to `n` behind `p`.
    pub open spec fn one_of(&self, m: Machine, p: Pointer, i: u8, n: u8, x: u32) -> bool {
        exists|j: u8| i <= j < n && x == #[trigger] self.target(m, p, j)
    }

    /// A copy can go on as long as neither pointer changed.
    proof fn lemma_copies_same(&self, b: Machine, d: Machine, p: Pointer, q: Pointer, n: u8)
        requires
            self.copies(b, p, q, n),
            self.same_pointer(b, d, p),
            self.same_pointer(b, d, q),
        ensures
            self.copies(d, p, q, n),
    {
        self.lemma_same_target(b, d, p);
        self.lemma_same_target(b, d, q);
        assert forall|j: u8| j < n implies #[trigger] self.leads(d, p, j) && self.free_of(
            p,
            self.target(d, p, j),
        ) && self.free_of(q, self.target(d, p, j)) && self.target(d, p, j) != HOLD by {
            assert(self.leads(b, p, j));
            assert(self.target(d, p, j) == self.target(b, p, j));
        }
        assert forall|j: u8| j < n implies #[trigger] self.leads(d, q, j) && self.target(
            d,
            q,
            j,
        ) != self.scratch && self.target(d, q, j) != HOLD by {
            assert(self.leads(b, q, j));
            assert(self.target(d, q, j) == self.target(b, q, j));
        }
        assert forall|x: u8, y: u8| x < n && y < n implies #[trigger] self.target(d, p, x)
            != #[trigger] self.target(d, q, y) by {
            assert(self.target(d, p, x) == self.target(b, p, x));
            assert(self.target(d, q, y) == self.target(b, q, y));
        }
        assert forall|x: u8, y: u8|
            #![trigger self.target(d, p, x), self.target(d, p, y)]
            x < y < n implies self.target(d, p, x) != self.target(d, p, y) by {
            assert(self.target(d, p, x) == self.target(b, p, x));
            assert(self.target(d, p, y) == self.target(b, p, y));
        }
    }

    proof fn lemma_copy_from(
        &self,
        st: St,
        dst: Val,
        src: Val,
        p: Pointer,
        q: Pointer,
        n: u8,
        i: u8,
        base: int,
        m: Machine,
    )
        requires
            ready(st, base, m),
            self.behind(dst, p),
            self.behind(src, q),
            self.copies(exec(st.rows, base, m), p, q, n),
        ensures
            ready(self.copy_from(st, dst, src, n, i), base, m),
            ({
                let b = exec(st.rows, base, m);
                let a = exec(self.copy_from(st, dst, src, n, i).rows, base, m);
                points(b, a) && (forall|j: u8|
                    i <= j < n ==> a.ram[#[trigger] self.target(b, p, j)] == b.ram[self.target(
                        b,
                        q,
                        j,
                    )]) && (forall|x: u32|
                    x != self.scratch && x != HOLD && !self.one_of(b, p, i, n, x)
                        ==> #[trigger] a.ram[x] == b.ram[x])
            }),
        decreases n - i,
    {
        if i < n {
            let b = exec(st.rows, base, m);
            assert(self.leads(b, q, i) && self.leads(b, p, i));
            let t = self.target(b, p, i);
            let s1 = self.ptr_load_byte(st, src, i);
            self.lemma_ptr_load(st, src, q, i, base, m);
            let c = exec(s1.rows, base, m);
            self.lemma_same(b, c, p, t);
            self.lemma_same_target(b, c, p);
            assert(self.target(c, p, i) == t);
            let s2 = self.ptr_store_w(s1, dst, i);
            self.lemma_ptr_store(s1, dst, p, i, base, m);
            let d = exec(s2.rows, base, m);
            assert(d.ram[t] == b.ram[self.target(b, q, i)]);
            self.lemma_same(b, d, p, t);
            self.lemma_same(b, d, q, t);
            self.lemma_same_target(b, d, p);
            self.lemma_same_target(b, d, q);
            self.lemma_copies_same(b, d, p, q, n);
            self.lemma_copy_from(s2, dst, src, p, q, n, (i + 1) as u8, base, m);
            let a = exec(self.copy_from(st, dst, src, n, i).rows, base, m);
            assert forall|j: u8| i <= j < n implies a.ram[#[trigger] self.target(b, p, j)]
                == b.ram[self.target(b, q, j)] by {
                assert(self.leads(b, p, j) && self.leads(b, q, j));
                assert(self.target(d, p, j) == self.target(b, p, j));
                assert(self.target(d, q, j) == self.target(b, q, j));
                if j == i {
                    assert(!self.one_of(d, p, (i + 1) as u8, n, t)) by {
                        assert forall|y: u8| i + 1 <= y < n implies t != #[trigger] self.target(
                            d,
                            p,
                            y,
                        ) by {
                            assert(self.target(d, p, y) == self.target(b, p, y));
                        }
                    }
                } else {
                    let u = self.target(b, q, j);
                    assert(u != t);
                    assert(d.ram[u] == b.ram[u]);
                }
            }
            assert forall|x: u32|
                x != self.scratch && x != HOLD && !self.one_of(b, p, i, n, x) implies #[trigger] a.ram[x]
                == b.ram[x] by {
                assert(x != t);
                assert(!self.one_of(d, p, (i + 1) as u8, n, x)) by {
                    assert forall|y: u8| i + 1 <= y < n implies x != #[trigger] self.target(d, p, y) by {
                        assert(self.target(d, p, y) == self.target(b, p, y));
                    }
                }
            }
        }
    }

    proof fn lemma_same(&self, b: Machine, c: Machine, p: Pointer, t: u32)
        requires
            self.keeps_but(b, c, t),
            self.free_of(p, t),
            self.good_terms(p.terms@),
            self.home_of(p) is Some,
        ensures
            self.same_pointer(b, c, p),
    {
        assert forall|i: int| 0 <= i < p.terms@.len() implies c.ram[self.term_slot(
            #[trigger] p.terms@[i],
        )->0] == b.ram[self.term_slot(p.terms@[i])->0] by {}
    }

    /// A copy of `n` bytes leaves every byte behind the source in its place
    /// behind the destination, and changes nothing else but the scratch byte and
    /// the holding byte.
    pub proof fn law_memory_is_copied(
        &self,
        st: St,
        x: Memcpy,
        p: Pointer,
        q: Pointer,
        n: u8,
        base: int,
        m: Machine,
    )
        requires
            ready(st, base, m),
            x.len == MemLen::Const(n),
            self.behind(x.dst, p),
            self.behind(x.src, q),
            self.copies(exec(st.rows, base, m), p, q, n),
        ensures
            ready(self.memcpy(st, x), base, m),
            ({
                let b = exec(st.rows, base, m);
                let a = exec(self.memcpy(st, x).rows, base, m);
                points(b, a) && (forall|j: u8|
                    j < n ==> a.ram[#[trigger] self.target(b, p, j)] == b.ram[self.target(b, q, j)])
                    && (forall|y: u32|
                    y != self.scratch && y != HOLD && !self.one_of(b, p, 0, n, y)
                        ==> #[trigger] a.ram[y] == b.ram[y])
            }),
    {
        self.lemma_copy_from(st, x.dst, x.src, p, q, n, 0, base, m);
    }

    /// A list starts at the region of the function's variadic arguments.
    pub proof fn law_list_starts_at_its_region(&self, st: St, x: VaStart, base: int, m: Machine)
        requires
            ready(st, base, m),
            self.cx.slot(self.cx.fname(), x.list@) is Some,
            self.cx.slot(self.cx.fname(), "__va"@) is Some,
            self.va_start(st, x).err is None,
        ensures
            ready(self.va_start(st, x), base, m),
            ({
                let list = self.cx.slot(self.cx.fname(), x.list@)->0;
                let va = self.cx.slot(self.cx.fname(), "__va"@)->0;
                let b = exec(st.rows, base, m);
                let a = exec(self.va_start(st, x).rows, base, m);
                passes(b, a) && kept(b, a, list, 2) && word(a, list, 2) == va
            }),
    {
        broadcast use group_exec;

        lemma_halves(self.cx.slot(self.cx.fname(), "__va"@)->0);
    }

    proof fn lemma_va_read(&self, st: St, list: u32, da: u32, n: u8, i: u8, base: int, m: Machine)
        requires
            ready(st, base, m),
            da <= 0xFFFF,
            apart(da, n as int, list, 2),
            list <= 0xFFFF,
            word(exec(st.rows, base, m), list, 2) + 255 <= 0xFFFF,
            forall|j: u8|
                j < n ==> apart(
                    da,
                    n as int,
                    #[trigger] unlinear(word(exec(st.rows, base, m), list, 2) + j),
                    1,
                ),
        ensures
            ready(self.va_read(st, list, da, n, i), base, m),
            ({
                let b = exec(st.rows, base, m);
                let a = exec(self.va_read(st, list, da, n, i).rows, base, m);
                let p = word(b, list, 2);
                points(b, a) && kept(b, a, da, n as int) && (forall|j: u8|
                    i <= j < n ==> #[trigger] a.ram[at(da, j)] == b.ram[unlinear(p + j)]) && (
                forall|j: u8| j < i ==> #[trigger] a.ram[at(da, j)] == b.ram[at(da, j)])
            }),
        decreases n - i,
    {
        if i < n {
            let b = exec(st.rows, base, m);
            let p = word(b, list, 2);
            let s1 = self.fsr_indirect(st, list, 0, Seq::empty(), i);
            assert(ready(s1, base, m) && points(b, exec(s1.rows, base, m)) && exec(
                s1.rows,
                base,
                m,
            ).ram == b.ram && fsr_of(exec(s1.rows, base, m)) == p + i) by {
                let s0 = st.emit(movf(list)).emit(Line::Movwf(Reg::Fsr0L)).emit(
                    movf(at(list, 1)),
                ).emit(Line::Movwf(Reg::Fsr0H));
                self.lemma_fsr_from(st, list, base, m);
                assert(lo8(i as u32) == i) by {
                    let k = i as u32;
                    assert(k <= 0xFF ==> (k & 0xFF) as u8 == k) by (bit_vector);
                }
                lemma_movlw(s0, i, base, m);
                self.lemma_fsr_add(s0.emit(movlw(i)), base, m);
            }
            let s2 = s1.emit(from_indf());
            self.lemma_finish_load(s1, Addr::Indirect, base, m);
            let s3 = s2.emit(movwf(at(da, i)));
            lemma_movwf(s2, at(da, i), base, m);
            let c = exec(s3.rows, base, m);
            assert(c.ram[list] == b.ram[list] && c.ram[at(list, 1)] == b.ram[at(list, 1)]);
            assert(c.ram == b.ram.insert(at(da, i), b.ram[unlinear(p + i)]));
            self.lemma_va_read(s3, list, da, n, (i + 1) as u8, base, m);
            let a = exec(self.va_read(st, list, da, n, i).rows, base, m);
            assert forall|j: u8| i <= j < n implies #[trigger] a.ram[at(da, j)] == b.ram[unlinear(
                p + j,
            )] by {
                if j > i {
                    assert(c.ram[unlinear(p + j)] == b.ram[unlinear(p + j)]);
                }
            }
        }
    }

    proof fn lemma_va_advance(&self, st: St, list: u32, n: u8, base: int, m: Machine)
        requires
            ready(st, base, m),
            list <= 0xFFFF,
            word(exec(st.rows, base, m), list, 2) + n <= 0xFFFF,
        ensures
            ready(self.va_advance(st, list, n), base, m),
            ({
                let b = exec(st.rows, base, m);
                let a = exec(self.va_advance(st, list, n).rows, base, m);
                passes(b, a) && kept(b, a, list, 2) && word(a, list, 2) == word(b, list, 2) + n
            }),
        decreases n,
    {
        if n > 0 {
            let b = exec(st.rows, base, m);
            let s1 = st.emit(f_op(Op::Incf, list)).emit(on_z(BitOp::Btfsc)).emit(
                f_op(Op::Incf, at(list, 1)),
            );
            assert(ready(s1, base, m) && passes(b, exec(s1.rows, base, m)) && kept(
                b,
                exec(s1.rows, base, m),
                list,
                2,
            ) && word(exec(s1.rows, base, m), list, 2) == word(b, list, 2) + 1) by {
                broadcast use group_exec;

            }
            self.lemma_va_advance(s1, list, (n - 1) as u8, base, m);
        }
    }

    /// An argument taken from a list is the number that the bytes the list
    /// points at write, and the list moves on by its size.
    pub proof fn law_list_gives_its_arguments(&self, st: St, x: VaArg, base: int, m: Machine)
        requires
            ready(st, base, m),
            self.cx.slot(self.cx.fname(), x.dst@) is Some,
            self.cx.slot(self.cx.fname(), x.ptr@) is Some,
            ({
                let b = exec(st.rows, base, m);
                let n = x.ty.bytes();
                let da = self.cx.slot(self.cx.fname(), x.dst@)->0;
                let list = self.cx.slot(self.cx.fname(), x.ptr@)->0;
                let p = word(b, list, 2);
                &&& apart(da, n as int, list, 2)
                &&& p + 255 <= 0xFFFF
                &&& forall|j: u8| j < n ==> apart(da, n as int, #[trigger] unlinear(p + j), 1)
            }),
        ensures
            ready(self.va_arg(st, x), base, m),
            ({
                let n = x.ty.bytes();
                let da = self.cx.slot(self.cx.fname(), x.dst@)->0;
                let list = self.cx.slot(self.cx.fname(), x.ptr@)->0;
                let b = exec(st.rows, base, m);
                let p = word(b, list, 2);
                let a = exec(self.va_arg(st, x).rows, base, m);
                &&& points(b, a)
                &&& word(a, da, n) == number(
                    b.ram[unlinear(p)],
                    b.ram[unlinear(p + 1)],
                    b.ram[unlinear(p + 2)],
                    b.ram[unlinear(p + 3)],
                    n,
                )
                &&& word(a, list, 2) == p + n
                &&& forall|y: u32|
                    (y < da || y >= da + n) && (y < list || y >= list + 2)
                        ==> #[trigger] a.ram[y] == b.ram[y]
            }),
    {
        let n = x.ty.bytes();
        let da = self.cx.slot(self.cx.fname(), x.dst@)->0;
        let list = self.cx.slot(self.cx.fname(), x.ptr@)->0;
        let b = exec(st.rows, base, m);
        let p = word(b, list, 2);
        self.lemma_va_read(st, list, da, n, 0, base, m);
        let s1 = self.va_read(st, list, da, n, 0);
        let c = exec(s1.rows, base, m);
        assert(c.ram[at(da, 0)] == b.ram[unlinear(p + 0)]);
        if n > 1 {
            assert(c.ram[at(da, 1)] == b.ram[unlinear(p + 1)]);
        }
        if n > 2 {
            assert(c.ram[at(da, 2)] == b.ram[unlinear(p + 2)]);
            assert(c.ram[at(da, 3)] == b.ram[unlinear(p + 3)]);
        }
        assert(word(c, list, 2) == p);
        self.lemma_va_advance(s1, list, n, base, m);
    }
}

} // verus!
