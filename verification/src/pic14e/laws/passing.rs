//! Struct copies, result pointers and variadic arguments of a call.
use vstd::prelude::*;
use crate::emit::{at, hi8, lo8, movwf, St};
use crate::ir::{CallArg, Pointer, Val};
use crate::machine::{exec, group_exec, Machine};
use crate::meaning::{apart, kept, kept_but, passes, word};
use crate::pic14e::laws::memory::{lemma_halves, points};
use crate::pic14e::laws::{lemma_movwf, ready};
use crate::pic14e::Gen;

verus! {

impl<'a> Gen<'a> {
    proof fn lemma_byval_from(
        &self,
        st: St,
        v: Val,
        p: Pointer,
        n: u8,
        pa: u32,
        k: u8,
        base: int,
        m: Machine,
    )
        requires
            ready(st, base, m),
            self.behind(v, p),
            self.beside(p, pa, n as int),
            ({
                let b = exec(st.rows, base, m);
                forall|j: u8|
                    k <= j < n ==> #[trigger] self.leads(b, p, j) && self.target(b, p, j)
                        != self.scratch && apart(pa, n as int, self.target(b, p, j), 1)
            }),
        ensures
            ready(self.byval_from(st, v, n, pa, k), base, m),
            ({
                let b = exec(st.rows, base, m);
                let a = exec(self.byval_from(st, v, n, pa, k).rows, base, m);
                points(b, a) && kept_but(b, a, pa, n as int, self.scratch) && (forall|j: u8|
                    k <= j < n ==> #[trigger] a.ram[at(pa, j)] == b.ram[self.target(b, p, j)]) && (
                forall|j: u8| j < k ==> #[trigger] a.ram[at(pa, j)] == b.ram[at(pa, j)])
            }),
        decreases n - k,
    {
        if k < n {
            let b = exec(st.rows, base, m);
            assert(self.leads(b, p, k));
            self.lemma_ptr_load(st, v, p, k, base, m);
            let s1 = self.ptr_load_byte(st, v, k);
            let s2 = s1.emit(movwf(at(pa, k)));
            lemma_movwf(s1, at(pa, k), base, m);
            let c = exec(s2.rows, base, m);
            assert(self.same_pointer(b, c, p)) by {
                assert forall|i: int| 0 <= i < p.terms@.len() implies c.ram[self.term_slot(
                    #[trigger] p.terms@[i],
                )->0] == b.ram[self.term_slot(p.terms@[i])->0] by {}
            }
            self.lemma_same_target(b, c, p);
            assert forall|j: u8| k + 1 <= j < n implies #[trigger] self.leads(c, p, j)
                && self.target(c, p, j) != self.scratch && apart(
                pa,
                n as int,
                self.target(c, p, j),
                1,
            ) by {
                assert(self.leads(b, p, j));
            }
            self.lemma_byval_from(s2, v, p, n, pa, (k + 1) as u8, base, m);
            let a = exec(self.byval_from(st, v, n, pa, k).rows, base, m);
            assert forall|j: u8| k <= j < n implies #[trigger] a.ram[at(pa, j)]
                == b.ram[self.target(b, p, j)] by {
                assert(self.leads(b, p, j));
                assert(c.ram[self.target(b, p, j)] == b.ram[self.target(b, p, j)]);
            }
        }
    }

    /// A struct that is passed by value arrives byte by byte in the slot of its
    /// parameter, and nothing else changes but the scratch byte.
    pub proof fn law_struct_argument_is_copied(
        &self,
        st: St,
        v: Val,
        p: Pointer,
        n: u8,
        pa: u32,
        base: int,
        m: Machine,
    )
        requires
            ready(st, base, m),
            self.behind(v, p),
            self.beside(p, pa, n as int),
            ({
                let b = exec(st.rows, base, m);
                forall|j: u8|
                    j < n ==> #[trigger] self.leads(b, p, j) && self.target(b, p, j) != self.scratch
                        && apart(pa, n as int, self.target(b, p, j), 1)
            }),
        ensures
            ready(self.byval_from(st, v, n, pa, 0), base, m),
            ({
                let b = exec(st.rows, base, m);
                let a = exec(self.byval_from(st, v, n, pa, 0).rows, base, m);
                points(b, a) && kept_but(b, a, pa, n as int, self.scratch) && forall|j: u8|
                    j < n ==> #[trigger] a.ram[at(pa, j)] == b.ram[self.target(b, p, j)]
            }),
    {
        self.lemma_byval_from(st, v, p, n, pa, 0, base, m);
    }

    /// A result pointer arrives as the address of the object it names.
    pub proof fn law_result_pointer_is_the_address(
        &self,
        st: St,
        v: Val,
        pa: u32,
        base: int,
        m: Machine,
    )
        requires
            ready(st, base, m),
            self.sret_target(st, v).0 == st,
            self.sret_target(st, v).1 <= 0xFFFF,
            pa <= 0xFFFF,
        ensures
            ({
                let b = exec(st.rows, base, m);
                let (s0, t) = self.sret_target(st, v);
                let s = self.put_addr(s0, t, pa);
                let a = exec(s.rows, base, m);
                &&& ready(s, base, m)
                &&& passes(b, a)
                &&& word(a, pa, 2) == t
                &&& kept(b, a, pa, 2)
            }),
    {
        let b = exec(st.rows, base, m);
        let t = self.sret_target(st, v).1;
        let s = self.put_addr(st, t, pa);
        let a = exec(s.rows, base, m);
        lemma_halves(t);
        assert(ready(s, base, m) && passes(b, a) && a.ram == b.ram.insert(pa, lo8(t)).insert(
            at(pa, 1),
            hi8(t),
        )) by {
            broadcast use group_exec;

        }
    }

    /// A variadic argument arrives in the region of the function it is passed to,
    /// `off` bytes in, and the next one goes behind it.
    pub proof fn law_variadic_argument_is_stored(
        &self,
        st: St,
        func: Seq<char>,
        arg: CallArg,
        off: u32,
        base: int,
        m: Machine,
    )
        requires
            ready(st, base, m),
            self.plain(arg.val),
            arg.ty is Some,
            off <= 0xFFFF,
            self.cx.slot(func, "__va"@) matches Some(va) && va + off <= 0xFFFF && (va & 0xFF) + off
                + arg.ty->0.bytes() <= 0x100 && self.fits(
                arg.val,
                (va + off) as u32,
                arg.ty->0.bytes() as int,
            ),
        ensures
            ({
                let b = exec(st.rows, base, m);
                let (s, next) = self.extra_step(st, func, arg, off);
                let a = exec(s.rows, base, m);
                let n = arg.ty->0.bytes();
                let to = (self.cx.slot(func, "__va"@)->0 + off) as u32;
                &&& ready(s, base, m)
                &&& passes(b, a)
                &&& next == off + n
                &&& kept(b, a, to, n as int)
                &&& forall|j: u8| j < n ==> #[trigger] a.ram[at(to, j)] == self.byte_of(b, arg.val, j)
            }),
    {
        let n = arg.ty->0.bytes();
        let to = (self.cx.slot(func, "__va"@)->0 + off) as u32;
        self.lemma_move_from(st, arg.val, n, to, 0, base, m);
    }
}

} // verus!
