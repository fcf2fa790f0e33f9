//! What the code for one instruction computes.
use vstd::prelude::*;
use crate::emit::{at, const_byte, movf, movlw, movwf, St};
use crate::ir::Val;
use crate::machine::{exec, group_exec, Machine};
use crate::meaning::{apart, kept, number, passes, word};
use crate::pic14e::Gen;

pub mod arguments;
pub mod arith;
pub mod bits;
pub mod call;
pub mod calling;
pub mod chain;
pub mod choices;
pub mod convert;
pub mod copy;
pub mod copy_loop;
pub mod divide;
pub mod effects;
pub mod flash;
pub mod float_align;
pub mod float_chain;
pub mod float_combine;
pub mod float_div;
pub mod float_exact;
pub mod float_from;
pub mod float_infinite;
pub mod float_int;
pub mod float_mul;
pub mod float_normal;
pub mod float_operands;
pub mod float_order;
pub mod float_parts;
pub mod float_product;
pub mod float_quotient;
pub mod float_round;
pub mod float_special;
pub mod float_split;
pub mod float_step;
pub mod float_sum;
pub mod float_undefined;
pub mod float_zero;
pub mod flow;
pub mod limits;
pub mod memory;
pub mod merges;
pub mod multiply;
pub mod multiply_long;
pub mod operands;
pub mod order;
pub mod parts;
pub mod passing;
pub mod places;
pub mod program;
pub mod quotient;
pub mod reading;
pub mod refusals;
pub mod routines;
pub mod shift;
pub mod signed;
pub mod sizes;
pub mod start;
pub mod sum;
pub mod tables;
pub mod tidy;
pub mod values;
pub mod whole;

verus! {

/// Whether the run of the rows from `base` on is at the next row, W being
/// what the emitter takes it to be.
pub open spec fn ready(st: St, base: int, m: Machine) -> bool {
    &&& 0 <= base <= st.rows.len()
    &&& exec(st.rows, base, m).flow is Next
    &&& exec(st.rows, base, m).core is Enhanced
    &&& st.w matches Some(a) ==> exec(st.rows, base, m).w == exec(st.rows, base, m).ram[a]
}

/// `MOVF a, W`.
pub(crate) proof fn lemma_movf(st: St, a: u32, base: int, m: Machine)
    requires
        ready(st, base, m),
    ensures
        ready(st.emit(movf(a)), base, m),
        ({
            let b = exec(st.rows, base, m);
            let n = exec(st.emit(movf(a)).rows, base, m);
            passes(b, n) && n.w == b.ram[a] && n.ram == b.ram && n.c == b.c
        }),
{
    broadcast use group_exec;

}

/// `MOVLW k`.
pub(crate) proof fn lemma_movlw(st: St, k: u8, base: int, m: Machine)
    requires
        ready(st, base, m),
    ensures
        ready(st.emit(movlw(k)), base, m),
        ({
            let b = exec(st.rows, base, m);
            let n = exec(st.emit(movlw(k)).rows, base, m);
            passes(b, n) && n.w == k && n.ram == b.ram && n.c == b.c && n.z == b.z
        }),
{
    broadcast use group_exec;

}

/// `MOVWF a`.
pub(crate) proof fn lemma_movwf(st: St, a: u32, base: int, m: Machine)
    requires
        ready(st, base, m),
    ensures
        ready(st.emit(movwf(a)), base, m),
        ({
            let b = exec(st.rows, base, m);
            let n = exec(st.emit(movwf(a)).rows, base, m);
            passes(b, n) && n.w == b.w && n.ram == b.ram.insert(a, b.w) && n.c == b.c && n.z == b.z
        }),
{
    broadcast use group_exec;

}

impl<'a> Gen<'a> {
    /// The address of a plain operand's slot: a register that is no folded
    /// pointer.
    pub open spec fn slot_of(&self, v: Val) -> Option<u32> {
        match v {
            Val::Reg(r) => if self.cx.pointer(r@) is None {
                self.cx.slot(self.cx.fname(), r@)
            } else {
                None
            },
            _ => None,
        }
    }

    /// Whether an operand is a constant or a plain register.
    pub open spec fn plain(&self, v: Val) -> bool {
        v is Const || self.slot_of(v) is Some
    }

    /// Byte `i` of a plain operand.
    pub open spec fn byte_of(&self, m: Machine, v: Val, i: u8) -> u8 {
        match v {
            Val::Const(k) => const_byte(k, i),
            _ => m.ram[at(self.slot_of(v)->0, i)],
        }
    }

    pub(crate) proof fn lemma_w_load(&self, st: St, a: u32, base: int, m: Machine)
        requires
            ready(st, base, m),
        ensures
            ready(self.w_load(st, a), base, m),
            ({
                let b = exec(st.rows, base, m);
                let n = exec(self.w_load(st, a).rows, base, m);
                passes(b, n) && n.w == b.ram[a] && n.ram == b.ram && n.c == b.c
            }),
    {
        broadcast use group_exec;

    }

    pub(crate) proof fn lemma_w_store(&self, st: St, a: u32, base: int, m: Machine)
        requires
            ready(st, base, m),
        ensures
            ready(self.w_store(st, a), base, m),
            ({
                let b = exec(st.rows, base, m);
                let n = exec(self.w_store(st, a).rows, base, m);
                passes(b, n) && n.w == b.w && n.ram[a] == b.w && kept(b, n, a, 1) && n.c == b.c
                    && n.z == b.z
            }),
    {
        broadcast use group_exec;

    }

    pub(crate) proof fn lemma_load_byte(&self, st: St, v: Val, i: u8, base: int, m: Machine)
        requires
            ready(st, base, m),
            self.plain(v),
        ensures
            ready(self.load_byte(st, v, i), base, m),
            ({
                let b = exec(st.rows, base, m);
                let n = exec(self.load_byte(st, v, i).rows, base, m);
                passes(b, n) && n.w == self.byte_of(b, v, i) && n.ram == b.ram && n.c == b.c
            }),
    {
        broadcast use group_exec;

        if let Some(a) = self.slot_of(v) {
            self.lemma_w_load(st, at(a, i), base, m);
        }
    }

    /// The number in the low `n` bytes of a plain operand.
    pub open spec fn word_of(&self, m: Machine, v: Val, n: u8) -> int {
        number(
            self.byte_of(m, v, 0),
            self.byte_of(m, v, 1),
            self.byte_of(m, v, 2),
            self.byte_of(m, v, 3),
            n,
        )
    }

    /// Whether a value of `n` bytes at `dst` either takes the place of an
    /// operand or shares no byte with it.
    pub open spec fn fits(&self, v: Val, dst: u32, n: int) -> bool {
        dst <= 0xFFFF && match self.slot_of(v) {
            Some(a) => a == dst || apart(a, n, dst, n),
            None => true,
        }
    }

    pub(crate) proof fn lemma_move_from(&self, st: St, v: Val, n: u8, dst: u32, i: u8, base: int, m: Machine)
        requires
            ready(st, base, m),
            self.plain(v),
            self.fits(v, dst, n as int),
        ensures
            ready(self.move_from(st, v, n, dst, i), base, m),
            ({
                let b = exec(st.rows, base, m);
                let a = exec(self.move_from(st, v, n, dst, i).rows, base, m);
                passes(b, a) && kept(b, a, dst, n as int) && a.c == b.c && (forall|j: u8|
                    i <= j < n ==> #[trigger] a.ram[at(dst, j)] == self.byte_of(b, v, j)) && (
                forall|j: u8| j < i ==> #[trigger] a.ram[at(dst, j)] == b.ram[at(dst, j)])
            }),
        decreases n - i,
    {
        if i < n {
            let b = exec(st.rows, base, m);
            let s1 = self.load_byte(st, v, i);
            self.lemma_load_byte(st, v, i, base, m);
            let s2 = self.w_store(s1, at(dst, i));
            self.lemma_w_store(s1, at(dst, i), base, m);
            let mid = exec(s2.rows, base, m);
            self.lemma_move_from(s2, v, n, dst, (i + 1) as u8, base, m);
            let a = exec(self.move_from(st, v, n, dst, i).rows, base, m);
            assert forall|j: u8| i <= j < n implies #[trigger] a.ram[at(dst, j)] == self.byte_of(
                b,
                v,
                j,
            ) by {
                if j > i {
                    assert(self.byte_of(mid, v, j) == self.byte_of(b, v, j));
                }
            }
        }
    }

    /// Whether the `n` bytes at `a` leave the fixed bytes alone: the
    /// comparison byte and the result bytes.
    pub open spec fn clear(&self, a: u32, n: int) -> bool {
        apart(a, n, self.scratch, 1) && apart(a, n, self.retval, 4)
    }

    /// Whether an operand of `n` bytes can be read for a result at `dst`.
    pub open spec fn usable(&self, v: Val, dst: u32, n: int) -> bool {
        &&& self.plain(v)
        &&& self.fits(v, dst, n)
        &&& self.clear(dst, n)
        &&& self.slot_of(v) matches Some(a) ==> self.clear(a, n)
    }

    /// The slot a value was moved to holds the value.
    pub(crate) proof fn lemma_moved(&self, st: St, v: Val, n: u8, dst: u32, base: int, m: Machine)
        requires
            ready(st, base, m),
            self.plain(v),
            self.fits(v, dst, n as int),
            n == 1 || n == 2 || n == 4,
        ensures
            ({
                let b = exec(st.rows, base, m);
                let a = exec(self.move_from(st, v, n, dst, 0).rows, base, m);
                word(a, dst, n) == self.word_of(b, v, n)
            }),
    {
        self.lemma_move_from(st, v, n, dst, 0, base, m);
        let b = exec(st.rows, base, m);
        let a = exec(self.move_from(st, v, n, dst, 0).rows, base, m);
        assert(a.ram[at(dst, 0)] == self.byte_of(b, v, 0));
        if n > 1 {
            assert(a.ram[at(dst, 1)] == self.byte_of(b, v, 1));
        }
        if n > 2 {
            assert(a.ram[at(dst, 2)] == self.byte_of(b, v, 2));
            assert(a.ram[at(dst, 3)] == self.byte_of(b, v, 3));
        }
    }
}

} // verus!
