//! What the code for one instruction computes.
//!
//! Every access is preceded by the bank select of its address, and reaches
//! that address.
use vstd::prelude::*;
use crate::baseline::{bank_bit, bank_line, Gen};
use crate::emit::{at, const_byte, St};
use crate::ir::Val;
use crate::line::{Op, Reg};
use crate::machine::{
    bit_of, exec, group_exec, power, reached, result, step, with_bit, Core, Machine,
};
use crate::meaning::{apart, flag, kept, number, passes, word};

pub mod arguments;
pub mod arith;
pub mod bits;
pub mod call;
pub mod calling;
pub mod choices;
pub mod convert;
pub mod copy;
pub mod effects;
pub mod flow;
pub mod lines;
pub mod memory;
pub mod merges;
pub mod operands;
pub mod order;
pub mod passing;
pub mod program;
pub mod refusals;

verus! {

/// Whether a bank select for `b` is in force.
pub open spec fn selected(m: Machine, b: usize) -> bool {
    m.core matches Core::Baseline(bits) && m.fsr as int / 32 % power(bits) == b
}

/// The bits of a bank number.
proof fn lemma_bank_bits(b: usize)
    requires
        b < 8,
    ensures
        bank_bit(b, 0) == (b % 2 == 1),
        bank_bit(b, 1) == (b / 2 % 2 == 1),
        bank_bit(b, 2) == (b / 4 == 1),
{
    assert(b < 8 ==> ((b >> 0u8) & 1 == 1) == (b % 2 == 1) && ((b >> 1u8) & 1 == 1) == (b / 2 % 2
        == 1) && ((b >> 2u8) & 1 == 1) == (b / 4 == 1)) by (bit_vector);
}

/// A bank bit that is set leaves the others alone.
proof fn lemma_with_bank_bit(v: u8, i: u8, on: bool)
    requires
        5 <= i <= 7,
    ensures
        bit_of(with_bit(v, i, on), i) == on,
        i != 5 ==> bit_of(with_bit(v, i, on), 5) == bit_of(v, 5),
        i != 6 ==> bit_of(with_bit(v, i, on), 6) == bit_of(v, 6),
        i != 7 ==> bit_of(with_bit(v, i, on), 7) == bit_of(v, 7),
{
    if i == 5 {
    } else if i == 6 {
    } else {
    }
}

/// The bank that the bits of FSR name.
proof fn lemma_bank_number(v: u8)
    ensures
        v as int / 32 % 2 == flag(bit_of(v, 5)),
        v as int / 32 % 4 == flag(bit_of(v, 5)) + 2 * flag(bit_of(v, 6)),
        v as int / 32 % 8 == flag(bit_of(v, 5)) + 2 * flag(bit_of(v, 6)) + 4 * flag(bit_of(v, 7)),
{
}

/// The operand of an address is its offset in its bank.
proof fn lemma_offset(a: u32)
    ensures
        a & 0x1F == a % 32,
{
    assert(a & 0x1F == a % 32) by (bit_vector);
}

/// One line of a bank select.
proof fn lemma_bank_line(st: St, b: usize, i: u8, base: int, m: Machine)
    requires
        0 <= base <= st.rows.len(),
        exec(st.rows, base, m).flow is Next,
        i < 3,
    ensures
        ({
            let n = exec(st.rows, base, m);
            exec(st.keep(bank_line(b, i)).rows, base, m) == (Machine {
                fsr: with_bit(n.fsr, (5 + i) as u8, bank_bit(b, i)),
                cycles: n.cycles + 1,
                ..n
            })
        }),
{
    broadcast use group_exec;

    reveal(step);
}

impl<'a> Gen<'a> {
    /// Whether the run of the rows from `base` on is at the next row of a
    /// baseline core, W being what the emitter takes it to be.
    pub open spec fn at_row(&self, st: St, base: int, m: Machine) -> bool {
        &&& 0 <= base <= st.rows.len()
        &&& exec(st.rows, base, m).flow is Next
        &&& exec(st.rows, base, m).core == Core::Baseline(self.cx.device.fsr_bank_bits)
        &&& st.w matches Some(a) ==> exec(st.rows, base, m).w == exec(st.rows, base, m).ram[a]
    }

    /// Whether a direct access can reach a byte: it lies in the upper half of
    /// its bank, or in the lower half, which all banks share.
    pub open spec fn sound(&self, a: u32) -> bool {
        let bits = self.cx.device.fsr_bank_bits;
        bits <= 3 && match self.cx.device.bank(a) {
            Some(b) => a % 32 >= 16 && a / 32 == b && b < power(bits),
            None => a < 16,
        }
    }

    /// Whether `n` bytes can be reached.
    pub open spec fn sound_bytes(&self, a: u32, n: u8) -> bool {
        a <= 0xFFFF && forall|i: u8| i < n ==> self.sound(#[trigger] at(a, i))
    }

    /// Whether the fixed bytes lie in the shared half, apart from each other.
    pub open spec fn fixed(&self) -> bool {
        &&& self.scratch < 16 && self.retval + 4 <= 16 && self.tmp < 16 && self.tmp2 < 16
        &&& self.scratch != self.tmp && self.scratch != self.tmp2 && self.tmp != self.tmp2
        &&& apart(self.retval, 4, self.scratch, 1)
        &&& apart(self.retval, 4, self.tmp, 1)
        &&& apart(self.retval, 4, self.tmp2, 1)
        &&& self.cx.device.fsr_bank_bits <= 3
        &&& self.sound(self.scratch)
    }

    /// The lines of a bank select set the bank.
    proof fn lemma_bank_lines(&self, st: St, b: usize, base: int, m: Machine)
        requires
            self.at_row(st, base, m),
            self.cx.device.fsr_bank_bits <= 3,
            b < power(self.cx.device.fsr_bank_bits),
        ensures
            ({
                let s = self.bank_lines(st, b, 0);
                let n = exec(st.rows, base, m);
                let a = exec(s.rows, base, m);
                s.w == st.w && s.next == st.next && base <= s.rows.len() && selected(a, b) && a == (
                Machine { fsr: a.fsr, cycles: a.cycles, ..n })
            }),
    {
        reveal_with_fuel(Gen::bank_lines, 5);
        let bits = self.cx.device.fsr_bank_bits;
        let v = exec(st.rows, base, m).fsr;
        lemma_bank_bits(b);
        if bits >= 1 {
            lemma_bank_line(st, b, 0, base, m);
            let s1 = st.keep(bank_line(b, 0));
            let v1 = with_bit(v, 5, bank_bit(b, 0));
            lemma_with_bank_bit(v, 5, bank_bit(b, 0));
            if bits >= 2 {
                lemma_bank_line(s1, b, 1, base, m);
                let s2 = s1.keep(bank_line(b, 1));
                let v2 = with_bit(v1, 6, bank_bit(b, 1));
                lemma_with_bank_bit(v1, 6, bank_bit(b, 1));
                if bits >= 3 {
                    lemma_bank_line(s2, b, 2, base, m);
                    lemma_with_bank_bit(v2, 7, bank_bit(b, 2));
                }
            }
        }
        lemma_bank_number(exec(self.bank_lines(st, b, 0).rows, base, m).fsr);
    }

    /// The bank select of an address: its operand reaches it.
    pub(crate) proof fn lemma_bank(&self, st: St, addr: u32, base: int, m: Machine)
        requires
            self.at_row(st, base, m),
            self.sound(addr),
        ensures
            self.at_row(self.bank(st, addr), base, m),
            self.bank(st, addr).w == st.w,
            self.bank(st, addr).next == st.next,
            self.reg_of(addr) is Some,
            ({
                let n = exec(st.rows, base, m);
                let a = exec(self.bank(st, addr).rows, base, m);
                a == (Machine { fsr: a.fsr, cycles: a.cycles, ..n }) && reached(
                    a,
                    self.reg_of(addr)->0,
                ) == addr
            }),
    {
        lemma_offset(addr);
        if let Some(b) = self.cx.device.bank(addr) {
            self.lemma_bank_lines(st, b, base, m);
        }
    }

    /// `op addr, W`, with its bank select.
    pub(crate) proof fn lemma_acc_w(&self, st: St, op: Op, addr: u32, base: int, m: Machine)
        requires
            self.at_row(st, base, m),
            self.sound(addr),
            op != Op::Incfsz,
            op != Op::Decfsz,
        ensures
            self.at_row(self.acc_w(st, op, addr), base, m),
            self.acc_w(st, op, addr).w is None,
            self.acc_w(st, op, addr).next == st.next,
            ({
                let b = exec(st.rows, base, m);
                let a = exec(self.acc_w(st, op, addr).rows, base, m);
                let r = result(b, op, b.ram[addr]);
                passes(b, a) && a.ram == b.ram && a.w == r.0 && a.c == r.1 && a.z == r.2
            }),
    {
        self.lemma_bank(st, addr, base, m);
        broadcast use group_exec;

    }

    /// `op addr, F`, with its bank select.
    pub(crate) proof fn lemma_acc_f(&self, st: St, op: Op, addr: u32, base: int, m: Machine)
        requires
            self.at_row(st, base, m),
            self.sound(addr),
            op != Op::Incfsz,
            op != Op::Decfsz,
        ensures
            self.at_row(self.acc_f(st, op, addr), base, m),
            self.acc_f(st, op, addr).w is None,
            self.acc_f(st, op, addr).next == st.next,
            ({
                let b = exec(st.rows, base, m);
                let a = exec(self.acc_f(st, op, addr).rows, base, m);
                let r = result(b, op, b.ram[addr]);
                passes(b, a) && a.ram == b.ram.insert(addr, r.0) && a.w == b.w && a.c == r.1 && a.z
                    == r.2
            }),
    {
        self.lemma_bank(st, addr, base, m);
        broadcast use group_exec;

    }

    /// `MOVWF addr`, with its bank select.
    pub(crate) proof fn lemma_put(&self, st: St, addr: u32, base: int, m: Machine)
        requires
            self.at_row(st, base, m),
            self.sound(addr),
        ensures
            self.at_row(self.put(st, addr), base, m),
            self.put(st, addr).w is None,
            self.put(st, addr).next == st.next,
            ({
                let b = exec(st.rows, base, m);
                let a = exec(self.put(st, addr).rows, base, m);
                passes(b, a) && a.ram == b.ram.insert(addr, b.w) && a.w == b.w && a.c == b.c && a.z
                    == b.z
            }),
    {
        self.lemma_bank(st, addr, base, m);
        broadcast use group_exec;

    }

    /// `CLRF addr`, with its bank select.
    pub(crate) proof fn lemma_clear(&self, st: St, addr: u32, base: int, m: Machine)
        requires
            self.at_row(st, base, m),
            self.sound(addr),
        ensures
            self.at_row(self.clear(st, addr), base, m),
            self.clear(st, addr).next == st.next,
            ({
                let b = exec(st.rows, base, m);
                let a = exec(self.clear(st, addr).rows, base, m);
                passes(b, a) && a.ram == b.ram.insert(addr, 0) && a.w == b.w && a.c == b.c
            }),
    {
        self.lemma_bank(st, addr, base, m);
        broadcast use group_exec;

    }

    pub(crate) proof fn lemma_w_load(&self, st: St, addr: u32, base: int, m: Machine)
        requires
            self.at_row(st, base, m),
            self.sound(addr),
        ensures
            self.at_row(self.w_load(st, addr), base, m),
            self.w_load(st, addr).next == st.next,
            ({
                let b = exec(st.rows, base, m);
                let a = exec(self.w_load(st, addr).rows, base, m);
                passes(b, a) && a.ram == b.ram && a.w == b.ram[addr] && a.c == b.c
            }),
    {
        self.lemma_bank(st, addr, base, m);
        broadcast use group_exec;

    }

    pub(crate) proof fn lemma_w_store(&self, st: St, addr: u32, base: int, m: Machine)
        requires
            self.at_row(st, base, m),
            self.sound(addr),
        ensures
            self.at_row(self.w_store(st, addr), base, m),
            self.w_store(st, addr).next == st.next,
            ({
                let b = exec(st.rows, base, m);
                let a = exec(self.w_store(st, addr).rows, base, m);
                passes(b, a) && a.ram[addr] == b.w && kept(b, a, addr, 1) && a.w == b.w && a.c == b.c
                    && a.z == b.z && self.reg_of(addr) is Some && reached(a, self.reg_of(addr)->0)
                    == addr
            }),
    {
        self.lemma_bank(st, addr, base, m);
        broadcast use group_exec;

    }

    /// The address of a plain operand's slot: a register that is no folded
    /// pointer.
    pub open spec fn slot_of(&self, v: Val) -> Option<u32> {
        match v {
            Val::Reg(r) => if self.cx.pointer(r@) is None {
                self.cx.slot(self.cx.fname(), r@)
            } else {
                None
            },
            _ => None,
        }
    }

    /// Whether an operand of `n` bytes is a constant or a register that can
    /// be reached.
    pub open spec fn plain(&self, v: Val, n: u8) -> bool {
        v is Const || (self.slot_of(v) matches Some(a) && self.sound_bytes(a, n))
    }

    /// Byte `i` of a plain operand.
    pub open spec fn byte_of(&self, m: Machine, v: Val, i: u8) -> u8 {
        match v {
            Val::Const(k) => const_byte(k, i),
            _ => m.ram[at(self.slot_of(v)->0, i)],
        }
    }

    /// The number in the low `n` bytes of a plain operand.
    pub open spec fn word_of(&self, m: Machine, v: Val, n: u8) -> int {
        number(
            self.byte_of(m, v, 0),
            self.byte_of(m, v, 1),
            self.byte_of(m, v, 2),
            self.byte_of(m, v, 3),
            n,
        )
    }

    /// Whether a result of `n` bytes at `dst` can be reached, and takes the
    /// place of an operand or shares no byte with it.
    pub open spec fn fits(&self, v: Val, dst: u32, n: u8) -> bool {
        self.sound_bytes(dst, n) && match self.slot_of(v) {
            Some(a) => a == dst || apart(a, n as int, dst, n as int),
            None => true,
        }
    }

    /// Whether `n` bytes at `a` leave the fixed bytes alone.
    pub open spec fn spares(&self, a: u32, n: int) -> bool {
        &&& apart(a, n, self.scratch, 1)
        &&& apart(a, n, self.retval, 4)
        &&& apart(a, n, self.tmp, 1)
        &&& apart(a, n, self.tmp2, 1)
    }

    /// Whether an operand can be read for a result at `dst`, both apart from
    /// the fixed bytes.
    pub open spec fn usable(&self, v: Val, dst: u32, n: u8) -> bool {
        &&& self.fixed()
        &&& self.plain(v, n)
        &&& self.fits(v, dst, n)
        &&& self.spares(dst, n as int)
        &&& self.slot_of(v) matches Some(a) ==> self.spares(a, n as int)
    }

    pub(crate) proof fn lemma_load_byte(&self, st: St, v: Val, i: u8, n: u8, base: int, m: Machine)
        requires
            self.at_row(st, base, m),
            self.plain(v, n),
            i < n,
        ensures
            self.at_row(self.load_byte(st, v, i), base, m),
            self.load_byte(st, v, i).next == st.next,
            ({
                let b = exec(st.rows, base, m);
                let a = exec(self.load_byte(st, v, i).rows, base, m);
                passes(b, a) && a.w == self.byte_of(b, v, i) && a.ram == b.ram && a.c == b.c
            }),
    {
        match v {
            Val::Const(k) => {
                broadcast use group_exec;

            },
            _ => {
                self.lemma_w_load(st, at(self.slot_of(v)->0, i), base, m);
            },
        }
    }

    /// A value moved byte by byte.
    pub(crate) proof fn lemma_move_from(
        &self,
        st: St,
        v: Val,
        n: u8,
        dst: u32,
        i: u8,
        base: int,
        m: Machine,
    )
        requires
            self.at_row(st, base, m),
            self.plain(v, n),
            self.fits(v, dst, n),
        ensures
            self.at_row(self.move_from(st, v, n, dst, i), base, m),
            self.move_from(st, v, n, dst, i).next == st.next,
            ({
                let b = exec(st.rows, base, m);
                let a = exec(self.move_from(st, v, n, dst, i).rows, base, m);
                passes(b, a) && kept(b, a, dst, n as int) && a.c == b.c && (forall|j: u8|
                    i <= j < n ==> #[trigger] a.ram[at(dst, j)] == self.byte_of(b, v, j)) && (
                forall|j: u8| j < i ==> #[trigger] a.ram[at(dst, j)] == b.ram[at(dst, j)])
            }),
        decreases n - i,
    {
        if i < n {
            let b = exec(st.rows, base, m);
            let s1 = self.load_byte(st, v, i);
            self.lemma_load_byte(st, v, i, n, base, m);
            let s2 = self.w_store(s1, at(dst, i));
            assert(self.sound(at(dst, i)));
            self.lemma_w_store(s1, at(dst, i), base, m);
            let mid = exec(s2.rows, base, m);
            self.lemma_move_from(s2, v, n, dst, (i + 1) as u8, base, m);
            let a = exec(self.move_from(st, v, n, dst, i).rows, base, m);
            assert forall|j: u8| i <= j < n implies #[trigger] a.ram[at(dst, j)] == self.byte_of(
                b,
                v,
                j,
            ) by {
                if j > i {
                    assert(self.byte_of(mid, v, j) == self.byte_of(b, v, j));
                }
            }
        }
    }

    /// The slot a value was moved to holds the value.
    pub(crate) proof fn lemma_moved(&self, st: St, v: Val, n: u8, dst: u32, base: int, m: Machine)
        requires
            self.at_row(st, base, m),
            self.plain(v, n),
            self.fits(v, dst, n),
            n == 1 || n == 2 || n == 4,
        ensures
            self.at_row(self.move_from(st, v, n, dst, 0), base, m),
            self.move_from(st, v, n, dst, 0).next == st.next,
            ({
                let b = exec(st.rows, base, m);
                let a = exec(self.move_from(st, v, n, dst, 0).rows, base, m);
                passes(b, a) && kept(b, a, dst, n as int) && a.c == b.c && word(a, dst, n)
                    == self.word_of(b, v, n)
            }),
    {
        self.lemma_move_from(st, v, n, dst, 0, base, m);
        let b = exec(st.rows, base, m);
        let a = exec(self.move_from(st, v, n, dst, 0).rows, base, m);
        assert(a.ram[at(dst, 0)] == self.byte_of(b, v, 0));
        if n > 1 {
            assert(a.ram[at(dst, 1)] == self.byte_of(b, v, 1));
        }
        if n > 2 {
            assert(a.ram[at(dst, 2)] == self.byte_of(b, v, 2));
            assert(a.ram[at(dst, 3)] == self.byte_of(b, v, 3));
        }
    }

    /// A bank select makes the operand of a direct access reach its address,
    /// and changes nothing but the bank bits.
    pub proof fn law_bank_select_reaches_the_address(
        &self,
        st: St,
        addr: u32,
        base: int,
        m: Machine,
    )
        requires
            self.at_row(st, base, m),
            self.sound(addr),
        ensures
            self.at_row(self.bank(st, addr), base, m),
            ({
                let b = exec(st.rows, base, m);
                let a = exec(self.bank(st, addr).rows, base, m);
                self.reg_of(addr) matches Some(f) && f < 32 && reached(a, f) == addr && a == (
                Machine { fsr: a.fsr, cycles: a.cycles, ..b })
            }),
    {
        self.lemma_bank(st, addr, base, m);
        lemma_offset(addr);
    }
}

} // verus!
