//! Bitwise operators and shifts.
use vstd::prelude::*;
use crate::emit::{at, const_byte, f_op, lit, on_c, w_op, St};
use crate::ir::{BinOp, Val};
use crate::line::{BitOp, LitOp, Op};
use crate::machine::{exec, group_exec, Machine};
use crate::meaning::{
    apart, bin_value, bit_value, carried, flag, kept, lemma_bits_commute, lemma_bytewise,
    lemma_shift_more, lemma_shift_none, passes, shifted_once, twins, word,
};
use crate::pic14e::laws::ready;
use crate::pic14e::Gen;

verus! {

proof fn lemma_bit_file(st: St, op: Op, a: u32, base: int, m: Machine)
    requires
        ready(st, base, m),
        op == Op::Andwf || op == Op::Iorwf || op == Op::Xorwf,
    ensures
        ready(st.emit(w_op(op, a)), base, m),
        ({
            let b = exec(st.rows, base, m);
            let n = exec(st.emit(w_op(op, a)).rows, base, m);
            passes(b, n) && n.w == bit_value(op, b.ram[a], b.w) && n.ram == b.ram && n.c == b.c
        }),
{
    broadcast use group_exec;

}

proof fn lemma_bit_lit(st: St, op: Op, opw: LitOp, k: u8, base: int, m: Machine)
    requires
        ready(st, base, m),
        twins(op, opw),
    ensures
        ready(st.emit(lit(opw, k)), base, m),
        ({
            let b = exec(st.rows, base, m);
            let n = exec(st.emit(lit(opw, k)).rows, base, m);
            passes(b, n) && n.w == bit_value(op, b.w, k) && n.ram == b.ram && n.c == b.c
        }),
{
    broadcast use group_exec;

}

/// `RLF`: a byte doubled, the carry below and above it.
proof fn lemma_rlf(st: St, a: u32, base: int, m: Machine)
    requires
        ready(st, base, m),
    ensures
        ready(st.emit(f_op(Op::Rlf, a)), base, m),
        ({
            let b = exec(st.rows, base, m);
            let n = exec(st.emit(f_op(Op::Rlf, a)).rows, base, m);
            passes(b, n) && kept(b, n, a, 1) && n.ram[a] + 256 * flag(n.c) == 2 * b.ram[a] + flag(
                b.c,
            )
        }),
{
    broadcast use group_exec;

}

/// `RRF`: a byte halved, the carry above and below it.
proof fn lemma_rrf(st: St, a: u32, base: int, m: Machine)
    requires
        ready(st, base, m),
    ensures
        ready(st.emit(f_op(Op::Rrf, a)), base, m),
        ({
            let b = exec(st.rows, base, m);
            let n = exec(st.emit(f_op(Op::Rrf, a)).rows, base, m);
            passes(b, n) && kept(b, n, a, 1) && 2 * n.ram[a] + flag(n.c) == b.ram[a] + 256 * flag(
                b.c,
            )
        }),
{
    broadcast use group_exec;

}

proof fn lemma_clear_c(st: St, base: int, m: Machine)
    requires
        ready(st, base, m),
    ensures
        ready(st.emit(on_c(BitOp::Bcf)), base, m),
        ({
            let b = exec(st.rows, base, m);
            let n = exec(st.emit(on_c(BitOp::Bcf)).rows, base, m);
            passes(b, n) && n.ram == b.ram && !n.c && n.w == b.w
        }),
{
    broadcast use group_exec;

}

impl<'a> Gen<'a> {
    /// `n` bytes doubled.
    pub(crate) proof fn lemma_rotate_up(&self, st: St, da: u32, n: u8, base: int, m: Machine)
        requires
            ready(st, base, m),
            n == 1 || n == 2 || n == 4,
            da <= 0x1_FFFF,
        ensures
            ready(self.rotate_up(st, da, n, 0), base, m),
            ({
                let b = exec(st.rows, base, m);
                let a = exec(self.rotate_up(st, da, n, 0).rows, base, m);
                passes(b, a) && kept(b, a, da, n as int) && word(a, da, n) + carried(n, a.c)
                    == 2 * word(b, da, n) + flag(b.c)
            }),
    {
        reveal_with_fuel(Gen::rotate_up, 5);
        let s1 = st.emit(f_op(Op::Rlf, at(da, 0)));
        lemma_rlf(st, at(da, 0), base, m);
        if n > 1 {
            let s2 = s1.emit(f_op(Op::Rlf, at(da, 1)));
            lemma_rlf(s1, at(da, 1), base, m);
            if n > 2 {
                let s3 = s2.emit(f_op(Op::Rlf, at(da, 2)));
                lemma_rlf(s2, at(da, 2), base, m);
                lemma_rlf(s3, at(da, 3), base, m);
            }
        }
    }

    /// `n` bytes halved.
    pub(crate) proof fn lemma_rotate_down(&self, st: St, da: u32, n: u8, base: int, m: Machine)
        requires
            ready(st, base, m),
            n == 1 || n == 2 || n == 4,
            da <= 0x1_FFFF,
        ensures
            ready(self.rotate_down(st, da, n), base, m),
            ({
                let b = exec(st.rows, base, m);
                let a = exec(self.rotate_down(st, da, n).rows, base, m);
                passes(b, a) && kept(b, a, da, n as int) && 2 * word(a, da, n) + flag(a.c) == word(
                    b,
                    da,
                    n,
                ) + carried(n, b.c)
            }),
    {
        reveal_with_fuel(Gen::rotate_down, 5);
        if n == 1 {
            lemma_rrf(st, at(da, 0), base, m);
        } else if n == 2 {
            let s1 = st.emit(f_op(Op::Rrf, at(da, 1)));
            lemma_rrf(st, at(da, 1), base, m);
            lemma_rrf(s1, at(da, 0), base, m);
        } else {
            let s1 = st.emit(f_op(Op::Rrf, at(da, 3)));
            lemma_rrf(st, at(da, 3), base, m);
            let s2 = s1.emit(f_op(Op::Rrf, at(da, 2)));
            lemma_rrf(s1, at(da, 2), base, m);
            let s3 = s2.emit(f_op(Op::Rrf, at(da, 1)));
            lemma_rrf(s2, at(da, 1), base, m);
            lemma_rrf(s3, at(da, 0), base, m);
        }
    }

    /// C becomes the sign of a byte.
    pub(crate) proof fn lemma_sign_to_c(&self, st: St, a: u32, base: int, m: Machine)
        requires
            ready(st, base, m),
        ensures
            ready(self.sign_to_c(st, a), base, m),
            ({
                let b = exec(st.rows, base, m);
                let n = exec(self.sign_to_c(st, a).rows, base, m);
                passes(b, n) && n.ram == b.ram && n.c == (b.ram[a] >= 128)
            }),
    {
        broadcast use group_exec;

    }

    /// One shift by a single bit.
    pub(crate) proof fn lemma_shift_once(&self, st: St, op: BinOp, da: u32, n: u8, base: int, m: Machine)
        requires
            ready(st, base, m),
            n == 1 || n == 2 || n == 4,
            da <= 0xFFFF,
            op == BinOp::Shl || op == BinOp::LShr || op == BinOp::AShr,
        ensures
            ready(self.shift_once(st, op, da, n), base, m),
            ({
                let b = exec(st.rows, base, m);
                let a = exec(self.shift_once(st, op, da, n).rows, base, m);
                passes(b, a) && kept(b, a, da, n as int) && shifted_once(
                    op,
                    word(b, da, n),
                    word(a, da, n),
                    n,
                )
            }),
    {
        match op {
            BinOp::Shl => {
                lemma_clear_c(st, base, m);
                self.lemma_rotate_up(st.emit(on_c(BitOp::Bcf)), da, n, base, m);
            },
            BinOp::LShr => {
                lemma_clear_c(st, base, m);
                self.lemma_rotate_down(st.emit(on_c(BitOp::Bcf)), da, n, base, m);
            },
            _ => {
                let hi = at(da, (n - 1) as u8);
                self.lemma_sign_to_c(st, hi, base, m);
                self.lemma_rotate_down(self.sign_to_c(st, hi), da, n, base, m);
            },
        }
    }

    pub(crate) proof fn lemma_shift_times(
        &self,
        st: St,
        op: BinOp,
        da: u32,
        n: u8,
        k: u8,
        base: int,
        m: Machine,
    )
        requires
            ready(st, base, m),
            n == 1 || n == 2 || n == 4,
            da <= 0xFFFF,
            op == BinOp::Shl || op == BinOp::LShr || op == BinOp::AShr,
        ensures
            ready(self.shift_times(st, op, da, n, k), base, m),
            ({
                let b = exec(st.rows, base, m);
                let a = exec(self.shift_times(st, op, da, n, k).rows, base, m);
                passes(b, a) && kept(b, a, da, n as int) && word(a, da, n) == bin_value(
                    op,
                    word(b, da, n),
                    k as int,
                    n,
                )
            }),
        decreases k,
    {
        let b = exec(st.rows, base, m);
        let x = word(b, da, n);
        if k == 0 {
            lemma_shift_none(op, x, n);
        } else {
            let s1 = self.shift_once(st, op, da, n);
            self.lemma_shift_once(st, op, da, n, base, m);
            self.lemma_shift_times(s1, op, da, n, (k - 1) as u8, base, m);
            lemma_shift_more(op, x, word(exec(s1.rows, base, m), da, n), k as int, n);
        }
    }

    proof fn lemma_bitwise_regs(
        &self,
        st: St,
        op: Op,
        ra: u32,
        bb: u32,
        dst: u32,
        n: u8,
        i: u8,
        base: int,
        m: Machine,
    )
        requires
            ready(st, base, m),
            op == Op::Andwf || op == Op::Iorwf || op == Op::Xorwf,
            dst <= 0xFFFF,
            ra <= 0xFFFF,
            bb <= 0xFFFF,
            ra == dst || apart(ra, n as int, dst, n as int),
            bb == dst || apart(bb, n as int, dst, n as int),
        ensures
            ready(self.bitwise_regs(st, op, ra, bb, dst, n, i), base, m),
            ({
                let b = exec(st.rows, base, m);
                let a = exec(self.bitwise_regs(st, op, ra, bb, dst, n, i).rows, base, m);
                passes(b, a) && kept(b, a, dst, n as int) && (forall|j: u8|
                    i <= j < n ==> #[trigger] a.ram[at(dst, j)] == bit_value(
                        op,
                        b.ram[at(ra, j)],
                        b.ram[at(bb, j)],
                    )) && (forall|j: u8|
                    j < i ==> #[trigger] a.ram[at(dst, j)] == b.ram[at(dst, j)])
            }),
        decreases n - i,
    {
        if i < n {
            let b = exec(st.rows, base, m);
            let s1 = self.w_load(st, at(bb, i));
            self.lemma_w_load(st, at(bb, i), base, m);
            let s2 = s1.emit(w_op(op, at(ra, i)));
            lemma_bit_file(s1, op, at(ra, i), base, m);
            let s3 = self.w_store(s2, at(dst, i));
            self.lemma_w_store(s2, at(dst, i), base, m);
            let mid = exec(s3.rows, base, m);
            self.lemma_bitwise_regs(s3, op, ra, bb, dst, n, (i + 1) as u8, base, m);
            let a = exec(self.bitwise_regs(st, op, ra, bb, dst, n, i).rows, base, m);
            assert forall|j: u8| i <= j < n implies #[trigger] a.ram[at(dst, j)] == bit_value(
                op,
                b.ram[at(ra, j)],
                b.ram[at(bb, j)],
            ) by {
                if j > i {
                    assert(mid.ram[at(ra, j)] == b.ram[at(ra, j)]);
                    assert(mid.ram[at(bb, j)] == b.ram[at(bb, j)]);
                }
            }
        }
    }

    proof fn lemma_bitwise_const(
        &self,
        st: St,
        op: Op,
        opw: LitOp,
        ra: u32,
        k: i64,
        dst: u32,
        n: u8,
        i: u8,
        base: int,
        m: Machine,
    )
        requires
            ready(st, base, m),
            twins(op, opw),
            dst <= 0xFFFF,
            ra <= 0xFFFF,
            ra == dst || apart(ra, n as int, dst, n as int),
        ensures
            ready(self.bitwise_const(st, opw, ra, k, dst, n, i), base, m),
            ({
                let b = exec(st.rows, base, m);
                let a = exec(self.bitwise_const(st, opw, ra, k, dst, n, i).rows, base, m);
                passes(b, a) && kept(b, a, dst, n as int) && (forall|j: u8|
                    i <= j < n ==> #[trigger] a.ram[at(dst, j)] == bit_value(
                        op,
                        b.ram[at(ra, j)],
                        const_byte(k, j),
                    )) && (forall|j: u8|
                    j < i ==> #[trigger] a.ram[at(dst, j)] == b.ram[at(dst, j)])
            }),
        decreases n - i,
    {
        if i < n {
            let b = exec(st.rows, base, m);
            let s1 = self.w_load(st, at(ra, i));
            self.lemma_w_load(st, at(ra, i), base, m);
            let s2 = s1.emit(lit(opw, const_byte(k, i)));
            lemma_bit_lit(s1, op, opw, const_byte(k, i), base, m);
            let s3 = self.w_store(s2, at(dst, i));
            self.lemma_w_store(s2, at(dst, i), base, m);
            let mid = exec(s3.rows, base, m);
            self.lemma_bitwise_const(s3, op, opw, ra, k, dst, n, (i + 1) as u8, base, m);
            let a = exec(self.bitwise_const(st, opw, ra, k, dst, n, i).rows, base, m);
            assert forall|j: u8| i <= j < n implies #[trigger] a.ram[at(dst, j)] == bit_value(
                op,
                b.ram[at(ra, j)],
                const_byte(k, j),
            ) by {
                if j > i {
                    assert(mid.ram[at(ra, j)] == b.ram[at(ra, j)]);
                }
            }
        }
    }

    /// `dst = a OP b` for and, or and xor.
    pub(crate) proof fn lemma_bitwise(
        &self,
        st: St,
        bop: BinOp,
        x: Val,
        y: Val,
        dst: u32,
        n: u8,
        base: int,
        m: Machine,
    )
        requires
            ready(st, base, m),
            n == 1 || n == 2 || n == 4,
            bop == BinOp::And || bop == BinOp::Or || bop == BinOp::Xor,
            self.usable(x, dst, n as int),
            self.usable(y, dst, n as int),
            !(x is Const && y is Const),
        ensures
            ({
                let (op, opw) = match bop {
                    BinOp::And => (Op::Andwf, LitOp::Andlw),
                    BinOp::Or => (Op::Iorwf, LitOp::Iorlw),
                    _ => (Op::Xorwf, LitOp::Xorlw),
                };
                let s = self.bitwise(st, x, y, n, dst, op, opw);
                let b = exec(st.rows, base, m);
                let a = exec(s.rows, base, m);
                ready(s, base, m) && passes(b, a) && kept(b, a, dst, n as int) && word(a, dst, n)
                    == bin_value(bop, self.word_of(b, x, n), self.word_of(b, y, n), n)
            }),
    {
        let (op, opw) = match bop {
            BinOp::And => (Op::Andwf, LitOp::Andlw),
            BinOp::Or => (Op::Iorwf, LitOp::Iorlw),
            _ => (Op::Xorwf, LitOp::Xorlw),
        };
        let b = exec(st.rows, base, m);
        let s = self.bitwise(st, x, y, n, dst, op, opw);
        let a = exec(s.rows, base, m);
        let (p, q) = if x is Reg {
            (x, y)
        } else {
            (y, x)
        };
        let ra = self.slot_of(p)->0;
        match q {
            Val::Const(k) => {
                self.lemma_bitwise_const(st, op, opw, ra, k, dst, n, 0, base, m);
                assert(s == self.bitwise_const(st, opw, ra, k, dst, n, 0));
            },
            _ => {
                let bb = self.slot_of(q)->0;
                self.lemma_bitwise_regs(st, op, ra, bb, dst, n, 0, base, m);
                assert(s == self.bitwise_regs(st, op, ra, bb, dst, n, 0));
            },
        }
        lemma_bytewise(
            self.byte_of(b, p, 0),
            self.byte_of(b, p, 1),
            self.byte_of(b, p, 2),
            self.byte_of(b, p, 3),
            self.byte_of(b, q, 0),
            self.byte_of(b, q, 1),
            self.byte_of(b, q, 2),
            self.byte_of(b, q, 3),
            n,
        );
        assert(at(dst, 0) == dst);
        assert(a.ram[at(dst, 0)] == bit_value(op, self.byte_of(b, p, 0), self.byte_of(b, q, 0)));
        if n > 1 {
            assert(a.ram[at(dst, 1)] == bit_value(
                op,
                self.byte_of(b, p, 1),
                self.byte_of(b, q, 1),
            ));
        }
        if n > 2 {
            assert(a.ram[at(dst, 2)] == bit_value(
                op,
                self.byte_of(b, p, 2),
                self.byte_of(b, q, 2),
            ));
            assert(a.ram[at(dst, 3)] == bit_value(
                op,
                self.byte_of(b, p, 3),
                self.byte_of(b, q, 3),
            ));
        }
        assert(word(a, dst, n) == bin_value(bop, self.word_of(b, p, n), self.word_of(b, q, n), n));
        lemma_bits_commute(bop, self.word_of(b, x, n), self.word_of(b, y, n), n);
    }
}

} // verus!
