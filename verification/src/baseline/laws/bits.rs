//! Bitwise operators and shifts, and with them all two-operand instructions.
use vstd::prelude::*;
use crate::baseline::Gen;
use crate::emit::{at, const_byte, lit, on_c, St};
use crate::ir::{Bin, BinOp, Ty, Val};
use crate::line::{BitOp, LitOp, Op};
use crate::machine::{exec, group_exec, Machine};
use crate::meaning::{
    apart, bin_value, bit_value, carried, flag, kept, lemma_bits_commute, lemma_bytewise,
    lemma_residue, lemma_shift_more, lemma_shift_none, limit, passes, shifted_once, twins, word,
};

verus! {

impl<'a> Gen<'a> {
    proof fn lemma_bitwise_regs(
        &self,
        st: St,
        op: Op,
        ra: u32,
        bb: u32,
        dst: u32,
        n: u8,
        i: u8,
        base: int,
        m: Machine,
    )
        requires
            self.at_row(st, base, m),
            op == Op::Andwf || op == Op::Iorwf || op == Op::Xorwf,
            self.sound_bytes(ra, n) && self.sound_bytes(bb, n) && self.sound_bytes(dst, n),
            ra == dst || apart(ra, n as int, dst, n as int),
            bb == dst || apart(bb, n as int, dst, n as int),
        ensures
            ({
                let s = self.bitwise_regs(st, op, ra, bb, dst, n, i);
                let b = exec(st.rows, base, m);
                let a = exec(s.rows, base, m);
                self.at_row(s, base, m) && passes(b, a) && kept(b, a, dst, n as int) && (forall|
                    j: u8,
                |
                    i <= j < n ==> #[trigger] a.ram[at(dst, j)] == bit_value(
                        op,
                        b.ram[at(ra, j)],
                        b.ram[at(bb, j)],
                    )) && (forall|j: u8|
                    j < i ==> #[trigger] a.ram[at(dst, j)] == b.ram[at(dst, j)])
            }),
        decreases n - i,
    {
        if i < n {
            let b = exec(st.rows, base, m);
            assert(self.sound(at(ra, i)) && self.sound(at(bb, i)) && self.sound(at(dst, i)));
            let s1 = self.w_load(st, at(bb, i));
            self.lemma_w_load(st, at(bb, i), base, m);
            let s2 = self.acc_w(s1, op, at(ra, i));
            self.lemma_acc_w(s1, op, at(ra, i), base, m);
            let s3 = self.w_store(s2, at(dst, i));
            self.lemma_w_store(s2, at(dst, i), base, m);
            let c = exec(s3.rows, base, m);
            self.lemma_bitwise_regs(s3, op, ra, bb, dst, n, (i + 1) as u8, base, m);
            let a = exec(self.bitwise_regs(st, op, ra, bb, dst, n, i).rows, base, m);
            assert forall|j: u8| i <= j < n implies #[trigger] a.ram[at(dst, j)] == bit_value(
                op,
                b.ram[at(ra, j)],
                b.ram[at(bb, j)],
            ) by {
                if j > i {
                    assert(c.ram[at(ra, j)] == b.ram[at(ra, j)]);
                    assert(c.ram[at(bb, j)] == b.ram[at(bb, j)]);
                }
            }
        }
    }

    proof fn lemma_bit_lit(&self, st: St, op: Op, opw: LitOp, k: u8, base: int, m: Machine)
        requires
            self.at_row(st, base, m),
            twins(op, opw),
        ensures
            ({
                let s = st.emit(lit(opw, k));
                let b = exec(st.rows, base, m);
                let a = exec(s.rows, base, m);
                self.at_row(s, base, m) && passes(b, a) && a.ram == b.ram && a.w == bit_value(
                    op,
                    b.w,
                    k,
                )
            }),
    {
        broadcast use group_exec;

    }

    proof fn lemma_bitwise_const(
        &self,
        st: St,
        op: Op,
        opw: LitOp,
        ra: u32,
        k: i64,
        dst: u32,
        n: u8,
        i: u8,
        base: int,
        m: Machine,
    )
        requires
            self.at_row(st, base, m),
            twins(op, opw),
            self.sound_bytes(ra, n) && self.sound_bytes(dst, n),
            ra == dst || apart(ra, n as int, dst, n as int),
        ensures
            ({
                let s = self.bitwise_const(st, opw, ra, k, dst, n, i);
                let b = exec(st.rows, base, m);
                let a = exec(s.rows, base, m);
                self.at_row(s, base, m) && passes(b, a) && kept(b, a, dst, n as int) && (forall|
                    j: u8,
                |
                    i <= j < n ==> #[trigger] a.ram[at(dst, j)] == bit_value(
                        op,
                        b.ram[at(ra, j)],
                        const_byte(k, j),
                    )) && (forall|j: u8|
                    j < i ==> #[trigger] a.ram[at(dst, j)] == b.ram[at(dst, j)])
            }),
        decreases n - i,
    {
        if i < n {
            let b = exec(st.rows, base, m);
            assert(self.sound(at(ra, i)) && self.sound(at(dst, i)));
            let s1 = self.w_load(st, at(ra, i));
            self.lemma_w_load(st, at(ra, i), base, m);
            let s2 = s1.emit(lit(opw, const_byte(k, i)));
            self.lemma_bit_lit(s1, op, opw, const_byte(k, i), base, m);
            let s3 = self.w_store(s2, at(dst, i));
            self.lemma_w_store(s2, at(dst, i), base, m);
            let c = exec(s3.rows, base, m);
            self.lemma_bitwise_const(s3, op, opw, ra, k, dst, n, (i + 1) as u8, base, m);
            let a = exec(self.bitwise_const(st, opw, ra, k, dst, n, i).rows, base, m);
            assert forall|j: u8| i <= j < n implies #[trigger] a.ram[at(dst, j)] == bit_value(
                op,
                b.ram[at(ra, j)],
                const_byte(k, j),
            ) by {
                if j > i {
                    assert(c.ram[at(ra, j)] == b.ram[at(ra, j)]);
                }
            }
        }
    }

    /// The operands in the order in which code is written for them.
    proof fn lemma_bitwise_ordered(
        &self,
        st: St,
        bin: BinOp,
        op: Op,
        opw: LitOp,
        x: Val,
        y: Val,
        dst: u32,
        n: u8,
        base: int,
        m: Machine,
    )
        requires
            self.at_row(st, base, m),
            n == 1 || n == 2,
            twins(op, opw),
            bin == (match op {
                Op::Andwf => BinOp::And,
                Op::Iorwf => BinOp::Or,
                _ => BinOp::Xor,
            }),
            self.operands(x, y, dst, n),
            x is Reg,
        ensures
            ({
                let s = self.bitwise_with(st, x->Reg_0@, y, n, dst, op, opw);
                let b = exec(st.rows, base, m);
                let a = exec(s.rows, base, m);
                self.at_row(s, base, m) && passes(b, a) && kept(b, a, dst, n as int) && word(
                    a,
                    dst,
                    n,
                ) == bin_value(bin, self.word_of(b, x, n), self.word_of(b, y, n), n)
            }),
    {
        let ra = self.slot_of(x)->0;
        let b = exec(st.rows, base, m);
        match y {
            Val::Const(k) => {
                self.lemma_bitwise_const(st, op, opw, ra, k, dst, n, 0, base, m);
            },
            _ => {
                self.lemma_bitwise_regs(st, op, ra, self.slot_of(y)->0, dst, n, 0, base, m);
            },
        }
        let a = exec(self.bitwise_with(st, x->Reg_0@, y, n, dst, op, opw).rows, base, m);
        assert(a.ram[at(dst, 0)] == bit_value(
            op,
            self.byte_of(b, x, 0),
            self.byte_of(b, y, 0),
        ));
        if n > 1 {
            assert(a.ram[at(dst, 1)] == bit_value(
                op,
                self.byte_of(b, x, 1),
                self.byte_of(b, y, 1),
            ));
        }
        lemma_bytewise(
            self.byte_of(b, x, 0),
            self.byte_of(b, x, 1),
            self.byte_of(b, x, 2),
            self.byte_of(b, x, 3),
            self.byte_of(b, y, 0),
            self.byte_of(b, y, 1),
            self.byte_of(b, y, 2),
            self.byte_of(b, y, 3),
            n,
        );
    }

    proof fn lemma_bitwise(
        &self,
        st: St,
        bin: BinOp,
        op: Op,
        opw: LitOp,
        x: Val,
        y: Val,
        dst: u32,
        n: u8,
        base: int,
        m: Machine,
    )
        requires
            self.at_row(st, base, m),
            n == 1 || n == 2,
            twins(op, opw),
            bin == (match op {
                Op::Andwf => BinOp::And,
                Op::Iorwf => BinOp::Or,
                _ => BinOp::Xor,
            }),
            self.operands(x, y, dst, n),
        ensures
            ({
                let s = self.bitwise(st, x, y, n, dst, op, opw);
                let b = exec(st.rows, base, m);
                let a = exec(s.rows, base, m);
                self.at_row(s, base, m) && self.settled(b, a, dst, n as int) && word(a, dst, n)
                    == bin_value(bin, self.word_of(b, x, n), self.word_of(b, y, n), n)
            }),
    {
        let b = exec(st.rows, base, m);
        if x is Reg {
            self.lemma_bitwise_ordered(st, bin, op, opw, x, y, dst, n, base, m);
        } else {
            self.lemma_bitwise_ordered(st, bin, op, opw, y, x, dst, n, base, m);
            lemma_bits_commute(bin, self.word_of(b, x, n), self.word_of(b, y, n), n);
        }
    }

    proof fn lemma_rotate_up(&self, st: St, da: u32, n: u8, base: int, m: Machine)
        requires
            self.at_row(st, base, m),
            n == 1 || n == 2,
            self.sound_bytes(da, n),
        ensures
            ({
                let s = self.rotate_up(st, da, n, 0);
                let b = exec(st.rows, base, m);
                let a = exec(s.rows, base, m);
                self.at_row(s, base, m) && passes(b, a) && kept(b, a, da, n as int) && word(
                    a,
                    da,
                    n,
                ) + carried(n, a.c) == 2 * word(b, da, n) + flag(b.c)
            }),
    {
        reveal_with_fuel(Gen::rotate_up, 3);
        assert(at(da, 0) == da && self.sound(at(da, 0)));
        let s1 = self.acc_f(st, Op::Rlf, at(da, 0));
        self.lemma_acc_f(st, Op::Rlf, at(da, 0), base, m);
        if n > 1 {
            assert(self.sound(at(da, 1)));
            self.lemma_acc_f(s1, Op::Rlf, at(da, 1), base, m);
        }
    }

    proof fn lemma_rotate_down(&self, st: St, da: u32, n: u8, base: int, m: Machine)
        requires
            self.at_row(st, base, m),
            n == 1 || n == 2,
            self.sound_bytes(da, n),
        ensures
            ({
                let s = self.rotate_down(st, da, n);
                let b = exec(st.rows, base, m);
                let a = exec(s.rows, base, m);
                self.at_row(s, base, m) && passes(b, a) && kept(b, a, da, n as int) && 2 * word(
                    a,
                    da,
                    n,
                ) + flag(a.c) == word(b, da, n) + carried(n, b.c)
            }),
    {
        reveal_with_fuel(Gen::rotate_down, 3);
        assert(at(da, 0) == da && self.sound(at(da, 0)));
        if n > 1 {
            assert(self.sound(at(da, 1)));
            let s1 = self.acc_f(st, Op::Rrf, at(da, 1));
            self.lemma_acc_f(st, Op::Rrf, at(da, 1), base, m);
            self.lemma_acc_f(s1, Op::Rrf, at(da, 0), base, m);
        } else {
            self.lemma_acc_f(st, Op::Rrf, at(da, 0), base, m);
        }
    }

    proof fn lemma_clear_c(&self, st: St, base: int, m: Machine)
        requires
            self.at_row(st, base, m),
        ensures
            ({
                let s = st.emit(on_c(BitOp::Bcf));
                let b = exec(st.rows, base, m);
                let a = exec(s.rows, base, m);
                self.at_row(s, base, m) && passes(b, a) && a.ram == b.ram && !a.c
            }),
    {
        broadcast use group_exec;

    }

    /// The sign of a byte into C.
    proof fn lemma_sign_to_c(&self, st: St, hi: u32, base: int, m: Machine)
        requires
            self.at_row(st, base, m),
            self.sound(hi),
        ensures
            ({
                let s1 = self.bit(self.bank(st, hi), BitOp::Btfsc, hi, 7).emit(on_c(BitOp::Bsf));
                let s = self.bit(s1, BitOp::Btfss, hi, 7).emit(on_c(BitOp::Bcf));
                let b = exec(st.rows, base, m);
                let a = exec(s.rows, base, m);
                self.at_row(s, base, m) && passes(b, a) && a.ram == b.ram && a.c == (b.ram[hi]
                    >= 128)
            }),
    {
        self.lemma_bank(st, hi, base, m);
        broadcast use group_exec;

    }

    proof fn lemma_shift_once(&self, st: St, op: BinOp, da: u32, n: u8, base: int, m: Machine)
        requires
            self.at_row(st, base, m),
            n == 1 || n == 2,
            self.sound_bytes(da, n),
            op == BinOp::Shl || op == BinOp::LShr || op == BinOp::AShr,
        ensures
            ({
                let s = self.shift_once(st, op, da, n);
                let b = exec(st.rows, base, m);
                let a = exec(s.rows, base, m);
                self.at_row(s, base, m) && passes(b, a) && kept(b, a, da, n as int) && shifted_once(
                    op,
                    word(b, da, n),
                    word(a, da, n),
                    n,
                )
            }),
    {
        let b = exec(st.rows, base, m);
        match op {
            BinOp::Shl => {
                self.lemma_clear_c(st, base, m);
                self.lemma_rotate_up(st.emit(on_c(BitOp::Bcf)), da, n, base, m);
                let a = exec(self.shift_once(st, op, da, n).rows, base, m);
                lemma_residue(word(a, da, n), 2 * word(b, da, n), n);
            },
            BinOp::LShr => {
                self.lemma_clear_c(st, base, m);
                self.lemma_rotate_down(st.emit(on_c(BitOp::Bcf)), da, n, base, m);
            },
            _ => {
                let hi = at(da, (n - 1) as u8);
                assert(self.sound(hi));
                let s1 = self.bit(self.bank(st, hi), BitOp::Btfsc, hi, 7).emit(on_c(BitOp::Bsf));
                let s2 = self.bit(s1, BitOp::Btfss, hi, 7).emit(on_c(BitOp::Bcf));
                self.lemma_sign_to_c(st, hi, base, m);
                self.lemma_rotate_down(s2, da, n, base, m);
                assert((b.ram[hi] >= 128) == (2 * word(b, da, n) >= limit(n)));
            },
        }
    }

    proof fn lemma_shift_times(
        &self,
        st: St,
        op: BinOp,
        da: u32,
        n: u8,
        k: u8,
        base: int,
        m: Machine,
    )
        requires
            self.at_row(st, base, m),
            n == 1 || n == 2,
            self.sound_bytes(da, n),
            op == BinOp::Shl || op == BinOp::LShr || op == BinOp::AShr,
        ensures
            ({
                let s = self.shift_times(st, op, da, n, k);
                let b = exec(st.rows, base, m);
                let a = exec(s.rows, base, m);
                self.at_row(s, base, m) && passes(b, a) && kept(b, a, da, n as int) && word(
                    a,
                    da,
                    n,
                ) == bin_value(op, word(b, da, n), k as int, n)
            }),
        decreases k,
    {
        let x = word(exec(st.rows, base, m), da, n);
        if k == 0 {
            lemma_shift_none(op, x, n);
        } else {
            let s1 = self.shift_once(st, op, da, n);
            self.lemma_shift_once(st, op, da, n, base, m);
            self.lemma_shift_times(s1, op, da, n, (k - 1) as u8, base, m);
            lemma_shift_more(op, x, word(exec(s1.rows, base, m), da, n), k as int, n);
        }
    }

    /// Whether a two-operand instruction is one that code is written for:
    /// its operands are constants and plain registers of one or two bytes,
    /// not two constants, and a shift has a constant count within the width.
    pub open spec fn lowers(&self, x: Bin) -> bool {
        let n = x.ty.bytes();
        match self.cx.slot(self.cx.fname(), x.dst@) {
            Some(da) => match x.op {
                BinOp::Add | BinOp::Sub => (x.ty == Ty::I8 || x.ty == Ty::I16) && self.operands(
                    x.a,
                    x.b,
                    da,
                    n,
                ),
                BinOp::And | BinOp::Or | BinOp::Xor => (x.ty == Ty::I1 || x.ty == Ty::I8 || x.ty
                    == Ty::I16) && self.operands(x.a, x.b, da, n),
                BinOp::Shl | BinOp::LShr | BinOp::AShr => (x.ty == Ty::I8 || x.ty == Ty::I16)
                    && self.usable(x.a, da, n) && (x.b matches Val::Const(k) && 0 <= k < 8 * n),
                _ => false,
            },
            None => false,
        }
    }

    /// The second operand as a number; a shift count as it stands.
    pub open spec fn right_of(&self, m: Machine, x: Bin) -> int {
        match x.op {
            BinOp::Shl | BinOp::LShr | BinOp::AShr => x.b->Const_0 as int,
            _ => self.word_of(m, x.b, x.ty.bytes()),
        }
    }

    /// The code for a two-operand instruction leaves the instruction's value
    /// in the slot of its result, whatever the operands hold, and changes
    /// nothing else but W, the flags, the bank and the fixed bytes.
    pub proof fn law_bin_computes(&self, st: St, x: Bin, base: int, m: Machine)
        requires
            self.at_row(st, base, m),
            self.lowers(x),
        ensures
            self.at_row(self.bin(st, x), base, m),
            ({
                let n = x.ty.bytes();
                let da = self.cx.slot(self.cx.fname(), x.dst@)->0;
                let b = exec(st.rows, base, m);
                let a = exec(self.bin(st, x).rows, base, m);
                self.settled(b, a, da, n as int) && word(a, da, n) == bin_value(
                    x.op,
                    self.word_of(b, x.a, n),
                    self.right_of(b, x),
                    n,
                )
            }),
    {
        reveal(Gen::bin);
        let n = x.ty.bytes();
        let da = self.cx.slot(self.cx.fname(), x.dst@)->0;
        match x.op {
            BinOp::Add => if n == 1 {
                self.lemma_add8(st, x.a, x.b, da, base, m);
            } else {
                self.lemma_add16(st, x.a, x.b, da, base, m);
            },
            BinOp::Sub => match x.a {
                Val::Const(k) => self.lemma_sub_const(st, k, x.b, da, n, base, m),
                _ => if n == 1 {
                    self.lemma_sub8(st, x.a, x.b, da, base, m);
                } else {
                    self.lemma_sub16(st, x.a, x.b, da, base, m);
                },
            },
            BinOp::And => self.lemma_bitwise(
                st,
                x.op,
                Op::Andwf,
                LitOp::Andlw,
                x.a,
                x.b,
                da,
                n,
                base,
                m,
            ),
            BinOp::Or => self.lemma_bitwise(
                st,
                x.op,
                Op::Iorwf,
                LitOp::Iorlw,
                x.a,
                x.b,
                da,
                n,
                base,
                m,
            ),
            BinOp::Xor => self.lemma_bitwise(
                st,
                x.op,
                Op::Xorwf,
                LitOp::Xorlw,
                x.a,
                x.b,
                da,
                n,
                base,
                m,
            ),
            _ => {
                let s1 = self.move_val(st, x.a, x.ty, da);
                self.lemma_moved(st, x.a, n, da, base, m);
                self.lemma_shift_times(s1, x.op, da, n, (x.b->Const_0) as u8, base, m);
            },
        }
    }
}

} // verus!
