//! Sums and differences.
use vstd::prelude::*;
use crate::emit::{at, const_byte, lit, movf, movlw, movwf, w_op, St};
use crate::ir::Val;
use crate::line::{LitOp, Op};
use crate::machine::{exec, group_exec, Machine};
use crate::meaning::{
    apart, const_word, flag, kept, kept_but, lemma_residue, limit, passes, word,
};
use crate::pic14e::laws::{lemma_movf, lemma_movlw, ready};
use crate::pic14e::Gen;

verus! {

impl<'a> Gen<'a> {
    /// A byte plus a staged byte plus the carry.
    proof fn lemma_add_byte_regs(&self, st: St, ra: u32, bb: u32, dst: u32, base: int, m: Machine)
        requires
            ready(st, base, m),
            ra != self.scratch,
            dst != self.scratch,
        ensures
            ready(self.add_byte_regs(st, ra, bb, dst), base, m),
            ({
                let b = exec(st.rows, base, m);
                let a = exec(self.add_byte_regs(st, ra, bb, dst).rows, base, m);
                passes(b, a) && kept_but(b, a, dst, 1, self.scratch) && a.ram[dst] + 256 * flag(a.c)
                    == b.ram[ra] + b.ram[bb] + flag(b.c)
            }),
    {
        broadcast use group_exec;

    }

    proof fn lemma_add_byte_const(&self, st: St, ra: u32, k: u8, dst: u32, base: int, m: Machine)
        requires
            ready(st, base, m),
            ra != self.scratch,
            dst != self.scratch,
        ensures
            ready(self.add_byte_const(st, ra, k, dst), base, m),
            ({
                let b = exec(st.rows, base, m);
                let a = exec(self.add_byte_const(st, ra, k, dst).rows, base, m);
                passes(b, a) && kept_but(b, a, dst, 1, self.scratch) && a.ram[dst] + 256 * flag(a.c)
                    == b.ram[ra] + k + flag(b.c)
            }),
    {
        broadcast use group_exec;

    }

    /// A byte minus a staged byte minus the borrow, a clear carry.
    proof fn lemma_sub_byte_regs(&self, st: St, aa: u32, bb: u32, dst: u32, base: int, m: Machine)
        requires
            ready(st, base, m),
            aa != self.scratch,
            dst != self.scratch,
        ensures
            ready(self.sub_byte_regs(st, aa, bb, dst), base, m),
            ({
                let b = exec(st.rows, base, m);
                let a = exec(self.sub_byte_regs(st, aa, bb, dst).rows, base, m);
                passes(b, a) && kept_but(b, a, dst, 1, self.scratch) && a.ram[dst] - 256 * flag(
                    !a.c,
                ) == b.ram[aa] - b.ram[bb] - flag(!b.c)
            }),
    {
        broadcast use group_exec;

    }

    proof fn lemma_sub_byte_const(&self, st: St, aa: u32, k: u8, dst: u32, base: int, m: Machine)
        requires
            ready(st, base, m),
            aa != self.scratch,
            dst != self.scratch,
        ensures
            ready(self.sub_byte_const(st, aa, k, dst), base, m),
            ({
                let b = exec(st.rows, base, m);
                let a = exec(self.sub_byte_const(st, aa, k, dst).rows, base, m);
                passes(b, a) && kept_but(b, a, dst, 1, self.scratch) && a.ram[dst] - 256 * flag(
                    !a.c,
                ) == b.ram[aa] - k - flag(!b.c)
            }),
    {
        broadcast use group_exec;

    }

    proof fn lemma_sub_byte_lhs(&self, st: St, k: u8, aa: u32, dst: u32, base: int, m: Machine)
        requires
            ready(st, base, m),
            aa != self.scratch,
            dst != self.scratch,
        ensures
            ready(self.sub_byte_lhs(st, k, aa, dst), base, m),
            ({
                let b = exec(st.rows, base, m);
                let a = exec(self.sub_byte_lhs(st, k, aa, dst).rows, base, m);
                passes(b, a) && kept_but(b, a, dst, 1, self.scratch) && a.ram[dst] - 256 * flag(
                    !a.c,
                ) == k - b.ram[aa] - flag(!b.c)
            }),
    {
        broadcast use group_exec;

    }

    /// The low byte of a sum, and its carry.
    proof fn lemma_add8_regs(&self, st: St, aa: u32, bb: u32, dst: u32, base: int, m: Machine)
        requires
            ready(st, base, m),
        ensures
            ready(self.add8_regs(st, aa, bb, dst), base, m),
            ({
                let b = exec(st.rows, base, m);
                let a = exec(self.add8_regs(st, aa, bb, dst).rows, base, m);
                passes(b, a) && kept(b, a, dst, 1) && a.ram[dst] + 256 * flag(a.c) == b.ram[aa]
                    + b.ram[bb]
            }),
    {
        broadcast use group_exec;

    }

    /// The low byte of a sum with a constant.
    proof fn lemma_add8_const(&self, st: St, aa: u32, k: u8, dst: u32, base: int, m: Machine)
        requires
            ready(st, base, m),
        ensures
            ready(self.add8_const(st, aa, k, dst), base, m),
            ({
                let b = exec(st.rows, base, m);
                let a = exec(self.add8_const(st, aa, k, dst).rows, base, m);
                passes(b, a) && kept(b, a, dst, 1) && a.ram[dst] + 256 * flag(a.c) == b.ram[aa] + k
            }),
    {
        broadcast use group_exec;

    }

    /// The low byte of a difference, and its borrow.
    proof fn lemma_sub8_regs(&self, st: St, aa: u32, bb: u32, dst: u32, base: int, m: Machine)
        requires
            ready(st, base, m),
        ensures
            ready(self.sub8_regs(st, aa, bb, dst), base, m),
            ({
                let b = exec(st.rows, base, m);
                let a = exec(self.sub8_regs(st, aa, bb, dst).rows, base, m);
                passes(b, a) && kept(b, a, dst, 1) && a.ram[dst] - 256 * flag(!a.c) == b.ram[aa]
                    - b.ram[bb]
            }),
    {
        broadcast use group_exec;

    }

    /// The low byte of a difference from a constant.
    proof fn lemma_sub8_const(&self, st: St, aa: u32, k: u8, dst: u32, base: int, m: Machine)
        requires
            ready(st, base, m),
        ensures
            ready(self.sub8_const(st, aa, k, dst), base, m),
            ({
                let b = exec(st.rows, base, m);
                let a = exec(self.sub8_const(st, aa, k, dst).rows, base, m);
                passes(b, a) && kept(b, a, dst, 1) && a.ram[dst] - 256 * flag(!a.c) == b.ram[aa] - k
            }),
    {
        broadcast use group_exec;

    }

    /// The low byte of a constant minus a byte.
    proof fn lemma_sub8_lhs(&self, st: St, k: u8, aa: u32, dst: u32, base: int, m: Machine)
        requires
            ready(st, base, m),
        ensures
            ready(self.sub8_lhs(st, k, aa, dst), base, m),
            ({
                let b = exec(st.rows, base, m);
                let a = exec(self.sub8_lhs(st, k, aa, dst).rows, base, m);
                passes(b, a) && kept(b, a, dst, 1) && a.ram[dst] - 256 * flag(!a.c) == k - b.ram[aa]
            }),
    {
        broadcast use group_exec;

    }

    /// The high byte of a sum of two bytes each, with the carry.
    proof fn lemma_add16_high(&self, st: St, x: u32, dst: u32, base: int, m: Machine)
        requires
            ready(st, base, m),
        ensures
            ({
                let s = self.take_carry(st).emit(w_op(Op::Addwf, x)).emit(movwf(dst));
                let b = exec(st.rows, base, m);
                let a = exec(s.rows, base, m);
                ready(s, base, m) && passes(b, a) && kept(b, a, dst, 1) && a.ram[dst] == (b.ram[x]
                    + b.w + flag(b.c)) % 256
            }),
    {
        broadcast use group_exec;

    }

    proof fn lemma_add16_high_const(&self, st: St, k: u8, dst: u32, base: int, m: Machine)
        requires
            ready(st, base, m),
        ensures
            ({
                let s = self.take_carry(st).emit(lit(LitOp::Addlw, k)).emit(movwf(dst));
                let b = exec(st.rows, base, m);
                let a = exec(s.rows, base, m);
                ready(s, base, m) && passes(b, a) && kept(b, a, dst, 1) && a.ram[dst] == (k + b.w
                    + flag(b.c)) % 256
            }),
    {
        broadcast use group_exec;

    }

    proof fn lemma_add16_regs(&self, st: St, ra: u32, bb: u32, dst: u32, base: int, m: Machine)
        requires
            ready(st, base, m),
            dst != at(ra, 1),
            dst != at(bb, 1),
            dst <= 0xFFFF,
        ensures
            ready(self.add16_regs(st, ra, bb, dst), base, m),
            ({
                let b = exec(st.rows, base, m);
                let a = exec(self.add16_regs(st, ra, bb, dst).rows, base, m);
                passes(b, a) && kept(b, a, dst, 2) && word(a, dst, 2) == (word(b, ra, 2) + word(
                    b,
                    bb,
                    2,
                )) % limit(2)
            }),
    {
        self.lemma_add8_regs(st, ra, bb, dst, base, m);
        let s1 = self.add8_regs(st, ra, bb, dst);
        let s2 = s1.emit(movf(at(bb, 1)));
        lemma_movf(s1, at(bb, 1), base, m);
        self.lemma_add16_high(s2, at(ra, 1), at(dst, 1), base, m);
    }

    proof fn lemma_add16_const(&self, st: St, ra: u32, k: i64, dst: u32, base: int, m: Machine)
        requires
            ready(st, base, m),
            dst != at(ra, 1),
            dst <= 0xFFFF,
        ensures
            ready(self.add16_const(st, ra, k, dst), base, m),
            ({
                let b = exec(st.rows, base, m);
                let a = exec(self.add16_const(st, ra, k, dst).rows, base, m);
                passes(b, a) && kept(b, a, dst, 2) && word(a, dst, 2) == (word(b, ra, 2)
                    + const_word(k, 2)) % limit(2)
            }),
    {
        self.lemma_add8_const(st, ra, const_byte(k, 0), dst, base, m);
        let s1 = self.add8_const(st, ra, const_byte(k, 0), dst);
        let s2 = s1.emit(movf(at(ra, 1)));
        lemma_movf(s1, at(ra, 1), base, m);
        self.lemma_add16_high_const(s2, const_byte(k, 1), at(dst, 1), base, m);
    }

    /// The high byte of a difference of two bytes, with the borrow.
    proof fn lemma_sub16_high(&self, st: St, aa: u32, dst: u32, base: int, m: Machine)
        requires
            ready(st, base, m),
        ensures
            ready(self.sub16_high(st, aa, dst), base, m),
            ({
                let b = exec(st.rows, base, m);
                let a = exec(self.sub16_high(st, aa, dst).rows, base, m);
                passes(b, a) && kept(b, a, at(dst, 1), 1) && a.ram[at(dst, 1)] == (b.ram[at(aa, 1)]
                    - b.w - flag(!b.c)) % 256
            }),
    {
        broadcast use group_exec;

    }

    proof fn lemma_add32_regs(&self, st: St, ra: u32, bb: u32, dst: u32, base: int, m: Machine)
        requires
            ready(st, base, m),
            dst <= 0xFFFF,
            ra <= 0xFFFF,
            bb <= 0xFFFF,
            apart(dst, 4, self.scratch, 1),
            apart(ra, 4, self.scratch, 1),
            apart(bb, 4, self.scratch, 1),
            ra == dst || apart(ra, 4, dst, 4),
            bb == dst || apart(bb, 4, dst, 4),
        ensures
            ({
                let s = self.add32_regs(self.add8_regs(st, ra, bb, dst), ra, bb, dst, 1);
                let b = exec(st.rows, base, m);
                let a = exec(s.rows, base, m);
                ready(s, base, m) && passes(b, a) && kept_but(b, a, dst, 4, self.scratch) && word(
                    a,
                    dst,
                    4,
                ) == (word(b, ra, 4) + word(b, bb, 4)) % limit(4)
            }),
    {
        let s0 = self.add8_regs(st, ra, bb, dst);
        let s1 = self.add_byte_regs(s0, at(ra, 1), at(bb, 1), at(dst, 1));
        let s2 = self.add_byte_regs(s1, at(ra, 2), at(bb, 2), at(dst, 2));
        let s3 = self.add_byte_regs(s2, at(ra, 3), at(bb, 3), at(dst, 3));
        self.lemma_add8_regs(st, ra, bb, dst, base, m);
        self.lemma_add_byte_regs(s0, at(ra, 1), at(bb, 1), at(dst, 1), base, m);
        self.lemma_add_byte_regs(s1, at(ra, 2), at(bb, 2), at(dst, 2), base, m);
        self.lemma_add_byte_regs(s2, at(ra, 3), at(bb, 3), at(dst, 3), base, m);
        reveal_with_fuel(Gen::add32_regs, 4);
        assert(self.add32_regs(s0, ra, bb, dst, 1) == s3);
        let b = exec(st.rows, base, m);
        let a = exec(s3.rows, base, m);
        assert(a.ram[dst] == exec(s0.rows, base, m).ram[dst]);
        assert(a.ram[at(dst, 1)] == exec(s1.rows, base, m).ram[at(dst, 1)]);
        assert(a.ram[at(dst, 2)] == exec(s2.rows, base, m).ram[at(dst, 2)]);
        lemma_residue(word(a, dst, 4), word(b, ra, 4) + word(b, bb, 4), 4);
    }

    proof fn lemma_add32_const(&self, st: St, ra: u32, k: i64, dst: u32, base: int, m: Machine)
        requires
            ready(st, base, m),
            dst <= 0xFFFF,
            ra <= 0xFFFF,
            apart(dst, 4, self.scratch, 1),
            apart(ra, 4, self.scratch, 1),
            ra == dst || apart(ra, 4, dst, 4),
        ensures
            ({
                let s0 = self.add8_const(st, ra, const_byte(k, 0), dst);
                let s = self.add32_const(s0, ra, k, dst, 1);
                let b = exec(st.rows, base, m);
                let a = exec(s.rows, base, m);
                ready(s, base, m) && passes(b, a) && kept_but(b, a, dst, 4, self.scratch) && word(
                    a,
                    dst,
                    4,
                ) == (word(b, ra, 4) + const_word(k, 4)) % limit(4)
            }),
    {
        let s0 = self.add8_const(st, ra, const_byte(k, 0), dst);
        let s1 = self.add_byte_const(s0, at(ra, 1), const_byte(k, 1), at(dst, 1));
        let s2 = self.add_byte_const(s1, at(ra, 2), const_byte(k, 2), at(dst, 2));
        let s3 = self.add_byte_const(s2, at(ra, 3), const_byte(k, 3), at(dst, 3));
        self.lemma_add8_const(st, ra, const_byte(k, 0), dst, base, m);
        self.lemma_add_byte_const(s0, at(ra, 1), const_byte(k, 1), at(dst, 1), base, m);
        self.lemma_add_byte_const(s1, at(ra, 2), const_byte(k, 2), at(dst, 2), base, m);
        self.lemma_add_byte_const(s2, at(ra, 3), const_byte(k, 3), at(dst, 3), base, m);
        reveal_with_fuel(Gen::add32_const, 4);
        assert(self.add32_const(s0, ra, k, dst, 1) == s3);
        let b = exec(st.rows, base, m);
        let a = exec(s3.rows, base, m);
        assert(a.ram[dst] == exec(s0.rows, base, m).ram[dst]);
        assert(a.ram[at(dst, 1)] == exec(s1.rows, base, m).ram[at(dst, 1)]);
        assert(a.ram[at(dst, 2)] == exec(s2.rows, base, m).ram[at(dst, 2)]);
        lemma_residue(word(a, dst, 4), word(b, ra, 4) + const_word(k, 4), 4);
    }

    /// `dst = a + b`.
    pub(crate) proof fn lemma_add(&self, st: St, x: Val, y: Val, dst: u32, n: u8, base: int, m: Machine)
        requires
            ready(st, base, m),
            n == 1 || n == 2 || n == 4,
            self.usable(x, dst, n as int),
            self.usable(y, dst, n as int),
            !(x is Const && y is Const),
        ensures
            ({
                let s = if n == 1 {
                    self.add8(st, x, y, dst)
                } else if n == 2 {
                    self.add16(st, x, y, dst)
                } else {
                    self.add32(st, x, y, dst)
                };
                let b = exec(st.rows, base, m);
                let a = exec(s.rows, base, m);
                ready(s, base, m) && passes(b, a) && kept_but(
                    b,
                    a,
                    dst,
                    n as int,
                    self.scratch,
                ) && word(a, dst, n) == (self.word_of(b, x, n) + self.word_of(b, y, n)) % limit(n)
            }),
    {
        let (x, y) = if x is Const {
            (y, x)
        } else {
            (x, y)
        };
        let ra = self.slot_of(x)->0;
        match y {
            Val::Const(k) => {
                if n == 1 {
                    self.lemma_add8_const(st, ra, const_byte(k, 0), dst, base, m);
                } else if n == 2 {
                    self.lemma_add16_const(st, ra, k, dst, base, m);
                } else {
                    self.lemma_add32_const(st, ra, k, dst, base, m);
                }
            },
            _ => {
                let bb = self.slot_of(y)->0;
                if n == 1 {
                    self.lemma_add8_regs(st, ra, bb, dst, base, m);
                } else if n == 2 {
                    self.lemma_add16_regs(st, ra, bb, dst, base, m);
                } else {
                    self.lemma_add32_regs(st, ra, bb, dst, base, m);
                }
            },
        }
    }

    proof fn lemma_sub32_regs(&self, st: St, aa: u32, bb: u32, dst: u32, base: int, m: Machine)
        requires
            ready(st, base, m),
            dst <= 0xFFFF,
            aa <= 0xFFFF,
            bb <= 0xFFFF,
            apart(dst, 4, self.scratch, 1),
            apart(aa, 4, self.scratch, 1),
            apart(bb, 4, self.scratch, 1),
            aa == dst || apart(aa, 4, dst, 4),
            bb == dst || apart(bb, 4, dst, 4),
        ensures
            ({
                let s = self.sub32_regs(self.sub8_regs(st, aa, bb, dst), aa, bb, dst, 1);
                let b = exec(st.rows, base, m);
                let a = exec(s.rows, base, m);
                ready(s, base, m) && passes(b, a) && kept_but(b, a, dst, 4, self.scratch) && word(
                    a,
                    dst,
                    4,
                ) == (word(b, aa, 4) - word(b, bb, 4)) % limit(4)
            }),
    {
        let s0 = self.sub8_regs(st, aa, bb, dst);
        let s1 = self.sub_byte_regs(s0, at(aa, 1), at(bb, 1), at(dst, 1));
        let s2 = self.sub_byte_regs(s1, at(aa, 2), at(bb, 2), at(dst, 2));
        let s3 = self.sub_byte_regs(s2, at(aa, 3), at(bb, 3), at(dst, 3));
        self.lemma_sub8_regs(st, aa, bb, dst, base, m);
        self.lemma_sub_byte_regs(s0, at(aa, 1), at(bb, 1), at(dst, 1), base, m);
        self.lemma_sub_byte_regs(s1, at(aa, 2), at(bb, 2), at(dst, 2), base, m);
        self.lemma_sub_byte_regs(s2, at(aa, 3), at(bb, 3), at(dst, 3), base, m);
        reveal_with_fuel(Gen::sub32_regs, 4);
        assert(self.sub32_regs(s0, aa, bb, dst, 1) == s3);
        let b = exec(st.rows, base, m);
        let a = exec(s3.rows, base, m);
        assert(a.ram[dst] == exec(s0.rows, base, m).ram[dst]);
        assert(a.ram[at(dst, 1)] == exec(s1.rows, base, m).ram[at(dst, 1)]);
        assert(a.ram[at(dst, 2)] == exec(s2.rows, base, m).ram[at(dst, 2)]);
        lemma_residue(word(a, dst, 4), word(b, aa, 4) - word(b, bb, 4), 4);
    }

    proof fn lemma_sub32_const(&self, st: St, aa: u32, k: i64, dst: u32, base: int, m: Machine)
        requires
            ready(st, base, m),
            dst <= 0xFFFF,
            aa <= 0xFFFF,
            apart(dst, 4, self.scratch, 1),
            apart(aa, 4, self.scratch, 1),
            aa == dst || apart(aa, 4, dst, 4),
        ensures
            ({
                let s0 = self.sub8_const(st, aa, const_byte(k, 0), dst);
                let s = self.sub32_const(s0, aa, k, dst, 1);
                let b = exec(st.rows, base, m);
                let a = exec(s.rows, base, m);
                ready(s, base, m) && passes(b, a) && kept_but(b, a, dst, 4, self.scratch) && word(
                    a,
                    dst,
                    4,
                ) == (word(b, aa, 4) - const_word(k, 4)) % limit(4)
            }),
    {
        let s0 = self.sub8_const(st, aa, const_byte(k, 0), dst);
        let s1 = self.sub_byte_const(s0, at(aa, 1), const_byte(k, 1), at(dst, 1));
        let s2 = self.sub_byte_const(s1, at(aa, 2), const_byte(k, 2), at(dst, 2));
        let s3 = self.sub_byte_const(s2, at(aa, 3), const_byte(k, 3), at(dst, 3));
        self.lemma_sub8_const(st, aa, const_byte(k, 0), dst, base, m);
        self.lemma_sub_byte_const(s0, at(aa, 1), const_byte(k, 1), at(dst, 1), base, m);
        self.lemma_sub_byte_const(s1, at(aa, 2), const_byte(k, 2), at(dst, 2), base, m);
        self.lemma_sub_byte_const(s2, at(aa, 3), const_byte(k, 3), at(dst, 3), base, m);
        reveal_with_fuel(Gen::sub32_const, 4);
        assert(self.sub32_const(s0, aa, k, dst, 1) == s3);
        let b = exec(st.rows, base, m);
        let a = exec(s3.rows, base, m);
        assert(a.ram[dst] == exec(s0.rows, base, m).ram[dst]);
        assert(a.ram[at(dst, 1)] == exec(s1.rows, base, m).ram[at(dst, 1)]);
        assert(a.ram[at(dst, 2)] == exec(s2.rows, base, m).ram[at(dst, 2)]);
        lemma_residue(word(a, dst, 4), word(b, aa, 4) - const_word(k, 4), 4);
    }

    proof fn lemma_sub16_regs(&self, st: St, aa: u32, bb: u32, dst: u32, base: int, m: Machine)
        requires
            ready(st, base, m),
            dst != at(aa, 1),
            dst != at(bb, 1),
            dst <= 0xFFFF,
        ensures
            ({
                let s1 = self.sub8_regs(st, aa, bb, dst).emit(movf(at(bb, 1)));
                let s = self.sub16_high(s1, aa, dst);
                let b = exec(st.rows, base, m);
                let a = exec(s.rows, base, m);
                ready(s, base, m) && passes(b, a) && kept(b, a, dst, 2) && word(a, dst, 2) == (word(
                    b,
                    aa,
                    2,
                ) - word(b, bb, 2)) % limit(2)
            }),
    {
        self.lemma_sub8_regs(st, aa, bb, dst, base, m);
        let s1 = self.sub8_regs(st, aa, bb, dst);
        lemma_movf(s1, at(bb, 1), base, m);
        self.lemma_sub16_high(s1.emit(movf(at(bb, 1))), aa, dst, base, m);
    }

    proof fn lemma_sub16_const(&self, st: St, aa: u32, k: i64, dst: u32, base: int, m: Machine)
        requires
            ready(st, base, m),
            dst != at(aa, 1),
            dst <= 0xFFFF,
        ensures
            ({
                let s1 = self.sub8_const(st, aa, const_byte(k, 0), dst).emit(
                    movlw(const_byte(k, 1)),
                );
                let s = self.sub16_high(s1, aa, dst);
                let b = exec(st.rows, base, m);
                let a = exec(s.rows, base, m);
                ready(s, base, m) && passes(b, a) && kept(b, a, dst, 2) && word(a, dst, 2) == (word(
                    b,
                    aa,
                    2,
                ) - const_word(k, 2)) % limit(2)
            }),
    {
        self.lemma_sub8_const(st, aa, const_byte(k, 0), dst, base, m);
        let s1 = self.sub8_const(st, aa, const_byte(k, 0), dst);
        lemma_movlw(s1, const_byte(k, 1), base, m);
        self.lemma_sub16_high(s1.emit(movlw(const_byte(k, 1))), aa, dst, base, m);
    }

    /// Byte `i` of `dst = k - a`, if there is one.
    proof fn lemma_sub_lhs_rest(&self, st: St, k: i64, aa: u32, dst: u32, base: int, m: Machine)
        requires
            ready(st, base, m),
            dst <= 0xFFFF,
            aa <= 0xFFFF,
            apart(dst, 4, self.scratch, 1),
            apart(aa, 4, self.scratch, 1),
            aa == dst || apart(aa, 4, dst, 4),
        ensures
            ({
                let s0 = self.sub8_lhs(st, const_byte(k, 0), aa, dst);
                let s = self.sub_const_from(s0, k, aa, dst, 4, 1);
                let b = exec(st.rows, base, m);
                let a = exec(s.rows, base, m);
                ready(s, base, m) && passes(b, a) && kept_but(b, a, dst, 4, self.scratch) && word(
                    a,
                    dst,
                    4,
                ) == (const_word(k, 4) - word(b, aa, 4)) % limit(4)
            }),
    {
        let s0 = self.sub8_lhs(st, const_byte(k, 0), aa, dst);
        let s1 = self.sub_byte_lhs(s0, const_byte(k, 1), at(aa, 1), at(dst, 1));
        let s2 = self.sub_byte_lhs(s1, const_byte(k, 2), at(aa, 2), at(dst, 2));
        let s3 = self.sub_byte_lhs(s2, const_byte(k, 3), at(aa, 3), at(dst, 3));
        self.lemma_sub8_lhs(st, const_byte(k, 0), aa, dst, base, m);
        self.lemma_sub_byte_lhs(s0, const_byte(k, 1), at(aa, 1), at(dst, 1), base, m);
        self.lemma_sub_byte_lhs(s1, const_byte(k, 2), at(aa, 2), at(dst, 2), base, m);
        self.lemma_sub_byte_lhs(s2, const_byte(k, 3), at(aa, 3), at(dst, 3), base, m);
        reveal_with_fuel(Gen::sub_const_from, 4);
        assert(self.sub_const_from(s0, k, aa, dst, 4, 1) == s3);
        let b = exec(st.rows, base, m);
        let a = exec(s3.rows, base, m);
        assert(a.ram[dst] == exec(s0.rows, base, m).ram[dst]);
        assert(a.ram[at(dst, 1)] == exec(s1.rows, base, m).ram[at(dst, 1)]);
        assert(a.ram[at(dst, 2)] == exec(s2.rows, base, m).ram[at(dst, 2)]);
        lemma_residue(word(a, dst, 4), const_word(k, 4) - word(b, aa, 4), 4);
    }

    proof fn lemma_sub_lhs(&self, st: St, k: i64, y: Val, dst: u32, n: u8, base: int, m: Machine)
        requires
            ready(st, base, m),
            n == 1 || n == 2 || n == 4,
            self.usable(y, dst, n as int),
            !(y is Const),
        ensures
            ready(self.sub_const_lhs(st, k, y, dst, n), base, m),
            ({
                let b = exec(st.rows, base, m);
                let a = exec(self.sub_const_lhs(st, k, y, dst, n).rows, base, m);
                passes(b, a) && kept_but(b, a, dst, n as int, self.scratch) && word(a, dst, n) == (
                const_word(k, n) - self.word_of(b, y, n)) % limit(n)
            }),
    {
        let aa = self.slot_of(y)->0;
        let s0 = self.sub8_lhs(st, const_byte(k, 0), aa, dst);
        if n == 4 {
            self.lemma_sub_lhs_rest(st, k, aa, dst, base, m);
        } else {
            self.lemma_sub8_lhs(st, const_byte(k, 0), aa, dst, base, m);
            reveal_with_fuel(Gen::sub_const_from, 2);
            if n == 2 {
                let s1 = self.sub_byte_lhs(s0, const_byte(k, 1), at(aa, 1), at(dst, 1));
                self.lemma_sub_byte_lhs(s0, const_byte(k, 1), at(aa, 1), at(dst, 1), base, m);
                assert(self.sub_const_lhs(st, k, y, dst, n) == s1);
            } else {
                assert(self.sub_const_lhs(st, k, y, dst, n) == s0);
            }
        }
    }

    /// `dst = a - b`.
    pub(crate) proof fn lemma_sub(
        &self,
        st: St,
        x: Val,
        y: Val,
        dst: u32,
        n: u8,
        base: int,
        m: Machine,
    )
        requires
            ready(st, base, m),
            n == 1 || n == 2 || n == 4,
            self.usable(x, dst, n as int),
            self.usable(y, dst, n as int),
            !(x is Const && y is Const),
        ensures
            ({
                let s = match x {
                    Val::Const(k) => self.sub_const_lhs(st, k, y, dst, n),
                    _ => if n == 1 {
                        self.sub8(st, x, y, dst)
                    } else if n == 2 {
                        self.sub16(st, x, y, dst)
                    } else {
                        self.sub32(st, x, y, dst)
                    },
                };
                let b = exec(st.rows, base, m);
                let a = exec(s.rows, base, m);
                ready(s, base, m) && passes(b, a) && kept_but(
                    b,
                    a,
                    dst,
                    n as int,
                    self.scratch,
                ) && word(a, dst, n) == (self.word_of(b, x, n) - self.word_of(b, y, n)) % limit(n)
            }),
    {
        if let Val::Const(k) = x {
            self.lemma_sub_lhs(st, k, y, dst, n, base, m);
        } else {
            let aa = self.slot_of(x)->0;
            match y {
                Val::Const(k) => {
                    if n == 1 {
                        self.lemma_sub8_const(st, aa, const_byte(k, 0), dst, base, m);
                    } else if n == 2 {
                        self.lemma_sub16_const(st, aa, k, dst, base, m);
                    } else {
                        self.lemma_sub32_const(st, aa, k, dst, base, m);
                    }
                },
                _ => {
                    let bb = self.slot_of(y)->0;
                    if n == 1 {
                        self.lemma_sub8_regs(st, aa, bb, dst, base, m);
                    } else if n == 2 {
                        self.lemma_sub16_regs(st, aa, bb, dst, base, m);
                    } else {
                        self.lemma_sub32_regs(st, aa, bb, dst, base, m);
                    }
                },
            }
        }
    }
}

} // verus!
