//! What two-operand instructions compute.
use vstd::prelude::*;
use crate::emit::St;
use crate::ir::{Bin, BinOp, Ty, Val};
use crate::machine::{exec, Machine};
use crate::meaning::{bin_value, kept_but, passes, word};
use crate::pic14e::laws::ready;
use crate::pic14e::Gen;

verus! {

impl<'a> Gen<'a> {
    /// Whether a two-operand instruction is one that code is written for:
    /// its operands are constants and plain registers, not two constants,
    /// and a shift has a constant count within the width.
    pub open spec fn lowers(&self, x: Bin) -> bool {
        let n = x.ty.bytes() as int;
        match self.cx.slot(self.cx.fname(), x.dst@) {
            Some(da) => self.usable(x.a, da, n) && match x.op {
                BinOp::Add | BinOp::Sub => (x.ty == Ty::I8 || x.ty == Ty::I16 || x.ty == Ty::I32)
                    && self.usable(x.b, da, n) && !(x.a is Const && x.b is Const),
                BinOp::And | BinOp::Or | BinOp::Xor => x.ty != Ty::F32 && self.usable(x.b, da, n)
                    && !(x.a is Const && x.b is Const),
                BinOp::Shl | BinOp::LShr | BinOp::AShr => (x.ty == Ty::I8 || x.ty == Ty::I16
                    || x.ty == Ty::I32) && (x.b matches Val::Const(k) && 0 <= k < 8 * n),
                _ => false,
            },
            None => false,
        }
    }

    /// The second operand as a number; a shift count as it stands.
    pub open spec fn right_of(&self, m: Machine, x: Bin) -> int {
        match x.op {
            BinOp::Shl | BinOp::LShr | BinOp::AShr => x.b->Const_0 as int,
            _ => self.word_of(m, x.b, x.ty.bytes()),
        }
    }

    proof fn lemma_shift(&self, st: St, x: Bin, da: u32, base: int, m: Machine)
        requires
            ready(st, base, m),
            self.lowers(x),
            x.op == BinOp::Shl || x.op == BinOp::LShr || x.op == BinOp::AShr,
            self.cx.slot(self.cx.fname(), x.dst@) == Some(da),
        ensures
            ready(self.shift(st, x, da), base, m),
            ({
                let n = x.ty.bytes();
                let b = exec(st.rows, base, m);
                let a = exec(self.shift(st, x, da).rows, base, m);
                passes(b, a) && kept_but(b, a, da, n as int, self.scratch) && word(a, da, n)
                    == bin_value(x.op, self.word_of(b, x.a, n), x.b->Const_0 as int, n)
            }),
    {
        let n = x.ty.bytes();
        let s1 = self.move_val(st, x.a, x.ty, da);
        self.lemma_move_from(st, x.a, n, da, 0, base, m);
        self.lemma_moved(st, x.a, n, da, base, m);
        self.lemma_shift_times(s1, x.op, da, n, (x.b->Const_0) as u8, base, m);
    }

    /// The code for a two-operand instruction leaves the instruction's value
    /// in the slot of its result, whatever the operands hold, and changes
    /// nothing else but W, the flags and the comparison byte.
    pub proof fn law_bin_computes(&self, st: St, x: Bin, base: int, m: Machine)
        requires
            ready(st, base, m),
            self.lowers(x),
        ensures
            ready(self.bin(st, x), base, m),
            ({
                let n = x.ty.bytes();
                let da = self.cx.slot(self.cx.fname(), x.dst@)->0;
                let b = exec(st.rows, base, m);
                let a = exec(self.bin(st, x).rows, base, m);
                passes(b, a) && kept_but(b, a, da, n as int, self.scratch) && word(a, da, n)
                    == bin_value(x.op, self.word_of(b, x.a, n), self.right_of(b, x), n)
            }),
    {
        reveal(Gen::bin);
        let n = x.ty.bytes();
        let da = self.cx.slot(self.cx.fname(), x.dst@)->0;
        match x.op {
            BinOp::Add => self.lemma_add(st, x.a, x.b, da, n, base, m),
            BinOp::Sub => self.lemma_sub(st, x.a, x.b, da, n, base, m),
            BinOp::And | BinOp::Or | BinOp::Xor => self.lemma_bitwise(
                st,
                x.op,
                x.a,
                x.b,
                da,
                n,
                base,
                m,
            ),
            _ => self.lemma_shift(st, x, da, base, m),
        }
    }
}

} // verus!
