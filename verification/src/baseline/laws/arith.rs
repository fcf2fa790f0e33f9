//! What two-operand instructions compute.
use vstd::prelude::*;
use crate::baseline::Gen;
use crate::emit::{at, const_byte, f_op, movf, movlw, movwf, note_c, w_op, St};
use crate::ir::Val;
use crate::line::{BitOp, Op};
use crate::machine::{exec, group_exec, reached, wrap, Flow, Machine};
use crate::meaning::{apart, flag, kept, lemma_residue, limit, passes, word};

verus! {

impl<'a> Gen<'a> {
    /// Whether a byte is one of the fixed ones.
    pub open spec fn is_fixed(&self, x: u32) -> bool {
        x == self.scratch || x == self.tmp || x == self.tmp2 || (self.retval <= x && x < self.retval
            + 4)
    }

    /// Whether the run went on, and nothing changed but the `n` bytes at
    /// `dst`, the fixed bytes, W, the flags and the bank.
    pub open spec fn settled(&self, b: Machine, a: Machine, dst: u32, n: int) -> bool {
        passes(b, a) && forall|x: u32|
            (x < dst || x >= dst + n) && !self.is_fixed(x) ==> #[trigger] a.ram[x] == b.ram[x]
    }

    /// A staged byte, one more if the carry asks for it, in W.
    proof fn lemma_staged(&self, st: St, op: BitOp, base: int, m: Machine)
        requires
            self.at_row(st, base, m),
            self.fixed(),
            op == BitOp::Btfsc || op == BitOp::Btfss,
        ensures
            ({
                let s = st.emit(movwf(self.tmp)).emit(note_c(op)).emit(f_op(Op::Incf, self.tmp)).emit(
                    movf(self.tmp),
                );
                let b = exec(st.rows, base, m);
                let a = exec(s.rows, base, m);
                self.at_row(s, base, m) && passes(b, a) && kept(b, a, self.tmp, 1) && a.c == b.c
                    && a.w == wrap(b.w + flag(b.c == (op == BitOp::Btfsc)))
            }),
    {
        broadcast use group_exec;

    }

    /// The low byte of a sum.
    proof fn lemma_add_low(&self, st: St, ra: u32, bb: u32, dst: u32, base: int, m: Machine)
        requires
            self.at_row(st, base, m),
            self.sound(ra),
            self.sound(bb),
            self.sound(dst),
        ensures
            ({
                let s = self.w_store(self.acc_w(self.w_load(st, bb), Op::Addwf, ra), dst);
                let b = exec(st.rows, base, m);
                let a = exec(s.rows, base, m);
                self.at_row(s, base, m) && passes(b, a) && kept(b, a, dst, 1) && a.ram[dst] + 256
                    * flag(a.c) == b.ram[ra] + b.ram[bb]
            }),
    {
        let s1 = self.w_load(st, bb);
        self.lemma_w_load(st, bb, base, m);
        let s2 = self.acc_w(s1, Op::Addwf, ra);
        self.lemma_acc_w(s1, Op::Addwf, ra, base, m);
        self.lemma_w_store(s2, dst, base, m);
    }

    proof fn lemma_add16_regs(&self, st: St, ra: u32, bb: u32, dst: u32, base: int, m: Machine)
        requires
            self.at_row(st, base, m),
            self.fixed(),
            self.sound_bytes(ra, 2) && self.sound_bytes(bb, 2) && self.sound_bytes(dst, 2),
            self.spares(ra, 2) && self.spares(bb, 2) && self.spares(dst, 2),
            ra == dst || apart(ra, 2, dst, 2),
            bb == dst || apart(bb, 2, dst, 2),
        ensures
            ({
                let s = self.add16_regs(st, ra, bb, dst);
                let b = exec(st.rows, base, m);
                let a = exec(s.rows, base, m);
                self.at_row(s, base, m) && self.settled(b, a, dst, 2) && word(a, dst, 2) == (word(
                    b,
                    ra,
                    2,
                ) + word(b, bb, 2)) % limit(2)
            }),
    {
        let b = exec(st.rows, base, m);
        assert(at(ra, 0) == ra && at(bb, 0) == bb && at(dst, 0) == dst);
        assert(self.sound(at(ra, 0)) && self.sound(at(bb, 0)) && self.sound(at(dst, 0)));
        assert(self.sound(at(ra, 1)) && self.sound(at(bb, 1)) && self.sound(at(dst, 1)));
        let s3 = self.w_store(self.acc_w(self.w_load(st, bb), Op::Addwf, ra), dst);
        self.lemma_add_low(st, ra, bb, dst, base, m);
        let m3 = exec(s3.rows, base, m);
        let s4 = self.acc_w(s3, Op::Movf, at(bb, 1));
        self.lemma_acc_w(s3, Op::Movf, at(bb, 1), base, m);
        let s5 = s4.emit(movwf(self.tmp)).emit(note_c(BitOp::Btfsc)).emit(
            f_op(Op::Incf, self.tmp),
        ).emit(movf(self.tmp));
        self.lemma_staged(s4, BitOp::Btfsc, base, m);
        let m5 = exec(s5.rows, base, m);
        let s6 = self.acc_w(s5, Op::Addwf, at(ra, 1));
        self.lemma_acc_w(s5, Op::Addwf, at(ra, 1), base, m);
        let m6 = exec(s6.rows, base, m);
        self.lemma_w_store(s6, at(dst, 1), base, m);
        let a = exec(self.add16_regs(st, ra, bb, dst).rows, base, m);
        assert(m5.ram[at(ra, 1)] == b.ram[at(ra, 1)]);
        assert(a.ram[dst] == m3.ram[dst]);
        assert(a.ram[at(dst, 1)] == wrap(
            b.ram[at(ra, 1)] + wrap(b.ram[at(bb, 1)] + flag(m3.c)),
        ));
        lemma_wrapped(b.ram[at(ra, 1)] as int, b.ram[at(bb, 1)] as int, flag(m3.c));
        lemma_two_bytes(
            a.ram[dst] as int,
            a.ram[at(dst, 1)] as int,
            m3.c,
            b.ram[ra] as int,
            b.ram[at(ra, 1)] as int,
            b.ram[bb] as int,
            b.ram[at(bb, 1)] as int,
        );
        assert forall|x: u32| (x < dst || x >= dst + 2) && !self.is_fixed(x) implies #[trigger] a.ram[x]
            == b.ram[x] by {
            assert(m3.ram[x] == b.ram[x]);
            assert(m5.ram[x] == m3.ram[x]);
        }
    }

    /// The low byte of a sum with a constant.
    proof fn lemma_add_const_low(&self, st: St, ra: u32, k: u8, dst: u32, base: int, m: Machine)
        requires
            self.at_row(st, base, m),
            self.fixed(),
            self.sound(ra),
            self.sound(dst),
            dst != self.tmp,
        ensures
            ({
                let s = self.w_store(
                    self.acc_w(st, Op::Movf, ra).emit(movwf(self.tmp)).emit(movlw(k)).emit(
                        w_op(Op::Addwf, self.tmp),
                    ),
                    dst,
                );
                let b = exec(st.rows, base, m);
                let a = exec(s.rows, base, m);
                self.at_row(s, base, m) && self.settled(b, a, dst, 1) && a.ram[dst] + 256 * flag(
                    a.c,
                ) == b.ram[ra] + k && forall|x: u32|
                    x != dst && x != self.tmp ==> #[trigger] a.ram[x] == b.ram[x]
            }),
    {
        let b = exec(st.rows, base, m);
        let s1 = self.acc_w(st, Op::Movf, ra);
        self.lemma_acc_w(st, Op::Movf, ra, base, m);
        let s2 = s1.emit(movwf(self.tmp)).emit(movlw(k)).emit(w_op(Op::Addwf, self.tmp));
        let m2 = exec(s2.rows, base, m);
        assert(self.at_row(s2, base, m) && passes(b, m2) && kept(b, m2, self.tmp, 1) && m2.w + 256
            * flag(m2.c) == b.ram[ra] + k) by {
            broadcast use group_exec;

        }
        self.lemma_w_store(s2, dst, base, m);
        let a = exec(self.w_store(s2, dst).rows, base, m);
        assert forall|x: u32| x != dst && x != self.tmp implies #[trigger] a.ram[x] == b.ram[x] by {
            assert(m2.ram[x] == b.ram[x]);
        }
    }

    proof fn lemma_add16_const(&self, st: St, ra: u32, k: i64, dst: u32, base: int, m: Machine)
        requires
            self.at_row(st, base, m),
            self.fixed(),
            self.sound_bytes(ra, 2) && self.sound_bytes(dst, 2),
            self.spares(ra, 2) && self.spares(dst, 2),
            ra == dst || apart(ra, 2, dst, 2),
        ensures
            ({
                let s = self.add16_const(st, ra, k, dst);
                let b = exec(st.rows, base, m);
                let a = exec(s.rows, base, m);
                self.at_row(s, base, m) && self.settled(b, a, dst, 2) && word(a, dst, 2) == (word(
                    b,
                    ra,
                    2,
                ) + const_byte(k, 0) + 256 * const_byte(k, 1)) % limit(2)
            }),
    {
        let b = exec(st.rows, base, m);
        let k0 = const_byte(k, 0);
        let k1 = const_byte(k, 1);
        assert(at(ra, 0) == ra && at(dst, 0) == dst);
        assert(self.sound(at(ra, 0)) && self.sound(at(dst, 0)));
        assert(self.sound(at(ra, 1)) && self.sound(at(dst, 1)));
        let s3 = self.w_store(
            self.acc_w(st, Op::Movf, ra).emit(movwf(self.tmp)).emit(movlw(k0)).emit(
                w_op(Op::Addwf, self.tmp),
            ),
            dst,
        );
        self.lemma_add_const_low(st, ra, k0, dst, base, m);
        let m3 = exec(s3.rows, base, m);
        let s4 = self.acc_w(s3, Op::Movf, at(ra, 1));
        self.lemma_acc_w(s3, Op::Movf, at(ra, 1), base, m);
        let m4 = exec(s4.rows, base, m);
        let s5 = s4.emit(movwf(self.tmp)).emit(note_c(BitOp::Btfsc)).emit(
            f_op(Op::Incf, self.tmp),
        ).emit(movlw(k1)).emit(w_op(Op::Addwf, self.tmp));
        let m5 = exec(s5.rows, base, m);
        assert(self.at_row(s5, base, m) && passes(m4, m5) && kept(m4, m5, self.tmp, 1) && m5.w
            == wrap(wrap(m4.w + flag(m4.c)) + k1)) by {
            broadcast use group_exec;

        }
        self.lemma_w_store(s5, at(dst, 1), base, m);
        let a = exec(self.add16_const(st, ra, k, dst).rows, base, m);
        assert(m4.w == b.ram[at(ra, 1)]);
        assert(a.ram[dst] == m3.ram[dst]);
        lemma_wrapped(k1 as int, b.ram[at(ra, 1)] as int, flag(m3.c));
        lemma_two_bytes(
            a.ram[dst] as int,
            a.ram[at(dst, 1)] as int,
            m3.c,
            b.ram[ra] as int,
            b.ram[at(ra, 1)] as int,
            k0 as int,
            k1 as int,
        );
        assert forall|x: u32| (x < dst || x >= dst + 2) && !self.is_fixed(x) implies #[trigger] a.ram[x]
            == b.ram[x] by {
            assert(m3.ram[x] == b.ram[x]);
            assert(m5.ram[x] == m4.ram[x]);
        }
    }

    /// Whether the operands of an instruction can be read for a result at
    /// `dst`, and are not both constants.
    pub open spec fn operands(&self, a: Val, b: Val, dst: u32, n: u8) -> bool {
        self.usable(a, dst, n) && self.usable(b, dst, n) && !(a is Const && b is Const)
    }

    pub(crate) proof fn lemma_add16(&self, st: St, x: Val, y: Val, dst: u32, base: int, m: Machine)
        requires
            self.at_row(st, base, m),
            self.operands(x, y, dst, 2),
        ensures
            ({
                let s = self.add16(st, x, y, dst);
                let b = exec(st.rows, base, m);
                let a = exec(s.rows, base, m);
                self.at_row(s, base, m) && self.settled(b, a, dst, 2) && word(a, dst, 2) == (
                self.word_of(b, x, 2) + self.word_of(b, y, 2)) % limit(2)
            }),
    {
        match (x, y) {
            (Val::Reg(_), Val::Const(k)) => {
                self.lemma_add16_const(st, self.slot_of(x)->0, k, dst, base, m);
            },
            (Val::Reg(_), Val::Reg(_)) => {
                self.lemma_add16_regs(
                    st,
                    self.slot_of(x)->0,
                    self.slot_of(y)->0,
                    dst,
                    base,
                    m,
                );
            },
            (Val::Const(k), Val::Reg(_)) => {
                self.lemma_add16_const(st, self.slot_of(y)->0, k, dst, base, m);
            },
            _ => {},
        }
    }

    pub(crate) proof fn lemma_add8(&self, st: St, x: Val, y: Val, dst: u32, base: int, m: Machine)
        requires
            self.at_row(st, base, m),
            self.operands(x, y, dst, 1),
        ensures
            ({
                let s = self.add8(st, x, y, dst);
                let b = exec(st.rows, base, m);
                let a = exec(s.rows, base, m);
                self.at_row(s, base, m) && self.settled(b, a, dst, 1) && word(a, dst, 1) == (
                self.word_of(b, x, 1) + self.word_of(b, y, 1)) % limit(1)
            }),
    {
        assert(at(dst, 0) == dst && self.sound(at(dst, 0)));
        let b = exec(st.rows, base, m);
        match (x, y) {
            (Val::Reg(_), Val::Const(k)) => {
                let ra = self.slot_of(x)->0;
                assert(at(ra, 0) == ra && self.sound(at(ra, 0)));
                self.lemma_add_const_low(st, ra, const_byte(k, 0), dst, base, m);
            },
            (Val::Const(k), Val::Reg(_)) => {
                let ra = self.slot_of(y)->0;
                assert(at(ra, 0) == ra && self.sound(at(ra, 0)));
                self.lemma_add_const_low(st, ra, const_byte(k, 0), dst, base, m);
            },
            (Val::Reg(_), Val::Reg(_)) => {
                let ra = self.slot_of(x)->0;
                let bb = self.slot_of(y)->0;
                assert(at(ra, 0) == ra && self.sound(at(ra, 0)));
                assert(at(bb, 0) == bb && self.sound(at(bb, 0)));
                let s1 = self.acc_w(st, Op::Movf, bb);
                self.lemma_acc_w(st, Op::Movf, bb, base, m);
                let s2 = self.acc_w(s1, Op::Addwf, ra);
                self.lemma_acc_w(s1, Op::Addwf, ra, base, m);
                self.lemma_w_store(s2, dst, base, m);
            },
            _ => {},
        }
        let a = exec(self.add8(st, x, y, dst).rows, base, m);
        lemma_residue(word(a, dst, 1), self.word_of(b, x, 1) + self.word_of(b, y, 1), 1);
    }

    /// The low byte of a difference, the subtrahend in W.
    proof fn lemma_sub_low(&self, st: St, aa: u32, dst: u32, base: int, m: Machine)
        requires
            self.at_row(st, base, m),
            self.sound(aa),
            self.sound(dst),
        ensures
            ({
                let s = self.w_store(self.acc_w(st, Op::Subwf, aa), dst);
                let b = exec(st.rows, base, m);
                let a = exec(s.rows, base, m);
                self.at_row(s, base, m) && passes(b, a) && kept(b, a, dst, 1) && a.ram[dst] - 256
                    * flag(!a.c) == b.ram[aa] - b.w
            }),
    {
        let s1 = self.acc_w(st, Op::Subwf, aa);
        self.lemma_acc_w(st, Op::Subwf, aa, base, m);
        self.lemma_w_store(s1, dst, base, m);
    }

    proof fn lemma_sub16_high(&self, st: St, aa: u32, dst: u32, base: int, m: Machine)
        requires
            self.at_row(st, base, m),
            self.fixed(),
            self.sound(at(aa, 1)),
            self.sound(at(dst, 1)),
            at(aa, 1) != self.tmp,
        ensures
            ({
                let s = self.sub16_high(st, aa, dst);
                let b = exec(st.rows, base, m);
                let a = exec(s.rows, base, m);
                self.at_row(s, base, m) && passes(b, a) && a.ram[at(dst, 1)] == (b.ram[at(aa, 1)]
                    - b.w - flag(!b.c)) % 256 && forall|x: u32|
                    x != at(dst, 1) && x != self.tmp ==> #[trigger] a.ram[x] == b.ram[x]
            }),
    {
        let b = exec(st.rows, base, m);
        let s1 = st.emit(movwf(self.tmp)).emit(note_c(BitOp::Btfss)).emit(
            f_op(Op::Incf, self.tmp),
        ).emit(movf(self.tmp));
        self.lemma_staged(st, BitOp::Btfss, base, m);
        let s2 = self.acc_w(s1, Op::Subwf, at(aa, 1));
        self.lemma_acc_w(s1, Op::Subwf, at(aa, 1), base, m);
        self.lemma_w_store(s2, at(dst, 1), base, m);
        let m1 = exec(s1.rows, base, m);
        assert(m1.ram[at(aa, 1)] == b.ram[at(aa, 1)]);
        let a = exec(self.sub16_high(st, aa, dst).rows, base, m);
        assert forall|x: u32| x != at(dst, 1) && x != self.tmp implies #[trigger] a.ram[x]
            == b.ram[x] by {
            assert(m1.ram[x] == b.ram[x]);
        }
    }

    pub(crate) proof fn lemma_sub16(&self, st: St, x: Val, y: Val, dst: u32, base: int, m: Machine)
        requires
            self.at_row(st, base, m),
            self.operands(x, y, dst, 2),
            !(x is Const),
        ensures
            ({
                let s = self.sub16(st, x, y, dst);
                let b = exec(st.rows, base, m);
                let a = exec(s.rows, base, m);
                self.at_row(s, base, m) && self.settled(b, a, dst, 2) && word(a, dst, 2) == (
                self.word_of(b, x, 2) - self.word_of(b, y, 2)) % limit(2)
            }),
    {
        let b = exec(st.rows, base, m);
        let aa = self.slot_of(x)->0;
        assert(at(aa, 0) == aa && at(dst, 0) == dst);
        assert(self.sound(at(aa, 0)) && self.sound(at(dst, 0)));
        assert(self.sound(at(aa, 1)) && self.sound(at(dst, 1)));
        let s1 = match y {
            Val::Const(k) => st.emit(movlw(const_byte(k, 0))),
            _ => self.acc_w(st, Op::Movf, self.slot_of(y)->0),
        };
        match y {
            Val::Const(k) => {
                assert({
                    let m1 = exec(s1.rows, base, m);
                    self.at_row(s1, base, m) && passes(b, m1) && m1.ram == b.ram && m1.w
                        == const_byte(k, 0)
                }) by {
                    broadcast use group_exec;

                }
            },
            _ => {
                let bb = self.slot_of(y)->0;
                assert(at(bb, 0) == bb && self.sound(at(bb, 0)));
                self.lemma_acc_w(st, Op::Movf, bb, base, m);
            },
        }
        let s2 = self.w_store(self.acc_w(s1, Op::Subwf, aa), dst);
        self.lemma_sub_low(s1, aa, dst, base, m);
        let m2 = exec(s2.rows, base, m);
        let s3 = match y {
            Val::Const(k) => s2.emit(movlw(const_byte(k, 1))),
            _ => self.acc_w(s2, Op::Movf, at(self.slot_of(y)->0, 1)),
        };
        match y {
            Val::Const(k) => {
                assert({
                    let m3 = exec(s3.rows, base, m);
                    self.at_row(s3, base, m) && passes(m2, m3) && m3.ram == m2.ram && m3.w
                        == const_byte(k, 1) && m3.c == m2.c
                }) by {
                    broadcast use group_exec;

                }
            },
            _ => {
                let bb = self.slot_of(y)->0;
                assert(self.sound(at(bb, 1)));
                self.lemma_acc_w(s2, Op::Movf, at(bb, 1), base, m);
            },
        }
        let m3 = exec(s3.rows, base, m);
        self.lemma_sub16_high(s3, aa, dst, base, m);
        let a = exec(self.sub16(st, x, y, dst).rows, base, m);
        assert(m3.ram[at(aa, 1)] == b.ram[at(aa, 1)]);
        assert(a.ram[dst] == m2.ram[dst]);
        lemma_two_bytes_less(
            a.ram[dst] as int,
            a.ram[at(dst, 1)] as int,
            m2.c,
            b.ram[aa] as int,
            b.ram[at(aa, 1)] as int,
            self.byte_of(b, y, 0) as int,
            self.byte_of(b, y, 1) as int,
        );
        assert forall|z: u32| (z < dst || z >= dst + 2) && !self.is_fixed(z) implies #[trigger] a.ram[z]
            == b.ram[z] by {
            assert(m2.ram[z] == b.ram[z]);
        }
    }

    pub(crate) proof fn lemma_sub8(&self, st: St, x: Val, y: Val, dst: u32, base: int, m: Machine)
        requires
            self.at_row(st, base, m),
            self.operands(x, y, dst, 1),
            !(x is Const),
        ensures
            ({
                let s = self.sub8(st, x, y, dst);
                let b = exec(st.rows, base, m);
                let a = exec(s.rows, base, m);
                self.at_row(s, base, m) && self.settled(b, a, dst, 1) && word(a, dst, 1) == (
                self.word_of(b, x, 1) - self.word_of(b, y, 1)) % limit(1)
            }),
    {
        let b = exec(st.rows, base, m);
        let aa = self.slot_of(x)->0;
        assert(at(aa, 0) == aa && at(dst, 0) == dst);
        assert(self.sound(at(aa, 0)) && self.sound(at(dst, 0)));
        let s1 = match y {
            Val::Const(k) => st.emit(movlw(const_byte(k, 0))),
            _ => self.acc_w(st, Op::Movf, self.slot_of(y)->0),
        };
        match y {
            Val::Const(k) => {
                assert({
                    let m1 = exec(s1.rows, base, m);
                    self.at_row(s1, base, m) && passes(b, m1) && m1.ram == b.ram && m1.w
                        == const_byte(k, 0)
                }) by {
                    broadcast use group_exec;

                }
            },
            _ => {
                let bb = self.slot_of(y)->0;
                assert(at(bb, 0) == bb && self.sound(at(bb, 0)));
                self.lemma_acc_w(st, Op::Movf, bb, base, m);
            },
        }
        self.lemma_sub_low(s1, aa, dst, base, m);
        let a = exec(self.sub8(st, x, y, dst).rows, base, m);
        lemma_residue(word(a, dst, 1), self.word_of(b, x, 1) - self.word_of(b, y, 1), 1);
    }

    /// The high byte of a constant less a number.
    proof fn lemma_sub_const_high(
        &self,
        st: St,
        k: u8,
        aa: u32,
        dst: u32,
        base: int,
        m: Machine,
    )
        requires
            self.at_row(st, base, m),
            self.fixed(),
            self.sound(aa),
            self.sound(dst),
            dst != self.scratch,
        ensures
            ({
                let s1 = self.w_store(
                    self.acc_w(st, Op::Movf, aa).emit(movwf(self.scratch)).emit(movlw(k)),
                    dst,
                ).emit(movf(self.scratch)).emit(note_c(BitOp::Btfss)).emit(
                    w_op(Op::Incfsz, self.scratch),
                );
                let s = self.op_f(s1, Op::Subwf, dst);
                let b = exec(st.rows, base, m);
                let a = exec(s.rows, base, m);
                self.at_row(s, base, m) && passes(b, a) && a.ram[dst] == (k - b.ram[aa] - flag(
                    !b.c,
                )) % 256 && forall|x: u32|
                    x != dst && x != self.scratch ==> #[trigger] a.ram[x] == b.ram[x]
            }),
    {
        let b = exec(st.rows, base, m);
        let s1 = self.acc_w(st, Op::Movf, aa);
        self.lemma_acc_w(st, Op::Movf, aa, base, m);
        let s2 = s1.emit(movwf(self.scratch)).emit(movlw(k));
        let m2 = exec(s2.rows, base, m);
        assert(self.at_row(s2, base, m) && passes(b, m2) && m2.ram == b.ram.insert(
            self.scratch,
            b.ram[aa],
        ) && m2.w == k && m2.c == b.c) by {
            broadcast use group_exec;

        }
        let s3 = self.w_store(s2, dst);
        self.lemma_w_store(s2, dst, base, m);
        let m3 = exec(s3.rows, base, m);
        assert(m3.ram[self.scratch] == b.ram[aa] && m3.ram[dst] == k);
        self.lemma_fold_into(s3, dst, base, m);
        let s4 = s3.emit(movf(self.scratch)).emit(note_c(BitOp::Btfss)).emit(
            w_op(Op::Incfsz, self.scratch),
        );
        let a = exec(self.op_f(s4, Op::Subwf, dst).rows, base, m);
        assert forall|x: u32| x != dst && x != self.scratch implies #[trigger] a.ram[x]
            == b.ram[x] by {
            assert(m3.ram[x] == m2.ram[x]);
        }
    }

    /// The comparison byte, a borrow folded in, taken from the byte at `dst`.
    proof fn lemma_fold_into(&self, st: St, dst: u32, base: int, m: Machine)
        requires
            self.at_row(st, base, m),
            self.fixed(),
            dst != self.scratch,
            self.reg_of(dst) is Some,
            reached(exec(st.rows, base, m), self.reg_of(dst)->0) == dst,
        ensures
            ({
                let s1 = st.emit(movf(self.scratch)).emit(note_c(BitOp::Btfss)).emit(
                    w_op(Op::Incfsz, self.scratch),
                );
                let s = self.op_f(s1, Op::Subwf, dst);
                let b = exec(st.rows, base, m);
                let a = exec(s.rows, base, m);
                self.at_row(s, base, m) && passes(b, a) && kept(b, a, dst, 1) && a.ram[dst] == (
                b.ram[dst] - b.ram[self.scratch] - flag(!b.c)) % 256
            }),
    {
        let b = exec(st.rows, base, m);
        let s1 = st.emit(movf(self.scratch)).emit(note_c(BitOp::Btfss)).emit(
            w_op(Op::Incfsz, self.scratch),
        );
        let c = exec(s1.rows, base, m);
        let v = b.ram[self.scratch];
        let zero = !b.c && v == 255;
        assert(c == (Machine {
            w: wrap(v + flag(!b.c)),
            z: c.z,
            flow: if zero {
                Flow::Skip
            } else {
                Flow::Next
            },
            cycles: c.cycles,
            ..b
        })) by {
            broadcast use group_exec;

        }
        assert(reached(c, self.reg_of(dst)->0) == dst);
        let s = self.op_f(s1, Op::Subwf, dst);
        let a = exec(s.rows, base, m);
        assert(self.at_row(s, base, m) && passes(b, a) && kept(c, a, dst, 1) && a.ram[dst] == (
        if zero {
            b.ram[dst]
        } else {
            wrap(b.ram[dst] - c.w)
        })) by {
            broadcast use group_exec;

        }
    }

    pub(crate) proof fn lemma_sub_const(
        &self,
        st: St,
        k: i64,
        y: Val,
        dst: u32,
        n: u8,
        base: int,
        m: Machine,
    )
        requires
            self.at_row(st, base, m),
            n == 1 || n == 2,
            self.operands(Val::Const(k), y, dst, n),
        ensures
            ({
                let s = self.sub_const_lhs(st, k, y, dst, n);
                let b = exec(st.rows, base, m);
                let a = exec(s.rows, base, m);
                self.at_row(s, base, m) && self.settled(b, a, dst, n as int) && word(a, dst, n) == (
                self.word_of(b, Val::Const(k), n) - self.word_of(b, y, n)) % limit(n)
            }),
    {
        reveal_with_fuel(Gen::sub_const_from, 3);
        let b = exec(st.rows, base, m);
        let aa = self.slot_of(y)->0;
        let k0 = const_byte(k, 0);
        let k1 = const_byte(k, 1);
        assert(at(aa, 0) == aa && at(dst, 0) == dst);
        assert(self.sound(at(aa, 0)) && self.sound(at(dst, 0)));
        let s1 = st.emit(movlw(k0)).emit(movwf(self.tmp));
        let m1 = exec(s1.rows, base, m);
        assert(self.at_row(s1, base, m) && passes(b, m1) && m1.ram == b.ram.insert(
            self.tmp,
            k0,
        )) by {
            broadcast use group_exec;

        }
        let s2 = self.acc_w(s1, Op::Movf, aa);
        self.lemma_acc_w(s1, Op::Movf, aa, base, m);
        let m2 = exec(s2.rows, base, m);
        let s3 = s2.emit(w_op(Op::Subwf, self.tmp));
        let m3 = exec(s3.rows, base, m);
        assert(self.at_row(s3, base, m) && passes(m2, m3) && m3.ram == m2.ram && m3.w - 256 * flag(
            !m3.c,
        ) == k0 - m2.w) by {
            broadcast use group_exec;

        }
        let s4 = self.w_store(s3, dst);
        self.lemma_w_store(s3, dst, base, m);
        let m4 = exec(s4.rows, base, m);
        assert(m2.w == b.ram[aa]);
        if n == 1 {
            assert(self.sub_const_lhs(st, k, y, dst, n) == s4);
            lemma_residue(
                word(m4, dst, 1),
                self.word_of(b, Val::Const(k), 1) - self.word_of(b, y, 1),
                1,
            );
        } else {
            assert(self.sound(at(aa, 1)) && self.sound(at(dst, 1)));
            self.lemma_sub_const_high(s4, k1, at(aa, 1), at(dst, 1), base, m);
            let a = exec(self.sub_const_lhs(st, k, y, dst, n).rows, base, m);
            assert(m4.ram[at(aa, 1)] == b.ram[at(aa, 1)]);
            lemma_two_bytes_less(
                a.ram[dst] as int,
                a.ram[at(dst, 1)] as int,
                m4.c,
                k0 as int,
                k1 as int,
                b.ram[aa] as int,
                b.ram[at(aa, 1)] as int,
            );
        }
    }
}

/// Two wrapped additions in a row.
proof fn lemma_wrapped(x: int, y: int, c: int)
    requires
        0 <= x < 256,
        0 <= y < 256,
        0 <= c <= 1,
    ensures
        wrap(x + wrap(y + c)) == (x + y + c) % 256,
{
}

/// Two bytes of a sum.
proof fn lemma_two_bytes(r0: int, r1: int, c: bool, x0: int, x1: int, y0: int, y1: int)
    requires
        0 <= r0 < 256,
        0 <= x0 < 256,
        0 <= x1 < 256,
        0 <= y0 < 256,
        0 <= y1 < 256,
        r0 + 256 * flag(c) == x0 + y0,
        r1 == (x1 + y1 + flag(c)) % 256,
    ensures
        r0 + 256 * r1 == (x0 + 256 * x1 + y0 + 256 * y1) % 0x1_0000,
{
}

/// Two bytes of a difference.
proof fn lemma_two_bytes_less(r0: int, r1: int, c: bool, x0: int, x1: int, y0: int, y1: int)
    requires
        0 <= r0 < 256,
        0 <= x0 < 256,
        0 <= x1 < 256,
        0 <= y0 < 256,
        0 <= y1 < 256,
        r0 - 256 * flag(!c) == x0 - y0,
        r1 == (x1 - y1 - flag(!c)) % 256,
    ensures
        r0 + 256 * r1 == (x0 + 256 * x1 - (y0 + 256 * y1)) % 0x1_0000,
{
}

} // verus!
