//! What comparisons compute.
use vstd::prelude::*;
use crate::baseline::Gen;
use crate::emit::{at, const_byte, movf, movlw, movwf, note_c, w_op, St};
use crate::ir::{Icmp, Pred, Ty, Val};
use crate::line::{BitOp, Op};
use crate::machine::{exec, group_exec, reached, Machine};
use crate::meaning::{flag, flipped, holds, kept, lemma_flip, passes, signed, word};
use crate::shape::{cond_of, is_signed, needs_z, ordered_byte, Cond};

verus! {

impl<'a> Gen<'a> {
    /// Whether nothing but the fixed bytes changed in RAM.
    pub open spec fn keeps(&self, before: Machine, after: Machine) -> bool {
        forall|x: u32| !self.is_fixed(x) ==> #[trigger] after.ram[x] == before.ram[x]
    }

    /// Whether an operand of `n` bytes is plain and apart from the fixed
    /// bytes.
    pub open spec fn readable(&self, v: Val, n: u8) -> bool {
        &&& self.fixed()
        &&& self.plain(v, n)
        &&& self.slot_of(v) matches Some(a) ==> self.spares(a, n as int)
    }

    proof fn lemma_load_ordered(
        &self,
        st: St,
        v: Val,
        n: u8,
        i: u8,
        sgn: bool,
        high: u8,
        base: int,
        m: Machine,
    )
        requires
            self.at_row(st, base, m),
            self.plain(v, n),
            i < n,
        ensures
            ({
                let s = self.load_ordered(st, v, i, sgn, high);
                let b = exec(st.rows, base, m);
                let a = exec(s.rows, base, m);
                self.at_row(s, base, m) && passes(b, a) && a.w == flipped(
                    self.byte_of(b, v, i),
                    sgn && i == high,
                ) && a.ram == b.ram && a.c == b.c
            }),
    {
        let b = exec(st.rows, base, m);
        match v {
            Val::Const(k) => {
                broadcast use group_exec;

            },
            _ => {
                let a = at(self.slot_of(v)->0, i);
                assert(self.sound(a));
                if sgn && i == high {
                    let s1 = st.emit(movlw(0x80));
                    assert({
                        let c = exec(s1.rows, base, m);
                        self.at_row(s1, base, m) && passes(b, c) && c.ram == b.ram && c.c == b.c
                            && c.w == 0x80
                    }) by {
                        broadcast use group_exec;

                    }
                    self.lemma_acc_w(s1, Op::Xorwf, a, base, m);
                } else {
                    self.lemma_acc_w(st, Op::Movf, a, base, m);
                }
            },
        }
    }

    /// The difference of two bytes, a borrow folded into the one in `stage`.
    proof fn lemma_fold_sub(&self, st: St, stage: u32, f: u32, base: int, m: Machine)
        requires
            self.at_row(st, base, m),
            stage < 16,
            f < 16,
            exec(st.rows, base, m).w == exec(st.rows, base, m).ram[stage],
        ensures
            ({
                let s = st.emit(note_c(BitOp::Btfss)).emit(w_op(Op::Incfsz, stage)).emit(
                    w_op(Op::Subwf, f),
                );
                let b = exec(st.rows, base, m);
                let a = exec(s.rows, base, m);
                self.at_row(s, base, m) && passes(b, a) && a.ram == b.ram && a.c == (b.ram[f] >= b.w
                    + flag(!b.c))
            }),
    {
        broadcast use group_exec;

    }

    /// The sign bytes: that of the first operand beside that of the second.
    proof fn lemma_sign_byte(&self, st: St, f: u32, base: int, m: Machine)
        requires
            self.at_row(st, base, m),
            self.fixed(),
            self.sound(f),
            !self.is_fixed(f),
        ensures
            ({
                let s = self.acc_w(
                    st.emit(movwf(self.retval)).emit(movlw(0x80)),
                    Op::Xorwf,
                    f,
                ).emit(movwf(self.scratch)).emit(movf(self.retval)).emit(note_c(BitOp::Btfss)).emit(
                    w_op(Op::Incfsz, self.retval),
                ).emit(w_op(Op::Subwf, self.scratch));
                let b = exec(st.rows, base, m);
                let a = exec(s.rows, base, m);
                self.at_row(s, base, m) && passes(b, a) && self.keeps(b, a) && a.c == (flipped(
                    b.ram[f],
                    true,
                ) >= b.w + flag(!b.c))
            }),
    {
        let b = exec(st.rows, base, m);
        let s1 = st.emit(movwf(self.retval)).emit(movlw(0x80));
        let m1 = exec(s1.rows, base, m);
        assert(self.at_row(s1, base, m) && passes(b, m1) && m1.ram == b.ram.insert(
            self.retval,
            b.w,
        ) && m1.w == 0x80 && m1.c == b.c) by {
            broadcast use group_exec;

        }
        let s2 = self.acc_w(s1, Op::Xorwf, f);
        self.lemma_acc_w(s1, Op::Xorwf, f, base, m);
        let m2 = exec(s2.rows, base, m);
        let s3 = s2.emit(movwf(self.scratch)).emit(movf(self.retval));
        let m3 = exec(s3.rows, base, m);
        assert(self.at_row(s3, base, m) && passes(m2, m3) && m3.ram == m2.ram.insert(
            self.scratch,
            m2.w,
        ) && m3.w == b.w && m3.c == b.c) by {
            broadcast use group_exec;

        }
        self.lemma_fold_sub(s3, self.retval, self.scratch, base, m);
    }

    /// Another byte: the subtrahend staged, the bank set before the skip.
    proof fn lemma_plain_byte(&self, st: St, stage: u32, f: u32, base: int, m: Machine)
        requires
            self.at_row(st, base, m),
            stage < 16,
            self.sound(f),
            f != stage,
        ensures
            ({
                let s = self.op_w(
                    self.bank(st.emit(movwf(stage)), f).emit(note_c(BitOp::Btfss)).emit(
                        w_op(Op::Incfsz, stage),
                    ),
                    Op::Subwf,
                    f,
                );
                let b = exec(st.rows, base, m);
                let a = exec(s.rows, base, m);
                self.at_row(s, base, m) && passes(b, a) && kept(b, a, stage, 1) && a.c == (b.ram[f]
                    >= b.w + flag(!b.c))
            }),
    {
        let b = exec(st.rows, base, m);
        let s1 = st.emit(movwf(stage));
        let m1 = exec(s1.rows, base, m);
        assert(self.at_row(s1, base, m) && passes(b, m1) && m1.ram == b.ram.insert(stage, b.w)
            && m1.w == b.w && m1.c == b.c) by {
            broadcast use group_exec;

        }
        let s2 = self.bank(s1, f);
        self.lemma_bank(s1, f, base, m);
        let m2 = exec(s2.rows, base, m);
        let r = self.reg_of(f)->0;
        assert(reached(m2, r) == f);
        let s = self.op_w(
            s2.emit(note_c(BitOp::Btfss)).emit(w_op(Op::Incfsz, stage)),
            Op::Subwf,
            f,
        );
        let a = exec(s.rows, base, m);
        assert(self.at_row(s, base, m) && passes(m2, a) && a.ram == m2.ram && a.c == (m2.ram[f]
            >= m2.ram[stage] + flag(!m2.c))) by {
            broadcast use group_exec;

        }
    }

    proof fn lemma_file_byte(
        &self,
        st: St,
        aa: u32,
        y: Val,
        n: u8,
        sgn: bool,
        i: u8,
        base: int,
        m: Machine,
    )
        requires
            self.at_row(st, base, m),
            self.readable(y, n),
            self.sound_bytes(aa, n),
            self.spares(aa, n as int),
            0 < i < n,
            n <= 4,
        ensures
            ({
                let high = (n - 1) as u8;
                let s = self.file_byte(st, aa, y, high, sgn, i);
                let b = exec(st.rows, base, m);
                let a = exec(s.rows, base, m);
                let top = sgn && i == high;
                self.at_row(s, base, m) && passes(b, a) && self.keeps(b, a) && a.c == (flipped(
                    b.ram[at(aa, i)],
                    top,
                ) >= flipped(self.byte_of(b, y, i), top) + flag(!b.c))
            }),
    {
        let high = (n - 1) as u8;
        let f = at(aa, i);
        assert(self.sound(f));
        let s1 = self.load_ordered(st, y, i, sgn, high);
        self.lemma_load_ordered(st, y, n, i, sgn, high, base, m);
        if sgn && i == high {
            self.lemma_sign_byte(s1, f, base, m);
        } else {
            let stage = match y {
                Val::Const(_) => self.scratch,
                _ => self.tmp2,
            };
            self.lemma_plain_byte(s1, stage, f, base, m);
        }
    }

    #[verifier::rlimit(50)]
    proof fn lemma_lit_byte(
        &self,
        st: St,
        k: u8,
        y: Val,
        n: u8,
        sgn: bool,
        i: u8,
        base: int,
        m: Machine,
    )
        requires
            self.at_row(st, base, m),
            self.readable(y, n),
            i < n,
        ensures
            ({
                let high = (n - 1) as u8;
                let s = self.lit_byte(st, k, y, high, sgn, i);
                let b = exec(st.rows, base, m);
                let a = exec(s.rows, base, m);
                self.at_row(s, base, m) && passes(b, a) && self.keeps(b, a) && a.c == (k >= flipped(
                    self.byte_of(b, y, i),
                    sgn && i == high,
                ) + flag(!b.c))
            }),
    {
        let high = (n - 1) as u8;
        let s1 = self.load_ordered(st, y, i, sgn, high);
        self.lemma_load_ordered(st, y, n, i, sgn, high, base, m);
        let c = exec(s1.rows, base, m);
        let s = self.lit_byte(st, k, y, high, sgn, i);
        let a = exec(s.rows, base, m);
        assert(self.at_row(s, base, m) && passes(c, a) && self.keeps(c, a) && a.c == (k >= c.w
            + flag(!c.c))) by {
            broadcast use group_exec;

        }
    }

    /// The first byte of a constant.
    proof fn lemma_const_low(
        &self,
        st: St,
        k: i64,
        y: Val,
        n: u8,
        sgn: bool,
        base: int,
        m: Machine,
    )
        requires
            self.at_row(st, base, m),
            self.readable(y, n),
            0 < n,
        ensures
            ({
                let high = (n - 1) as u8;
                let s = self.const_low(st, k, y, sgn, high);
                let b = exec(st.rows, base, m);
                let a = exec(s.rows, base, m);
                let v = flipped(self.byte_of(b, y, 0), sgn && 0 == high);
                let w = ordered_byte(k, 0, sgn, high);
                self.at_row(s, base, m) && passes(b, a) && self.keeps(b, a) && a.c == (w >= v) && a.z
                    == (w == v)
            }),
    {
        let high = (n - 1) as u8;
        let s1 = self.load_ordered(st, y, 0, sgn, high);
        self.lemma_load_ordered(st, y, n, 0, sgn, high, base, m);
        let c = exec(s1.rows, base, m);
        let s = self.const_low(st, k, y, sgn, high);
        let a = exec(s.rows, base, m);
        let w = ordered_byte(k, 0, sgn, high);
        assert(self.at_row(s, base, m) && passes(c, a) && self.keeps(c, a) && a.c == (w >= c.w)
            && a.z == (w == c.w)) by {
            broadcast use group_exec;

        }
    }

    /// The first byte, the first operand in memory.
    proof fn lemma_file_low(
        &self,
        st: St,
        f: u32,
        y: Val,
        n: u8,
        sgn: bool,
        base: int,
        m: Machine,
    )
        requires
            self.at_row(st, base, m),
            self.plain(y, n),
            0 < n,
            self.sound(f),
        ensures
            ({
                let high = (n - 1) as u8;
                let s = self.acc_w(self.load_ordered(st, y, 0, sgn, high), Op::Subwf, f);
                let b = exec(st.rows, base, m);
                let a = exec(s.rows, base, m);
                let v = flipped(self.byte_of(b, y, 0), sgn && 0 == high);
                self.at_row(s, base, m) && passes(b, a) && a.ram == b.ram && a.c == (b.ram[f] >= v)
                    && a.z == (b.ram[f] == v)
            }),
    {
        let high = (n - 1) as u8;
        let s1 = self.load_ordered(st, y, 0, sgn, high);
        self.lemma_load_ordered(st, y, n, 0, sgn, high, base, m);
        self.lemma_acc_w(s1, Op::Subwf, f, base, m);
    }

    proof fn lemma_stage_first(&self, st: St, f: u32, base: int, m: Machine)
        requires
            self.at_row(st, base, m),
            self.fixed(),
            self.sound(f),
        ensures
            ({
                let s = self.acc_w(st.emit(movlw(0x80)), Op::Xorwf, f).emit(movwf(self.scratch));
                let b = exec(st.rows, base, m);
                let a = exec(s.rows, base, m);
                self.at_row(s, base, m) && passes(b, a) && self.keeps(b, a) && a.ram[self.scratch]
                    == flipped(b.ram[f], true)
            }),
    {
        let b = exec(st.rows, base, m);
        let s1 = st.emit(movlw(0x80));
        let m1 = exec(s1.rows, base, m);
        assert(self.at_row(s1, base, m) && passes(b, m1) && m1.ram == b.ram && m1.w == 0x80) by {
            broadcast use group_exec;

        }
        let s2 = self.acc_w(s1, Op::Xorwf, f);
        self.lemma_acc_w(s1, Op::Xorwf, f, base, m);
        let m2 = exec(s2.rows, base, m);
        let s3 = s2.emit(movwf(self.scratch));
        let m3 = exec(s3.rows, base, m);
        assert(self.at_row(s3, base, m) && passes(m2, m3) && m3.ram == m2.ram.insert(
            self.scratch,
            m2.w,
        )) by {
            broadcast use group_exec;

        }
    }

    /// One byte: C is the order, Z equality.
    proof fn lemma_compare_byte(
        &self,
        st: St,
        x: Val,
        y: Val,
        ty: Ty,
        sgn: bool,
        base: int,
        m: Machine,
    )
        requires
            self.at_row(st, base, m),
            ty.bytes() == 1,
            self.readable(x, 1),
            self.readable(y, 1),
            !(x is Const && y is Const),
        ensures
            ({
                let s = self.compare(st, x, y, ty, sgn);
                let b = exec(st.rows, base, m);
                let a = exec(s.rows, base, m);
                let p = self.word_of(b, x, 1);
                let q = self.word_of(b, y, 1);
                self.at_row(s, base, m) && passes(b, a) && self.keeps(b, a) && a.z == (p == q)
                    && a.c == (if sgn {
                    signed(p, 1) >= signed(q, 1)
                } else {
                    p >= q
                })
            }),
    {
        let b = exec(st.rows, base, m);
        lemma_flip(self.byte_of(b, x, 0));
        lemma_flip(self.byte_of(b, y, 0));
        match x {
            Val::Const(k) => {
                self.lemma_const_low(st, k, y, 1, sgn, base, m);
                assert(self.compare(st, x, y, ty, sgn) == self.const_low(st, k, y, sgn, 0));
            },
            _ => {
                let aa = self.slot_of(x)->0;
                assert(at(aa, 0) == aa && self.sound(at(aa, 0)));
                if sgn {
                    let s1 = self.acc_w(st.emit(movlw(0x80)), Op::Xorwf, aa).emit(
                        movwf(self.scratch),
                    );
                    self.lemma_stage_first(st, aa, base, m);
                    let m1 = exec(s1.rows, base, m);
                    assert(self.byte_of(m1, y, 0) == self.byte_of(b, y, 0));
                    self.lemma_file_low(s1, self.scratch, y, 1, sgn, base, m);
                } else {
                    self.lemma_file_low(st, aa, y, 1, sgn, base, m);
                }
            },
        }
    }

    proof fn lemma_file_chain(
        &self,
        st: St,
        aa: u32,
        y: Val,
        n: u8,
        sgn: bool,
        base: int,
        m: Machine,
    )
        requires
            self.at_row(st, base, m),
            n == 2 || n == 4,
            self.readable(y, n),
            self.sound_bytes(aa, n),
            self.spares(aa, n as int),
        ensures
            ({
                let high = (n - 1) as u8;
                let s0 = self.acc_w(self.load_ordered(st, y, 0, sgn, high), Op::Subwf, aa);
                let s = self.file_chain(s0, aa, y, n, high, sgn, 1);
                let b = exec(st.rows, base, m);
                let a = exec(s.rows, base, m);
                let p = word(b, aa, n);
                let q = self.word_of(b, y, n);
                self.at_row(s, base, m) && passes(b, a) && self.keeps(b, a) && a.c == (if sgn {
                    signed(p, n) >= signed(q, n)
                } else {
                    p >= q
                })
            }),
    {
        let high = (n - 1) as u8;
        let b = exec(st.rows, base, m);
        assert(at(aa, 0) == aa && self.sound(at(aa, 0)));
        let s0 = self.acc_w(self.load_ordered(st, y, 0, sgn, high), Op::Subwf, aa);
        self.lemma_file_low(st, aa, y, n, sgn, base, m);
        let s1 = self.file_byte(s0, aa, y, high, sgn, 1);
        self.lemma_file_byte(s0, aa, y, n, sgn, 1, base, m);
        let m1 = exec(s1.rows, base, m);
        lemma_flip(b.ram[at(aa, 1)]);
        lemma_flip(self.byte_of(b, y, 1));
        reveal_with_fuel(Gen::file_chain, 4);
        if n == 4 {
            let s2 = self.file_byte(s1, aa, y, high, sgn, 2);
            self.lemma_file_byte(s1, aa, y, n, sgn, 2, base, m);
            let m2 = exec(s2.rows, base, m);
            let s3 = self.file_byte(s2, aa, y, high, sgn, 3);
            self.lemma_file_byte(s2, aa, y, n, sgn, 3, base, m);
            assert(m1.ram[at(aa, 2)] == b.ram[at(aa, 2)] && m2.ram[at(aa, 3)] == b.ram[at(aa, 3)]);
            assert(self.byte_of(m1, y, 2) == self.byte_of(b, y, 2));
            assert(self.byte_of(m2, y, 3) == self.byte_of(b, y, 3));
            lemma_flip(b.ram[at(aa, 3)]);
            lemma_flip(self.byte_of(b, y, 3));
            assert(self.file_chain(s0, aa, y, n, high, sgn, 1) == s3);
        } else {
            assert(self.file_chain(s0, aa, y, n, high, sgn, 1) == s1);
        }
    }

    proof fn lemma_const_chain(
        &self,
        st: St,
        k: i64,
        y: Val,
        n: u8,
        sgn: bool,
        base: int,
        m: Machine,
    )
        requires
            self.at_row(st, base, m),
            n == 2 || n == 4,
            self.readable(y, n),
        ensures
            ({
                let high = (n - 1) as u8;
                let s0 = self.const_low(st, k, y, sgn, high);
                let s = self.const_chain(s0, k, y, n, high, sgn, 1);
                let b = exec(st.rows, base, m);
                let a = exec(s.rows, base, m);
                let p = self.word_of(b, Val::Const(k), n);
                let q = self.word_of(b, y, n);
                self.at_row(s, base, m) && passes(b, a) && self.keeps(b, a) && a.c == (if sgn {
                    signed(p, n) >= signed(q, n)
                } else {
                    p >= q
                })
            }),
    {
        let high = (n - 1) as u8;
        let b = exec(st.rows, base, m);
        let s0 = self.const_low(st, k, y, sgn, high);
        self.lemma_const_low(st, k, y, n, sgn, base, m);
        let m0 = exec(s0.rows, base, m);
        let k1 = ordered_byte(k, 1, sgn, high);
        let s1 = self.lit_byte(s0, k1, y, high, sgn, 1);
        self.lemma_lit_byte(s0, k1, y, n, sgn, 1, base, m);
        let m1 = exec(s1.rows, base, m);
        assert(self.byte_of(m0, y, 1) == self.byte_of(b, y, 1));
        lemma_flip(const_byte(k, 1));
        lemma_flip(self.byte_of(b, y, 1));
        reveal_with_fuel(Gen::const_chain, 4);
        if n == 4 {
            let k2 = ordered_byte(k, 2, sgn, high);
            let k3 = ordered_byte(k, 3, sgn, high);
            let s2 = self.lit_byte(s1, k2, y, high, sgn, 2);
            self.lemma_lit_byte(s1, k2, y, n, sgn, 2, base, m);
            let m2 = exec(s2.rows, base, m);
            let s3 = self.lit_byte(s2, k3, y, high, sgn, 3);
            self.lemma_lit_byte(s2, k3, y, n, sgn, 3, base, m);
            assert(self.byte_of(m1, y, 2) == self.byte_of(b, y, 2));
            assert(self.byte_of(m2, y, 3) == self.byte_of(b, y, 3));
            lemma_flip(const_byte(k, 3));
            lemma_flip(self.byte_of(b, y, 3));
            assert(self.const_chain(s0, k, y, n, high, sgn, 1) == s3);
        } else {
            assert(self.const_chain(s0, k, y, n, high, sgn, 1) == s1);
        }
    }

    /// C becomes the order of two operands.
    proof fn lemma_compare(
        &self,
        st: St,
        x: Val,
        y: Val,
        ty: Ty,
        sgn: bool,
        base: int,
        m: Machine,
    )
        requires
            self.at_row(st, base, m),
            self.readable(x, ty.bytes()),
            self.readable(y, ty.bytes()),
            !(x is Const && y is Const),
        ensures
            ({
                let n = ty.bytes();
                let s = self.compare(st, x, y, ty, sgn);
                let b = exec(st.rows, base, m);
                let a = exec(s.rows, base, m);
                let p = self.word_of(b, x, n);
                let q = self.word_of(b, y, n);
                self.at_row(s, base, m) && passes(b, a) && self.keeps(b, a) && (n == 1 ==> a.z == (p
                    == q)) && a.c == (if sgn {
                    signed(p, n) >= signed(q, n)
                } else {
                    p >= q
                })
            }),
    {
        let n = ty.bytes();
        if n == 1 {
            self.lemma_compare_byte(st, x, y, ty, sgn, base, m);
        } else {
            match x {
                Val::Const(k) => self.lemma_const_chain(st, k, y, n, sgn, base, m),
                _ => self.lemma_file_chain(st, self.slot_of(x)->0, y, n, sgn, base, m),
            }
        }
    }

    proof fn lemma_xor_byte(&self, st: St, v: Val, n: u8, i: u8, base: int, m: Machine)
        requires
            self.at_row(st, base, m),
            self.plain(v, n),
            i < n,
        ensures
            ({
                let s = self.xor_byte(st, v, i);
                let b = exec(st.rows, base, m);
                let a = exec(s.rows, base, m);
                self.at_row(s, base, m) && passes(b, a) && a.ram == b.ram && a.c == b.c && (a.w == 0
                    <==> b.w == self.byte_of(b, v, i)) && a.z == (a.w == 0)
            }),
    {
        let x = exec(st.rows, base, m).w;
        let y = self.byte_of(exec(st.rows, base, m), v, i);
        assert((x ^ y) == 0 <==> x == y) by (bit_vector);
        assert((y ^ x) == 0 <==> x == y) by (bit_vector);
        match v {
            Val::Const(k) => {
                broadcast use group_exec;

            },
            _ => {
                let a = at(self.slot_of(v)->0, i);
                assert(self.sound(a));
                self.lemma_acc_w(st, Op::Xorwf, a, base, m);
            },
        }
    }

    /// The xors gather in the comparison byte.
    proof fn lemma_gather(&self, st: St, base: int, m: Machine)
        requires
            self.at_row(st, base, m),
            self.fixed(),
        ensures
            ({
                let s = st.emit(w_op(Op::Iorwf, self.scratch)).emit(movwf(self.scratch));
                let b = exec(st.rows, base, m);
                let a = exec(s.rows, base, m);
                self.at_row(s, base, m) && passes(b, a) && self.keeps(b, a) && a.c == b.c && a.z == (
                a.ram[self.scratch] == 0) && (a.ram[self.scratch] == 0 <==> b.w == 0
                    && b.ram[self.scratch] == 0)
            }),
    {
        broadcast use group_exec;

        let x = exec(st.rows, base, m).w;
        let y = exec(st.rows, base, m).ram[self.scratch];
        assert((y | x) == 0 <==> x == 0 && y == 0) by (bit_vector);
    }

    proof fn lemma_equal_from(
        &self,
        st: St,
        x: Val,
        y: Val,
        n: u8,
        i: u8,
        base: int,
        m: Machine,
    )
        requires
            self.at_row(st, base, m),
            self.readable(x, n),
            self.readable(y, n),
            n <= 4,
            ({
                let b = exec(st.rows, base, m);
                b.z == (b.ram[self.scratch] == 0)
            }),
        ensures
            ({
                let s = self.equal_from(st, x, y, n, i);
                let b = exec(st.rows, base, m);
                let a = exec(s.rows, base, m);
                self.at_row(s, base, m) && passes(b, a) && self.keeps(b, a) && a.c == b.c && a.z == (
                b.z && (forall|j: u8|
                    i <= j < n ==> #[trigger] self.byte_of(b, x, j) == self.byte_of(b, y, j)))
            }),
        decreases n - i,
    {
        if i < n {
            let b = exec(st.rows, base, m);
            let s1 = self.load_byte(st, x, i);
            self.lemma_load_byte(st, x, i, n, base, m);
            let s2 = self.xor_byte(s1, y, i);
            self.lemma_xor_byte(s1, y, n, i, base, m);
            self.lemma_gather(s2, base, m);
            let s3 = s2.emit(w_op(Op::Iorwf, self.scratch)).emit(movwf(self.scratch));
            let mid = exec(s3.rows, base, m);
            self.lemma_equal_from(s3, x, y, n, (i + 1) as u8, base, m);
            assert forall|j: u8| i < j < n implies #[trigger] self.byte_of(mid, x, j)
                == self.byte_of(b, x, j) && self.byte_of(mid, y, j) == self.byte_of(b, y, j) by {}
            let a = exec(self.equal_from(st, x, y, n, i).rows, base, m);
            let all = forall|j: u8|
                i <= j < n ==> #[trigger] self.byte_of(b, x, j) == self.byte_of(b, y, j);
            if a.z {
                assert forall|j: u8| i <= j < n implies #[trigger] self.byte_of(b, x, j)
                    == self.byte_of(b, y, j) by {
                    if j > i {
                        assert(self.byte_of(mid, x, j) == self.byte_of(mid, y, j));
                    }
                }
            } else if b.z && all {
                assert(self.byte_of(b, x, i) == self.byte_of(b, y, i));
                assert forall|j: u8| i + 1 <= j < n implies #[trigger] self.byte_of(mid, x, j)
                    == self.byte_of(mid, y, j) by {
                    assert(self.byte_of(b, x, j) == self.byte_of(b, y, j));
                }
            }
        }
    }

    /// Z becomes equality, C stays.
    proof fn lemma_equal(&self, st: St, x: Val, y: Val, ty: Ty, base: int, m: Machine)
        requires
            self.at_row(st, base, m),
            self.readable(x, ty.bytes()),
            self.readable(y, ty.bytes()),
        ensures
            ({
                let n = ty.bytes();
                let s = self.equal(st, x, y, ty);
                let b = exec(st.rows, base, m);
                let a = exec(s.rows, base, m);
                self.at_row(s, base, m) && passes(b, a) && self.keeps(b, a) && a.c == b.c && a.z == (
                self.word_of(b, x, n) == self.word_of(b, y, n))
            }),
    {
        let n = ty.bytes();
        let b = exec(st.rows, base, m);
        let s1 = self.load_byte(st, x, 0);
        self.lemma_load_byte(st, x, 0, n, base, m);
        let s2 = self.xor_byte(s1, y, 0);
        self.lemma_xor_byte(s1, y, n, 0, base, m);
        let m2 = exec(s2.rows, base, m);
        let s3 = s2.emit(movwf(self.scratch));
        let mid = exec(s3.rows, base, m);
        assert(self.at_row(s3, base, m) && passes(m2, mid) && mid.ram == m2.ram.insert(
            self.scratch,
            m2.w,
        ) && mid.c == m2.c && mid.z == m2.z) by {
            broadcast use group_exec;

        }
        self.lemma_equal_from(s3, x, y, n, 1, base, m);
        let a = exec(self.equal(st, x, y, ty).rows, base, m);
        self.lemma_same_bytes(b, mid, x, y, n);
    }

    /// Two numbers are equal if all their bytes are.
    proof fn lemma_same_bytes(&self, b: Machine, c: Machine, x: Val, y: Val, n: u8)
        requires
            n == 1 || n == 2 || n == 4,
            forall|j: u8|
                #![trigger self.byte_of(c, x, j)]
                1 <= j < n ==> self.byte_of(c, x, j) == self.byte_of(b, x, j) && self.byte_of(
                    c,
                    y,
                    j,
                ) == self.byte_of(b, y, j),
        ensures
            (self.word_of(b, x, n) == self.word_of(b, y, n)) == (self.byte_of(b, x, 0)
                == self.byte_of(b, y, 0) && forall|j: u8|
                1 <= j < n ==> #[trigger] self.byte_of(c, x, j) == self.byte_of(c, y, j)),
    {
        let all = forall|j: u8|
            1 <= j < n ==> #[trigger] self.byte_of(c, x, j) == self.byte_of(c, y, j);
        if n == 2 {
            assert(self.byte_of(c, x, 1) == self.byte_of(b, x, 1));
            if self.byte_of(b, x, 1) == self.byte_of(b, y, 1) {
                assert forall|j: u8| 1 <= j < n implies #[trigger] self.byte_of(c, x, j)
                    == self.byte_of(c, y, j) by {
                    assert(j == 1);
                }
            }
        } else if n == 4 {
            assert(self.byte_of(c, x, 1) == self.byte_of(b, x, 1));
            assert(self.byte_of(c, x, 2) == self.byte_of(b, x, 2));
            assert(self.byte_of(c, x, 3) == self.byte_of(b, x, 3));
            let same = self.byte_of(b, x, 1) == self.byte_of(b, y, 1) && self.byte_of(b, x, 2)
                == self.byte_of(b, y, 2) && self.byte_of(b, x, 3) == self.byte_of(b, y, 3);
            if same {
                assert forall|j: u8| 1 <= j < n implies #[trigger] self.byte_of(c, x, j)
                    == self.byte_of(c, y, j) by {
                    assert(j == 1 || j == 2 || j == 3);
                }
            }
            assert(all == same);
        }
    }

    proof fn lemma_materialize(&self, st: St, c: Cond, dst: u32, base: int, m: Machine)
        requires
            self.at_row(st, base, m),
            self.sound(dst),
        ensures
            ({
                let s = self.materialize(st, c, dst);
                let b = exec(st.rows, base, m);
                let a = exec(s.rows, base, m);
                let yes = match c {
                    Cond::Z => b.z,
                    Cond::NotZ => !b.z,
                    Cond::C => b.c,
                    Cond::NotC => !b.c,
                    Cond::CAndNotZ => b.c && !b.z,
                    Cond::NotCOrZ => !b.c || b.z,
                };
                self.at_row(s, base, m) && passes(b, a) && kept(b, a, dst, 1) && a.ram[dst] == flag(
                    yes,
                )
            }),
    {
        let b = exec(st.rows, base, m);
        let s1 = st.emit(movlw(0)).emit(crate::shape::cond_skip(c)).emit(movlw(1));
        let s2 = match crate::shape::cond_on_equal(c) {
            Some(v) => s1.emit(crate::emit::note_z(BitOp::Btfsc)).emit(movlw(v)),
            None => s1,
        };
        let m2 = exec(s2.rows, base, m);
        let yes = match c {
            Cond::Z => b.z,
            Cond::NotZ => !b.z,
            Cond::C => b.c,
            Cond::NotC => !b.c,
            Cond::CAndNotZ => b.c && !b.z,
            Cond::NotCOrZ => !b.c || b.z,
        };
        assert(self.at_row(s2, base, m) && passes(b, m2) && m2.ram == b.ram && m2.w == flag(yes)) by {
            broadcast use group_exec;

        }
        self.lemma_put(s2, dst, base, m);
    }

    /// Whether a comparison is one that code is written for.
    pub open spec fn orders(&self, x: Icmp) -> bool {
        let n = x.ty.bytes();
        &&& self.cx.slot(self.cx.fname(), x.dst@) matches Some(da) && self.sound(da)
        &&& self.readable(x.a, n)
        &&& self.readable(x.b, n)
        &&& x.pred != Pred::Eq && x.pred != Pred::Ne ==> !(x.a is Const && x.b is Const)
    }

    /// The code for a comparison leaves one in the slot of its result if the
    /// predicate holds of the operands, else zero, for every predicate and
    /// every width. It changes nothing else but W, the flags, the bank and
    /// the fixed bytes.
    pub proof fn law_icmp_decides(&self, st: St, x: Icmp, base: int, m: Machine)
        requires
            self.at_row(st, base, m),
            self.orders(x),
        ensures
            self.at_row(self.icmp(st, x), base, m),
            ({
                let n = x.ty.bytes();
                let da = self.cx.slot(self.cx.fname(), x.dst@)->0;
                let b = exec(st.rows, base, m);
                let a = exec(self.icmp(st, x).rows, base, m);
                self.settled(b, a, da, 1) && a.ram[da] == flag(
                    holds(x.pred, self.word_of(b, x.a, n), self.word_of(b, x.b, n), n),
                )
            }),
    {
        let n = x.ty.bytes();
        let da = self.cx.slot(self.cx.fname(), x.dst@)->0;
        let b = exec(st.rows, base, m);
        if x.pred == Pred::Eq || x.pred == Pred::Ne {
            self.lemma_equal(st, x.a, x.b, x.ty, base, m);
            self.lemma_materialize(
                self.equal(st, x.a, x.b, x.ty),
                cond_of(x.pred),
                da,
                base,
                m,
            );
        } else {
            let sgn = is_signed(x.pred);
            let s1 = self.compare(st, x.a, x.b, x.ty, sgn);
            self.lemma_compare(st, x.a, x.b, x.ty, sgn, base, m);
            let mid = exec(s1.rows, base, m);
            if needs_z(x.pred) && n > 1 {
                self.lemma_equal(s1, x.a, x.b, x.ty, base, m);
                assert(self.word_of(mid, x.a, n) == self.word_of(b, x.a, n));
                assert(self.word_of(mid, x.b, n) == self.word_of(b, x.b, n));
                self.lemma_materialize(
                    self.equal(s1, x.a, x.b, x.ty),
                    cond_of(x.pred),
                    da,
                    base,
                    m,
                );
            } else {
                self.lemma_materialize(s1, cond_of(x.pred), da, base, m);
            }
        }
    }
}

} // verus!
