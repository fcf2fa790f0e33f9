//! What comparisons compute.
use vstd::prelude::*;
use crate::emit::{at, const_byte, lit, movf, movlw, movwf, w_op, St};
use crate::ir::{Icmp, Pred, Ty, Val};
use crate::line::{LitOp, Op};
use crate::machine::{exec, group_exec, Machine};
use crate::meaning::{flag, flipped, holds, kept, lemma_flip, passes, signed, word};
use crate::pic14e::laws::{lemma_movwf, ready};
use crate::pic14e::Gen;
use crate::shape::{cond_of, is_signed, needs_z, ordered_byte, Cond};

verus! {

impl<'a> Gen<'a> {
    /// Whether nothing but the comparison byte and the first result byte
    /// changed in RAM.
    pub open spec fn keeps(&self, before: Machine, after: Machine) -> bool {
        forall|x: u32|
            x != self.scratch && x != self.retval ==> #[trigger] after.ram[x] == before.ram[x]
    }

    proof fn lemma_load_ordered(
        &self,
        st: St,
        v: Val,
        i: u8,
        sgn: bool,
        high: u8,
        base: int,
        m: Machine,
    )
        requires
            ready(st, base, m),
            self.plain(v),
        ensures
            ready(self.load_ordered(st, v, i, sgn, high), base, m),
            ({
                let b = exec(st.rows, base, m);
                let a = exec(self.load_ordered(st, v, i, sgn, high).rows, base, m);
                passes(b, a) && a.w == flipped(self.byte_of(b, v, i), sgn && i == high) && a.ram
                    == b.ram && a.c == b.c
            }),
    {
        broadcast use group_exec;

    }

    /// `SUBWF` after a borrow was folded into W from the byte it came from.
    proof fn lemma_fold_sub(&self, st: St, s: u32, f: u32, base: int, m: Machine)
        requires
            ready(st, base, m),
            exec(st.rows, base, m).w == exec(st.rows, base, m).ram[s],
        ensures
            ({
                let t = self.fold_borrow(st, s).emit(w_op(Op::Subwf, f));
                let b = exec(st.rows, base, m);
                let a = exec(t.rows, base, m);
                ready(t, base, m) && passes(b, a) && a.ram == b.ram && a.c == (b.ram[f] >= b.w
                    + flag(!b.c))
            }),
    {
        broadcast use group_exec;

    }

    proof fn lemma_fold_sub_lit(&self, st: St, s: u32, k: u8, base: int, m: Machine)
        requires
            ready(st, base, m),
            exec(st.rows, base, m).w == exec(st.rows, base, m).ram[s],
        ensures
            ({
                let t = self.fold_borrow(st, s).emit(lit(LitOp::Sublw, k));
                let b = exec(st.rows, base, m);
                let a = exec(t.rows, base, m);
                ready(t, base, m) && passes(b, a) && a.ram == b.ram && a.c == (k >= b.w + flag(!b.c))
            }),
    {
        broadcast use group_exec;

    }

    /// The sign byte of `a` staged beside that of `b`.
    proof fn lemma_stage_sign(&self, st: St, f: u32, base: int, m: Machine)
        requires
            ready(st, base, m),
            self.scratch != self.retval,
            f != self.retval,
        ensures
            ({
                let t = st.emit(movwf(self.retval)).emit(movlw(0x80)).emit(
                    w_op(Op::Xorwf, f),
                ).emit(movwf(self.scratch)).emit(movf(self.retval));
                let b = exec(st.rows, base, m);
                let a = exec(t.rows, base, m);
                ready(t, base, m) && passes(b, a) && self.keeps(b, a) && a.w == b.w && a.ram[self.retval]
                    == b.w && a.ram[self.scratch] == b.ram[f] ^ 0x80 && a.c == b.c
            }),
    {
        broadcast use group_exec;

    }

    proof fn lemma_movwf_any(&self, st: St, f: u32, base: int, m: Machine)
        requires
            ready(st, base, m),
        ensures
            ready(st.emit(movwf(f)), base, m),
            ({
                let b = exec(st.rows, base, m);
                let a = exec(st.emit(movwf(f)).rows, base, m);
                passes(b, a) && a.w == b.w && a.ram == b.ram.insert(f, b.w) && a.c == b.c
            }),
    {
        broadcast use group_exec;

    }

    proof fn lemma_file_byte(
        &self,
        st: St,
        aa: u32,
        y: Val,
        high: u8,
        sgn: bool,
        i: u8,
        base: int,
        m: Machine,
    )
        requires
            ready(st, base, m),
            self.plain(y),
            self.scratch != self.retval,
            at(aa, i) != self.scratch,
            at(aa, i) != self.retval,
        ensures
            ready(self.file_byte(st, aa, y, high, sgn, i), base, m),
            ({
                let b = exec(st.rows, base, m);
                let a = exec(self.file_byte(st, aa, y, high, sgn, i).rows, base, m);
                let top = sgn && i == high;
                passes(b, a) && self.keeps(b, a) && a.c == (flipped(b.ram[at(aa, i)], top)
                    >= flipped(self.byte_of(b, y, i), top) + flag(!b.c))
            }),
    {
        let s1 = self.load_ordered(st, y, i, sgn, high);
        self.lemma_load_ordered(st, y, i, sgn, high, base, m);
        if sgn && i == high {
            self.lemma_stage_sign(s1, at(aa, i), base, m);
            let s2 = s1.emit(movwf(self.retval)).emit(movlw(0x80)).emit(
                w_op(Op::Xorwf, at(aa, i)),
            ).emit(movwf(self.scratch)).emit(movf(self.retval));
            self.lemma_fold_sub(s2, self.retval, self.scratch, base, m);
        } else {
            match y {
                Val::Const(_) => {
                    self.lemma_movwf_any(s1, self.scratch, base, m);
                    self.lemma_fold_sub(
                        s1.emit(movwf(self.scratch)),
                        self.scratch,
                        at(aa, i),
                        base,
                        m,
                    );
                },
                _ => {
                    let ba = self.slot_of(y)->0;
                    self.lemma_fold_sub(s1, at(ba, i), at(aa, i), base, m);
                },
            }
        }
    }

    proof fn lemma_lit_byte(
        &self,
        st: St,
        k: u8,
        y: Val,
        high: u8,
        sgn: bool,
        i: u8,
        base: int,
        m: Machine,
    )
        requires
            ready(st, base, m),
            self.plain(y),
            !(y is Const),
        ensures
            ready(self.lit_byte(st, k, y, high, sgn, i), base, m),
            ({
                let b = exec(st.rows, base, m);
                let a = exec(self.lit_byte(st, k, y, high, sgn, i).rows, base, m);
                passes(b, a) && self.keeps(b, a) && a.c == (k >= flipped(
                    self.byte_of(b, y, i),
                    sgn && i == high,
                ) + flag(!b.c))
            }),
    {
        let s1 = self.load_ordered(st, y, i, sgn, high);
        self.lemma_load_ordered(st, y, i, sgn, high, base, m);
        if sgn && i == high {
            self.lemma_movwf_any(s1, self.retval, base, m);
            self.lemma_fold_sub_lit(s1.emit(movwf(self.retval)), self.retval, k, base, m);
        } else {
            let ba = self.slot_of(y)->0;
            self.lemma_fold_sub_lit(s1, at(ba, i), k, base, m);
        }
    }

    /// Whether an operand of `n` bytes is plain and clear of the fixed bytes.
    pub open spec fn readable(&self, v: Val, n: u8) -> bool {
        self.plain(v) && (self.slot_of(v) matches Some(a) ==> self.clear(a, n as int))
    }

    proof fn lemma_first_byte(
        &self,
        st: St,
        f: u32,
        y: Val,
        sgn: bool,
        high: u8,
        base: int,
        m: Machine,
    )
        requires
            ready(st, base, m),
            self.plain(y),
        ensures
            ({
                let t = self.load_ordered(st, y, 0, sgn, high).emit(w_op(Op::Subwf, f));
                let b = exec(st.rows, base, m);
                let a = exec(t.rows, base, m);
                let v = flipped(self.byte_of(b, y, 0), sgn && 0 == high);
                ready(t, base, m) && passes(b, a) && a.ram == b.ram && a.c == (b.ram[f] >= v) && a.z
                    == (b.ram[f] == v)
            }),
    {
        broadcast use group_exec;

        self.lemma_load_ordered(st, y, 0, sgn, high, base, m);
    }

    proof fn lemma_first_lit(
        &self,
        st: St,
        k: u8,
        y: Val,
        sgn: bool,
        high: u8,
        base: int,
        m: Machine,
    )
        requires
            ready(st, base, m),
            self.plain(y),
        ensures
            ({
                let t = self.load_ordered(st, y, 0, sgn, high).emit(lit(LitOp::Sublw, k));
                let b = exec(st.rows, base, m);
                let a = exec(t.rows, base, m);
                let v = flipped(self.byte_of(b, y, 0), sgn && 0 == high);
                ready(t, base, m) && passes(b, a) && a.ram == b.ram && a.c == (k >= v) && a.z == (k
                    == v)
            }),
    {
        broadcast use group_exec;

        self.lemma_load_ordered(st, y, 0, sgn, high, base, m);
    }

    proof fn lemma_stage_first(&self, st: St, f: u32, base: int, m: Machine)
        requires
            ready(st, base, m),
        ensures
            ({
                let t = st.emit(movlw(0x80)).emit(w_op(Op::Xorwf, f)).emit(movwf(self.scratch));
                let b = exec(st.rows, base, m);
                let a = exec(t.rows, base, m);
                ready(t, base, m) && passes(b, a) && self.keeps(b, a) && a.ram[self.scratch]
                    == b.ram[f] ^ 0x80
            }),
    {
        broadcast use group_exec;

    }

    /// One byte: C is the order, Z equality.
    proof fn lemma_compare_byte(
        &self,
        st: St,
        x: Val,
        y: Val,
        ty: Ty,
        sgn: bool,
        base: int,
        m: Machine,
    )
        requires
            ready(st, base, m),
            ty.bytes() == 1,
            self.readable(x, 1),
            self.readable(y, 1),
            !(x is Const && y is Const),
        ensures
            ({
                let s = self.compare(st, x, y, ty, sgn);
                let b = exec(st.rows, base, m);
                let a = exec(s.rows, base, m);
                let p = self.word_of(b, x, 1);
                let q = self.word_of(b, y, 1);
                ready(s, base, m) && passes(b, a) && self.keeps(b, a) && a.z == (p == q) && a.c == (
                if sgn {
                    signed(p, 1) >= signed(q, 1)
                } else {
                    p >= q
                })
            }),
    {
        let b = exec(st.rows, base, m);
        lemma_flip(self.byte_of(b, x, 0));
        lemma_flip(self.byte_of(b, y, 0));
        match x {
            Val::Const(k) => {
                self.lemma_first_lit(st, ordered_byte(k, 0, sgn, 0), y, sgn, 0, base, m);
                reveal_with_fuel(Gen::const_chain, 1);
            },
            _ => {
                let aa = self.slot_of(x)->0;
                if sgn {
                    let s1 = st.emit(movlw(0x80)).emit(w_op(Op::Xorwf, aa)).emit(
                        movwf(self.scratch),
                    );
                    self.lemma_stage_first(st, aa, base, m);
                    self.lemma_first_byte(s1, self.scratch, y, sgn, 0, base, m);
                } else {
                    self.lemma_first_byte(st, aa, y, sgn, 0, base, m);
                }
            },
        }
    }

    proof fn lemma_file_chain(
        &self,
        st: St,
        aa: u32,
        y: Val,
        n: u8,
        sgn: bool,
        base: int,
        m: Machine,
    )
        requires
            ready(st, base, m),
            n == 2 || n == 4,
            self.readable(y, n),
            aa <= 0xFFFF,
            self.clear(aa, n as int),
            self.scratch != self.retval,
        ensures
            ({
                let high = (n - 1) as u8;
                let s0 = self.load_ordered(st, y, 0, sgn, high).emit(w_op(Op::Subwf, aa));
                let s = self.file_chain(s0, aa, y, n, high, sgn, 1);
                let b = exec(st.rows, base, m);
                let a = exec(s.rows, base, m);
                let p = word(b, aa, n);
                let q = self.word_of(b, y, n);
                ready(s, base, m) && passes(b, a) && self.keeps(b, a) && a.c == (if sgn {
                    signed(p, n) >= signed(q, n)
                } else {
                    p >= q
                })
            }),
    {
        let high = (n - 1) as u8;
        let b = exec(st.rows, base, m);
        let s0 = self.load_ordered(st, y, 0, sgn, high).emit(w_op(Op::Subwf, aa));
        self.lemma_first_byte(st, aa, y, sgn, high, base, m);
        let s1 = self.file_byte(s0, aa, y, high, sgn, 1);
        self.lemma_file_byte(s0, aa, y, high, sgn, 1, base, m);
        lemma_flip(b.ram[at(aa, 1)]);
        lemma_flip(self.byte_of(b, y, 1));
        reveal_with_fuel(Gen::file_chain, 4);
        if n == 4 {
            let s2 = self.file_byte(s1, aa, y, high, sgn, 2);
            self.lemma_file_byte(s1, aa, y, high, sgn, 2, base, m);
            let s3 = self.file_byte(s2, aa, y, high, sgn, 3);
            self.lemma_file_byte(s2, aa, y, high, sgn, 3, base, m);
            lemma_flip(b.ram[at(aa, 3)]);
            lemma_flip(self.byte_of(b, y, 3));
            assert(self.file_chain(s0, aa, y, n, high, sgn, 1) == s3);
        } else {
            assert(self.file_chain(s0, aa, y, n, high, sgn, 1) == s1);
        }
    }

    proof fn lemma_const_chain(
        &self,
        st: St,
        k: i64,
        y: Val,
        n: u8,
        sgn: bool,
        base: int,
        m: Machine,
    )
        requires
            ready(st, base, m),
            n == 2 || n == 4,
            self.readable(y, n),
            !(y is Const),
        ensures
            ({
                let high = (n - 1) as u8;
                let s0 = self.load_ordered(st, y, 0, sgn, high).emit(
                    lit(LitOp::Sublw, ordered_byte(k, 0, sgn, high)),
                );
                let s = self.const_chain(s0, k, y, n, high, sgn, 1);
                let b = exec(st.rows, base, m);
                let a = exec(s.rows, base, m);
                let p = self.word_of(b, Val::Const(k), n);
                let q = self.word_of(b, y, n);
                ready(s, base, m) && passes(b, a) && self.keeps(b, a) && a.c == (if sgn {
                    signed(p, n) >= signed(q, n)
                } else {
                    p >= q
                })
            }),
    {
        let high = (n - 1) as u8;
        let b = exec(st.rows, base, m);
        let s0 = self.load_ordered(st, y, 0, sgn, high).emit(
            lit(LitOp::Sublw, ordered_byte(k, 0, sgn, high)),
        );
        self.lemma_first_lit(st, ordered_byte(k, 0, sgn, high), y, sgn, high, base, m);
        let k1 = ordered_byte(k, 1, sgn, high);
        let s1 = self.lit_byte(s0, k1, y, high, sgn, 1);
        self.lemma_lit_byte(s0, k1, y, high, sgn, 1, base, m);
        lemma_flip(const_byte(k, 1));
        lemma_flip(self.byte_of(b, y, 1));
        reveal_with_fuel(Gen::const_chain, 4);
        if n == 4 {
            let k2 = ordered_byte(k, 2, sgn, high);
            let k3 = ordered_byte(k, 3, sgn, high);
            let s2 = self.lit_byte(s1, k2, y, high, sgn, 2);
            self.lemma_lit_byte(s1, k2, y, high, sgn, 2, base, m);
            let s3 = self.lit_byte(s2, k3, y, high, sgn, 3);
            self.lemma_lit_byte(s2, k3, y, high, sgn, 3, base, m);
            lemma_flip(const_byte(k, 3));
            lemma_flip(self.byte_of(b, y, 3));
            assert(self.const_chain(s0, k, y, n, high, sgn, 1) == s3);
        } else {
            assert(self.const_chain(s0, k, y, n, high, sgn, 1) == s1);
        }
    }

    /// C becomes the order of two operands.
    proof fn lemma_compare(
        &self,
        st: St,
        x: Val,
        y: Val,
        ty: Ty,
        sgn: bool,
        base: int,
        m: Machine,
    )
        requires
            ready(st, base, m),
            self.readable(x, ty.bytes()),
            self.readable(y, ty.bytes()),
            !(x is Const && y is Const),
            self.scratch != self.retval,
        ensures
            ready(self.compare(st, x, y, ty, sgn), base, m),
            ({
                let n = ty.bytes();
                let b = exec(st.rows, base, m);
                let a = exec(self.compare(st, x, y, ty, sgn).rows, base, m);
                let p = self.word_of(b, x, n);
                let q = self.word_of(b, y, n);
                passes(b, a) && self.keeps(b, a) && (n == 1 ==> a.z == (p == q)) && a.c == (if sgn {
                    signed(p, n) >= signed(q, n)
                } else {
                    p >= q
                })
            }),
    {
        let n = ty.bytes();
        if n == 1 {
            self.lemma_compare_byte(st, x, y, ty, sgn, base, m);
        } else {
            match x {
                Val::Const(k) => self.lemma_const_chain(st, k, y, n, sgn, base, m),
                _ => self.lemma_file_chain(st, self.slot_of(x)->0, y, n, sgn, base, m),
            }
        }
    }

    proof fn lemma_xor_byte(&self, st: St, v: Val, i: u8, base: int, m: Machine)
        requires
            ready(st, base, m),
            self.plain(v),
        ensures
            ready(self.xor_byte(st, v, i), base, m),
            ({
                let b = exec(st.rows, base, m);
                let a = exec(self.xor_byte(st, v, i).rows, base, m);
                passes(b, a) && a.ram == b.ram && a.c == b.c && (a.w == 0 <==> b.w == self.byte_of(
                    b,
                    v,
                    i,
                )) && a.z == (a.w == 0)
            }),
    {
        broadcast use group_exec;

        let x = exec(st.rows, base, m).w;
        let y = self.byte_of(exec(st.rows, base, m), v, i);
        assert((x ^ y) == 0 <==> x == y) by (bit_vector);
        assert((y ^ x) == 0 <==> x == y) by (bit_vector);
    }

    /// The xors gather in the comparison byte.
    proof fn lemma_gather(&self, st: St, base: int, m: Machine)
        requires
            ready(st, base, m),
        ensures
            ({
                let t = st.emit(w_op(Op::Iorwf, self.scratch)).emit(movwf(self.scratch));
                let b = exec(st.rows, base, m);
                let a = exec(t.rows, base, m);
                ready(t, base, m) && passes(b, a) && self.keeps(b, a) && a.c == b.c && a.z == (
                a.ram[self.scratch] == 0) && (a.ram[self.scratch] == 0 <==> b.w == 0
                    && b.ram[self.scratch] == 0)
            }),
    {
        broadcast use group_exec;

        let x = exec(st.rows, base, m).w;
        let y = exec(st.rows, base, m).ram[self.scratch];
        assert((y | x) == 0 <==> x == 0 && y == 0) by (bit_vector);
    }

    proof fn lemma_equal_from(
        &self,
        st: St,
        x: Val,
        y: Val,
        n: u8,
        i: u8,
        base: int,
        m: Machine,
    )
        requires
            ready(st, base, m),
            self.readable(x, n),
            self.readable(y, n),
            ({
                let b = exec(st.rows, base, m);
                b.z == (b.ram[self.scratch] == 0)
            }),
        ensures
            ready(self.equal_from(st, x, y, n, i), base, m),
            ({
                let b = exec(st.rows, base, m);
                let a = exec(self.equal_from(st, x, y, n, i).rows, base, m);
                passes(b, a) && self.keeps(b, a) && a.c == b.c && a.z == (b.z && (forall|j: u8|
                    i <= j < n ==> #[trigger] self.byte_of(b, x, j) == self.byte_of(b, y, j)))
            }),
        decreases n - i,
    {
        if i < n {
            let b = exec(st.rows, base, m);
            let s1 = self.load_byte(st, x, i);
            self.lemma_load_byte(st, x, i, base, m);
            let s2 = self.xor_byte(s1, y, i);
            self.lemma_xor_byte(s1, y, i, base, m);
            self.lemma_gather(s2, base, m);
            let s3 = s2.emit(w_op(Op::Iorwf, self.scratch)).emit(movwf(self.scratch));
            let mid = exec(s3.rows, base, m);
            self.lemma_equal_from(s3, x, y, n, (i + 1) as u8, base, m);
            assert forall|j: u8| i < j < n implies #[trigger] self.byte_of(mid, x, j)
                == self.byte_of(b, x, j) && self.byte_of(mid, y, j) == self.byte_of(b, y, j) by {}
            let a = exec(self.equal_from(st, x, y, n, i).rows, base, m);
            let all = forall|j: u8|
                i <= j < n ==> #[trigger] self.byte_of(b, x, j) == self.byte_of(b, y, j);
            if a.z {
                assert forall|j: u8| i <= j < n implies #[trigger] self.byte_of(b, x, j)
                    == self.byte_of(b, y, j) by {
                    if j > i {
                        assert(self.byte_of(mid, x, j) == self.byte_of(mid, y, j));
                    }
                }
            } else if b.z && all {
                assert(self.byte_of(b, x, i) == self.byte_of(b, y, i));
                assert forall|j: u8| i + 1 <= j < n implies #[trigger] self.byte_of(mid, x, j)
                    == self.byte_of(mid, y, j) by {
                    assert(self.byte_of(b, x, j) == self.byte_of(b, y, j));
                }
            }
        }
    }

    /// Z becomes equality, C stays.
    proof fn lemma_equal(&self, st: St, x: Val, y: Val, ty: Ty, base: int, m: Machine)
        requires
            ready(st, base, m),
            self.readable(x, ty.bytes()),
            self.readable(y, ty.bytes()),
        ensures
            ready(self.equal(st, x, y, ty), base, m),
            ({
                let n = ty.bytes();
                let b = exec(st.rows, base, m);
                let a = exec(self.equal(st, x, y, ty).rows, base, m);
                passes(b, a) && self.keeps(b, a) && a.c == b.c && a.z == (self.word_of(b, x, n)
                    == self.word_of(b, y, n))
            }),
    {
        let n = ty.bytes();
        let b = exec(st.rows, base, m);
        let s1 = self.load_byte(st, x, 0);
        self.lemma_load_byte(st, x, 0, base, m);
        let s2 = self.xor_byte(s1, y, 0);
        self.lemma_xor_byte(s1, y, 0, base, m);
        let s3 = s2.emit(movwf(self.scratch));
        lemma_movwf(s2, self.scratch, base, m);
        let mid = exec(s3.rows, base, m);
        self.lemma_equal_from(s3, x, y, n, 1, base, m);
        let a = exec(self.equal(st, x, y, ty).rows, base, m);
        self.lemma_same_bytes(b, mid, x, y, n);
    }

    /// Two numbers are equal if all their bytes are.
    proof fn lemma_same_bytes(&self, b: Machine, c: Machine, x: Val, y: Val, n: u8)
        requires
            n == 1 || n == 2 || n == 4,
            forall|j: u8|
                #![trigger self.byte_of(c, x, j)]
                1 <= j < n ==> self.byte_of(c, x, j) == self.byte_of(b, x, j) && self.byte_of(
                    c,
                    y,
                    j,
                ) == self.byte_of(b, y, j),
        ensures
            (self.word_of(b, x, n) == self.word_of(b, y, n)) == (self.byte_of(b, x, 0)
                == self.byte_of(b, y, 0) && forall|j: u8|
                1 <= j < n ==> #[trigger] self.byte_of(c, x, j) == self.byte_of(c, y, j)),
    {
        let all = forall|j: u8|
            1 <= j < n ==> #[trigger] self.byte_of(c, x, j) == self.byte_of(c, y, j);
        if n == 2 {
            assert(self.byte_of(c, x, 1) == self.byte_of(b, x, 1));
            if self.byte_of(b, x, 1) == self.byte_of(b, y, 1) {
                assert forall|j: u8| 1 <= j < n implies #[trigger] self.byte_of(c, x, j)
                    == self.byte_of(c, y, j) by {
                    assert(j == 1);
                }
            }
        } else if n == 4 {
            assert(self.byte_of(c, x, 1) == self.byte_of(b, x, 1));
            assert(self.byte_of(c, x, 2) == self.byte_of(b, x, 2));
            assert(self.byte_of(c, x, 3) == self.byte_of(b, x, 3));
            let same = self.byte_of(b, x, 1) == self.byte_of(b, y, 1) && self.byte_of(b, x, 2)
                == self.byte_of(b, y, 2) && self.byte_of(b, x, 3) == self.byte_of(b, y, 3);
            if same {
                assert forall|j: u8| 1 <= j < n implies #[trigger] self.byte_of(c, x, j)
                    == self.byte_of(c, y, j) by {
                    assert(j == 1 || j == 2 || j == 3);
                }
            }
            assert(all == same);
        }
    }

    proof fn lemma_materialize(&self, st: St, c: Cond, dst: u32, base: int, m: Machine)
        requires
            ready(st, base, m),
        ensures
            ready(self.materialize(st, c, dst), base, m),
            ({
                let b = exec(st.rows, base, m);
                let a = exec(self.materialize(st, c, dst).rows, base, m);
                let yes = match c {
                    Cond::Z => b.z,
                    Cond::NotZ => !b.z,
                    Cond::C => b.c,
                    Cond::NotC => !b.c,
                    Cond::CAndNotZ => b.c && !b.z,
                    Cond::NotCOrZ => !b.c || b.z,
                };
                passes(b, a) && kept(b, a, dst, 1) && a.ram[dst] == flag(yes)
            }),
    {
        broadcast use group_exec;

    }

    /// Whether a comparison is one that code is written for.
    pub open spec fn orders(&self, x: Icmp) -> bool {
        let n = x.ty.bytes();
        &&& self.cx.slot(self.cx.fname(), x.dst@) is Some
        &&& self.readable(x.a, n)
        &&& self.readable(x.b, n)
        &&& x.pred != Pred::Eq && x.pred != Pred::Ne ==> !(x.a is Const && x.b is Const)
        &&& self.scratch != self.retval
    }

    /// The code for a comparison leaves one in the slot of its result if the
    /// predicate holds of the operands, else zero, for every predicate and
    /// every width. It changes nothing else but W, the flags, the comparison
    /// byte and the first result byte.
    pub proof fn law_icmp_decides(&self, st: St, x: Icmp, base: int, m: Machine)
        requires
            ready(st, base, m),
            self.orders(x),
        ensures
            ready(self.icmp(st, x), base, m),
            ({
                let n = x.ty.bytes();
                let da = self.cx.slot(self.cx.fname(), x.dst@)->0;
                let b = exec(st.rows, base, m);
                let a = exec(self.icmp(st, x).rows, base, m);
                passes(b, a) && a.ram[da] == flag(
                    holds(x.pred, self.word_of(b, x.a, n), self.word_of(b, x.b, n), n),
                ) && (forall|z: u32|
                    z != da && z != self.scratch && z != self.retval ==> #[trigger] a.ram[z]
                        == b.ram[z])
            }),
    {
        let n = x.ty.bytes();
        let da = self.cx.slot(self.cx.fname(), x.dst@)->0;
        let b = exec(st.rows, base, m);
        if x.pred == Pred::Eq || x.pred == Pred::Ne {
            self.lemma_equal(st, x.a, x.b, x.ty, base, m);
            self.lemma_materialize(
                self.equal(st, x.a, x.b, x.ty),
                cond_of(x.pred),
                da,
                base,
                m,
            );
        } else {
            let sgn = is_signed(x.pred);
            let s1 = self.compare(st, x.a, x.b, x.ty, sgn);
            self.lemma_compare(st, x.a, x.b, x.ty, sgn, base, m);
            let mid = exec(s1.rows, base, m);
            if needs_z(x.pred) && n > 1 {
                self.lemma_equal(s1, x.a, x.b, x.ty, base, m);
                assert(self.word_of(mid, x.a, n) == self.word_of(b, x.a, n));
                assert(self.word_of(mid, x.b, n) == self.word_of(b, x.b, n));
                self.lemma_materialize(
                    self.equal(s1, x.a, x.b, x.ty),
                    cond_of(x.pred),
                    da,
                    base,
                    m,
                );
            } else {
                self.lemma_materialize(s1, cond_of(x.pred), da, base, m);
            }
        }
    }
}

} // verus!
