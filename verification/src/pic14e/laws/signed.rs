//! The signed division routines round toward zero.
use vstd::prelude::*;
use crate::emit::{at, clrf, f_op, goto_tmp, label_tmp, movlw, on_z, ram_bit, St};
use crate::line::{BitOp, Op, Sym};
use crate::machine::{bit_of, exec, group_exec, runs_to, settle, with_bit, Flow, Machine};
use crate::meaning::{
    apart, flag, kept, lemma_residue, lemma_word_kept, limit, magnitude, passed_over, passes,
    quotient, remainder, seeking, signed, word,
};
use crate::pic14e::laws::quotient::divided;
use crate::pic14e::laws::ready;
use crate::pic14e::routine::{bits_of, last_of, Division, LoopLabels};
use crate::pic14e::Gen;

verus! {

/// Where a signed division keeps its numbers.
pub open spec fn signed_layout(n: u8, num: u32, den: u32, scr: u32) -> Division {
    if n <= 2 {
        Division { num, den, rem: at(scr, 1), cnt: at(scr, 3) }
    } else {
        Division { num, den: at(scr, 4), rem: scr, cnt: at(scr, 8) }
    }
}

/// Where it keeps the signs.
pub open spec fn signed_flags(n: u8, scr: u32) -> u32 {
    if n <= 2 {
        scr
    } else {
        at(scr, 10)
    }
}

/// The label of its loop, of the labels from `next` on.
pub open spec fn signed_again(n: u8, next: u32) -> u32 {
    if n <= 2 {
        (next + 2) as u32
    } else {
        (next + 3) as u32
    }
}

/// The signs of two numbers as the flags hold them.
pub open spec fn signs(x: int, y: int) -> int {
    2 * flag(x < 0) + flag((x < 0) != (y < 0))
}

/// One byte of a negation takes the carry of the one below.
proof fn lemma_carry_link(st: St, x: u32, base: int, m: Machine)
    requires
        ready(st, base, m),
    ensures
        ({
            let s = st.emit(on_z(BitOp::Btfsc)).emit(f_op(Op::Incf, x));
            let b = exec(st.rows, base, m);
            let a = exec(s.rows, base, m);
            ready(s, base, m) && passes(b, a) && kept(b, a, x, 1) && a.ram[x] + 256 * flag(a.z)
                == b.ram[x] + flag(b.z)
        }),
{
    broadcast use group_exec;

}

proof fn lemma_inc_first(st: St, x: u32, base: int, m: Machine)
    requires
        ready(st, base, m),
    ensures
        ({
            let s = st.emit(f_op(Op::Incf, x));
            let b = exec(st.rows, base, m);
            let a = exec(s.rows, base, m);
            ready(s, base, m) && passes(b, a) && kept(b, a, x, 1) && a.ram[x] + 256 * flag(a.z)
                == b.ram[x] + 1
        }),
{
    broadcast use group_exec;

}

proof fn lemma_flip(st: St, x: u32, base: int, m: Machine)
    requires
        ready(st, base, m),
    ensures
        ({
            let s = st.emit(f_op(Op::Comf, x));
            let b = exec(st.rows, base, m);
            let a = exec(s.rows, base, m);
            ready(s, base, m) && passes(b, a) && kept(b, a, x, 1) && a.ram[x] == 255 - b.ram[x]
        }),
{
    broadcast use group_exec;

}

impl<'a> Gen<'a> {
    proof fn lemma_flip_from(&self, st: St, x: u32, n: u8, base: int, m: Machine)
        requires
            ready(st, base, m),
            n == 1 || n == 2 || n == 4,
            x <= 0x1_FFFF,
        ensures
            ({
                let s = self.flip_from(st, x, n, 0);
                let b = exec(st.rows, base, m);
                let a = exec(s.rows, base, m);
                ready(s, base, m) && passes(b, a) && kept(b, a, x, n as int) && word(a, x, n)
                    == limit(n) - 1 - word(b, x, n)
            }),
    {
        reveal_with_fuel(Gen::flip_from, 5);
        let s0 = st.emit(f_op(Op::Comf, at(x, 0)));
        lemma_flip(st, at(x, 0), base, m);
        if n > 1 {
            let s1 = s0.emit(f_op(Op::Comf, at(x, 1)));
            lemma_flip(s0, at(x, 1), base, m);
            if n > 2 {
                let s2 = s1.emit(f_op(Op::Comf, at(x, 2)));
                lemma_flip(s1, at(x, 2), base, m);
                lemma_flip(s2, at(x, 3), base, m);
            }
        }
    }

    proof fn lemma_carry_up(&self, st: St, x: u32, n: u8, base: int, m: Machine)
        requires
            ready(st, base, m),
            n == 1 || n == 2 || n == 4,
            x <= 0x1_FFFF,
        ensures
            ({
                let s = self.carry_up(st.emit(f_op(Op::Incf, x)), x, n, 1);
                let b = exec(st.rows, base, m);
                let a = exec(s.rows, base, m);
                ready(s, base, m) && passes(b, a) && kept(b, a, x, n as int) && (word(a, x, n)
                    == word(b, x, n) + 1 || word(a, x, n) == word(b, x, n) + 1 - limit(n))
            }),
    {
        reveal_with_fuel(Gen::carry_up, 4);
        let s0 = st.emit(f_op(Op::Incf, x));
        lemma_inc_first(st, x, base, m);
        if n > 1 {
            let s1 = s0.emit(on_z(BitOp::Btfsc)).emit(f_op(Op::Incf, at(x, 1)));
            lemma_carry_link(s0, at(x, 1), base, m);
            if n > 2 {
                let s2 = s1.emit(on_z(BitOp::Btfsc)).emit(f_op(Op::Incf, at(x, 2)));
                lemma_carry_link(s1, at(x, 2), base, m);
                lemma_carry_link(s2, at(x, 3), base, m);
            }
        }
    }

    /// A negation in place.
    pub(crate) proof fn lemma_negate(&self, st: St, x: u32, n: u8, base: int, m: Machine)
        requires
            ready(st, base, m),
            n == 1 || n == 2 || n == 4,
            x <= 0x1_FFFF,
        ensures
            ({
                let s = self.negate(st, x, n);
                let b = exec(st.rows, base, m);
                let a = exec(s.rows, base, m);
                ready(s, base, m) && passes(b, a) && kept(b, a, x, n as int) && word(a, x, n) == (
                -word(b, x, n)) % limit(n)
            }),
    {
        let b = exec(st.rows, base, m);
        let s1 = self.flip_from(st, x, n, 0);
        self.lemma_flip_from(st, x, n, base, m);
        self.lemma_carry_up(s1, x, n, base, m);
        let a = exec(self.negate(st, x, n).rows, base, m);
        lemma_residue(word(a, x, n), -word(b, x, n), n);
    }

    proof fn lemma_flip_over(&self, st: St, x: u32, n: u8, i: u8, base: int, m: Machine)
        requires
            seeking(st, base, m),
        ensures
            passed_over(st, self.flip_from(st, x, n, i), base, m),
        decreases n - i,
    {
        broadcast use group_exec;

        if i < n {
            self.lemma_flip_over(st.emit(f_op(Op::Comf, at(x, i))), x, n, (i + 1) as u8, base, m);
        }
    }

    proof fn lemma_carry_up_over(&self, st: St, x: u32, n: u8, i: u8, base: int, m: Machine)
        requires
            seeking(st, base, m),
        ensures
            passed_over(st, self.carry_up(st, x, n, i), base, m),
        decreases n - i,
    {
        broadcast use group_exec;

        if i < n {
            let s1 = st.emit(on_z(BitOp::Btfsc)).emit(f_op(Op::Incf, at(x, i)));
            self.lemma_carry_up_over(s1, x, n, (i + 1) as u8, base, m);
        }
    }

    pub(crate) proof fn lemma_negate_over(&self, st: St, x: u32, n: u8, base: int, m: Machine)
        requires
            seeking(st, base, m),
        ensures
            passed_over(st, self.negate(st, x, n), base, m),
    {
        self.lemma_flip_over(st, x, n, 0, base, m);
        let s1 = self.flip_from(st, x, n, 0);
        assert(passed_over(s1, s1.emit(f_op(Op::Incf, x)), base, m)) by {
            broadcast use group_exec;

        }
        self.lemma_carry_up_over(s1.emit(f_op(Op::Incf, x)), x, n, 1, base, m);
    }

    /// A number that was negated if its sign bit was set is a magnitude.
    proof fn lemma_magnitude(&self, b: Machine, a: Machine, x: u32, n: u8)
        requires
            n == 1 || n == 2 || n == 4,
            x <= 0x1_FFFF,
            if bit_of(b.ram[at(x, last_of(n))], 7) {
                word(a, x, n) == (-word(b, x, n)) % limit(n)
            } else {
                word(a, x, n) == word(b, x, n)
            },
        ensures
            bit_of(b.ram[at(x, last_of(n))], 7) == (signed(word(b, x, n), n) < 0),
            word(a, x, n) == magnitude(signed(word(b, x, n), n)),
    {
        assert(bit_of(b.ram[at(x, last_of(n))], 7) == (2 * word(b, x, n) >= limit(
            n,
        )));
        if 2 * word(b, x, n) >= limit(n) {
            lemma_residue(limit(n) - word(b, x, n), -word(b, x, n), n);
        }
    }

    /// The flags and the magnitude of the dividend.
    proof fn lemma_magnitude_num(
        &self,
        st: St,
        n: u8,
        num: u32,
        flags: u32,
        l_den: u32,
        base: int,
        m: Machine,
    )
        requires
            ready(st, base, m),
            n == 1 || n == 2 || n == 4,
            num <= 0x1_FFFF,
            flags <= 0x1_FFFF,
            apart(num, n as int, flags, 1),
        ensures
            ({
                let s = self.negate(
                    st.emit(clrf(flags)).emit(
                        ram_bit(BitOp::Btfss, at(num, last_of(n)), 7),
                    ).emit(goto_tmp(l_den)).emit(ram_bit(BitOp::Bsf, flags, 1)).emit(
                        ram_bit(BitOp::Bsf, flags, 0),
                    ),
                    num,
                    n,
                ).emit(label_tmp(l_den));
                let b = exec(st.rows, base, m);
                let a = exec(s.rows, base, m);
                let minus = signed(word(b, num, n), n) < 0;
                ready(s, base, m) && passes(b, a) && a.ram[flags] == (if minus {
                    3u8
                } else {
                    0u8
                }) && word(a, num, n) == magnitude(signed(word(b, num, n), n)) && (forall|x: u32|
                    (x < num || x >= num + n) && x != flags ==> #[trigger] a.ram[x] == b.ram[x])
            }),
    {
        let b = exec(st.rows, base, m);
        let top = at(num, last_of(n));
        let s1 = st.emit(clrf(flags)).emit(ram_bit(BitOp::Btfss, top, 7)).emit(
            goto_tmp(l_den),
        ).emit(ram_bit(BitOp::Bsf, flags, 1)).emit(ram_bit(BitOp::Bsf, flags, 0));
        let m1 = exec(s1.rows, base, m);
        let minus = bit_of(b.ram[top], 7);
        assert(top != flags);
        assert(m1 == (Machine {
            ram: b.ram.insert(flags, 0).insert(
                flags,
                if minus {
                    3
                } else {
                    0
                },
            ),
            z: true,
            flow: if minus {
                Flow::Next
            } else {
                Flow::Seek(Sym::Tmp(l_den))
            },
            cycles: m1.cycles,
            ..b
        })) by {
            broadcast use group_exec;

            assert(with_bit(0, 1, true) == 2);
            assert(with_bit(2, 0, true) == 3);
            assert(b.ram.insert(flags, 0).insert(flags, 2).insert(flags, 3) =~= b.ram.insert(
                flags,
                0,
            ).insert(flags, 3));
            assert(b.ram.insert(flags, 0).insert(flags, 0) =~= b.ram.insert(flags, 0));
        }
        lemma_word_kept(b, m1, num, n, flags, 1);
        let s2 = self.negate(s1, num, n);
        if minus {
            self.lemma_negate(s1, num, n, base, m);
        } else {
            self.lemma_negate_over(s1, num, n, base, m);
        }
        let m2 = exec(s2.rows, base, m);
        let a = exec(s2.emit(label_tmp(l_den)).rows, base, m);
        assert(a == (Machine { flow: Flow::Next, ..m2 })) by {
            broadcast use group_exec;

        }
        assert(word(a, num, n) == word(m2, num, n));
        self.lemma_magnitude(b, a, num, n);
        assert(m2.ram[flags] == m1.ram[flags]);
        assert forall|x: u32| (x < num || x >= num + n) && x != flags implies #[trigger] a.ram[x]
            == b.ram[x] by {
            assert(m2.ram[x] == m1.ram[x]);
        }
    }

    /// The magnitude of the divisor, and its share in the flags.
    proof fn lemma_magnitude_den(
        &self,
        st: St,
        n: u8,
        den: u32,
        flags: u32,
        l_go: u32,
        base: int,
        m: Machine,
    )
        requires
            ready(st, base, m),
            n == 1 || n == 2 || n == 4,
            den <= 0x1_FFFF,
            flags <= 0x1_FFFF,
            apart(den, n as int, flags, 1),
            exec(st.rows, base, m).ram[flags] == 0 || exec(st.rows, base, m).ram[flags] == 3,
        ensures
            ({
                let s = self.negate(
                    st.emit(ram_bit(BitOp::Btfss, at(den, last_of(n)), 7)).emit(goto_tmp(l_go)),
                    den,
                    n,
                ).emit(movlw(1)).emit(f_op(Op::Xorwf, flags)).emit(label_tmp(l_go));
                let b = exec(st.rows, base, m);
                let a = exec(s.rows, base, m);
                let minus = signed(word(b, den, n), n) < 0;
                ready(s, base, m) && passes(b, a) && a.ram[flags] == (if !minus {
                    b.ram[flags] as int
                } else if b.ram[flags] == 0 {
                    1
                } else {
                    2
                }) && word(a, den, n) == magnitude(signed(word(b, den, n), n)) && (forall|x: u32|
                    (x < den || x >= den + n) && x != flags ==> #[trigger] a.ram[x] == b.ram[x])
            }),
    {
        let b = exec(st.rows, base, m);
        let top = at(den, last_of(n));
        let s1 = st.emit(ram_bit(BitOp::Btfss, top, 7)).emit(goto_tmp(l_go));
        let m1 = exec(s1.rows, base, m);
        let minus = bit_of(b.ram[top], 7);
        assert(m1 == (Machine {
            flow: if minus {
                Flow::Next
            } else {
                Flow::Seek(Sym::Tmp(l_go))
            },
            cycles: m1.cycles,
            ..b
        })) by {
            broadcast use group_exec;

        }
        let s2 = self.negate(s1, den, n);
        if minus {
            self.lemma_negate(s1, den, n, base, m);
        } else {
            self.lemma_negate_over(s1, den, n, base, m);
        }
        let m2 = exec(s2.rows, base, m);
        let s3 = s2.emit(movlw(1)).emit(f_op(Op::Xorwf, flags)).emit(label_tmp(l_go));
        let a = exec(s3.rows, base, m);
        assert(0u8 ^ 1u8 == 1u8 && 3u8 ^ 1u8 == 2u8 && 1u8 ^ 0u8 == 1u8 && 1u8 ^ 3u8 == 2u8)
            by (bit_vector);
        assert(m2.ram[flags] == b.ram[flags]);
        assert(passes(b, a) && ready(s3, base, m) && kept(m2, a, flags, 1) && a.ram[flags] == (
        if !minus {
            b.ram[flags] as int
        } else if b.ram[flags] == 0 {
            1
        } else {
            2
        })) by {
            broadcast use group_exec;

        }
        lemma_word_kept(m2, a, den, n, flags, 1);
        self.lemma_magnitude(b, a, den, n);
        assert forall|x: u32| (x < den || x >= den + n) && x != flags implies #[trigger] a.ram[x]
            == b.ram[x] by {
            assert(m2.ram[x] == m1.ram[x]);
        }
    }

    /// Both operands become their magnitudes, and the flags say which of the
    /// results are negative.
    pub(crate) proof fn lemma_magnitudes(
        &self,
        st: St,
        n: u8,
        num: u32,
        den: u32,
        flags: u32,
        l_den: u32,
        l_go: u32,
        base: int,
        m: Machine,
    )
        requires
            ready(st, base, m),
            n == 1 || n == 2 || n == 4,
            num <= 0x1_FFFF,
            den <= 0x1_FFFF,
            flags <= 0x1_FFFF,
            apart(num, n as int, flags, 1),
            apart(den, n as int, flags, 1),
            apart(num, n as int, den, n as int),
        ensures
            ({
                let s = self.magnitudes(st, n, num, den, flags, l_den, l_go);
                let b = exec(st.rows, base, m);
                let a = exec(s.rows, base, m);
                let x = signed(word(b, num, n), n);
                let y = signed(word(b, den, n), n);
                ready(s, base, m) && passes(b, a) && a.ram[flags] == 2 * flag(x < 0) + flag(
                    (x < 0) != (y < 0),
                ) && word(a, num, n) == magnitude(x) && word(a, den, n) == magnitude(y)
            }),
    {
        let b = exec(st.rows, base, m);
        let s0 = st.emit(clrf(flags)).emit(ram_bit(BitOp::Btfss, at(num, last_of(n)), 7)).emit(
            goto_tmp(l_den),
        ).emit(ram_bit(BitOp::Bsf, flags, 1)).emit(ram_bit(BitOp::Bsf, flags, 0));
        let s1 = self.negate(s0, num, n).emit(label_tmp(l_den));
        self.lemma_magnitude_num(st, n, num, flags, l_den, base, m);
        let m1 = exec(s1.rows, base, m);
        assert(word(m1, den, n) == word(b, den, n));
        self.lemma_magnitude_den(s1, n, den, flags, l_go, base, m);
        let a = exec(self.magnitudes(st, n, num, den, flags, l_den, l_go).rows, base, m);
        assert(word(a, num, n) == word(m1, num, n));
    }

    pub(crate) proof fn lemma_magnitudes_over(
        &self,
        st: St,
        n: u8,
        num: u32,
        den: u32,
        flags: u32,
        l_den: u32,
        l_go: u32,
        base: int,
        m: Machine,
    )
        requires
            seeking(st, base, m),
            exec(st.rows, base, m).flow != Flow::Seek(Sym::Tmp(l_den)),
            exec(st.rows, base, m).flow != Flow::Seek(Sym::Tmp(l_go)),
        ensures
            passed_over(st, self.magnitudes(st, n, num, den, flags, l_den, l_go), base, m),
    {
        let top = last_of(n);
        let s1 = st.emit(clrf(flags)).emit(ram_bit(BitOp::Btfss, at(num, top), 7)).emit(
            goto_tmp(l_den),
        ).emit(ram_bit(BitOp::Bsf, flags, 1)).emit(ram_bit(BitOp::Bsf, flags, 0));
        assert(passed_over(st, s1, base, m)) by {
            broadcast use group_exec;

        }
        self.lemma_negate_over(s1, num, n, base, m);
        let s2 = self.negate(s1, num, n);
        let s3 = s2.emit(label_tmp(l_den)).emit(ram_bit(BitOp::Btfss, at(den, top), 7)).emit(
            goto_tmp(l_go),
        );
        assert(passed_over(s2, s3, base, m)) by {
            broadcast use group_exec;

        }
        self.lemma_negate_over(s3, den, n, base, m);
        let s4 = self.negate(s3, den, n);
        assert(passed_over(
            s4,
            s4.emit(movlw(1)).emit(f_op(Op::Xorwf, flags)).emit(label_tmp(l_go)),
            base,
            m,
        )) by {
            broadcast use group_exec;

        }
    }

    /// The end of the routine: the result with its sign.
    pub(crate) proof fn lemma_signed_result(
        &self,
        st: St,
        n: u8,
        flags: u32,
        bit: u8,
        x: u32,
        l_store: u32,
        base: int,
        m: Machine,
    )
        requires
            ready(st, base, m),
            n == 1 || n == 2 || n == 4,
            x <= 0x1_FFFF,
            self.retval <= 0x1_FFFF,
            apart(x, n as int, self.retval, n as int),
            bit == 0 || bit == 1,
        ensures
            ({
                let b = exec(st.rows, base, m);
                let a = exec(self.signed_result(st, n, flags, bit, x, l_store).rows, base, m);
                a.flow is Gone && word(a, self.retval, n) == (if bit_of(
                    b.ram[flags],
                    bit,
                ) {
                    -word(b, x, n)
                } else {
                    word(b, x, n)
                }) % limit(n)
            }),
    {
        let b = exec(st.rows, base, m);
        let s1 = st.emit(ram_bit(BitOp::Btfss, flags, bit)).emit(goto_tmp(l_store));
        let m1 = exec(s1.rows, base, m);
        let minus = bit_of(b.ram[flags], bit);
        assert(m1 == (Machine {
            flow: if minus {
                Flow::Next
            } else {
                Flow::Seek(Sym::Tmp(l_store))
            },
            cycles: m1.cycles,
            ..b
        })) by {
            broadcast use group_exec;

        }
        let s2 = self.negate(s1, x, n);
        if minus {
            self.lemma_negate(s1, x, n, base, m);
        } else {
            self.lemma_negate_over(s1, x, n, base, m);
            lemma_residue(word(b, x, n), word(b, x, n), n);
        }
        let m2 = exec(s2.rows, base, m);
        let s3 = s2.emit(label_tmp(l_store));
        let m3 = exec(s3.rows, base, m);
        assert(m3 == (Machine { flow: Flow::Next, ..m2 })) by {
            broadcast use group_exec;

        }
        assert(word(m3, x, n) == word(m2, x, n));
        self.lemma_give_back(s3, x, n, base, m);
    }

    pub(crate) proof fn lemma_signed_result_over(
        &self,
        st: St,
        n: u8,
        flags: u32,
        bit: u8,
        x: u32,
        l_store: u32,
        base: int,
        m: Machine,
    )
        requires
            seeking(st, base, m),
            exec(st.rows, base, m).flow != Flow::Seek(Sym::Tmp(l_store)),
        ensures
            passed_over(st, self.signed_result(st, n, flags, bit, x, l_store), base, m),
    {
        let s1 = st.emit(ram_bit(BitOp::Btfss, flags, bit)).emit(goto_tmp(l_store));
        assert(passed_over(st, s1, base, m)) by {
            broadcast use group_exec;

        }
        self.lemma_negate_over(s1, x, n, base, m);
        let s2 = self.negate(s1, x, n);
        let s3 = s2.emit(label_tmp(l_store));
        assert(passed_over(s2, s3, base, m)) by {
            broadcast use group_exec;

        }
        self.lemma_give_back_over(s3, x, n, base, m);
    }

    proof fn lemma_negate_next(&self, st: St, x: u32, n: u8)
        requires
            n == 1 || n == 2 || n == 4,
        ensures
            self.negate(st, x, n).next == st.next,
    {
        reveal_with_fuel(Gen::flip_from, 5);
        reveal_with_fuel(Gen::carry_up, 4);
    }

    /// What a signed division does before it divides.
    pub open spec fn signed_start(&self, st: St, n: u8, num: u32, den: u32, scr: u32) -> St {
        let flags = signed_flags(n, scr);
        if n <= 2 {
            let s = st.bump().bump().bump().bump().bump().bump();
            self.magnitudes(s, n, num, den, flags, st.next, st.bump().next)
        } else {
            let s = st.bump().bump().bump();
            let s = self.magnitudes(s, n, num, den, flags, st.next, st.bump().next);
            self.copy_bytes(s, den, at(scr, 4), 4, 0).bump().bump().bump()
        }
    }

    /// Its division.
    pub open spec fn signed_middle(&self, st: St, n: u8, num: u32, den: u32, scr: u32) -> St {
        let again = signed_again(n, st.next);
        self.divide(
            self.signed_start(st, n, num, den, scr),
            n,
            signed_layout(n, num, den, scr),
            (LoopLabels { again, restore: (again + 1) as u32, next: (again + 2) as u32 }),
        )
    }

    /// The label at its end.
    pub open spec fn signed_store(&self, st: St, n: u8) -> u32 {
        if n <= 2 {
            (st.next + 5) as u32
        } else {
            (st.next + 2) as u32
        }
    }

    /// The routine without its checks.
    pub open spec fn signed_rows(
        &self,
        st: St,
        n: u8,
        quotient: bool,
        num: u32,
        den: u32,
        scr: u32,
    ) -> St {
        let d = signed_layout(n, num, den, scr);
        self.signed_result(
            self.signed_middle(st, n, num, den, scr),
            n,
            signed_flags(n, scr),
            if quotient {
                0
            } else {
                1
            },
            if quotient {
                d.num
            } else {
                d.rem
            },
            self.signed_store(st, n),
        )
    }

    proof fn lemma_signed_shape(
        &self,
        st: St,
        n: u8,
        quotient: bool,
        num: u32,
        den: u32,
        scr: u32,
    )
        requires
            n == 1 || n == 2 || n == 4,
            st.next < u32::MAX - 6,
        ensures
            n <= 2 ==> self.signed_short(st, n, quotient, num, den, scr) == self.signed_rows(
                st,
                n,
                quotient,
                num,
                den,
                scr,
            ),
            n == 4 ==> self.signed_long(st, quotient, num, den, scr) == self.signed_rows(
                st,
                n,
                quotient,
                num,
                den,
                scr,
            ),
    {
        if n == 4 {
            let flags = at(scr, 10);
            let s0 = st.bump().bump().bump();
            let s1 = s0.emit(clrf(flags)).emit(ram_bit(BitOp::Btfss, at(num, 3), 7)).emit(
                goto_tmp(st.next),
            ).emit(ram_bit(BitOp::Bsf, flags, 1)).emit(ram_bit(BitOp::Bsf, flags, 0));
            self.lemma_negate_next(s1, num, 4);
            let s2 = self.negate(s1, num, 4).emit(label_tmp(st.next)).emit(
                ram_bit(BitOp::Btfss, at(den, 3), 7),
            ).emit(goto_tmp(st.bump().next));
            self.lemma_negate_next(s2, den, 4);
            let s3 = self.magnitudes(s0, 4, num, den, flags, st.next, st.bump().next);
            assert(s3.next == s0.next);
            self.lemma_copy_next(s3, den, at(scr, 4), 4, 0);
        }
    }

    proof fn lemma_signed_start(
        &self,
        st: St,
        n: u8,
        num: u32,
        den: u32,
        scr: u32,
        base: int,
        m: Machine,
    )
        requires
            self.div_slots(n, num, den, scr),
            ready(st, base, m),
        ensures
            ({
                let d = signed_layout(n, num, den, scr);
                let s = self.signed_start(st, n, num, den, scr);
                let b = exec(st.rows, base, m);
                let a = exec(s.rows, base, m);
                let x = signed(word(b, num, n), n);
                let y = signed(word(b, den, n), n);
                ready(s, base, m) && a.ram[signed_flags(n, scr)] == signs(x, y) && word(
                    a,
                    d.num,
                    n,
                ) == magnitude(x) && word(a, d.den, n) == magnitude(y)
            }),
    {
        let flags = signed_flags(n, scr);
        if n <= 2 {
            let s = st.bump().bump().bump().bump().bump().bump();
            self.lemma_magnitudes(s, n, num, den, flags, st.next, st.bump().next, base, m);
        } else {
            let s = st.bump().bump().bump();
            self.lemma_magnitudes(s, n, num, den, flags, st.next, st.bump().next, base, m);
            let s1 = self.magnitudes(s, n, num, den, flags, st.next, st.bump().next);
            self.lemma_copied(s1, den, at(scr, 4), 4, base, m);
            let m1 = exec(s1.rows, base, m);
            let a = exec(self.signed_start(st, n, num, den, scr).rows, base, m);
            lemma_word_kept(m1, a, num, 4, at(scr, 4), 4);
        }
    }

    proof fn lemma_signed_start_over(
        &self,
        st: St,
        n: u8,
        num: u32,
        den: u32,
        scr: u32,
        base: int,
        m: Machine,
    )
        requires
            self.div_slots(n, num, den, scr),
            seeking(st, base, m),
            st.next < u32::MAX - 6,
            exec(st.rows, base, m).flow == Flow::Seek(Sym::Tmp(signed_again(n, st.next))),
        ensures
            passed_over(st, self.signed_start(st, n, num, den, scr), base, m),
    {
        let flags = signed_flags(n, scr);
        if n <= 2 {
            let s = st.bump().bump().bump().bump().bump().bump();
            self.lemma_magnitudes_over(s, n, num, den, flags, st.next, st.bump().next, base, m);
        } else {
            let s = st.bump().bump().bump();
            self.lemma_magnitudes_over(s, n, num, den, flags, st.next, st.bump().next, base, m);
            let s1 = self.magnitudes(s, n, num, den, flags, st.next, st.bump().next);
            self.lemma_copy_over(s1, den, at(scr, 4), 4, 0, base, m);
        }
    }

    /// Where a signed division has got to after `k` turns.
    pub open spec fn signed_dividing(
        &self,
        st: St,
        n: u8,
        num: u32,
        den: u32,
        scr: u32,
        m: Machine,
        k: int,
        x: int,
        y: int,
    ) -> bool {
        if k == 0 {
            &&& st.w is None
            &&& m.flow is Next
            &&& m.core is Enhanced
            &&& signed(word(m, num, n), n) == x
            &&& signed(word(m, den, n), n) == y
        } else {
            &&& m.flow == Flow::Seek(Sym::Tmp(signed_again(n, st.next)))
            &&& m.ram[signed_flags(n, scr)] == signs(x, y)
            &&& divided(signed_layout(n, num, den, scr), n, m, k, magnitude(x), magnitude(y))
        }
    }

    proof fn lemma_signed_pass(
        &self,
        st: St,
        n: u8,
        quot: bool,
        num: u32,
        den: u32,
        scr: u32,
        m: Machine,
        k: int,
        x: int,
        y: int,
    )
        requires
            self.div_slots(n, num, den, scr),
            st.next < u32::MAX - 6,
            0 <= k < bits_of(n),
            y != 0,
            self.signed_dividing(st, n, num, den, scr, m, k, x, y),
        ensures
            ({
                let a = exec(
                    self.signed_rows(st, n, quot, num, den, scr).rows,
                    st.rows.len() as int,
                    m,
                );
                if k + 1 == bits_of(n) {
                    a.flow is Gone && word(a, self.retval, n) == (if quot {
                        quotient(x, y)
                    } else {
                        remainder(x, y)
                    }) % limit(n)
                } else {
                    self.signed_dividing(st, n, num, den, scr, a, k + 1, x, y)
                }
            }),
    {
        let base = st.rows.len() as int;
        assert(exec(st.rows, base, m) == m) by {
            broadcast use group_exec;

        }
        let d = signed_layout(n, num, den, scr);
        let flags = signed_flags(n, scr);
        let again = signed_again(n, st.next);
        let s1 = self.signed_start(st, n, num, den, scr);
        if k == 0 {
            self.lemma_signed_start(st, n, num, den, scr, base, m);
        } else {
            self.lemma_signed_start_over(st, n, num, den, scr, base, m);
        }
        let l = LoopLabels { again, restore: (again + 1) as u32, next: (again + 2) as u32 };
        let s2 = self.divide(s1, n, d, l);
        self.lemma_divide_pass(s1, n, d, l, k, magnitude(x), magnitude(y), base, m);
        let m1 = exec(s1.rows, base, m);
        let m2 = exec(s2.rows, base, m);
        assert(m2.ram[flags] == m1.ram[flags]);
        let bit: u8 = if quot {
            0
        } else {
            1
        };
        let src = if quot {
            d.num
        } else {
            d.rem
        };
        let l_store = self.signed_store(st, n);
        if k + 1 == bits_of(n) {
            crate::pic14e::laws::quotient::lemma_divided_all(
                d,
                n,
                m2,
                magnitude(x),
                magnitude(y),
            );
            self.lemma_signed_result(s2, n, flags, bit, src, l_store, base, m);
            if n == 1 && !quot {
                assert(word(m2, d.rem, 1) == word(m2, d.rem, 2));
            }
            assert(bit_of(m2.ram[flags], 0) == ((x < 0) != (y < 0)));
            assert(bit_of(m2.ram[flags], 1) == (x < 0));
        } else {
            self.lemma_signed_result_over(s2, n, flags, bit, src, l_store, base, m);
        }
    }

    proof fn lemma_signed_turns(
        &self,
        st: St,
        n: u8,
        quot: bool,
        num: u32,
        den: u32,
        scr: u32,
        m: Machine,
        k: int,
        x: int,
        y: int,
    )
        requires
            self.div_slots(n, num, den, scr),
            st.next < u32::MAX - 6,
            0 <= k < bits_of(n),
            y != 0,
            self.signed_dividing(st, n, num, den, scr, m, k, x, y),
        ensures
            ({
                let a = settle(
                    self.signed_rows(st, n, quot, num, den, scr).rows,
                    st.rows.len() as int,
                    m,
                    (bits_of(n) - k) as nat,
                );
                a.flow is Gone && word(a, self.retval, n) == (if quot {
                    quotient(x, y)
                } else {
                    remainder(x, y)
                }) % limit(n)
            }),
        decreases bits_of(n) - k,
    {
        self.lemma_signed_pass(st, n, quot, num, den, scr, m, k, x, y);
        let rows = self.signed_rows(st, n, quot, num, den, scr).rows;
        let a = exec(rows, st.rows.len() as int, m);
        if k + 1 < bits_of(n) {
            self.lemma_signed_turns(st, n, quot, num, den, scr, a, k + 1, x, y);
        }
    }

    /// The signed division routine leaves the quotient, rounded toward zero,
    /// or the remainder, with the sign of the dividend, in the result bytes,
    /// for every divisor but zero. The quotient that is one too large for its
    /// width wraps.
    pub proof fn law_signed_div_divides(
        &self,
        st: St,
        n: u8,
        quot: bool,
        num: u32,
        den: u32,
        scr: u32,
        m: Machine,
    )
        requires
            self.div_slots(n, num, den, scr),
            st.next < u32::MAX - 6,
            st.w is None,
            m.flow is Next,
            m.core is Enhanced,
            word(m, den, n) != 0,
        ensures
            exists|a: Machine| #[trigger]
                runs_to(
                    self.signed_div(st, n, quot, num, den, scr).rows,
                    st.rows.len() as int,
                    m,
                    a,
                ) && a.flow is Gone && word(a, self.retval, n) == (if quot {
                    quotient(signed(word(m, num, n), n), signed(word(m, den, n), n))
                } else {
                    remainder(signed(word(m, num, n), n), signed(word(m, den, n), n))
                }) % limit(n),
    {
        let x = signed(word(m, num, n), n);
        let y = signed(word(m, den, n), n);
        let s0 = if n == 1 {
            self.one_bank(st, num, num, den, den, scr, at(scr, 4))
        } else if n == 2 {
            self.one_bank(st, num, at(num, 1), den, at(den, 1), scr, at(scr, 6))
        } else {
            self.one_bank(st, num, at(num, 3), den, at(den, 3), scr, at(scr, 11))
        };
        assert(s0.rows == st.rows && s0.next == st.next && s0.w == st.w);
        self.lemma_signed_shape(s0, n, quot, num, den, scr);
        let rows = self.signed_div(st, n, quot, num, den, scr).rows;
        assert(rows == self.signed_rows(s0, n, quot, num, den, scr).rows);
        self.lemma_signed_turns(s0, n, quot, num, den, scr, m, 0, x, y);
        let a = settle(rows, st.rows.len() as int, m, bits_of(n) as nat);
        assert(runs_to(rows, st.rows.len() as int, m, a));
    }

    /// The two signed routines belong together: the quotient times the divisor
    /// plus the remainder is the dividend, the remainder is smaller than the
    /// divisor and has the sign of the dividend. The least number by minus one is
    /// the least number again, and nothing is left.
    pub proof fn law_signed_quotient_and_remainder(
        &self,
        st: St,
        n: u8,
        num: u32,
        den: u32,
        scr: u32,
        m: Machine,
    )
        requires
            self.div_slots(n, num, den, scr),
            st.next < u32::MAX - 6,
            st.w is None,
            m.flow is Next,
            m.core is Enhanced,
            word(m, den, n) != 0,
        ensures
            exists|a: Machine, b: Machine| #[trigger]
                runs_to(
                    self.signed_div(st, n, true, num, den, scr).rows,
                    st.rows.len() as int,
                    m,
                    a,
                ) && #[trigger] runs_to(
                    self.signed_div(st, n, false, num, den, scr).rows,
                    st.rows.len() as int,
                    m,
                    b,
                ) && a.flow is Gone && b.flow is Gone && belong(
                    signed(word(m, num, n), n),
                    signed(word(m, den, n), n),
                    signed(word(a, self.retval, n), n),
                    signed(word(b, self.retval, n), n),
                    n,
                ),
    {
        self.law_signed_div_divides(st, n, true, num, den, scr, m);
        self.law_signed_div_divides(st, n, false, num, den, scr, m);
        let (x, y) = (signed(word(m, num, n), n), signed(word(m, den, n), n));
        let base = st.rows.len() as int;
        let rq = self.signed_div(st, n, true, num, den, scr).rows;
        let rr = self.signed_div(st, n, false, num, den, scr).rows;
        let a = choose|a: Machine| #[trigger]
            runs_to(rq, base, m, a) && a.flow is Gone && word(a, self.retval, n) == quotient(x, y)
                % limit(n);
        let b = choose|b: Machine| #[trigger]
            runs_to(rr, base, m, b) && b.flow is Gone && word(b, self.retval, n) == remainder(x, y)
                % limit(n);
        lemma_belong(x, y, n);
    }
}

/// Whether `q` and `r` are the quotient and the remainder of `x` by `y`, numbers
/// of `n` bytes.
pub open spec fn belong(x: int, y: int, q: int, r: int, n: u8) -> bool {
    &&& magnitude(r) < magnitude(y)
    &&& r == 0 || (r < 0) == (x < 0)
    &&& if 2 * x == -limit(n) && y == -1 {
        q == x && r == 0
    } else {
        x == q * y + r
    }
}

proof fn lemma_belong(x: int, y: int, n: u8)
    requires
        n == 1 || n == 2 || n == 4,
        -limit(n) <= 2 * x < limit(n),
        -limit(n) <= 2 * y < limit(n),
        y != 0,
    ensures
        belong(
            x,
            y,
            signed(quotient(x, y) % limit(n), n),
            signed(remainder(x, y) % limit(n), n),
            n,
        ),
{
    let (a, b) = (magnitude(x), magnitude(y));
    let (k, r) = (a / b, a % b);
    assert(a == b * k + r && 0 <= r < b && 0 <= k <= a) by (nonlinear_arith)
        requires
            a >= 0,
            b > 0,
            k == a / b,
            r == a % b,
    ;
    assert(r <= a) by (nonlinear_arith)
        requires
            a == b * k + r,
            b > 0,
            k >= 0,
    ;
    let q = quotient(x, y);
    if 2 * x == -limit(n) && y == -1 {
        assert(k == a) by (nonlinear_arith)
            requires
                k == a / b,
                b == 1,
        ;
        assert(r == 0) by (nonlinear_arith)
            requires
                a == b * k + r,
                b == 1,
                k == a,
        ;
    } else {
        if 2 * x == -limit(n) && b >= 2 {
            assert(2 * k <= a) by (nonlinear_arith)
                requires
                    a == b * k + r,
                    b >= 2,
                    k >= 0,
                    r >= 0,
            ;
        }
        if b == 1 && y == 1 {
            assert(k == a) by (nonlinear_arith)
                requires
                    k == a / b,
                    b == 1,
            ;
        }
        assert(-limit(n) <= 2 * q < limit(n));
        lemma_wrapped(q, n);
        lemma_wrapped(remainder(x, y), n);
        assert(x == q * y + remainder(x, y)) by (nonlinear_arith)
            requires
                a == b * k + r,
                a == (if x < 0 {
                    -x
                } else {
                    x
                }),
                b == (if y < 0 {
                    -y
                } else {
                    y
                }),
                q == (if (x < 0) != (y < 0) {
                    -k
                } else {
                    k
                }),
                remainder(x, y) == (if x < 0 {
                    -r
                } else {
                    r
                }),
        ;
    }
}

/// A number that fits comes back from its bytes.
proof fn lemma_wrapped(x: int, n: u8)
    requires
        n == 1 || n == 2 || n == 4,
        -limit(n) <= 2 * x < limit(n),
    ensures
        signed(x % limit(n), n) == x,
{
}

} // verus!
