//! The turns of a division.
use vstd::prelude::*;
use crate::emit::{at, goto_tmp, label_tmp, on_c, ram_bit, St};
use crate::line::{BitOp, Sym};
use crate::machine::{exec, group_exec, wrap, Flow, Machine};
use crate::meaning::{
    apart, carried, flag, kept, lemma_residue, lemma_word_kept, limit, passed_over, passes, seeking,
    word,
};
use crate::pic14e::laws::multiply::lemma_count_down;
use crate::pic14e::laws::ready;
use crate::pic14e::routine::{rem_bytes, Division, LoopLabels};
use crate::pic14e::Gen;

verus! {

/// Whether the numbers of a division of `n` bytes share no byte.
pub open spec fn div_wf(d: Division, n: u8) -> bool {
    let rn = rem_bytes(n) as int;
    &&& n == 1 || n == 2 || n == 4
    &&& d.num <= 0x1_FFF0 && d.den <= 0x1_FFF0 && d.rem <= 0x1_FFF0 && d.cnt <= 0x1_FFF0
    &&& apart(d.num, n as int, d.den, n as int)
    &&& apart(d.num, n as int, d.rem, rn)
    &&& apart(d.num, n as int, d.cnt, 1)
    &&& apart(d.den, n as int, d.rem, rn)
    &&& apart(d.den, n as int, d.cnt, 1)
    &&& apart(d.rem, rn, d.cnt, 1)
}

/// Whether a byte is outside what a division changes.
pub open spec fn div_outside(d: Division, n: u8, x: u32) -> bool {
    &&& x < d.num || x >= d.num + n
    &&& x < d.rem || x >= d.rem + rem_bytes(n)
    &&& x != d.cnt
}

/// Whether nothing changed but the numbers of a division.
pub open spec fn div_alike(d: Division, n: u8, b: Machine, a: Machine) -> bool {
    &&& a.core == b.core
    &&& a.fsr0 == b.fsr0
    &&& a.pclath == b.pclath
    &&& a.links == b.links
    &&& forall|x: u32| div_outside(d, n, x) ==> #[trigger] a.ram[x] == b.ram[x]
}

/// The remainder with the next bit of the dividend.
pub open spec fn brought(d: Division, n: u8, m: Machine) -> int {
    2 * word(m, d.rem, rem_bytes(n)) + flag(2 * word(m, d.num, n) >= limit(n))
}

/// Whether one turn of a division leads from `b` to `a`, as far as the
/// numbers go.
pub open spec fn div_turned(d: Division, n: u8, b: Machine, a: Machine) -> bool {
    let t = brought(d, n, b);
    let fits = t >= word(b, d.den, n);
    &&& word(a, d.num, n) == (2 * word(b, d.num, n)) % limit(n) + flag(fits)
    &&& word(a, d.rem, rem_bytes(n)) == t - (if fits {
        word(b, d.den, n)
    } else {
        0
    })
    &&& word(a, d.den, n) == word(b, d.den, n)
    &&& a.ram[d.cnt] == wrap(b.ram[d.cnt] - 1)
    &&& div_alike(d, n, b, a)
}

/// Taking away, and adding back where it did not fit, on numbers below `l`.
proof fn lemma_restoring(t: int, d: int, r1: int, c1: bool, r2: int, c2: bool, l: int)
    requires
        0 <= t < l,
        0 <= d < l,
        0 <= r1 < l,
        0 <= r2 < l,
        r1 - (if !c1 {
            l
        } else {
            0
        }) == t - d,
        if c1 {
            r2 == r1
        } else {
            r2 + (if c2 {
                l
            } else {
                0
            }) == r1 + d
        },
    ensures
        c1 == (t >= d),
        r2 == t - (if c1 {
            d
        } else {
            0
        }),
{
}

proof fn lemma_even(u: int, n: u8)
    requires
        n == 1 || n == 2 || n == 4,
    ensures
        ((2 * u) % limit(n)) % 2 == 0,
{
    let l = limit(n);
    let q = (2 * u) / l;
    assert((2 * u) % l == 2 * u - l * q);
    if n == 1 {
        assert((2 * u) % l == 2 * (u - 128 * q));
    } else if n == 2 {
        assert((2 * u) % l == 2 * (u - 0x8000 * q));
    } else {
        assert((2 * u) % l == 2 * (u - 0x8000_0000 * q));
    }
}

impl<'a> Gen<'a> {
    proof fn lemma_sub_bit(&self, st: St, a: u32, base: int, m: Machine)
        requires
            ready(st, base, m),
        ensures
            ready(self.sub_bit(st, a), base, m),
            ({
                let b = exec(st.rows, base, m);
                let y = exec(self.sub_bit(st, a).rows, base, m);
                passes(b, y) && kept(b, y, a, 1) && y.ram[a] - 256 * flag(!y.c) == b.ram[a] - flag(
                    !b.c,
                )
            }),
    {
        broadcast use group_exec;

    }

    proof fn lemma_add_bit(&self, st: St, a: u32, base: int, m: Machine)
        requires
            ready(st, base, m),
        ensures
            ready(self.add_bit(st, a), base, m),
            ({
                let b = exec(st.rows, base, m);
                let y = exec(self.add_bit(st, a).rows, base, m);
                passes(b, y) && kept(b, y, a, 1) && y.ram[a] + 256 * flag(y.c) == b.ram[a] + flag(
                    b.c,
                )
            }),
    {
        broadcast use group_exec;

    }

    proof fn lemma_add_bit_over(&self, st: St, a: u32, base: int, m: Machine)
        requires
            seeking(st, base, m),
        ensures
            passed_over(st, self.add_bit(st, a), base, m),
    {
        broadcast use group_exec;

    }

    /// The divisor taken away from the remainder.
    proof fn lemma_take(&self, st: St, n: u8, d: Division, base: int, m: Machine)
        requires
            div_wf(d, n),
            ready(st, base, m),
        ensures
            ({
                let s = self.sub_bytes(st, d.den, d.rem, n);
                let s = if n == 1 {
                    self.sub_bit(s, at(d.rem, 1))
                } else {
                    s
                };
                let b = exec(st.rows, base, m);
                let a = exec(s.rows, base, m);
                ready(s, base, m) && passes(b, a) && kept(b, a, d.rem, rem_bytes(n) as int) && word(
                    a,
                    d.rem,
                    rem_bytes(n),
                ) - carried(rem_bytes(n), !a.c) == word(b, d.rem, rem_bytes(n)) - word(b, d.den, n)
            }),
    {
        self.lemma_sub_bytes(st, d.den, d.rem, n, base, m);
        if n == 1 {
            self.lemma_sub_bit(self.sub_bytes(st, d.den, d.rem, n), at(d.rem, 1), base, m);
        }
    }

    /// The divisor added back.
    proof fn lemma_put_back(&self, st: St, n: u8, d: Division, base: int, m: Machine)
        requires
            div_wf(d, n),
            ready(st, base, m),
        ensures
            ({
                let s = self.add_bytes(st, d.den, d.rem, n);
                let s = if n == 1 {
                    self.add_bit(s, at(d.rem, 1))
                } else {
                    s
                };
                let b = exec(st.rows, base, m);
                let a = exec(s.rows, base, m);
                ready(s, base, m) && passes(b, a) && kept(b, a, d.rem, rem_bytes(n) as int) && word(
                    a,
                    d.rem,
                    rem_bytes(n),
                ) + carried(rem_bytes(n), a.c) == word(b, d.rem, rem_bytes(n)) + word(b, d.den, n)
            }),
    {
        self.lemma_add_bytes(st, d.den, d.rem, n, base, m);
        if n == 1 {
            self.lemma_add_bit(self.add_bytes(st, d.den, d.rem, n), at(d.rem, 1), base, m);
        }
    }

    /// The next bit of the dividend moves into the remainder.
    proof fn lemma_div_shift(
        &self,
        st: St,
        n: u8,
        d: Division,
        again: u32,
        base: int,
        m: Machine,
    )
        requires
            div_wf(d, n),
            0 <= base <= st.rows.len(),
            exec(st.rows, base, m).core is Enhanced,
            exec(st.rows, base, m).flow == Flow::Next || exec(st.rows, base, m).flow == Flow::Seek(
                Sym::Tmp(again),
            ),
            2 * word(exec(st.rows, base, m), d.rem, rem_bytes(n)) + 1 < limit(rem_bytes(n)),
        ensures
            ({
                let rn = rem_bytes(n);
                let s0 = st.emit(label_tmp(again)).emit(on_c(BitOp::Bcf));
                let s = self.rotate_up(self.rotate_up(s0, d.num, n, 0), d.rem, rn, 0);
                let b = exec(st.rows, base, m);
                let a = exec(s.rows, base, m);
                ready(s, base, m) && div_alike(d, n, b, a) && word(a, d.num, n) == (2 * word(
                    b,
                    d.num,
                    n,
                )) % limit(n) && word(a, d.rem, rn) == brought(d, n, b) && a.ram[d.cnt]
                    == b.ram[d.cnt] && word(a, d.den, n) == word(b, d.den, n)
            }),
    {
        let rn = rem_bytes(n);
        let b = exec(st.rows, base, m);
        let s0 = st.emit(label_tmp(again)).emit(on_c(BitOp::Bcf));
        let m0 = exec(s0.rows, base, m);
        assert(m0 == (Machine { flow: Flow::Next, c: false, cycles: m0.cycles, ..b })) by {
            broadcast use group_exec;

        }
        let s1 = self.rotate_up(s0, d.num, n, 0);
        self.lemma_rotate_up(s0, d.num, n, base, m);
        let m1 = exec(s1.rows, base, m);
        lemma_residue(word(m1, d.num, n), 2 * word(b, d.num, n), n);
        lemma_word_kept(m0, m1, d.rem, rn, d.num, n as int);
        lemma_word_kept(m0, m1, d.den, n, d.num, n as int);
        self.lemma_rotate_up(s1, d.rem, rn, base, m);
        let m2 = exec(self.rotate_up(s1, d.rem, rn, 0).rows, base, m);
        lemma_word_kept(m1, m2, d.num, n, d.rem, rn as int);
        lemma_word_kept(m1, m2, d.den, n, d.rem, rn as int);
        assert forall|x: u32| div_outside(d, n, x) implies #[trigger] m2.ram[x] == b.ram[x] by {
            assert(m1.ram[x] == m0.ram[x]);
        }
        assert(m2.ram[d.cnt] == m1.ram[d.cnt]);
    }

    /// The first half of a turn.
    proof fn lemma_div_bring(
        &self,
        st: St,
        n: u8,
        d: Division,
        again: u32,
        base: int,
        m: Machine,
    )
        requires
            div_wf(d, n),
            0 <= base <= st.rows.len(),
            exec(st.rows, base, m).core is Enhanced,
            exec(st.rows, base, m).flow == Flow::Next || exec(st.rows, base, m).flow == Flow::Seek(
                Sym::Tmp(again),
            ),
            2 * word(exec(st.rows, base, m), d.rem, rem_bytes(n)) + 1 < limit(rem_bytes(n)),
        ensures
            ({
                let s = self.div_bring(st, n, d, again);
                let rn = rem_bytes(n);
                let b = exec(st.rows, base, m);
                let a = exec(s.rows, base, m);
                ready(s, base, m) && div_alike(d, n, b, a) && word(a, d.num, n) == (2 * word(
                    b,
                    d.num,
                    n,
                )) % limit(n) && word(a, d.rem, rn) - carried(rn, !a.c) == brought(d, n, b) - word(
                    b,
                    d.den,
                    n,
                ) && a.ram[d.cnt] == b.ram[d.cnt] && word(a, d.den, n) == word(b, d.den, n)
            }),
    {
        let rn = rem_bytes(n);
        let b = exec(st.rows, base, m);
        let s0 = st.emit(label_tmp(again)).emit(on_c(BitOp::Bcf));
        let s2 = self.rotate_up(self.rotate_up(s0, d.num, n, 0), d.rem, rn, 0);
        self.lemma_div_shift(st, n, d, again, base, m);
        let m2 = exec(s2.rows, base, m);
        self.lemma_take(s2, n, d, base, m);
        let a = exec(self.div_bring(st, n, d, again).rows, base, m);
        lemma_word_kept(m2, a, d.num, n, d.rem, rn as int);
        lemma_word_kept(m2, a, d.den, n, d.rem, rn as int);
        assert forall|x: u32| div_outside(d, n, x) implies #[trigger] a.ram[x] == b.ram[x] by {
            assert(m2.ram[x] == b.ram[x]);
        }
        assert(a.ram[d.cnt] == m2.ram[d.cnt]);
    }

    /// The second half of a turn.
    proof fn lemma_div_settle(
        &self,
        st: St,
        n: u8,
        d: Division,
        l: LoopLabels,
        base: int,
        m: Machine,
    )
        requires
            div_wf(d, n),
            ready(st, base, m),
            l.restore != l.next,
            word(exec(st.rows, base, m), d.num, n) % 2 == 0,
        ensures
            ({
                let s = self.div_settle(st, n, d, l);
                let rn = rem_bytes(n);
                let b = exec(st.rows, base, m);
                let a = exec(s.rows, base, m);
                ready(s, base, m) && div_alike(d, n, b, a) && a.ram[d.cnt] == b.ram[d.cnt] && word(
                    a,
                    d.den,
                    n,
                ) == word(b, d.den, n) && if b.c {
                    word(a, d.num, n) == word(b, d.num, n) + 1 && word(a, d.rem, rn) == word(
                        b,
                        d.rem,
                        rn,
                    )
                } else {
                    word(a, d.num, n) == word(b, d.num, n) && exists|c: bool|
                        word(a, d.rem, rn) + #[trigger] carried(rn, c) == word(b, d.rem, rn) + word(
                            b,
                            d.den,
                            n,
                        )
                }
            }),
    {
        let rn = rem_bytes(n);
        let b = exec(st.rows, base, m);
        let s1 = st.emit(on_c(BitOp::Btfss)).emit(goto_tmp(l.restore)).emit(
            ram_bit(BitOp::Bsf, d.num, 0),
        ).emit(goto_tmp(l.next)).emit(label_tmp(l.restore));
        let m1 = exec(s1.rows, base, m);
        let even = b.ram[d.num] % 2 == 0;
        assert(even);
        assert(m1 == (if b.c {
            Machine {
                flow: Flow::Seek(Sym::Tmp(l.next)),
                ram: b.ram.insert(d.num, (b.ram[d.num] + 1) as u8),
                cycles: m1.cycles,
                ..b
            }
        } else {
            Machine { cycles: m1.cycles, ..b }
        })) by {
            broadcast use group_exec;

        }
        let s2 = self.add_bytes(s1, d.den, d.rem, n);
        let s3 = if n == 1 {
            self.add_bit(s2, at(d.rem, 1))
        } else {
            s2
        };
        let s4 = s3.emit(label_tmp(l.next));
        if b.c {
            self.lemma_add_over(s1, d.den, d.rem, n, base, m);
            if n == 1 {
                self.lemma_add_bit_over(s2, at(d.rem, 1), base, m);
            }
        } else {
            self.lemma_put_back(s1, n, d, base, m);
        }
        let m3 = exec(s3.rows, base, m);
        assert(exec(s4.rows, base, m) == (Machine { flow: Flow::Next, ..m3 })) by {
            broadcast use group_exec;

        }
        let a = exec(s4.rows, base, m);
        assert(word(a, d.den, n) == word(b, d.den, n));
        if b.c {
            assert(word(a, d.rem, rn) == word(b, d.rem, rn));
        } else {
            assert(word(a, d.num, n) == word(b, d.num, n));
            assert(word(a, d.rem, rn) + carried(rn, m3.c) == word(b, d.rem, rn) + word(
                b,
                d.den,
                n,
            ));
        }
    }

    /// One turn of a division.
    pub(crate) proof fn lemma_div_turn(
        &self,
        st: St,
        n: u8,
        d: Division,
        l: LoopLabels,
        base: int,
        m: Machine,
    )
        requires
            div_wf(d, n),
            l.restore != l.next,
            0 <= base <= st.rows.len(),
            exec(st.rows, base, m).core is Enhanced,
            exec(st.rows, base, m).flow == Flow::Next || exec(st.rows, base, m).flow == Flow::Seek(
                Sym::Tmp(l.again),
            ),
            2 * word(exec(st.rows, base, m), d.rem, rem_bytes(n)) + 1 < limit(rem_bytes(n)),
        ensures
            ({
                let s = self.div_loop(st, n, d, l);
                let b = exec(st.rows, base, m);
                let a = exec(s.rows, base, m);
                base <= s.rows.len() && div_turned(d, n, b, a) && a.flow == (if b.ram[d.cnt] == 1 {
                    Flow::Next
                } else {
                    Flow::Seek(Sym::Tmp(l.again))
                })
            }),
    {
        let rn = rem_bytes(n);
        let b = exec(st.rows, base, m);
        let s1 = self.div_bring(st, n, d, l.again);
        self.lemma_div_bring(st, n, d, l.again, base, m);
        let m1 = exec(s1.rows, base, m);
        lemma_even(word(b, d.num, n), n);
        let s2 = self.div_settle(s1, n, d, l);
        self.lemma_div_settle(s1, n, d, l, base, m);
        let m2 = exec(s2.rows, base, m);
        lemma_count_down(s2, d.cnt, l.again, base, m);
        let a = exec(self.div_loop(st, n, d, l).rows, base, m);
        assert(word(a, d.num, n) == word(m2, d.num, n));
        assert(word(a, d.rem, rn) == word(m2, d.rem, rn));
        assert(word(a, d.den, n) == word(m2, d.den, n));
        assert forall|x: u32| div_outside(d, n, x) implies #[trigger] a.ram[x] == b.ram[x] by {
            assert(m1.ram[x] == b.ram[x]);
            assert(m2.ram[x] == m1.ram[x]);
        }
        let c2 = if m1.c {
            false
        } else {
            choose|c: bool|
                word(m2, d.rem, rn) + #[trigger] carried(rn, c) == word(m1, d.rem, rn) + word(
                    m1,
                    d.den,
                    n,
                )
        };
        lemma_restoring(
            brought(d, n, b),
            word(b, d.den, n),
            word(m1, d.rem, rn),
            m1.c,
            word(m2, d.rem, rn),
            c2,
            limit(rn),
        );
    }
}

} // verus!
