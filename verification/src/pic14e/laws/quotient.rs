//! The division routines compute quotients and remainders.
use vstd::arithmetic::div_mod::lemma_fundamental_div_mod_converse;
use vstd::prelude::*;
use crate::emit::{at, St};
use crate::line::Sym;
use crate::machine::{exec, group_exec, runs_to, settle, Flow, Machine};
use crate::meaning::{
    apart, flag, lemma_pow2_positive, lemma_word_kept, limit, passed_over, pow2, seeking, word,
};
use crate::pic14e::laws::divide::{brought, div_alike, div_outside, div_turned, div_wf};
use crate::pic14e::laws::ready;
use crate::pic14e::routine::{bits_of, rem_bytes, unsigned_layout, Division, LoopLabels};
use crate::pic14e::Gen;

verus! {

/// Whether `k` turns have divided the upper `k` bits of `num` by `den`: the
/// dividend's bytes hold the bits `w` that are left above the quotient `q`.
pub open spec fn split(
    d: Division,
    n: u8,
    m: Machine,
    k: int,
    num: int,
    den: int,
    w: int,
    q: int,
) -> bool {
    let left = bits_of(n) - k;
    let r = word(m, d.rem, rem_bytes(n));
    &&& word(m, d.num, n) == w * pow2(k) + q
    &&& 0 <= q < pow2(k)
    &&& 0 <= w < pow2(left)
    &&& (q * den + r) * pow2(left) + w == num
    &&& 0 <= r < den
    &&& r < pow2(k)
}

/// Whether a division has done `k` of its turns.
pub open spec fn divided(d: Division, n: u8, m: Machine, k: int, num: int, den: int) -> bool {
    &&& m.core is Enhanced
    &&& m.ram[d.cnt] == bits_of(n) - k
    &&& word(m, d.den, n) == den
    &&& exists|w: int, q: int| split(d, n, m, k, num, den, w, q)
}

proof fn lemma_width(n: u8)
    requires
        n == 1 || n == 2 || n == 4,
    ensures
        pow2(bits_of(n) as int) == limit(n),
{
    reveal_with_fuel(pow2, 33);
}

proof fn lemma_pow2_sum(a: int, b: int)
    requires
        a >= 0,
        b >= 0,
    ensures
        pow2(a) * pow2(b) == pow2(a + b),
    decreases a,
{
    if a > 0 {
        lemma_pow2_sum(a - 1, b);
        assert(pow2(a) * pow2(b) == 2 * (pow2(a - 1) * pow2(b))) by (nonlinear_arith)
            requires
                pow2(a) == 2 * pow2(a - 1),
        ;
    } else {
        assert(1 * pow2(b) == pow2(b));
    }
}

/// The remainder has room for one more bit.
proof fn lemma_room(d: Division, n: u8, m: Machine, k: int, num: int, den: int)
    requires
        n == 1 || n == 2 || n == 4,
        0 <= k < bits_of(n),
        divided(d, n, m, k, num, den),
    ensures
        2 * word(m, d.rem, rem_bytes(n)) + 1 < limit(rem_bytes(n)),
{
    lemma_width(n);
    lemma_pow2_grows(k, bits_of(n) - 1);
    assert(pow2(bits_of(n) as int) == 2 * pow2(bits_of(n) - 1));
}

proof fn lemma_pow2_grows(a: int, b: int)
    requires
        0 <= a <= b,
    ensures
        pow2(a) <= pow2(b),
    decreases b - a,
{
    lemma_pow2_positive(b - 1);
    if a < b {
        lemma_pow2_grows(a, b - 1);
    }
}

/// One turn divides one more bit.
proof fn lemma_divided_turn(
    d: Division,
    n: u8,
    b: Machine,
    a: Machine,
    k: int,
    num: int,
    den: int,
)
    requires
        n == 1 || n == 2 || n == 4,
        0 <= k < bits_of(n),
        divided(d, n, b, k, num, den),
        div_turned(d, n, b, a),
    ensures
        divided(d, n, a, k + 1, num, den),
{
    let left = bits_of(n) - k;
    let (w, q) = choose|w: int, q: int| split(d, n, b, k, num, den, w, q);
    let p = pow2(k);
    let h = pow2(left - 1);
    let u = word(b, d.num, n);
    let r = word(b, d.rem, rem_bytes(n));
    let l = limit(n);
    lemma_width(n);
    lemma_pow2_sum(left - 1, k);
    lemma_pow2_positive(k);
    lemma_pow2_positive(left - 1);
    assert(pow2(left) == 2 * h);
    assert(pow2(k + 1) == 2 * p);
    assert(pow2(bits_of(n) as int) == 2 * pow2(bits_of(n) - 1));
    assert(h * p == pow2(bits_of(n) - 1));
    let top = w >= h;
    let w2 = if top {
        w - h
    } else {
        w
    };
    // The top bit of the dividend's bytes is the top bit of what is left.
    assert(top == (2 * u >= l)) by {
        if top {
            assert(u >= h * p) by (nonlinear_arith)
                requires
                    u == w * p + q,
                    w >= h,
                    q >= 0,
                    p > 0,
            ;
        } else {
            assert(u < h * p) by (nonlinear_arith)
                requires
                    u == w * p + q,
                    w <= h - 1,
                    q < p,
                    p > 0,
            ;
        }
    }
    let t = 2 * r + flag(top);
    let fits = t >= den;
    let q2 = 2 * q + flag(fits);
    let r2 = t - (if fits {
        den
    } else {
        0
    });
    assert(brought(d, n, b) == t);
    assert(word(a, d.rem, rem_bytes(n)) == r2);
    // The shifted bytes hold what is left above the new quotient.
    assert((2 * u) % l == w2 * (2 * p) + 2 * q) by {
        assert(2 * u == w2 * (2 * p) + 2 * q + (if top {
            l
        } else {
            0
        })) by (nonlinear_arith)
            requires
                u == w * p + q,
                2 * (h * p) == l,
                w2 == (if top {
                    w - h
                } else {
                    w
                }),
        ;
        assert(0 <= w2 * (2 * p) + 2 * q < l) by (nonlinear_arith)
            requires
                0 <= w2 <= h - 1,
                0 <= q < p,
                2 * (h * p) == l,
        ;
        lemma_fundamental_div_mod_converse(
            2 * u,
            l,
            if top {
                1
            } else {
                0
            },
            w2 * (2 * p) + 2 * q,
        );
    }
    assert((q2 * den + r2) * h + w2 == num) by {
        assert(q2 * den + r2 == 2 * (q * den + r) + flag(top)) by (nonlinear_arith)
            requires
                q2 == 2 * q + flag(fits),
                r2 == 2 * r + flag(top) - (if fits {
                    den
                } else {
                    0
                }),
                flag(fits) == (if fits {
                    1int
                } else {
                    0int
                }),
        ;
        let s = q * den + r;
        assert((2 * s + flag(top)) * h + w2 == s * (2 * h) + w) by (nonlinear_arith)
            requires
                w2 == (if top {
                    w - h
                } else {
                    w
                }),
                flag(top) == (if top {
                    1int
                } else {
                    0int
                }),
        ;
    }
    assert(split(d, n, a, k + 1, num, den, w2, q2));
}

/// All turns make the quotient and the remainder.
pub(crate) proof fn lemma_divided_all(d: Division, n: u8, m: Machine, num: int, den: int)
    requires
        n == 1 || n == 2 || n == 4,
        divided(d, n, m, bits_of(n) as int, num, den),
    ensures
        word(m, d.num, n) == num / den,
        word(m, d.rem, rem_bytes(n)) == num % den,
{
    let (w, q) = choose|w: int, q: int| split(d, n, m, bits_of(n) as int, num, den, w, q);
    let r = word(m, d.rem, rem_bytes(n));
    assert(w == 0);
    assert(0 * pow2(bits_of(n) as int) == 0);
    assert((q * den + r) * 1 == q * den + r);
    lemma_fundamental_div_mod_converse(num, den, q, r);
}

impl<'a> Gen<'a> {
    /// The remainder cleared and the turns counted.
    proof fn lemma_divide_start(&self, st: St, n: u8, d: Division, base: int, m: Machine)
        requires
            div_wf(d, n),
            ready(st, base, m),
            word(exec(st.rows, base, m), d.den, n) > 0,
        ensures
            ({
                let s = self.set_count(
                    self.clear_from(st, d.rem, rem_bytes(n), 0),
                    d.cnt,
                    bits_of(n),
                );
                let b = exec(st.rows, base, m);
                let a = exec(s.rows, base, m);
                ready(s, base, m) && div_alike(d, n, b, a) && divided(
                    d,
                    n,
                    a,
                    0,
                    word(b, d.num, n),
                    word(b, d.den, n),
                )
            }),
    {
        let rn = rem_bytes(n);
        let b = exec(st.rows, base, m);
        let s1 = self.clear_from(st, d.rem, rn, 0);
        self.lemma_clear_from(st, d.rem, rn, 0, base, m);
        let m1 = exec(s1.rows, base, m);
        assert(m1.ram[at(d.rem, 0)] == 0 && m1.ram[at(d.rem, 1)] == 0);
        if n == 4 {
            assert(m1.ram[at(d.rem, 2)] == 0 && m1.ram[at(d.rem, 3)] == 0);
        }
        assert(at(d.rem, 0) == d.rem);
        lemma_word_kept(b, m1, d.num, n, d.rem, rn as int);
        lemma_word_kept(b, m1, d.den, n, d.rem, rn as int);
        self.lemma_set_count(s1, d.cnt, bits_of(n), base, m);
        let a = exec(self.set_count(s1, d.cnt, bits_of(n)).rows, base, m);
        lemma_word_kept(m1, a, d.num, n, d.cnt, 1);
        lemma_word_kept(m1, a, d.den, n, d.cnt, 1);
        lemma_word_kept(m1, a, d.rem, rn, d.cnt, 1);
        assert(word(a, d.rem, rn) == 0);
        lemma_width(n);
        let x = word(b, d.num, n);
        assert(pow2(0) == 1);
        assert(x * 1 + 0 == x);
        assert((0 * word(b, d.den, n) + 0) * pow2(bits_of(n) as int) + x == x) by (nonlinear_arith);
        assert(0 <= x < limit(n));
        assert(split(d, n, a, 0, x, word(b, d.den, n), x, 0));
        assert forall|z: u32| div_outside(d, n, z) implies #[trigger] a.ram[z] == b.ram[z] by {
            assert(m1.ram[z] == b.ram[z]);
        }
    }

    /// A pass over the division: a turn of its loop.
    pub(crate) proof fn lemma_divide_pass(
        &self,
        st: St,
        n: u8,
        d: Division,
        l: LoopLabels,
        k: int,
        num: int,
        den: int,
        base: int,
        m: Machine,
    )
        requires
            div_wf(d, n),
            l.restore != l.next,
            0 <= base <= st.rows.len(),
            0 <= k < bits_of(n),
            den > 0,
            ({
                let b = exec(st.rows, base, m);
                if k == 0 {
                    ready(st, base, m) && word(b, d.num, n) == num && word(b, d.den, n) == den
                } else {
                    b.flow == Flow::Seek(Sym::Tmp(l.again)) && divided(d, n, b, k, num, den)
                }
            }),
        ensures
            ({
                let s = self.divide(st, n, d, l);
                let b = exec(st.rows, base, m);
                let a = exec(s.rows, base, m);
                base <= s.rows.len() && div_alike(d, n, b, a) && divided(d, n, a, k + 1, num, den)
                    && a.flow == (if k + 1 == bits_of(n) {
                    Flow::Next
                } else {
                    Flow::Seek(Sym::Tmp(l.again))
                })
            }),
    {
        let rn = rem_bytes(n);
        let b = exec(st.rows, base, m);
        let s1 = self.clear_from(st, d.rem, rn, 0);
        let s2 = self.set_count(s1, d.cnt, bits_of(n));
        if k == 0 {
            self.lemma_divide_start(st, n, d, base, m);
        } else {
            self.lemma_clear_over(st, d.rem, rn, 0, base, m);
            self.lemma_count_over(s1, d.cnt, bits_of(n), base, m);
        }
        let m2 = exec(s2.rows, base, m);
        lemma_room(d, n, m2, k, num, den);
        self.lemma_div_turn(s2, n, d, l, base, m);
        let a = exec(self.divide(st, n, d, l).rows, base, m);
        lemma_divided_turn(d, n, m2, a, k, num, den);
        assert forall|z: u32| div_outside(d, n, z) implies #[trigger] a.ram[z] == b.ram[z] by {
            assert(m2.ram[z] == b.ram[z]);
        }
    }

    /// The checks before a routine write no code.
    pub(crate) proof fn lemma_one_bank(
        &self,
        st: St,
        a: u32,
        a_end: u32,
        b: u32,
        b_end: u32,
        s: u32,
        s_end: u32,
    )
        ensures
            ({
                let to = self.one_bank(st, a, a_end, b, b_end, s, s_end);
                to.rows == st.rows && to.next == st.next && to.w == st.w
            }),
    {
    }

    /// What an unsigned division does before it divides.
    pub open spec fn unsigned_start(&self, st: St, n: u8, num: u32, den: u32, scr: u32) -> St {
        if n == 1 {
            self.one_bank(st, num, num, den, den, scr, at(scr, 3))
        } else {
            if n == 2 {
                self.one_bank(st, num, at(num, 1), den, at(den, 1), scr, at(scr, 6))
            } else {
                let st = self.one_bank(st, num, at(num, 3), den, at(den, 3), scr, at(scr, 9));
                self.copy_bytes(st, den, at(scr, 4), 4, 0)
            }
        }
    }

    /// Whether the slots of a division of `n` bytes share no byte.
    pub open spec fn div_slots(&self, n: u8, num: u32, den: u32, scr: u32) -> bool {
        &&& n == 1 || n == 2 || n == 4
        &&& num <= 0xFFFF && den <= 0xFFFF && scr <= 0xFFFF && self.retval <= 0xFFFF
        &&& apart(num, n as int, den, n as int)
        &&& apart(num, n as int, scr, 11)
        &&& apart(den, n as int, scr, 11)
        &&& apart(self.retval, n as int, num, n as int)
        &&& apart(self.retval, n as int, scr, 11)
    }

    proof fn lemma_unsigned_start(
        &self,
        st: St,
        n: u8,
        num: u32,
        den: u32,
        scr: u32,
        base: int,
        m: Machine,
    )
        requires
            self.div_slots(n, num, den, scr),
            ready(st, base, m),
        ensures
            ({
                let d = unsigned_layout(n, num, den, scr);
                let s = self.unsigned_start(st, n, num, den, scr);
                let b = exec(st.rows, base, m);
                let a = exec(s.rows, base, m);
                ready(s, base, m) && s.next == st.next && word(a, d.num, n) == word(b, num, n)
                    && word(a, d.den, n) == word(b, den, n)
            }),
    {
        if n == 4 {
            self.lemma_one_bank(st, num, at(num, 3), den, at(den, 3), scr, at(scr, 9));
            let s0 = self.one_bank(st, num, at(num, 3), den, at(den, 3), scr, at(scr, 9));
            self.lemma_copy_next(s0, den, at(scr, 4), 4, 0);
            self.lemma_copied(s0, den, at(scr, 4), 4, base, m);
            let b = exec(st.rows, base, m);
            let a = exec(self.unsigned_start(st, n, num, den, scr).rows, base, m);
            lemma_word_kept(b, a, num, 4, at(scr, 4), 4);
        }
    }

    proof fn lemma_unsigned_start_over(
        &self,
        st: St,
        n: u8,
        num: u32,
        den: u32,
        scr: u32,
        base: int,
        m: Machine,
    )
        requires
            self.div_slots(n, num, den, scr),
            seeking(st, base, m),
        ensures
            passed_over(st, self.unsigned_start(st, n, num, den, scr), base, m),
            self.unsigned_start(st, n, num, den, scr).next == st.next,
    {
        if n == 4 {
            let s0 = self.one_bank(st, num, at(num, 3), den, at(den, 3), scr, at(scr, 9));
            self.lemma_copy_next(s0, den, at(scr, 4), 4, 0);
            self.lemma_copy_over(s0, den, at(scr, 4), 4, 0, base, m);
        }
    }

    /// Where a division has got to after `k` turns.
    pub open spec fn dividing(
        &self,
        st: St,
        n: u8,
        num: u32,
        den: u32,
        scr: u32,
        m: Machine,
        k: int,
        x: int,
        y: int,
    ) -> bool {
        if k == 0 {
            &&& st.w is None
            &&& m.flow is Next
            &&& m.core is Enhanced
            &&& word(m, num, n) == x
            &&& word(m, den, n) == y
        } else {
            &&& m.flow == Flow::Seek(Sym::Tmp(st.next))
            &&& divided(unsigned_layout(n, num, den, scr), n, m, k, x, y)
        }
    }

    /// A pass over the routine: one more turn, and after the last one the
    /// end.
    proof fn lemma_unsigned_pass(
        &self,
        st: St,
        n: u8,
        quotient: bool,
        num: u32,
        den: u32,
        scr: u32,
        m: Machine,
        k: int,
        x: int,
        y: int,
    )
        requires
            self.div_slots(n, num, den, scr),
            st.next < u32::MAX - 2,
            0 <= k < bits_of(n),
            y > 0,
            self.dividing(st, n, num, den, scr, m, k, x, y),
        ensures
            ({
                let a = exec(
                    self.unsigned_div(st, n, quotient, num, den, scr).rows,
                    st.rows.len() as int,
                    m,
                );
                if k + 1 == bits_of(n) {
                    a.flow is Gone && word(a, self.retval, n) == (if quotient {
                        x / y
                    } else {
                        x % y
                    })
                } else {
                    self.dividing(st, n, num, den, scr, a, k + 1, x, y)
                }
            }),
    {
        let base = st.rows.len() as int;
        assert(exec(st.rows, base, m) == m) by {
            broadcast use group_exec;

        }
        let d = unsigned_layout(n, num, den, scr);
        let s1 = self.unsigned_start(st, n, num, den, scr);
        if k == 0 {
            self.lemma_unsigned_start(st, n, num, den, scr, base, m);
        } else {
            self.lemma_unsigned_start_over(st, n, num, den, scr, base, m);
        }
        let l = LoopLabels {
            again: s1.next,
            restore: s1.bump().next,
            next: s1.bump().bump().next,
        };
        let s2 = s1.bump().bump().bump();
        let s3 = self.divide(s2, n, d, l);
        self.lemma_divide_pass(s2, n, d, l, k, x, y, base, m);
        let src = if quotient {
            d.num
        } else {
            d.rem
        };
        assert(self.unsigned_div(st, n, quotient, num, den, scr) == self.give_back(s3, src, n));
        if k + 1 == bits_of(n) {
            let b = exec(s3.rows, base, m);
            lemma_divided_all(d, n, b, x, y);
            self.lemma_give_back(s3, src, n, base, m);
            if n == 1 && !quotient {
                assert(word(b, d.rem, 1) == word(b, d.rem, 2));
            }
        } else {
            self.lemma_give_back_over(s3, src, n, base, m);
        }
    }

    /// The turns that are left.
    proof fn lemma_unsigned_turns(
        &self,
        st: St,
        n: u8,
        quotient: bool,
        num: u32,
        den: u32,
        scr: u32,
        m: Machine,
        k: int,
        x: int,
        y: int,
    )
        requires
            self.div_slots(n, num, den, scr),
            st.next < u32::MAX - 2,
            0 <= k < bits_of(n),
            y > 0,
            self.dividing(st, n, num, den, scr, m, k, x, y),
        ensures
            ({
                let a = settle(
                    self.unsigned_div(st, n, quotient, num, den, scr).rows,
                    st.rows.len() as int,
                    m,
                    (bits_of(n) - k) as nat,
                );
                a.flow is Gone && word(a, self.retval, n) == (if quotient {
                    x / y
                } else {
                    x % y
                })
            }),
        decreases bits_of(n) - k,
    {
        self.lemma_unsigned_pass(st, n, quotient, num, den, scr, m, k, x, y);
        let rows = self.unsigned_div(st, n, quotient, num, den, scr).rows;
        let a = exec(rows, st.rows.len() as int, m);
        if k + 1 < bits_of(n) {
            self.lemma_unsigned_turns(st, n, quotient, num, den, scr, a, k + 1, x, y);
        }
    }

    /// The unsigned division routine leaves the quotient or the remainder in
    /// the result bytes, for every divisor but zero.
    pub proof fn law_unsigned_div_divides(
        &self,
        st: St,
        n: u8,
        quotient: bool,
        num: u32,
        den: u32,
        scr: u32,
        m: Machine,
    )
        requires
            self.div_slots(n, num, den, scr),
            st.next < u32::MAX - 2,
            st.w is None,
            m.flow is Next,
            m.core is Enhanced,
            word(m, den, n) > 0,
        ensures
            exists|a: Machine| #[trigger]
                runs_to(
                    self.unsigned_div(st, n, quotient, num, den, scr).rows,
                    st.rows.len() as int,
                    m,
                    a,
                ) && a.flow is Gone && word(a, self.retval, n) == (if quotient {
                    word(m, num, n) / word(m, den, n)
                } else {
                    word(m, num, n) % word(m, den, n)
                }),
    {
        let rows = self.unsigned_div(st, n, quotient, num, den, scr).rows;
        let x = word(m, num, n);
        let y = word(m, den, n);
        self.lemma_unsigned_turns(st, n, quotient, num, den, scr, m, 0, x, y);
        let a = settle(rows, st.rows.len() as int, m, bits_of(n) as nat);
        assert(runs_to(rows, st.rows.len() as int, m, a));
    }
}

} // verus!
