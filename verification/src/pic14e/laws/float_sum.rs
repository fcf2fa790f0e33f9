//! The float sum is the exact sum rounded to the nearest number.
use vstd::arithmetic::div_mod::{
    lemma_fundamental_div_mod, lemma_fundamental_div_mod_converse, lemma_mod_bound,
};
use vstd::prelude::*;
use crate::emit::{at, label_at, label_tmp, Row, St};
use crate::machine::{exec, group_exec, runs_to, settle, Machine};
use crate::meaning::{flag, lemma_pow2_positive, pow2, word};
use crate::pic14e::laws::float_align::{wide, window};
use crate::pic14e::laws::float_chain::three;
use crate::pic14e::laws::float_combine::jammed;
use crate::pic14e::laws::float_exact::{
    lemma_difference_rounds, lemma_pow2_next, lemma_sum_rounds, normalised, rounded,
};
use crate::pic14e::laws::float_int::{tmp, under_way};
use crate::pic14e::laws::float_order::negative;
use crate::pic14e::laws::float_parts::{
    full_mantissa, holds_parts, is_finite_nonzero, returning, scale, sign_byte, sum_slots,
};
use crate::pic14e::laws::float_round::packed_float;
use crate::pic14e::laws::float_split::goes_up;
use crate::pic14e::Gen;

verus! {

/// The mantissa with the sign, flipped on demand.
pub open spec fn signed_mantissa(x: int, flip: bool) -> int {
    if negative(x) != flip {
        -full_mantissa(x)
    } else {
        full_mantissa(x)
    }
}

/// The smaller of the two exponents.
pub open spec fn least_scale(x: int, y: int) -> int {
    if scale(x) < scale(y) {
        scale(x)
    } else {
        scale(y)
    }
}

/// The exact sum, or difference, in units of the last place at the smaller
/// exponent.
pub open spec fn exact_sum(x: int, y: int, flip: bool) -> int {
    let e = least_scale(x, y);
    signed_mantissa(x, false) * pow2(scale(x) - e) + signed_mantissa(y, flip) * pow2(scale(y) - e)
}

/// The magnitude of an integer.
pub open spec fn magnitude(n: int) -> int {
    if n < 0 {
        -n
    } else {
        n
    }
}

/// The sum, or difference, of two finite numbers, rounded to nearest, ties to
/// even. Numbers that cancel give the positive zero.
pub open spec fn float_sum(x: int, y: int, flip: bool) -> int {
    let n = exact_sum(x, y, flip);
    if n == 0 {
        0
    } else {
        rounded(n < 0, magnitude(n), least_scale(x, y))
    }
}

/// Two nonzero operands, the one with the smaller exponent first: the mantissas,
/// the distance of the exponents and the greater one.
pub open spec fn summable(ma: int, mb: int, d: int, e: int) -> bool {
    &&& 0 < ma < 0x100_0000
    &&& 0 < mb < 0x100_0000
    &&& d >= 0
    &&& e - d >= 1
    &&& e <= 254
    &&& mb >= 0x80_0000 || e == 1
}

/// Their sum, rounded.
pub open spec fn sum_value(ma: int, mb: int, d: int, e: int, sa: bool, sb: bool) -> int {
    let n = mb * pow2(d);
    if sa == sb {
        rounded(sa, n + ma, e - d)
    } else if n == ma {
        0
    } else if n > ma {
        rounded(sb, n - ma, e - d)
    } else {
        rounded(sa, ma - n, e - d)
    }
}

/// The distance that the alignment shifts.
pub open spec fn clamped(d: int) -> int {
    if d >= 31 {
        31
    } else {
        d
    }
}

/// The alignment with `left` of `k` shifts to go.
pub open spec fn aligning(
    m: Machine,
    scr: u32,
    left: int,
    k: int,
    ma: int,
    mb: int,
    e: int,
    sa: bool,
    sb: bool,
) -> bool {
    let p = pow2(k - left);
    &&& m.core is Enhanced
    &&& 0 <= left <= k <= 31
    &&& m.ram[at(scr, 11)] == left
    &&& wide(m, scr) == (0x100_0000 * ma) / p
    &&& m.ram[at(scr, 10)] == flag(window(m, scr) >= 0x80_0000) + 2 * flag((0x100_0000 * ma) % p != 0)
    &&& three(m, at(scr, 7)) == mb
    &&& m.ram[at(scr, 1)] == e
    &&& m.ram[scr] == sign_byte(sa)
    &&& m.ram[at(scr, 5)] == sign_byte(sb)
}

/// A difference that is being normalised.
pub open spec fn normalising(m: Machine, scr: u32, y: int, e: int, lost: bool, neg: bool) -> bool {
    &&& m.core is Enhanced
    &&& wide(m, scr) == y
    &&& 0 < y < 0x1_0000_0000_0000
    &&& m.ram[at(scr, 1)] == e
    &&& 1 <= e <= 254
    &&& m.ram[at(scr, 10)] < 4
    &&& (m.ram[at(scr, 10)] >= 2) == lost
    &&& m.ram[scr] == sign_byte(neg)
}

/// What one pass leaves of a sum that comes to `v`: the result, a difference to be
/// normalised, or a zero to be put together.
pub open spec fn on_course(m: Machine, scr: u32, l: u32, r: u32, v: int) -> bool {
    ||| m.flow is Gone && word(m, r, 4) == v
    ||| m.flow == tmp(l, 18) && exists|y: int, e: int, lost: bool, neg: bool| #[trigger]
        normalising(m, scr, y, e, lost, neg) && normalised(neg, y, e, lost) == v
    ||| m.flow == tmp(l, 22) && v == 0 && m.core is Enhanced && m.ram[scr] == 0 && m.ram[at(scr, 1)]
        == 0 && three(m, at(scr, 2)) == 0
}

/// Whether the rows end with `v` in the result bytes.
pub open spec fn comes_to(rows: Seq<Row>, base: int, m: Machine, r: u32, v: int) -> bool {
    exists|z: Machine| #[trigger]
        runs_to(rows, base, m, z) && z.flow is Gone && word(z, r, 4) == v
}

pub(crate) proof fn lemma_comes_on(rows: Seq<Row>, base: int, m: Machine, r: u32, v: int)
    requires
        ({
            let a = exec(rows, base, m);
            ||| a.flow is Gone && word(a, r, 4) == v
            ||| a.flow is Seek && comes_to(rows, base, a, r, v)
        }),
    ensures
        comes_to(rows, base, m, r, v),
{
    let a = exec(rows, base, m);
    if a.flow is Gone {
        assert(settle(rows, base, m, 1) == a);
        assert(runs_to(rows, base, m, a));
    } else {
        let z = choose|z: Machine| #[trigger]
            runs_to(rows, base, a, z) && z.flow is Gone && word(z, r, 4) == v;
        let n = choose|n: nat| z == #[trigger] settle(rows, base, a, n);
        assert(settle(rows, base, m, n + 1) == z);
        assert(runs_to(rows, base, m, z));
    }
}

/// One more shift of the mantissa and its window.
proof fn lemma_one_shift(z: int, k: int)
    requires
        z >= 0,
        k >= 0,
    ensures
        ({
            let p = pow2(k);
            let q = pow2(k + 1);
            &&& (z / p) / 2 == z / q
            &&& z % q != 0 <==> z % p != 0 || (z / p) % 2 == 1
        }),
{
    lemma_pow2_next(k);
    let p = pow2(k);
    let (v, t) = (z / p, z % p);
    lemma_fundamental_div_mod(z, p);
    lemma_mod_bound(z, p);
    let (w, b) = (v / 2, v % 2);
    let rest = b * p + t;
    assert(z == w * (2 * p) + rest) by (nonlinear_arith)
        requires
            z == p * v + t,
            v == 2 * w + b,
            rest == b * p + t,
    ;
    assert(b * p == (if b == 1 {
        p
    } else {
        0
    })) by (nonlinear_arith)
        requires
            b == 0 || b == 1,
    ;
    lemma_fundamental_div_mod_converse(z, 2 * p, w, rest);
}

/// The 48 bits apart.
proof fn lemma_wide_parts(m: Machine, scr: u32)
    ensures
        wide(m, scr) / 0x100_0000 == three(m, at(scr, 2)),
        wide(m, scr) % 0x100_0000 == window(m, scr),
        wide(m, scr) % 0x80_0000 == window(m, scr) % 0x80_0000,
        0 <= wide(m, scr) < 0x1_0000_0000_0000,
        wide(m, scr) >= 0x8000_0000_0000 <==> three(m, at(scr, 2)) >= 0x80_0000,
{
    let (u, w) = (three(m, at(scr, 2)), window(m, scr));
    assert(0 <= u < 0x100_0000 && 0 <= w < 0x100_0000);
    assert(wide(m, scr) == 0x100_0000 * u + w);
}

impl<'a> Gen<'a> {
    /// The rows of the normalisation, the rounding and the zero.
    pub open spec fn fadd_tail(&self, st: St, scr: u32, l: u32) -> St {
        self.addf_zero(self.addf_round(self.addf_normalize(st, scr, l), scr, l), scr, l)
    }

    /// The rows after the alignment.
    pub open spec fn fadd_late(&self, st: St, scr: u32, l: u32) -> St {
        self.fadd_tail(
            self.addf_difference(
                self.addf_order(self.addf_sum(st, scr, l), scr, l),
                scr,
                l,
            ),
            scr,
            l,
        )
    }

    /// The rows before the loop of the alignment.
    pub open spec fn fadd_start(&self, st: St, pa: u32, pb: u32, scr: u32, flip: bool) -> St {
        let s = self.extract(st, pa, scr, at(scr, 1), at(scr, 2), false);
        let s = self.extract(s, pb, at(scr, 5), at(scr, 6), at(scr, 7), flip);
        let l = s.next;
        let s = self.addf_specials(s.reserve(34), scr, l);
        self.fadd_align_head(self.addf_zeros(s, scr, l), scr, l)
    }

    /// The rows of a sum, or with `flip` of a difference.
    pub open spec fn float_sum_rows(&self, st: St, pa: u32, pb: u32, scr: u32, flip: bool) -> St {
        let s = self.extract(st, pa, scr, at(scr, 1), at(scr, 2), false);
        let s = self.extract(s, pb, at(scr, 5), at(scr, 6), at(scr, 7), flip);
        self.addf(s, scr)
    }

    pub(crate) proof fn lemma_fsum_rows(&self, st: St, pa: u32, pb: u32, scr: u32, flip: bool)
        requires
            st.next <= u32::MAX - 60,
        ensures
            ({
                let l = (st.next + 6) as u32;
                let s = self.fadd_turn(self.fadd_start(st, pa, pb, scr, flip), scr, l).emit(
                    label_tmp(label_at(l, 7)),
                );
                self.float_sum_rows(st, pa, pb, scr, flip) == self.fadd_late(s, scr, l)
            }),
    {
        let s1 = self.extract(st, pa, scr, at(scr, 1), at(scr, 2), false);
        let s2 = self.extract(s1, pb, at(scr, 5), at(scr, 6), at(scr, 7), flip);
        assert(s1.next == st.next + 3 && s2.next == st.next + 6);
        let l = s2.next;
        let s3 = self.addf_zeros(self.addf_specials(s2.reserve(34), scr, l), scr, l);
        self.lemma_fadd_align_rows(s3, scr, l);
        reveal(Gen::addf);
    }

    /// One pass over the end of the rows while a difference is normalised.
    proof fn lemma_fsum_tail(
        &self,
        st: St,
        scr: u32,
        l: u32,
        y: int,
        e: int,
        lost: bool,
        neg: bool,
        base: int,
        m: Machine,
    )
        requires
            under_way(st, base, m),
            scr <= 0xFFFF,
            self.retval <= 0xFFFF,
            self.retval + 4 <= scr || scr + 14 <= self.retval,
            l <= u32::MAX - 50,
            st.next == l + 34,
            exec(st.rows, base, m).flow == tmp(l, 18),
            normalising(exec(st.rows, base, m), scr, y, e, lost, neg),
        ensures
            ({
                let a = exec(self.fadd_tail(st, scr, l).rows, base, m);
                if y >= 0x8000_0000_0000 || e <= 1 {
                    a.flow is Gone && word(a, self.retval, 4) == normalised(neg, y, e, lost)
                } else {
                    a.flow == tmp(l, 18) && normalising(a, scr, 2 * y, e - 1, lost, neg)
                }
            }),
    {
        let b = exec(st.rows, base, m);
        lemma_wide_parts(b, scr);
        let s1 = self.addf_normalize(st, scr, l);
        self.lemma_fadd_normalize(st, scr, l, base, m);
        let c = exec(s1.rows, base, m);
        lemma_wide_parts(c, scr);
        let s2 = self.addf_round(s1, scr, l);
        self.lemma_fadd_round(s1, scr, l, base, m);
        self.lemma_fadd_zero(s2, scr, l, base, m);
    }

    /// Equal signs: what the mantissas and the window come to.
    proof fn lemma_fsum_added(&self, st: St, scr: u32, l: u32, base: int, m: Machine)
        requires
            under_way(st, base, m),
            scr <= 0xFFFF,
            self.retval <= 0xFFFF,
            self.retval + 4 <= scr || scr + 14 <= self.retval,
            l <= u32::MAX - 50,
            st.next == l + 34,
            ({
                let b = exec(st.rows, base, m);
                let t = three(b, at(scr, 2)) + three(b, at(scr, 7));
                &&& b.flow is Next
                &&& b.ram[scr] == b.ram[at(scr, 5)]
                &&& b.ram[at(scr, 10)] < 4
                &&& 1 <= b.ram[at(scr, 1)] <= 254
                &&& t >= 0x80_0000 || b.ram[at(scr, 1)] == 1
            }),
        ensures
            ({
                let b = exec(st.rows, base, m);
                let a = exec(self.fadd_late(st, scr, l).rows, base, m);
                let t = three(b, at(scr, 2)) + three(b, at(scr, 7));
                let x = b.ram[at(scr, 10)];
                let some = window(b, scr) % 0x80_0000 != 0;
                let e = b.ram[at(scr, 1)] as int;
                &&& a.flow is Gone
                &&& word(a, self.retval, 4) == (if t < 0x100_0000 {
                    packed_float(
                        b.ram[scr] >= 128,
                        e,
                        t + flag(goes_up(x % 2 == 1, some || x >= 2, t % 2 == 1)),
                    )
                } else {
                    packed_float(
                        b.ram[scr] >= 128,
                        e + 1,
                        t / 2 + flag(goes_up(t % 2 == 1, some || x != 0, (t / 2) % 2 == 1)),
                    )
                })
            }),
    {
        let s1 = self.addf_sum(st, scr, l);
        self.lemma_fadd_sum(st, scr, l, base, m);
        let s2 = self.addf_order(s1, scr, l);
        self.lemma_fadd_order(s1, scr, l, base, m);
        let s3 = self.addf_difference(s2, scr, l);
        self.lemma_fadd_difference_over(s2, scr, l, base, m);
        let s4 = self.addf_normalize(s3, scr, l);
        self.lemma_fadd_normalize_over(s3, scr, l, base, m);
        let s5 = self.addf_round(s4, scr, l);
        self.lemma_fadd_round(s4, scr, l, base, m);
        self.lemma_fadd_zero(s5, scr, l, base, m);
    }

    /// One pass from the aligned operands on: equal signs.
    proof fn lemma_fsum_same(
        &self,
        st: St,
        scr: u32,
        l: u32,
        ma: int,
        mb: int,
        d: int,
        e: int,
        sa: bool,
        base: int,
        m: Machine,
    )
        requires
            under_way(st, base, m),
            scr <= 0xFFFF,
            self.retval <= 0xFFFF,
            self.retval + 4 <= scr || scr + 14 <= self.retval,
            l <= u32::MAX - 50,
            st.next == l + 34,
            exec(st.rows, base, m).flow is Next,
            summable(ma, mb, d, e),
            aligning(exec(st.rows, base, m), scr, 0, clamped(d), ma, mb, e, sa, sa),
        ensures
            ({
                let a = exec(self.fadd_late(st, scr, l).rows, base, m);
                a.flow is Gone && word(a, self.retval, 4) == sum_value(ma, mb, d, e, sa, sa)
            }),
    {
        let b = exec(st.rows, base, m);
        lemma_wide_parts(b, scr);
        lemma_sum_rounds(sa, ma, mb, d, e);
        let x = 0x100_0000 * mb + wide(b, scr);
        let t = three(b, at(scr, 2)) + mb;
        let w = window(b, scr);
        lemma_sum_parts(x, t, w);
        self.lemma_fsum_added(st, scr, l, base, m);
    }

    /// Equal mantissas of different signs: the zero is left to the next pass.
    proof fn lemma_fsum_cancelled(&self, st: St, scr: u32, l: u32, sa: bool, base: int, m: Machine)
        requires
            under_way(st, base, m),
            scr <= 0xFFFF,
            self.retval <= 0xFFFF,
            self.retval + 4 <= scr || scr + 14 <= self.retval,
            l <= u32::MAX - 50,
            st.next == l + 34,
            ({
                let b = exec(st.rows, base, m);
                &&& b.flow is Next
                &&& b.ram[scr] == sign_byte(sa)
                &&& b.ram[at(scr, 5)] == sign_byte(!sa)
                &&& three(b, at(scr, 2)) == three(b, at(scr, 7))
                &&& window(b, scr) == 0
                &&& b.ram[at(scr, 10)] < 2
            }),
        ensures
            on_course(exec(self.fadd_late(st, scr, l).rows, base, m), scr, l, self.retval, 0),
    {
        let b = exec(st.rows, base, m);
        let s1 = self.addf_sum(st, scr, l);
        self.lemma_fadd_sum_over(st, scr, l, base, m);
        let c1 = exec(s1.rows, base, m);
        assert(window(c1, scr) == window(b, scr) && three(c1, at(scr, 2)) == three(b, at(scr, 2))
            && three(c1, at(scr, 7)) == three(b, at(scr, 7)));
        let s2 = self.addf_order(s1, scr, l);
        self.lemma_fadd_order(s1, scr, l, base, m);
        let s3 = self.addf_difference(s2, scr, l);
        self.lemma_fadd_difference_over(s2, scr, l, base, m);
        let s4 = self.addf_normalize(s3, scr, l);
        self.lemma_fadd_normalize_over(s3, scr, l, base, m);
        let s5 = self.addf_round(s4, scr, l);
        self.lemma_fadd_round(s4, scr, l, base, m);
        self.lemma_fadd_zero(s5, scr, l, base, m);
    }

    /// Different mantissas of different signs, up to the difference.
    proof fn lemma_fsum_taken(&self, st: St, scr: u32, l: u32, sa: bool, base: int, m: Machine)
        requires
            under_way(st, base, m),
            scr <= 0xFFFF,
            l <= u32::MAX - 50,
            ({
                let b = exec(st.rows, base, m);
                &&& b.flow is Next
                &&& b.ram[scr] == sign_byte(sa)
                &&& b.ram[at(scr, 5)] == sign_byte(!sa)
                &&& three(b, at(scr, 2)) != three(b, at(scr, 7))
                &&& b.ram[at(scr, 10)] < 4
            }),
        ensures
            ({
                let b = exec(st.rows, base, m);
                let s = self.addf_difference(
                    self.addf_order(self.addf_sum(st, scr, l), scr, l),
                    scr,
                    l,
                );
                let a = exec(s.rows, base, m);
                let (u, v) = (three(b, at(scr, 2)), three(b, at(scr, 7)));
                let t = jammed(window(b, scr), b.ram[at(scr, 10)] >= 2);
                &&& under_way(s, base, m)
                &&& s.next == st.next
                &&& a.flow == tmp(l, 18)
                &&& wide(a, scr) == 0x100_0000 * magnitude(u - v) - t
                &&& a.ram[scr] == sign_byte(sa == (u > v))
                &&& a.ram[at(scr, 1)] == b.ram[at(scr, 1)]
                &&& a.ram[at(scr, 10)] == b.ram[at(scr, 10)]
            }),
    {
        let b = exec(st.rows, base, m);
        let s1 = self.addf_sum(st, scr, l);
        self.lemma_fadd_sum_over(st, scr, l, base, m);
        let c1 = exec(s1.rows, base, m);
        assert(window(c1, scr) == window(b, scr) && three(c1, at(scr, 2)) == three(b, at(scr, 2))
            && three(c1, at(scr, 7)) == three(b, at(scr, 7)));
        let s2 = self.addf_order(s1, scr, l);
        self.lemma_fadd_order(s1, scr, l, base, m);
        let c2 = exec(s2.rows, base, m);
        if three(b, at(scr, 2)) > three(b, at(scr, 7)) {
            assert(window(c2, scr) == window(b, scr) && three(c2, at(scr, 2)) == three(b, at(scr, 2))
                && three(c2, at(scr, 7)) == three(b, at(scr, 7)));
        }
        self.lemma_fadd_difference(s2, scr, l, base, m);
    }

    /// One pass from the aligned operands on: different signs.
    proof fn lemma_fsum_different(
        &self,
        st: St,
        scr: u32,
        l: u32,
        ma: int,
        mb: int,
        d: int,
        e: int,
        sa: bool,
        base: int,
        m: Machine,
    )
        requires
            under_way(st, base, m),
            scr <= 0xFFFF,
            self.retval <= 0xFFFF,
            self.retval + 4 <= scr || scr + 14 <= self.retval,
            l <= u32::MAX - 50,
            st.next == l + 34,
            exec(st.rows, base, m).flow is Next,
            summable(ma, mb, d, e),
            aligning(exec(st.rows, base, m), scr, 0, clamped(d), ma, mb, e, sa, !sa),
        ensures
            ({
                let a = exec(self.fadd_late(st, scr, l).rows, base, m);
                on_course(a, scr, l, self.retval, sum_value(ma, mb, d, e, sa, !sa))
            }),
    {
        let b = exec(st.rows, base, m);
        let v = sum_value(ma, mb, d, e, sa, !sa);
        lemma_wide_parts(b, scr);
        lemma_aligned_small(ma, mb, d, e);
        let u = three(b, at(scr, 2));
        if d == 0 {
            assert(pow2(0) == 1);
            assert((0x100_0000 * ma) / 1 == 0x100_0000 * ma && (0x100_0000 * ma) % 1 == 0);
            assert(u == ma && window(b, scr) == 0);
            assert(mb * 1 == mb);
        }
        if u == mb {
            self.lemma_fsum_cancelled(st, scr, l, sa, base, m);
        } else {
            let s3 = self.addf_difference(
                self.addf_order(self.addf_sum(st, scr, l), scr, l),
                scr,
                l,
            );
            self.lemma_fsum_taken(st, scr, l, sa, base, m);
            let c3 = exec(s3.rows, base, m);
            let lost = (0x100_0000 * ma) % pow2(clamped(d)) != 0;
            let y = wide(c3, scr);
            let neg = sa == (u > mb);
            lemma_difference_value(ma, mb, d, e, sa);
            assert(normalising(c3, scr, y, e, lost, neg));
            assert(normalised(neg, y, e, lost) == v);
            self.lemma_fsum_tail(s3, scr, l, y, e, lost, neg, base, m);
            let a = exec(self.fadd_late(st, scr, l).rows, base, m);
            if !(y >= 0x8000_0000_0000 || e <= 1) {
                assert(normalising(a, scr, 2 * y, e - 1, lost, neg));
                assert(normalised(neg, 2 * y, e - 1, lost) == v);
            }
        }
    }

    /// A jump back passes the rows before the loop of the alignment.
    proof fn lemma_fsum_again(
        &self,
        st: St,
        pa: u32,
        pb: u32,
        scr: u32,
        flip: bool,
        m: Machine,
    )
        requires
            sum_slots(pa, pb, scr, self.retval),
            st.next <= u32::MAX - 60,
            m.core is Enhanced,
            returning(m.flow, (st.next + 6) as u32),
        ensures
            ({
                let s = self.fadd_start(st, pa, pb, scr, flip);
                &&& under_way(s, st.rows.len() as int, m)
                &&& exec(s.rows, st.rows.len() as int, m) == m
                &&& s.next == st.next + 40
            }),
    {
        let base = st.rows.len() as int;
        assert(exec(st.rows, base, m) == m) by {
            broadcast use group_exec;

        }
        let s1 = self.extract(st, pa, scr, at(scr, 1), at(scr, 2), false);
        self.lemma_extract(st, pa, scr, false, base, m);
        let s2 = self.extract(s1, pb, at(scr, 5), at(scr, 6), at(scr, 7), flip);
        self.lemma_extract(s1, pb, at(scr, 5), flip, base, m);
        let l = s2.next;
        let s3 = s2.reserve(34);
        assert(exec(s3.rows, base, m) == m);
        let s4 = self.addf_specials(s3, scr, l);
        self.lemma_fadd_specials(s3, scr, l, base, m);
        let s5 = self.addf_zeros(s4, scr, l);
        self.lemma_fadd_zeros(s4, scr, l, base, m);
        self.lemma_fadd_align_head(s5, scr, l, base, m);
    }

    /// The rows up to the tail are passed by a run that looks for a place there.
    proof fn lemma_fsum_to_tail(
        &self,
        st: St,
        pa: u32,
        pb: u32,
        scr: u32,
        flip: bool,
        m: Machine,
    ) -> (s: St)
        requires
            sum_slots(pa, pb, scr, self.retval),
            st.next <= u32::MAX - 60,
            m.core is Enhanced,
            m.flow == tmp((st.next + 6) as u32, 18) || m.flow == tmp((st.next + 6) as u32, 22),
        ensures
            under_way(s, st.rows.len() as int, m),
            exec(s.rows, st.rows.len() as int, m) == m,
            s.next == st.next + 40,
            self.float_sum_rows(st, pa, pb, scr, flip) == self.fadd_tail(
                s,
                scr,
                (st.next + 6) as u32,
            ),
    {
        let base = st.rows.len() as int;
        let l = (st.next + 6) as u32;
        self.lemma_fsum_rows(st, pa, pb, scr, flip);
        self.lemma_fsum_again(st, pa, pb, scr, flip, m);
        let s0 = self.fadd_start(st, pa, pb, scr, flip);
        let s1 = self.fadd_turn(s0, scr, l);
        self.lemma_fadd_turn_over(s0, scr, l, base, m);
        let s2 = s1.emit(label_tmp(label_at(l, 7)));
        assert(base <= s2.rows.len() && exec(s2.rows, base, m) == m) by {
            broadcast use group_exec;

        }
        let s3 = self.addf_sum(s2, scr, l);
        self.lemma_fadd_sum_over(s2, scr, l, base, m);
        let s4 = self.addf_order(s3, scr, l);
        self.lemma_fadd_order(s3, scr, l, base, m);
        let s5 = self.addf_difference(s4, scr, l);
        self.lemma_fadd_difference_over(s4, scr, l, base, m);
        assert(s1.next == s0.next);
        s5
    }

    proof fn lemma_fsum_normal(
        &self,
        st: St,
        pa: u32,
        pb: u32,
        scr: u32,
        flip: bool,
        y: int,
        e: int,
        lost: bool,
        neg: bool,
        m: Machine,
    )
        requires
            sum_slots(pa, pb, scr, self.retval),
            st.next <= u32::MAX - 60,
            m.flow == tmp((st.next + 6) as u32, 18),
            normalising(m, scr, y, e, lost, neg),
        ensures
            comes_to(
                self.float_sum_rows(st, pa, pb, scr, flip).rows,
                st.rows.len() as int,
                m,
                self.retval,
                normalised(neg, y, e, lost),
            ),
        decreases e,
    {
        let base = st.rows.len() as int;
        let l = (st.next + 6) as u32;
        let s = self.lemma_fsum_to_tail(st, pa, pb, scr, flip, m);
        self.lemma_fsum_tail(s, scr, l, y, e, lost, neg, base, m);
        let rows = self.float_sum_rows(st, pa, pb, scr, flip).rows;
        if !(y >= 0x8000_0000_0000 || e <= 1) {
            let a = exec(rows, base, m);
            self.lemma_fsum_normal(st, pa, pb, scr, flip, 2 * y, e - 1, lost, neg, a);
        }
        lemma_comes_on(rows, base, m, self.retval, normalised(neg, y, e, lost));
    }

    pub(crate) proof fn lemma_fsum_zero(
        &self,
        st: St,
        pa: u32,
        pb: u32,
        scr: u32,
        flip: bool,
        neg: bool,
        m: Machine,
    )
        requires
            sum_slots(pa, pb, scr, self.retval),
            st.next <= u32::MAX - 60,
            m.flow == tmp((st.next + 6) as u32, 22),
            m.core is Enhanced,
            m.ram[scr] == sign_byte(neg),
            m.ram[at(scr, 1)] == 0,
            three(m, at(scr, 2)) == 0,
        ensures
            comes_to(
                self.float_sum_rows(st, pa, pb, scr, flip).rows,
                st.rows.len() as int,
                m,
                self.retval,
                packed_float(neg, 0, 0x80_0000),
            ),
    {
        let base = st.rows.len() as int;
        let l = (st.next + 6) as u32;
        let s = self.lemma_fsum_to_tail(st, pa, pb, scr, flip, m);
        let s1 = self.addf_normalize(s, scr, l);
        self.lemma_fadd_normalize_over(s, scr, l, base, m);
        let s2 = self.addf_round(s1, scr, l);
        self.lemma_fadd_round(s1, scr, l, base, m);
        self.lemma_fadd_zero(s2, scr, l, base, m);
        lemma_comes_on(
            self.float_sum_rows(st, pa, pb, scr, flip).rows,
            base,
            m,
            self.retval,
            packed_float(neg, 0, 0x80_0000),
        );
    }

    /// Whatever a pass leaves, the rows end with the result.
    proof fn lemma_fsum_course(
        &self,
        st: St,
        pa: u32,
        pb: u32,
        scr: u32,
        flip: bool,
        v: int,
        m: Machine,
    )
        requires
            sum_slots(pa, pb, scr, self.retval),
            st.next <= u32::MAX - 60,
            on_course(
                exec(
                    self.float_sum_rows(st, pa, pb, scr, flip).rows,
                    st.rows.len() as int,
                    m,
                ),
                scr,
                (st.next + 6) as u32,
                self.retval,
                v,
            ),
        ensures
            comes_to(
                self.float_sum_rows(st, pa, pb, scr, flip).rows,
                st.rows.len() as int,
                m,
                self.retval,
                v,
            ),
    {
        let base = st.rows.len() as int;
        let l = (st.next + 6) as u32;
        let rows = self.float_sum_rows(st, pa, pb, scr, flip).rows;
        let a = exec(rows, base, m);
        if a.flow == tmp(l, 18) {
            let (y, e, lost, neg) = choose|y: int, e: int, lost: bool, neg: bool| #[trigger]
                normalising(a, scr, y, e, lost, neg) && normalised(neg, y, e, lost) == v;
            self.lemma_fsum_normal(st, pa, pb, scr, flip, y, e, lost, neg, a);
        } else if a.flow == tmp(l, 22) {
            self.lemma_fsum_zero(st, pa, pb, scr, flip, false, a);
        }
        lemma_comes_on(rows, base, m, self.retval, v);
    }

    /// One pass from the loop of the alignment on.
    #[verifier::rlimit(50)]
    proof fn lemma_fsum_pass(
        &self,
        st: St,
        scr: u32,
        l: u32,
        left: int,
        ma: int,
        mb: int,
        d: int,
        e: int,
        sa: bool,
        sb: bool,
        base: int,
        m: Machine,
    )
        requires
            under_way(st, base, m),
            scr <= 0xFFFF,
            self.retval <= 0xFFFF,
            self.retval + 4 <= scr || scr + 14 <= self.retval,
            l <= u32::MAX - 50,
            st.next == l + 34,
            exec(st.rows, base, m).flow == (if left == 0 {
                tmp(l, 7)
            } else {
                tmp(l, 6)
            }),
            summable(ma, mb, d, e),
            aligning(exec(st.rows, base, m), scr, left, clamped(d), ma, mb, e, sa, sb),
        ensures
            ({
                let s = self.fadd_turn(st, scr, l).emit(label_tmp(label_at(l, 7)));
                let a = exec(self.fadd_late(s, scr, l).rows, base, m);
                if left > 1 {
                    a.flow == tmp(l, 6) && aligning(
                        a,
                        scr,
                        left - 1,
                        clamped(d),
                        ma,
                        mb,
                        e,
                        sa,
                        sb,
                    )
                } else {
                    on_course(a, scr, l, self.retval, sum_value(ma, mb, d, e, sa, sb))
                }
            }),
    {
        let b = exec(st.rows, base, m);
        let s1 = self.fadd_turn(st, scr, l);
        let c1 = exec(s1.rows, base, m);
        if left == 0 {
            self.lemma_fadd_turn_over(st, scr, l, base, m);
        } else {
            self.lemma_fadd_turn(st, scr, l, base, m);
            lemma_one_shift(0x100_0000 * ma, clamped(d) - left);
            assert(aligning(c1, scr, left - 1, clamped(d), ma, mb, e, sa, sb));
        }
        assert(s1.next == st.next);
        let s2 = s1.emit(label_tmp(label_at(l, 7)));
        let c2 = exec(s2.rows, base, m);
        assert(base <= s2.rows.len());
        if left > 1 {
            assert(c2 == c1) by {
                broadcast use group_exec;

            }
            self.lemma_fsum_late_over(s2, scr, l, base, m);
        } else {
            assert(c2.core == c1.core && c2.flow is Next && c2.ram == c1.ram) by {
                broadcast use group_exec;

            }
            assert(window(c2, scr) == window(c1, scr) && three(c2, at(scr, 2)) == three(c1, at(scr, 2))
                && three(c2, at(scr, 7)) == three(c1, at(scr, 7)));
            assert(aligning(c2, scr, 0, clamped(d), ma, mb, e, sa, sb));
            if sa == sb {
                self.lemma_fsum_same(s2, scr, l, ma, mb, d, e, sa, base, m);
            } else {
                assert(sb == !sa);
                self.lemma_fsum_different(s2, scr, l, ma, mb, d, e, sa, base, m);
            }
        }
    }

    /// A run on its way back to the alignment passes the rows after it.
    proof fn lemma_fsum_late_over(&self, st: St, scr: u32, l: u32, base: int, m: Machine)
        requires
            under_way(st, base, m),
            scr <= 0xFFFF,
            self.retval <= 0xFFFF,
            self.retval + 4 <= scr || scr + 14 <= self.retval,
            l <= u32::MAX - 50,
            st.next == l + 34,
            exec(st.rows, base, m).flow == tmp(l, 6),
        ensures
            exec(self.fadd_late(st, scr, l).rows, base, m) == exec(st.rows, base, m),
    {
        let s1 = self.addf_sum(st, scr, l);
        self.lemma_fadd_sum_over(st, scr, l, base, m);
        let s2 = self.addf_order(s1, scr, l);
        self.lemma_fadd_order(s1, scr, l, base, m);
        let s3 = self.addf_difference(s2, scr, l);
        self.lemma_fadd_difference_over(s2, scr, l, base, m);
        let s4 = self.addf_normalize(s3, scr, l);
        self.lemma_fadd_normalize_over(s3, scr, l, base, m);
        let s5 = self.addf_round(s4, scr, l);
        self.lemma_fadd_round(s4, scr, l, base, m);
        self.lemma_fadd_zero(s5, scr, l, base, m);
    }

    proof fn lemma_fsum_aligning(
        &self,
        st: St,
        pa: u32,
        pb: u32,
        scr: u32,
        flip: bool,
        left: int,
        ma: int,
        mb: int,
        d: int,
        e: int,
        sa: bool,
        sb: bool,
        m: Machine,
    )
        requires
            sum_slots(pa, pb, scr, self.retval),
            st.next <= u32::MAX - 60,
            m.flow == tmp((st.next + 6) as u32, 6),
            left >= 1,
            summable(ma, mb, d, e),
            aligning(m, scr, left, clamped(d), ma, mb, e, sa, sb),
        ensures
            comes_to(
                self.float_sum_rows(st, pa, pb, scr, flip).rows,
                st.rows.len() as int,
                m,
                self.retval,
                sum_value(ma, mb, d, e, sa, sb),
            ),
        decreases left,
    {
        let base = st.rows.len() as int;
        let l = (st.next + 6) as u32;
        let v = sum_value(ma, mb, d, e, sa, sb);
        self.lemma_fsum_rows(st, pa, pb, scr, flip);
        self.lemma_fsum_again(st, pa, pb, scr, flip, m);
        let s0 = self.fadd_start(st, pa, pb, scr, flip);
        self.lemma_fsum_pass(s0, scr, l, left, ma, mb, d, e, sa, sb, base, m);
        if left > 1 {
            let rows = self.float_sum_rows(st, pa, pb, scr, flip).rows;
            let a = exec(rows, base, m);
            self.lemma_fsum_aligning(st, pa, pb, scr, flip, left - 1, ma, mb, d, e, sa, sb, a);
            lemma_comes_on(rows, base, m, self.retval, v);
        } else {
            self.lemma_fsum_course(st, pa, pb, scr, flip, v, m);
        }
    }

    /// The operands taken apart.
    pub(crate) proof fn lemma_fsum_parts(
        &self,
        st: St,
        pa: u32,
        pb: u32,
        scr: u32,
        flip: bool,
        m: Machine,
    )
        requires
            sum_slots(pa, pb, scr, self.retval),
            st.next <= u32::MAX - 60,
            m.flow is Next,
            m.core is Enhanced,
        ensures
            ({
                let s = self.extract(
                    self.extract(st, pa, scr, at(scr, 1), at(scr, 2), false),
                    pb,
                    at(scr, 5),
                    at(scr, 6),
                    at(scr, 7),
                    flip,
                );
                let a = exec(s.rows, st.rows.len() as int, m);
                &&& under_way(s, st.rows.len() as int, m)
                &&& a.flow is Next
                &&& s.next == st.next + 6
                &&& holds_parts(a, scr, at(scr, 1), at(scr, 2), word(m, pa, 4), false)
                &&& holds_parts(a, at(scr, 5), at(scr, 6), at(scr, 7), word(m, pb, 4), flip)
            }),
    {
        let base = st.rows.len() as int;
        assert(exec(st.rows, base, m) == m) by {
            broadcast use group_exec;

        }
        let s1 = self.extract(st, pa, scr, at(scr, 1), at(scr, 2), false);
        self.lemma_extract(st, pa, scr, false, base, m);
        let c1 = exec(s1.rows, base, m);
        assert(word(c1, pb, 4) == word(m, pb, 4));
        self.lemma_extract(s1, pb, at(scr, 5), flip, base, m);
        let s2 = self.extract(s1, pb, at(scr, 5), at(scr, 6), at(scr, 7), flip);
        let c2 = exec(s2.rows, base, m);
        assert(three(c2, at(scr, 2)) == three(c1, at(scr, 2)));
    }

    /// The operands taken apart, ordered, and ready for the alignment.
    #[verifier::rlimit(50)]
    proof fn lemma_fsum_started(
        &self,
        st: St,
        pa: u32,
        pb: u32,
        scr: u32,
        flip: bool,
        m: Machine,
    )
        requires
            sum_slots(pa, pb, scr, self.retval),
            st.next <= u32::MAX - 60,
            m.flow is Next,
            m.core is Enhanced,
            is_finite_nonzero(word(m, pa, 4)),
            is_finite_nonzero(word(m, pb, 4)),
        ensures
            ({
                let (x, y) = (word(m, pa, 4), word(m, pb, 4));
                let l = (st.next + 6) as u32;
                let s = self.fadd_start(st, pa, pb, scr, flip);
                let a = exec(s.rows, st.rows.len() as int, m);
                let d = magnitude(scale(x) - scale(y));
                let (sx, sy) = (negative(x), negative(y) != flip);
                &&& under_way(s, st.rows.len() as int, m)
                &&& s.next == st.next + 40
                &&& a.flow == (if d == 0 {
                    tmp(l, 7)
                } else {
                    tmp(l, 6)
                })
                &&& if scale(x) >= scale(y) {
                    aligning(
                        a,
                        scr,
                        clamped(d),
                        clamped(d),
                        full_mantissa(y),
                        full_mantissa(x),
                        scale(x),
                        sy,
                        sx,
                    )
                } else {
                    aligning(
                        a,
                        scr,
                        clamped(d),
                        clamped(d),
                        full_mantissa(x),
                        full_mantissa(y),
                        scale(y),
                        sx,
                        sy,
                    )
                }
            }),
    {
        let base = st.rows.len() as int;
        let (x, y) = (word(m, pa, 4), word(m, pb, 4));
        assert(exec(st.rows, base, m) == m) by {
            broadcast use group_exec;

        }
        let s2 = self.extract(
            self.extract(st, pa, scr, at(scr, 1), at(scr, 2), false),
            pb,
            at(scr, 5),
            at(scr, 6),
            at(scr, 7),
            flip,
        );
        self.lemma_fsum_parts(st, pa, pb, scr, flip, m);
        let c2 = exec(s2.rows, base, m);
        let l = s2.next;
        let s3 = s2.reserve(34);
        assert(exec(s3.rows, base, m) == c2);
        let s4 = self.addf_specials(s3, scr, l);
        self.lemma_fadd_specials(s3, scr, l, base, m);
        let c4 = exec(s4.rows, base, m);
        assert(three(c4, at(scr, 2)) == full_mantissa(x) && three(c4, at(scr, 7)) == full_mantissa(y));
        let s5 = self.addf_zeros(s4, scr, l);
        self.lemma_fadd_zeros(s4, scr, l, base, m);
        let c5 = exec(s5.rows, base, m);
        assert(three(c5, at(scr, 2)) == full_mantissa(x) && three(c5, at(scr, 7)) == full_mantissa(y));
        self.lemma_fadd_align_head(s5, scr, l, base, m);
        let a = exec(self.fadd_align_head(s5, scr, l).rows, base, m);
        assert(window(a, scr) == 0);
        assert(pow2(0) == 1);
        let (u, v) = (full_mantissa(x), full_mantissa(y));
        assert((0x100_0000 * u) / 1 == 0x100_0000 * u && (0x100_0000 * u) % 1 == 0);
        assert((0x100_0000 * v) / 1 == 0x100_0000 * v && (0x100_0000 * v) % 1 == 0);
    }

    /// The sum routine leaves the exact sum of two finite numbers that are not
    /// zero, rounded to nearest, ties to even, in the result bytes; with `flip`
    /// it leaves their difference. Numbers that cancel give the positive zero.
    /// A sum past the greatest number is not clamped: it leaves exponent 255 over
    /// the mantissa that it has.
    pub proof fn law_float_sum_is_nearest(
        &self,
        st: St,
        pa: u32,
        pb: u32,
        scr: u32,
        flip: bool,
        m: Machine,
    )
        requires
            sum_slots(pa, pb, scr, self.retval),
            st.next <= u32::MAX - 60,
            m.flow is Next,
            m.core is Enhanced,
            is_finite_nonzero(word(m, pa, 4)),
            is_finite_nonzero(word(m, pb, 4)),
        ensures
            exists|z: Machine| #[trigger]
                runs_to(
                    self.float_sum_rows(st, pa, pb, scr, flip).rows,
                    st.rows.len() as int,
                    m,
                    z,
                ) && z.flow is Gone && word(z, self.retval, 4) == float_sum(
                    word(m, pa, 4),
                    word(m, pb, 4),
                    flip,
                ),
    {
        let base = st.rows.len() as int;
        let l = (st.next + 6) as u32;
        let rows = self.float_sum_rows(st, pa, pb, scr, flip).rows;
        let (x, y) = (word(m, pa, 4), word(m, pb, 4));
        let d = magnitude(scale(x) - scale(y));
        let (sx, sy) = (negative(x), negative(y) != flip);
        let (ma, mb, e, sa, sb) = if scale(x) >= scale(y) {
            (full_mantissa(y), full_mantissa(x), scale(x), sy, sx)
        } else {
            (full_mantissa(x), full_mantissa(y), scale(y), sx, sy)
        };
        let v = sum_value(ma, mb, d, e, sa, sb);
        lemma_sum_of_parts(x, y, flip);
        self.lemma_fsum_rows(st, pa, pb, scr, flip);
        self.lemma_fsum_started(st, pa, pb, scr, flip, m);
        let s0 = self.fadd_start(st, pa, pb, scr, flip);
        let k = clamped(d);
        self.lemma_fsum_pass(s0, scr, l, k, ma, mb, d, e, sa, sb, base, m);
        if k > 1 {
            let a = exec(rows, base, m);
            self.lemma_fsum_aligning(st, pa, pb, scr, flip, k - 1, ma, mb, d, e, sa, sb, a);
            lemma_comes_on(rows, base, m, self.retval, v);
        } else {
            self.lemma_fsum_course(st, pa, pb, scr, flip, v, m);
        }
        assert(comes_to(rows, base, m, self.retval, v));
    }
}

/// The upper and lower bits of a sum of mantissas with its window.
proof fn lemma_sum_parts(x: int, t: int, w: int)
    requires
        x == 0x100_0000 * t + w,
        0 <= w < 0x100_0000,
        t >= 0,
    ensures
        x / 0x100_0000 == t,
        x % 0x100_0000 == w,
        x % 0x80_0000 == w % 0x80_0000,
        x / 0x200_0000 == t / 2,
        x % 0x200_0000 == w + 0x100_0000 * (t % 2),
        w != 0 <==> w % 0x80_0000 != 0 || w >= 0x80_0000,
{
}

/// The ordered parts of two operands have their exact sum.
proof fn lemma_sum_of_parts(x: int, y: int, flip: bool)
    requires
        is_finite_nonzero(x),
        is_finite_nonzero(y),
    ensures
        ({
            let d = magnitude(scale(x) - scale(y));
            let (sx, sy) = (negative(x), negative(y) != flip);
            let (ma, mb, e, sa, sb) = if scale(x) >= scale(y) {
                (full_mantissa(y), full_mantissa(x), scale(x), sy, sx)
            } else {
                (full_mantissa(x), full_mantissa(y), scale(y), sx, sy)
            };
            &&& summable(ma, mb, d, e)
            &&& sum_value(ma, mb, d, e, sa, sb) == float_sum(x, y, flip)
        }),
{
    let d = magnitude(scale(x) - scale(y));
    let p = pow2(d);
    lemma_pow2_positive(d);
    assert(pow2(0) == 1);
    let (u, v) = (full_mantissa(x), full_mantissa(y));
    assert(u * 1 == u && v * 1 == v && (-u) * 1 == -u && (-v) * 1 == -v);
    assert((-u) * p == -(u * p)) by (nonlinear_arith);
    assert((-v) * p == -(v * p)) by (nonlinear_arith);
    assert(u * p > 0) by (nonlinear_arith)
        requires
            u > 0,
            p > 0,
    ;
    assert(v * p > 0) by (nonlinear_arith)
        requires
            v > 0,
            p > 0,
    ;
}

/// What the normalised difference comes to.
proof fn lemma_difference_value(ma: int, mb: int, d: int, e: int, sa: bool)
    requires
        summable(ma, mb, d, e),
        d == 0 ==> ma != mb,
    ensures
        ({
            let k = clamped(d);
            let w = (0x100_0000 * ma) / pow2(k);
            let lost = (0x100_0000 * ma) % pow2(k) != 0;
            let u = w / 0x100_0000;
            let y = 0x100_0000 * magnitude(u - mb) - jammed(w % 0x100_0000, lost);
            let neg = sa == (u > mb);
            &&& 0 < y < 0x1_0000_0000_0000
            &&& normalised(neg, y, e, lost) == sum_value(ma, mb, d, e, sa, !sa)
        }),
{
    lemma_aligned_small(ma, mb, d, e);
    if d == 0 {
        assert(pow2(0) == 1);
        assert((0x100_0000 * ma) / 1 == 0x100_0000 * ma && (0x100_0000 * ma) % 1 == 0);
        assert((0x100_0000 * mb) / 1 == 0x100_0000 * mb && (0x100_0000 * mb) % 1 == 0);
        assert(mb * 1 == mb && ma * 1 == ma);
    }
    if d == 0 && ma > mb {
        lemma_difference_rounds(sa, mb, ma, 0, e);
    } else {
        lemma_difference_rounds(!sa, ma, mb, d, e);
        let w = (0x100_0000 * ma) / pow2(clamped(d));
        lemma_pow2_positive(clamped(d));
        assert(w % 2 == (w % 0x100_0000) % 2);
    }
}

/// A shifted mantissa is below the other one.
proof fn lemma_aligned_small(ma: int, mb: int, d: int, e: int)
    requires
        summable(ma, mb, d, e),
    ensures
        d > 0 ==> ((0x100_0000 * ma) / pow2(clamped(d))) / 0x100_0000 < mb,
{
    if d > 0 {
        let k = clamped(d);
        lemma_pow2_next(k - 1);
        let p = pow2(k);
        let h = pow2(k - 1);
        let z = 0x100_0000 * ma;
        let q = z / p;
        lemma_fundamental_div_mod(z, p);
        lemma_mod_bound(z, p);
        assert(2 * q <= z) by (nonlinear_arith)
            requires
                z == p * q + z % p,
                z % p >= 0,
                p == 2 * h,
                h >= 1,
                z >= 0,
        ;
    }
}

} // verus!
