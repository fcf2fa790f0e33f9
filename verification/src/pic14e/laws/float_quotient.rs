//! The float quotient is the quotient rounded to the nearest number.
use vstd::arithmetic::div_mod::{
    lemma_fundamental_div_mod, lemma_fundamental_div_mod_converse, lemma_mod_bound,
};
use vstd::prelude::*;
use crate::emit::{
    at, clrf, goto_tmp, label_at, label_tmp, lit, movf, movlw, movwf, on_z, ram_bit, St,
};
use crate::line::{BitOp, LitOp};
use crate::machine::{exec, group_exec, runs_to, Machine};
use crate::meaning::{flag, lemma_pow2_positive, pow2, word};
use crate::pic14e::laws::float_chain::three;
use crate::pic14e::laws::float_div::{
    first_done, first_passed, in_place, inner, lead, led, lemma_lead_bounds, looping, quotient_slots,
    second_part, shifting,
};
use crate::pic14e::laws::float_int::{tmp, under_way};
use crate::pic14e::laws::float_mul::holds_exponent;
use crate::pic14e::laws::float_order::{lemma_parts, negative};
use crate::pic14e::laws::float_parts::{full_mantissa, is_finite_nonzero, scale};
use crate::pic14e::laws::float_round::{half_even, packed_float};
use crate::pic14e::laws::float_split::{lowering, rounded};
use crate::pic14e::laws::float_sum::{comes_to, lemma_comes_on};
use crate::pic14e::Gen;

verus! {

/// The dividend, scaled so that its quotient by `b` has 24 bits.
pub open spec fn scaled_up(a: int, b: int) -> int {
    if a < b {
        0x100_0000 * a
    } else {
        0x80_0000 * a
    }
}

/// The mantissa of a number, shifted up until its top bit is set.
pub open spec fn led_mantissa(x: int) -> int {
    led(full_mantissa(x))
}

/// The exponent at which it stands there.
pub open spec fn led_scale(x: int) -> int {
    scale(x) - lead(full_mantissa(x))
}

/// The biased exponent of a quotient by the exponents of its operands.
pub open spec fn led_apart(x: int, y: int) -> int {
    led_scale(x) - led_scale(y) + 127
}

/// The exponent at which the quotient of two numbers has 24 bits: one less if the
/// mantissa of the dividend is the smaller one.
pub open spec fn first_exponent(x: int, y: int) -> int {
    led_apart(x, y) - flag(led_mantissa(x) < led_mantissa(y))
}

/// An exponent, but at least one.
pub open spec fn at_least_one(e: int) -> int {
    if e < 1 {
        1
    } else {
        e
    }
}

/// The quotient of the mantissas, rounded to nearest, ties to even: with 24 bits,
/// or with as many less as its exponent lies below one.
pub open spec fn mantissa_quotient(a: int, b: int, e: int) -> int {
    half_even(scaled_up(a, b), b * pow2(at_least_one(e) - e))
}

/// The quotient of two finite numbers that are not zero, rounded to nearest, ties to
/// even. A quotient below the normal numbers has no implicit bit. The exponent of
/// one past the greatest number is not clamped, but taken by its low byte.
pub open spec fn float_quotient(x: int, y: int) -> int {
    quotient_value(
        negative(x) != negative(y),
        led_mantissa(x),
        led_mantissa(y),
        first_exponent(x, y),
    )
}

/// The bits of the quotient of two mantissas at an exponent.
pub open spec fn quotient_value(neg: bool, a: int, b: int, e: int) -> int {
    packed_float(neg, at_least_one(e) % 256, mantissa_quotient(a, b, e))
}

/// Whether the exponent bytes hold a quotient: the borrow of the exponent that is
/// one less is lost, and a low byte of zero counts as an exponent below one.
pub open spec fn borrow_holds(x: int, y: int) -> bool {
    &&& led_mantissa(x) < led_mantissa(y) ==> led_apart(x, y) != 0 && led_apart(x, y) != 256
    &&& first_exponent(x, y) != 256
}

/// The exponent and the mantissa that the bits of a quotient come to.
pub open spec fn lowered(w: int, t: bool, e: int) -> (int, int)
    decreases 1 - e,
{
    if e < 1 {
        lowered(w / 2, t || w % 2 == 1, e + 1)
    } else {
        (e, rounded(w, t))
    }
}

/// What a division keeps: the divisor, the sign and the exponent.
pub open spec fn dividing(m: Machine, scr: u32, b: int, neg: bool, e: int) -> bool {
    &&& m.core is Enhanced
    &&& three(m, at(scr, 7)) == b
    &&& 0x80_0000 <= b < 0x100_0000
    &&& (m.ram[scr] >= 128) == neg
    &&& holds_exponent(m, scr, e)
}

/// The integer part with `left` turns to go: the upper bits of the dividend are
/// divided, the lower ones stand above their quotient.
pub open spec fn dividing_whole(
    m: Machine,
    pa: u32,
    scr: u32,
    left: nat,
    a: int,
    b: int,
    neg: bool,
    e: int,
) -> bool {
    let h = pow2(left as int);
    &&& dividing(m, scr, b, neg, e)
    &&& 1 <= left <= 24
    &&& m.ram[at(scr, 10)] == left
    &&& word(m, at(scr, 3), 4) == (a / h) % b
    &&& three(m, pa) == (a % h) * pow2(24 - left) + (a / h) / b
}

/// The fraction with `left` turns to go.
pub open spec fn dividing_rest(
    m: Machine,
    pa: u32,
    scr: u32,
    left: nat,
    a: int,
    b: int,
    neg: bool,
    e: int,
) -> bool {
    let n = (a % b) * pow2(25 - left);
    &&& dividing(m, scr, b, neg, e)
    &&& 1 <= left <= 25
    &&& m.ram[at(scr, 10)] == left
    &&& word(m, at(scr, 3), 4) == n % b
    &&& word(m, pa, 4) == n / b
    &&& m.ram[at(scr, 11)] == a / b
}

/// The mantissas, and the exponents that the bytes hold.
pub open spec fn dividable(a: int, b: int, e: int) -> bool {
    &&& 0x80_0000 <= a < 0x100_0000
    &&& 0x80_0000 <= b < 0x100_0000
    &&& -200 <= e <= 500
    &&& a < b ==> e != 0 && e != 256
    &&& e - flag(a < b) != 256
}

/// The powers of two of the loops.
proof fn lemma_loop_powers(left: nat)
    requires
        1 <= left <= 24,
    ensures
        pow2(left as int) == 2 * pow2(left - 1),
        pow2(25 - left) == 2 * pow2(24 - left),
        pow2(left - 1) * pow2(24 - left) == 0x80_0000,
        pow2(left - 1) > 0,
        pow2(24 - left) > 0,
    decreases left,
{
    lemma_pow2_positive(left - 1);
    lemma_pow2_positive(24 - left);
    if left == 1 {
        assert(pow2(0) == 1 && pow2(23) == 0x80_0000) by {
            reveal_with_fuel(pow2, 25);
        }
    } else {
        lemma_loop_powers((left - 1) as nat);
        let (p, q) = (pow2(left - 2), pow2(24 - left));
        assert(pow2(left - 1) == 2 * p);
        assert((2 * p) * q == p * (2 * q)) by (nonlinear_arith);
    }
}

/// Twice a number, and one more, by its own quotient and remainder.
proof fn lemma_doubled(t: int, bit: int, b: int)
    requires
        t >= 0,
        b > 0,
        0 <= bit <= 1,
    ensures
        ({
            let r = 2 * (t % b) + bit;
            &&& (2 * t + bit) / b == 2 * (t / b) + flag(r >= b)
            &&& (2 * t + bit) % b == (if r >= b {
                r - b
            } else {
                r
            })
        }),
{
    let (q, s) = (t / b, t % b);
    let r = 2 * s + bit;
    lemma_fundamental_div_mod(t, b);
    lemma_mod_bound(t, b);
    assert(b * q + s == t);
    let g = flag(r >= b);
    let rest = r - g * b;
    assert(g * b == (if r >= b {
        b
    } else {
        0
    })) by (nonlinear_arith)
        requires
            g == (if r >= b {
                1int
            } else {
                0
            }),
    ;
    assert(2 * t + bit == (2 * q + g) * b + rest) by (nonlinear_arith)
        requires
            b * q + s == t,
            rest == r - g * b,
            r == 2 * s + bit,
    ;
    lemma_fundamental_div_mod_converse(2 * t + bit, b, 2 * q + g, rest);
}

/// One turn of the integer part on the numbers.
proof fn lemma_whole_turn(a: int, b: int, h: int, g: int)
    requires
        0 <= a < 0x100_0000,
        b > 0,
        h > 0,
        g > 0,
        h * g == 0x80_0000,
    ensures
        ({
            let t = a / (2 * h);
            let v = (a % (2 * h)) * g + t / b;
            let bit = flag(v >= 0x80_0000);
            let r = 2 * (t % b) + bit;
            &&& 0 <= v < 0x100_0000
            &&& 2 * v - 0x100_0000 * bit + flag(r >= b) == (a % h) * (2 * g) + (a / h) / b
            &&& (a / h) % b == (if r >= b {
                r - b
            } else {
                r
            })
        }),
{
    let t = a / (2 * h);
    let n = a % (2 * h);
    let q = t / b;
    lemma_fundamental_div_mod(a, 2 * h);
    lemma_mod_bound(a, 2 * h);
    let k = flag(n >= h);
    let low = n - k * h;
    assert(0 <= low < h) by (nonlinear_arith)
        requires
            k == (if n >= h {
                1int
            } else {
                0
            }),
            low == n - k * h,
            0 <= n < 2 * h,
    ;
    assert(a == (2 * t + k) * h + low) by (nonlinear_arith)
        requires
            a == (2 * h) * t + n,
            low == n - k * h,
    ;
    lemma_fundamental_div_mod_converse(a, h, 2 * t + k, low);
    assert(t >= 0 && t < g) by (nonlinear_arith)
        requires
            a == (2 * h) * t + n,
            0 <= a < 0x100_0000,
            0 <= n < 2 * h,
            h * g == 0x80_0000,
            h > 0,
    ;
    assert(0 <= q <= t) by {
        lemma_fundamental_div_mod(t, b);
        lemma_mod_bound(t, b);
        assert(0 <= q <= t) by (nonlinear_arith)
            requires
                t == b * q + t % b,
                0 <= t % b < b,
                t >= 0,
                b > 0,
        ;
    }
    let v = n * g + q;
    assert(n * g == k * 0x80_0000 + low * g) by (nonlinear_arith)
        requires
            low == n - k * h,
            h * g == 0x80_0000,
    ;
    assert(0 <= low * g <= 0x80_0000 - g) by (nonlinear_arith)
        requires
            0 <= low < h,
            g > 0,
            h * g == 0x80_0000,
    ;
    assert(low * (2 * g) == 2 * (low * g)) by (nonlinear_arith);
    lemma_doubled(t, k, b);
}

/// The bits of the quotient, by those of the quotient of the remainder.
#[verifier::rlimit(50)]
proof fn lemma_quotient_bits(a: int, b: int)
    requires
        0x80_0000 <= a < 0x100_0000,
        0x80_0000 <= b < 0x100_0000,
    ensures
        ({
            let n = (a % b) * 0x200_0000;
            let q = n / b;
            let rest = n % b != 0;
            let w = (2 * scaled_up(a, b)) / b;
            let t = (2 * scaled_up(a, b)) % b != 0;
            &&& 0 <= q < 0x200_0000
            &&& 0x100_0000 <= w < 0x200_0000
            &&& a < b ==> a / b == 0 && w == q && t == rest
            &&& a >= b ==> a / b == 1 && w == 0x100_0000 + q / 2 && t == (q % 2 == 1 || rest) && w / 2
                == 0x80_0000 + q / 4 && w % 2 == (q / 2) % 2
        }),
{
    let i = flag(a >= b);
    let r = a - i * b;
    assert(i * b == (if a >= b {
        b
    } else {
        0
    })) by (nonlinear_arith)
        requires
            i == (if a >= b {
                1int
            } else {
                0
            }),
    ;
    lemma_fundamental_div_mod_converse(a, b, i, r);
    let n = r * 0x200_0000;
    let q = n / b;
    let s = n % b;
    lemma_fundamental_div_mod(n, b);
    lemma_mod_bound(n, b);
    assert(n == q * b + s) by (nonlinear_arith)
        requires
            n == b * q + s,
    ;
    assert(0 <= q < 0x200_0000) by (nonlinear_arith)
        requires
            n == q * b + s,
            0 <= s < b,
            n == r * 0x200_0000,
            0 <= r < b,
    ;
    if a < b {
        assert(q >= 0x100_0000) by (nonlinear_arith)
            requires
                n == q * b + s,
                0 <= s < b,
                n == r * 0x200_0000,
                2 * r >= b,
                b > 0,
        ;
        assert(2 * scaled_up(a, b) == n);
    } else {
        let (k, o) = (q / 2, q % 2);
        let x = 2 * scaled_up(a, b);
        let w = x - (0x100_0000 + k) * b;
        assert(2 * w == o * b + s) by (nonlinear_arith)
            requires
                w == x - (0x100_0000 + k) * b,
                2 * x == 0x200_0000 * b + q * b + s,
                q == 2 * k + o,
        ;
        assert(o * b == (if o == 1 {
            b
        } else {
            0
        })) by (nonlinear_arith)
            requires
                o == 0 || o == 1,
        ;
        lemma_fundamental_div_mod_converse(x, b, 0x100_0000 + k, w);
        assert((0x100_0000 + k) / 2 == 0x80_0000 + k / 2 && (0x100_0000 + k) % 2 == k % 2);
        assert(k / 2 == q / 4);
    }
}

/// The exponent bytes of a quotient, the lower one less by one where its mantissa
/// asks for it.
#[verifier::rlimit(50)]
proof fn lemma_exponent_less(c: Machine, d: Machine, scr: u32, e: int, less: bool)
    requires
        holds_exponent(c, scr, e),
        e >= -200,
        less ==> e != 0 && e != 256,
        d.ram[at(scr, 1)] == c.ram[at(scr, 1)] - flag(less),
        d.ram[at(scr, 2)] == c.ram[at(scr, 2)],
    ensures
        holds_exponent(d, scr, e - flag(less)),
{
}

/// The bit below a mantissa and the rest say how it is rounded.
#[verifier::rlimit(50)]
proof fn lemma_rounded(n: int, d: int)
    requires
        n >= 0,
        d > 0,
    ensures
        rounded((2 * n) / d, (2 * n) % d != 0) == half_even(n, d),
{
    let (w, s) = ((2 * n) / d, (2 * n) % d);
    lemma_fundamental_div_mod(2 * n, d);
    lemma_mod_bound(2 * n, d);
    let (k, g) = (w / 2, w % 2);
    let r = n - k * d;
    assert(2 * r == g * d + s) by (nonlinear_arith)
        requires
            2 * n == d * w + s,
            w == 2 * k + g,
            r == n - k * d,
    ;
    assert(g * d == (if g == 1 {
        d
    } else {
        0
    })) by (nonlinear_arith)
        requires
            g == 0 || g == 1,
    ;
    lemma_fundamental_div_mod_converse(n, d, k, r);
}

/// One bit less.
#[verifier::rlimit(50)]
proof fn lemma_one_less(n: int, d: int)
    requires
        n >= 0,
        d > 0,
    ensures
        n / (2 * d) == (n / d) / 2,
        (n % (2 * d) != 0) == (n % d != 0 || (n / d) % 2 == 1),
{
    let (w, s) = (n / d, n % d);
    lemma_fundamental_div_mod(n, d);
    lemma_mod_bound(n, d);
    let (k, g) = (w / 2, w % 2);
    let r = g * d + s;
    assert(g * d == (if g == 1 {
        d
    } else {
        0
    })) by (nonlinear_arith)
        requires
            g == 0 || g == 1,
    ;
    assert(n == k * (2 * d) + r) by (nonlinear_arith)
        requires
            n == d * w + s,
            w == 2 * k + g,
            r == g * d + s,
    ;
    lemma_fundamental_div_mod_converse(n, 2 * d, k, r);
}

/// What the bits come to is the quotient at its exponent.
proof fn lemma_lowered(n: int, d: int, e: int)
    requires
        n >= 0,
        d > 0,
    ensures
        lowered((2 * n) / d, (2 * n) % d != 0, e) == (
            at_least_one(e),
            half_even(n, d * pow2(at_least_one(e) - e)),
        ),
    decreases 1 - e,
{
    if e < 1 {
        lemma_one_less(2 * n, d);
        lemma_lowered(n, 2 * d, e + 1);
        let p = pow2(1 - (e + 1));
        assert(pow2(1 - e) == 2 * p);
        assert((2 * d) * p == d * (2 * p)) by (nonlinear_arith);
        assert(at_least_one(e + 1) == 1);
    } else {
        lemma_rounded(n, d);
        assert(pow2(0) == 1);
        assert(d * 1 == d);
    }
}

/// The rounding of a quotient does not carry.
#[verifier::rlimit(50)]
proof fn lemma_no_carry(a: int, b: int)
    requires
        0x80_0000 <= a < 0x100_0000,
        0x80_0000 <= b < 0x100_0000,
    ensures
        half_even(scaled_up(a, b), b) < 0x100_0000,
{
    let n = scaled_up(a, b);
    assert(n <= 0xFF_FFFF * b) by (nonlinear_arith)
        requires
            n == (if a < b {
                0x100_0000 * a
            } else {
                0x80_0000 * a
            }),
            0x80_0000 <= a < 0x100_0000,
            0x80_0000 <= b < 0x100_0000,
    ;
    let (q, r) = (n / b, n % b);
    lemma_fundamental_div_mod(n, b);
    lemma_mod_bound(n, b);
    assert(q <= 0xFF_FFFF && (q == 0xFF_FFFF ==> r == 0)) by (nonlinear_arith)
        requires
            n == b * q + r,
            0 <= r < b,
            n <= 0xFF_FFFF * b,
    ;
}

impl<'a> Gen<'a> {
    /// The remainder cleared, and 24 turns to go.
    pub open spec fn fdiv_clear_whole(&self, st: St, scr: u32) -> St {
        st.emit(clrf(at(scr, 3))).emit(clrf(at(scr, 4))).emit(clrf(at(scr, 5))).emit(
            clrf(at(scr, 6)),
        ).emit(movlw(0x18)).emit(movwf(at(scr, 10)))
    }

    /// The integer part kept.
    pub open spec fn fdiv_keep(&self, st: St, pa: u32, scr: u32, l: u32) -> St {
        let spare = at(scr, 11);
        st.emit(clrf(spare)).emit(movf(pa)).emit(lit(LitOp::Andlw, 0x01)).emit(
            on_z(BitOp::Btfsc),
        ).emit(goto_tmp(label_at(l, 7))).emit(ram_bit(BitOp::Bsf, spare, 0)).emit(
            label_tmp(label_at(l, 7)),
        )
    }

    /// The quotient cleared, and 25 turns to go.
    pub open spec fn fdiv_clear_rest(&self, st: St, pa: u32, scr: u32) -> St {
        st.emit(clrf(pa)).emit(clrf(at(pa, 1))).emit(clrf(at(pa, 2))).emit(clrf(at(pa, 3))).emit(
            movlw(0x19),
        ).emit(movwf(at(scr, 10)))
    }

    /// What follows the integer part.
    pub open spec fn fdiv_end(&self, st: St, pa: u32, scr: u32, l: u32) -> St {
        self.divf_round(self.divf_split(self.divf_fraction(st, pa, scr, l), pa, scr, l), pa, scr, l)
    }

    /// Where a quotient has got to behind its loops: the result is returned, or the
    /// shifts go on.
    pub open spec fn coming_to(&self, m: Machine, pa: u32, scr: u32, l: u32, v: int) -> bool {
        ||| m.flow is Gone && word(m, self.retval, 4) == v
        ||| m.flow == tmp(l, 11) && exists|w: int, t: bool, e: int, neg: bool| #[trigger]
            lowering(m, pa, scr, w, t, e, neg) && 0 <= w < 0x100_0000 && e <= 1 && packed_float(
                neg,
                lowered(w, t, e).0 % 256,
                lowered(w, t, e).1,
            ) == v
    }

    /// The bits of the quotient give the result.
    #[verifier::rlimit(50)]
    proof fn lemma_fdiv_finish(
        &self,
        st: St,
        pa: u32,
        pb: u32,
        scr: u32,
        l: u32,
        a: int,
        b: int,
        neg: bool,
        e: int,
        base: int,
        m: Machine,
    )
        requires
            under_way(st, base, m),
            quotient_slots(pa, pb, scr, self.retval),
            l <= u32::MAX - 50,
            st.next == l + 38,
            dividable(a, b, e),
            ({
                let c = exec(st.rows, base, m);
                let n = (a % b) * 0x200_0000;
                ||| inner(c.flow, l)
                ||| {
                    &&& c.flow is Next
                    &&& dividing(c, scr, b, neg, e)
                    &&& word(c, at(scr, 3), 4) == n % b
                    &&& word(c, pa, 4) == n / b
                    &&& c.ram[at(scr, 11)] == a / b
                }
            }),
        ensures
            ({
                let c = exec(st.rows, base, m);
                let s = self.divf_round(self.divf_split(st, pa, scr, l), pa, scr, l);
                let z = exec(s.rows, base, m);
                &&& inner(c.flow, l) ==> z == c
                &&& !inner(c.flow, l) ==> self.coming_to(
                    z,
                    pa,
                    scr,
                    l,
                    quotient_value(neg, a, b, e - flag(a < b)),
                )
            }),
    {
        let c = exec(st.rows, base, m);
        let n = scaled_up(a, b);
        let (w, t) = ((2 * n) / b, (2 * n) % b != 0);
        let first = e - flag(a < b);
        lemma_quotient_bits(a, b);
        assert(rounded(w, t) < 0x100_0000) by {
            lemma_rounded(n, b);
            lemma_no_carry(a, b);
        }
        let v = quotient_value(neg, a, b, first);
        assert(packed_float(neg, lowered(w, t, first).0 % 256, lowered(w, t, first).1) == v) by {
            lemma_lowered(n, b, first);
        }
        assert(inner(c.flow, l) || c.ram[at(scr, 11)] + c.ram[at(scr, 1)] > 0);
        let s1 = self.divf_split(st, pa, scr, l);
        self.lemma_fdiv_split(st, pa, pb, scr, l, base, m);
        let d = exec(s1.rows, base, m);
        if !inner(c.flow, l) {
            lemma_exponent_less(c, d, scr, e, a < b);
            assert(three(d, pa) == w / 2);
            assert(d.ram[at(scr, 11)] == w % 2 + 2 * flag(t));
            assert(lowering(d, pa, scr, w, t, first, neg));
        }
        self.lemma_fdiv_round(s1, pa, pb, scr, l, w, t, first, neg, base, m);
        let z = exec(self.divf_round(s1, pa, scr, l).rows, base, m);
        if !inner(c.flow, l) && first < 1 {
            assert(lowering(z, pa, scr, w / 2, t || w % 2 == 1, first + 1, neg));
        }
    }

    /// One pass over the rows, from the loop for the fraction on.
    #[verifier::rlimit(50)]
    proof fn lemma_fdiv_pass_rest(
        &self,
        st: St,
        pa: u32,
        pb: u32,
        scr: u32,
        l: u32,
        left: nat,
        a: int,
        b: int,
        neg: bool,
        e: int,
        base: int,
        m: Machine,
    )
        requires
            under_way(st, base, m),
            exec(st.rows, base, m).flow is Next || exec(st.rows, base, m).flow == tmp(l, 8),
            quotient_slots(pa, pb, scr, self.retval),
            l <= u32::MAX - 50,
            st.next == l + 38,
            dividable(a, b, e),
            dividing_rest(exec(st.rows, base, m), pa, scr, left, a, b, neg, e),
        ensures
            ({
                let s = self.divf_split(self.fdiv_turn_second(st, pa, scr, l), pa, scr, l);
                let z = exec(self.divf_round(s, pa, scr, l).rows, base, m);
                if left == 1 {
                    self.coming_to(z, pa, scr, l, quotient_value(neg, a, b, e - flag(a < b)))
                } else {
                    z.flow == tmp(l, 8) && dividing_rest(
                        z,
                        pa,
                        scr,
                        (left - 1) as nat,
                        a,
                        b,
                        neg,
                        e,
                    )
                }
            }),
    {
        let c = exec(st.rows, base, m);
        let r = a % b;
        let p = pow2(25 - left);
        let n = r * p;
        lemma_mod_bound(a, b);
        lemma_rest_bounds(left);
        assert(0 <= n && n < 0x100_0000 * b) by (nonlinear_arith)
            requires
                n == r * p,
                0 <= r < b,
                0 < p <= 0x100_0000,
        ;
        assert(0 <= n / b < 0x100_0000 && 0 <= n % b < b) by {
            lemma_fundamental_div_mod(n, b);
            lemma_mod_bound(n, b);
            let q = n / b;
            let s = n % b;
            assert(0 <= q < 0x100_0000) by (nonlinear_arith)
                requires
                    n == b * q + s,
                    0 <= s < b,
                    0 <= n < 0x100_0000 * b,
            ;
        }
        lemma_doubled(n, 0, b);
        assert(pow2(26 - left) == 2 * p);
        assert(r * (2 * p) == 2 * n) by (nonlinear_arith)
            requires
                n == r * p,
        ;
        let s1 = self.fdiv_turn_second(st, pa, scr, l);
        self.lemma_fdiv_turn_second(st, pa, pb, scr, l, base, m);
        let d = exec(s1.rows, base, m);
        if left == 1 {
            assert(2 * p == 0x200_0000);
        } else {
            assert(dividing_rest(d, pa, scr, (left - 1) as nat, a, b, neg, e));
        }
        self.lemma_fdiv_finish(s1, pa, pb, scr, l, a, b, neg, e, base, m);
    }

    /// The end of the rows, reached from the integer part or passed over.
    #[verifier::rlimit(50)]
    proof fn lemma_fdiv_end(
        &self,
        st: St,
        pa: u32,
        pb: u32,
        scr: u32,
        l: u32,
        left: nat,
        a: int,
        b: int,
        neg: bool,
        e: int,
        base: int,
        m: Machine,
    )
        requires
            under_way(st, base, m),
            quotient_slots(pa, pb, scr, self.retval),
            l <= u32::MAX - 50,
            st.next == l + 38,
            dividable(a, b, e),
            ({
                let c = exec(st.rows, base, m);
                ||| c.flow == tmp(l, 3) || shifting(c.flow, l)
                ||| c.flow == tmp(l, 8) && dividing_rest(c, pa, scr, left, a, b, neg, e)
                ||| c.flow is Next && left == 25 && dividing(c, scr, b, neg, e) && word(
                    c,
                    at(scr, 3),
                    4,
                ) == a % b && c.ram[at(scr, 11)] == a / b
            }),
        ensures
            ({
                let c = exec(st.rows, base, m);
                let z = exec(self.fdiv_end(st, pa, scr, l).rows, base, m);
                if c.flow == tmp(l, 3) || shifting(c.flow, l) {
                    z == c
                } else if left == 1 {
                    self.coming_to(z, pa, scr, l, quotient_value(neg, a, b, e - flag(a < b)))
                } else {
                    z.flow == tmp(l, 8) && dividing_rest(
                        z,
                        pa,
                        scr,
                        (left - 1) as nat,
                        a,
                        b,
                        neg,
                        e,
                    )
                }
            }),
    {
        let c = exec(st.rows, base, m);
        let s1 = self.fdiv_clear_rest(st, pa, scr);
        let s2 = self.fdiv_turn_second(s1, pa, scr, l);
        assert(self.divf_fraction(st, pa, scr, l) == s2) by {
            reveal(Gen::divf_fraction);
        }
        let d = exec(s1.rows, base, m);
        assert(base <= s1.rows.len());
        if c.flow is Next {
            assert(d.core == c.core && d.flow is Next && d.ram == c.ram.insert(pa, 0).insert(
                at(pa, 1),
                0,
            ).insert(at(pa, 2), 0).insert(at(pa, 3), 0).insert(at(scr, 10), 25)) by {
                broadcast use group_exec;

            }
            lemma_mod_bound(a, b);
            assert(pow2(0) == 1);
            lemma_fundamental_div_mod_converse(a % b, b, 0, a % b);
            assert(word(d, at(scr, 3), 4) == word(c, at(scr, 3), 4));
            assert((a % b) * 1 == a % b);
            assert(dividing_rest(d, pa, scr, 25, a, b, neg, e));
            self.lemma_fdiv_pass_rest(s1, pa, pb, scr, l, 25, a, b, neg, e, base, m);
        } else {
            assert(d == c) by {
                broadcast use group_exec;

            }
            if c.flow == tmp(l, 8) {
                self.lemma_fdiv_pass_rest(s1, pa, pb, scr, l, left, a, b, neg, e, base, m);
            } else {
                self.lemma_fdiv_turn_second_over(s1, pa, scr, l, base, m);
                self.lemma_fdiv_finish(s2, pa, pb, scr, l, a, b, neg, e, base, m);
            }
        }
    }

    /// The integer part is zero or one, and is kept.
    #[verifier::rlimit(50)]
    proof fn lemma_fdiv_keep(
        &self,
        st: St,
        pa: u32,
        pb: u32,
        scr: u32,
        l: u32,
        base: int,
        m: Machine,
    )
        requires
            under_way(st, base, m),
            quotient_slots(pa, pb, scr, self.retval),
            l <= u32::MAX - 50,
            ({
                let c = exec(st.rows, base, m);
                looping(c.flow, l) || c.flow is Next && three(c, pa) <= 1
            }),
        ensures
            ({
                let c = exec(st.rows, base, m);
                let s = self.fdiv_keep(st, pa, scr, l);
                let z = exec(s.rows, base, m);
                &&& under_way(s, base, m)
                &&& s.next == st.next
                &&& looping(c.flow, l) ==> z == c
                &&& c.flow is Next ==> z.flow is Next && z.ram == c.ram.insert(
                    at(scr, 11),
                    three(c, pa) as u8,
                )
            }),
    {
        let c = exec(st.rows, base, m);
        let s = self.fdiv_keep(st, pa, scr, l);
        let z = exec(s.rows, base, m);
        assert(base <= s.rows.len());
        if looping(c.flow, l) {
            assert(z == c) by {
                broadcast use group_exec;

            }
        } else {
            let x = c.ram[pa];
            assert(x == three(c, pa));
            assert(0u8 & 1u8 == 0 && 1u8 & 1u8 == 1) by (bit_vector);
            assert(z.core == c.core && z.flow is Next && z.ram == c.ram.insert(at(scr, 11), x)) by {
                broadcast use group_exec;

            }
        }
    }

    /// One pass over the rows, from the loop for the integer part on.
    #[verifier::rlimit(50)]
    proof fn lemma_fdiv_pass_whole(
        &self,
        st: St,
        pa: u32,
        pb: u32,
        scr: u32,
        l: u32,
        left: nat,
        a: int,
        b: int,
        neg: bool,
        e: int,
        base: int,
        m: Machine,
    )
        requires
            under_way(st, base, m),
            exec(st.rows, base, m).flow is Next || exec(st.rows, base, m).flow == tmp(l, 3),
            quotient_slots(pa, pb, scr, self.retval),
            l <= u32::MAX - 50,
            st.next == l + 38,
            dividable(a, b, e),
            dividing_whole(exec(st.rows, base, m), pa, scr, left, a, b, neg, e),
        ensures
            ({
                let s = self.fdiv_keep(self.fdiv_turn_first(st, pa, scr, l), pa, scr, l);
                let z = exec(self.fdiv_end(s, pa, scr, l).rows, base, m);
                if left == 1 {
                    z.flow == tmp(l, 8) && dividing_rest(z, pa, scr, 24, a, b, neg, e)
                } else {
                    z.flow == tmp(l, 3) && dividing_whole(
                        z,
                        pa,
                        scr,
                        (left - 1) as nat,
                        a,
                        b,
                        neg,
                        e,
                    )
                }
            }),
    {
        let c = exec(st.rows, base, m);
        let h = pow2(left - 1);
        let g = pow2(24 - left);
        lemma_loop_powers(left);
        lemma_whole_turn(a, b, h, g);
        lemma_mod_bound(a / (2 * h), b);
        let s1 = self.fdiv_turn_first(st, pa, scr, l);
        self.lemma_fdiv_turn_first(st, pa, pb, scr, l, base, m);
        let d = exec(s1.rows, base, m);
        assert(three(d, pa) == (a % h) * (2 * g) + (a / h) / b);
        assert(word(d, at(scr, 3), 4) == (a / h) % b);
        if left == 1 {
            assert(h == 1) by {
                reveal_with_fuel(pow2, 2);
            }
            assert(a % h == 0 && a / h == a);
            assert((a % h) * (2 * g) == 0) by (nonlinear_arith)
                requires
                    a % h == 0,
            ;
            lemma_quotient_bits(a, b);
        } else {
            assert(dividing_whole(d, pa, scr, (left - 1) as nat, a, b, neg, e));
        }
        let s2 = self.fdiv_keep(s1, pa, scr, l);
        self.lemma_fdiv_keep(s1, pa, pb, scr, l, base, m);
        let z = exec(s2.rows, base, m);
        assert(word(z, at(scr, 3), 4) == word(d, at(scr, 3), 4));
        self.lemma_fdiv_end(s2, pa, pb, scr, l, 25, a, b, neg, e, base, m);
    }

    /// The rows of a quotient are its head, its two loops and its end.
    proof fn lemma_fdiv_whole(&self, st: St, pa: u32, pb: u32, scr: u32)
        requires
            st.next <= u32::MAX - 50,
        ensures
            ({
                let l = st.next;
                let s = self.fdiv_head(st.reserve(38), pa, pb, scr, l);
                let s = self.fdiv_turn_first(self.fdiv_clear_whole(s, scr), pa, scr, l);
                self.divf(st, pa, pb, scr) == self.fdiv_end(self.fdiv_keep(s, pa, scr, l), pa, scr, l)
            }),
    {
        let l = st.next;
        let s = self.fdiv_head(st.reserve(38), pa, pb, scr, l);
        assert(self.divf_integer(s, pa, scr, l) == self.fdiv_keep(
            self.fdiv_turn_first(self.fdiv_clear_whole(s, scr), pa, scr, l),
            pa,
            scr,
            l,
        )) by {
            reveal(Gen::divf_integer);
        }
        reveal(Gen::divf);
    }

    /// A jump back reaches its loop.
    #[verifier::rlimit(50)]
    proof fn lemma_fdiv_again(&self, st: St, pa: u32, pb: u32, scr: u32, m: Machine)
        requires
            quotient_slots(pa, pb, scr, self.retval),
            st.next <= u32::MAX - 50,
            m.core is Enhanced,
            looping(m.flow, st.next) && !shifting(m.flow, st.next),
        ensures
            ({
                let l = st.next;
                let s = self.fdiv_clear_whole(
                    self.fdiv_head(st.reserve(38), pa, pb, scr, l),
                    scr,
                );
                &&& under_way(s, st.rows.len() as int, m)
                &&& exec(s.rows, st.rows.len() as int, m) == m
                &&& s.next == l + 38
            }),
    {
        let base = st.rows.len() as int;
        let l = st.next;
        let s0 = st.reserve(38);
        assert(exec(s0.rows, base, m) == m) by {
            broadcast use group_exec;

        }
        let s1 = self.fdiv_head(s0, pa, pb, scr, l);
        self.lemma_fdiv_head(s0, pa, pb, scr, l, 0, 0, 0, 0, 0, false, base, m);
        let s2 = self.fdiv_clear_whole(s1, scr);
        assert(base <= s2.rows.len() && exec(s2.rows, base, m) == m) by {
            broadcast use group_exec;

        }
    }

    /// The passes that shift a quotient below the normal numbers.
    #[verifier::rlimit(50)]
    proof fn lemma_fdiv_lower(
        &self,
        st: St,
        pa: u32,
        pb: u32,
        scr: u32,
        w: int,
        t: bool,
        e: int,
        neg: bool,
        m: Machine,
    )
        requires
            quotient_slots(pa, pb, scr, self.retval),
            st.next <= u32::MAX - 50,
            m.flow == tmp(st.next, 11),
            lowering(m, pa, scr, w, t, e, neg),
            0 <= w < 0x100_0000,
            e <= 1,
        ensures
            comes_to(
                self.divf(st, pa, pb, scr).rows,
                st.rows.len() as int,
                m,
                self.retval,
                packed_float(neg, lowered(w, t, e).0 % 256, lowered(w, t, e).1),
            ),
        decreases 1 - e,
    {
        let base = st.rows.len() as int;
        let l = st.next;
        let rows = self.divf(st, pa, pb, scr).rows;
        self.lemma_fdiv_whole(st, pa, pb, scr);
        self.lemma_fdiv_again(st, pa, pb, scr, m);
        let s0 = self.fdiv_clear_whole(self.fdiv_head(st.reserve(38), pa, pb, scr, l), scr);
        let s1 = self.fdiv_turn_first(s0, pa, scr, l);
        self.lemma_fdiv_turn_first_over(s0, pa, scr, l, base, m);
        let s2 = self.fdiv_keep(s1, pa, scr, l);
        self.lemma_fdiv_keep(s1, pa, pb, scr, l, base, m);
        let s3 = self.fdiv_clear_rest(s2, pa, scr);
        assert(base <= s3.rows.len() && exec(s3.rows, base, m) == m) by {
            broadcast use group_exec;

        }
        let s4 = self.fdiv_turn_second(s3, pa, scr, l);
        assert(self.divf_fraction(s2, pa, scr, l) == s4) by {
            reveal(Gen::divf_fraction);
        }
        self.lemma_fdiv_turn_second_over(s3, pa, scr, l, base, m);
        let s5 = self.divf_split(s4, pa, scr, l);
        self.lemma_fdiv_split(s4, pa, pb, scr, l, base, m);
        self.lemma_fdiv_round(s5, pa, pb, scr, l, w, t, e, neg, base, m);
        if e < 1 {
            let a = exec(rows, base, m);
            self.lemma_fdiv_lower(st, pa, pb, scr, w / 2, t || w % 2 == 1, e + 1, neg, a);
        }
        lemma_comes_on(
            rows,
            base,
            m,
            self.retval,
            packed_float(neg, lowered(w, t, e).0 % 256, lowered(w, t, e).1),
        );
    }

    /// What is on its way comes to its end.
    proof fn lemma_fdiv_arrives(&self, st: St, pa: u32, pb: u32, scr: u32, v: int, m: Machine)
        requires
            quotient_slots(pa, pb, scr, self.retval),
            st.next <= u32::MAX - 50,
            self.coming_to(
                exec(self.divf(st, pa, pb, scr).rows, st.rows.len() as int, m),
                pa,
                scr,
                st.next,
                v,
            ),
        ensures
            comes_to(self.divf(st, pa, pb, scr).rows, st.rows.len() as int, m, self.retval, v),
    {
        let base = st.rows.len() as int;
        let rows = self.divf(st, pa, pb, scr).rows;
        let a = exec(rows, base, m);
        if !(a.flow is Gone) {
            let (w, t, e, neg) = choose|w: int, t: bool, e: int, neg: bool| #[trigger]
                lowering(a, pa, scr, w, t, e, neg) && 0 <= w < 0x100_0000 && e <= 1 && packed_float(
                    neg,
                    lowered(w, t, e).0 % 256,
                    lowered(w, t, e).1,
                ) == v;
            self.lemma_fdiv_lower(st, pa, pb, scr, w, t, e, neg, a);
        }
        lemma_comes_on(rows, base, m, self.retval, v);
    }

    proof fn lemma_fdiv_passes_rest(
        &self,
        st: St,
        pa: u32,
        pb: u32,
        scr: u32,
        left: nat,
        a: int,
        b: int,
        neg: bool,
        e: int,
        m: Machine,
    )
        requires
            quotient_slots(pa, pb, scr, self.retval),
            st.next <= u32::MAX - 50,
            m.flow == tmp(st.next, 8),
            dividable(a, b, e),
            dividing_rest(m, pa, scr, left, a, b, neg, e),
        ensures
            comes_to(
                self.divf(st, pa, pb, scr).rows,
                st.rows.len() as int,
                m,
                self.retval,
                quotient_value(neg, a, b, e - flag(a < b)),
            ),
        decreases left,
    {
        let base = st.rows.len() as int;
        let l = st.next;
        self.lemma_fdiv_whole(st, pa, pb, scr);
        self.lemma_fdiv_again(st, pa, pb, scr, m);
        let s0 = self.fdiv_clear_whole(self.fdiv_head(st.reserve(38), pa, pb, scr, l), scr);
        let s1 = self.fdiv_turn_first(s0, pa, scr, l);
        self.lemma_fdiv_turn_first_over(s0, pa, scr, l, base, m);
        let s2 = self.fdiv_keep(s1, pa, scr, l);
        self.lemma_fdiv_keep(s1, pa, pb, scr, l, base, m);
        self.lemma_fdiv_end(s2, pa, pb, scr, l, left, a, b, neg, e, base, m);
        let v = quotient_value(neg, a, b, e - flag(a < b));
        let rows = self.divf(st, pa, pb, scr).rows;
        if left > 1 {
            let z = exec(rows, base, m);
            self.lemma_fdiv_passes_rest(st, pa, pb, scr, (left - 1) as nat, a, b, neg, e, z);
            lemma_comes_on(rows, base, m, self.retval, v);
        } else {
            self.lemma_fdiv_arrives(st, pa, pb, scr, v, m);
        }
    }

    proof fn lemma_fdiv_passes_whole(
        &self,
        st: St,
        pa: u32,
        pb: u32,
        scr: u32,
        left: nat,
        a: int,
        b: int,
        neg: bool,
        e: int,
        m: Machine,
    )
        requires
            quotient_slots(pa, pb, scr, self.retval),
            st.next <= u32::MAX - 50,
            m.flow == tmp(st.next, 3),
            dividable(a, b, e),
            dividing_whole(m, pa, scr, left, a, b, neg, e),
        ensures
            comes_to(
                self.divf(st, pa, pb, scr).rows,
                st.rows.len() as int,
                m,
                self.retval,
                quotient_value(neg, a, b, e - flag(a < b)),
            ),
        decreases left,
    {
        let base = st.rows.len() as int;
        let l = st.next;
        self.lemma_fdiv_whole(st, pa, pb, scr);
        self.lemma_fdiv_again(st, pa, pb, scr, m);
        let s0 = self.fdiv_clear_whole(self.fdiv_head(st.reserve(38), pa, pb, scr, l), scr);
        self.lemma_fdiv_pass_whole(s0, pa, pb, scr, l, left, a, b, neg, e, base, m);
        let z = exec(self.divf(st, pa, pb, scr).rows, base, m);
        if left == 1 {
            self.lemma_fdiv_passes_rest(st, pa, pb, scr, 24, a, b, neg, e, z);
        } else {
            self.lemma_fdiv_passes_whole(st, pa, pb, scr, (left - 1) as nat, a, b, neg, e, z);
        }
        lemma_comes_on(
            self.divf(st, pa, pb, scr).rows,
            base,
            m,
            self.retval,
            quotient_value(neg, a, b, e - flag(a < b)),
        );
    }

    /// What follows the head is passed over on the way back to the shifts.
    #[verifier::rlimit(50)]
    proof fn lemma_fdiv_tail_over(&self, st: St, pa: u32, pb: u32, scr: u32, l: u32, base: int, m: Machine)
        requires
            under_way(st, base, m),
            quotient_slots(pa, pb, scr, self.retval),
            l <= u32::MAX - 50,
            st.next == l + 38,
            shifting(exec(st.rows, base, m).flow, l),
        ensures
            ({
                let s = self.fdiv_turn_first(self.fdiv_clear_whole(st, scr), pa, scr, l);
                exec(self.fdiv_end(self.fdiv_keep(s, pa, scr, l), pa, scr, l).rows, base, m) == exec(
                    st.rows,
                    base,
                    m,
                )
            }),
    {
        let b = exec(st.rows, base, m);
        let s0 = self.fdiv_clear_whole(st, scr);
        assert(base <= s0.rows.len() && exec(s0.rows, base, m) == b) by {
            broadcast use group_exec;

        }
        let s1 = self.fdiv_turn_first(s0, pa, scr, l);
        self.lemma_fdiv_turn_first_over(s0, pa, scr, l, base, m);
        let s2 = self.fdiv_keep(s1, pa, scr, l);
        self.lemma_fdiv_keep(s1, pa, pb, scr, l, base, m);
        self.lemma_fdiv_end(
            s2,
            pa,
            pb,
            scr,
            l,
            25,
            0x80_0000,
            0x80_0000,
            false,
            1,
            base,
            m,
        );
    }

    /// A pass that puts the operands in place, and those that follow it.
    #[verifier::rlimit(50)]
    proof fn lemma_fdiv_placed(
        &self,
        st: St,
        pa: u32,
        pb: u32,
        scr: u32,
        a: int,
        b: int,
        e: int,
        neg: bool,
        m: Machine,
    )
        requires
            quotient_slots(pa, pb, scr, self.retval),
            st.next <= u32::MAX - 50,
            dividable(a, b, e),
            ({
                let s = self.fdiv_head(st.reserve(38), pa, pb, scr, st.next);
                let c = exec(s.rows, st.rows.len() as int, m);
                &&& under_way(s, st.rows.len() as int, m)
                &&& s.next == st.next + 38
                &&& c.flow is Next
                &&& in_place(c, pa, scr, a, b, e, neg)
            }),
        ensures
            comes_to(
                self.divf(st, pa, pb, scr).rows,
                st.rows.len() as int,
                m,
                self.retval,
                quotient_value(neg, a, b, e - flag(a < b)),
            ),
    {
        let base = st.rows.len() as int;
        let l = st.next;
        let rows = self.divf(st, pa, pb, scr).rows;
        let s1 = self.fdiv_head(st.reserve(38), pa, pb, scr, l);
        let c = exec(s1.rows, base, m);
        let s2 = self.fdiv_clear_whole(s1, scr);
        let d = exec(s2.rows, base, m);
        assert(base <= s2.rows.len() && d.core == c.core && d.flow is Next && d.ram == c.ram.insert(
            at(scr, 3),
            0,
        ).insert(at(scr, 4), 0).insert(at(scr, 5), 0).insert(at(scr, 6), 0).insert(at(scr, 10), 24)) by {
            broadcast use group_exec;

        }
        self.lemma_fdiv_whole(st, pa, pb, scr);
        assert(pow2(24) == 0x100_0000 && pow2(0) == 1) by {
            reveal_with_fuel(pow2, 25);
        }
        lemma_fundamental_div_mod_converse(0, b, 0, 0);
        assert(a / 0x100_0000 == 0 && a % 0x100_0000 == a);
        assert(three(d, pa) == three(c, pa) && three(d, at(scr, 7)) == three(c, at(scr, 7)));
        assert(holds_exponent(d, scr, e));
        assert(dividing_whole(d, pa, scr, 24, a, b, neg, e));
        self.lemma_fdiv_pass_whole(s2, pa, pb, scr, l, 24, a, b, neg, e, base, m);
        let z = exec(rows, base, m);
        self.lemma_fdiv_passes_whole(st, pa, pb, scr, 23, a, b, neg, e, z);
        lemma_comes_on(rows, base, m, self.retval, quotient_value(neg, a, b, e - flag(a < b)));
    }

    /// The passes that shift the divisor, and those that follow.
    #[verifier::rlimit(50)]
    proof fn lemma_fdiv_lead_second(
        &self,
        st: St,
        pa: u32,
        pb: u32,
        scr: u32,
        a: int,
        n: int,
        v: int,
        k: int,
        e: int,
        neg: bool,
        m: Machine,
    )
        requires
            quotient_slots(pa, pb, scr, self.retval),
            st.next <= u32::MAX - 50,
            m.flow == tmp(st.next, 19),
            second_part(m, pa, pb, scr, a, n, v, k, e, neg),
            0 < v < 0x100_0000,
            k + lead(v) <= 23,
            dividable(a, led(v), e - n + k + lead(v)),
        ensures
            comes_to(
                self.divf(st, pa, pb, scr).rows,
                st.rows.len() as int,
                m,
                self.retval,
                quotient_value(neg, a, led(v), e - n + k + lead(v) - flag(a < led(v))),
            ),
        decreases lead(v),
    {
        let base = st.rows.len() as int;
        let l = st.next;
        let rows = self.divf(st, pa, pb, scr).rows;
        let s0 = st.reserve(38);
        assert(exec(s0.rows, base, m) == m) by {
            broadcast use group_exec;

        }
        lemma_lead_bounds(v);
        let s1 = self.fdiv_head(s0, pa, pb, scr, l);
        self.lemma_fdiv_head(s0, pa, pb, scr, l, a, n, v, k, e, neg, base, m);
        if v >= 0x80_0000 {
            self.lemma_fdiv_placed(st, pa, pb, scr, a, v, e - n + k, neg, m);
        } else {
            let c = exec(s1.rows, base, m);
            self.lemma_fdiv_whole(st, pa, pb, scr);
            self.lemma_fdiv_tail_over(s1, pa, pb, scr, l, base, m);
            lemma_lead_bounds(2 * v);
            self.lemma_fdiv_lead_second(st, pa, pb, scr, a, n, 2 * v, k + 1, e, neg, c);
            lemma_comes_on(
                rows,
                base,
                m,
                self.retval,
                quotient_value(neg, a, led(v), e - n + k + lead(v) - flag(a < led(v))),
            );
        }
    }

    /// The passes that follow one with the dividend in place.
    proof fn lemma_fdiv_first_done(
        &self,
        st: St,
        pa: u32,
        pb: u32,
        scr: u32,
        a: int,
        n: int,
        y: int,
        e: int,
        neg: bool,
        m: Machine,
    )
        requires
            quotient_slots(pa, pb, scr, self.retval),
            st.next <= u32::MAX - 50,
            is_finite_nonzero(y),
            0 < full_mantissa(y) < 0x100_0000,
            dividable(a, led_mantissa(y), e - n + lead(full_mantissa(y))),
            ({
                let s = self.fdiv_head(st.reserve(38), pa, pb, scr, st.next);
                let c = exec(s.rows, st.rows.len() as int, m);
                &&& under_way(s, st.rows.len() as int, m)
                &&& s.next == st.next + 38
                &&& first_done(c, pa, pb, scr, st.next, a, n, y, e, neg)
            }),
        ensures
            comes_to(
                self.divf(st, pa, pb, scr).rows,
                st.rows.len() as int,
                m,
                self.retval,
                quotient_value(
                    neg,
                    a,
                    led_mantissa(y),
                    e - n + lead(full_mantissa(y)) - flag(a < led_mantissa(y)),
                ),
            ),
    {
        let base = st.rows.len() as int;
        let l = st.next;
        let rows = self.divf(st, pa, pb, scr).rows;
        let v = full_mantissa(y);
        lemma_lead_bounds(v);
        if v >= 0x80_0000 {
            self.lemma_fdiv_placed(st, pa, pb, scr, a, v, e - n, neg, m);
        } else {
            let s1 = self.fdiv_head(st.reserve(38), pa, pb, scr, l);
            let c = exec(s1.rows, base, m);
            self.lemma_fdiv_whole(st, pa, pb, scr);
            self.lemma_fdiv_tail_over(s1, pa, pb, scr, l, base, m);
            self.lemma_fdiv_lead_second(st, pa, pb, scr, a, n, 2 * v, 1, e, neg, c);
            lemma_comes_on(
                rows,
                base,
                m,
                self.retval,
                quotient_value(neg, a, led(v), e - n + lead(v) - flag(a < led(v))),
            );
        }
    }

    /// The passes that follow one over the shifts of the dividend.
    #[verifier::rlimit(50)]
    proof fn lemma_fdiv_lead_first(
        &self,
        st: St,
        pa: u32,
        pb: u32,
        scr: u32,
        v: int,
        n: int,
        y: int,
        e: int,
        neg: bool,
        m: Machine,
    )
        requires
            quotient_slots(pa, pb, scr, self.retval),
            st.next <= u32::MAX - 50,
            is_finite_nonzero(y),
            0 < full_mantissa(y) < 0x100_0000,
            0 < v < 0x100_0000,
            0 <= n,
            n + lead(v) <= 23,
            dividable(led(v), led_mantissa(y), e - n - lead(v) + lead(full_mantissa(y))),
            ({
                let s = self.fdiv_head(st.reserve(38), pa, pb, scr, st.next);
                let c = exec(s.rows, st.rows.len() as int, m);
                &&& under_way(s, st.rows.len() as int, m)
                &&& s.next == st.next + 38
                &&& first_passed(c, pa, pb, scr, st.next, v, n, y, e, neg)
            }),
        ensures
            comes_to(
                self.divf(st, pa, pb, scr).rows,
                st.rows.len() as int,
                m,
                self.retval,
                quotient_value(
                    neg,
                    led(v),
                    led_mantissa(y),
                    e - n - lead(v) + lead(full_mantissa(y)) - flag(led(v) < led_mantissa(y)),
                ),
            ),
        decreases lead(v),
    {
        let base = st.rows.len() as int;
        let l = st.next;
        let rows = self.divf(st, pa, pb, scr).rows;
        lemma_lead_bounds(v);
        if v >= 0x80_0000 {
            self.lemma_fdiv_first_done(st, pa, pb, scr, v, n, y, e, neg, m);
        } else {
            let s0 = st.reserve(38);
            let s1 = self.fdiv_head(s0, pa, pb, scr, l);
            let c = exec(s1.rows, base, m);
            self.lemma_fdiv_whole(st, pa, pb, scr);
            self.lemma_fdiv_tail_over(s1, pa, pb, scr, l, base, m);
            lemma_lead_bounds(2 * v);
            assert(exec(s0.rows, base, c) == c) by {
                broadcast use group_exec;

            }
            self.lemma_fdiv_head(s0, pa, pb, scr, l, 2 * v, n + 1, y, 0, e, neg, base, c);
            self.lemma_fdiv_lead_first(st, pa, pb, scr, 2 * v, n + 1, y, e, neg, c);
            lemma_comes_on(
                rows,
                base,
                m,
                self.retval,
                quotient_value(
                    neg,
                    led(v),
                    led_mantissa(y),
                    e - n - lead(v) + lead(full_mantissa(y)) - flag(led(v) < led_mantissa(y)),
                ),
            );
        }
    }

    /// The quotient routine leaves the exact quotient of two finite numbers that
    /// are not zero, rounded to nearest, ties to even, in the result bytes: also of
    /// numbers below the normal ones, and where the quotient is one. A quotient past
    /// the greatest number keeps the low byte of its exponent. Left out are the
    /// quotients whose exponent is borrowed into that byte, or leaves it zero.
    pub proof fn law_float_quotient_is_nearest(
        &self,
        st: St,
        pa: u32,
        pb: u32,
        scr: u32,
        m: Machine,
    )
        requires
            quotient_slots(pa, pb, scr, self.retval),
            st.next <= u32::MAX - 50,
            m.flow is Next,
            m.core is Enhanced,
            is_finite_nonzero(word(m, pa, 4)),
            is_finite_nonzero(word(m, pb, 4)),
            borrow_holds(word(m, pa, 4), word(m, pb, 4)),
        ensures
            exists|z: Machine| #[trigger]
                runs_to(self.divf(st, pa, pb, scr).rows, st.rows.len() as int, m, z)
                    && z.flow is Gone && word(z, self.retval, 4) == float_quotient(
                    word(m, pa, 4),
                    word(m, pb, 4),
                ),
    {
        let base = st.rows.len() as int;
        let l = st.next;
        let rows = self.divf(st, pa, pb, scr).rows;
        let (x, y) = (word(m, pa, 4), word(m, pb, 4));
        let v = full_mantissa(x);
        let neg = negative(x) != negative(y);
        let e = scale(x) - scale(y) + 127;
        let s0 = st.reserve(38);
        assert(exec(s0.rows, base, m) == m) by {
            broadcast use group_exec;

        }
        lemma_parts(m, pa);
        lemma_parts(m, pb);
        assert(0 < v < 0x100_0000 && 0 < full_mantissa(y) < 0x100_0000);
        lemma_lead_bounds(v);
        lemma_lead_bounds(full_mantissa(y));
        self.lemma_fdiv_head(s0, pa, pb, scr, l, v, 0, y, 0, e, neg, base, m);
        self.lemma_fdiv_lead_first(st, pa, pb, scr, v, 0, y, e, neg, m);
        assert(comes_to(rows, base, m, self.retval, float_quotient(x, y)));
    }
}

/// The scale of the remainder in the loop for the fraction.
proof fn lemma_rest_bounds(left: nat)
    requires
        1 <= left <= 25,
    ensures
        0 < pow2(25 - left) <= 0x100_0000,
        left == 1 ==> pow2(25 - left) == 0x100_0000,
        pow2(26 - left) == 2 * pow2(25 - left),
    decreases left,
{
    if left == 1 {
        assert(pow2(24) == 0x100_0000 && pow2(25) == 0x200_0000) by {
            reveal_with_fuel(pow2, 26);
        }
    } else {
        lemma_rest_bounds((left - 1) as nat);
        lemma_pow2_positive(25 - left);
        assert(pow2(26 - left) == 2 * pow2(25 - left));
    }
}

} // verus!
