//! Sums of scaled mantissas on numbers: what rounding makes of them.
use vstd::arithmetic::div_mod::{
    lemma_fundamental_div_mod, lemma_fundamental_div_mod_converse, lemma_mod_bound,
};
use vstd::prelude::*;
use crate::meaning::{flag, lemma_pow2_positive, pow2};
use crate::pic14e::laws::float_combine::jammed;
use crate::pic14e::laws::float_round::{half_even, packed_float};
use crate::pic14e::laws::float_split::goes_up;

verus! {

/// How many bits an integer at exponent `e` loses to become a 24-bit mantissa:
/// negative if it is shifted up, which ends at exponent one.
pub open spec fn drop_bits(n: int, e: int) -> int
    decreases (if n >= 0x100_0000 {
        n
    } else {
        0
    }), e,
{
    if n >= 0x100_0000 {
        1 + drop_bits(n / 2, e)
    } else if n < 0x80_0000 && e > 1 {
        drop_bits(2 * n, e - 1) - 1
    } else {
        0
    }
}

/// The integer `n`, in units of the last place at exponent `e`, as a float:
/// rounded to nearest, ties to even.
pub open spec fn rounded(neg: bool, n: int, e: int) -> int {
    let k = drop_bits(n, e);
    packed_float(
        neg,
        e + k,
        if k >= 0 {
            half_even(n, pow2(k))
        } else {
            n * pow2(-k)
        },
    )
}

/// Whether a mantissa of 24 bits with a fraction of 24 bits is rounded up;
/// `lost` is whether anything is below the fraction.
pub open spec fn wide_up(y: int, lost: bool) -> bool {
    goes_up(
        y % 0x100_0000 >= 0x80_0000,
        y % 0x80_0000 != 0 || lost,
        (y / 0x100_0000) % 2 == 1,
    )
}

/// The float of 48 bits at exponent `e`, shifted up to the top bit or to exponent
/// one, and rounded.
pub open spec fn normalised(neg: bool, y: int, e: int, lost: bool) -> int
    decreases e,
{
    if y >= 0x8000_0000_0000 || e <= 1 {
        packed_float(neg, e, y / 0x100_0000 + flag(wide_up(y, lost)))
    } else {
        normalised(neg, 2 * y, e - 1, lost)
    }
}

pub(crate) proof fn lemma_pow2_next(k: int)
    requires
        k >= 0,
    ensures
        pow2(k + 1) == 2 * pow2(k),
        pow2(k) > 0,
{
    lemma_pow2_positive(k);
}

pub(crate) proof fn lemma_pow2_sum(i: int, j: int)
    requires
        i >= 0,
        j >= 0,
    ensures
        pow2(i + j) == pow2(i) * pow2(j),
    decreases i,
{
    if i == 0 {
        assert(pow2(0) == 1);
        assert(1 * pow2(j) == pow2(j)) by (nonlinear_arith);
    } else {
        lemma_pow2_sum(i - 1, j);
        lemma_pow2_next(i - 1);
        lemma_pow2_next(i + j - 1);
        let (a, b) = (pow2(i - 1), pow2(j));
        assert((2 * a) * b == 2 * (a * b)) by (nonlinear_arith);
    }
}

pub(crate) proof fn lemma_pow2_values()
    ensures
        pow2(0) == 1,
        pow2(1) == 2,
        pow2(7) == 0x80,
        pow2(22) == 0x40_0000,
        pow2(23) == 0x80_0000,
        pow2(24) == 0x100_0000,
        pow2(25) == 0x200_0000,
        pow2(29) == 0x2000_0000,
        pow2(30) == 0x4000_0000,
        pow2(31) == 0x8000_0000,
{
    reveal_with_fuel(pow2, 33);
}

/// Bits that fall off the bottom.
pub(crate) proof fn lemma_drop_right(n: int, e: int, k: int)
    requires
        k >= 0,
        0x80_0000 <= n / pow2(k) < 0x100_0000,
    ensures
        drop_bits(n, e) == k,
    decreases k,
{
    lemma_pow2_positive(k);
    if k == 0 {
        assert(pow2(0) == 1);
        assert(n / 1 == n);
    } else {
        let p = pow2(k - 1);
        lemma_pow2_next(k - 1);
        let q = n / (2 * p);
        let r = n % (2 * p);
        lemma_fundamental_div_mod(n, 2 * p);
        lemma_mod_bound(n, 2 * p);
        assert(n >= 0x100_0000) by (nonlinear_arith)
            requires
                n == (2 * p) * q + r,
                q >= 0x80_0000,
                r >= 0,
                p >= 1,
        ;
        let h = n / 2;
        assert(h == p * q + r / 2) by (nonlinear_arith)
            requires
                n == (2 * p) * q + r,
                h == n / 2,
        ;
        assert(h == q * p + r / 2) by (nonlinear_arith)
            requires
                h == p * q + r / 2,
        ;
        lemma_fundamental_div_mod_converse(h, p, q, r / 2);
        lemma_drop_right(h, e, k - 1);
    }
}

/// Bits that come in at the bottom.
pub(crate) proof fn lemma_drop_left(n: int, e: int, k: int)
    requires
        k >= 0,
        n >= 0,
        n * pow2(k) < 0x100_0000,
        e - k >= 1,
        n * pow2(k) >= 0x80_0000 || e - k == 1,
    ensures
        drop_bits(n, e) == -k,
    decreases k,
{
    lemma_pow2_positive(k);
    if k == 0 {
        assert(n * 1 == n);
    } else {
        let p = pow2(k - 1);
        lemma_pow2_next(k - 1);
        assert(n * (2 * p) == (2 * n) * p) by (nonlinear_arith);
        assert(2 * n <= (2 * n) * p) by (nonlinear_arith)
            requires
                n >= 0,
                p >= 1,
        ;
        lemma_drop_left(2 * n, e - 1, k - 1);
    }
}

/// Rounding by the upper bits of an integer, on plain numbers: `n` at the scale
/// of `x` is `x` and a part of one below it.
pub(crate) proof fn lemma_upper_rounds(n: int, g: int, h: int, p: int, q: int, r: int, t: int)
    requires
        g > 0,
        p > 0,
        h > 0,
        p * 0x100_0000 == 2 * (h * g),
        0 <= r < 2 * h,
        0 <= t < g,
        n * 0x100_0000 == (2 * (h * g)) * q + r * g + t,
    ensures
        n / p == q,
        half_even(n, p) == q + flag(goes_up(r >= h, (r != 0 && r != h) || t != 0, q % 2 == 1)),
{
    let w = n - q * p;
    assert(w * 0x100_0000 == r * g + t) by (nonlinear_arith)
        requires
            n * 0x100_0000 == (2 * (h * g)) * q + r * g + t,
            w == n - q * p,
            p * 0x100_0000 == 2 * (h * g),
    ;
    assert(r * g >= 0) by (nonlinear_arith)
        requires
            r >= 0,
            g > 0,
    ;
    assert(r * g <= 2 * (h * g) - g) by (nonlinear_arith)
        requires
            r <= 2 * h - 1,
            g > 0,
    ;
    lemma_fundamental_div_mod_converse(n, p, q, w);
    if r > h {
        assert(r * g >= h * g + g) by (nonlinear_arith)
            requires
                r >= h + 1,
                g > 0,
        ;
    } else if r == h {
        assert(r * g == h * g);
    } else {
        assert(r * g <= h * g - g) by (nonlinear_arith)
            requires
                r <= h - 1,
                g > 0,
        ;
    }
}

/// Rounding an integer by the 48 bits at its top and whether anything is below.
proof fn lemma_top_rounds(n: int, d: int, x: int, t: int, c: int)
    requires
        n >= 0,
        x >= 0,
        d >= 0,
        c == 23 || c == 24 || c == 25,
        d + c >= 24,
        n * 0x100_0000 == x * pow2(d) + t,
        0 <= t < pow2(d),
    ensures
        ({
            let p = pow2(d + c - 24);
            let b = pow2(c);
            &&& n / p == x / b
            &&& half_even(n, p) == x / b + flag(
                goes_up(
                    x % b >= b / 2,
                    x % (b / 2) != 0 || t != 0,
                    (x / b) % 2 == 1,
                ),
            )
        }),
{
    lemma_pow2_values();
    let g = pow2(d);
    let h = pow2(c - 1);
    let p = pow2(d + c - 24);
    lemma_pow2_positive(d);
    lemma_pow2_positive(d + c - 24);
    lemma_pow2_sum(d + c - 24, 24);
    lemma_pow2_sum(c - 1, d);
    lemma_pow2_next(d + c - 1);
    assert(p * 0x100_0000 == 2 * (h * g));
    let q = x / (2 * h);
    let r = x % (2 * h);
    assert(x == (2 * h) * q + r && 0 <= r < 2 * h);
    assert(x * g == (2 * (h * g)) * q + r * g) by (nonlinear_arith)
        requires
            x == (2 * h) * q + r,
    ;
    lemma_upper_rounds(n, g, h, p, q, r, t);
    lemma_halves_of(x, h);
}

/// The lower half of the lower bits.
proof fn lemma_halves_of(x: int, h: int)
    requires
        x >= 0,
        h == 0x40_0000 || h == 0x80_0000 || h == 0x100_0000,
    ensures
        x % h != 0 <==> x % (2 * h) != 0 && x % (2 * h) != h,
{
    if h == 0x40_0000 {
        assert(x % 0x40_0000 != 0 <==> x % 0x80_0000 != 0 && x % 0x80_0000 != 0x40_0000);
    } else if h == 0x80_0000 {
        assert(x % 0x80_0000 != 0 <==> x % 0x100_0000 != 0 && x % 0x100_0000 != 0x80_0000);
    } else {
        assert(x % 0x100_0000 != 0 <==> x % 0x200_0000 != 0 && x % 0x200_0000 != 0x100_0000);
    }
}

/// A sum at a distance of at least 31 is the greater operand.
proof fn lemma_far_sum(neg: bool, ma: int, mb: int, d: int, e: int)
    requires
        0 < ma < 0x100_0000,
        0x80_0000 <= mb < 0x100_0000,
        d >= 31,
    ensures
        rounded(neg, mb * pow2(d) + ma, e - d) == packed_float(neg, e, mb),
{
    lemma_far(d);
    let p = pow2(d);
    let n = mb * p + ma;
    lemma_fundamental_div_mod_converse(n, p, mb, ma);
    lemma_drop_right(n, e - d, d);
}

proof fn lemma_far(d: int)
    requires
        d >= 31,
    ensures
        pow2(d) >= 0x8000_0000,
        pow2(d) == 2 * pow2(d - 1),
        pow2(d - 1) == 2 * pow2(d - 2),
    decreases d,
{
    lemma_pow2_values();
    lemma_pow2_next(d - 1);
    lemma_pow2_next(d - 2);
    if d > 31 {
        lemma_far(d - 1);
    }
}

/// The sum of two mantissas, the smaller one shifted down by at most 31 bits.
pub(crate) proof fn lemma_sum_rounds(neg: bool, ma: int, mb: int, d: int, e: int)
    requires
        0 < ma < 0x100_0000,
        0 < mb < 0x100_0000,
        d >= 0,
        e - d >= 1,
        mb >= 0x80_0000 || e == 1,
    ensures
        ({
            let k = if d >= 31 {
                31
            } else {
                d
            };
            let v = (0x100_0000 * ma) / pow2(k);
            let lost = (0x100_0000 * ma) % pow2(k) != 0;
            let x = 0x100_0000 * mb + v;
            &&& 0 <= v < 0x1_0000_0000_0000
            &&& rounded(neg, mb * pow2(d) + ma, e - d) == (if x < 0x1_0000_0000_0000 {
                packed_float(neg, e, x / 0x100_0000 + flag(wide_up(x, lost)))
            } else {
                packed_float(
                    neg,
                    e + 1,
                    x / 0x200_0000 + flag(
                        goes_up(
                            x % 0x200_0000 >= 0x100_0000,
                            x % 0x100_0000 != 0 || lost,
                            (x / 0x200_0000) % 2 == 1,
                        ),
                    ),
                )
            })
            &&& drop_bits(mb * pow2(d) + ma, e - d) == (if x < 0x1_0000_0000_0000 {
                d
            } else {
                d + 1
            })
        }),
{
    lemma_pow2_values();
    lemma_pow2_positive(d);
    if d >= 31 {
        lemma_far_sum(neg, ma, mb, d, e);
        lemma_far(d);
        let p = pow2(d);
        let n = mb * p + ma;
        lemma_fundamental_div_mod_converse(n, p, mb, ma);
        lemma_drop_right(n, e - d, d);
        let v = (0x100_0000 * ma) / 0x8000_0000;
        assert(0 <= v < 0x2_0000);
    } else {
        let g = pow2(d);
        let z = 0x100_0000 * ma;
        let v = z / g;
        let t = z % g;
        lemma_fundamental_div_mod(z, g);
        lemma_mod_bound(z, g);
        assert(0 <= v <= z) by (nonlinear_arith)
            requires
                z == g * v + t,
                0 <= t < g,
                z >= 0,
        ;
        let x = 0x100_0000 * mb + v;
        let n = mb * g + ma;
        assert(mb * g >= mb) by (nonlinear_arith)
            requires
                mb > 0,
                g >= 1,
        ;
        assert(n * 0x100_0000 == x * g + t) by (nonlinear_arith)
            requires
                n == mb * g + ma,
                x == 0x100_0000 * mb + v,
                0x100_0000 * ma == g * v + t,
        ;
        if x < 0x1_0000_0000_0000 {
            lemma_top_rounds(n, d, x, t, 24);
            let q = x / 0x100_0000;
            assert(q >= mb);
            if q >= 0x80_0000 {
                lemma_drop_right(n, e - d, d);
            } else {
                assert(d == 0 && e == 1);
                assert(n / 1 == n);
                lemma_drop_left(n, 1, 0);
            }
        } else {
            lemma_top_rounds(n, d, x, t, 25);
            lemma_drop_right(n, e - d, d + 1);
        }
    }
}

/// How far a difference is shifted up.
proof fn lemma_normalised(neg: bool, x: int, e: int, lost: bool) -> (k: int)
    requires
        0 < x < 0x1_0000_0000_0000,
        e >= 1,
    ensures
        ({
            let y = x * pow2(k);
            &&& k >= 0
            &&& e - k >= 1
            &&& y < 0x1_0000_0000_0000
            &&& y >= 0x8000_0000_0000 || e - k == 1
            &&& x >= 0x8000_0000_0000 ==> k == 0
            &&& 0x4000_0000_0000 <= x < 0x8000_0000_0000 && e > 1 ==> k == 1
            &&& normalised(neg, x, e, lost) == packed_float(
                neg,
                e - k,
                y / 0x100_0000 + flag(wide_up(y, lost)),
            )
        }),
    decreases e,
{
    lemma_pow2_values();
    if x >= 0x8000_0000_0000 || e <= 1 {
        assert(x * pow2(0) == x);
        0
    } else {
        let j = lemma_normalised(neg, 2 * x, e - 1, lost);
        lemma_pow2_next(j);
        let p = pow2(j);
        assert((2 * x) * p == x * (2 * p)) by (nonlinear_arith);
        j + 1
    }
}

/// A difference at a distance of at least 31.
proof fn lemma_far_difference(neg: bool, ma: int, mb: int, d: int, e: int, j: int, lost: bool)
    requires
        0 < ma < 0x100_0000,
        0x80_0000 <= mb < 0x100_0000,
        d >= 31,
        e - d >= 1,
        0 < j <= 0x2_0000,
    ensures
        normalised(neg, 0x100_0000 * mb - j, e, lost) == rounded(neg, mb * pow2(d) - ma, e - d),
{
    lemma_far(d);
    let x = 0x100_0000 * mb - j;
    let p = pow2(d);
    let n = mb * p - ma;
    let k = lemma_normalised(neg, x, e, lost);
    lemma_pow2_values();
    if mb > 0x80_0000 {
        assert(k == 0);
        assert(x * 1 == x);
        assert(x / 0x100_0000 == mb - 1 && x % 0x100_0000 == 0x100_0000 - j);
        assert(x % 0x80_0000 == 0x80_0000 - j);
        assert(n == (mb - 1) * p + (p - ma)) by (nonlinear_arith)
            requires
                n == mb * p - ma,
        ;
        lemma_fundamental_div_mod_converse(n, p, mb - 1, p - ma);
        lemma_drop_right(n, e - d, d);
    } else {
        assert(k == 1);
        let y = x * 2;
        assert(y / 0x100_0000 == 0xFF_FFFF && y % 0x100_0000 == 0x100_0000 - 2 * j);
        assert(y % 0x80_0000 == 0x80_0000 - 2 * j);
        let h = pow2(d - 1);
        assert(n == 0xFF_FFFF * h + (h - ma)) by (nonlinear_arith)
            requires
                n == mb * p - ma,
                p == 2 * h,
                mb == 0x80_0000,
        ;
        lemma_fundamental_div_mod_converse(n, h, 0xFF_FFFF, h - ma);
        lemma_drop_right(n, e - d, d - 1);
    }
}

/// A difference with nothing lost.
proof fn lemma_near_difference(neg: bool, n: int, x: int, d: int, e: int)
    requires
        d >= 0,
        e - d >= 1,
        n > 0,
        0 < x < 0x1_0000_0000_0000,
        n * 0x100_0000 == x * pow2(d),
    ensures
        normalised(neg, x, e, false) == rounded(neg, n, e - d),
{
    let k = lemma_normalised(neg, x, e, false);
    let y = x * pow2(k);
    lemma_pow2_positive(k);
    lemma_pow2_values();
    if k <= d {
        let g = pow2(d - k);
        lemma_pow2_sum(k, d - k);
        lemma_pow2_positive(d - k);
        let p = pow2(k);
        assert(x * (p * g) == (x * p) * g) by (nonlinear_arith);
        assert(y >= 0) by (nonlinear_arith)
            requires
                y == x * p,
                x > 0,
                p > 0,
        ;
        lemma_top_rounds(n, d - k, y, 0, 24);
        if y >= 0x8000_0000_0000 {
            lemma_drop_right(n, e - d, d - k);
        } else {
            assert(k == d);
            assert(y * 1 == y);
            assert(n / 1 == n);
            assert(n * 1 == n);
            lemma_drop_left(n, e - d, 0);
        }
    } else {
        let g = pow2(k - d);
        lemma_pow2_sum(d, k - d);
        lemma_pow2_positive(k - d);
        let p = pow2(d);
        assert(x * (p * g) == (x * p) * g) by (nonlinear_arith);
        assert((n * 0x100_0000) * g == 0x100_0000 * (n * g)) by (nonlinear_arith);
        assert(y == 0x100_0000 * (n * g));
        let v = n * g;
        assert(y / 0x100_0000 == v && y % 0x100_0000 == 0);
        lemma_drop_left(n, e - d, k - d);
    }
}

/// A difference with bits lost below the window.
proof fn lemma_lost_difference(neg: bool, n: int, x0: int, t: int, d: int, e: int)
    requires
        d >= 1,
        e - d >= 1,
        n > 0,
        0x4000_0000_0000 <= x0 < 0xFFFF_FFFF_FFFF,
        0 < t < pow2(d),
        n * 0x100_0000 == x0 * pow2(d) + t,
    ensures
        normalised(
            neg,
            if x0 % 2 == 0 {
                x0 + 1
            } else {
                x0
            },
            e,
            true,
        ) == rounded(neg, n, e - d),
{
    let x = if x0 % 2 == 0 {
        x0 + 1
    } else {
        x0
    };
    let k = lemma_normalised(neg, x, e, true);
    lemma_pow2_values();
    if x >= 0x8000_0000_0000 {
        assert(k == 0);
        assert(x * 1 == x);
        lemma_top_rounds(n, d, x0, t, 24);
        assert(x0 / 0x100_0000 == x / 0x100_0000);
        assert(x0 % 0x100_0000 >= 0x80_0000 <==> x % 0x100_0000 >= 0x80_0000);
        lemma_drop_right(n, e - d, d);
    } else {
        assert(k == 1);
        let y = x * 2;
        lemma_top_rounds(n, d, x0, t, 23);
        assert(y / 0x100_0000 == x / 0x80_0000);
        assert(x0 / 0x80_0000 == x / 0x80_0000);
        assert(y % 0x100_0000 == 2 * (x % 0x80_0000));
        assert(x0 % 0x80_0000 >= 0x40_0000 <==> x % 0x80_0000 >= 0x40_0000);
        lemma_drop_right(n, e - d, d - 1);
    }
}

/// The difference of two mantissas, the smaller one shifted down by at most 31
/// bits and its lost bits jammed into the lowest.
pub(crate) proof fn lemma_difference_rounds(neg: bool, ma: int, mb: int, d: int, e: int)
    requires
        0 < ma < 0x100_0000,
        0 < mb < 0x100_0000,
        d >= 0,
        e - d >= 1,
        mb >= 0x80_0000 || e == 1,
        d == 0 ==> ma < mb,
    ensures
        ({
            let k = if d >= 31 {
                31
            } else {
                d
            };
            let v = (0x100_0000 * ma) / pow2(k);
            let lost = (0x100_0000 * ma) % pow2(k) != 0;
            let x = 0x100_0000 * mb - jammed(v, lost);
            &&& mb * pow2(d) > ma
            &&& 0 < x < 0x1_0000_0000_0000
            &&& normalised(neg, x, e, lost) == rounded(neg, mb * pow2(d) - ma, e - d)
        }),
{
    lemma_pow2_values();
    lemma_pow2_positive(d);
    let g = pow2(d);
    let n = mb * g - ma;
    if d >= 31 {
        lemma_far(d);
        assert(mb * g >= 0x80_0000 * g) by (nonlinear_arith)
            requires
                mb >= 0x80_0000,
                g > 0,
        ;
        let v = (0x100_0000 * ma) / 0x8000_0000;
        let lost = (0x100_0000 * ma) % 0x8000_0000 != 0;
        assert(0 <= v < 0x2_0000);
        assert(v == 0 ==> lost);
        lemma_far_difference(neg, ma, mb, d, e, jammed(v, lost), lost);
    } else {
        let z = 0x100_0000 * ma;
        let v = z / g;
        let t = z % g;
        lemma_fundamental_div_mod(z, g);
        lemma_mod_bound(z, g);
        assert(n > 0) by {
            if d > 0 {
                lemma_pow2_next(d - 1);
                let h = pow2(d - 1);
                assert(mb * g >= 0x100_0000) by (nonlinear_arith)
                    requires
                        mb >= 0x80_0000,
                        g == 2 * h,
                        h >= 1,
                ;
            } else {
                assert(mb * 1 == mb);
            }
        }
        let x1 = 0x100_0000 * mb - v;
        assert(n * 0x100_0000 == x1 * g - t) by (nonlinear_arith)
            requires
                n == mb * g - ma,
                x1 == 0x100_0000 * mb - v,
                0x100_0000 * ma == g * v + t,
        ;
        assert(x1 > 0) by (nonlinear_arith)
            requires
                n * 0x100_0000 == x1 * g - t,
                n > 0,
                t >= 0,
                g > 0,
        ;
        assert(v >= 0) by (nonlinear_arith)
            requires
                z == g * v + t,
                0 <= t < g,
                z >= 0,
        ;
        if t == 0 {
            lemma_near_difference(neg, n, x1, d, e);
        } else {
            assert(d >= 25) by {
                if d <= 24 {
                    lemma_pow2_sum(d, 24 - d);
                    let f = pow2(24 - d);
                    assert(z == g * (f * ma) + 0) by (nonlinear_arith)
                        requires
                            z == (g * f) * ma,
                    ;
                    assert(z == (f * ma) * g + 0) by (nonlinear_arith)
                        requires
                            z == g * (f * ma) + 0,
                    ;
                    lemma_fundamental_div_mod_converse(z, g, f * ma, 0);
                }
            }
            lemma_small_shift(ma, d);
            assert(v < 0x80_0000);
            let x0 = x1 - 1;
            assert(x0 * g == x1 * g - g) by (nonlinear_arith)
                requires
                    x0 == x1 - 1,
            ;
            lemma_lost_difference(neg, n, x0, g - t, d, e);
        }
    }
}

/// What is left of a mantissa in the window after 25 shifts or more.
proof fn lemma_small_shift(ma: int, d: int)
    requires
        0 < ma < 0x100_0000,
        d >= 25,
    ensures
        (0x100_0000 * ma) / pow2(d) < 0x80_0000,
{
    lemma_pow2_values();
    lemma_pow2_sum(25, d - 25);
    lemma_pow2_positive(d - 25);
    let g = pow2(d);
    let z = 0x100_0000 * ma;
    let v = z / g;
    lemma_pow2_positive(d);
    lemma_fundamental_div_mod(z, g);
    lemma_mod_bound(z, g);
    let f = pow2(d - 25);
    assert(v < 0x80_0000) by (nonlinear_arith)
        requires
            z == g * v + z % g,
            z % g >= 0,
            g == 0x200_0000 * f,
            f >= 1,
            z < 0x1_0000_0000_0000,
    ;
}

} // verus!
