//! What the instructions of a module mean, on numbers and on bytes in RAM.
use vstd::arithmetic::div_mod::{
    lemma_fundamental_div_mod, lemma_fundamental_div_mod_converse, lemma_mul_mod_noop_left,
};
use vstd::prelude::*;
use crate::emit::{at, const_byte, St};
use crate::ir::{BinOp, Pred};
use crate::line::{LitOp, Op};
use crate::machine::{exec, Machine};

verus! {

/// 256 to the `n`, for the widths of values.
pub open spec fn limit(n: u8) -> int {
    match n {
        0u8 => 1,
        1u8 => 0x100,
        2u8 => 0x1_0000,
        3u8 => 0x100_0000,
        _ => 0x1_0000_0000,
    }
}

/// The number that four bytes write, of which `n` count.
pub open spec fn number(b0: u8, b1: u8, b2: u8, b3: u8, n: u8) -> int {
    match n {
        0u8 => 0,
        1u8 => b0 as int,
        2u8 => b0 + 0x100 * b1,
        3u8 => b0 + 0x100 * b1 + 0x1_0000 * b2,
        _ => b0 + 0x100 * b1 + 0x1_0000 * b2 + 0x100_0000 * b3,
    }
}

/// The number in the `n` bytes at `a`, low byte first.
pub open spec fn word(m: Machine, a: u32, n: u8) -> int {
    number(m.ram[a], m.ram[at(a, 1)], m.ram[at(a, 2)], m.ram[at(a, 3)], n)
}

/// The number that the low `n` bytes of `k` write.
pub open spec fn const_word(k: i64, n: u8) -> int {
    number(const_byte(k, 0), const_byte(k, 1), const_byte(k, 2), const_byte(k, 3), n)
}

/// A number of `n` bytes read as two's complement.
pub open spec fn signed(x: int, n: u8) -> int {
    if 2 * x >= limit(n) {
        x - limit(n)
    } else {
        x
    }
}

/// The magnitude of a number.
pub open spec fn magnitude(x: int) -> int {
    if x < 0 {
        -x
    } else {
        x
    }
}

/// `a / b`, rounded toward zero.
pub open spec fn quotient(a: int, b: int) -> int {
    if (a < 0) != (b < 0) {
        -(magnitude(a) / magnitude(b))
    } else {
        magnitude(a) / magnitude(b)
    }
}

/// What `quotient(a, b)` leaves of `a`.
pub open spec fn remainder(a: int, b: int) -> int {
    if a < 0 {
        -(magnitude(a) % magnitude(b))
    } else {
        magnitude(a) % magnitude(b)
    }
}

/// Two to the `k`.
pub open spec fn pow2(k: int) -> int
    decreases k,
{
    if k <= 0 {
        1
    } else {
        2 * pow2(k - 1)
    }
}

/// `a OP b` on numbers of `n` bytes.
pub open spec fn bin_value(op: BinOp, a: int, b: int, n: u8) -> int {
    match op {
        BinOp::Add => (a + b) % limit(n),
        BinOp::Sub => (a - b) % limit(n),
        BinOp::And => ((a as u32) & (b as u32)) as int,
        BinOp::Or => ((a as u32) | (b as u32)) as int,
        BinOp::Xor => ((a as u32) ^ (b as u32)) as int,
        BinOp::Shl => (a * pow2(b)) % limit(n),
        BinOp::LShr => a / pow2(b),
        BinOp::AShr => (signed(a, n) / pow2(b)) % limit(n),
        _ => 0,
    }
}

/// Whether `a PRED b` holds of two numbers of `n` bytes.
pub open spec fn holds(p: Pred, a: int, b: int, n: u8) -> bool {
    match p {
        Pred::Eq => a == b,
        Pred::Ne => a != b,
        Pred::Ult => a < b,
        Pred::Ule => a <= b,
        Pred::Ugt => a > b,
        Pred::Uge => a >= b,
        Pred::Slt => signed(a, n) < signed(b, n),
        Pred::Sle => signed(a, n) <= signed(b, n),
        Pred::Sgt => signed(a, n) > signed(b, n),
        Pred::Sge => signed(a, n) >= signed(b, n),
    }
}

/// Whether the `na` bytes at `a` and the `nb` bytes at `b` share none.
pub open spec fn apart(a: u32, na: int, b: u32, nb: int) -> bool {
    a + na <= b || b + nb <= a
}

/// Whether nothing outside the `n` bytes at `a` changed from `before` to
/// `after`.
pub open spec fn kept(before: Machine, after: Machine, a: u32, n: int) -> bool {
    forall|x: u32| x < a || x >= a + n ==> #[trigger] after.ram[x] == before.ram[x]
}

/// Whether nothing outside the `n` bytes at `a` and the byte `s` changed.
pub open spec fn kept_but(before: Machine, after: Machine, a: u32, n: int, s: u32) -> bool {
    forall|x: u32|
        (x < a || x >= a + n) && x != s ==> #[trigger] after.ram[x] == before.ram[x]
}

/// One for a set flag.
pub open spec fn flag(c: bool) -> int {
    if c {
        1
    } else {
        0
    }
}

/// The limit for a set flag: what a carry out of `n` bytes stands for.
pub open spec fn carried(n: u8, c: bool) -> int {
    if c {
        limit(n)
    } else {
        0
    }
}

/// Whether a run went on to the next row and left the registers alone but
/// for W and the flags.
pub open spec fn passes(before: Machine, after: Machine) -> bool {
    &&& after.flow is Next
    &&& after.core == before.core
    &&& after.fsr0 == before.fsr0
    &&& after.pclath == before.pclath
    &&& after.links == before.links
}

/// The bitwise operators work byte by byte.
pub proof fn lemma_bytewise(a0: u8, a1: u8, a2: u8, a3: u8, b0: u8, b1: u8, b2: u8, b3: u8, n: u8)
    requires
        n == 1 || n == 2 || n == 4,
    ensures
        bin_value(BinOp::And, number(a0, a1, a2, a3, n), number(b0, b1, b2, b3, n), n) == number(
            a0 & b0,
            a1 & b1,
            a2 & b2,
            a3 & b3,
            n,
        ),
        bin_value(BinOp::Or, number(a0, a1, a2, a3, n), number(b0, b1, b2, b3, n), n) == number(
            a0 | b0,
            a1 | b1,
            a2 | b2,
            a3 | b3,
            n,
        ),
        bin_value(BinOp::Xor, number(a0, a1, a2, a3, n), number(b0, b1, b2, b3, n), n) == number(
            a0 ^ b0,
            a1 ^ b1,
            a2 ^ b2,
            a3 ^ b3,
            n,
        ),
{
    let (x1, x2, x3) = if n == 1 {
        (0u8, 0u8, 0u8)
    } else if n == 2 {
        (a1, 0u8, 0u8)
    } else {
        (a1, a2, a3)
    };
    let (y1, y2, y3) = if n == 1 {
        (0u8, 0u8, 0u8)
    } else if n == 2 {
        (b1, 0u8, 0u8)
    } else {
        (b1, b2, b3)
    };
    assert(((a0 + 0x100 * x1 + 0x1_0000 * x2 + 0x100_0000 * x3) as u32) & ((b0 + 0x100 * y1
        + 0x1_0000 * y2 + 0x100_0000 * y3) as u32) == (a0 & b0) + 0x100 * (x1 & y1) + 0x1_0000 * (x2
        & y2) + 0x100_0000 * (x3 & y3)) by (bit_vector);
    assert(((a0 + 0x100 * x1 + 0x1_0000 * x2 + 0x100_0000 * x3) as u32) | ((b0 + 0x100 * y1
        + 0x1_0000 * y2 + 0x100_0000 * y3) as u32) == (a0 | b0) + 0x100 * (x1 | y1) + 0x1_0000 * (x2
        | y2) + 0x100_0000 * (x3 | y3)) by (bit_vector);
    assert(((a0 + 0x100 * x1 + 0x1_0000 * x2 + 0x100_0000 * x3) as u32) ^ ((b0 + 0x100 * y1
        + 0x1_0000 * y2 + 0x100_0000 * y3) as u32) == (a0 ^ b0) + 0x100 * (x1 ^ y1) + 0x1_0000 * (x2
        ^ y2) + 0x100_0000 * (x3 ^ y3)) by (bit_vector);
    assert(0u8 & 0u8 == 0u8 && 0u8 | 0u8 == 0u8 && 0u8 ^ 0u8 == 0u8) by (bit_vector);
}

/// A number in range that differs from `x` by at most one turn is `x` modulo
/// the limit.
pub proof fn lemma_residue(r: int, x: int, n: u8)
    requires
        n == 1 || n == 2 || n == 4,
        0 <= r < limit(n),
        r == x || r == x + limit(n) || r == x - limit(n),
    ensures
        r == x % limit(n),
{
}

/// The bitwise operators do not mind the order of their operands.
pub proof fn lemma_bits_commute(op: BinOp, a: int, b: int, n: u8)
    requires
        op == BinOp::And || op == BinOp::Or || op == BinOp::Xor,
    ensures
        bin_value(op, a, b, n) == bin_value(op, b, a, n),
{
    let x = a as u32;
    let y = b as u32;
    assert(x & y == y & x && x | y == y | x && x ^ y == y ^ x) by (bit_vector);
}

pub proof fn lemma_pow2_positive(k: int)
    ensures
        pow2(k) > 0,
    decreases k,
{
    if k > 0 {
        lemma_pow2_positive(k - 1);
    }
}

/// What lies apart from a change keeps its number.
pub proof fn lemma_word_kept(b: Machine, a: Machine, x: u32, n: u8, lo: u32, len: int)
    requires
        kept(b, a, lo, len),
        apart(x, n as int, lo, len),
        n == 1 || n == 2 || n == 4,
        x <= 0x1_FFFF,
    ensures
        word(a, x, n) == word(b, x, n),
{
}

/// A bitwise instruction on two bytes.
pub open spec fn bit_value(op: Op, x: u8, y: u8) -> u8 {
    match op {
        Op::Andwf => x & y,
        Op::Iorwf => x | y,
        _ => x ^ y,
    }
}

/// Halving `s` and then shifting by `k` is shifting by `k + 1`.
proof fn lemma_shift_right(s: int, k: int)
    requires
        k >= 0,
    ensures
        (s / 2) / pow2(k) == s / pow2(k + 1),
        pow2(k) > 0,
    decreases k,
{
    lemma_pow2_positive(k);
    assert(pow2(k + 1) == 2 * pow2(k));
    let p = pow2(k);
    let q = (s / 2) / p;
    let r = (s / 2) % p;
    lemma_fundamental_div_mod(s / 2, p);
    assert(s == q * (2 * p) + (2 * r + s % 2)) by (nonlinear_arith)
        requires
            s / 2 == p * q + r,
            s == 2 * (s / 2) + s % 2,
    ;
    lemma_fundamental_div_mod_converse(s, 2 * p, q, 2 * r + s % 2);
}

/// Doubling `x` modulo `l` and then shifting by `k` is shifting by `k + 1`.
proof fn lemma_shift_left(x: int, l: int, k: int)
    requires
        k >= 0,
        l > 0,
    ensures
        (((2 * x) % l) * pow2(k)) % l == (x * pow2(k + 1)) % l,
{
    let p = pow2(k);
    lemma_mul_mod_noop_left(2 * x, p, l);
    assert((2 * x) * p == x * (2 * p)) by (nonlinear_arith);
}

/// Whether `y` is `x` shifted by one bit.
pub open spec fn shifted_once(op: BinOp, x: int, y: int, n: u8) -> bool {
    match op {
        BinOp::Shl => y == (2 * x) % limit(n),
        BinOp::LShr => y == x / 2,
        _ => signed(y, n) == signed(x, n) / 2,
    }
}

pub proof fn lemma_shift_none(op: BinOp, x: int, n: u8)
    requires
        n == 1 || n == 2 || n == 4,
        0 <= x < limit(n),
        op == BinOp::Shl || op == BinOp::LShr || op == BinOp::AShr,
    ensures
        bin_value(op, x, 0, n) == x,
{
    assert(pow2(0) == 1);
    assert(x * pow2(0) == x) by (nonlinear_arith)
        requires
            pow2(0) == 1,
    ;
    assert(x / pow2(0) == x && signed(x, n) / pow2(0) == signed(x, n));
}

/// A shift by `k` is a shift by one and then by the rest.
pub proof fn lemma_shift_more(op: BinOp, x: int, y: int, k: int, n: u8)
    requires
        k > 0,
        op == BinOp::Shl || op == BinOp::LShr || op == BinOp::AShr,
        shifted_once(op, x, y, n),
    ensures
        bin_value(op, y, k - 1, n) == bin_value(op, x, k, n),
{
    match op {
        BinOp::Shl => lemma_shift_left(x, limit(n), k - 1),
        BinOp::LShr => lemma_shift_right(x, k - 1),
        _ => lemma_shift_right(signed(x, n), k - 1),
    }
}

/// Whether two instructions do the same to a file and to a literal.
pub open spec fn twins(op: Op, opw: LitOp) -> bool {
    ||| op == Op::Andwf && opw == LitOp::Andlw
    ||| op == Op::Iorwf && opw == LitOp::Iorlw
    ||| op == Op::Xorwf && opw == LitOp::Xorlw
}

/// A byte with its sign bit flipped, if asked for.
pub open spec fn flipped(x: u8, flip: bool) -> u8 {
    if flip {
        x ^ 0x80
    } else {
        x
    }
}

pub proof fn lemma_flip(x: u8)
    ensures
        (x ^ 0x80u8) == (if x < 128 {
            x + 128
        } else {
            x - 128
        }),
{
    assert((x ^ 0x80u8) == (if x < 128 {
        x + 128
    } else {
        x - 128
    })) by (bit_vector);
}

/// Whether a jump that is on its way passes over the rows from `st` to `to`.
pub open spec fn passed_over(st: St, to: St, base: int, m: Machine) -> bool {
    &&& to.rows.len() >= st.rows.len()
    &&& exec(to.rows, base, m) == exec(st.rows, base, m)
}

/// Whether a jump is on its way.
pub open spec fn seeking(st: St, base: int, m: Machine) -> bool {
    0 <= base <= st.rows.len() && exec(st.rows, base, m).flow is Seek
}

} // verus!
