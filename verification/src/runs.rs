//! Runs of rows that a jump passes over, and the bytes of a number.
use vstd::arithmetic::div_mod::lemma_fundamental_div_mod_converse;
use vstd::prelude::*;
use crate::ctx::literal_ptr;
use crate::emit::{at, const_byte, Row, St};
use crate::line::{Line, Sym};
use crate::machine::{exec, exec_to, step, Flow, Machine};
use crate::meaning::{limit, number, word};
use crate::scan::starts_with;

verus! {

/// Whether rows start with `r0` and hold no label behind it.
pub open spec fn grown(r0: Seq<Row>, r: Seq<Row>) -> bool {
    &&& r0.len() <= r.len()
    &&& forall|i: int| 0 <= i < r0.len() ==> #[trigger] r[i] == r0[i]
    &&& forall|i: int| r0.len() <= i < r.len() ==> !((#[trigger] r[i]).line is Label)
}

/// Whether a state came from rows `r0` without a label, an error or a number of a
/// label used up since `next`.
pub open spec fn tidy(r0: Seq<Row>, next: u32, s: St) -> bool {
    grown(r0, s.rows) && s.next == next && s.err is None
}

pub broadcast proof fn lemma_tidy_emit(r0: Seq<Row>, next: u32, s: St, l: Line)
    requires
        tidy(r0, next, s),
        !(l is Label),
    ensures
        #[trigger] tidy(r0, next, s.emit(l)),
{
}

/// Where control is on its way to a label, rows without one change nothing.
pub proof fn lemma_grown_seek(r0: Seq<Row>, r: Seq<Row>, base: int, m: Machine)
    requires
        grown(r0, r),
        0 <= base <= r0.len(),
        exec(r0, base, m).flow is Seek,
    ensures
        exec(r, base, m) == exec(r0, base, m),
{
    reveal(exec);
    lemma_head(r0, r, base, r0.len() as int, m);
    lemma_seek_on(r0, r, base, r.len() as int, m);
}

/// The same first rows do the same.
pub proof fn lemma_head(r0: Seq<Row>, r: Seq<Row>, base: int, n: int, m: Machine)
    requires
        0 <= base,
        n <= r0.len() <= r.len(),
        forall|i: int| 0 <= i < n ==> #[trigger] r[i] == r0[i],
    ensures
        exec_to(r, base, n, m) == exec_to(r0, base, n, m),
    decreases n - base,
{
    if n > base {
        lemma_head(r0, r, base, n - 1, m);
        assert(r[n - 1] == r0[n - 1]);
    }
}

proof fn lemma_seek_on(r0: Seq<Row>, r: Seq<Row>, base: int, n: int, m: Machine)
    requires
        grown(r0, r),
        0 <= base <= r0.len() <= n <= r.len(),
        exec_to(r, base, r0.len() as int, m).flow is Seek,
    ensures
        exec_to(r, base, n, m) == exec_to(r, base, r0.len() as int, m),
    decreases n,
{
    if n > r0.len() {
        lemma_seek_on(r0, r, base, n - 1, m);
        reveal(step);
        assert(!(r[n - 1].line is Label));
    }
}

/// A run up to row `n` is the run of the rows before it.
pub proof fn lemma_upto(r0: Seq<Row>, r: Seq<Row>, base: int, m: Machine)
    requires
        0 <= base <= r0.len() <= r.len(),
        forall|i: int| 0 <= i < r0.len() ==> #[trigger] r[i] == r0[i],
    ensures
        exec_to(r, base, r0.len() as int, m) == exec(r0, base, m),
{
    reveal(exec);
    lemma_head(r0, r, base, r0.len() as int, m);
}

/// Whether rows start with `r0` and hold no label `s` behind it.
pub open spec fn no_label(r0: Seq<Row>, r: Seq<Row>, s: Sym) -> bool {
    &&& r0.len() <= r.len()
    &&& forall|i: int| 0 <= i < r0.len() ==> #[trigger] r[i] == r0[i]
    &&& forall|i: int| r0.len() <= i < r.len() ==> (#[trigger] r[i]).line != Line::Label(s)
}

/// Where control is on its way to a label, rows without that label change nothing.
pub proof fn lemma_seek_past(r0: Seq<Row>, r: Seq<Row>, s: Sym, base: int, m: Machine)
    requires
        no_label(r0, r, s),
        0 <= base <= r0.len(),
        exec(r0, base, m).flow == Flow::Seek(s),
    ensures
        exec(r, base, m) == exec(r0, base, m),
{
    reveal(exec);
    lemma_head(r0, r, base, r0.len() as int, m);
    lemma_past_on(r0, r, s, base, r.len() as int, m);
}

proof fn lemma_past_on(r0: Seq<Row>, r: Seq<Row>, s: Sym, base: int, n: int, m: Machine)
    requires
        no_label(r0, r, s),
        0 <= base <= r0.len() <= n <= r.len(),
        exec_to(r, base, r0.len() as int, m).flow == Flow::Seek(s),
    ensures
        exec_to(r, base, n, m) == exec_to(r, base, r0.len() as int, m),
    decreases n,
{
    if n > r0.len() {
        lemma_past_on(r0, r, s, base, n - 1, m);
        reveal(step);
        assert(r[n - 1].line != Line::Label(s));
    }
}

/// Whether control is at a call of function `f` in row `n`.
pub open spec fn at_call(s: St, base: int, m: Machine, n: int, f: usize) -> bool {
    &&& base <= n < s.rows.len()
    &&& s.rows[n].line == Line::Call(Sym::Func(f))
    &&& exec_to(s.rows, base, n, m).flow is Next
}

/// Byte `j` of a number.
pub open spec fn byte_at(x: int, j: u8) -> u8 {
    match j {
        0u8 => (x % 0x100) as u8,
        1u8 => (x / 0x100 % 0x100) as u8,
        2u8 => (x / 0x1_0000 % 0x100) as u8,
        _ => (x / 0x100_0000 % 0x100) as u8,
    }
}

/// The bytes of a word are the bytes of its number.
pub proof fn lemma_word_bytes(m: Machine, a: u32, n: u8, j: u8)
    requires
        j < n <= 4,
    ensures
        m.ram[at(a, j)] == byte_at(word(m, a, n), j),
{
    assert(at(a, 0) == a);
    let (b0, b1, b2, b3) = (
        m.ram[a] as int,
        m.ram[at(a, 1)] as int,
        m.ram[at(a, 2)] as int,
        m.ram[at(a, 3)] as int,
    );
    let x = word(m, a, n);
    if n == 4 {
        assert(x == b0 + 0x100 * (b1 + 0x100 * (b2 + 0x100 * b3)));
        assert(x / 0x100 == b1 + 0x100 * (b2 + 0x100 * b3));
        assert(x / 0x1_0000 == b2 + 0x100 * b3);
        assert(x / 0x100_0000 == b3);
    } else if n == 3 {
        assert(x == b0 + 0x100 * (b1 + 0x100 * b2));
        assert(x / 0x100 == b1 + 0x100 * b2);
        assert(x / 0x1_0000 == b2);
    }
}

/// The low bytes of a constant write the constant, modulo their limit.
pub proof fn law_constant_bytes_write_the_constant(k: i64, n: u8)
    requires
        n == 1 || n == 2 || n == 4,
    ensures
        number(const_byte(k, 0), const_byte(k, 1), const_byte(k, 2), const_byte(k, 3), n) == k
            as int % limit(n),
{
    let (a, b, c, d) = (k & 0xFF, (k >> 8) & 0xFF, (k >> 16) & 0xFF, (k >> 24) & 0xFF);
    let h = k >> 32;
    assert(0 <= (k & 0xFF) <= 0xFF && 0 <= ((k >> 8) & 0xFF) <= 0xFF && 0 <= ((k >> 16) & 0xFF)
        <= 0xFF && 0 <= ((k >> 24) & 0xFF) <= 0xFF && (k & 0xFF) + 0x100 * ((k >> 8) & 0xFF)
        + 0x1_0000 * ((k >> 16) & 0xFF) + 0x100_0000 * ((k >> 24) & 0xFF) + 0x1_0000_0000 * (k >> 32)
        == k) by (bit_vector);
    let x = k as int;
    if n == 1 {
        lemma_fundamental_div_mod_converse(
            x,
            0x100,
            b + 0x100 * c + 0x1_0000 * d + 0x100_0000 * h,
            a as int,
        );
    } else if n == 2 {
        lemma_fundamental_div_mod_converse(
            x,
            0x1_0000,
            c + 0x100 * d + 0x1_0000 * h,
            a + 0x100 * b,
        );
    } else {
        lemma_fundamental_div_mod_converse(
            x,
            0x1_0000_0000,
            h as int,
            a + 0x100 * b + 0x1_0000 * c + 0x100_0000 * d,
        );
    }
}

/// The bytes of a number of `n` bytes.
pub proof fn lemma_number_bytes(b0: u8, b1: u8, b2: u8, b3: u8, n: u8, j: u8)
    requires
        n == 1 || n == 2 || n == 4,
        j < n,
    ensures
        byte_at(number(b0, b1, b2, b3, n), j) == (if j == 0 {
            b0
        } else if j == 1 {
            b1
        } else if j == 2 {
            b2
        } else {
            b3
        }),
{
    let x = number(b0, b1, b2, b3, n);
    if n == 4 {
        assert(x == b0 + 0x100 * (b1 + 0x100 * (b2 + 0x100 * b3)));
        assert(x / 0x100 == b1 + 0x100 * (b2 + 0x100 * b3));
        assert(x / 0x1_0000 == b2 + 0x100 * b3);
        assert(x / 0x100_0000 == b3);
    }
}

/// A literal pointer starts as one.
pub(crate) proof fn lemma_literal_text(ptr: Seq<char>)
    requires
        literal_ptr(ptr) is Some,
    ensures
        ptr.len() > 1,
        ptr[0] == '0',
        ptr[1] == 'x',
{
    reveal_strlit("0x");
    assert(starts_with(ptr, "0x"@));
    assert(ptr.take(2)[0] == ptr[0] && ptr.take(2)[1] == ptr[1]);
}

} // verus!
