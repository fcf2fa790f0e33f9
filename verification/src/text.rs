//! Text helpers: numbers in the two radices the assembler reads, and the
//! character classes the line scanner needs.
use vstd::prelude::*;
use crate::line::texts_view;

verus! {

/// The upper-case digit for `d` in radix 16.
pub open spec fn digit_char(d: nat) -> char {
    if d == 0 {
        '0'
    } else if d == 1 {
        '1'
    } else if d == 2 {
        '2'
    } else if d == 3 {
        '3'
    } else if d == 4 {
        '4'
    } else if d == 5 {
        '5'
    } else if d == 6 {
        '6'
    } else if d == 7 {
        '7'
    } else if d == 8 {
        '8'
    } else if d == 9 {
        '9'
    } else if d == 10 {
        'A'
    } else if d == 11 {
        'B'
    } else if d == 12 {
        'C'
    } else if d == 13 {
        'D'
    } else if d == 14 {
        'E'
    } else {
        'F'
    }
}

/// `n` in `radix`, without leading zeros (`"0"` for zero).
pub open spec fn number_text(n: nat, radix: nat) -> Seq<char>
    decreases n,
{
    if radix < 2 || n < radix {
        seq![digit_char(n)]
    } else {
        proof {
            vstd::arithmetic::div_mod::lemma_div_decreases(n as int, radix as int);
        }
        number_text(n / radix, radix).push(digit_char(n % radix))
    }
}

/// `n` in hexadecimal, padded with zeros to at least two digits.
pub open spec fn hex2_text(n: nat) -> Seq<char> {
    if n < 16 {
        "0"@ + number_text(n, 16)
    } else {
        number_text(n, 16)
    }
}

/// `n` in hexadecimal, padded with zeros to at least four digits.
pub open spec fn hex4_text(n: nat) -> Seq<char> {
    if n < 16 {
        "000"@ + number_text(n, 16)
    } else if n < 256 {
        "00"@ + number_text(n, 16)
    } else if n < 4096 {
        "0"@ + number_text(n, 16)
    } else {
        number_text(n, 16)
    }
}

/// The digit for `d` as a one-character string.
fn digit_str(d: u32) -> (r: &'static str)
    requires
        d < 16,
    ensures
        r@ == seq![digit_char(d as nat)],
{
    proof {
        reveal_strlit("0");
        reveal_strlit("1");
        reveal_strlit("2");
        reveal_strlit("3");
        reveal_strlit("4");
        reveal_strlit("5");
        reveal_strlit("6");
        reveal_strlit("7");
        reveal_strlit("8");
        reveal_strlit("9");
        reveal_strlit("A");
        reveal_strlit("B");
        reveal_strlit("C");
        reveal_strlit("D");
        reveal_strlit("E");
        reveal_strlit("F");
    }
    let r = if d == 0 {
        "0"
    } else if d == 1 {
        "1"
    } else if d == 2 {
        "2"
    } else if d == 3 {
        "3"
    } else if d == 4 {
        "4"
    } else if d == 5 {
        "5"
    } else if d == 6 {
        "6"
    } else if d == 7 {
        "7"
    } else if d == 8 {
        "8"
    } else if d == 9 {
        "9"
    } else if d == 10 {
        "A"
    } else if d == 11 {
        "B"
    } else if d == 12 {
        "C"
    } else if d == 13 {
        "D"
    } else if d == 14 {
        "E"
    } else {
        "F"
    };
    assert(r@ =~= seq![digit_char(d as nat)]);
    r
}

/// Appends `n` in `radix` to `s`.
pub fn push_number(s: &mut String, n: u32, radix: u32)
    requires
        2 <= radix <= 16,
    ensures
        final(s)@ == old(s)@ + number_text(n as nat, radix as nat),
    decreases n,
{
    if n < radix {
        s.append(digit_str(n));
    } else {
        proof {
            vstd::arithmetic::div_mod::lemma_div_decreases(n as int, radix as int);
        }
        push_number(s, n / radix, radix);
        s.append(digit_str(n % radix));
        assert(s@ =~= old(s)@ + number_text(n as nat, radix as nat));
    }
}

/// Appends `n` in hexadecimal with at least two digits.
pub fn push_hex2(s: &mut String, n: u32)
    ensures
        final(s)@ == old(s)@ + hex2_text(n as nat),
{
    if n < 16 {
        s.append("0");
    }
    push_number(s, n, 16);
    assert(s@ =~= old(s)@ + hex2_text(n as nat));
}

/// Appends `n` in hexadecimal with at least four digits.
pub fn push_hex4(s: &mut String, n: u32)
    ensures
        final(s)@ == old(s)@ + hex4_text(n as nat),
{
    if n < 16 {
        s.append("000");
    } else if n < 256 {
        s.append("00");
    } else if n < 4096 {
        s.append("0");
    }
    push_number(s, n, 16);
    assert(s@ =~= old(s)@ + hex4_text(n as nat));
}

/// Whether two strings hold the same characters.
pub fn same(a: &str, b: &str) -> (r: bool)
    ensures
        r == (a@ == b@),
{
    a.to_owned() == b.to_owned()
}

/// The characters of `s`, in order.
pub fn chars_of(s: &str) -> (r: Vec<char>)
    ensures
        r@ == s@,
{
    let mut v: Vec<char> = Vec::new();
    for c in it: s.chars()
        invariant
            v@ == it.seq().take(it.index() as int),
            it.seq() == s@,
    {
        v.push(c);
    }
    v
}

/// The first index from `i` on that holds a line break, or the length.
pub open spec fn line_end(s: Seq<char>, i: int) -> int
    decreases s.len() - i,
{
    if i < 0 || i >= s.len() {
        s.len() as int
    } else if s[i] == '\n' {
        i
    } else {
        line_end(s, i + 1)
    }
}

/// The pieces of `s` from `i` on, cut at line breaks; always at least one.
pub open spec fn lines_from(s: Seq<char>, i: int) -> Seq<Seq<char>>
    decreases s.len() - i,
{
    let e = line_end(s, i);
    if i < 0 || e < i || e >= s.len() {
        seq![s.skip(i)]
    } else {
        seq![s.subrange(i, e)] + lines_from(s, e + 1)
    }
}

/// `s` cut at its line breaks.
pub open spec fn split_lines(s: Seq<char>) -> Seq<Seq<char>> {
    lines_from(s, 0)
}

pub fn lines_of(s: &str) -> (r: Vec<String>)
    ensures
        texts_view(r@) == split_lines(s@),
{
    let v = chars_of(s);
    let mut out: Vec<String> = Vec::new();
    let mut i: usize = 0;
    assert(texts_view(out@) + lines_from(s@, 0) =~= split_lines(s@));
    loop
        invariant
            v@ == s@,
            i <= v@.len(),
            texts_view(out@) + lines_from(s@, i as int) == split_lines(s@),
        decreases v@.len() - i,
    {
        let mut e: usize = i;
        while e < v.len() && v[e] != '\n'
            invariant
                v@ == s@,
                i <= e <= v@.len(),
                line_end(s@, i as int) == line_end(s@, e as int),
            decreases v@.len() - e,
        {
            e += 1;
        }
        let piece = s.substring_char(i, e).to_owned();
        let ghost before = out@;
        out.push(piece);
        assert(texts_view(out@) =~= texts_view(before).push(piece@));
        if e == v.len() {
            assert(s@.skip(i as int) =~= s@.subrange(i as int, e as int));
            assert(texts_view(out@) =~= split_lines(s@));
            return out;
        }
        assert(texts_view(out@) + lines_from(s@, e + 1) =~= texts_view(before) + lines_from(
            s@,
            i as int,
        ));
        i = e + 1;
    }
}

/// `s` after its first character, if that is `c`.
pub fn strip_char<'a>(s: &'a str, c: char) -> (r: Option<&'a str>)
    ensures
        match r {
            Some(t) => s@.len() > 0 && s@[0] == c && t@ == s@.skip(1),
            None => !(s@.len() > 0 && s@[0] == c),
        },
{
    let n: usize = s.unicode_len();
    if n > 0 && s.get_char(0) == c {
        let t = s.substring_char(1, n);
        assert(t@ =~= s@.skip(1));
        Some(t)
    } else {
        None
    }
}

} // verus!
