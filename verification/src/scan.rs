//! Reading assembly text line by line the way the assembler's first pass
//! does: comments and surrounding blanks fall away, directives move the
//! address, labels take no room, everything else is one program word.
use vstd::prelude::*;
use crate::text::chars_of;

verus! {

/// Unicode white space, as `char::is_whitespace` documents it.
pub open spec fn is_blank(c: char) -> bool {
    let n = c as u32;
    (0x09 <= n && n <= 0x0D) || n == 0x20 || n == 0x85 || n == 0xA0 || n == 0x1680 || (0x2000 <= n
        && n <= 0x200A) || n == 0x2028 || n == 0x2029 || n == 0x202F || n == 0x205F || n == 0x3000
}

fn blank(c: char) -> (r: bool)
    ensures
        r == is_blank(c),
{
    let n: u32 = c as u32;
    (0x09 <= n && n <= 0x0D) || n == 0x20 || n == 0x85 || n == 0xA0 || n == 0x1680 || (0x2000 <= n
        && n <= 0x200A) || n == 0x2028 || n == 0x2029 || n == 0x202F || n == 0x205F || n == 0x3000
}

/// The first index from `i` on that holds `c`, or the length of `s`.
pub open spec fn find_char(s: Seq<char>, c: char, i: int) -> int
    decreases s.len() - i,
{
    if i < 0 || i >= s.len() {
        s.len() as int
    } else if s[i] == c {
        i
    } else {
        find_char(s, c, i + 1)
    }
}

/// The first index from `i` on that is not blank, or the length of `s`.
pub open spec fn blanks_end(s: Seq<char>, i: int) -> int
    decreases s.len() - i,
{
    if i < 0 || i >= s.len() || !is_blank(s[i]) {
        i
    } else {
        blanks_end(s, i + 1)
    }
}

/// The smallest `h` with `lo <= h <= hi` such that `s[h..hi]` is blank.
pub open spec fn blanks_start(s: Seq<char>, lo: int, hi: int) -> int
    decreases hi - lo,
{
    if hi <= lo || !is_blank(s[hi - 1]) {
        hi
    } else {
        blanks_start(s, lo, hi - 1)
    }
}

/// `s` without leading and trailing blanks.
pub open spec fn trim(s: Seq<char>) -> Seq<char> {
    let lo = blanks_end(s, 0);
    s.subrange(lo, blanks_start(s, lo, s.len() as int))
}

/// What is left of a source line once its comment and blanks are gone.
pub open spec fn code_part(raw: Seq<char>) -> Seq<char> {
    trim(raw.take(find_char(raw, ';', 0)))
}

pub open spec fn starts_with(s: Seq<char>, p: Seq<char>) -> bool {
    p.len() <= s.len() && s.take(p.len() as int) == p
}

pub open spec fn contains_at(s: Seq<char>, p: Seq<char>, i: int) -> bool {
    0 <= i && i + p.len() <= s.len() && s.subrange(i, i + p.len()) == p
}

pub open spec fn contains(s: Seq<char>, p: Seq<char>) -> bool {
    exists|i: int| contains_at(s, p, i)
}

/// The value of a digit in `radix`, letters in either case.
pub open spec fn digit_value(c: char, radix: nat) -> Option<nat> {
    let n = c as u32;
    let v = if 48 <= n && n <= 57 {
        n - 48
    } else if 65 <= n && n <= 70 {
        n - 55
    } else if 97 <= n && n <= 102 {
        n - 87
    } else {
        99int
    };
    if v < radix {
        Some(v as nat)
    } else {
        None
    }
}

pub open spec fn all_digits(s: Seq<char>, radix: nat) -> bool {
    forall|i: int| 0 <= i < s.len() ==> (#[trigger] digit_value(s[i], radix)) is Some
}

/// The number that the digits of `s` write in `radix`.
pub open spec fn digits_value(s: Seq<char>, radix: nat) -> nat
    decreases s.len(),
{
    if s.len() == 0 {
        0
    } else {
        digits_value(s.drop_last(), radix) * radix + digit_value(s.last(), radix).unwrap_or(0)
    }
}

/// An optional `+`, then at least one digit, with a value of at most `max`.
pub open spec fn parse_number(s: Seq<char>, radix: nat, max: nat) -> Option<nat> {
    let d = if s.len() > 0 && s[0] == '+' {
        s.skip(1)
    } else {
        s
    };
    if d.len() > 0 && all_digits(d, radix) && digits_value(d, radix) <= max {
        Some(digits_value(d, radix))
    } else {
        None
    }
}

/// `s` after every leading `0x`.
pub open spec fn strip_0x(s: Seq<char>) -> Seq<char>
    decreases s.len(),
{
    if s.len() >= 2 && s[0] == '0' && s[1] == 'x' {
        strip_0x(s.skip(2))
    } else {
        s
    }
}

/// What one line means to the assembler's first pass. A malformed operand
/// is `None`.
#[derive(Clone, Copy, PartialEq, Eq, Structural, Debug)]
pub enum Kind {
    /// Nothing: an empty line, a comment, or a `list`/`radix` directive.
    Blank,
    /// `org`: the address continues at the operand.
    Org(Option<usize>),
    /// `end`: nothing after this line counts.
    End,
    /// `name:`.
    Label,
    /// A symbol definition.
    Equ,
    /// `.align`: the address rounds up to a multiple of the operand.
    Align(Option<usize>),
    /// `.table`: a note to the assembler, no word of its own.
    Table,
    /// One program word.
    Word,
}

pub open spec fn to_usize(n: Option<nat>) -> Option<usize> {
    match n {
        Some(v) => Some(v as usize),
        None => None,
    }
}

/// The kind of a line whose code part is `c`.
pub open spec fn kind(c: Seq<char>) -> Kind {
    if c.len() == 0 || starts_with(c, "list"@) || starts_with(c, "radix"@) {
        Kind::Blank
    } else if starts_with(c, "org "@) {
        Kind::Org(
            to_usize(parse_number(strip_0x(trim(c.skip("org "@.len() as int))), 16, usize::MAX as nat)),
        )
    } else if starts_with(c, "end"@) {
        Kind::End
    } else if c.last() == ':' {
        Kind::Label
    } else if contains(c, " equ "@) {
        Kind::Equ
    } else if starts_with(c, ".align "@) {
        Kind::Align(to_usize(parse_number(trim(c.skip(".align "@.len() as int)), 10, usize::MAX as nat)))
    } else if starts_with(c, ".table "@) {
        Kind::Table
    } else {
        Kind::Word
    }
}

/// Whether a source line assembles to a program word.
pub open spec fn is_word(raw: Seq<char>) -> bool {
    kind(code_part(raw)) == Kind::Word
}

/// How many of the first `n` lines are words.
pub open spec fn count_words(lines: Seq<Seq<char>>, n: int) -> nat
    decreases n,
{
    if n <= 0 {
        0
    } else {
        count_words(lines, n - 1) + (if is_word(lines[n - 1]) {
            1nat
        } else {
            0
        })
    }
}

pub proof fn lemma_find_char_range(s: Seq<char>, c: char, i: int)
    requires
        0 <= i <= s.len(),
    ensures
        i <= find_char(s, c, i) <= s.len(),
        find_char(s, c, i) < s.len() ==> s[find_char(s, c, i)] == c,
        forall|j: int| i <= j < find_char(s, c, i) ==> s[j] != c,
    decreases s.len() - i,
{
    if i < s.len() && s[i] != c {
        lemma_find_char_range(s, c, i + 1);
    }
}

/// The subrange `lo..hi` of `v` as a vector of its own.
fn piece(v: &Vec<char>, lo: usize, hi: usize) -> (r: Vec<char>)
    requires
        lo <= hi <= v.len(),
    ensures
        r@ == v@.subrange(lo as int, hi as int),
{
    let mut out: Vec<char> = Vec::new();
    let mut i: usize = lo;
    while i < hi
        invariant
            lo <= i <= hi <= v.len(),
            out@ == v@.subrange(lo as int, i as int),
        decreases hi - i,
    {
        out.push(v[i]);
        i += 1;
        assert(v@.subrange(lo as int, i as int) =~= v@.subrange(lo as int, i - 1).push(v@[i - 1]));
    }
    out
}

fn find(v: &Vec<char>, c: char, from: usize) -> (r: usize)
    requires
        from <= v.len(),
    ensures
        r == find_char(v@, c, from as int),
        from <= r <= v.len(),
{
    let mut i: usize = from;
    while i < v.len() && v[i] != c
        invariant
            from <= i <= v.len(),
            find_char(v@, c, from as int) == find_char(v@, c, i as int),
        decreases v.len() - i,
    {
        i += 1;
    }
    i
}

/// `v` without leading and trailing blanks.
pub fn trimmed(v: &Vec<char>) -> (r: Vec<char>)
    ensures
        r@ == trim(v@),
{
    let mut lo: usize = 0;
    while lo < v.len() && blank(v[lo])
        invariant
            lo <= v.len(),
            blanks_end(v@, 0) == blanks_end(v@, lo as int),
        decreases v.len() - lo,
    {
        lo += 1;
    }
    let mut hi: usize = v.len();
    while lo < hi && blank(v[hi - 1])
        invariant
            lo <= hi <= v.len(),
            blanks_start(v@, lo as int, v.len() as int) == blanks_start(v@, lo as int, hi as int),
        decreases hi,
    {
        hi -= 1;
    }
    piece(v, lo, hi)
}

/// The code part of a source line.
pub fn code_of(raw: &str) -> (r: Vec<char>)
    ensures
        r@ == code_part(raw@),
{
    let v = chars_of(raw);
    let semi: usize = find(&v, ';', 0);
    let head = piece(&v, 0, semi);
    assert(head@ =~= v@.take(semi as int));
    trimmed(&head)
}

pub fn has_prefix(v: &Vec<char>, p: &str) -> (r: bool)
    ensures
        r == starts_with(v@, p@),
{
    let q = chars_of(p);
    if q.len() > v.len() {
        return false;
    }
    let mut i: usize = 0;
    while i < q.len()
        invariant
            i <= q.len() <= v.len(),
            q@ == p@,
            forall|j: int| 0 <= j < i ==> v@[j] == q@[j],
        decreases q.len() - i,
    {
        if v[i] != q[i] {
            assert(v@.take(q@.len() as int)[i as int] != q@[i as int]);
            return false;
        }
        i += 1;
    }
    assert(v@.take(q@.len() as int) =~= q@);
    true
}

fn has_piece(v: &Vec<char>, p: &str) -> (r: bool)
    ensures
        r == contains(v@, p@),
{
    let q = chars_of(p);
    if q.len() > v.len() {
        return false;
    }
    let mut i: usize = 0;
    while i <= v.len() - q.len()
        invariant
            q.len() <= v.len(),
            i <= v.len() - q.len() + 1,
            q@ == p@,
            forall|k: int| 0 <= k < i ==> !contains_at(v@, q@, k),
        decreases v.len() - q.len() + 1 - i,
    {
        let mut j: usize = 0;
        while j < q.len() && v[i + j] == q[j]
            invariant
                j <= q.len(),
                i + q.len() <= v.len(),
                forall|k: int| 0 <= k < j ==> v@[i + k] == q@[k],
            decreases q.len() - j,
        {
            j += 1;
        }
        if j == q.len() {
            assert(v@.subrange(i as int, i + q@.len()) =~= q@);
            assert(contains_at(v@, p@, i as int));
            return true;
        }
        assert(!contains_at(v@, q@, i as int)) by {
            assert(v@.subrange(i as int, i + q@.len())[j as int] == v@[i + j]);
        }
        i += 1;
    }
    assert forall|k: int| !contains_at(v@, p@, k) by {
        if 0 <= k < i {
        }
    }
    false
}

fn value_of(c: char, radix: u32) -> (r: Option<u32>)
    requires
        radix <= 16,
    ensures
        match r {
            Some(v) => digit_value(c, radix as nat) == Some(v as nat) && v < radix,
            None => digit_value(c, radix as nat) is None,
        },
{
    let n: u32 = c as u32;
    let v: u32 = if 48 <= n && n <= 57 {
        n - 48
    } else if 65 <= n && n <= 70 {
        n - 55
    } else if 97 <= n && n <= 102 {
        n - 87
    } else {
        99
    };
    if v < radix {
        Some(v)
    } else {
        None
    }
}

proof fn lemma_digits_grow(s: Seq<char>, radix: nat, n: int)
    requires
        0 <= n <= s.len(),
        radix >= 1,
    ensures
        digits_value(s.take(n), radix) <= digits_value(s, radix),
    decreases s.len() - n,
{
    if n < s.len() {
        lemma_digits_grow(s, radix, n + 1);
        let t = s.take(n + 1);
        assert(t.drop_last() =~= s.take(n));
        let a = digits_value(s.take(n), radix);
        assert(a <= a * radix) by (nonlinear_arith)
            requires
                radix >= 1,
                a >= 0,
        ;
    } else {
        assert(s.take(n) =~= s);
    }
}

/// Reads the number written in `v`.
pub fn read_number(v: &Vec<char>, radix: u32, max: usize) -> (r: Option<usize>)
    requires
        2 <= radix <= 16,
    ensures
        match r {
            Some(n) => parse_number(v@, radix as nat, max as nat) == Some(n as nat),
            None => parse_number(v@, radix as nat, max as nat) is None,
        },
{
    let from: usize = if v.len() > 0 && v[0] == '+' {
        1
    } else {
        0
    };
    let ghost d = v@.skip(from as int);
    assert(from == 0 ==> d =~= v@);
    if from >= v.len() {
        return None;
    }
    let mut acc: usize = 0;
    let mut i: usize = from;
    while i < v.len()
        invariant
            from <= i <= v.len(),
            d == v@.skip(from as int),
            2 <= radix <= 16,
            acc == digits_value(d.take(i - from), radix as nat),
            acc <= max,
            forall|j: int| 0 <= j < i - from ==> (#[trigger] digit_value(d[j], radix as nat)) is Some,
            from < v.len(),
            parse_number(v@, radix as nat, max as nat) == (if d.len() > 0 && all_digits(d, radix as nat)
                && digits_value(d, radix as nat) <= max {
                Some(digits_value(d, radix as nat))
            } else {
                None
            }),
        decreases v.len() - i,
    {
        assert(d[i - from] == v@[i as int]);
        match value_of(v[i], radix) {
            Some(x) => {
                assert(acc * radix <= 0x1_0000_0000_0000_0000 * 16) by (nonlinear_arith)
                    requires
                        acc <= 0xFFFF_FFFF_FFFF_FFFF,
                        radix <= 16,
                ;
                let wide: u128 = acc as u128 * radix as u128 + x as u128;
                proof {
                    let t = d.take(i - from + 1);
                    assert(t.drop_last() =~= d.take(i - from));
                    assert(t.last() == v@[i as int]);
                    lemma_digits_grow(d, radix as nat, i - from + 1);
                }
                if wide > max as u128 {
                    return None;
                }
                acc = wide as usize;
            },
            None => {
                assert(digit_value(d[i - from], radix as nat) is None);
                return None;
            },
        }
        i += 1;
    }
    assert(d.take(i - from) =~= d);
    Some(acc)
}

fn without_0x(v: &Vec<char>) -> (r: Vec<char>)
    ensures
        r@ == strip_0x(v@),
{
    let mut i: usize = 0;
    assert(v@.skip(0) =~= v@);
    while v.len() - i >= 2 && v[i] == '0' && v[i + 1] == 'x'
        invariant
            i <= v.len(),
            strip_0x(v@) == strip_0x(v@.skip(i as int)),
        decreases v.len() - i,
    {
        assert(v@.skip(i as int).skip(2) =~= v@.skip(i + 2));
        i += 2;
    }
    let r = piece(v, i, v.len());
    assert(r@ =~= v@.skip(i as int));
    r
}

/// The kind of a line, given its code part.
pub fn kind_of(c: &Vec<char>) -> (r: Kind)
    ensures
        r == kind(c@),
{
    if c.len() == 0 || has_prefix(c, "list") || has_prefix(c, "radix") {
        return Kind::Blank;
    }
    if has_prefix(c, "org ") {
        proof {
            reveal_strlit("org ");
        }
        let rest = piece(c, 4, c.len());
        assert(rest@ =~= c@.skip("org "@.len() as int));
        return Kind::Org(read_number(&without_0x(&trimmed(&rest)), 16, usize::MAX));
    }
    if has_prefix(c, "end") {
        return Kind::End;
    }
    if c[c.len() - 1] == ':' {
        return Kind::Label;
    }
    if has_piece(c, " equ ") {
        return Kind::Equ;
    }
    if has_prefix(c, ".align ") {
        proof {
            reveal_strlit(".align ");
        }
        let rest = piece(c, 7, c.len());
        assert(rest@ =~= c@.skip(".align "@.len() as int));
        return Kind::Align(read_number(&trimmed(&rest), 10, usize::MAX));
    }
    if has_prefix(c, ".table ") {
        return Kind::Table;
    }
    Kind::Word
}

} // verus!
