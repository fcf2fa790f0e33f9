//! What reading a text gives back: numbers, words and addresses.
use vstd::prelude::*;
use crate::ctx::{digits_end, literal_ptr, Ctx};
use crate::error::IselError;
use crate::ir::AsmOperand;
use crate::output::joined;
use crate::pic14e::layout::{end_from, end_org, ends_code, org_after};
use crate::scan::{
    all_digits, blanks_end, blanks_start, code_part, count_words, digit_value, digits_value, find_char,
    is_blank, is_word, kind, lemma_find_char_range, parse_number, starts_with, trim, Kind,
};
use crate::text::{digit_char, hex2_text, hex4_text, line_end, lines_from, number_text, split_lines};

verus! {

/// A digit in lower case.
pub open spec fn lower(c: char) -> char {
    if c == 'A' {
        'a'
    } else if c == 'B' {
        'b'
    } else if c == 'C' {
        'c'
    } else if c == 'D' {
        'd'
    } else if c == 'E' {
        'e'
    } else if c == 'F' {
        'f'
    } else {
        c
    }
}

pub open spec fn lowered(s: Seq<char>) -> Seq<char> {
    s.map_values(|c: char| lower(c))
}

proof fn lemma_digit(d: nat)
    requires
        d < 16,
    ensures
        digit_value(digit_char(d), 16) == Some(d),
{
}

proof fn lemma_number(n: nat)
    ensures
        number_text(n, 16).len() > 0,
        all_digits(number_text(n, 16), 16),
        digits_value(number_text(n, 16), 16) == n,
    decreases n,
{
    let t = number_text(n, 16);
    lemma_digit(n % 16);
    reveal_with_fuel(digits_value, 2);
    if n < 16 {
        assert(t.drop_last() =~= Seq::<char>::empty());
    } else {
        let u = number_text(n / 16, 16);
        lemma_number(n / 16);
        assert(t.drop_last() =~= u);
        assert forall|i: int| 0 <= i < t.len() implies (#[trigger] digit_value(t[i], 16)) is Some by {
            if i < u.len() {
                assert(digit_value(u[i], 16) is Some);
            }
        }
    }
}

proof fn lemma_lowered(s: Seq<char>)
    ensures
        all_digits(s, 16) ==> all_digits(lowered(s), 16),
        digits_value(lowered(s), 16) == digits_value(s, 16),
    decreases s.len(),
{
    let t = lowered(s);
    assert(forall|c: char| digit_value(#[trigger] lower(c), 16) == digit_value(c, 16));
    if s.len() > 0 {
        lemma_lowered(s.drop_last());
        assert(t.drop_last() =~= lowered(s.drop_last()));
        if all_digits(s, 16) {
            assert forall|i: int| 0 <= i < t.len() implies (#[trigger] digit_value(t[i], 16)) is Some by {
                assert(digit_value(s[i], 16) is Some);
                assert(t[i] == lower(s[i]));
            }
        }
    }
}

proof fn lemma_leading_zero(s: Seq<char>)
    ensures
        all_digits(s, 16) ==> all_digits(seq!['0'] + s, 16),
        digits_value(seq!['0'] + s, 16) == digits_value(s, 16),
    decreases s.len(),
{
    let t = seq!['0'] + s;
    if s.len() > 0 {
        lemma_leading_zero(s.drop_last());
        assert(t.drop_last() =~= seq!['0'] + s.drop_last());
    } else {
        reveal_with_fuel(digits_value, 2);
        assert(t.drop_last() =~= Seq::<char>::empty());
    }
    if all_digits(s, 16) {
        assert forall|i: int| 0 <= i < t.len() implies (#[trigger] digit_value(t[i], 16)) is Some by {
            if i > 0 {
                assert(digit_value(s[i - 1], 16) is Some);
            }
        }
    }
}

proof fn lemma_hex4(n: nat)
    ensures
        hex4_text(n).len() > 0,
        all_digits(hex4_text(n), 16),
        digits_value(hex4_text(n), 16) == n,
{
    reveal_strlit("000");
    reveal_strlit("00");
    reveal_strlit("0");
    lemma_number(n);
    let t = number_text(n, 16);
    let z1 = seq!['0'] + t;
    let z2 = seq!['0'] + z1;
    let z3 = seq!['0'] + z2;
    lemma_leading_zero(t);
    lemma_leading_zero(z1);
    lemma_leading_zero(z2);
    assert("0"@ + t =~= z1);
    assert("00"@ + t =~= z2);
    assert("000"@ + t =~= z3);
}

proof fn lemma_literal(t: Seq<char>, k: u16)
    requires
        t.len() > 0,
        all_digits(t, 16),
        digits_value(t, 16) == k,
    ensures
        literal_ptr("0x"@ + t) == Some(k),
{
    reveal_strlit("0x");
    let p = "0x"@ + t;
    assert(p.take("0x"@.len() as int) =~= "0x"@);
    assert(p.skip(2) =~= t);
    assert(digit_value(t[0], 16) is Some);
    assert(t[0] != '+');
    assert(parse_number(t, 16, 0xFFFF) == Some(k as nat));
}

/// A literal pointer that a number writes in hexadecimal, in upper or in lower
/// case, bare or with four digits, is that number.
pub proof fn law_literal_pointer_gives_back_its_number(k: u16)
    ensures
        literal_ptr("0x"@ + number_text(k as nat, 16)) == Some(k),
        literal_ptr("0x"@ + hex4_text(k as nat)) == Some(k),
        literal_ptr("0x"@ + lowered(number_text(k as nat, 16))) == Some(k),
        literal_ptr("0x"@ + lowered(hex4_text(k as nat))) == Some(k),
{
    lemma_number(k as nat);
    lemma_hex4(k as nat);
    lemma_lowered(number_text(k as nat, 16));
    lemma_lowered(hex4_text(k as nat));
    lemma_literal(number_text(k as nat, 16), k);
    lemma_literal(hex4_text(k as nat), k);
    lemma_literal(lowered(number_text(k as nat, 16)), k);
    lemma_literal(lowered(hex4_text(k as nat)), k);
}

pub open spec fn all_blank(s: Seq<char>) -> bool {
    forall|i: int| 0 <= i < s.len() ==> is_blank(#[trigger] s[i])
}

proof fn lemma_blanks_end(s: Seq<char>, i: int)
    requires
        0 <= i <= s.len(),
    ensures
        i <= blanks_end(s, i) <= s.len(),
        blanks_end(s, i) < s.len() ==> !is_blank(s[blanks_end(s, i)]),
        forall|j: int| i <= j < blanks_end(s, i) ==> is_blank(#[trigger] s[j]),
    decreases s.len() - i,
{
    if i < s.len() && is_blank(s[i]) {
        lemma_blanks_end(s, i + 1);
    }
}

proof fn lemma_blanks_start(s: Seq<char>, lo: int, hi: int)
    requires
        0 <= lo <= hi <= s.len(),
    ensures
        lo <= blanks_start(s, lo, hi) <= hi,
        blanks_start(s, lo, hi) > lo ==> !is_blank(s[blanks_start(s, lo, hi) - 1]),
        forall|j: int| blanks_start(s, lo, hi) <= j < hi ==> is_blank(#[trigger] s[j]),
    decreases hi - lo,
{
    if hi > lo && is_blank(s[hi - 1]) {
        lemma_blanks_start(s, lo, hi - 1);
    }
}

/// Blanks around a text fall away with those at its own ends.
proof fn lemma_trim(a: Seq<char>, s: Seq<char>, b: Seq<char>)
    requires
        all_blank(a),
        all_blank(b),
    ensures
        trim(a + s + b) == trim(s),
{
    let t = a + s + b;
    let n = a.len() as int;
    let (lo, lt) = (blanks_end(s, 0), blanks_end(t, 0));
    lemma_blanks_end(s, 0);
    lemma_blanks_end(t, 0);
    let (hi, ht) = (blanks_start(s, lo, s.len() as int), blanks_start(t, lt, t.len() as int));
    lemma_blanks_start(s, lo, s.len() as int);
    lemma_blanks_start(t, lt, t.len() as int);
    assert forall|j: int| 0 <= j < s.len() implies #[trigger] t[n + j] == s[j] by {}
    assert forall|j: int| 0 <= j < n implies #[trigger] t[j] == a[j] by {}
    assert forall|j: int| n + s.len() <= j < t.len() implies is_blank(#[trigger] t[j]) by {
        assert(t[j] == b[j - n - s.len()]);
        assert(is_blank(b[j - n - s.len()]));
    }
    if lo < s.len() {
        assert(t[n + lo] == s[lo]);
        assert(lt <= n + lo);
        if lt < n {
            assert(is_blank(a[lt]));
            assert(t[lt] == a[lt]);
        } else if lt < n + lo {
            assert(t[n + (lt - n)] == s[lt - n]);
        }
        assert(lt == n + lo);
        assert(!is_blank(s[lo]));
        assert(hi > lo);
        assert(t[n + (hi - 1)] == s[hi - 1]);
        if ht < n + hi {
            assert(is_blank(t[n + (hi - 1)]));
        }
        if ht > n + hi {
            if ht - 1 < n + s.len() {
                assert(t[n + (ht - 1 - n)] == s[ht - 1 - n]);
            }
        }
        assert(ht == n + hi);
        assert(t.subrange(lt, ht) =~= s.subrange(lo, hi));
    } else {
        assert(lo == s.len() && hi == s.len());
        if lt < t.len() {
            if lt < n {
                assert(t[lt] == a[lt]);
                assert(is_blank(a[lt]));
            } else if lt < n + s.len() {
                assert(t[n + (lt - n)] == s[lt - n]);
            }
            assert(false);
        }
        assert(ht == t.len());
        assert(t.subrange(lt, ht) =~= s.subrange(lo, hi));
    }
}

/// A text up to its first `c` does not depend on what follows it.
proof fn lemma_find(s: Seq<char>, t: Seq<char>, c: char, i: int)
    requires
        0 <= i <= s.len(),
    ensures
        find_char(s, c, i) < s.len() ==> find_char(s + t, c, i) == find_char(s, c, i),
        find_char(s, c, i) == s.len() ==> find_char(s + t, c, i) == s.len() + find_char(t, c, 0),
    decreases s.len() - i,
{
    if i < s.len() {
        if s[i] != c {
            lemma_find(s, t, c, i + 1);
        }
    } else {
        lemma_find_shift(s, t, c, 0);
    }
}

proof fn lemma_find_shift(s: Seq<char>, t: Seq<char>, c: char, i: int)
    requires
        0 <= i <= t.len(),
    ensures
        find_char(s + t, c, s.len() + i) == s.len() + find_char(t, c, i),
    decreases t.len() - i,
{
    if i < t.len() && t[i] != c {
        lemma_find_shift(s, t, c, i + 1);
    }
}

/// A comment behind a line, and blanks around it, change nothing of what the line
/// means.
proof fn lemma_code_part(a: Seq<char>, l: Seq<char>, b: Seq<char>)
    requires
        all_blank(a),
        all_blank(b),
    ensures
        code_part(a + l + b) == code_part(l),
        forall|c: Seq<char>| #[trigger] code_part(l + b + seq![';'] + c) == code_part(l),
{
    let e = find_char(l, ';', 0);
    lemma_find_char_range(l, ';', 0);
    lemma_no_char(a, 0);
    lemma_no_char(b, 0);
    let none = Seq::<char>::empty();
    // Blanks on both sides.
    let t = a + l + b;
    lemma_find(a, l, ';', 0);
    lemma_find(a + l, b, ';', 0);
    if e < l.len() {
        assert(t.take(find_char(t, ';', 0)) =~= a + l.take(e) + none);
        lemma_trim(a, l.take(e), none);
    } else {
        assert(t.take(find_char(t, ';', 0)) =~= a + l + b);
        assert(l.take(e) =~= l);
        lemma_trim(a, l, b);
    }
    // A comment.
    assert forall|c: Seq<char>| #[trigger] code_part(l + b + seq![';'] + c) == code_part(l) by {
        let u = l + b + seq![';'] + c;
        let k = seq![';'] + c;
        assert(u =~= l + (b + k));
        lemma_find(l, b + k, ';', 0);
        lemma_find(b, k, ';', 0);
        assert(find_char(k, ';', 0) == 0);
        if e < l.len() {
            assert(u.take(find_char(u, ';', 0)) =~= l.take(e));
        } else {
            assert(u.take(find_char(u, ';', 0)) =~= none + l + b);
            assert(l.take(e) =~= l);
            lemma_trim(none, l, b);
            assert(none + l + b =~= l + b);
        }
    }
}

proof fn lemma_no_char(a: Seq<char>, i: int)
    requires
        all_blank(a),
        0 <= i <= a.len(),
    ensures
        find_char(a, ';', i) == a.len(),
    decreases a.len() - i,
{
    if i < a.len() {
        assert(is_blank(a[i]));
        lemma_no_char(a, i + 1);
    }
}

/// Comments and surrounding blanks never change the count of words.
pub proof fn law_comments_and_blanks_do_not_count(
    a: Seq<char>,
    l: Seq<char>,
    b: Seq<char>,
    c: Seq<char>,
)
    requires
        all_blank(a),
        all_blank(b),
    ensures
        count_words(seq![a + l + b], 1) == count_words(seq![l], 1),
        count_words(seq![l + b + seq![';'] + c], 1) == count_words(seq![l], 1),
{
    lemma_code_part(a, l, b);
    reveal_with_fuel(count_words, 2);
    assert(is_word(a + l + b) == is_word(l));
    assert(is_word(l + b + seq![';'] + c) == is_word(l));
}

proof fn lemma_line_end(s: Seq<char>, t: Seq<char>, i: int)
    requires
        0 <= i <= s.len(),
    ensures
        line_end(s, i) < s.len() ==> line_end(s + t, i) == line_end(s, i),
        line_end(s, i) == s.len() ==> line_end(s + t, i) == s.len() + line_end(t, 0),
        i <= line_end(s, i) <= s.len(),
    decreases s.len() - i,
{
    if i < s.len() {
        if s[i] != '\n' {
            lemma_line_end(s, t, i + 1);
        }
    } else {
        lemma_line_end_shift(s, t, 0);
    }
}

proof fn lemma_line_end_shift(s: Seq<char>, t: Seq<char>, i: int)
    requires
        0 <= i <= t.len(),
    ensures
        line_end(s + t, s.len() + i) == s.len() + line_end(t, i),
        i <= line_end(t, i) <= t.len(),
    decreases t.len() - i,
{
    if i < t.len() && t[i] != '\n' {
        lemma_line_end_shift(s, t, i + 1);
    }
}

/// The lines behind a text are those of what follows it.
proof fn lemma_lines_shift(s: Seq<char>, t: Seq<char>, i: int)
    requires
        0 <= i <= t.len(),
    ensures
        lines_from(s + t, s.len() + i) == lines_from(t, i),
    decreases t.len() - i,
{
    let e = line_end(t, i);
    lemma_line_end_shift(s, t, i);
    let u = s + t;
    let n = s.len() as int;
    if e >= t.len() {
        assert(u.skip(n + i) =~= t.skip(i));
    } else {
        lemma_lines_shift(s, t, e + 1);
        assert(u.subrange(n + i, n + e) =~= t.subrange(i, e));
    }
}

/// Two texts with a line break between them have the lines of both.
proof fn lemma_split(s: Seq<char>, t: Seq<char>, i: int)
    requires
        0 <= i <= s.len(),
    ensures
        lines_from(s + seq!['\n'] + t, i) == lines_from(s, i) + split_lines(t),
    decreases s.len() - i,
{
    let e = line_end(s, i);
    let w = seq!['\n'] + t;
    let u = s + seq!['\n'] + t;
    assert(u =~= s + w);
    lemma_line_end(s, w, i);
    if e < s.len() {
        lemma_split(s, t, e + 1);
        assert(u.subrange(i, e) =~= s.subrange(i, e));
        assert(lines_from(u, i) =~= lines_from(s, i) + split_lines(t));
    } else {
        assert(line_end(w, 0) == 0);
        assert(u.subrange(i, e) =~= s.skip(i));
        let h = s + seq!['\n'];
        assert(u =~= h + t);
        lemma_lines_shift(h, t, 0);
        assert(lines_from(u, i) =~= lines_from(s, i) + split_lines(t));
    }
}

/// A text without a line break is one line.
proof fn lemma_one_line(s: Seq<char>, i: int)
    requires
        0 <= i <= s.len(),
        forall|j: int| 0 <= j < s.len() ==> s[j] != '\n',
    ensures
        line_end(s, i) == s.len(),
    decreases s.len() - i,
{
    if i < s.len() {
        lemma_one_line(s, i + 1);
    }
}

pub open spec fn unbroken(s: Seq<char>) -> bool {
    forall|j: int| 0 <= j < s.len() ==> s[j] != '\n'
}

proof fn lemma_joined(lines: Seq<Seq<char>>, n: int)
    requires
        1 <= n <= lines.len(),
        forall|i: int| 0 <= i < lines.len() ==> unbroken(#[trigger] lines[i]),
    ensures
        split_lines(joined(lines, n)) == lines.take(n),
    decreases n,
{
    reveal_strlit("\n");
    let l = lines[n - 1];
    assert(unbroken(l));
    lemma_one_line(l, 0);
    assert(l.skip(0) =~= l);
    assert(split_lines(l) =~= seq![l]);
    if n == 1 {
        assert(split_lines(joined(lines, 1)) =~= lines.take(1));
    } else {
        lemma_joined(lines, n - 1);
        let p = joined(lines, n - 1);
        assert("\n"@ =~= seq!['\n']);
        lemma_split(p, l, 0);
        assert(split_lines(p) + seq![l] =~= lines.take(n));
    }
}

/// A line that moves the address by its word alone: no `org`, no `.align`, and not
/// the end of the code.
pub open spec fn is_plain(l: Seq<char>) -> bool {
    let c = code_part(l);
    &&& unbroken(l)
    &&& !starts_with(c, "org "@)
    &&& !starts_with(c, ".align "@)
    &&& !starts_with(c, "end"@)
    &&& !starts_with(c, "__read_"@)
}

proof fn lemma_plain(lines: Seq<Seq<char>>, i: int)
    requires
        0 <= i <= lines.len() <= usize::MAX,
        forall|j: int| 0 <= j < lines.len() ==> is_plain(#[trigger] lines[j]),
        count_words(lines, i) <= i,
    ensures
        end_from(lines, i, count_words(lines, i) as usize) == Some(
            count_words(lines, lines.len() as int) as usize,
        ),
    decreases lines.len() - i,
{
    if i < lines.len() {
        let c = code_part(lines[i]);
        assert(is_plain(lines[i]));
        let k = kind(c);
        assert(!ends_code(c));
        let w = count_words(lines, i);
        assert(count_words(lines, i + 1) == w + (if k == Kind::Word {
            1nat
        } else {
            0
        }));
        assert(org_after(k, w as usize) == Some(count_words(lines, i + 1) as usize));
        lemma_plain(lines, i + 1);
    }
}

/// On plain lines the address after the code is the count of words.
pub proof fn law_end_address_is_the_word_count(lines: Seq<Seq<char>>)
    requires
        lines.len() <= usize::MAX,
        forall|j: int| 0 <= j < lines.len() ==> is_plain(#[trigger] lines[j]),
    ensures
        end_org(joined(lines, lines.len() as int)) == Some(
            count_words(lines, lines.len() as int) as usize,
        ),
{
    if lines.len() == 0 {
        let t = Seq::<char>::empty();
        assert(line_end(t, 0) == 0);
        assert(split_lines(t) =~= seq![t.skip(0)]);
        assert(t.skip(0) =~= t);
        assert(code_part(t) =~= t) by {
            lemma_blanks_end(t, 0);
            assert(t.take(find_char(t, ';', 0)) =~= t);
            assert(trim(t).len() == 0);
        }
        assert(kind(code_part(t)) == Kind::Blank);
        reveal_with_fuel(end_from, 3);
    } else {
        assert forall|i: int| 0 <= i < lines.len() implies unbroken(#[trigger] lines[i]) by {
            assert(is_plain(lines[i]));
        }
        lemma_joined(lines, lines.len() as int);
        assert(lines.take(lines.len() as int) =~= lines);
        lemma_plain(lines, 0);
    }
}

/// Lines that do not end the code are gone through; the one that does ends it.
proof fn lemma_end_from(a: Seq<Seq<char>>, r: Seq<char>, b: Seq<Seq<char>>, i: int, org: usize)
    requires
        0 <= i <= a.len(),
        forall|j: int| 0 <= j < a.len() ==> !ends_code(code_part(#[trigger] a[j])),
        ends_code(code_part(r)),
    ensures
        end_from(a + seq![r] + b, i, org) == end_from(a, i, org),
    decreases a.len() - i,
{
    let t = a + seq![r] + b;
    if i < a.len() {
        assert(t[i] == a[i]);
        match org_after(kind(code_part(a[i])), org) {
            Some(o) => lemma_end_from(a, r, b, i + 1, o),
            None => {},
        }
    } else {
        assert(t[i] == r);
    }
}

/// Nothing after a line that ends the code counts.
pub proof fn law_nothing_after_the_end_counts(p: Seq<char>, r: Seq<char>, rest: Seq<char>)
    requires
        unbroken(r),
        ends_code(code_part(r)),
        forall|j: int|
            0 <= j < split_lines(p).len() ==> !ends_code(code_part(#[trigger] split_lines(p)[j])),
    ensures
        end_org(p + seq!['\n'] + r + seq!['\n'] + rest) == end_org(p),
{
    let q = r + seq!['\n'] + rest;
    assert(p + seq!['\n'] + r + seq!['\n'] + rest =~= p + seq!['\n'] + q);
    lemma_split(p, q, 0);
    lemma_split(r, rest, 0);
    lemma_one_line(r, 0);
    assert(r.skip(0) =~= r);
    assert(split_lines(r) =~= seq![r]);
    assert(split_lines(p) + (seq![r] + split_lines(rest)) =~= split_lines(p) + seq![r] + split_lines(
        rest,
    ));
    lemma_end_from(split_lines(p), r, split_lines(rest), 0, 0);
}

/// The end of the program and the label of a reader end the code, so nothing after
/// them counts.
pub proof fn law_nothing_after_the_tables_start_counts(
    p: Seq<char>,
    name: Seq<char>,
    rest: Seq<char>,
)
    requires
        unbroken(name),
        forall|j: int| 0 <= j < name.len() ==> name[j] != ';',
        forall|j: int|
            0 <= j < split_lines(p).len() ==> !ends_code(code_part(#[trigger] split_lines(p)[j])),
    ensures
        end_org(p + seq!['\n'] + "    end"@ + seq!['\n'] + rest) == end_org(p),
        end_org(p + seq!['\n'] + ("__read_"@ + name + ":"@) + seq!['\n'] + rest) == end_org(p),
{
    lemma_end_line();
    law_nothing_after_the_end_counts(p, "    end"@, rest);
    lemma_reader_line(name);
    law_nothing_after_the_end_counts(p, "__read_"@ + name + ":"@, rest);
}

proof fn lemma_end_line()
    ensures
        unbroken("    end"@),
        ends_code(code_part("    end"@)),
{
    reveal_strlit("    end");
    reveal_strlit("    ");
    reveal_strlit("end");
    reveal_strlit("list");
    reveal_strlit("radix");
    reveal_strlit("org ");
    let e = "end"@;
    let none = Seq::<char>::empty();
    assert("    end"@ =~= "    "@ + e + none);
    assert(all_blank("    "@));
    lemma_code_part("    "@, e, none);
    reveal_with_fuel(find_char, 4);
    assert(e.take(3) =~= e);
    lemma_bare(e);
    assert(code_part(e) =~= e);
    assert(e[0] == 'e');
    assert(e.take("end"@.len() as int) =~= e);
    lemma_other_start(e, "list"@);
    lemma_other_start(e, "radix"@);
    lemma_other_start(e, "org "@);
}

/// A text that starts and ends with other than blanks has nothing to trim.
proof fn lemma_bare(s: Seq<char>)
    requires
        s.len() > 0,
        !is_blank(s[0]),
        !is_blank(s.last()),
    ensures
        trim(s) == s,
{
    assert(blanks_end(s, 0) == 0);
    assert(blanks_start(s, 0, s.len() as int) == s.len());
    assert(s.subrange(0, s.len() as int) =~= s);
}

proof fn lemma_other_start(s: Seq<char>, p: Seq<char>)
    requires
        s.len() > 0,
        p.len() > 0,
        s[0] != p[0],
    ensures
        !starts_with(s, p),
{
    if starts_with(s, p) {
        assert(s.take(p.len() as int)[0] == p[0]);
    }
}

proof fn lemma_no_comment(s: Seq<char>, i: int)
    requires
        0 <= i <= s.len(),
        forall|j: int| 0 <= j < s.len() ==> s[j] != ';',
    ensures
        find_char(s, ';', i) == s.len(),
    decreases s.len() - i,
{
    if i < s.len() {
        lemma_no_comment(s, i + 1);
    }
}

proof fn lemma_reader_line(name: Seq<char>)
    requires
        unbroken(name),
        forall|j: int| 0 <= j < name.len() ==> name[j] != ';',
    ensures
        unbroken("__read_"@ + name + ":"@),
        ends_code(code_part("__read_"@ + name + ":"@)),
{
    reveal_strlit("__read_");
    reveal_strlit(":");
    reveal_strlit("list");
    reveal_strlit("radix");
    reveal_strlit("org ");
    reveal_strlit("end");
    let s = "__read_"@ + name + ":"@;
    lemma_no_comment(s, 0);
    assert(s.take(s.len() as int) =~= s);
    assert(s[0] == '_' && s.last() == ':');
    lemma_bare(s);
    assert(code_part(s) == s);
    lemma_other_start(s, "list"@);
    lemma_other_start(s, "radix"@);
    lemma_other_start(s, "org "@);
    assert(s.take("__read_"@.len() as int) =~= "__read_"@);
}

/// An address that is written with two digits or more reads back.
pub proof fn law_written_address_reads_back(k: u16)
    ensures
        literal_ptr("0x"@ + hex2_text(k as nat)) == Some(k),
{
    reveal_strlit("0");
    let t = number_text(k as nat, 16);
    lemma_number(k as nat);
    lemma_leading_zero(t);
    assert("0"@ + t =~= seq!['0'] + t);
    lemma_literal(hex2_text(k as nat), k);
}

proof fn lemma_decimal(n: nat)
    ensures
        number_text(n, 10).len() > 0,
        all_digits(number_text(n, 10), 10),
        digits_value(number_text(n, 10), 10) == n,
    decreases n,
{
    let t = number_text(n, 10);
    reveal_with_fuel(digits_value, 2);
    assert(digit_value(digit_char(n % 10), 10) == Some(n % 10));
    if n < 10 {
        assert(t.drop_last() =~= Seq::<char>::empty());
    } else {
        let u = number_text(n / 10, 10);
        lemma_decimal(n / 10);
        assert(t.drop_last() =~= u);
        assert forall|i: int| 0 <= i < t.len() implies (#[trigger] digit_value(t[i], 10)) is Some by {
            if i < u.len() {
                assert(digit_value(u[i], 10) is Some);
            }
        }
    }
}

/// Numbers that are written the same in decimal are the same, so labels that are
/// numbered differ.
pub proof fn law_decimal_tells_numbers_apart(a: nat, b: nat)
    ensures
        number_text(a, 10) == number_text(b, 10) ==> a == b,
{
    lemma_decimal(a);
    lemma_decimal(b);
}

proof fn lemma_break(s: Seq<char>, i: int)
    requires
        0 <= i <= s.len(),
    ensures
        i <= line_end(s, i) <= s.len(),
        forall|j: int| i <= j < line_end(s, i) ==> s[j] != '\n',
        line_end(s, i) < s.len() ==> s[line_end(s, i)] == '\n',
    decreases s.len() - i,
{
    if i < s.len() && s[i] != '\n' {
        lemma_break(s, i + 1);
    }
}

proof fn lemma_joined_front(a: Seq<char>, ls: Seq<Seq<char>>, n: int)
    requires
        1 <= n <= ls.len(),
    ensures
        joined(seq![a] + ls, n + 1) == a + "\n"@ + joined(ls, n),
    decreases n,
{
    let t = seq![a] + ls;
    assert(t[n] == ls[n - 1]);
    assert(t[0] == a);
    if n == 1 {
        reveal_with_fuel(joined, 3);
    } else {
        lemma_joined_front(a, ls, n - 1);
        assert(joined(t, n + 1) =~= a + "\n"@ + joined(ls, n));
    }
}

proof fn lemma_pieces(s: Seq<char>, i: int)
    requires
        0 <= i <= s.len(),
    ensures
        lines_from(s, i).len() >= 1,
        joined(lines_from(s, i), lines_from(s, i).len() as int) == s.skip(i),
        forall|k: int, j: int|
            0 <= k < lines_from(s, i).len() && 0 <= j < lines_from(s, i)[k].len() ==> #[trigger]
                lines_from(s, i)[k][j] != '\n',
    decreases s.len() - i,
{
    let e = line_end(s, i);
    let v = lines_from(s, i);
    lemma_break(s, i);
    if e >= s.len() {
        assert(v =~= seq![s.skip(i)]);
    } else {
        reveal_strlit("\n");
        let (a, w) = (s.subrange(i, e), lines_from(s, e + 1));
        lemma_pieces(s, e + 1);
        lemma_joined_front(a, w, w.len() as int);
        assert(a + "\n"@ + s.skip(e + 1) =~= s.skip(i));
        assert forall|k: int, j: int| 0 <= k < v.len() && 0 <= j < v[k].len() implies #[trigger]
            v[k][j] != '\n' by {
            if k == 0 {
                assert(v[0] == a);
                assert(a[j] == s[i + j]);
            } else {
                assert(v[k] == w[k - 1]);
            }
        }
    }
}

/// A text that is cut into lines gives them back in order: joined by line breaks they
/// are the text, and none of them holds a line break.
pub proof fn law_lines_join_to_their_text(s: Seq<char>)
    ensures
        joined(split_lines(s), split_lines(s).len() as int) == s,
        forall|k: int, j: int|
            0 <= k < split_lines(s).len() && 0 <= j < split_lines(s)[k].len() ==> #[trigger]
                split_lines(s)[k][j] != '\n',
{
    lemma_pieces(s, 0);
    assert(s.skip(0) =~= s);
}

proof fn lemma_digits_end(t: Seq<char>, i: int, e: int)
    requires
        0 <= i <= e <= t.len(),
        forall|k: int| i <= k < e ==> digit_value(#[trigger] t[k], 10) is Some,
        e == t.len() || digit_value(t[e], 10) is None,
    ensures
        digits_end(t, i) == e,
    decreases e - i,
{
    if i < e {
        assert(digit_value(t[i], 10) is Some);
        lemma_digits_end(t, i + 1, e);
    }
}

/// A placeholder in an assembly template, a number behind a `$` or a `%`, becomes the
/// address of the operand with that number.
pub proof fn law_placeholder_becomes_its_operand(
    cx: &Ctx,
    t: Seq<char>,
    ops: Seq<AsmOperand>,
    i: int,
    n: nat,
    out: Seq<char>,
)
    requires
        0 <= i < t.len(),
        t[i] == '$' || t[i] == '%',
        ({
            let e = i + 1 + number_text(n, 10).len();
            e <= t.len() && t.subrange(i + 1, e) == number_text(n, 10) && (e == t.len() || digit_value(
                t[e],
                10,
            ) is None)
        }),
    ensures
        cx.subst_from(t, ops, i, out) == (if n >= ops.len() {
            Err(IselError::AsmPlaceholderRange)
        } else {
            match cx.asm_addr(ops[n as int].ptr@) {
                Ok(a) => cx.subst_from(
                    t,
                    ops,
                    i + 1 + number_text(n, 10).len(),
                    out + "0x"@ + hex2_text(a as nat),
                ),
                Err(e) => Err(e),
            }
        }),
{
    let d = number_text(n, 10);
    let e = i + 1 + d.len();
    lemma_decimal(n);
    assert forall|k: int| i + 1 <= k < e implies digit_value(#[trigger] t[k], 10) is Some by {
        assert(t.subrange(i + 1, e)[k - i - 1] == t[k]);
        assert(digit_value(d[k - i - 1], 10) is Some);
    }
    lemma_digits_end(t, i + 1, e);
    assert(digit_value(t[i + 1], 10) is Some);
    assert(t[i + 1] != '$' && t[i + 1] != '%');
}

/// A template without a placeholder stands for itself.
pub proof fn law_plain_template_stands_for_itself(
    cx: &Ctx,
    t: Seq<char>,
    ops: Seq<AsmOperand>,
    i: int,
    out: Seq<char>,
)
    requires
        0 <= i <= t.len(),
        forall|k: int| i <= k < t.len() ==> (#[trigger] t[k]) != '$' && t[k] != '%',
    ensures
        cx.subst_from(t, ops, i, out) == Ok::<Seq<char>, IselError>(out + t.skip(i)),
    decreases t.len() - i,
{
    if i < t.len() {
        assert(t[i] != '$');
        law_plain_template_stands_for_itself(cx, t, ops, i + 1, out.push(t[i]));
        assert(out.push(t[i]) + t.skip(i + 1) =~= out + t.skip(i));
    } else {
        assert(out + t.skip(i) =~= out);
    }
}

} // verus!
