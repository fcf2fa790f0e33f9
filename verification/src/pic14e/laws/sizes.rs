//! What holds of the measured program text: a function is as long as the words between
//! its label and the next.
use vstd::prelude::*;
use crate::ir::Module;
use crate::pic14e::layout::{is_target, label_name, org_after, sizes_from, sizes_in, Extents};
use crate::scan::{code_part, count_words, kind, Kind};
use crate::text::split_lines;

verus! {

/// Whether a line is the label of the target `name`.
pub open spec fn labels(m: &Module, line: Seq<char>, name: Seq<char>) -> bool {
    &&& kind(code_part(line)) == Kind::Label
    &&& label_name(code_part(line)) == name
    &&& is_target(m, name)
}

/// Whether a line starts no target, ends no text, and moves the address by its own word
/// alone.
pub open spec fn inner(m: &Module, line: Seq<char>) -> bool {
    match kind(code_part(line)) {
        Kind::End | Kind::Org(_) | Kind::Align(_) => false,
        Kind::Label => !is_target(m, label_name(code_part(line))),
        _ => true,
    }
}

/// Whether the words of a target end before line `j`.
pub open spec fn closes(m: &Module, lines: Seq<Seq<char>>, j: int) -> bool {
    ||| j == lines.len()
    ||| kind(code_part(lines[j])) == Kind::End
    ||| kind(code_part(lines[j])) == Kind::Label && is_target(m, label_name(code_part(lines[j])))
}

/// A measured size stays, if nothing else is measured under its name.
proof fn lemma_size_stays(
    m: &Module,
    lines: Seq<Seq<char>>,
    i: int,
    org: usize,
    x: Extents,
    name: Seq<char>,
)
    requires
        0 <= i <= lines.len(),
        x.sizes.contains_key(name),
        x.open matches Some((n, _)) ==> n != name,
        forall|k: int| i <= k < lines.len() ==> !labels(m, #[trigger] lines[k], name),
        sizes_from(m, lines, i, org, x) is Some,
    ensures
        sizes_from(m, lines, i, org, x)->0.contains_key(name),
        sizes_from(m, lines, i, org, x)->0[name] == x.sizes[name],
    decreases lines.len() - i,
{
    if i < lines.len() {
        let c = code_part(lines[i]);
        assert(!labels(m, lines[i], name));
        match kind(c) {
            Kind::End => {},
            Kind::Label => {
                if is_target(m, label_name(c)) {
                    let sizes = x.close(org)->0;
                    lemma_size_stays(
                        m,
                        lines,
                        i + 1,
                        org,
                        Extents { sizes, open: Some((label_name(c), org)) },
                        name,
                    );
                } else {
                    lemma_size_stays(m, lines, i + 1, org, x, name);
                }
            },
            k => {
                lemma_size_stays(m, lines, i + 1, org_after(k, org)->0, x, name);
            },
        }
    }
}

/// Lines between two labels move the address by their words.
proof fn lemma_words_pass(m: &Module, lines: Seq<Seq<char>>, i: int, j: int, org: usize, x: Extents)
    requires
        0 <= i <= j <= lines.len(),
        forall|k: int| i <= k < j ==> inner(m, #[trigger] lines[k]),
        sizes_from(m, lines, i, org, x) is Some,
    ensures
        count_words(lines, i) <= count_words(lines, j),
        org + count_words(lines, j) - count_words(lines, i) <= usize::MAX,
        sizes_from(m, lines, i, org, x) == sizes_from(
            m,
            lines,
            j,
            (org + count_words(lines, j) - count_words(lines, i)) as usize,
            x,
        ),
    decreases j - i,
{
    if i < j {
        assert(inner(m, lines[i]));
        let k = kind(code_part(lines[i]));
        let o = if k == Kind::Label {
            org
        } else {
            org_after(k, org)->0
        };
        assert(count_words(lines, i + 1) == count_words(lines, i) + (if k == Kind::Word {
            1nat
        } else {
            0
        }));
        assert(sizes_from(m, lines, i, org, x) == sizes_from(m, lines, i + 1, o, x));
        lemma_words_pass(m, lines, i + 1, j, o, x);
    }
}

/// The size measured from line `i` on of a target whose label stands at line `a`.
proof fn lemma_size(
    m: &Module,
    lines: Seq<Seq<char>>,
    i: int,
    org: usize,
    x: Extents,
    a: int,
    b: int,
    name: Seq<char>,
)
    requires
        0 <= i <= a < b <= lines.len(),
        forall|k: int| i <= k < a ==> kind(code_part(#[trigger] lines[k])) != Kind::End,
        labels(m, lines[a], name),
        forall|k: int| a < k < b ==> inner(m, #[trigger] lines[k]),
        closes(m, lines, b),
        forall|k: int| a < k < lines.len() ==> !labels(m, #[trigger] lines[k], name),
        sizes_from(m, lines, i, org, x) is Some,
    ensures
        sizes_from(m, lines, i, org, x)->0.contains_key(name),
        sizes_from(m, lines, i, org, x)->0[name] == count_words(lines, b) - count_words(lines, a),
    decreases a - i,
{
    let c = code_part(lines[i]);
    if i < a {
        assert(kind(c) != Kind::End);
        match kind(c) {
            Kind::End => {},
            Kind::Label => {
                if is_target(m, label_name(c)) {
                    let y = Extents {
                        sizes: x.close(org)->0,
                        open: Some((label_name(c), org)),
                    };
                    lemma_size(m, lines, i + 1, org, y, a, b, name);
                } else {
                    lemma_size(m, lines, i + 1, org, x, a, b, name);
                }
            },
            k => {
                lemma_size(m, lines, i + 1, org_after(k, org)->0, x, a, b, name);
            },
        }
    } else {
        let y = Extents { sizes: x.close(org)->0, open: Some((name, org)) };
        assert(count_words(lines, a + 1) == count_words(lines, a));
        lemma_words_pass(m, lines, a + 1, b, org, y);
        let end = (org + count_words(lines, b) - count_words(lines, a)) as usize;
        assert(y.close(end) == Some(y.sizes.insert(name, (end - org) as usize)));
        if b < lines.len() && kind(code_part(lines[b])) == Kind::Label {
            let next = label_name(code_part(lines[b]));
            assert(!labels(m, lines[b], name));
            let z = Extents { sizes: y.close(end)->0, open: Some((next, end)) };
            lemma_size_stays(m, lines, b + 1, end, z, name);
        }
    }
}

/// A function, or the reset code, is as long as the words between its label and the next
/// label of one of them, or the end of the text: a size counts every word once, and no
/// line that makes none.
pub proof fn law_size_is_the_words_between_labels(
    m: &Module,
    text: Seq<char>,
    a: int,
    b: int,
    name: Seq<char>,
)
    requires
        0 <= a < b <= split_lines(text).len(),
        forall|k: int| 0 <= k < a ==> kind(code_part(#[trigger] split_lines(text)[k])) != Kind::End,
        labels(m, split_lines(text)[a], name),
        forall|k: int| a < k < b ==> inner(m, #[trigger] split_lines(text)[k]),
        closes(m, split_lines(text), b),
        forall|k: int|
            a < k < split_lines(text).len() ==> !labels(m, #[trigger] split_lines(text)[k], name),
        sizes_in(m, text) is Some,
    ensures
        sizes_in(m, text)->0.contains_key(name),
        sizes_in(m, text)->0[name] == count_words(split_lines(text), b) - count_words(
            split_lines(text),
            a,
        ),
{
    lemma_size(
        m,
        split_lines(text),
        0,
        0,
        Extents { sizes: Map::empty(), open: None },
        a,
        b,
        name,
    );
}

} // verus!
