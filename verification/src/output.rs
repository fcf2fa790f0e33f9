//! The text of a program, its word count and its source locations.
use vstd::prelude::*;
use crate::emit::{Emitter, Row, St};
use crate::ir::{Module, SrcLoc};
use crate::line::{line_text, push_line, texts_view};
use crate::scan::{code_of, count_words, kind_of, Kind};
use crate::text::{lines_of, split_lines};

verus! {

/// The first `n` of `lines`, joined by line breaks.
pub open spec fn joined(lines: Seq<Seq<char>>, n: int) -> Seq<char>
    decreases n,
{
    if n <= 0 {
        Seq::empty()
    } else if n == 1 {
        lines[0]
    } else {
        joined(lines, n - 1) + "\n"@ + lines[n - 1]
    }
}

/// The lines an emitter wrote, as text.
pub open spec fn row_lines(m: &Module, st: St) -> Seq<Seq<char>> {
    st.rows.map_values(|r: Row| line_text(m, st.texts, r.line))
}

/// A program as it grows: its lines, and the source location of each.
#[verifier::ext_equal]
pub ghost struct Listing {
    pub lines: Seq<Seq<char>>,
    pub locs: Seq<Option<SrcLoc>>,
}

impl Listing {
    pub open spec fn start() -> Listing {
        Listing { lines: Seq::empty(), locs: Seq::empty() }
    }

    /// One more line without a source location.
    pub open spec fn line(self, t: Seq<char>) -> Listing {
        Listing { lines: self.lines.push(t), locs: self.locs.push(None) }
    }

    /// Everything an emitter wrote.
    pub open spec fn append(self, m: &Module, st: St) -> Listing {
        Listing {
            lines: self.lines + row_lines(m, st),
            locs: self.locs + st.rows.map_values(|r: Row| r.loc),
        }
    }

    /// Every line has a source location or a mark that it has none.
    pub open spec fn aligned(self) -> bool {
        self.lines.len() == self.locs.len()
    }

    /// The text: the lines, joined by line breaks.
    pub open spec fn text(self) -> Seq<char> {
        joined(self.lines, self.lines.len() as int)
    }
}

pub open spec fn text_lines(out: Listing, ls: Seq<Seq<char>>, i: int) -> Listing
    decreases ls.len() - i,
{
    if i < 0 || i >= ls.len() {
        out
    } else {
        text_lines(out.line(ls[i]), ls, i + 1)
    }
}

pub open spec fn asm_entries(out: Listing, entries: Seq<String>, i: int) -> Listing
    decreases entries.len() - i,
{
    if i < 0 || i >= entries.len() {
        out
    } else {
        asm_entries(text_lines(out, split_lines(entries[i]@), 0), entries, i + 1)
    }
}

/// Assembly at module level, verbatim under its comment.
pub open spec fn module_asm(out: Listing, m: &Module) -> Listing {
    if m.module_asm@.len() == 0 {
        out
    } else {
        asm_entries(out.line("; module asm"@), m.module_asm@, 0)
    }
}

/// The words of a list of lines: one for each instruction, none for labels,
/// directives, symbol definitions, comments and blanks, as the assembler's
/// first pass counts them.
pub fn word_size(lines: &[String]) -> (r: usize)
    ensures
        r == count_words(texts_view(lines@), lines@.len() as int),
{
    let mut n: usize = 0;
    let mut i: usize = 0;
    while i < lines.len()
        invariant
            i <= lines@.len(),
            n <= i,
            n == count_words(texts_view(lines@), i as int),
        decreases lines@.len() - i,
    {
        if kind_of(&code_of(lines[i].as_str())) == Kind::Word {
            n += 1;
        }
        i += 1;
    }
    n
}

/// Renders what an emitter wrote.
pub fn render_rows(m: &Module, g: &Emitter) -> (r: Vec<String>)
    ensures
        texts_view(r@) == row_lines(m, g@),
{
    let mut out: Vec<String> = Vec::new();
    let mut i: usize = 0;
    while i < g.rows.len()
        invariant
            i <= g.rows@.len(),
            texts_view(out@) == row_lines(m, g@).take(i as int),
        decreases g.rows@.len() - i,
    {
        let mut s = String::new();
        push_line(&mut s, m, &g.texts, g.rows[i].line);
        assert(s@ =~= line_text(m, g@.texts, g.rows@[i as int].line));
        let ghost before = out@;
        out.push(s);
        i += 1;
        assert(texts_view(out@) =~= texts_view(before).push(s@));
        assert(texts_view(out@) =~= row_lines(m, g@).take(i as int));
    }
    assert(texts_view(out@) =~= row_lines(m, g@));
    out
}

/// Joins lines by line breaks.
pub fn join(lines: &Vec<String>) -> (r: String)
    ensures
        r@ == joined(texts_view(lines@), lines@.len() as int),
{
    let mut s = String::new();
    let mut i: usize = 0;
    assert(s@ =~= joined(texts_view(lines@), 0));
    while i < lines.len()
        invariant
            i <= lines@.len(),
            s@ == joined(texts_view(lines@), i as int),
        decreases lines@.len() - i,
    {
        if i > 0 {
            s.append("\n");
        }
        let ghost before = s@;
        s.append(lines[i].as_str());
        i += 1;
        assert(s@ =~= joined(texts_view(lines@), i as int));
    }
    s
}

/// A program as it grows.
#[derive(Debug)]
pub struct Output {
    pub lines: Vec<String>,
    pub locs: Vec<Option<SrcLoc>>,
}

impl View for Output {
    type V = Listing;

    open spec fn view(&self) -> Listing {
        Listing { lines: texts_view(self.lines@), locs: self.locs@ }
    }
}

impl Output {
    pub fn new() -> (r: Self)
        ensures
            r@ == Listing::start(),
    {
        let r = Output { lines: Vec::new(), locs: Vec::new() };
        assert(r@ =~= Listing::start());
        r
    }

    pub fn line(&mut self, t: &str)
        ensures
            final(self)@ == old(self)@.line(t@),
    {
        self.lines.push(t.to_owned());
        self.locs.push(None);
        assert(self@ =~= old(self)@.line(t@));
    }

    /// Appends the lines and locations an emitter wrote.
    pub fn append(&mut self, m: &Module, g: &Emitter)
        ensures
            final(self)@ == old(self)@.append(m, g@),
    {
        let lines = render_rows(m, g);
        let mut i: usize = 0;
        while i < lines.len()
            invariant
                i <= lines@.len(),
                self.locs@ == old(self).locs@,
                texts_view(self.lines@) == texts_view(old(self).lines@) + texts_view(lines@).take(
                    i as int,
                ),
            decreases lines@.len() - i,
        {
            let ghost before = self.lines@;
            self.lines.push(lines[i].clone());
            i += 1;
            assert(texts_view(self.lines@) =~= texts_view(before).push(texts_view(lines@)[i - 1]));
            assert(texts_view(self.lines@) =~= texts_view(old(self).lines@) + texts_view(
                lines@,
            ).take(i as int));
        }
        let ghost locs = g@.rows.map_values(|r: Row| r.loc);
        let mut k: usize = 0;
        while k < g.rows.len()
            invariant
                k <= g.rows@.len(),
                locs == g.rows@.map_values(|r: Row| r.loc),
                self.locs@ == old(self).locs@ + locs.take(k as int),
                texts_view(self.lines@) == texts_view(old(self).lines@) + texts_view(lines@).take(
                    lines@.len() as int,
                ),
            decreases g.rows@.len() - k,
        {
            self.locs.push(g.rows[k].loc);
            k += 1;
            assert(self.locs@ =~= old(self).locs@ + locs.take(k as int));
        }
        assert(self@ =~= old(self)@.append(m, g@));
    }
}

/// Writes assembly at module level, verbatim.
pub fn write_asm_entries(out: &mut Output, m: &Module)
    ensures
        final(out)@ == asm_entries(old(out)@, m.module_asm@, 0),
{
    let mut i: usize = 0;
    while i < m.module_asm.len()
        invariant
            i <= m.module_asm@.len(),
            asm_entries(old(out)@, m.module_asm@, 0) == asm_entries(
                out@,
                m.module_asm@,
                i as int,
            ),
        decreases m.module_asm@.len() - i,
    {
        let ls = lines_of(m.module_asm[i].as_str());
        let ghost here = out@;
        let mut k: usize = 0;
        while k < ls.len()
            invariant
                k <= ls@.len(),
                text_lines(here, texts_view(ls@), 0) == text_lines(
                    out@,
                    texts_view(ls@),
                    k as int,
                ),
            decreases ls@.len() - k,
        {
            out.line(ls[k].as_str());
            k += 1;
        }
        i += 1;
    }
}

/// Writes assembly at module level under its comment.
pub fn write_module_asm(out: &mut Output, m: &Module)
    ensures
        final(out)@ == module_asm(old(out)@, m),
{
    if m.module_asm.len() > 0 {
        out.line("; module asm");
        write_asm_entries(out, m);
    }
}

} // verus!
