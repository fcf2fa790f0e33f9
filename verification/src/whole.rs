//! What stands in a program.
use vstd::prelude::*;
use crate::ir::Module;
use crate::output::{asm_entries, joined, module_asm, text_lines, Listing};
use crate::text::split_lines;

verus! {

/// Whether `run` stands in `ls`, line behind line.
pub open spec fn holds_run(ls: Seq<Seq<char>>, run: Seq<Seq<char>>) -> bool {
    exists|i: int|
        0 <= i && i + run.len() <= ls.len() && #[trigger] ls.subrange(i, i + run.len()) == run
}

/// Whether `run` stands in a text, line behind line.
pub open spec fn text_holds(t: Seq<char>, run: Seq<Seq<char>>) -> bool {
    exists|ls: Seq<Seq<char>>| #[trigger] holds_run(ls, run) && t == joined(ls, ls.len() as int)
}

/// What stands in a list of lines stands in it with more behind.
pub proof fn lemma_more(a: Seq<Seq<char>>, b: Seq<Seq<char>>, run: Seq<Seq<char>>)
    requires
        holds_run(a, run),
    ensures
        holds_run(a + b, run),
{
    let i = choose|i: int|
        0 <= i && i + run.len() <= a.len() && #[trigger] a.subrange(i, i + run.len()) == run;
    assert((a + b).subrange(i, i + run.len()) =~= a.subrange(i, i + run.len()));
}

/// What is put behind a list of lines stands in it.
pub proof fn lemma_last(a: Seq<Seq<char>>, run: Seq<Seq<char>>)
    ensures
        holds_run(a + run, run),
{
    assert((a + run).subrange(a.len() as int, a.len() as int + run.len()) =~= run);
}

proof fn lemma_text_lines(out: Listing, ls: Seq<Seq<char>>, i: int)
    requires
        0 <= i <= ls.len(),
    ensures
        text_lines(out, ls, i).lines == out.lines + ls.skip(i),
    decreases ls.len() - i,
{
    if i < ls.len() {
        lemma_text_lines(out.line(ls[i]), ls, i + 1);
        assert(out.lines.push(ls[i]) + ls.skip(i + 1) =~= out.lines + ls.skip(i));
    } else {
        assert(out.lines + ls.skip(i) =~= out.lines);
    }
}

/// What stands before the assembly stands behind it too, and so does each entry.
proof fn lemma_entries(out: Listing, entries: Seq<String>, i: int, e: int, run: Seq<Seq<char>>)
    requires
        0 <= i,
        holds_run(out.lines, run) || i <= e < entries.len() && run == split_lines(entries[e]@),
    ensures
        holds_run(asm_entries(out, entries, i).lines, run),
    decreases entries.len() - i,
{
    if i < entries.len() {
        let ls = split_lines(entries[i]@);
        let next = text_lines(out, ls, 0);
        lemma_text_lines(out, ls, 0);
        assert(ls.skip(0) =~= ls);
        if holds_run(out.lines, run) {
            lemma_more(out.lines, ls, run);
        } else if e == i {
            lemma_last(out.lines, ls);
        }
        lemma_entries(next, entries, i + 1, e, run);
    }
}

/// Each entry of assembly at module level stands in the program, line behind line, as it
/// was written, with nothing before it lost.
pub proof fn law_assembly_stands_as_written(out: Listing, m: &Module, e: int, run: Seq<Seq<char>>)
    requires
        0 <= e < m.module_asm@.len(),
    ensures
        holds_run(module_asm(out, m).lines, split_lines(m.module_asm@[e]@)),
        holds_run(out.lines, run) ==> holds_run(module_asm(out, m).lines, run),
{
    let first = out.line("; module asm"@);
    lemma_entries(first, m.module_asm@, 0, e, split_lines(m.module_asm@[e]@));
    if holds_run(out.lines, run) {
        lemma_more(out.lines, seq!["; module asm"@], run);
        assert(first.lines =~= out.lines + seq!["; module asm"@]);
        lemma_entries(first, m.module_asm@, 0, e, run);
    }
}

} // verus!
