//! What stands in a whole program: every function, and the assembly at module level.
use vstd::prelude::*;
use crate::error::IselError;
use crate::ir::SrcLoc;
use crate::output::{module_asm, row_lines};
use crate::pic14e::laws::parts::law_every_function_is_written_once;
use crate::pic14e::laws::program::{lemma_last_page, lemma_page, lemma_stuck, lemma_whole};
use crate::pic14e::select::{
    common_base, finished, func_lines, gives, header, is_arranged, is_finished, is_laid_out,
    is_selected, last_page, measured, order, page_from, pages_up, passed, placed, planned,
    stand_ins, start_lines, vector, written, Arranged, Inputs, Plan, Progress,
};
use crate::pic14e::PageList;
use crate::text::{hex4_text, split_lines};
use crate::whole::{holds_run, law_assembly_stands_as_written, lemma_last, lemma_more, text_holds};

verus! {

/// Whether the code of function number `fi` stands in `ls`, line behind line.
pub open spec fn func_stands(
    x: Inputs,
    common: u16,
    calls: &PageList,
    fi: usize,
    ls: Seq<Seq<char>>,
) -> bool {
    exists|next: u32| #[trigger]
        holds_run(ls, row_lines(x.m, func_lines(x, common, Some(calls), next, fi)))
}

proof fn lemma_func(
    x: Inputs,
    common: u16,
    calls: &PageList,
    pads: Map<Seq<char>, usize>,
    acc: Progress,
    fi: usize,
)
    ensures
        func_stands(x, common, calls, fi, placed(x, common, calls, pads, acc, fi).out.lines),
{
    let f = x.m.funcs@[fi as int];
    let st = func_lines(x, common, Some(calls), acc.next, fi);
    let out = if pads.dom().contains(f.name@) {
        acc.out.line("    org 0x"@ + hex4_text(pads[f.name@] as nat))
    } else {
        acc.out
    };
    let run = row_lines(x.m, st);
    lemma_last(out.lines, run);
    lemma_more(out.lines + run, row_lines(x.m, start_lines(x)), run);
    assert(holds_run(
        placed(x, common, calls, pads, acc, fi).out.lines,
        row_lines(x.m, func_lines(x, common, Some(calls), acc.next, fi)),
    ));
}

/// A page holds its functions.
proof fn lemma_on_page(
    x: Inputs,
    common: u16,
    pages: Map<Seq<char>, usize>,
    calls: &PageList,
    pads: Map<Seq<char>, usize>,
    acc: Progress,
    p: int,
    k: int,
    i: int,
)
    requires
        0 <= k <= i < order(x.m).len(),
        pages[x.m.funcs@[order(x.m)[i] as int].name@] == p,
        page_from(x, common, pages, calls, pads, acc, p, k).err is None,
    ensures
        func_stands(
            x,
            common,
            calls,
            order(x.m)[i],
            page_from(x, common, pages, calls, pads, acc, p, k).out.lines,
        ),
    decreases i - k,
{
    let fi = order(x.m)[k];
    let next = if pages[x.m.funcs@[fi as int].name@] == p {
        placed(x, common, calls, pads, acc, fi)
    } else {
        acc
    };
    assert(acc.err is None);
    assert(page_from(x, common, pages, calls, pads, acc, p, k) == page_from(
        x,
        common,
        pages,
        calls,
        pads,
        next,
        p,
        k + 1,
    ));
    if k < i {
        if next.err is Some {
            lemma_page(x, common, pages, calls, pads, next, p, k + 1, Seq::empty());
        }
        lemma_on_page(x, common, pages, calls, pads, next, p, k + 1, i);
    } else {
        lemma_func(x, common, calls, pads, acc, fi);
        let n = choose|n: u32| #[trigger]
            holds_run(next.out.lines, row_lines(x.m, func_lines(x, common, Some(calls), n, fi)));
        let run = row_lines(x.m, func_lines(x, common, Some(calls), n, fi));
        lemma_page(x, common, pages, calls, pads, next, p, k + 1, run);
    }
}

/// What stands in the program so far stands in it with more pages.
proof fn lemma_pages_keep(
    x: Inputs,
    common: u16,
    pages: Map<Seq<char>, usize>,
    calls: &PageList,
    pads: Map<Seq<char>, usize>,
    acc: Progress,
    last: int,
    p: int,
    run: Seq<Seq<char>>,
)
    requires
        holds_run(acc.out.lines, run),
    ensures
        holds_run(pages_up(x, common, pages, calls, pads, acc, last, p).out.lines, run),
    decreases last + 1 - p,
{
    if p <= last {
        lemma_page(x, common, pages, calls, pads, acc, p, 0, run);
        let next = page_from(x, common, pages, calls, pads, acc, p, 0);
        lemma_pages_keep(x, common, pages, calls, pads, next, last, p + 1, run);
    }
}

/// The pages hold their functions.
proof fn lemma_on_pages(
    x: Inputs,
    common: u16,
    pages: Map<Seq<char>, usize>,
    calls: &PageList,
    pads: Map<Seq<char>, usize>,
    acc: Progress,
    last: int,
    p: int,
    i: int,
)
    requires
        0 <= i < order(x.m).len(),
        p <= pages[x.m.funcs@[order(x.m)[i] as int].name@] <= last,
        pages_up(x, common, pages, calls, pads, acc, last, p).err is None,
    ensures
        func_stands(
            x,
            common,
            calls,
            order(x.m)[i],
            pages_up(x, common, pages, calls, pads, acc, last, p).out.lines,
        ),
    decreases last + 1 - p,
{
    let next = page_from(x, common, pages, calls, pads, acc, p, 0);
    if next.err is Some {
        lemma_stuck(x, common, pages, calls, pads, next, last, p + 1);
    }
    if pages[x.m.funcs@[order(x.m)[i] as int].name@] == p {
        lemma_on_page(x, common, pages, calls, pads, acc, p, 0, i);
        let fi = order(x.m)[i];
        let n = choose|n: u32| #[trigger]
            holds_run(next.out.lines, row_lines(x.m, func_lines(x, common, Some(calls), n, fi)));
        let run = row_lines(x.m, func_lines(x, common, Some(calls), n, fi));
        lemma_pages_keep(x, common, pages, calls, pads, next, last, p + 1, run);
    } else {
        lemma_on_pages(x, common, pages, calls, pads, next, last, p + 1, i);
    }
}

proof fn lemma_written_func(x: Inputs, p: Plan, fi: usize)
    requires
        written(x, p).err is None,
        fi < x.m.funcs@.len(),
    ensures
        func_stands(x, p.common, &p.calls, fi, written(x, p).out.lines),
{
    assert(x.m.funcs.len() == x.m.funcs@.len());
    law_every_function_is_written_once(x.m);
    let n = order(x.m).len() as int;
    assert(order(x.m).contains(fi));
    let i = choose|i: int| 0 <= i < n && order(x.m)[i] == fi;
    let acc = Progress { out: module_asm(header(x.device), x.m), next: 0, err: None };
    let acc = if vector(x.m) is None {
        acc.with_start(x)
    } else {
        acc
    };
    let last = last_page(x.m, p.pages, n);
    lemma_last_page(x.m, p.pages, n, i);
    lemma_on_pages(x, p.common, p.pages, &p.calls, p.pack.pads, acc, last as int, 0, i);
}

proof fn lemma_written_assembly(x: Inputs, p: Plan, e: int)
    requires
        0 <= e < x.m.module_asm@.len(),
    ensures
        holds_run(written(x, p).out.lines, split_lines(x.m.module_asm@[e]@)),
{
    let run = split_lines(x.m.module_asm@[e]@);
    let acc = Progress { out: module_asm(header(x.device), x.m), next: 0, err: None };
    law_assembly_stands_as_written(header(x.device), x.m, e, run);
    lemma_more(acc.out.lines, row_lines(x.m, start_lines(x)), run);
    let acc = if vector(x.m) is None {
        acc.with_start(x)
    } else {
        acc
    };
    let last = last_page(x.m, p.pages, order(x.m).len() as int);
    lemma_pages_keep(x, p.common, p.pages, &p.calls, p.pack.pads, acc, last as int, 0, run);
}

/// The plan of a program that was selected, and what was written for it.
proof fn lemma_selected<B: Fn(&str) -> String, P: Fn(&str) -> String>(
    x: Inputs,
    bank: B,
    optimize: P,
    r: Result<(String, Vec<Option<SrcLoc>>), IselError>,
) -> (out: (Plan, Arranged, Seq<char>))
    requires
        is_selected(x, bank, optimize, r),
        r is Ok,
    ensures
        common_base(x) == Ok::<u16, IselError>(out.0.common),
        written(x, out.0).err is None,
        out.1.out == written(x, out.0).out,
        finished(x, out.1, out.2) is Ok,
        r->Ok_0.0@ == finished(x, out.1, out.2)->Ok_0.text(),
{
    let t = measured(x)->Ok_0.text();
    let banked = choose|s: String| #[trigger]
        passed(bank, t, s) && is_laid_out(x, bank, optimize, s@, r);
    let p = planned(x, banked@)->Ok_0;
    let l = choose|l| #[trigger]
        is_arranged(x, p, l) && match l {
            Err(e) => r matches Err(f) && f == e,
            Ok(l) => is_finished(x, bank, optimize, l@, r),
        };
    let a = l->Ok_0@;
    let shown = if a.consts.len() == 0 {
        ""@
    } else {
        let s = stand_ins(a.out, x.m, a.consts, 0).text();
        let (second, shown) = choose|second: String, h: String| #[trigger]
            passed(bank, s, second) && #[trigger] passed(optimize, second@, h) && gives(
                finished(x, a, h@),
                r,
            );
        shown@
    };
    (p, a, shown)
}

/// The code of every function stands in the program, line behind line, on whatever page
/// it was put.
pub proof fn law_program_holds_every_function<B: Fn(&str) -> String, P: Fn(&str) -> String>(
    x: Inputs,
    bank: B,
    optimize: P,
    r: Result<(String, Vec<Option<SrcLoc>>), IselError>,
    fi: usize,
)
    requires
        is_selected(x, bank, optimize, r),
        r is Ok,
        fi < x.m.funcs@.len(),
    ensures
        common_base(x) is Ok,
        exists|calls: PageList, next: u32| #[trigger]
            text_holds(
                r->Ok_0.0@,
                row_lines(x.m, func_lines(x, common_base(x)->Ok_0, Some(&calls), next, fi)),
            ),
{
    let (p, a, shown) = lemma_selected(x, bank, optimize, r);
    lemma_written_func(x, p, fi);
    let n = choose|n: u32| #[trigger]
        holds_run(
            written(x, p).out.lines,
            row_lines(x.m, func_lines(x, p.common, Some(&p.calls), n, fi)),
        );
    let run = row_lines(x.m, func_lines(x, p.common, Some(&p.calls), n, fi));
    lemma_whole(x, a, shown, run);
    assert(holds_run(finished(x, a, shown)->Ok_0.lines, run));
    assert(text_holds(
        r->Ok_0.0@,
        row_lines(x.m, func_lines(x, common_base(x)->Ok_0, Some(&p.calls), n, fi)),
    ));
}

/// The assembly at module level stands in the program, line behind line, as it was
/// written.
pub proof fn law_program_holds_its_assembly<B: Fn(&str) -> String, P: Fn(&str) -> String>(
    x: Inputs,
    bank: B,
    optimize: P,
    r: Result<(String, Vec<Option<SrcLoc>>), IselError>,
    e: int,
)
    requires
        is_selected(x, bank, optimize, r),
        r is Ok,
        0 <= e < x.m.module_asm@.len(),
    ensures
        text_holds(r->Ok_0.0@, split_lines(x.m.module_asm@[e]@)),
{
    let (p, a, shown) = lemma_selected(x, bank, optimize, r);
    lemma_written_assembly(x, p, e);
    let run = split_lines(x.m.module_asm@[e]@);
    lemma_whole(x, a, shown, run);
    assert(holds_run(finished(x, a, shown)->Ok_0.lines, run));
}

} // verus!
