//! The whole program.
use vstd::prelude::*;
use crate::consts::{byte_imm, in_ram, init_words};
use crate::device::Device;
use crate::emit::{movwf, Row, St};
use crate::error::IselError;
use crate::ir::{Module, SrcLoc};
use crate::line::{sym_text, Imm, Line, LitOp, Sym};
use crate::output::{module_asm, row_lines};
use crate::pic14e::layout::{pack_from, pages_from, sizes_in, Pack};
use crate::pic14e::select::{
    finished, first_free, func_lines, gives, handlers, header, init_bytes, init_from, is_arranged, is_finished, is_laid_out,
    is_selected, last_page, listed_funcs, listed_readers, measured, order,
    page_from, pages_up, passed, picked, placed, planned, start_lines, stand_ins,
    vector, with_readers, written, Arranged, Inputs, Plan, Progress,
};
use crate::pic14e::{page_in, to_pclath, PageList};
use crate::text::hex4_text;
use crate::whole::{holds_run, lemma_more, text_holds};

verus! {

/// Whether a pass makes one text of one text.
pub open spec fn steady<F: Fn(&str) -> String>(pass: F) -> bool {
    forall|s: &str, t: &str, a: String, b: String|
        s@ == t@ && #[trigger] call_ensures(pass, (s,), a) && #[trigger] call_ensures(pass, (t,), b)
            ==> a@ == b@
}

/// Whether two outcomes are the same program, line for line and location for
/// location, or the same error.
pub open spec fn same_outcome(
    a: Result<(String, Vec<Option<SrcLoc>>), IselError>,
    b: Result<(String, Vec<Option<SrcLoc>>), IselError>,
) -> bool {
    match (a, b) {
        (Ok(p), Ok(q)) => p.0@ == q.0@ && p.1@ == q.1@,
        (Err(e), Err(f)) => e == f,
        _ => false,
    }
}

proof fn lemma_passed<F: Fn(&str) -> String>(pass: F, t: Seq<char>, a: String, b: String)
    requires
        steady(pass),
        passed(pass, t, a),
        passed(pass, t, b),
    ensures
        a@ == b@,
{
    let s = choose|s: &str| s@ == t && #[trigger] call_ensures(pass, (s,), a);
    let u = choose|s: &str| s@ == t && #[trigger] call_ensures(pass, (s,), b);
    assert(s@ == u@);
}

proof fn lemma_finished<B: Fn(&str) -> String, P: Fn(&str) -> String>(
    x: Inputs,
    bank: B,
    optimize: P,
    l: Arranged,
    a: Result<(String, Vec<Option<SrcLoc>>), IselError>,
    b: Result<(String, Vec<Option<SrcLoc>>), IselError>,
)
    requires
        steady(bank),
        steady(optimize),
        is_finished(x, bank, optimize, l, a),
        is_finished(x, bank, optimize, l, b),
    ensures
        same_outcome(a, b),
{
    if l.consts.len() > 0 {
        let t = stand_ins(l.out, x.m, l.consts, 0).text();
        let (s1, h1) = choose|s: String, h: String| #[trigger]
            passed(bank, t, s) && #[trigger] passed(optimize, s@, h) && gives(finished(x, l, h@), a);
        let (s2, h2) = choose|s: String, h: String| #[trigger]
            passed(bank, t, s) && #[trigger] passed(optimize, s@, h) && gives(finished(x, l, h@), b);
        lemma_passed(bank, t, s1, s2);
        lemma_passed(optimize, s1@, h1, h2);
    }
}

proof fn lemma_laid_out<B: Fn(&str) -> String, P: Fn(&str) -> String>(
    x: Inputs,
    bank: B,
    optimize: P,
    banked: Seq<char>,
    a: Result<(String, Vec<Option<SrcLoc>>), IselError>,
    b: Result<(String, Vec<Option<SrcLoc>>), IselError>,
)
    requires
        steady(bank),
        steady(optimize),
        is_laid_out(x, bank, optimize, banked, a),
        is_laid_out(x, bank, optimize, banked, b),
    ensures
        same_outcome(a, b),
{
    if let Ok(p) = planned(x, banked) {
        let l = choose|l| #[trigger]
            is_arranged(x, p, l) && match l {
                Err(e) => a matches Err(f) && f == e,
                Ok(l) => is_finished(x, bank, optimize, l@, a),
            };
        let k = choose|l| #[trigger]
            is_arranged(x, p, l) && match l {
                Err(e) => b matches Err(f) && f == e,
                Ok(l) => is_finished(x, bank, optimize, l@, b),
            };
        if written(x, p).err is None {
            assert(l->Ok_0@ == k->Ok_0@);
            lemma_finished(x, bank, optimize, l->Ok_0@, a, b);
        }
    }
}

/// Equal inputs give equal programs, whenever each pass makes one text of one
/// text.
pub proof fn law_equal_inputs_give_equal_programs<
    B: Fn(&str) -> String,
    P: Fn(&str) -> String,
>(
    x: Inputs,
    bank: B,
    optimize: P,
    a: Result<(String, Vec<Option<SrcLoc>>), IselError>,
    b: Result<(String, Vec<Option<SrcLoc>>), IselError>,
)
    requires
        steady(bank),
        steady(optimize),
        is_selected(x, bank, optimize, a),
        is_selected(x, bank, optimize, b),
    ensures
        same_outcome(a, b),
{
    if let Ok(p) = measured(x) {
        let t = p.text();
        let s = choose|s: String| #[trigger]
            passed(bank, t, s) && is_laid_out(x, bank, optimize, s@, a);
        let u = choose|s: String| #[trigger]
            passed(bank, t, s) && is_laid_out(x, bank, optimize, s@, b);
        lemma_passed(bank, t, s, u);
        lemma_laid_out(x, bank, optimize, s@, a, b);
    }
}

/// What `pages` knows of a label.
pub open spec fn known(pages: Map<Seq<char>, usize>, name: Seq<char>) -> Option<usize> {
    if pages.dom().contains(name) {
        Some(pages[name])
    } else {
        None
    }
}

proof fn lemma_listed_funcs(m: &Module, pages: Map<Seq<char>, usize>, n: int, name: Seq<char>)
    requires
        0 <= n <= m.funcs@.len(),
    ensures
        page_in(m, &listed_funcs(m, pages, n), name) == (if exists|i: int|
            0 <= i < n && #[trigger] m.funcs@[i].name@ == name {
            known(pages, name)
        } else {
            None
        }),
    decreases n,
{
    if n > 0 {
        lemma_listed_funcs(m, pages, n - 1, name);
        assert(m.funcs.len() == m.funcs@.len());
        assert(sym_text(m, Sym::Func((n - 1) as usize)) == m.funcs@[n - 1].name@);
        if m.funcs@[n - 1].name@ != name {
            if exists|i: int| 0 <= i < n && #[trigger] m.funcs@[i].name@ == name {
                let i = choose|i: int| 0 <= i < n && #[trigger] m.funcs@[i].name@ == name;
                assert(0 <= i < n - 1 && m.funcs@[i].name@ == name);
            }
        }
    }
}

proof fn lemma_listed_readers(
    m: &Module,
    pages: Map<Seq<char>, usize>,
    rest: PageList,
    rs: Seq<(Sym, usize)>,
    k: int,
    name: Seq<char>,
)
    requires
        0 <= k <= rs.len(),
        page_in(m, &listed_readers(rest, rs, k), name) == known(pages, name),
    ensures
        page_in(m, &listed_readers(rest, rs, rs.len() as int), name) == known(
            with_readers(m, pages, rs, k),
            name,
        ),
    decreases rs.len() - k,
{
    if k < rs.len() {
        let next = pages.insert(sym_text(m, rs[k].0), rs[k].1);
        assert(page_in(m, &listed_readers(rest, rs, k + 1), name) == known(next, name));
        lemma_listed_readers(m, next, rest, rs, k + 1, name);
    }
}

proof fn lemma_packed_names(
    device: &Device,
    m: &Module,
    ord: Seq<usize>,
    sizes: Map<Seq<char>, usize>,
    handler: Option<Seq<char>>,
    init: nat,
    p: Pack,
    k: int,
    name: Seq<char>,
)
    requires
        0 <= k <= ord.len(),
        forall|j: int| 0 <= j < ord.len() ==> (#[trigger] ord[j]) < m.funcs@.len(),
        pack_from(device, m, ord, sizes, handler, init, p, k) is Ok,
        pack_from(device, m, ord, sizes, handler, init, p, k)->Ok_0.pages.dom().contains(name),
    ensures
        p.pages.dom().contains(name) || exists|i: int|
            0 <= i < m.funcs@.len() && #[trigger] m.funcs@[i].name@ == name,
    decreases ord.len() - k,
{
    if k < ord.len() {
        let n = m.funcs@[ord[k] as int].name@;
        let q = if handler == Some(n) {
            p.place_handler(n, sizes[n], init)
        } else {
            p.place(device, n, sizes[n])
        };
        lemma_packed_names(device, m, ord, sizes, handler, init, q->Ok_0, k + 1, name);
    }
}

proof fn lemma_picked(m: &Module, isr: bool, n: int)
    requires
        0 <= n <= m.funcs@.len() <= usize::MAX,
    ensures
        forall|k: int|
            0 <= k < picked(m, isr, n).len() ==> (#[trigger] picked(m, isr, n)[k]) < n
                && m.funcs@[picked(m, isr, n)[k] as int].isr == isr,
    decreases n,
{
    if n > 0 {
        lemma_picked(m, isr, n - 1);
        let before = picked(m, isr, n - 1);
        assert forall|k: int| 0 <= k < picked(m, isr, n).len() implies (#[trigger] picked(m, isr, n)[k])
            < n && m.funcs@[picked(m, isr, n)[k] as int].isr == isr by {
            if k < before.len() {
                assert(picked(m, isr, n)[k] == before[k]);
            }
        }
    }
}

proof fn lemma_order(m: &Module)
    ensures
        forall|k: int| 0 <= k < order(m).len() ==> (#[trigger] order(m)[k]) < m.funcs@.len(),
{
    assert(m.funcs.len() == m.funcs@.len());
    lemma_picked(m, true, m.funcs@.len() as int);
    lemma_picked(m, false, m.funcs@.len() as int);
}

/// The pages that the calls look up are those of the plan.
pub proof fn law_calls_look_up_the_planned_pages(x: Inputs, banked: Seq<char>, name: Seq<char>)
    requires
        planned(x, banked) is Ok,
    ensures
        page_in(x.m, &planned(x, banked)->Ok_0.calls, name) == known(
            planned(x, banked)->Ok_0.pages,
            name,
        ),
{
    let p = planned(x, banked)->Ok_0;
    let rs = pages_from(x.m, p.consts, p.pack.next.last() as nat, 0)->0;
    let n = x.m.funcs@.len() as int;
    let funcs = listed_funcs(x.m, p.pack.pages, n);
    lemma_order(x.m);
    lemma_listed_funcs(x.m, p.pack.pages, n, name);
    if p.pack.pages.dom().contains(name) {
        let empty = Pack {
            next: seq![first_free(x) as usize],
            pages: Map::empty(),
            pads: Map::empty(),
        };
        let sizes = sizes_in(x.m, banked)->0;
        let init = init_words(x.m, x.addrs, x.m.globals@.len() as int);
        lemma_packed_names(x.device, x.m, order(x.m), sizes, vector(x.m), init, empty, 0, name);
    }
    lemma_listed_readers(x.m, p.pack.pages, funcs, rs, 0, name);
}

proof fn lemma_with_start(x: Inputs, acc: Progress)
    ensures
        holds_run(acc.with_start(x).out.lines, row_lines(x.m, start_lines(x))),
{
    let run = row_lines(x.m, start_lines(x));
    let ls = acc.out.lines;
    assert((ls + run).subrange(ls.len() as int, ls.len() as int + run.len()) =~= run);
}

proof fn lemma_placed(
    x: Inputs,
    common: u16,
    calls: &PageList,
    pads: Map<Seq<char>, usize>,
    acc: Progress,
    fi: usize,
    run: Seq<Seq<char>>,
)
    requires
        holds_run(acc.out.lines, run),
    ensures
        holds_run(placed(x, common, calls, pads, acc, fi).out.lines, run),
{
    let p = placed(x, common, calls, pads, acc, fi);
    let n = acc.out.lines.len() as int;
    lemma_more(acc.out.lines, p.out.lines.skip(n), run);
    assert(acc.out.lines + p.out.lines.skip(n) =~= p.out.lines);
}

pub(crate) proof fn lemma_page(
    x: Inputs,
    common: u16,
    pages: Map<Seq<char>, usize>,
    calls: &PageList,
    pads: Map<Seq<char>, usize>,
    acc: Progress,
    p: int,
    k: int,
    run: Seq<Seq<char>>,
)
    requires
        0 <= k,
    ensures
        acc.err is Some ==> page_from(x, common, pages, calls, pads, acc, p, k) == acc,
        holds_run(acc.out.lines, run) ==> holds_run(
            page_from(x, common, pages, calls, pads, acc, p, k).out.lines,
            run,
        ),
    decreases order(x.m).len() - k,
{
    if k < order(x.m).len() && acc.err is None {
        let fi = order(x.m)[k];
        let next = if pages[x.m.funcs@[fi as int].name@] == p {
            placed(x, common, calls, pads, acc, fi)
        } else {
            acc
        };
        if holds_run(acc.out.lines, run) {
            lemma_placed(x, common, calls, pads, acc, fi, run);
        }
        lemma_page(x, common, pages, calls, pads, next, p, k + 1, run);
    }
}

/// The reset code stands behind a handler.
proof fn lemma_handler(
    x: Inputs,
    common: u16,
    calls: &PageList,
    pads: Map<Seq<char>, usize>,
    acc: Progress,
    fi: usize,
)
    requires
        x.m.funcs@[fi as int].isr,
        placed(x, common, calls, pads, acc, fi).err is None,
    ensures
        holds_run(
            placed(x, common, calls, pads, acc, fi).out.lines,
            row_lines(x.m, start_lines(x)),
        ),
{
    let f = x.m.funcs@[fi as int];
    let st = func_lines(x, common, Some(calls), acc.next, fi);
    let out = if pads.dom().contains(f.name@) {
        acc.out.line("    org 0x"@ + hex4_text(pads[f.name@] as nat))
    } else {
        acc.out
    };
    lemma_with_start(x, Progress { out, ..acc }.with_func(x, st));
}

/// What stands in the program so far stands in it with more pages; and the
/// handler's page brings the reset code.
proof fn lemma_pages(
    x: Inputs,
    common: u16,
    pages: Map<Seq<char>, usize>,
    calls: &PageList,
    pads: Map<Seq<char>, usize>,
    acc: Progress,
    last: int,
    p: int,
)
    requires
        vector(x.m) is None || p <= pages[vector(x.m)->0] <= last || holds_run(
            acc.out.lines,
            row_lines(x.m, start_lines(x)),
        ),
        vector(x.m) is None ==> holds_run(acc.out.lines, row_lines(x.m, start_lines(x))),
        pages_up(x, common, pages, calls, pads, acc, last, p).err is None,
    ensures
        acc.err is None,
        holds_run(
            pages_up(x, common, pages, calls, pads, acc, last, p).out.lines,
            row_lines(x.m, start_lines(x)),
        ),
    decreases last + 1 - p,
{
    let run = row_lines(x.m, start_lines(x));
    if p <= last {
        let next = page_from(x, common, pages, calls, pads, acc, p, 0);
        lemma_page(x, common, pages, calls, pads, acc, p, 0, run);
        if acc.err is Some {
            lemma_stuck(x, common, pages, calls, pads, acc, last, p);
        }
        if next.err is Some {
            lemma_stuck(x, common, pages, calls, pads, next, last, p + 1);
        }
        if vector(x.m) is Some && pages[vector(x.m)->0] == p {
            let fi = order(x.m)[0];
            assert(x.m.funcs.len() == x.m.funcs@.len());
            lemma_picked(x.m, true, x.m.funcs@.len() as int);
            assert(handlers(x.m)[0] == fi);
            assert(x.m.funcs@[fi as int].isr);
            let first = placed(x, common, calls, pads, acc, fi);
            lemma_page(x, common, pages, calls, pads, first, p, 1, run);
            assert(next == page_from(x, common, pages, calls, pads, first, p, 1));
            lemma_handler(x, common, calls, pads, acc, fi);
        }
        lemma_pages(x, common, pages, calls, pads, next, last, p + 1);
    }
}

pub(crate) proof fn lemma_stuck(
    x: Inputs,
    common: u16,
    pages: Map<Seq<char>, usize>,
    calls: &PageList,
    pads: Map<Seq<char>, usize>,
    acc: Progress,
    last: int,
    p: int,
)
    requires
        acc.err is Some,
    ensures
        pages_up(x, common, pages, calls, pads, acc, last, p) == acc,
    decreases last + 1 - p,
{
    if p <= last {
        lemma_page(x, common, pages, calls, pads, acc, p, 0, Seq::empty());
        lemma_stuck(x, common, pages, calls, pads, acc, last, p + 1);
    }
}

pub(crate) proof fn lemma_last_page(m: &Module, pages: Map<Seq<char>, usize>, k: int, i: int)
    requires
        0 <= i < k,
    ensures
        pages[m.funcs@[order(m)[i] as int].name@] <= last_page(m, pages, k),
    decreases k,
{
    if i < k - 1 {
        lemma_last_page(m, pages, k - 1, i);
    }
}

proof fn lemma_written(x: Inputs, p: Plan)
    requires
        written(x, p).err is None,
    ensures
        holds_run(written(x, p).out.lines, row_lines(x.m, start_lines(x))),
{
    let acc = Progress { out: module_asm(header(x.device), x.m), next: 0, err: None };
    let n = order(x.m).len() as int;
    let last = last_page(x.m, p.pages, n);
    if vector(x.m) is None {
        lemma_with_start(x, acc);
        lemma_pages(x, p.common, p.pages, &p.calls, p.pack.pads, acc.with_start(x), last as int, 0);
    } else {
        assert(order(x.m)[0] == handlers(x.m)[0]);
        lemma_last_page(x.m, p.pages, n, 0);
        lemma_pages(x, p.common, p.pages, &p.calls, p.pack.pads, acc, last as int, 0);
    }
}

pub(crate) proof fn lemma_whole(x: Inputs, a: Arranged, shown: Seq<char>, run: Seq<Seq<char>>)
    requires
        holds_run(a.out.lines, run),
        finished(x, a, shown) is Ok,
    ensures
        holds_run(finished(x, a, shown)->Ok_0.lines, run),
{
    let q = finished(x, a, shown)->Ok_0;
    let n = a.out.lines.len() as int;
    assert(a.out.lines + q.lines.skip(n) =~= q.lines);
    lemma_more(a.out.lines, q.lines.skip(n), run);
}

/// The reset code stands in the program, line behind line, whether or not the
/// module has a handler.
pub proof fn law_program_holds_its_reset_code<B: Fn(&str) -> String, P: Fn(&str) -> String>(
    x: Inputs,
    bank: B,
    optimize: P,
    r: Result<(String, Vec<Option<SrcLoc>>), IselError>,
)
    requires
        is_selected(x, bank, optimize, r),
        r is Ok,
    ensures
        text_holds(r->Ok_0.0@, row_lines(x.m, start_lines(x))),
{
    let run = row_lines(x.m, start_lines(x));
    let t = measured(x)->Ok_0.text();
    let banked = choose|s: String| #[trigger]
        passed(bank, t, s) && is_laid_out(x, bank, optimize, s@, r);
    let p = planned(x, banked@)->Ok_0;
    let l = choose|l| #[trigger]
        is_arranged(x, p, l) && match l {
            Err(e) => r matches Err(f) && f == e,
            Ok(l) => is_finished(x, bank, optimize, l@, r),
        };
    let a = l->Ok_0@;
    lemma_written(x, p);
    let shown = if a.consts.len() == 0 {
        ""@
    } else {
        let s = stand_ins(a.out, x.m, a.consts, 0).text();
        let (second, shown) = choose|second: String, h: String| #[trigger]
            passed(bank, s, second) && #[trigger] passed(optimize, second@, h) && gives(
                finished(x, a, h@),
                r,
            );
        shown@
    };
    lemma_whole(x, a, shown, run);
    assert(holds_run(finished(x, a, shown)->Ok_0.lines, run));
}

/// Whether `rows` starts with the rows of `st`.
spec fn grows(st: St, rows: Seq<Row>) -> bool {
    st.rows.len() <= rows.len() && rows.take(st.rows.len() as int) == st.rows
}

proof fn lemma_init_bytes(x: Inputs, st: St, gi: usize, base: u16, i: int, j: int)
    requires
        0 <= i,
    ensures
        grows(st, init_bytes(x, st, gi, base, i).rows),
        i <= j < x.m.globals@[gi as int].bytes@.len() ==> puts_byte(
            x,
            init_bytes(x, st, gi, base, i).rows,
            gi,
            base,
            j,
        ),
    decreases x.m.globals@[gi as int].bytes@.len() - i,
{
    let out = init_bytes(x, st, gi, base, i);
    if i < x.m.globals@[gi as int].bytes@.len() {
        let s = st.emit(Line::Lit(LitOp::Movlw, byte_imm(x.m, x.addrs, gi, i)));
        let t = s.emit(movwf((base as u32).wrapping_add(i as u32)));
        lemma_init_bytes(x, t, gi, base, i + 1, j);
        assert(out.rows.take(st.rows.len() as int) =~= t.rows.take(st.rows.len() as int));
        assert(t.rows.take(st.rows.len() as int) =~= st.rows);
        if i == j {
            let n = st.rows.len() as int;
            assert(out.rows[n] == out.rows.take(t.rows.len() as int)[n]);
            assert(out.rows[n + 1] == out.rows.take(t.rows.len() as int)[n + 1]);
            assert(puts_at(x, out.rows, gi, base, j, n));
        }
    } else {
        assert(out.rows.take(st.rows.len() as int) =~= st.rows);
    }
}

/// Whether the two rows at `n` put byte `j` of a constant in its place.
pub open spec fn puts_at(x: Inputs, rows: Seq<Row>, gi: usize, base: u16, j: int, n: int) -> bool {
    &&& 0 <= n < rows.len() - 1
    &&& rows[n].line == Line::Lit(LitOp::Movlw, byte_imm(x.m, x.addrs, gi, j))
    &&& rows[n + 1].line == movwf((base as u32).wrapping_add(j as u32))
}

/// Whether two rows put byte `j` of a constant in its place.
pub open spec fn puts_byte(x: Inputs, rows: Seq<Row>, gi: usize, base: u16, j: int) -> bool {
    exists|n: int| puts_at(x, rows, gi, base, j, n)
}

proof fn lemma_init(x: Inputs, st: St, k: int, gi: usize, j: int)
    requires
        0 <= k,
    ensures
        grows(st, init_from(x, st, k).rows),
        k <= gi < x.m.globals@.len() && in_ram(x.m, x.addrs, gi as int) && 0 <= j
            < x.m.globals@[gi as int].bytes@.len() ==> puts_byte(
            x,
            init_from(x, st, k).rows,
            gi,
            x.addrs@[x.m.globals@[gi as int].name@],
            j,
        ),
    decreases x.m.globals@.len() - k,
{
    assert(x.m.globals.len() == x.m.globals@.len());
    let out = init_from(x, st, k);
    assert(st.rows.take(st.rows.len() as int) =~= st.rows);
    if k < x.m.globals@.len() {
        let base = x.addrs@[x.m.globals@[k].name@];
        let next = if in_ram(x.m, x.addrs, k) {
            init_bytes(x, st, k as usize, base, 0)
        } else {
            st
        };
        lemma_init_bytes(x, st, k as usize, base, 0, j);
        lemma_init(x, next, k + 1, gi, j);
        assert(out.rows.take(st.rows.len() as int) =~= next.rows.take(st.rows.len() as int));
        if k == gi && in_ram(x.m, x.addrs, k) && 0 <= j < x.m.globals@[k].bytes@.len() {
            let n = choose|n: int| puts_at(x, next.rows, gi, base, j, n);
            assert(out.rows[n] == out.rows.take(next.rows.len() as int)[n]);
            assert(out.rows[n + 1] == out.rows.take(next.rows.len() as int)[n + 1]);
            assert(puts_at(x, out.rows, gi, base, j, n));
        }
    }
}

/// The reset code puts every byte of a constant in RAM in its place: a number,
/// or the low or high byte of a label.
pub proof fn law_reset_code_puts_every_byte(x: Inputs, gi: usize, j: int)
    requires
        gi < x.m.globals@.len(),
        in_ram(x.m, x.addrs, gi as int),
        0 <= j < x.m.globals@[gi as int].bytes@.len(),
    ensures
        puts_byte(x, start_lines(x).rows, gi, x.addrs@[x.m.globals@[gi as int].name@], j),
{
    let st = St::start(0).emit(Line::Label(Sym::Start)).emit(
        Line::Lit(LitOp::Movlw, Imm::Page(Sym::Main)),
    ).emit(to_pclath());
    lemma_init(x, st, 0, gi, j);
    let rows = init_from(x, st, 0).rows;
    let base = x.addrs@[x.m.globals@[gi as int].name@];
    let n = choose|n: int| puts_at(x, rows, gi, base, j, n);
    assert(puts_at(x, start_lines(x).rows, gi, base, j, n));
}

} // verus!
