//! The tables stand where the pages of their readers were noted for.
use vstd::prelude::*;
use crate::consts::byte_imm;
use crate::emit::{movf, movwf, Row, St};
use crate::line::{Imm, Line, LitOp, Reg, Sym};
use crate::machine::is_code;
use crate::output::{asm_entries, module_asm, text_lines, Listing};
use crate::pic14e::layout::{after_table, table_base, table_chunks, READER};
use crate::pic14e::select::{
    chunk_end, chunks_from, data_lines, finished, header, last_page, order, page_from,
    pages_up, placed, reader_lines, readers_from, table_lines, vector, written, Arranged, Inputs,
    Plan, Progress,
};
use crate::pic14e::{to_pclath, PageList};
use crate::text::split_lines;

verus! {

/// The address after a line.
pub open spec fn past(l: Line, a: nat) -> nat {
    if l is Align {
        (a + 255) / 256 * 256
    } else if is_code(l) {
        a + 1
    } else {
        a
    }
}

/// The address before row `n`, where row `from` stands at `a`.
pub open spec fn address(rows: Seq<Row>, from: int, n: int, a: nat) -> nat
    decreases n - from,
{
    if n <= from {
        a
    } else {
        past(rows[n - 1].line, address(rows, from, n - 1, a))
    }
}

/// The address after the last row.
pub open spec fn end_address(st: St, from: int, a: nat) -> nat {
    address(st.rows, from, st.rows.len() as int, a)
}

/// Whether a label stands at `p`.
pub open spec fn stands(st: St, from: int, a: nat, s: Sym, p: nat) -> bool {
    exists|n: int|
        from <= n < st.rows.len() && (#[trigger] st.rows[n]).line == Line::Label(s) && address(
            st.rows,
            from,
            n,
            a,
        ) == p
}

proof fn lemma_address_prefix(rows: Seq<Row>, r: Row, from: int, n: int, a: nat)
    requires
        0 <= from,
        n <= rows.len(),
    ensures
        address(rows.push(r), from, n, a) == address(rows, from, n, a),
    decreases n - from,
{
    if n > from {
        lemma_address_prefix(rows, r, from, n - 1, a);
    }
}

pub(crate) proof fn lemma_emit(st: St, l: Line, from: int, a: nat)
    requires
        0 <= from <= st.rows.len(),
    ensures
        end_address(st.emit(l), from, a) == past(l, end_address(st, from, a)),
        l matches Line::Label(s) ==> stands(st.emit(l), from, a, s, end_address(st, from, a)),
        forall|s: Sym, p: nat|
            stands(st, from, a, s, p) ==> #[trigger] stands(st.emit(l), from, a, s, p),
{
    let r = Row { line: l, loc: None };
    let rows = st.emit(l).rows;
    lemma_address_prefix(st.rows, r, from, st.rows.len() as int, a);
    assert(rows[st.rows.len() as int] == r);
    assert forall|s: Sym, p: nat| stands(st, from, a, s, p) implies #[trigger] stands(
        st.emit(l),
        from,
        a,
        s,
        p,
    ) by {
        let n = choose|n: int|
            from <= n < st.rows.len() && (#[trigger] st.rows[n]).line == Line::Label(s) && address(
                st.rows,
                from,
                n,
                a,
            ) == p;
        lemma_address_prefix(st.rows, r, from, n, a);
        assert(rows[n].line == Line::Label(s));
    }
}

/// Whether `to` goes on after `st`: its labels still stand.
pub open spec fn goes_on(st: St, to: St, from: int, a: nat) -> bool {
    &&& st.rows.len() <= to.rows.len()
    &&& forall|s: Sym, p: nat| stands(st, from, a, s, p) ==> #[trigger] stands(to, from, a, s, p)
}

pub(crate) proof fn lemma_reader(st: St, scratch: u32, gi: usize, c: u32, from: int, a: nat)
    requires
        0 <= from <= st.rows.len(),
    ensures
        ({
            let to = reader_lines(st, scratch, gi, c);
            &&& goes_on(st, to, from, a)
            &&& end_address(to, from, a) == end_address(st, from, a) + READER
            &&& stands(to, from, a, Sym::Reader(gi, c), end_address(st, from, a))
        }),
{
    let s1 = st.emit(Line::Label(Sym::Reader(gi, c)));
    lemma_emit(st, Line::Label(Sym::Reader(gi, c)), from, a);
    let s2 = s1.emit(movwf(scratch));
    lemma_emit(s1, movwf(scratch), from, a);
    let l3 = Line::Lit(LitOp::Movlw, Imm::High(Sym::Chunk(gi, c)));
    let s3 = s2.emit(l3);
    lemma_emit(s2, l3, from, a);
    let l4 = to_pclath();
    let s4 = s3.emit(l4);
    lemma_emit(s3, l4, from, a);
    let s5 = s4.emit(movf(scratch));
    lemma_emit(s4, movf(scratch), from, a);
    let l6 = Line::Lit(LitOp::Addlw, Imm::Low(Sym::Chunk(gi, c)));
    let s6 = s5.emit(l6);
    lemma_emit(s5, l6, from, a);
    lemma_emit(s6, Line::Movwf(Reg::Pcl), from, a);
}

pub(crate) proof fn lemma_data(x: Inputs, st: St, gi: usize, i: int, end: int, from: int, a: nat)
    requires
        0 <= from <= st.rows.len(),
        i <= end,
    ensures
        ({
            let to = data_lines(x, st, gi, i, end);
            goes_on(st, to, from, a) && end_address(to, from, a) == end_address(st, from, a) + (end
                - i)
        }),
    decreases end - i,
{
    if i < end {
        let l = Line::Lit(LitOp::Retlw, byte_imm(x.m, x.addrs, gi, i));
        lemma_emit(st, l, from, a);
        lemma_data(x, st.emit(l), gi, i + 1, end, from, a);
    }
}

pub(crate) proof fn lemma_chunks(x: Inputs, st: St, gi: usize, size: nat, c: nat, base: nat, from: int, a: nat)
    requires
        0 <= from <= st.rows.len(),
        c <= table_chunks(size),
        size <= 65535,
        end_address(st, from, a) == (if c < table_chunks(size) {
            base + 256 * c
        } else {
            base + size
        }),
    ensures
        ({
            let to = chunks_from(x, st, gi, size, c);
            &&& goes_on(st, to, from, a)
            &&& end_address(to, from, a) == base + size
            &&& forall|d: u32|
                c <= d < table_chunks(size) ==> #[trigger] stands(
                    to,
                    from,
                    a,
                    Sym::Chunk(gi, d),
                    base + 256 * d as nat,
                )
        }),
    decreases table_chunks(size) - c,
{
    if c < table_chunks(size) {
        let l = Line::Label(Sym::Chunk(gi, c as u32));
        lemma_emit(st, l, from, a);
        let s1 = st.emit(l);
        let s2 = data_lines(x, s1, gi, 256 * c as int, chunk_end(size, c) as int);
        lemma_data(x, s1, gi, 256 * c as int, chunk_end(size, c) as int, from, a);
        lemma_chunks(x, s2, gi, size, c + 1, base, from, a);
        let to = chunks_from(x, st, gi, size, c);
        assert forall|d: u32| c <= d < table_chunks(size) implies #[trigger] stands(
            to,
            from,
            a,
            Sym::Chunk(gi, d),
            base + 256 * d as nat,
        ) by {
            if d == c {
                assert(stands(s1, from, a, Sym::Chunk(gi, d), base + 256 * d as nat));
                assert(stands(s2, from, a, Sym::Chunk(gi, d), base + 256 * d as nat));
            }
        }
    }
}

proof fn lemma_readers(st: St, scratch: u32, gi: usize, n: nat, c: nat, from: int, a: nat)
    requires
        0 <= from <= st.rows.len(),
        c <= n <= 256,
    ensures
        ({
            let to = readers_from(st, scratch, gi, n, c);
            &&& goes_on(st, to, from, a)
            &&& end_address(to, from, a) == end_address(st, from, a) + READER * (n - c)
            &&& forall|d: u32|
                c <= d < n ==> #[trigger] stands(
                    to,
                    from,
                    a,
                    Sym::Reader(gi, d),
                    (end_address(st, from, a) + READER * (d - c)) as nat,
                )
        }),
    decreases n - c,
{
    if c < n {
        let s1 = reader_lines(st, scratch, gi, c as u32);
        lemma_reader(st, scratch, gi, c as u32, from, a);
        lemma_readers(s1, scratch, gi, n, c + 1, from, a);
        let to = readers_from(st, scratch, gi, n, c);
        assert forall|d: u32| c <= d < n implies #[trigger] stands(
            to,
            from,
            a,
            Sym::Reader(gi, d),
            (end_address(st, from, a) + READER * (d - c)) as nat,
        ) by {
            if d == c {
                assert(stands(s1, from, a, Sym::Reader(gi, d), end_address(st, from, a)));
            } else {
                assert(stands(
                    to,
                    from,
                    a,
                    Sym::Reader(gi, d),
                    (end_address(s1, from, a) + READER * (d - (c + 1))) as nat,
                ));
            }
        }
    }
}

/// A table whose first reader comes out at `addr` has its chunks where they
/// are planned, its other readers behind its data, and ends where the next
/// table is planned.
pub proof fn law_table_stands_where_planned(
    x: Inputs,
    st: St,
    scratch: u32,
    gi: usize,
    from: int,
    a: nat,
)
    requires
        0 <= from <= st.rows.len(),
        gi < x.m.globals@.len(),
        x.m.globals@[gi as int].bytes@.len() <= 65535,
    ensures
        ({
            let addr = end_address(st, from, a);
            let size = x.m.globals@[gi as int].bytes@.len();
            let base = table_base(addr, size);
            let to = table_lines(x, st, scratch, gi, addr);
            &&& goes_on(st, to, from, a)
            &&& end_address(to, from, a) == after_table(addr, size)
            &&& stands(to, from, a, Sym::Reader(gi, 0), addr)
            &&& forall|c: u32|
                c < table_chunks(size) ==> #[trigger] stands(
                    to,
                    from,
                    a,
                    Sym::Chunk(gi, c),
                    base + 256 * c as nat,
                )
            &&& forall|c: u32|
                1 <= c < table_chunks(size) ==> #[trigger] stands(
                    to,
                    from,
                    a,
                    Sym::Reader(gi, c),
                    (base + size + READER * (c - 1)) as nat,
                )
        }),
{
    let addr = end_address(st, from, a);
    let size = x.m.globals@[gi as int].bytes@.len();
    let base = table_base(addr, size);
    let n = table_chunks(size);
    let s1 = reader_lines(st, scratch, gi, 0);
    lemma_reader(st, scratch, gi, 0, from, a);
    let moved = size >= 256 || base != addr + READER;
    let s2 = if moved {
        s1.emit(Line::Align)
    } else {
        s1
    };
    if moved {
        lemma_emit(s1, Line::Align, from, a);
    }
    assert(end_address(s2, from, a) == base);
    let l = Line::Table(gi, size as u32);
    lemma_emit(s2, l, from, a);
    let s3 = s2.emit(l);
    let s4 = chunks_from(x, s3, gi, size, 0);
    lemma_chunks(x, s3, gi, size, 0, base, from, a);
    let s5 = readers_from(s4, scratch, gi, n, 1);
    lemma_readers(s4, scratch, gi, n, 1, from, a);
    lemma_emit(s5, Line::Blank, from, a);
    let to = table_lines(x, st, scratch, gi, addr);
    assert(stands(s1, from, a, Sym::Reader(gi, 0), addr));
    assert(stands(s2, from, a, Sym::Reader(gi, 0), addr));
    assert(stands(s3, from, a, Sym::Reader(gi, 0), addr));
    assert(stands(s4, from, a, Sym::Reader(gi, 0), addr));
    assert(stands(s5, from, a, Sym::Reader(gi, 0), addr));
    assert forall|c: u32| c < n implies #[trigger] stands(
        to,
        from,
        a,
        Sym::Chunk(gi, c),
        base + 256 * c as nat,
    ) by {
        assert(stands(s4, from, a, Sym::Chunk(gi, c), base + 256 * c as nat));
        assert(stands(s5, from, a, Sym::Chunk(gi, c), base + 256 * c as nat));
    }
    assert forall|c: u32| 1 <= c < n implies #[trigger] stands(
        to,
        from,
        a,
        Sym::Reader(gi, c),
        (base + size + READER * (c - 1)) as nat,
    ) by {
        assert(stands(
            s5,
            from,
            a,
            Sym::Reader(gi, c),
            (end_address(s4, from, a) + READER * (c - 1)) as nat,
        ));
    }
}

/// The lines and the locations of a listing stay aligned.
pub proof fn law_lines_keep_locations(out: Listing, t: Seq<char>, m: &crate::ir::Module, st: St)
    requires
        out.aligned(),
    ensures
        out.line(t).aligned(),
        out.append(m, st).aligned(),
{
}

proof fn lemma_text_lines(out: Listing, ls: Seq<Seq<char>>, i: int)
    requires
        out.aligned(),
    ensures
        text_lines(out, ls, i).aligned(),
    decreases ls.len() - i,
{
    if 0 <= i < ls.len() {
        lemma_text_lines(out.line(ls[i]), ls, i + 1);
    }
}

pub(crate) proof fn lemma_entries(out: Listing, entries: Seq<String>, i: int)
    requires
        out.aligned(),
    ensures
        asm_entries(out, entries, i).aligned(),
    decreases entries.len() - i,
{
    if 0 <= i < entries.len() {
        let ls = split_lines(entries[i]@);
        lemma_text_lines(out, ls, 0);
        lemma_entries(text_lines(out, ls, 0), entries, i + 1);
    }
}

proof fn lemma_page(
    x: Inputs,
    common: u16,
    pages: Map<Seq<char>, usize>,
    calls: &PageList,
    pads: Map<Seq<char>, usize>,
    acc: Progress,
    p: int,
    k: int,
)
    requires
        acc.out.aligned(),
    ensures
        page_from(x, common, pages, calls, pads, acc, p, k).out.aligned(),
    decreases order(x.m).len() - k,
{
    if 0 <= k < order(x.m).len() && acc.err is None {
        let fi = order(x.m)[k];
        let next = if pages[x.m.funcs@[fi as int].name@] == p {
            placed(x, common, calls, pads, acc, fi)
        } else {
            acc
        };
        lemma_page(x, common, pages, calls, pads, next, p, k + 1);
    }
}

proof fn lemma_pages(
    x: Inputs,
    common: u16,
    pages: Map<Seq<char>, usize>,
    calls: &PageList,
    pads: Map<Seq<char>, usize>,
    acc: Progress,
    last: int,
    p: int,
)
    requires
        acc.out.aligned(),
    ensures
        pages_up(x, common, pages, calls, pads, acc, last, p).out.aligned(),
    decreases last + 1 - p,
{
    if p <= last {
        lemma_page(x, common, pages, calls, pads, acc, p, 0);
        lemma_pages(
            x,
            common,
            pages,
            calls,
            pads,
            page_from(x, common, pages, calls, pads, acc, p, 0),
            last,
            p + 1,
        );
    }
}

/// Every line of a program has its source location or a mark that it has
/// none.
pub proof fn law_program_lines_have_locations(
    x: Inputs,
    p: Plan,
    consts: Seq<usize>,
    table_start: usize,
    shown: Seq<char>,
)
    ensures
        written(x, p).out.aligned(),
        finished(
            x,
            (Arranged { out: written(x, p).out, consts, table_start }),
            shown,
        ) matches Ok(q) ==> q.aligned(),
{
    lemma_entries(header(x.device).line("; module asm"@), x.m.module_asm@, 0);
    let out = module_asm(header(x.device), x.m);
    assert(out.aligned());
    let acc = Progress { out, next: 0, err: None };
    let acc = if vector(x.m) is None {
        acc.with_start(x)
    } else {
        acc
    };
    let last = last_page(x.m, p.pages, order(x.m).len() as int);
    lemma_pages(x, p.common, p.pages, &p.calls, p.pack.pads, acc, last as int, 0);
}

} // verus!
