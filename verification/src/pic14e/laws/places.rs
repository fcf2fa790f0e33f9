//! Where things go in program memory: windows, pages, tables.
use vstd::prelude::*;
use crate::consts::in_ram;
use crate::device::Device;
use crate::emit::St;
use crate::error::IselError;
use crate::ir::Module;
use crate::names::AddrMap;
use crate::pic14e::layout::{
    chunk_pages, fit_from, in_one_page, is_reader, is_target, label_name, org_after, pack_from,
    page_with_room, table_base, table_chunks, window_base, Pack, READER,
};
use crate::pic14e::select::{chunk_end, rank, tables, text_le};
use crate::pic14e::Gen;
use crate::scan::{code_part, kind, Kind};

verus! {

/// Whether `size` words from `base` on lie in one window of 256 words.
pub open spec fn in_one_window(base: nat, size: nat) -> bool {
    (base + size - 1) / 256 == base as int / 256
}

/// An aligned table lies in one window of 256 words, and no lower base that
/// is free would do.
pub proof fn law_window_holds_the_table(base: nat, size: nat)
    requires
        0 < size <= 256,
    ensures
        window_base(base, size) >= base,
        in_one_window(window_base(base, size), size),
        forall|b: nat| base <= b < window_base(base, size) ==> !#[trigger] in_one_window(b, size),
{
}

/// A table's base leaves room for its reader. An index into a chunk takes no
/// carry: all its words have the upper address byte of its first, and lie in
/// the page that is noted for its reader.
pub proof fn law_chunk_takes_no_carry(addr: nat, size: nat, c: nat, i: nat)
    requires
        c < table_chunks(size),
        256 * c + i < chunk_end(size, c),
    ensures
        table_base(addr, size) >= addr + READER,
        (table_base(addr, size) + 256 * c + i) as int / 256 == (table_base(addr, size) + 256
            * c) as int / 256,
        (table_base(addr, size) + 256 * c + i) as int / 0x800 == (table_base(addr, size) + 256
            * c) as int / 0x800,
{
}

/// The pages of a table's readers are those of its chunks.
pub proof fn law_reader_page_is_its_chunks(gi: usize, base: nat, n: nat, c: nat, d: nat)
    requires
        c <= d < n,
    ensures
        chunk_pages(gi, base, n, c).len() == n - c,
        chunk_pages(gi, base, n, c)[d - c] == (
            crate::line::Sym::Reader(gi, d as u32),
            ((base + 256 * d) / 0x800) as usize,
        ),
    decreases n - c,
{
    lemma_chunk_pages_len(gi, base, n, c);
    if c < d {
        law_reader_page_is_its_chunks(gi, base, n, c + 1, d);
    }
}

proof fn lemma_chunk_pages_len(gi: usize, base: nat, n: nat, c: nat)
    requires
        c <= n,
    ensures
        chunk_pages(gi, base, n, c).len() == n - c,
    decreases n - c,
{
    if c < n {
        lemma_chunk_pages_len(gi, base, n, c + 1);
    }
}

/// Whether the free words of every page lie in it.
pub open spec fn within_pages(p: Pack) -> bool {
    forall|i: int|
        0 <= i < p.next.len() ==> i * 0x800 <= #[trigger] p.next[i] <= (i + 1) * 0x800
}

proof fn lemma_room(next: Seq<usize>, size: usize, pi: int)
    requires
        pi >= 0,
        next.len() <= usize::MAX,
    ensures
        match page_with_room(next, size, pi) {
            Some(q) => {
                &&& pi <= q < next.len()
                &&& next[q as int] + size <= (q + 1) * 0x800
                &&& forall|i: int|
                    pi <= i < q ==> (#[trigger] next[i]) + size > (i + 1) * 0x800
            },
            None => forall|i: int|
                pi <= i < next.len() ==> (#[trigger] next[i]) + size > (i + 1) * 0x800,
        },
    decreases next.len() - pi,
{
    if pi < next.len() && next[pi] + size > (pi + 1) * 0x800 {
        lemma_room(next, size, pi + 1);
    }
}

/// A placed function lies in the page that is noted for it, on words that
/// were free, in the lowest page with room.
pub proof fn law_place_keeps_pages(p: Pack, device: &Device, name: Seq<char>, size: usize)
    requires
        within_pages(p),
        p.wf(),
    ensures
        match p.place(device, name, size) {
            Ok(q) => {
                let pi = q.pages[name] as int;
                let start = q.next[pi] - size;
                &&& within_pages(q)
                &&& q.wf()
                &&& q.pages.dom().contains(name)
                &&& pi * 0x800 <= start && start + size <= (pi + 1) * 0x800
                &&& if pi < p.next.len() {
                    start == p.next[pi] && q.next.len() == p.next.len()
                } else {
                    pi == p.next.len() && q.next.len() == pi + 1 && q.next.len()
                        <= device.flash_words / 0x800
                }
                &&& forall|i: int|
                    0 <= i < p.next.len() && i != pi ==> #[trigger] q.next[i] == p.next[i]
                &&& forall|i: int|
                    0 <= i < pi ==> (#[trigger] p.next[i]) + size > (i + 1) * 0x800
                &&& forall|n: Seq<char>|
                    n != name && p.pages.dom().contains(n) ==> q.pages.dom().contains(n)
                        && #[trigger] q.pages[n] == p.pages[n]
            },
            Err(e) => size > 0x800 && e == IselError::FunctionTooLarge || (e
                == IselError::FlashExhausted && p.next.len() >= device.flash_words / 0x800
                && forall|i: int|
                0 <= i < p.next.len() ==> (#[trigger] p.next[i]) + size > (i + 1) * 0x800),
        },
{
    lemma_room(p.next, size, 0);
}

/// The handler starts at the vector and lies, with the reset code, in page
/// zero.
pub proof fn law_handler_stays_in_page_zero(p: Pack, name: Seq<char>, size: usize, init: nat)
    requires
        within_pages(p),
        p.wf(),
    ensures
        match p.place_handler(name, size, init) {
            Ok(q) => within_pages(q) && q.wf() && q.pages[name] == 0 && q.pads[name] == 4 && q.next[0] == 8
                + size + init,
            Err(e) => 8 + size + init > 0x800,
        },
{
}

/// All functions of a packing lie within their pages, and each has one.
pub proof fn law_packing_keeps_pages(
    device: &Device,
    m: &Module,
    order: Seq<usize>,
    sizes: Map<Seq<char>, usize>,
    handler: Option<Seq<char>>,
    init: nat,
    p: Pack,
    k: int,
)
    requires
        within_pages(p),
        p.wf(),
        0 <= k <= order.len(),
    ensures
        pack_from(device, m, order, sizes, handler, init, p, k) matches Ok(q) ==> within_pages(q)
            && (forall|n: Seq<char>| p.pages.dom().contains(n) ==> #[trigger] q.pages.dom().contains(n))
            && (forall|j: int|
            k <= j < order.len() ==> q.pages.dom().contains(
                #[trigger] m.funcs@[order[j] as int].name@,
            )),
    decreases order.len() - k,
{
    if k < order.len() {
        let name = m.funcs@[order[k] as int].name@;
        if sizes.dom().contains(name) {
            let q = if handler == Some(name) {
                p.place_handler(name, sizes[name], init)
            } else {
                p.place(device, name, sizes[name])
            };
            if handler == Some(name) {
                law_handler_stays_in_page_zero(p, name, sizes[name], init);
            } else {
                law_place_keeps_pages(p, device, name, sizes[name]);
            }
            if let Ok(q) = q {
                assert(q.pages.dom().contains(name));
                law_packing_keeps_pages(device, m, order, sizes, handler, init, q, k + 1);
            }
        }
    }
}

/// The address before line `i`, by the rules of an assembler's first pass.
pub open spec fn org_at(lines: Seq<Seq<char>>, i: int) -> Option<usize>
    decreases i,
{
    if i <= 0 {
        Some(0)
    } else {
        match org_at(lines, i - 1) {
            Some(o) => org_after(kind(code_part(lines[i - 1])), o),
            None => None,
        }
    }
}

/// Whether line `i` is the label of a function, of the reset code or of a
/// reader.
pub open spec fn opens(m: &Module, lines: Seq<Seq<char>>, i: int) -> bool {
    let c = code_part(lines[i]);
    kind(c) == Kind::Label && (is_target(m, label_name(c)) || is_reader(m, label_name(c)))
}

/// Whether what stands before line `i` ends there: at the next label of that
/// kind, at an origin, at a table, at the end.
pub open spec fn shuts(m: &Module, lines: Seq<Seq<char>>, i: int) -> bool {
    match kind(code_part(lines[i])) {
        Kind::End | Kind::Org(_) | Kind::Table => true,
        Kind::Label => opens(m, lines, i),
        _ => false,
    }
}

/// Where what stands before line `i` ends: an origin counts as filled up to.
pub open spec fn shut_at(lines: Seq<Seq<char>>, i: int) -> Option<usize> {
    if 0 <= i < lines.len() {
        match kind(code_part(lines[i])) {
            Kind::Org(v) => v,
            _ => org_at(lines, i),
        }
    } else {
        org_at(lines, i)
    }
}

/// The start of what is open before line `i`.
pub open spec fn open_at(m: &Module, lines: Seq<Seq<char>>, i: int) -> Option<usize>
    decreases i,
{
    if i <= 0 {
        None
    } else if opens(m, lines, i - 1) {
        org_at(lines, i - 1)
    } else if shuts(m, lines, i - 1) {
        None
    } else {
        open_at(m, lines, i - 1)
    }
}

/// A text that passes has passed line by line.
proof fn lemma_fit_goes_on(m: &Module, lines: Seq<Seq<char>>, i: int)
    requires
        fit_from(m, lines, 0, 0, None) is Ok,
        0 <= i <= lines.len(),
        forall|k: int| 0 <= k < i ==> kind(code_part(#[trigger] lines[k])) != Kind::End,
    ensures
        org_at(lines, i) matches Some(o) && fit_from(m, lines, i, o, open_at(m, lines, i)) is Ok,
    decreases i,
{
    if i > 0 {
        lemma_fit_goes_on(m, lines, i - 1);
        assert(kind(code_part(lines[i - 1])) != Kind::End);
    }
}

proof fn lemma_still_open(m: &Module, lines: Seq<Seq<char>>, i: int, j: int)
    requires
        0 <= i < j <= lines.len(),
        opens(m, lines, i),
        forall|k: int| i < k < j ==> !#[trigger] shuts(m, lines, k),
    ensures
        open_at(m, lines, j) == org_at(lines, i),
    decreases j,
{
    if i + 1 < j {
        assert(!shuts(m, lines, j - 1));
        lemma_still_open(m, lines, i, j - 1);
    }
}

/// In a text that passes the page check every function, the reset code and
/// every reader lie within one page, from label to end.
pub proof fn law_checked_text_keeps_pages(m: &Module, lines: Seq<Seq<char>>, i: int, j: int)
    requires
        fit_from(m, lines, 0, 0, None) is Ok,
        0 <= i < j <= lines.len(),
        opens(m, lines, i),
        forall|k: int| i < k < j ==> !#[trigger] shuts(m, lines, k),
        j < lines.len() ==> shuts(m, lines, j),
        forall|k: int| 0 <= k < i ==> kind(code_part(#[trigger] lines[k])) != Kind::End,
    ensures
        org_at(lines, i) matches Some(start) && shut_at(lines, j) matches Some(end) && in_one_page(
            start,
            end,
        ),
{
    assert forall|k: int| 0 <= k < j implies kind(code_part(#[trigger] lines[k]))
        != Kind::End by {
        if k > i {
            assert(!shuts(m, lines, k));
        }
    }
    lemma_fit_goes_on(m, lines, i);
    lemma_fit_goes_on(m, lines, j);
    lemma_still_open(m, lines, i, j);
}

/// Names are in order, and the order is total.
proof fn lemma_text_total(a: Seq<char>, b: Seq<char>)
    ensures
        text_le(a, b) || text_le(b, a),
    decreases a.len(),
{
    if a.len() > 0 && b.len() > 0 && a[0] == b[0] {
        lemma_text_total(a.skip(1), b.skip(1));
    }
}

proof fn lemma_text_transitive(a: Seq<char>, b: Seq<char>, c: Seq<char>)
    requires
        text_le(a, b),
        text_le(b, c),
    ensures
        text_le(a, c),
    decreases a.len(),
{
    if a.len() > 0 && b.len() > 0 && c.len() > 0 && a[0] == b[0] && b[0] == c[0] {
        lemma_text_transitive(a.skip(1), b.skip(1), c.skip(1));
    }
}

/// Whether tables are in the order of their names.
pub open spec fn by_name(m: &Module, v: Seq<usize>) -> bool {
    forall|i: int, j: int|
        0 <= i < j < v.len() ==> text_le(
            m.globals@[#[trigger] v[i] as int].name@,
            m.globals@[#[trigger] v[j] as int].name@,
        )
}

proof fn lemma_rank(m: &Module, v: Seq<usize>, gi: usize, p: int)
    requires
        by_name(m, v),
        0 <= p <= v.len(),
    ensures
        p <= rank(m, v, gi, p) <= v.len(),
        forall|i: int|
            p <= i < rank(m, v, gi, p) ==> text_le(
                m.globals@[#[trigger] v[i] as int].name@,
                m.globals@[gi as int].name@,
            ),
        forall|i: int|
            rank(m, v, gi, p) <= i < v.len() ==> text_le(
                m.globals@[gi as int].name@,
                m.globals@[#[trigger] v[i] as int].name@,
            ),
    decreases v.len() - p,
{
    let name = m.globals@[gi as int].name@;
    if p < v.len() {
        let at = m.globals@[v[p] as int].name@;
        if text_le(at, name) {
            lemma_rank(m, v, gi, p + 1);
        } else {
            lemma_text_total(at, name);
            assert forall|i: int| p <= i < v.len() implies text_le(
                name,
                m.globals@[#[trigger] v[i] as int].name@,
            ) by {
                if i > p {
                    lemma_text_transitive(name, at, m.globals@[v[i] as int].name@);
                }
            }
        }
    }
}

/// The tables are the constants that stay in flash, each once, in the order
/// of their names.
pub proof fn law_tables_are_in_order(m: &Module, addrs: &AddrMap, n: int)
    requires
        0 <= n <= m.globals@.len(),
        m.globals@.len() <= usize::MAX,
    ensures
        by_name(m, tables(m, addrs, n)),
        forall|i: int, j: int|
            0 <= i < j < tables(m, addrs, n).len() ==> #[trigger] tables(m, addrs, n)[i]
                != #[trigger] tables(m, addrs, n)[j],
        forall|gi: usize|
            #[trigger] tables(m, addrs, n).contains(gi) <==> gi < n && m.globals@[gi as int].is_const
                && !in_ram(m, addrs, gi as int),
    decreases n,
{
    if n > 0 {
        law_tables_are_in_order(m, addrs, n - 1);
        let v = tables(m, addrs, n - 1);
        let gi = (n - 1) as usize;
        let w = tables(m, addrs, n);
        if m.globals@[n - 1].is_const && !in_ram(m, addrs, n - 1) {
            let r = rank(m, v, gi, 0);
            lemma_rank(m, v, gi, 0);
            assert(w == v.insert(r, gi));
            assert(!v.contains(gi));
            assert forall|x: usize| #[trigger] w.contains(x) <==> v.contains(x) || x == gi by {
                if v.contains(x) {
                    let i = choose|i: int| 0 <= i < v.len() && v[i] == x;
                    if i < r {
                        assert(w[i] == x);
                    } else {
                        assert(w[i + 1] == x);
                    }
                }
                if x == gi {
                    assert(w[r] == x);
                }
                if w.contains(x) {
                    let i = choose|i: int| 0 <= i < w.len() && w[i] == x;
                    if i < r {
                        assert(v[i] == x);
                    } else if i > r {
                        assert(v[i - 1] == x);
                    }
                }
            }
            assert forall|x: usize| #[trigger] w.contains(x) <==> x < n
                && m.globals@[x as int].is_const && !in_ram(m, addrs, x as int) by {
                assert(v.contains(x) <==> x < n - 1 && m.globals@[x as int].is_const && !in_ram(
                    m,
                    addrs,
                    x as int,
                ));
            }
            assert forall|i: int, j: int| 0 <= i < j < w.len() implies #[trigger] w[i] != #[trigger] w[j] && text_le(
                m.globals@[w[i] as int].name@,
                m.globals@[w[j] as int].name@,
            ) by {
                let a = if i < r {
                    i
                } else {
                    i - 1
                };
                let b = if j < r {
                    j
                } else {
                    j - 1
                };
                if i != r && j != r {
                    assert(w[i] == v[a] && w[j] == v[b]);
                } else if i == r {
                    assert(w[j] == v[b] && v.contains(v[b]));
                } else {
                    assert(w[i] == v[a] && v.contains(v[a]));
                }
            }
        }
    }
}

impl<'a> Gen<'a> {
    /// A runtime routine without an error has its operands and its working bytes
    /// in one bank: the routine never selects another.
    pub proof fn law_routine_frame_is_in_one_bank(
        &self,
        st: St,
        a: u32,
        a_end: u32,
        b: u32,
        b_end: u32,
        s: u32,
        s_end: u32,
    )
        requires
            st.err is None,
        ensures
            ({
                let bank = self.cx.device.bank(a);
                self.one_bank(st, a, a_end, b, b_end, s, s_end).err is None <==> bank is Some
                    && self.cx.device.bank(a_end) == bank && self.cx.device.bank(b) == bank
                    && self.cx.device.bank(b_end) == bank && self.cx.device.bank(s) == bank
                    && self.cx.device.bank(s_end) == bank
            }),
            self.one_bank(st, a, a_end, b, b_end, s, s_end).rows == st.rows,
    {
    }
}

} // verus!
