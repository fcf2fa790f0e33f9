//! Where things go in program memory: the addresses that assembled text
//! reaches, the pages of functions, the places of constant tables.
//!
//! A page has 2048 words. A function and a reader stay within one, as a
//! branch takes its page from PCLATH.
use vstd::prelude::*;
use crate::device::Device;
use crate::error::IselError;
use crate::ir::Module;
use crate::line::{push_sym, sym_text, Sym};
use crate::names::{func_index, NameMap};
use crate::pic14e::PageMap;
use crate::scan::{code_of, code_part, has_prefix, kind, kind_of, starts_with, trim, trimmed, Kind};
use crate::text::{chars_of, lines_of, split_lines};

verus! {

/// The words of a page.
pub const PAGE: usize = 0x800;

/// The words of a reader: the index is parked, PCLATH set, the jump made.
pub const READER: usize = 6;

/// Tables that start past this address are refused: no device has it.
pub const ADDRESS_LIMIT: usize = 0x7FFF_FFFF;

/// `org` brought up to a multiple of `n`, for a power of two `n`.
pub open spec fn align_to(org: usize, n: usize) -> usize {
    ((org + n - 1) as usize) & !((n - 1) as usize)
}

/// The address after a line, by the rules of an assembler's first pass;
/// `None` for a malformed directive or an address out of range.
pub open spec fn org_after(k: Kind, org: usize) -> Option<usize> {
    match k {
        Kind::Org(v) => v,
        Kind::Align(Some(n)) => if n >= 1 && org + n - 1 <= usize::MAX {
            Some(align_to(org, n))
        } else {
            None
        },
        Kind::Align(None) => None,
        Kind::Word => if org < usize::MAX {
            Some((org + 1) as usize)
        } else {
            None
        },
        _ => Some(org),
    }
}

fn next_org(k: Kind, org: usize) -> (r: Option<usize>)
    ensures
        r == org_after(k, org),
{
    match k {
        Kind::Org(v) => v,
        Kind::Align(Some(n)) => if n >= 1 && org <= usize::MAX - (n - 1) {
            Some((org + (n - 1)) & !(n - 1))
        } else {
            None
        },
        Kind::Align(None) => None,
        Kind::Word => if org < usize::MAX {
            Some(org + 1)
        } else {
            None
        },
        _ => Some(org),
    }
}

/// Whether a line ends the program code: its end, or the first reader.
pub open spec fn ends_code(c: Seq<char>) -> bool {
    match kind(c) {
        Kind::Blank | Kind::Org(_) => false,
        Kind::End => true,
        _ => starts_with(c, "__read_"@),
    }
}

/// The address that `lines[i..]` end at.
pub open spec fn end_from(lines: Seq<Seq<char>>, i: int, org: usize) -> Option<usize>
    decreases lines.len() - i,
{
    if i < 0 || i >= lines.len() || ends_code(code_part(lines[i])) {
        Some(org)
    } else {
        match org_after(kind(code_part(lines[i])), org) {
            Some(o) => end_from(lines, i + 1, o),
            None => None,
        }
    }
}

/// The address after the code of a program text.
pub open spec fn end_org(text: Seq<char>) -> Option<usize> {
    end_from(split_lines(text), 0, 0)
}

/// The address after the code of a program text, up to its end or to the
/// first reader of a constant table; `None` for malformed text.
pub fn find_end_org(text: &str) -> (r: Option<usize>)
    ensures
        r == end_org(text@),
{
    let lines = lines_of(text);
    let ghost ls = split_lines(text@);
    let mut org: usize = 0;
    let mut i: usize = 0;
    while i < lines.len()
        invariant
            i <= lines@.len(),
            ls.len() == lines@.len(),
            forall|j: int| 0 <= j < ls.len() ==> (#[trigger] lines@[j])@ == ls[j],
            end_org(text@) == end_from(ls, i as int, org),
        decreases lines@.len() - i,
    {
        assert(lines@[i as int]@ == ls[i as int]);
        let c = code_of(lines[i].as_str());
        let k = kind_of(&c);
        let stop: bool = match k {
            Kind::Blank => false,
            Kind::Org(_) => false,
            Kind::End => true,
            _ => has_prefix(&c, "__read_"),
        };
        if stop {
            return Some(org);
        }
        match next_org(k, org) {
            Some(o) => {
                org = o;
            },
            None => {
                return None;
            },
        }
        i += 1;
    }
    Some(org)
}

/// Measures the final address of a program text with the semantics of an
/// assembler's first pass. Stops at the end of the program or where the
/// constant tables start.
pub fn measure_end_org(text: &str) -> (r: usize)
    requires
        end_org(text@) is Some,
    ensures
        end_org(text@) == Some(r),
{
    match find_end_org(text) {
        Some(r) => r,
        None => 0,
    }
}

/// The name that a label line defines.
pub open spec fn label_name(c: Seq<char>) -> Seq<char> {
    trim(c.drop_last())
}

fn name_of_label(c: &Vec<char>) -> (r: Vec<char>)
    requires
        c@.len() > 0,
    ensures
        r@ == label_name(c@),
{
    let mut v: Vec<char> = Vec::new();
    let mut i: usize = 0;
    while i < c.len() - 1
        invariant
            c@.len() > 0,
            i <= c@.len() - 1,
            v@ == c@.take(i as int),
        decreases c@.len() - i,
    {
        v.push(c[i]);
        i += 1;
        assert(v@ =~= c@.take(i as int));
    }
    assert(v@ =~= c@.drop_last());
    trimmed(&v)
}

fn same_chars(v: &Vec<char>, s: &str) -> (r: bool)
    ensures
        r == (v@ == s@),
{
    let q = chars_of(s);
    if q.len() != v.len() {
        return false;
    }
    let mut i: usize = 0;
    while i < v.len()
        invariant
            i <= v@.len(),
            q@ == s@,
            q@.len() == v@.len(),
            forall|j: int| 0 <= j < i ==> v@[j] == q@[j],
        decreases v@.len() - i,
    {
        if v[i] != q[i] {
            return false;
        }
        i += 1;
    }
    assert(v@ =~= s@);
    true
}

/// Whether a label starts something that is measured: a function, or the
/// reset code.
pub open spec fn is_target(m: &Module, name: Seq<char>) -> bool {
    func_index(m, name) is Some || name == "__start"@
}

fn find_by_chars(m: &Module, name: &Vec<char>) -> (r: Option<usize>)
    ensures
        r == func_index(m, name@),
        r matches Some(i) ==> i < m.funcs@.len() && m.funcs@[i as int].name@ == name@,
{
    let mut i: usize = 0;
    while i < m.funcs.len()
        invariant
            i <= m.funcs@.len(),
            func_index(m, name@) == crate::names::func_from(m.funcs@, name@, i as int),
        decreases m.funcs@.len() - i,
    {
        if same_chars(name, m.funcs[i].name.as_str()) {
            return Some(i);
        }
        i += 1;
    }
    None
}

fn find_target(m: &Module, name: &Vec<char>) -> (r: Option<String>)
    ensures
        match r {
            Some(s) => s@ == name@ && is_target(m, name@),
            None => !is_target(m, name@),
        },
{
    if let Some(i) = find_by_chars(m, name) {
        return Some(m.funcs[i].name.clone());
    }
    if same_chars(name, "__start") {
        return Some("__start".to_owned());
    }
    None
}

/// What was measured so far, and the target whose words are being counted.
pub ghost struct Extents {
    pub sizes: Map<Seq<char>, usize>,
    pub open: Option<(Seq<char>, usize)>,
}

impl Extents {
    /// The open target ends at `org`; `None` if the address went back.
    pub open spec fn close(self, org: usize) -> Option<Map<Seq<char>, usize>> {
        match self.open {
            None => Some(self.sizes),
            Some((name, start)) => if org < start {
                None
            } else {
                Some(self.sizes.insert(name, (org - start) as usize))
            },
        }
    }
}

/// The sizes of the targets in `lines[i..]`.
pub open spec fn sizes_from(
    m: &Module,
    lines: Seq<Seq<char>>,
    i: int,
    org: usize,
    x: Extents,
) -> Option<Map<Seq<char>, usize>>
    decreases lines.len() - i,
{
    if i < 0 || i >= lines.len() {
        x.close(org)
    } else {
        let c = code_part(lines[i]);
        match kind(c) {
            Kind::End => x.close(org),
            Kind::Label => if is_target(m, label_name(c)) {
                match x.close(org) {
                    Some(sizes) => sizes_from(
                        m,
                        lines,
                        i + 1,
                        org,
                        Extents { sizes, open: Some((label_name(c), org)) },
                    ),
                    None => None,
                }
            } else {
                sizes_from(m, lines, i + 1, org, x)
            },
            k => match org_after(k, org) {
                Some(o) => sizes_from(m, lines, i + 1, o, x),
                None => None,
            },
        }
    }
}

/// The size in words of every function and of the reset code in a program
/// text, from label to label.
pub open spec fn sizes_in(m: &Module, text: Seq<char>) -> Option<Map<Seq<char>, usize>> {
    sizes_from(m, split_lines(text), 0, 0, Extents { sizes: Map::empty(), open: None })
}

fn close_extent(sizes: &mut NameMap<usize>, open: Option<(String, usize)>, org: usize) -> (ok: bool)
    ensures
        ({
            let x = Extents {
                sizes: old(sizes)@,
                open: match open {
                    Some(p) => Some((p.0@, p.1)),
                    None => None,
                },
            };
            match x.close(org) {
                Some(m) => ok && final(sizes)@ == m,
                None => !ok,
            }
        }),
{
    match open {
        None => true,
        Some((name, start)) => if org < start {
            false
        } else {
            sizes.insert(name, org - start);
            true
        },
    }
}

/// Measures every function in a program text, from its label to the next.
/// Block labels stay within their function.
pub fn measure_sizes(m: &Module, text: &str) -> (r: Option<NameMap<usize>>)
    ensures
        match sizes_in(m, text@) {
            Some(s) => r matches Some(t) && t@ == s,
            None => r is None,
        },
{
    let lines = lines_of(text);
    let ghost ls = split_lines(text@);
    let mut sizes: NameMap<usize> = NameMap::new();
    let mut open: Option<(String, usize)> = None;
    let mut org: usize = 0;
    let mut i: usize = 0;
    while i < lines.len()
        invariant
            i <= lines@.len(),
            ls.len() == lines@.len(),
            forall|j: int| 0 <= j < ls.len() ==> (#[trigger] lines@[j])@ == ls[j],
            sizes_in(m, text@) == sizes_from(
                m,
                ls,
                i as int,
                org,
                Extents {
                    sizes: sizes@,
                    open: match open {
                        Some(p) => Some((p.0@, p.1)),
                        None => None,
                    },
                },
            ),
        decreases lines@.len() - i,
    {
        assert(lines@[i as int]@ == ls[i as int]);
        let c = code_of(lines[i].as_str());
        let k = kind_of(&c);
        match k {
            Kind::End => {
                return if close_extent(&mut sizes, open, org) {
                    Some(sizes)
                } else {
                    None
                };
            },
            Kind::Label => {
                let name = name_of_label(&c);
                if let Some(s) = find_target(m, &name) {
                    if !close_extent(&mut sizes, open, org) {
                        return None;
                    }
                    open = Some((s, org));
                }
            },
            _ => match next_org(k, org) {
                Some(o) => {
                    org = o;
                },
                None => {
                    return None;
                },
            },
        }
        i += 1;
    }
    if close_extent(&mut sizes, open, org) {
        Some(sizes)
    } else {
        None
    }
}

/// The number of chunks of a table of `size` bytes. A table of 256 bytes has
/// a second, empty one: the dispatch tests one bit of the chunk number.
pub open spec fn table_chunks(size: nat) -> nat {
    if size < 256 {
        1
    } else if size == 256 {
        2
    } else {
        (size + 255) / 256
    }
}

/// The number of chunks of a table of `size` bytes.
pub fn chunk_count(size: usize) -> (r: usize)
    ensures
        r == table_chunks(size as nat),
        1 <= r,
        size <= 65535 ==> r <= 256,
{
    if size < 256 {
        1
    } else if size == 256 {
        2
    } else {
        (size - 1) / 256 + 1
    }
}

/// Whether a label is the reader of a chunk of global `gi`. Chunk numbers
/// have 32 bits.
pub open spec fn reads(m: &Module, gi: int, name: Seq<char>) -> bool {
    m.globals@[gi].is_const && exists|c: u32|
        c < u32::MAX && c < table_chunks(m.globals@[gi].bytes@.len()) && name == #[trigger] sym_text(
            m,
            Sym::Reader(gi as usize, c),
        )
}

/// Whether a label is a reader.
pub open spec fn is_reader(m: &Module, name: Seq<char>) -> bool {
    exists|gi: int| 0 <= gi < m.globals@.len() && #[trigger] reads(m, gi, name)
}

fn find_reader(m: &Module, name: &Vec<char>) -> (r: bool)
    ensures
        r == is_reader(m, name@),
{
    let mut gi: usize = 0;
    while gi < m.globals.len()
        invariant
            gi <= m.globals@.len(),
            forall|j: int| 0 <= j < gi ==> !#[trigger] reads(m, j, name@),
        decreases m.globals@.len() - gi,
    {
        if m.globals[gi].is_const {
            let n: usize = chunk_count(m.globals[gi].bytes.len());
            let mut c: u32 = 0;
            while c < u32::MAX && (c as usize) < n
                invariant
                    gi < m.globals@.len(),
                    m.globals@[gi as int].is_const,
                    c <= n,
                    n == table_chunks(m.globals@[gi as int].bytes@.len()),
                    forall|d: u32|
                        d < c ==> name@ != #[trigger] sym_text(m, Sym::Reader(gi, d)),
                decreases u32::MAX - c,
            {
                let mut s = String::new();
                push_sym(&mut s, m, Sym::Reader(gi, c));
                assert(s@ =~= sym_text(m, Sym::Reader(gi, c)));
                if same_chars(name, s.as_str()) {
                    assert(name@ == sym_text(m, Sym::Reader((gi as int) as usize, c)));
                    assert(reads(m, gi as int, name@));
                    return true;
                }
                c += 1;
            }
        }
        assert(!reads(m, gi as int, name@));
        gi += 1;
    }
    false
}

/// Whether the words `start..end` lie in one page. No words always do.
pub open spec fn in_one_page(start: usize, end: usize) -> bool {
    end <= start || (end - 1) / 0x800 == start / 0x800
}

/// The check of `lines[i..]`, with the start of the open target.
pub open spec fn fit_from(
    m: &Module,
    lines: Seq<Seq<char>>,
    i: int,
    org: usize,
    open: Option<usize>,
) -> Result<(), IselError>
    decreases lines.len() - i,
{
    let fits = |end: usize| open matches Some(start) ==> in_one_page(start, end);
    if i < 0 || i >= lines.len() {
        if fits(org) {
            Ok(())
        } else {
            Err(IselError::SpansPages)
        }
    } else {
        let c = code_part(lines[i]);
        match kind(c) {
            Kind::End => if fits(org) {
                Ok(())
            } else {
                Err(IselError::SpansPages)
            },
            Kind::Label => if is_target(m, label_name(c)) || is_reader(m, label_name(c)) {
                if fits(org) {
                    fit_from(m, lines, i + 1, org, Some(org))
                } else {
                    Err(IselError::SpansPages)
                }
            } else {
                fit_from(m, lines, i + 1, org, open)
            },
            Kind::Org(v) => match v {
                Some(o) => if fits(o) {
                    fit_from(m, lines, i + 1, o, None)
                } else {
                    Err(IselError::SpansPages)
                },
                None => Err(IselError::MalformedText),
            },
            Kind::Table => if fits(org) {
                fit_from(m, lines, i + 1, org, None)
            } else {
                Err(IselError::SpansPages)
            },
            k => match org_after(k, org) {
                Some(o) => fit_from(m, lines, i + 1, o, open),
                None => Err(IselError::MalformedText),
            },
        }
    }
}

fn page_holds(open: Option<usize>, end: usize) -> (r: bool)
    ensures
        r == (open matches Some(start) ==> in_one_page(start, end)),
{
    match open {
        Some(start) => end <= start || (end - 1) / 0x800 == start / 0x800,
        None => true,
    }
}

/// Checks that every function, the reset code and every reader of a program
/// text lies within one page. The data of a table may span pages.
pub fn verify_page_fit(m: &Module, text: &str) -> (r: Result<(), IselError>)
    ensures
        r == fit_from(m, split_lines(text@), 0, 0, None),
{
    let lines = lines_of(text);
    let ghost ls = split_lines(text@);
    let mut open: Option<usize> = None;
    let mut org: usize = 0;
    let mut i: usize = 0;
    while i < lines.len()
        invariant
            i <= lines@.len(),
            ls.len() == lines@.len(),
            forall|j: int| 0 <= j < ls.len() ==> (#[trigger] lines@[j])@ == ls[j],
            fit_from(m, split_lines(text@), 0, 0, None) == fit_from(m, ls, i as int, org, open),
        decreases lines@.len() - i,
    {
        assert(lines@[i as int]@ == ls[i as int]);
        let c = code_of(lines[i].as_str());
        let k = kind_of(&c);
        match k {
            Kind::End => {
                return if page_holds(open, org) {
                    Ok(())
                } else {
                    Err(IselError::SpansPages)
                };
            },
            Kind::Label => {
                let name = name_of_label(&c);
                if find_target(m, &name).is_some() || find_reader(m, &name) {
                    if !page_holds(open, org) {
                        return Err(IselError::SpansPages);
                    }
                    open = Some(org);
                }
            },
            Kind::Org(v) => match v {
                Some(o) => {
                    if !page_holds(open, o) {
                        return Err(IselError::SpansPages);
                    }
                    open = None;
                    org = o;
                },
                None => {
                    return Err(IselError::MalformedText);
                },
            },
            Kind::Table => {
                if !page_holds(open, org) {
                    return Err(IselError::SpansPages);
                }
                open = None;
            },
            _ => match next_org(k, org) {
                Some(o) => {
                    org = o;
                },
                None => {
                    return Err(IselError::MalformedText);
                },
            },
        }
        i += 1;
    }
    if page_holds(open, org) {
        Ok(())
    } else {
        Err(IselError::SpansPages)
    }
}

/// `base` if a table of `size` bytes there stays within a 256-word window,
/// else the next window.
pub open spec fn window_base(base: nat, size: nat) -> nat {
    if base % 256 + size <= 256 {
        base
    } else {
        (base + 255) / 256 * 256
    }
}

/// Aligns the base of a small table, so that the table does not leave its
/// 256-word window: the computed jump into it takes no carry.
pub fn window_align(base: usize, size: usize) -> (r: usize)
    requires
        base + 255 <= usize::MAX,
        size + 255 <= usize::MAX,
    ensures
        r == window_base(base as nat, size as nat),
{
    assert(base & 0xFF == base % 256) by (bit_vector);
    if (base & 0xFF) + size <= 0x100 {
        base
    } else {
        next_window(base)
    }
}

/// The next multiple of 256.
fn next_window(base: usize) -> (r: usize)
    requires
        base + 255 <= usize::MAX,
    ensures
        r == (base + 255) / 256 * 256,
{
    (base + 255) / 256 * 256
}

/// The pages of the readers of one table of `size` bytes whose reader stands
/// at `addr`, from chunk `c` on: the pages of the chunks they read.
pub open spec fn chunk_pages(gi: usize, base: nat, n: nat, c: nat) -> Seq<(Sym, usize)>
    decreases n - c,
{
    if c >= n {
        Seq::empty()
    } else {
        seq![(Sym::Reader(gi, c as u32), ((base + 256 * c) / 0x800) as usize)] + chunk_pages(
            gi,
            base,
            n,
            c + 1,
        )
    }
}

/// The base of a table whose reader stands at `addr`.
pub open spec fn table_base(addr: nat, size: nat) -> nat {
    if size >= 256 {
        (addr + READER as nat + 255) / 256 * 256
    } else {
        window_base(addr + READER as nat, size)
    }
}

/// Where the next table's reader stands: after the data, and after the
/// readers of the chunks but the first.
pub open spec fn after_table(addr: nat, size: nat) -> nat {
    table_base(addr, size) + size + READER as nat * (table_chunks(size) - 1) as nat
}

/// The readers of the tables `consts[k..]` laid out from `addr` on, each
/// with the page PCLATH holds after it returns; `None` past the limit.
pub open spec fn pages_from(m: &Module, consts: Seq<usize>, addr: nat, k: int) -> Option<
    Seq<(Sym, usize)>,
>
    decreases consts.len() - k,
{
    if k < 0 || k >= consts.len() {
        Some(Seq::empty())
    } else if addr > ADDRESS_LIMIT {
        None
    } else {
        let size = m.globals@[consts[k] as int].bytes@.len();
        match pages_from(m, consts, after_table(addr, size), k + 1) {
            Some(rest) => Some(
                chunk_pages(consts[k], table_base(addr, size), table_chunks(size), 0) + rest,
            ),
            None => None,
        }
    }
}

/// Whether `consts` are indices of globals of at most 65535 bytes.
pub open spec fn are_tables(m: &Module, consts: Seq<usize>) -> bool {
    forall|k: int|
        0 <= k < consts.len() ==> (#[trigger] consts[k]) < m.globals@.len()
            && m.globals@[consts[k] as int].bytes@.len() <= 65535
}

/// The base of a table whose reader stands at `addr`.
pub fn base_of_table(addr: usize, size: usize) -> (r: usize)
    requires
        addr <= ADDRESS_LIMIT,
        size <= 65535,
    ensures
        r == table_base(addr as nat, size as nat),
        r <= 0x8000_0200,
{
    if size >= 256 {
        next_window(addr + READER)
    } else {
        window_align(addr + READER, size)
    }
}

fn push_chunk_pages(out: &mut Vec<(Sym, usize)>, gi: usize, base: usize, n: u32)
    requires
        n <= 256,
        base <= 0x8000_0200,
    ensures
        final(out)@ == old(out)@ + chunk_pages(gi, base as nat, n as nat, 0),
{
    let ghost start = out@;
    let mut c: u32 = 0;
    assert(start =~= out@ + Seq::<(Sym, usize)>::empty());
    while c < n
        invariant
            c <= n <= 256,
            base <= 0x8000_0200,
            start + chunk_pages(gi, base as nat, n as nat, 0) == out@ + chunk_pages(
                gi,
                base as nat,
                n as nat,
                c as nat,
            ),
        decreases n - c,
    {
        let ghost before = out@;
        out.push((Sym::Reader(gi, c), (base + 256 * c as usize) / 0x800));
        proof {
            let rest = chunk_pages(gi, base as nat, n as nat, (c + 1) as nat);
            assert(chunk_pages(gi, base as nat, n as nat, c as nat) =~= seq![
                out@.last(),
            ] + rest);
            assert(before + chunk_pages(gi, base as nat, n as nat, c as nat) =~= out@ + rest);
        }
        c += 1;
    }
    assert(out@ + chunk_pages(gi, base as nat, n as nat, n as nat) =~= out@);
}

/// The page that PCLATH holds after each reader returns, for the tables laid
/// out from `start` on. It is the page of the data, not of the reader.
pub fn reader_pages(m: &Module, consts: &Vec<usize>, start: usize) -> (r: Option<Vec<(Sym, usize)>>)
    requires
        are_tables(m, consts@),
    ensures
        match pages_from(m, consts@, start as nat, 0) {
            Some(p) => r matches Some(v) && v@ == p,
            None => r is None,
        },
{
    let mut out: Vec<(Sym, usize)> = Vec::new();
    let mut addr: usize = start;
    let mut k: usize = 0;
    let ghost whole = pages_from(m, consts@, start as nat, 0);
    proof {
        if let Some(p) = whole {
            assert(out@ + p =~= p);
        }
    }
    while k < consts.len()
        invariant
            are_tables(m, consts@),
            k <= consts@.len(),
            whole == pages_from(m, consts@, start as nat, 0),
            match pages_from(m, consts@, addr as nat, k as int) {
                Some(rest) => whole == Some(out@ + rest),
                None => whole is None,
            },
        decreases consts@.len() - k,
    {
        if addr > ADDRESS_LIMIT {
            return None;
        }
        let gi: usize = consts[k];
        assert(consts@[k as int] < m.globals@.len());
        let size: usize = m.globals[gi].bytes.len();
        let ghost before = out@;
        let ghost rest = pages_from(
            m,
            consts@,
            after_table(addr as nat, size as nat),
            (k + 1) as int,
        );
        let n: usize = chunk_count(size);
        let base: usize = base_of_table(addr, size);
        push_chunk_pages(&mut out, gi, base, n as u32);
        proof {
            if let Some(p) = rest {
                let own = chunk_pages(gi, base as nat, n as nat, 0);
                assert(before + (own + p) =~= before + own + p);
            }
        }
        addr = base + size + READER * (n - 1);
        k += 1;
    }
    proof {
        assert(out@ + Seq::<(Sym, usize)>::empty() =~= out@);
    }
    Some(out)
}

/// The functions packed so far: the next free word of each page, the page of
/// each function, and the functions that start at a fixed address.
#[verifier::ext_equal]
pub ghost struct Pack {
    pub next: Seq<usize>,
    pub pages: Map<Seq<char>, usize>,
    pub pads: Map<Seq<char>, usize>,
}

/// The first page from `pi` on whose tail has room for `size` words.
pub open spec fn page_with_room(next: Seq<usize>, size: usize, pi: int) -> Option<usize>
    decreases next.len() - pi,
{
    if pi < 0 || pi >= next.len() {
        None
    } else if next[pi] + size <= (pi + 1) * 0x800 {
        Some(pi as usize)
    } else {
        page_with_room(next, size, pi + 1)
    }
}

impl Pack {
    /// At least one page, no more than 32-bit addresses reach, and every
    /// fixed address in 32 bits.
    pub open spec fn wf(self) -> bool {
        &&& 0 < self.next.len() <= 0x1F_FFFF
        &&& forall|n: Seq<char>|
            self.pads.dom().contains(n) ==> #[trigger] self.pads[n] <= u32::MAX
    }

    /// Function `name` of `size` words starts at `start` in page `pi`.
    pub open spec fn put(self, name: Seq<char>, pi: usize, start: usize) -> Pack {
        Pack {
            pages: self.pages.insert(name, pi),
            pads: if start % 0x800 == 0 {
                self.pads.insert(name, start)
            } else {
                self.pads
            },
            ..self
        }
    }

    /// First fit: the lowest page with room, else a new one.
    pub open spec fn place(self, device: &Device, name: Seq<char>, size: usize) -> Result<
        Pack,
        IselError,
    > {
        if size > 0x800 {
            Err(IselError::FunctionTooLarge)
        } else {
            match page_with_room(self.next, size, 0) {
                Some(pi) => {
                    let start = self.next[pi as int];
                    Ok(
                        Pack {
                            next: self.next.update(pi as int, (start + size) as usize),
                            ..self
                        }.put(name, pi, start),
                    )
                },
                None => if self.next.len() >= device.flash_words / 0x800 {
                    Err(IselError::FlashExhausted)
                } else {
                    let pi = self.next.len();
                    let start = (pi * 0x800) as usize;
                    Ok(
                        Pack { next: self.next.push((start + size) as usize), ..self }.put(
                            name,
                            pi as usize,
                            start,
                        ),
                    )
                },
            }
        }
    }

    /// The handler at the vector, the reset code right behind it.
    pub open spec fn place_handler(self, name: Seq<char>, size: usize, init: nat) -> Result<
        Pack,
        IselError,
    > {
        if 4 + size + 4 + init > 0x800 {
            Err(IselError::HandlerTooLarge)
        } else {
            Ok(
                Pack {
                    next: self.next.update(0, (4 + size + 4 + init) as usize),
                    pages: self.pages.insert(name, 0),
                    pads: self.pads.insert(name, 4),
                },
            )
        }
    }
}

/// The functions `order[k..]`, of the given sizes, packed onto `p`.
pub open spec fn pack_from(
    device: &Device,
    m: &Module,
    order: Seq<usize>,
    sizes: Map<Seq<char>, usize>,
    handler: Option<Seq<char>>,
    init: nat,
    p: Pack,
    k: int,
) -> Result<Pack, IselError>
    decreases order.len() - k,
{
    if k < 0 || k >= order.len() {
        Ok(p)
    } else {
        let name = m.funcs@[order[k] as int].name@;
        if !sizes.dom().contains(name) {
            Err(IselError::MissingLabel)
        } else {
            let q = if handler == Some(name) {
                p.place_handler(name, sizes[name], init)
            } else {
                p.place(device, name, sizes[name])
            };
            match q {
                Ok(q) => pack_from(device, m, order, sizes, handler, init, q, k + 1),
                Err(e) => Err(e),
            }
        }
    }
}

/// The functions packed so far.
#[derive(Debug)]
pub struct Packing {
    pub next: Vec<usize>,
    pub pages: PageMap,
    pub pads: NameMap<usize>,
}

impl View for Packing {
    type V = Pack;

    open spec fn view(&self) -> Pack {
        Pack { next: self.next@, pages: self.pages@, pads: self.pads@ }
    }
}

impl Packing {
    /// One page, filled up to `first`.
    pub fn new(first: usize) -> (r: Self)
        ensures
            r@ == (Pack { next: seq![first], pages: Map::empty(), pads: Map::empty() }),
    {
        let mut next: Vec<usize> = Vec::new();
        next.push(first);
        let r = Packing { next, pages: NameMap::new(), pads: NameMap::new() };
        assert(r@.next =~= seq![first]);
        r
    }

    fn put(&mut self, name: &str, pi: usize, start: usize)
        ensures
            final(self)@ == old(self)@.put(name@, pi, start),
    {
        self.pages.insert(name.to_owned(), pi);
        if start % 0x800 == 0 {
            self.pads.insert(name.to_owned(), start);
        }
    }

    /// Places a function in the lowest page with room.
    pub fn place(&mut self, device: &Device, name: &str, size: usize) -> (r: Result<(), IselError>)
        requires
            old(self)@.wf(),
        ensures
            match old(self)@.place(device, name@, size) {
                Ok(p) => r is Ok && final(self)@ == p && p.wf(),
                Err(e) => r == Err::<(), IselError>(e),
            },
    {
        if size > 0x800 {
            return Err(IselError::FunctionTooLarge);
        }
        let mut pi: usize = 0;
        while pi < self.next.len()
            invariant
                size <= 0x800,
                self@ == old(self)@,
                self@.wf(),
                pi <= self.next@.len(),
                page_with_room(self.next@, size, 0) == page_with_room(
                    self.next@,
                    size,
                    pi as int,
                ),
            decreases self.next@.len() - pi,
        {
            let start: usize = self.next[pi];
            if start <= (pi + 1) * 0x800 - size {
                self.next.set(pi, start + size);
                self.put(name, pi, start);
                return Ok(());
            }
            pi += 1;
        }
        let pages: u32 = device.flash_words / 0x800;
        if pi >= pages as usize {
            return Err(IselError::FlashExhausted);
        }
        let start: usize = pi * 0x800;
        self.next.push(start + size);
        self.put(name, pi, start);
        Ok(())
    }

    /// Places the handler at the vector.
    pub fn place_handler(&mut self, name: &str, size: usize, init: usize) -> (r: Result<
        (),
        IselError,
    >)
        requires
            old(self)@.wf(),
        ensures
            match old(self)@.place_handler(name@, size, init as nat) {
                Ok(p) => r is Ok && final(self)@ == p && p.wf(),
                Err(e) => r == Err::<(), IselError>(e),
            },
    {
        if size > 0x800 || init > 0x800 || 4 + size + 4 + init > 0x800 {
            return Err(IselError::HandlerTooLarge);
        }
        self.pages.insert(name.to_owned(), 0);
        self.pads.insert(name.to_owned(), 4);
        self.next.set(0, 4 + size + 4 + init);
        Ok(())
    }
}

} // verus!
