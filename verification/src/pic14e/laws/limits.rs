//! What a program is refused for: its tables, and the bytes that every program needs.
use vstd::prelude::*;
use vstd::seq_lib::lemma_seq_concat_contains_all_elements;
use crate::error::IselError;
use crate::ir::Module;
use crate::line::{sym_text, Sym};
use crate::pic14e::layout::table_chunks;
use crate::pic14e::select::{
    bad_table, chunk_labels, common_base, distinct_labels, gen_for, handlers, labels, saved,
    sound_tables, tables, Inputs,
};
use crate::pic14e::{PageList, COPY_INDEX};

verus! {

proof fn lemma_chunk_labels(gi: usize, n: nat, from: nat, c: u32)
    requires
        from <= c < n,
    ensures
        chunk_labels(gi, n, from).contains(Sym::Chunk(gi, c)),
        chunk_labels(gi, n, from).contains(Sym::Reader(gi, c)),
    decreases n - from,
{
    let two = seq![Sym::Chunk(gi, from as u32), Sym::Reader(gi, from as u32)];
    let rest = chunk_labels(gi, n, from + 1);
    lemma_seq_concat_contains_all_elements(two, rest, Sym::Chunk(gi, c));
    lemma_seq_concat_contains_all_elements(two, rest, Sym::Reader(gi, c));
    if from < c {
        lemma_chunk_labels(gi, n, from + 1, c);
    } else {
        assert(two[0] == Sym::Chunk(gi, c));
        assert(two[1] == Sym::Reader(gi, c));
    }
}

/// Whether a symbol is the label of chunk `c` of table number `k`, or of its reader.
pub open spec fn claims_at(m: &Module, consts: Seq<usize>, s: Sym, k: int, c: u32) -> bool {
    &&& 0 <= k < consts.len()
    &&& c < table_chunks(m.globals@[consts[k] as int].bytes@.len())
    &&& s == Sym::Chunk(consts[k], c) || s == Sym::Reader(consts[k], c)
}

/// Whether a symbol is the label of a chunk of a table, or of its reader.
pub open spec fn claims(m: &Module, consts: Seq<usize>, s: Sym) -> bool {
    exists|k: int, c: u32| #[trigger] claims_at(m, consts, s, k, c)
}

proof fn lemma_labels(m: &Module, consts: Seq<usize>, from: int, k: int, c: u32)
    requires
        0 <= from <= k < consts.len(),
        c < table_chunks(m.globals@[consts[k] as int].bytes@.len()),
    ensures
        labels(m, consts, from).contains(Sym::Chunk(consts[k], c)),
        labels(m, consts, from).contains(Sym::Reader(consts[k], c)),
    decreases k - from,
{
    let n = table_chunks(m.globals@[consts[from] as int].bytes@.len());
    let here = chunk_labels(consts[from], n, 0);
    let rest = labels(m, consts, from + 1);
    lemma_seq_concat_contains_all_elements(here, rest, Sym::Chunk(consts[k], c));
    lemma_seq_concat_contains_all_elements(here, rest, Sym::Reader(consts[k], c));
    if from < k {
        lemma_labels(m, consts, from + 1, k, c);
    } else {
        lemma_chunk_labels(consts[k], n, 0, c);
    }
}

proof fn lemma_claimed(m: &Module, consts: Seq<usize>, s: Sym)
    requires
        claims(m, consts, s),
    ensures
        labels(m, consts, 0).contains(s),
{
    let (k, c) = choose|k: int, c: u32| #[trigger] claims_at(m, consts, s, k, c);
    lemma_labels(m, consts, 0, k, c);
}

proof fn lemma_bad_table(m: &Module, consts: Seq<usize>, from: int)
    requires
        0 <= from,
    ensures
        match bad_table(m, consts, from) {
            None => forall|k: int|
                from <= k < consts.len() ==> 1 <= m.globals@[#[trigger] consts[k] as int].bytes@.len()
                    <= 65535,
            Some(e) => exists|k: int|
                from <= k < consts.len() && if e == IselError::EmptyTable {
                    m.globals@[#[trigger] consts[k] as int].bytes@.len() == 0
                } else {
                    e == IselError::TableTooLarge && m.globals@[consts[k] as int].bytes@.len()
                        > 65535
                },
        },
    decreases consts.len() - from,
{
    if from < consts.len() {
        lemma_bad_table(m, consts, from + 1);
        let size = m.globals@[consts[from] as int].bytes@.len();
    }
}

/// Tables are laid out only if each has a byte and no more than an index of two bytes can
/// reach, and no two of their labels, of chunks or of readers, are spelled alike; and they
/// are refused only for one of these.
pub proof fn law_tables_are_refused_by_size_and_label(x: Inputs)
    ensures
        ({
            let consts = tables(x.m, x.addrs, x.m.globals@.len() as int);
            match sound_tables(x) {
                Ok(v) => {
                    &&& v == consts
                    &&& forall|k: int|
                        0 <= k < consts.len() ==> 1 <= x.m.globals@[#[trigger] consts[k] as int].bytes@.len()
                            <= 65535
                    &&& forall|s: Sym, t: Sym|
                        s != t && claims(x.m, consts, s) && claims(x.m, consts, t)
                            ==> #[trigger] sym_text(x.m, s) != #[trigger] sym_text(x.m, t)
                },
                Err(e) => {
                    ||| e == IselError::LabelCollision && !distinct_labels(
                        x.m,
                        labels(x.m, consts, 0),
                    )
                    ||| e == IselError::EmptyTable && exists|k: int|
                        0 <= k < consts.len() && x.m.globals@[#[trigger] consts[k] as int].bytes@.len()
                            == 0
                    ||| e == IselError::TableTooLarge && exists|k: int|
                        0 <= k < consts.len() && x.m.globals@[#[trigger] consts[k] as int].bytes@.len()
                            > 65535
                },
            }
        }),
{
    let consts = tables(x.m, x.addrs, x.m.globals@.len() as int);
    lemma_bad_table(x.m, consts, 0);
    if sound_tables(x) is Ok {
        let ls = labels(x.m, consts, 0);
        assert forall|s: Sym, t: Sym|
            s != t && claims(x.m, consts, s) && claims(x.m, consts, t) implies #[trigger] sym_text(
            x.m,
            s,
        ) != #[trigger] sym_text(x.m, t) by {
            lemma_claimed(x.m, consts, s);
            lemma_claimed(x.m, consts, t);
            let i = choose|i: int| 0 <= i < ls.len() && ls[i] == s;
            let j = choose|j: int| 0 <= j < ls.len() && ls[j] == t;
            if i < j {
                assert(sym_text(x.m, ls[i]) != sym_text(x.m, ls[j]));
            } else {
                assert(sym_text(x.m, ls[j]) != sym_text(x.m, ls[i]));
            }
        }
    }
}

/// Where the common RAM starts at 0x70, as on every device of this core, a program is
/// selected only if all of the bytes that are fixed in it lie within: those of a
/// comparison and of a result, those that a handler saves and what it saves them in, and
/// the index of a copy. Sixteen bytes are enough, and each handler needs a vector.
pub proof fn law_fixed_bytes_lie_in_the_common_ram(
    x: Inputs,
    func: usize,
    pages: Option<&PageList>,
    k: u8,
)
    ensures
        x.device.common_ram matches Some((lo, hi)) ==> lo == 0x70 && common_base(x) is Ok ==> {
            let g = gen_for(x, common_base(x)->Ok_0, func, pages);
            &&& g.scratch == lo
            &&& g.scratch < g.retval && g.retval + 4 <= saved(0).1
            &&& g.retval + 3 <= hi
            &&& lo <= saved(k).0 <= hi && lo <= saved(k).1 <= hi
            &&& saved(k).0 < g.retval + 4 && saved(k).1 >= g.retval + 4
            &&& saved(k).1 < COPY_INDEX <= hi
            &&& handlers(x.m).len() <= x.device.interrupt_vectors@.len()
        },
        x.device.common_ram == Some((0x70u16, 0x7Fu16)) && handlers(x.m).len()
            <= x.device.interrupt_vectors@.len() ==> common_base(x) is Ok,
        x.device.common_ram is None ==> common_base(x) is Err,
{
}

} // verus!
