//! What holds of the edges between blocks: whom a label names, and what is copied where
//! control merges.
use vstd::prelude::*;
use vstd::seq_lib::lemma_seq_concat_contains_all_elements;
use crate::cfg::{block_before, block_copies, block_sym, edge_copies, phi_incoming, PhiCopy};
use crate::ir::{Block, Inst, Phi};
use crate::line::Sym;

verus! {

/// Whether the `k`-th value of a phi is one for control that comes from `pred`, and `c`
/// copies it.
pub open spec fn gives(p: &Phi, pred: Seq<char>, k: int, c: PhiCopy) -> bool {
    &&& 0 <= k < p.incoming@.len()
    &&& p.incoming@[k].pred@ == pred
    &&& c.dst == &p.dst
    &&& c.ty == p.ty
    &&& c.val == &p.incoming@[k].val
}

/// Whether an instruction is a phi, and `c` copies a value that it has for `pred`.
pub open spec fn phi_gives(i: Inst, pred: Seq<char>, c: PhiCopy) -> bool {
    &&& i is Phi
    &&& exists|k: int| gives(&i->Phi_0, pred, k, c)
}

/// Whether `c` copies a value that a phi of block `merge` has for `pred`.
pub open spec fn edge_gives(
    blocks: Seq<Block>,
    pred: Seq<char>,
    merge: Seq<char>,
    i: int,
    j: int,
    c: PhiCopy,
) -> bool {
    &&& 0 <= i < blocks.len()
    &&& blocks[i].label@ == merge
    &&& 0 <= j < blocks[i].insts@.len()
    &&& phi_gives(blocks[i].insts@[j], pred, c)
}

proof fn lemma_incoming(p: &Phi, pred: Seq<char>, from: int, c: PhiCopy)
    requires
        0 <= from,
    ensures
        phi_incoming(p, pred, from).contains(c) <==> exists|k: int|
            from <= k && #[trigger] gives(p, pred, k, c),
    decreases p.incoming@.len() - from,
{
    if from < p.incoming@.len() {
        lemma_incoming(p, pred, from + 1, c);
        let rest = phi_incoming(p, pred, from + 1);
        if p.incoming@[from].pred@ == pred {
            let x = PhiCopy { dst: &p.dst, ty: p.ty, val: &p.incoming@[from].val };
            lemma_seq_concat_contains_all_elements(seq![x], rest, c);
            assert(seq![x].contains(c) <==> x == c) by {
                assert(seq![x][0] == x);
            }
            assert(gives(p, pred, from, x));
        }
        if exists|k: int| from <= k && #[trigger] gives(p, pred, k, c) {
            let k = choose|k: int| from <= k && #[trigger] gives(p, pred, k, c);
            if k > from {
                assert(from + 1 <= k && gives(p, pred, k, c));
            }
        }
        if phi_incoming(p, pred, from).contains(c) {
            if rest.contains(c) {
                let k = choose|k: int| from + 1 <= k && #[trigger] gives(p, pred, k, c);
                assert(from <= k && gives(p, pred, k, c));
            } else {
                assert(gives(p, pred, from, c));
            }
        }
    }
}

proof fn lemma_block(b: &Block, pred: Seq<char>, from: int, c: PhiCopy)
    requires
        0 <= from,
    ensures
        block_copies(b, pred, from).contains(c) <==> exists|j: int|
            from <= j < b.insts@.len() && phi_gives(#[trigger] b.insts@[j], pred, c),
    decreases b.insts@.len() - from,
{
    if from < b.insts@.len() {
        lemma_block(b, pred, from + 1, c);
        let rest = block_copies(b, pred, from + 1);
        if b.insts@[from] is Phi {
            let p = &b.insts@[from]->Phi_0;
            lemma_incoming(p, pred, 0, c);
            lemma_seq_concat_contains_all_elements(phi_incoming(p, pred, 0), rest, c);
            assert(phi_incoming(p, pred, 0).contains(c) <==> phi_gives(b.insts@[from], pred, c)) by {
                if phi_gives(b.insts@[from], pred, c) {
                    let k = choose|k: int| gives(p, pred, k, c);
                    assert(0 <= k && gives(p, pred, k, c));
                }
            }
        }
        assert(block_copies(b, pred, from).contains(c) <==> phi_gives(b.insts@[from], pred, c)
            || rest.contains(c));
        if rest.contains(c) {
            let j = choose|j: int|
                from + 1 <= j < b.insts@.len() && phi_gives(#[trigger] b.insts@[j], pred, c);
            assert(from <= j && phi_gives(b.insts@[j], pred, c));
        }
    }
}

proof fn lemma_edge(blocks: Seq<Block>, pred: Seq<char>, merge: Seq<char>, from: int, c: PhiCopy)
    requires
        0 <= from,
    ensures
        edge_copies(blocks, pred, merge, from).contains(c) <==> exists|i: int, j: int|
            from <= i && #[trigger] edge_gives(blocks, pred, merge, i, j, c),
    decreases blocks.len() - from,
{
    if from < blocks.len() {
        lemma_edge(blocks, pred, merge, from + 1, c);
        let rest = edge_copies(blocks, pred, merge, from + 1);
        let b = &blocks[from];
        if b.label@ == merge {
            lemma_block(b, pred, 0, c);
            lemma_seq_concat_contains_all_elements(block_copies(b, pred, 0), rest, c);
        }
        if edge_copies(blocks, pred, merge, from).contains(c) {
            if rest.contains(c) {
                let (i, j) = choose|i: int, j: int|
                    from + 1 <= i && #[trigger] edge_gives(blocks, pred, merge, i, j, c);
                assert(from <= i && edge_gives(blocks, pred, merge, i, j, c));
            } else {
                let j = choose|j: int|
                    0 <= j < b.insts@.len() && phi_gives(#[trigger] b.insts@[j], pred, c);
                assert(edge_gives(blocks, pred, merge, from, j, c));
            }
        }
        if exists|i: int, j: int| from <= i && #[trigger] edge_gives(blocks, pred, merge, i, j, c) {
            let (i, j) = choose|i: int, j: int|
                from <= i && #[trigger] edge_gives(blocks, pred, merge, i, j, c);
            if i > from {
                assert(from + 1 <= i && edge_gives(blocks, pred, merge, i, j, c));
            } else {
                assert(phi_gives(b.insts@[j], pred, c));
            }
        }
    }
}

/// Where control goes from `pred` to `merge`, every phi of `merge` is given the value
/// that it has for `pred`; no value that it has for another block is copied, and no phi
/// of another block is touched.
pub proof fn law_edge_gives_each_phi_its_value(
    blocks: Seq<Block>,
    pred: Seq<char>,
    merge: Seq<char>,
    c: PhiCopy,
)
    ensures
        edge_copies(blocks, pred, merge, 0).contains(c) <==> exists|i: int, j: int| #[trigger]
            edge_gives(blocks, pred, merge, i, j, c),
{
    lemma_edge(blocks, pred, merge, 0, c);
    if exists|i: int, j: int| #[trigger] edge_gives(blocks, pred, merge, i, j, c) {
        let (i, j) = choose|i: int, j: int| #[trigger] edge_gives(blocks, pred, merge, i, j, c);
        assert(0 <= i && edge_gives(blocks, pred, merge, i, j, c));
    }
}

proof fn lemma_before(blocks: Seq<Block>, label: Seq<char>, n: int)
    requires
        0 <= n <= blocks.len() <= usize::MAX,
    ensures
        match block_before(blocks, label, n) {
            Some(i) => i < n && blocks[i as int].label@ == label,
            None => forall|k: int| 0 <= k < n ==> (#[trigger] blocks[k]).label@ != label,
        },
    decreases n,
{
    if n > 0 {
        lemma_before(blocks, label, n - 1);
    }
}

/// A label that one block has names that block: its function if it is the first, and the
/// block by its number otherwise. A label that no block has names nothing.
pub proof fn law_label_names_its_block(f: usize, blocks: Seq<Block>, label: Seq<char>)
    requires
        blocks.len() <= usize::MAX,
        forall|i: int, j: int|
            0 <= i < j < blocks.len() ==> (#[trigger] blocks[i]).label@ != (
            #[trigger] blocks[j]).label@,
    ensures
        block_sym(f, blocks, label) is None <==> forall|i: int|
            0 <= i < blocks.len() ==> (#[trigger] blocks[i]).label@ != label,
        forall|i: int|
            #![trigger blocks[i]]
            0 < i < blocks.len() && blocks[i].label@ == label ==> block_sym(f, blocks, label)
                == Some(Sym::Block(f, i as usize)),
        blocks.len() > 0 && blocks[0].label@ == label ==> block_sym(f, blocks, label) == Some(
            Sym::Func(f),
        ),
{
    lemma_before(blocks, label, blocks.len() as int);
    if let Some(n) = block_before(blocks, label, blocks.len() as int) {
        assert(blocks[n as int].label@ == label);
    }
}

} // verus!
