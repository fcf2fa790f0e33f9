//! The control-flow graph of a function: labels, dominance, and the order of
//! phi copies on an edge.
use vstd::prelude::*;
use crate::ir::{Block, Func, Inst, Phi, Ty, Val};
use crate::line::Sym;
use crate::text::same;

verus! {

/// The last block before `i` with label `label`.
pub open spec fn block_before(blocks: Seq<Block>, label: Seq<char>, i: int) -> Option<usize>
    decreases i,
{
    if i <= 0 || i > blocks.len() {
        None
    } else if blocks[i - 1].label@ == label {
        Some((i - 1) as usize)
    } else {
        block_before(blocks, label, i - 1)
    }
}

/// The assembly label of block `label` of function number `f`: the first
/// block is named after its function.
pub open spec fn block_sym(f: usize, blocks: Seq<Block>, label: Seq<char>) -> Option<Sym> {
    match block_before(blocks, label, blocks.len() as int) {
        Some(i) => Some(
            if i == 0 {
                Sym::Func(f)
            } else {
                Sym::Block(f, i)
            },
        ),
        None => None,
    }
}

pub fn find_block_sym(f: usize, blocks: &Vec<Block>, label: &str) -> (r: Option<Sym>)
    ensures
        r == block_sym(f, blocks@, label@),
{
    let mut i: usize = blocks.len();
    while i > 0
        invariant
            i <= blocks@.len(),
            block_before(blocks@, label@, blocks@.len() as int) == block_before(
                blocks@,
                label@,
                i as int,
            ),
        decreases i,
    {
        i -= 1;
        if same(blocks[i].label.as_str(), label) {
            return Some(
                if i == 0 {
                    Sym::Func(f)
                } else {
                    Sym::Block(f, i)
                },
            );
        }
    }
    None
}

/// Whether control can go from the end of `b` to label `to`.
pub open spec fn targets(b: Block, to: Seq<char>) -> bool {
    b.insts@.len() > 0 && match b.insts@.last() {
        Inst::Br(x) => x.target@ == to,
        Inst::BrCond(x) => x.t@ == to || x.f@ == to,
        _ => false,
    }
}

/// Whether some block labelled `from` can go to label `to`.
pub open spec fn flows(blocks: Seq<Block>, from: Seq<char>, to: Seq<char>) -> bool {
    exists|i: int| 0 <= i < blocks.len() && (#[trigger] blocks[i]).label@ == from && targets(
        blocks[i],
        to,
    )
}

/// A path through the labels of a function, from its entry.
pub open spec fn is_path(blocks: Seq<Block>, p: Seq<Seq<char>>) -> bool {
    p.len() > 0 && p[0] == blocks[0].label@ && forall|i: int|
        0 <= i < p.len() - 1 ==> flows(blocks, #[trigger] p[i], p[i + 1])
}

/// Label `d` dominates label `b`: every path to `b` goes through `d`.
pub open spec fn dominates(blocks: Seq<Block>, d: Seq<char>, b: Seq<char>) -> bool {
    forall|p: Seq<Seq<char>>|
        #![trigger is_path(blocks, p)]
        is_path(blocks, p) && p.last() == b ==> p.contains(d)
}

/// Whether the edge from `pred` to `merge` closes a loop: `merge` dominates
/// the block the edge leaves.
pub open spec fn back_edge(blocks: Seq<Block>, pred: Seq<char>, merge: Seq<char>) -> bool {
    (exists|i: int| 0 <= i < blocks.len() && (#[trigger] blocks[i]).label@ == merge) && dominates(
        blocks,
        merge,
        pred,
    )
}

fn has_target(b: &Block, to: &str) -> (r: bool)
    ensures
        r == targets(*b, to@),
{
    if b.insts.len() == 0 {
        return false;
    }
    match &b.insts[b.insts.len() - 1] {
        Inst::Br(x) => same(x.target.as_str(), to),
        Inst::BrCond(x) => same(x.t.as_str(), to) || same(x.f.as_str(), to),
        _ => false,
    }
}

pub open spec fn count_true(s: Seq<bool>) -> nat
    decreases s.len(),
{
    if s.len() == 0 {
        0
    } else {
        count_true(s.drop_last()) + (if s.last() {
            1nat
        } else {
            0
        })
    }
}

proof fn lemma_count_update(s: Seq<bool>, i: int)
    requires
        0 <= i < s.len(),
        s[i],
    ensures
        count_true(s.update(i, false)) + 1 == count_true(s),
    decreases s.len(),
{
    let t = s.update(i, false);
    if i == s.len() - 1 {
        assert(t.drop_last() =~= s.drop_last());
    } else {
        assert(t.drop_last() =~= s.drop_last().update(i, false));
        lemma_count_update(s.drop_last(), i);
    }
}

/// Dominance between the blocks of a function: row `b`, column `d` holds
/// whether block `d` dominates block `b`.
#[derive(Debug)]
pub struct Doms {
    rows: Vec<Vec<bool>>,
}

impl Doms {
    pub closed spec fn holds(&self, b: int, d: int) -> bool {
        self.rows@[b]@[d]
    }

    pub closed spec fn shape(&self, n: int) -> bool {
        self.rows@.len() == n && forall|i: int| 0 <= i < n ==> (#[trigger] self.rows@[i])@.len() == n
    }

    /// The table states dominance between the blocks of `blocks`.
    pub open spec fn correct(&self, blocks: Seq<Block>) -> bool {
        self.shape(blocks.len() as int) && forall|b: int, d: int|
            0 <= b < blocks.len() && 0 <= d < blocks.len() ==> (#[trigger] self.holds(b, d)
                <==> dominates(blocks, blocks[d].label@, blocks[b].label@))
    }
}

spec fn trues(rows: Seq<Vec<bool>>, n: int) -> nat
    decreases n,
{
    if n <= 0 {
        0
    } else {
        trues(rows, n - 1) + count_true(rows[n - 1]@)
    }
}

proof fn lemma_trues_same(a: Seq<Vec<bool>>, b: Seq<Vec<bool>>, n: int)
    requires
        0 <= n <= a.len(),
        n <= b.len(),
        forall|i: int| 0 <= i < n ==> a[i]@ == b[i]@,
    ensures
        trues(a, n) == trues(b, n),
    decreases n,
{
    if n > 0 {
        lemma_trues_same(a, b, n - 1);
    }
}

proof fn lemma_trues_clear(a: Seq<Vec<bool>>, b: Seq<Vec<bool>>, n: int, r: int, c: int)
    requires
        0 <= r < n <= a.len(),
        n <= b.len(),
        0 <= c < a[r]@.len(),
        a[r]@[c],
        b[r]@ == a[r]@.update(c, false),
        forall|i: int| 0 <= i < n && i != r ==> a[i]@ == b[i]@,
    ensures
        trues(b, n) + 1 == trues(a, n),
    decreases n,
{
    if r == n - 1 {
        lemma_trues_same(a, b, n - 1);
        lemma_count_update(a[r]@, c);
    } else {
        lemma_trues_clear(a, b, n - 1, r, c);
    }
}

/// Dominance that the table never loses while it is refined.
spec fn sound(blocks: Seq<Block>, rows: Seq<Vec<bool>>) -> bool {
    forall|b: int, d: int|
        0 <= b < blocks.len() && 0 <= d < blocks.len() && dominates(
            blocks,
            (#[trigger] blocks[d]).label@,
            (#[trigger] blocks[b]).label@,
        ) ==> rows[b]@[d]
}

/// A block with the entry's label has no dominator of another name.
spec fn entry_done(blocks: Seq<Block>, rows: Seq<Vec<bool>>) -> bool {
    forall|b: int, d: int|
        0 <= b < blocks.len() && 0 <= d < blocks.len() && (#[trigger] blocks[b]).label@
            == blocks[0].label@ && (#[trigger] rows[b]@[d]) ==> blocks[d].label@ == blocks[0].label@
}

/// Nothing is left to clear at row `b`, column `d`.
spec fn settled(blocks: Seq<Block>, rows: Seq<Vec<bool>>, b: int, d: int) -> bool {
    blocks[b].label@ == blocks[0].label@ || blocks[d].label@ == blocks[b].label@ || !rows[b]@[d]
        || forall|x: int|
        0 <= x < blocks.len() && targets(#[trigger] blocks[x], blocks[b].label@) ==> rows[x]@[d]
}

proof fn lemma_extend_path(blocks: Seq<Block>, p: Seq<Seq<char>>, to: Seq<char>)
    requires
        is_path(blocks, p),
        flows(blocks, p.last(), to),
    ensures
        is_path(blocks, p.push(to)),
{
    let q = p.push(to);
    assert forall|i: int| 0 <= i < q.len() - 1 implies flows(blocks, #[trigger] q[i], q[i + 1]) by {
        if i < p.len() - 1 {
            assert(q[i] == p[i]);
            assert(flows(blocks, p[i], p[i + 1]));
        } else {
            assert(q[i] == p.last());
        }
    }
}

/// A dominator of `b` other than `b` dominates every predecessor of `b`.
proof fn lemma_dominates_pred(blocks: Seq<Block>, d: Seq<char>, b: int, x: int)
    requires
        0 <= b < blocks.len(),
        0 <= x < blocks.len(),
        targets(blocks[x], blocks[b].label@),
        d != blocks[b].label@,
        dominates(blocks, d, blocks[b].label@),
    ensures
        dominates(blocks, d, blocks[x].label@),
{
    assert forall|p: Seq<Seq<char>>|
        #![trigger is_path(blocks, p)]
        is_path(blocks, p) && p.last() == blocks[x].label@ implies p.contains(d) by {
        assert(flows(blocks, p.last(), blocks[b].label@));
        lemma_extend_path(blocks, p, blocks[b].label@);
        let q = p.push(blocks[b].label@);
        assert(q.last() == blocks[b].label@);
        assert(q.contains(d));
        let i = choose|i: int| 0 <= i < q.len() && q[i] == d;
        assert(i < p.len());
        assert(p[i] == d);
    }
}

/// In a settled table every entry lies on every path.
proof fn lemma_settled_on_path(
    blocks: Seq<Block>,
    rows: Seq<Vec<bool>>,
    p: Seq<Seq<char>>,
    b: int,
    d: int,
)
    requires
        0 <= b < blocks.len(),
        0 <= d < blocks.len(),
        entry_done(blocks, rows),
        forall|i: int, j: int|
            0 <= i < blocks.len() && 0 <= j < blocks.len() ==> #[trigger] settled(blocks, rows, i, j),
        is_path(blocks, p),
        p.last() == blocks[b].label@,
        rows[b]@[d],
    ensures
        p.contains(blocks[d].label@),
    decreases p.len(),
{
    let goal = blocks[d].label@;
    if blocks[b].label@ == blocks[0].label@ {
        assert(rows[b]@[d]);
        assert(p[0] == goal);
    } else if goal == blocks[b].label@ {
        assert(p[p.len() - 1] == goal);
    } else {
        assert(p.len() > 1);
        let k = p.len() - 2;
        assert(flows(blocks, p[k], p[k + 1]));
        let x = choose|x: int|
            0 <= x < blocks.len() && (#[trigger] blocks[x]).label@ == p[k] && targets(
                blocks[x],
                p[k + 1],
            );
        assert(settled(blocks, rows, b, d));
        assert(rows[x]@[d]);
        let q = p.drop_last();
        assert forall|i: int| 0 <= i < q.len() - 1 implies flows(blocks, #[trigger] q[i], q[i + 1]) by {
            assert(p[i] == q[i]);
            assert(flows(blocks, p[i], p[i + 1]));
        }
        lemma_settled_on_path(blocks, rows, q, x, d);
        let i = choose|i: int| 0 <= i < q.len() && q[i] == goal;
        assert(p[i] == goal);
    }
}

/// A row of the start table: full, or the entry alone.
fn first_row(blocks: &Vec<Block>, b: usize) -> (r: Vec<bool>)
    requires
        b < blocks@.len(),
    ensures
        r@.len() == blocks@.len(),
        forall|d: int|
            0 <= d < blocks@.len() ==> r@[d] == (blocks@[b as int].label@ != blocks@[0].label@
                || blocks@[d].label@ == blocks@[0].label@),
{
    let entry = blocks[0].label.as_str();
    let full: bool = !same(blocks[b].label.as_str(), entry);
    let mut row: Vec<bool> = Vec::new();
    let mut d: usize = 0;
    while d < blocks.len()
        invariant
            b < blocks@.len(),
            entry@ == blocks@[0].label@,
            full == (blocks@[b as int].label@ != blocks@[0].label@),
            d <= blocks@.len(),
            row@.len() == d,
            forall|j: int|
                0 <= j < d ==> row@[j] == (full || blocks@[j].label@ == blocks@[0].label@),
        decreases blocks@.len() - d,
    {
        row.push(full || same(blocks[d].label.as_str(), entry));
        d += 1;
    }
    row
}

/// Whether some predecessor of block `b` is not dominated by `d`.
fn loses(blocks: &Vec<Block>, rows: &Vec<Vec<bool>>, b: usize, d: usize) -> (r: bool)
    requires
        b < blocks@.len(),
        d < blocks@.len(),
        rows@.len() == blocks@.len(),
        forall|i: int| 0 <= i < rows@.len() ==> (#[trigger] rows@[i])@.len() == blocks@.len(),
    ensures
        r == exists|x: int|
            0 <= x < blocks@.len() && targets(#[trigger] blocks@[x], blocks@[b as int].label@)
                && !rows@[x]@[d as int],
{
    let to = blocks[b].label.as_str();
    let mut x: usize = 0;
    while x < blocks.len()
        invariant
            b < blocks@.len(),
            d < blocks@.len(),
            to@ == blocks@[b as int].label@,
            rows@.len() == blocks@.len(),
            forall|i: int| 0 <= i < rows@.len() ==> (#[trigger] rows@[i])@.len() == blocks@.len(),
            x <= blocks@.len(),
            forall|j: int|
                0 <= j < x && targets(#[trigger] blocks@[j], blocks@[b as int].label@)
                    ==> rows@[j]@[d as int],
        decreases blocks@.len() - x,
    {
        if has_target(&blocks[x], to) && !rows[x][d] {
            assert(targets(blocks@[x as int], blocks@[b as int].label@));
            return true;
        }
        x += 1;
    }
    false
}

/// The dominance table of a function with at least one block. It starts
/// full and loses every entry that some predecessor lacks, until nothing
/// changes.
pub fn block_dominators(blocks: &Vec<Block>) -> (r: Doms)
    requires
        blocks@.len() > 0,
    ensures
        r.correct(blocks@),
{
    let n: usize = blocks.len();
    let mut rows: Vec<Vec<bool>> = Vec::new();
    while rows.len() < n
        invariant
            n == blocks@.len(),
            rows@.len() <= n,
            forall|i: int| 0 <= i < rows@.len() ==> (#[trigger] rows@[i])@.len() == n,
            forall|i: int, d: int|
                0 <= i < rows@.len() && 0 <= d < n ==> (#[trigger] rows@[i]@[d]) == (
                blocks@[i].label@ != blocks@[0].label@ || blocks@[d].label@ == blocks@[0].label@),
        decreases n - rows@.len(),
    {
        let row = first_row(blocks, rows.len());
        rows.push(row);
    }
    proof {
        assert forall|b: int, d: int|
            0 <= b < blocks@.len() && 0 <= d < blocks@.len() && dominates(
                blocks@,
                (#[trigger] blocks@[d]).label@,
                (#[trigger] blocks@[b]).label@,
            ) implies rows@[b]@[d] by {
            if blocks@[b].label@ == blocks@[0].label@ {
                let p = seq![blocks@[0].label@];
                assert(is_path(blocks@, p));
                assert(p.last() == blocks@[b].label@);
                assert(p.contains(blocks@[d].label@));
            }
            assert(rows@[b]@[d] == (blocks@[b].label@ != blocks@[0].label@ || blocks@[d].label@
                == blocks@[0].label@));
        }
        assert forall|b: int, d: int|
            0 <= b < blocks@.len() && 0 <= d < blocks@.len() && (#[trigger] blocks@[b]).label@
                == blocks@[0].label@ && (#[trigger] rows@[b]@[d]) implies blocks@[d].label@
            == blocks@[0].label@ by {}
    }
    let mut changed: bool = true;
    while changed
        invariant
            n == blocks@.len(),
            n > 0,
            rows@.len() == n,
            forall|i: int| 0 <= i < n ==> (#[trigger] rows@[i])@.len() == n,
            sound(blocks@, rows@),
            entry_done(blocks@, rows@),
            !changed ==> forall|i: int, j: int|
                0 <= i < n && 0 <= j < n ==> #[trigger] settled(blocks@, rows@, i, j),
        decreases trues(rows@, n as int) + (if changed {
            1nat
        } else {
            0
        }),
    {
        changed = false;
        let ghost before = trues(rows@, n as int);
        let mut b: usize = 0;
        while b < n
            invariant
                n == blocks@.len(),
                n > 0,
                b <= n,
                rows@.len() == n,
                forall|i: int| 0 <= i < n ==> (#[trigger] rows@[i])@.len() == n,
                sound(blocks@, rows@),
                entry_done(blocks@, rows@),
                trues(rows@, n as int) + (if changed {
                    1nat
                } else {
                    0
                }) <= before,
                !changed ==> forall|i: int, j: int|
                    0 <= i < b && 0 <= j < n ==> #[trigger] settled(blocks@, rows@, i, j),
            decreases n - b,
        {
            let is_entry: bool = same(blocks[b].label.as_str(), blocks[0].label.as_str());
            let mut d: usize = 0;
            while d < n
                invariant
                    n == blocks@.len(),
                    n > 0,
                    b < n,
                    d <= n,
                    is_entry == (blocks@[b as int].label@ == blocks@[0].label@),
                    rows@.len() == n,
                    forall|i: int| 0 <= i < n ==> (#[trigger] rows@[i])@.len() == n,
                    sound(blocks@, rows@),
                    entry_done(blocks@, rows@),
                    trues(rows@, n as int) + (if changed {
                        1nat
                    } else {
                        0
                    }) <= before,
                    !changed ==> forall|i: int, j: int|
                        0 <= i < b && 0 <= j < n ==> #[trigger] settled(blocks@, rows@, i, j),
                    !changed ==> forall|j: int|
                        0 <= j < d ==> #[trigger] settled(blocks@, rows@, b as int, j),
                decreases n - d,
            {
                if !is_entry && rows[b][d] && !same(
                    blocks[d].label.as_str(),
                    blocks[b].label.as_str(),
                ) && loses(blocks, &rows, b, d) {
                    let ghost old_rows = rows@;
                    proof {
                        if dominates(
                            blocks@,
                            blocks@[d as int].label@,
                            blocks@[b as int].label@,
                        ) {
                            let x = choose|x: int|
                                0 <= x < blocks@.len() && targets(
                                    #[trigger] blocks@[x],
                                    blocks@[b as int].label@,
                                ) && !rows@[x]@[d as int];
                            lemma_dominates_pred(blocks@, blocks@[d as int].label@, b as int, x);
                            assert(rows@[x]@[d as int]);
                            assert(false);
                        }
                    }
                    let mut row: Vec<bool> = Vec::new();
                    let mut j: usize = 0;
                    while j < n
                        invariant
                            b < n,
                            d < n,
                            j <= n,
                            n == blocks@.len(),
                            rows@ == old_rows,
                            rows@.len() == n,
                            rows@[b as int]@.len() == n,
                            row@.len() == j,
                            forall|k: int|
                                0 <= k < j ==> row@[k] == (k != d && rows@[b as int]@[k]),
                        decreases n - j,
                    {
                        row.push(j != d && rows[b][j]);
                        j += 1;
                    }
                    assert(row@ =~= rows@[b as int]@.update(d as int, false));
                    rows.set(b, row);
                    proof {
                        lemma_trues_clear(old_rows, rows@, n as int, b as int, d as int);
                        assert(sound(blocks@, rows@)) by {
                            assert forall|bb: int, dd: int|
                                0 <= bb < blocks@.len() && 0 <= dd < blocks@.len() && dominates(
                                    blocks@,
                                    (#[trigger] blocks@[dd]).label@,
                                    (#[trigger] blocks@[bb]).label@,
                                ) implies rows@[bb]@[dd] by {
                                assert(old_rows[bb]@[dd]);
                            }
                        }
                        assert(entry_done(blocks@, rows@)) by {
                            assert forall|bb: int, dd: int|
                                0 <= bb < blocks@.len() && 0 <= dd < blocks@.len() && (
                                #[trigger] blocks@[bb]).label@ == blocks@[0].label@ && (
                                #[trigger] rows@[bb]@[dd]) implies blocks@[dd].label@
                                == blocks@[0].label@ by {
                                assert(old_rows[bb]@[dd]);
                            }
                        }
                    }
                    changed = true;
                } else {
                    assert(settled(blocks@, rows@, b as int, d as int));
                }
                d += 1;
            }
            b += 1;
        }
    }
    let r = Doms { rows };
    proof {
        assert forall|b: int, d: int|
            0 <= b < blocks@.len() && 0 <= d < blocks@.len() implies (#[trigger] r.holds(b, d)
            <==> dominates(blocks@, blocks@[d].label@, blocks@[b].label@)) by {
            if r.holds(b, d) {
                assert forall|p: Seq<Seq<char>>|
                    #![trigger is_path(blocks@, p)]
                    is_path(blocks@, p) && p.last() == blocks@[b].label@ implies p.contains(
                    blocks@[d].label@,
                ) by {
                    lemma_settled_on_path(blocks@, r.rows@, p, b, d);
                }
            }
            if dominates(blocks@, blocks@[d].label@, blocks@[b].label@) {
                assert(r.rows@[b]@[d]);
            }
        }
    }
    r
}

impl Doms {
    /// Whether the edge from block `b` to `merge` is a back edge.
    pub fn is_back_edge(&self, blocks: &Vec<Block>, b: usize, merge: &str) -> (r: bool)
        requires
            self.correct(blocks@),
            b < blocks@.len(),
        ensures
            r == back_edge(blocks@, blocks@[b as int].label@, merge@),
    {
        let mut i: usize = 0;
        while i < blocks.len()
            invariant
                i <= blocks@.len(),
                self.correct(blocks@),
                b < blocks@.len(),
                forall|j: int| 0 <= j < i ==> (#[trigger] blocks@[j]).label@ != merge@,
            decreases blocks@.len() - i,
        {
            if same(blocks[i].label.as_str(), merge) {
                assert(blocks@[i as int].label@ == merge@);
                assert(self.holds(b as int, i as int) <==> dominates(
                    blocks@,
                    blocks@[i as int].label@,
                    blocks@[b as int].label@,
                ));
                return self.rows[b][i];
            }
            i += 1;
        }
        false
    }
}

/// One copy that eliminates a phi on an edge.
#[derive(Clone, Copy, Debug)]
pub struct PhiCopy<'a> {
    pub dst: &'a String,
    pub ty: Ty,
    pub val: &'a Val,
}

pub open spec fn phi_incoming<'a>(p: &'a Phi, pred: Seq<char>, k: int) -> Seq<PhiCopy<'a>>
    decreases p.incoming@.len() - k,
{
    if k < 0 || k >= p.incoming@.len() {
        Seq::empty()
    } else if p.incoming@[k].pred@ == pred {
        seq![PhiCopy { dst: &p.dst, ty: p.ty, val: &p.incoming@[k].val }] + phi_incoming(
            p,
            pred,
            k + 1,
        )
    } else {
        phi_incoming(p, pred, k + 1)
    }
}

pub open spec fn block_copies<'a>(b: &'a Block, pred: Seq<char>, j: int) -> Seq<PhiCopy<'a>>
    decreases b.insts@.len() - j,
{
    if j < 0 || j >= b.insts@.len() {
        Seq::empty()
    } else {
        match &b.insts@[j] {
            Inst::Phi(p) => phi_incoming(p, pred, 0) + block_copies(b, pred, j + 1),
            _ => block_copies(b, pred, j + 1),
        }
    }
}

/// The copies on the edge from `pred` to `merge`, in the order of the phis,
/// from block `i` on.
pub open spec fn edge_copies<'a>(
    blocks: Seq<Block>,
    pred: Seq<char>,
    merge: Seq<char>,
    i: int,
) -> Seq<PhiCopy<'a>>
    decreases blocks.len() - i,
{
    if i < 0 || i >= blocks.len() {
        Seq::empty()
    } else if blocks[i].label@ == merge {
        block_copies(&blocks[i], pred, 0) + edge_copies(blocks, pred, merge, i + 1)
    } else {
        edge_copies(blocks, pred, merge, i + 1)
    }
}

/// The copies on the edge from `pred` to `merge`. A copy runs only on its
/// edge: elsewhere it would overwrite a slot the other target reads.
pub fn collect_copies<'a>(blocks: &'a Vec<Block>, pred: &str, merge: &str) -> (r: Vec<PhiCopy<'a>>)
    ensures
        r@ == edge_copies(blocks@, pred@, merge@, 0),
{
    let mut out: Vec<PhiCopy<'a>> = Vec::new();
    let mut i: usize = 0;
    assert(out@ + edge_copies(blocks@, pred@, merge@, 0) =~= edge_copies(
        blocks@,
        pred@,
        merge@,
        0,
    ));
    while i < blocks.len()
        invariant
            i <= blocks@.len(),
            out@ + edge_copies(blocks@, pred@, merge@, i as int) == edge_copies(
                blocks@,
                pred@,
                merge@,
                0,
            ),
        decreases blocks@.len() - i,
    {
        let b = &blocks[i];
        if same(b.label.as_str(), merge) {
            let ghost base = out@;
            let mut j: usize = 0;
            assert(out@ + block_copies(b, pred@, 0) =~= base + block_copies(b, pred@, 0));
            while j < b.insts.len()
                invariant
                    j <= b.insts@.len(),
                    out@ + block_copies(b, pred@, j as int) == base + block_copies(b, pred@, 0),
                decreases b.insts@.len() - j,
            {
                if let Inst::Phi(p) = &b.insts[j] {
                    let ghost mid = out@;
                    let mut k: usize = 0;
                    assert(out@ + phi_incoming(p, pred@, 0) =~= mid + phi_incoming(p, pred@, 0));
                    while k < p.incoming.len()
                        invariant
                            k <= p.incoming@.len(),
                            out@ + phi_incoming(p, pred@, k as int) == mid + phi_incoming(
                                p,
                                pred@,
                                0,
                            ),
                        decreases p.incoming@.len() - k,
                    {
                        let ghost here = out@;
                        if same(p.incoming[k].pred.as_str(), pred) {
                            out.push(
                                PhiCopy { dst: &p.dst, ty: p.ty, val: &p.incoming[k].val },
                            );
                            assert(out@ + phi_incoming(p, pred@, k + 1) =~= here + phi_incoming(
                                p,
                                pred@,
                                k as int,
                            ));
                        }
                        k += 1;
                    }
                    assert(out@ =~= mid + phi_incoming(p, pred@, 0));
                    assert(out@ + block_copies(b, pred@, j + 1) =~= mid + block_copies(
                        b,
                        pred@,
                        j as int,
                    ));
                }
                j += 1;
            }
            assert(out@ =~= base + block_copies(b, pred@, 0));
            assert(out@ + edge_copies(blocks@, pred@, merge@, i + 1) =~= base + edge_copies(
                blocks@,
                pred@,
                merge@,
                i as int,
            ));
        }
        i += 1;
    }
    assert(out@ =~= edge_copies(blocks@, pred@, merge@, 0));
    out
}

/// What a phi copy writes and which slot it reads, if it reads one.
#[derive(Clone, Copy, PartialEq, Eq, Structural, Debug)]
pub struct Move {
    pub dst: u32,
    pub src: Option<u32>,
}

/// Copy `j` stands in the way of copy `i`. On a back edge the slots hold the
/// values of the running turn, so a reader of the slot goes first. On a
/// forward edge the slots are defined by this edge, so the writer of what is
/// read goes first.
pub open spec fn hinders(ms: Seq<Move>, back: bool, i: int, j: int) -> bool {
    j != i && if back {
        ms[j].src == Some(ms[i].dst)
    } else {
        ms[i].src == Some(ms[j].dst)
    }
}

pub open spec fn blocked(ms: Seq<Move>, done: Seq<bool>, back: bool, i: int) -> bool {
    exists|j: int| 0 <= j < ms.len() && !done[j] && #[trigger] hinders(ms, back, i, j)
}

/// One pass over the copies from `i` on: every copy that nothing hinders is
/// taken.
pub open spec fn pass(
    ms: Seq<Move>,
    done: Seq<bool>,
    order: Seq<usize>,
    back: bool,
    i: int,
) -> (Seq<bool>, Seq<usize>)
    decreases ms.len() - i,
{
    if i < 0 || i >= ms.len() {
        (done, order)
    } else if done[i] || blocked(ms, done, back, i) {
        pass(ms, done, order, back, i + 1)
    } else {
        pass(ms, done.update(i, true), order.push(i as usize), back, i + 1)
    }
}

/// Passes until every copy is taken; `None` when a pass takes none.
pub open spec fn passes(
    ms: Seq<Move>,
    done: Seq<bool>,
    order: Seq<usize>,
    back: bool,
    fuel: nat,
) -> Option<Seq<usize>>
    decreases fuel,
{
    if order.len() >= ms.len() {
        Some(order)
    } else if fuel == 0 {
        None
    } else {
        let (d, o) = pass(ms, done, order, back, 0);
        if o.len() == order.len() {
            None
        } else {
            passes(ms, d, o, back, (fuel - 1) as nat)
        }
    }
}

/// The order in which the copies of an edge run, if there is one.
pub open spec fn copy_order(ms: Seq<Move>, back: bool) -> Option<Seq<usize>> {
    passes(ms, Seq::new(ms.len(), |i: int| false), Seq::empty(), back, ms.len())
}

/// Every copy once, and none before one that hinders it.
pub open spec fn proper_order(ms: Seq<Move>, back: bool, order: Seq<usize>) -> bool {
    &&& order.len() == ms.len()
    &&& order.no_duplicates()
    &&& forall|a: int| 0 <= a < order.len() ==> (#[trigger] order[a]) < ms.len()
    &&& forall|a: int, b: int|
        0 <= a < b < order.len() ==> !hinders(
            ms,
            back,
            #[trigger] order[a] as int,
            #[trigger] order[b] as int,
        )
}

/// A set of copies each of which another of the set hinders.
pub open spec fn is_knot(ms: Seq<Move>, back: bool, s: Seq<bool>) -> bool {
    &&& s.len() == ms.len()
    &&& exists|i: int| 0 <= i < ms.len() && #[trigger] s[i]
    &&& forall|i: int|
        0 <= i < ms.len() && #[trigger] s[i] ==> exists|j: int|
            0 <= j < ms.len() && #[trigger] s[j] && hinders(ms, back, i, j)
}

spec fn order_inv(ms: Seq<Move>, done: Seq<bool>, order: Seq<usize>, back: bool) -> bool {
    &&& done.len() == ms.len()
    &&& order.len() <= ms.len()
    &&& order.no_duplicates()
    &&& forall|a: int| 0 <= a < order.len() ==> (#[trigger] order[a]) < ms.len() && done[order[a] as int]
    &&& forall|i: int| 0 <= i < ms.len() && #[trigger] done[i] ==> order.contains(i as usize)
    &&& forall|a: int, b: int|
        0 <= a < b < order.len() ==> !hinders(
            ms,
            back,
            #[trigger] order[a] as int,
            #[trigger] order[b] as int,
        )
    &&& forall|a: int, j: int|
        0 <= a < order.len() && 0 <= j < ms.len() && !(#[trigger] done[j]) ==> !hinders(
            ms,
            back,
            #[trigger] order[a] as int,
            j,
        )
    &&& count_true(done) == order.len()
}

/// No copy of a knot is ever taken.
spec fn avoids_knots(ms: Seq<Move>, done: Seq<bool>, back: bool) -> bool {
    forall|s: Seq<bool>, i: int|
        #[trigger] is_knot(ms, back, s) && 0 <= i < ms.len() && #[trigger] s[i] ==> !done[i]
}

proof fn lemma_count_set(s: Seq<bool>, i: int)
    requires
        0 <= i < s.len(),
        !s[i],
    ensures
        count_true(s.update(i, true)) == count_true(s) + 1,
    decreases s.len(),
{
    let t = s.update(i, true);
    if i == s.len() - 1 {
        assert(t.drop_last() =~= s.drop_last());
    } else {
        assert(t.drop_last() =~= s.drop_last().update(i, true));
        lemma_count_set(s.drop_last(), i);
    }
}

proof fn lemma_count_full(s: Seq<bool>)
    ensures
        count_true(s) <= s.len(),
        count_true(s) == s.len() ==> forall|i: int| 0 <= i < s.len() ==> s[i],
        (forall|i: int| 0 <= i < s.len() ==> s[i]) ==> count_true(s) == s.len(),
    decreases s.len(),
{
    if s.len() > 0 {
        lemma_count_full(s.drop_last());
        if count_true(s) == s.len() {
            assert forall|i: int| 0 <= i < s.len() implies s[i] by {
                if i < s.len() - 1 {
                    assert(s.drop_last()[i] == s[i]);
                }
            }
        }
        if forall|i: int| 0 <= i < s.len() ==> s[i] {
            assert forall|i: int| 0 <= i < s.drop_last().len() implies s.drop_last()[i] by {
                assert(s[i]);
            }
        }
    }
}

proof fn lemma_take_copy(ms: Seq<Move>, done: Seq<bool>, order: Seq<usize>, back: bool, i: int)
    requires
        order_inv(ms, done, order, back),
        avoids_knots(ms, done, back),
        0 <= i < ms.len(),
        ms.len() <= usize::MAX,
        !done[i],
        !blocked(ms, done, back, i),
    ensures
        order_inv(ms, done.update(i, true), order.push(i as usize), back),
        avoids_knots(ms, done.update(i, true), back),
{
    let d = done.update(i, true);
    let o = order.push(i as usize);
    lemma_count_set(done, i);
    lemma_count_full(d);
    assert(forall|a: int| 0 <= a < order.len() ==> order[a] != i as usize) by {
        assert forall|a: int| 0 <= a < order.len() implies order[a] != i as usize by {
            assert(done[order[a] as int]);
        }
    }
    assert(o.no_duplicates());
    assert forall|x: int| 0 <= x < ms.len() && #[trigger] d[x] implies o.contains(x as usize) by {
        if x == i {
            assert(o[order.len() as int] == x as usize);
        } else {
            assert(done[x]);
            let a = choose|a: int| 0 <= a < order.len() && order[a] == x as usize;
            assert(o[a] == x as usize);
        }
    }
    assert forall|a: int, b: int| 0 <= a < b < o.len() implies !hinders(
        ms,
        back,
        #[trigger] o[a] as int,
        #[trigger] o[b] as int,
    ) by {
        if b == order.len() {
            assert(o[a] == order[a]);
            assert(!done[i]);
        } else {
            assert(o[a] == order[a] && o[b] == order[b]);
        }
    }
    assert forall|a: int, j: int|
        0 <= a < o.len() && 0 <= j < ms.len() && !(#[trigger] d[j]) implies !hinders(
        ms,
        back,
        #[trigger] o[a] as int,
        j,
    ) by {
        assert(!done[j]);
        if a == order.len() {
            assert(!hinders(ms, back, i, j));
        } else {
            assert(o[a] == order[a]);
        }
    }
    assert forall|s: Seq<bool>, x: int|
        #[trigger] is_knot(ms, back, s) && 0 <= x < ms.len() && #[trigger] s[x] implies !d[x] by {
        assert(!done[x]);
        if x == i {
            let j = choose|j: int| 0 <= j < ms.len() && #[trigger] s[j] && hinders(ms, back, i, j);
            assert(s[j] && !done[j]);
            assert(hinders(ms, back, i, j));
            assert(blocked(ms, done, back, i));
        }
    }
}

/// One pass keeps the order proper.
proof fn lemma_pass(ms: Seq<Move>, done: Seq<bool>, order: Seq<usize>, back: bool, i: int)
    requires
        order_inv(ms, done, order, back),
        avoids_knots(ms, done, back),
        0 <= i,
        ms.len() <= usize::MAX,
    ensures
        ({
            let (d, o) = pass(ms, done, order, back, i);
            order_inv(ms, d, o, back) && avoids_knots(ms, d, back)
        }),
    decreases ms.len() - i,
{
    if i < ms.len() {
        if done[i] || blocked(ms, done, back, i) {
            lemma_pass(ms, done, order, back, i + 1);
        } else {
            lemma_take_copy(ms, done, order, back, i);
            lemma_pass(ms, done.update(i, true), order.push(i as usize), back, i + 1);
        }
    }
}

proof fn lemma_passes(ms: Seq<Move>, done: Seq<bool>, order: Seq<usize>, back: bool, fuel: nat)
    requires
        order_inv(ms, done, order, back),
        avoids_knots(ms, done, back),
        ms.len() <= usize::MAX,
    ensures
        passes(ms, done, order, back, fuel) matches Some(o) ==> proper_order(ms, back, o),
    decreases fuel,
{
    if order.len() < ms.len() && fuel > 0 {
        let (d, o) = pass(ms, done, order, back, 0);
        lemma_pass(ms, done, order, back, 0);
        if o.len() != order.len() {
            lemma_passes(ms, d, o, back, (fuel - 1) as nat);
        }
    }
}

proof fn lemma_count_none(n: nat)
    ensures
        count_true(Seq::new(n, |i: int| false)) == 0,
    decreases n,
{
    let s = Seq::new(n, |i: int| false);
    if n > 0 {
        lemma_count_none((n - 1) as nat);
        assert(s.drop_last() =~= Seq::new((n - 1) as nat, |i: int| false));
    }
}

/// The order of copies has every copy once, and none before one that
/// hinders it.
pub proof fn law_copy_order_is_proper(ms: Seq<Move>, back: bool)
    requires
        ms.len() <= usize::MAX,
    ensures
        copy_order(ms, back) matches Some(o) ==> proper_order(ms, back, o),
{
    lemma_count_none(ms.len());
    lemma_passes(ms, Seq::new(ms.len(), |i: int| false), Seq::empty(), back, ms.len());
}

/// A pass that takes no copy found every one that is left blocked.
proof fn lemma_pass_stuck(ms: Seq<Move>, done: Seq<bool>, order: Seq<usize>, back: bool, i: int)
    requires
        0 <= i,
    ensures
        ({
            let (d, o) = pass(ms, done, order, back, i);
            &&& o.len() >= order.len()
            &&& o.len() == order.len() ==> d == done && forall|k: int|
                i <= k < ms.len() && !done[k] ==> #[trigger] blocked(ms, done, back, k)
        }),
    decreases ms.len() - i,
{
    if i < ms.len() {
        if done[i] || blocked(ms, done, back, i) {
            lemma_pass_stuck(ms, done, order, back, i + 1);
        } else {
            lemma_pass_stuck(ms, done.update(i, true), order.push(i as usize), back, i + 1);
        }
    }
}

/// The copies that are left when a pass takes none hinder each other.
proof fn lemma_left_is_knot(ms: Seq<Move>, done: Seq<bool>, order: Seq<usize>, back: bool)
    requires
        order_inv(ms, done, order, back),
        order.len() < ms.len(),
        forall|k: int| 0 <= k < ms.len() && !done[k] ==> #[trigger] blocked(ms, done, back, k),
    ensures
        is_knot(ms, back, Seq::new(ms.len(), |k: int| !done[k])),
{
    let s = Seq::new(ms.len(), |k: int| !done[k]);
    lemma_count_full(done);
    let k0 = choose|k: int| 0 <= k < ms.len() && !done[k];
    assert(s[k0]);
    assert forall|a: int| 0 <= a < ms.len() && #[trigger] s[a] implies exists|b: int|
        0 <= b < ms.len() && #[trigger] s[b] && hinders(ms, back, a, b) by {
        assert(blocked(ms, done, back, a));
        let b = choose|b: int| 0 <= b < ms.len() && !done[b] && #[trigger] hinders(ms, back, a, b);
        assert(s[b]);
    }
}

proof fn lemma_passes_end(ms: Seq<Move>, done: Seq<bool>, order: Seq<usize>, back: bool, fuel: nat)
    requires
        order_inv(ms, done, order, back),
        avoids_knots(ms, done, back),
        ms.len() <= usize::MAX,
        fuel + order.len() >= ms.len(),
    ensures
        passes(ms, done, order, back, fuel) is None <==> exists|s: Seq<bool>|
            #[trigger] is_knot(ms, back, s),
    decreases fuel,
{
    if order.len() >= ms.len() {
        lemma_count_full(done);
        assert forall|s: Seq<bool>| !(#[trigger] is_knot(ms, back, s)) by {
            if is_knot(ms, back, s) {
                let i = choose|i: int| 0 <= i < ms.len() && #[trigger] s[i];
                assert(s[i] && !done[i]);
            }
        }
    } else {
        let (d, o) = pass(ms, done, order, back, 0);
        lemma_pass(ms, done, order, back, 0);
        lemma_pass_stuck(ms, done, order, back, 0);
        if o.len() == order.len() {
            lemma_left_is_knot(ms, done, order, back);
        } else {
            lemma_passes_end(ms, d, o, back, (fuel - 1) as nat);
        }
    }
}

/// Copies have an order unless some of them hinder each other in a ring.
pub proof fn law_copies_without_a_ring_have_an_order(ms: Seq<Move>, back: bool)
    requires
        ms.len() <= usize::MAX,
    ensures
        copy_order(ms, back) is Some <==> !exists|s: Seq<bool>| #[trigger] is_knot(ms, back, s),
{
    lemma_count_none(ms.len());
    lemma_passes_end(ms, Seq::new(ms.len(), |i: int| false), Seq::empty(), back, ms.len());
}

/// A proper order has every copy.
pub proof fn lemma_every_copy(ms: Seq<Move>, back: bool, order: Seq<usize>, i: int)
    requires
        proper_order(ms, back, order),
        ms.len() <= usize::MAX,
        0 <= i < ms.len(),
    ensures
        exists|j: int| 0 <= j < order.len() && order[j] == i as usize,
{
    let all = Set::new(|x: usize| x < ms.len());
    vstd::seq_lib::seq_to_set_is_finite(order);
    order.unique_seq_to_set();
    let s = order.to_set();
    lemma_below(ms.len());
    assert(s.subset_of(all));
    vstd::set_lib::lemma_subset_equality(s, all);
    assert(s.contains(i as usize));
}

proof fn lemma_below(n: nat)
    requires
        n <= usize::MAX,
    ensures
        Set::new(|x: usize| x < n).finite(),
        Set::new(|x: usize| x < n).len() == n,
    decreases n,
{
    let s = Set::new(|x: usize| x < n);
    if n == 0 {
        assert(s =~= Set::empty());
    } else {
        let k = (n - 1) as nat;
        lemma_below(k);
        let t = Set::new(|x: usize| x < k);
        assert(s =~= t.insert(k as usize));
    }
}

fn is_blocked(ms: &Vec<Move>, done: &Vec<bool>, back: bool, i: usize) -> (r: bool)
    requires
        done@.len() == ms@.len(),
        i < ms@.len(),
    ensures
        r == blocked(ms@, done@, back, i as int),
{
    let mut j: usize = 0;
    while j < ms.len()
        invariant
            done@.len() == ms@.len(),
            i < ms@.len(),
            j <= ms@.len(),
            forall|k: int| 0 <= k < j && !done@[k] ==> !#[trigger] hinders(ms@, back, i as int, k),
        decreases ms@.len() - j,
    {
        let hit: bool = if back {
            ms[j].src == Some(ms[i].dst)
        } else {
            ms[i].src == Some(ms[j].dst)
        };
        if !done[j] && j != i && hit {
            assert(hinders(ms@, back, i as int, j as int));
            return true;
        }
        j += 1;
    }
    false
}

/// Orders the copies of an edge so that none overwrites what a later one
/// still has to read. Copies that hinder each other in a ring have no order.
pub fn order_copies(ms: &Vec<Move>, back: bool) -> (r: Option<Vec<usize>>)
    ensures
        match r {
            Some(o) => copy_order(ms@, back) == Some(o@) && proper_order(ms@, back, o@),
            None => copy_order(ms@, back) is None,
        },
        r is None <==> exists|s: Seq<bool>| is_knot(ms@, back, s),
{
    let n: usize = ms.len();
    let mut done: Vec<bool> = Vec::new();
    while done.len() < n
        invariant
            n == ms@.len(),
            done@.len() <= n,
            forall|i: int| 0 <= i < done@.len() ==> !done@[i],
            count_true(done@) == 0,
        decreases n - done@.len(),
    {
        let ghost prev = done@;
        done.push(false);
        assert(done@.drop_last() =~= prev);
    }
    let mut order: Vec<usize> = Vec::new();
    let ghost mut fuel: nat = n as nat;
    assert(done@ =~= Seq::new(ms@.len(), |i: int| false));
    while order.len() < n
        invariant
            n == ms@.len(),
            order_inv(ms@, done@, order@, back),
            avoids_knots(ms@, done@, back),
            copy_order(ms@, back) == passes(ms@, done@, order@, back, fuel),
            fuel + order@.len() >= n,
        decreases n - order@.len(),
    {
        let ghost d0 = done@;
        let ghost o0 = order@;
        let before: usize = order.len();
        let mut i: usize = 0;
        while i < n
            invariant
                n == ms@.len(),
                i <= n,
                order_inv(ms@, done@, order@, back),
                avoids_knots(ms@, done@, back),
                o0.len() <= order@.len(),
                pass(ms@, d0, o0, back, 0) == pass(ms@, done@, order@, back, i as int),
                order@.len() == o0.len() ==> done@ == d0 && forall|k: int|
                    0 <= k < i && !done@[k] ==> #[trigger] blocked(ms@, done@, back, k),
            decreases n - i,
        {
            if !done[i] && !is_blocked(ms, &done, back, i) {
                proof {
                    lemma_take_copy(ms@, done@, order@, back, i as int);
                }
                done.set(i, true);
                order.push(i);
            }
            i += 1;
        }
        proof {
            lemma_count_full(done@);
        }
        if order.len() == before {
            proof {
                let s = Seq::new(ms@.len(), |k: int| !done@[k]);
                let k0 = choose|k: int| 0 <= k < ms@.len() && !done@[k];
                assert(exists|k: int| 0 <= k < ms@.len() && !done@[k]) by {
                    if forall|k: int| 0 <= k < ms@.len() ==> done@[k] {
                        assert(count_true(done@) == n);
                    }
                }
                assert(s[k0]);
                assert forall|a: int| 0 <= a < ms@.len() && #[trigger] s[a] implies exists|b: int|
                    0 <= b < ms@.len() && #[trigger] s[b] && hinders(ms@, back, a, b) by {
                    assert(blocked(ms@, done@, back, a));
                    let b = choose|b: int|
                        0 <= b < ms@.len() && !done@[b] && #[trigger] hinders(ms@, back, a, b);
                    assert(s[b]);
                }
                assert(is_knot(ms@, back, s));
            }
            return None;
        }
        proof {
            fuel = (fuel - 1) as nat;
        }
    }
    proof {
        lemma_count_full(done@);
        assert forall|s: Seq<bool>| !is_knot(ms@, back, s) by {
            if is_knot(ms@, back, s) {
                let i = choose|i: int| 0 <= i < ms@.len() && #[trigger] s[i];
                assert(s[i]);
                assert(!done@[i]);
            }
        }
    }
    Some(order)
}

} // verus!
