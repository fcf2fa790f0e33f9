//! Which source location a line carries.
use vstd::prelude::*;
use crate::body::{
    block_step, blocks_from, branch, cond_branch, edge, edge_step, ending, func_body, goto_block,
    inst_lines, insts_from, jump, naked_from, naked_insts, noted_edge, terminator, Lower,
};
use crate::cfg::block_sym;
use crate::ctx::Ctx;
use crate::emit::{goto_tmp, label_tmp, note_z, Row, St};
use crate::error::IselError;
use crate::ir::{Block, BrCond, Func, Inst, SrcLoc, Val};
use crate::line::{BitOp, Line, Sym};

verus! {

/// Whether `s` is `st` with lines added, each of a location that `ok` accepts.
pub open spec fn adds(st: St, s: St, ok: spec_fn(Option<SrcLoc>) -> bool) -> bool {
    &&& st.rows.len() <= s.rows.len()
    &&& forall|k: int| 0 <= k < st.rows.len() ==> #[trigger] s.rows[k] == st.rows[k]
    &&& forall|k: int| st.rows.len() <= k < s.rows.len() ==> ok((#[trigger] s.rows[k]).loc)
}

/// The one location `loc`.
pub open spec fn only(loc: Option<SrcLoc>) -> spec_fn(Option<SrcLoc>) -> bool {
    |l: Option<SrcLoc>| l == loc
}

/// The location `loc`, or none.
pub open spec fn at_most(loc: Option<SrcLoc>) -> spec_fn(Option<SrcLoc>) -> bool {
    |l: Option<SrcLoc>| l == loc || l is None
}

/// The locations of a block's instructions, or none.
pub open spec fn of_block(x: Block) -> spec_fn(Option<SrcLoc>) -> bool {
    |l: Option<SrcLoc>|
        l is None || exists|j: int| 0 <= j < x.insts@.len() && (#[trigger] x.insts@[j]).loc() == l
}

/// The locations of a function's instructions, or none.
pub open spec fn of_func(f: Func) -> spec_fn(Option<SrcLoc>) -> bool {
    |l: Option<SrcLoc>|
        exists|b: int| 0 <= b < f.blocks@.len() && of_block(#[trigger] f.blocks@[b])(l) || l is None
}

/// An instruction inside a block marks every line it adds with its location.
pub proof fn law_an_instruction_marks_its_lines<C: Lower>(c: &C, st: St, i: Inst)
    ensures
        adds(st, inst_lines(c, st, i), only(i.loc())),
{
}

proof fn lemma_edge<C: Lower>(c: &C, cx: &Ctx, st: St, fi: usize, blocks: Seq<Block>, b: int, to: Seq<char>)
    ensures
        adds(st, edge_step(c, cx, st, blocks, b, to), only(None)),
        adds(st, noted_edge(c, cx, st, fi, blocks, b, to), only(None)),
{
}

proof fn lemma_reach(st: St, s: St, t: St, loc: Option<SrcLoc>)
    requires
        adds(st, s, at_most(loc)),
        adds(s, t, only(None)),
    ensures
        adds(st, t, at_most(loc)),
{
}

/// An unconditional branch adds the copies of its edge without a location, and
/// the jump with its own.
pub proof fn law_a_jump_marks_its_line<C: Lower>(
    c: &C,
    cx: &Ctx,
    st: St,
    fi: usize,
    blocks: Seq<Block>,
    b: int,
    to: Seq<char>,
    loc: Option<SrcLoc>,
)
    ensures
        ({
            let s = jump(c, cx, st, fi, blocks, b, to, loc);
            &&& adds(st, s, at_most(loc))
            &&& block_sym(fi, blocks, to) matches Some(l) ==> s.rows.len() > st.rows.len()
                && s.rows.last() == (Row { line: Line::Goto(l), loc }) && adds(
                st,
                St { rows: s.rows.drop_last(), ..s },
                only(None),
            )
        }),
{
    lemma_edge(c, cx, st, fi, blocks, b, to);
}

/// A conditional branch adds lines of its own location, and the copies of its
/// edges and their label without one. Without copies all its lines are marked.
pub proof fn law_a_branch_marks_its_lines<C: Lower>(
    c: &C,
    cx: &Ctx,
    st: St,
    fi: usize,
    blocks: Seq<Block>,
    b: int,
    x: BrCond,
)
    ensures
        adds(st, branch(c, cx, st, fi, blocks, b, x), at_most(x.loc)),
        edge(blocks, b, x.t@).len() == 0 && edge(blocks, b, x.f@).len() == 0 ==> adds(
            st,
            branch(c, cx, st, fi, blocks, b, x),
            only(x.loc),
        ),
{
    let lt = block_sym(fi, blocks, x.t@);
    let lf = block_sym(fi, blocks, x.f@);
    let s0 = st.check(lt is Some && lf is Some, IselError::UnknownBlock);
    let a = branch(c, cx, st, fi, blocks, b, x);
    let loc = x.loc;
    match x.cond {
        Val::Reg(r) => {
            let (s1, ca) = cx.local_step(s0, r@);
            let s2 = s1.join(c.test_step(s1.fresh(), ca), loc);
            assert(adds(st, s2, only(loc)));
            let has_t = edge(blocks, b, x.t@).len() > 0;
            let has_f = edge(blocks, b, x.f@).len() > 0;
            if !has_t && !has_f {
                assert(a == cond_branch(s2, lt, lf, loc)) by {
                    reveal(branch);
                }
            } else if has_t && has_f {
                let l = s2.next;
                let s3 = s2.bump().emit_at(note_z(BitOp::Btfss), loc).emit_at(goto_tmp(l), loc);
                lemma_edge(c, cx, s3, fi, blocks, b, x.f@);
                let s4 = noted_edge(c, cx, s3, fi, blocks, b, x.f@);
                lemma_reach(st, s3, s4, loc);
                let s5 = goto_block(s4, lf, loc).emit(label_tmp(l));
                assert(adds(st, s5, at_most(loc)));
                lemma_edge(c, cx, s5, fi, blocks, b, x.t@);
                let s6 = edge_step(c, cx, s5, blocks, b, x.t@);
                lemma_reach(st, s5, s6, loc);
                assert(a == goto_block(s6, lt, loc)) by {
                    reveal(branch);
                }
            } else if has_f {
                let s3 = goto_block(s2.emit_at(note_z(BitOp::Btfss), loc), lt, loc);
                lemma_edge(c, cx, s3, fi, blocks, b, x.f@);
                let s4 = noted_edge(c, cx, s3, fi, blocks, b, x.f@);
                lemma_reach(st, s3, s4, loc);
                assert(a == goto_block(s4, lf, loc)) by {
                    reveal(branch);
                }
            } else {
                let s3 = goto_block(s2.emit_at(note_z(BitOp::Btfsc), loc), lf, loc);
                lemma_edge(c, cx, s3, fi, blocks, b, x.t@);
                let s4 = noted_edge(c, cx, s3, fi, blocks, b, x.t@);
                lemma_reach(st, s3, s4, loc);
                assert(a == goto_block(s4, lt, loc)) by {
                    reveal(branch);
                }
            }
        },
        Val::Const(k) => {
            let (to, l) = if k != 0 {
                (x.t@, lt)
            } else {
                (x.f@, lf)
            };
            lemma_edge(c, cx, s0, fi, blocks, b, to);
            let s1 = noted_edge(c, cx, s0, fi, blocks, b, to);
            lemma_reach(st, s0, s1, loc);
            assert(a == goto_block(s1, l, loc)) by {
                reveal(branch);
            }
        },
        Val::Global(_) => {
            reveal(branch);
        },
    }
}

/// What ends a block adds lines of its location, or of none; a return of its
/// own only.
pub proof fn law_the_end_of_a_block_marks_its_lines<C: Lower>(
    c: &C,
    cx: &Ctx,
    st: St,
    fi: usize,
    f: Func,
    b: int,
    t: Inst,
)
    ensures
        adds(st, terminator(c, cx, st, fi, f, b, t), at_most(t.loc())),
        t is Ret ==> adds(st, terminator(c, cx, st, fi, f, b, t), only(t.loc())),
{
    match t {
        Inst::Br(x) => law_a_jump_marks_its_line(c, cx, st, fi, f.blocks@, b, x.target@, x.loc),
        Inst::BrCond(x) => law_a_branch_marks_its_lines(c, cx, st, fi, f.blocks@, b, x),
        _ => {},
    }
}

pub(crate) proof fn lemma_insts<C: Lower>(c: &C, st: St, x: Block, j: int)
    requires
        0 <= j,
    ensures
        adds(st, insts_from(c, st, x.insts@, j), of_block(x)),
    decreases x.insts@.len() - j,
{
    if j < x.insts@.len() {
        let i = x.insts@[j];
        if i is Phi || i.ends_block() {
            lemma_insts(c, st, x, j + 1);
        } else {
            let s = inst_lines(c, st, i);
            law_an_instruction_marks_its_lines(c, st, i);
            assert(of_block(x)(i.loc()));
            lemma_insts(c, s, x, j + 1);
        }
    }
}

proof fn lemma_ending(insts: Seq<Inst>, j: int)
    requires
        j <= insts.len(),
    ensures
        ending(insts, j) matches Some(k) ==> 0 <= k < insts.len(),
    decreases j,
{
    if j > 0 {
        lemma_ending(insts, j - 1);
    }
}

/// The lines of a block carry the locations of its instructions, or none: its
/// label does, and what precedes the first instruction of a function.
pub proof fn law_a_block_marks_its_lines<C: Lower>(
    c: &C,
    cx: &Ctx,
    st: St,
    fi: usize,
    f: Func,
    b: int,
)
    requires
        0 <= b < f.blocks@.len(),
    ensures
        ({
            let s = block_step(c, cx, st, fi, f, b);
            &&& adds(st, s, of_block(f.blocks@[b]))
            &&& block_sym(fi, f.blocks@, f.blocks@[b].label@) matches Some(l) ==> s.rows.len()
                > st.rows.len() && s.rows[st.rows.len() as int] == (Row {
                line: Line::Label(l),
                loc: None,
            })
        }),
{
    reveal(block_step);
    let x = f.blocks@[b];
    let s1 = match block_sym(fi, f.blocks@, x.label@) {
        Some(l) => st.emit(Line::Label(l)),
        None => st.fail(IselError::UnknownBlock),
    };
    let s2 = if b == 0 {
        s1.join(c.enter_step(s1.fresh(), f), None)
    } else {
        s1
    };
    assert(adds(s1, s2, only(None)));
    let s3 = insts_from(c, s2, x.insts@, 0);
    lemma_insts(c, s2, x, 0);
    lemma_ending(x.insts@, x.insts@.len() as int);
    if let Some(j) = ending(x.insts@, x.insts@.len() as int) {
        law_the_end_of_a_block_marks_its_lines(c, cx, s3, fi, f, b, x.insts@[j]);
        assert(of_block(x)(x.insts@[j].loc()));
    }
}

pub(crate) proof fn lemma_blocks<C: Lower>(c: &C, cx: &Ctx, st: St, fi: usize, f: Func, b: int)
    requires
        0 <= b,
    ensures
        adds(st, blocks_from(c, cx, st, fi, f, b), of_func(f)),
    decreases f.blocks@.len() - b,
{
    if b < f.blocks@.len() {
        let s = block_step(c, cx, st, fi, f, b);
        law_a_block_marks_its_lines(c, cx, st, fi, f, b);
        assert(adds(st, s, of_func(f)));
        lemma_blocks(c, cx, s, fi, f, b + 1);
    }
}

pub(crate) proof fn lemma_naked_insts<C: Lower>(c: &C, st: St, x: Block, j: int)
    requires
        0 <= j,
    ensures
        adds(st, naked_insts(c, st, x.insts@, j), of_block(x)),
    decreases x.insts@.len() - j,
{
    if j < x.insts@.len() {
        let s = match x.insts@[j] {
            Inst::Asm(a) => st.join(c.asm_step(st.fresh(), a), a.loc),
            _ => st.fail(IselError::NakedBody),
        };
        assert(of_block(x)(x.insts@[j].loc()));
        lemma_naked_insts(c, s, x, j + 1);
    }
}

pub(crate) proof fn lemma_naked<C: Lower>(c: &C, st: St, f: Func, b: int)
    requires
        0 <= b,
    ensures
        adds(st, naked_from(c, st, f.blocks@, b), of_func(f)),
    decreases f.blocks@.len() - b,
{
    if b < f.blocks@.len() {
        let s = naked_insts(c, st, f.blocks@[b].insts@, 0);
        lemma_naked_insts(c, st, f.blocks@[b], 0);
        assert(adds(st, s, of_func(f)));
        lemma_naked(c, s, f, b + 1);
    }
}

/// No line of a function carries a location of another one: each carries that of
/// one of its instructions, or none.
pub proof fn law_a_function_marks_its_lines<C: Lower>(c: &C, cx: &Ctx, st: St, fi: usize)
    requires
        fi < cx.m.funcs@.len(),
    ensures
        adds(st, func_body(c, cx, st, fi), of_func(cx.m.funcs@[fi as int])),
{
    reveal(func_body);
    let f = cx.m.funcs@[fi as int];
    if f.naked {
        let s1 = st.emit(Line::Label(Sym::Func(fi))).emit(Line::AsmStart);
        lemma_naked(c, s1, f, 0);
    } else {
        lemma_blocks(c, cx, st, fi, f, 0);
    }
}

} // verus!
