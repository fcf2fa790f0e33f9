//! Function bodies: block labels, instructions, phi copies, terminators. The
//! same for both cores; a core brings the lowering of single instructions.
use vstd::prelude::*;
use crate::cfg::{
    back_edge, block_dominators, block_sym, collect_copies, copy_order, edge_copies, find_block_sym,
    order_copies, Doms, Move, PhiCopy,
};
use crate::ctx::Ctx;
use crate::emit::{goto_tmp, label_tmp, note_z, Emitter, St};
use crate::error::IselError;
use crate::ir::{Asm, Block, Br, BrCond, Func, Inst, Ret, SrcLoc, Ty, Val};
use crate::line::{BitOp, Line, Sym};

verus! {

/// What a core brings to the lowering of a body. Every method emits exactly
/// what its specification adds to the state.
pub trait Lower {
    spec fn ready(&self) -> bool;

    /// `val` into the slot at `dst`.
    spec fn move_step(&self, st: St, val: Val, ty: Ty, dst: u32) -> St;

    /// One instruction that does not end its block.
    spec fn inst_step(&self, st: St, i: Inst) -> St;

    /// W, and with it Z, from the condition byte at `a`.
    spec fn test_step(&self, st: St, a: u32) -> St;

    /// What precedes the first instruction of `f`.
    spec fn enter_step(&self, st: St, f: Func) -> St;

    /// A return from `f`.
    spec fn ret_step(&self, st: St, f: Func, x: Ret) -> St;

    /// The lines of an assembly template.
    spec fn asm_step(&self, st: St, x: Asm) -> St;

    fn lower_move(&self, g: &mut Emitter, val: &Val, ty: Ty, dst: u32)
        requires
            self.ready(),
        ensures
            final(g)@ == self.move_step(old(g)@, *val, ty, dst),
    ;

    fn lower_inst(&self, g: &mut Emitter, i: &Inst)
        requires
            self.ready(),
        ensures
            final(g)@ == self.inst_step(old(g)@, *i),
    ;

    fn lower_test(&self, g: &mut Emitter, a: u32)
        requires
            self.ready(),
        ensures
            final(g)@ == self.test_step(old(g)@, a),
    ;

    fn lower_enter(&self, g: &mut Emitter, f: &Func)
        requires
            self.ready(),
        ensures
            final(g)@ == self.enter_step(old(g)@, *f),
    ;

    fn lower_ret(&self, g: &mut Emitter, f: &Func, x: &Ret)
        requires
            self.ready(),
        ensures
            final(g)@ == self.ret_step(old(g)@, *f, *x),
    ;

    fn lower_asm(&self, g: &mut Emitter, x: &Asm)
        requires
            self.ready(),
        ensures
            final(g)@ == self.asm_step(old(g)@, *x),
    ;
}

/// The slot a copy writes and the slot it reads. A pointer that was folded
/// is not read from its slot.
pub open spec fn move_of(cx: &Ctx, st: St, c: PhiCopy) -> (St, Move) {
    let (st, dst) = cx.local_step(st, c.dst@);
    match *c.val {
        Val::Reg(r) => if cx.pointer(r@) is Some {
            (st, Move { dst, src: None })
        } else {
            let (st, src) = cx.local_step(st, r@);
            (st, Move { dst, src: Some(src) })
        },
        _ => (st, Move { dst, src: None }),
    }
}

pub open spec fn moves_from(
    cx: &Ctx,
    st: St,
    copies: Seq<PhiCopy>,
    moves: Seq<Move>,
    i: int,
) -> (St, Seq<Move>)
    decreases copies.len() - i,
{
    if i < 0 || i >= copies.len() {
        (st, moves)
    } else {
        let (st, m) = move_of(cx, st, copies[i]);
        moves_from(cx, st, copies, moves.push(m), i + 1)
    }
}

/// The copies in the order `order`, from position `k` on.
pub open spec fn run_copies<C: Lower>(
    c: &C,
    st: St,
    copies: Seq<PhiCopy>,
    moves: Seq<Move>,
    order: Seq<usize>,
    k: int,
) -> St
    decreases order.len() - k,
{
    if k < 0 || k >= order.len() {
        st
    } else {
        let i = order[k] as int;
        run_copies(
            c,
            c.move_step(st, *copies[i].val, copies[i].ty, moves[i].dst),
            copies,
            moves,
            order,
            k + 1,
        )
    }
}

/// The copies of one edge, ordered by the edge's place in the graph.
#[verifier::opaque]
pub open spec fn phi_copies<C: Lower>(
    c: &C,
    cx: &Ctx,
    st: St,
    copies: Seq<PhiCopy>,
    back: bool,
) -> St {
    let (st, moves) = moves_from(cx, st, copies, Seq::empty(), 0);
    match copy_order(moves, back) {
        Some(order) => run_copies(c, st, copies, moves, order, 0),
        None => st.fail(IselError::PhiCycle),
    }
}

/// The jump to a block, for the branch at `loc`.
pub open spec fn goto_block(st: St, s: Option<Sym>, loc: Option<SrcLoc>) -> St {
    match s {
        Some(l) => st.emit_at(Line::Goto(l), loc),
        None => st.fail(IselError::UnknownBlock),
    }
}

/// The copies of the edge from block `b` to `merge`.
pub open spec fn edge<'b>(blocks: Seq<Block>, b: int, merge: Seq<char>) -> Seq<PhiCopy<'b>> {
    edge_copies(blocks, blocks[b].label@, merge, 0)
}

/// The copies of an edge. No instruction of the source asks for them.
pub open spec fn edge_step<C: Lower>(
    c: &C,
    cx: &Ctx,
    st: St,
    blocks: Seq<Block>,
    b: int,
    merge: Seq<char>,
) -> St {
    let cs = edge(blocks, b, merge);
    st.join(
        phi_copies(c, cx, st.fresh(), cs, back_edge(blocks, blocks[b].label@, merge)),
        None,
    )
}

pub open spec fn note_copies(st: St, fi: usize, blocks: Seq<Block>, b: int) -> St {
    match block_sym(fi, blocks, blocks[b].label@) {
        Some(s) => st.emit(Line::PhiNote(s)),
        None => st.fail(IselError::UnknownBlock),
    }
}

/// The copies of an edge under their comment, if it has any.
pub open spec fn noted_edge<C: Lower>(
    c: &C,
    cx: &Ctx,
    st: St,
    fi: usize,
    blocks: Seq<Block>,
    b: int,
    merge: Seq<char>,
) -> St {
    if edge(blocks, b, merge).len() > 0 {
        edge_step(c, cx, note_copies(st, fi, blocks, b), blocks, b, merge)
    } else {
        st
    }
}

/// An unconditional branch: the copies of its edge, then the jump.
pub open spec fn jump<C: Lower>(
    c: &C,
    cx: &Ctx,
    st: St,
    fi: usize,
    blocks: Seq<Block>,
    b: int,
    to: Seq<char>,
    loc: Option<SrcLoc>,
) -> St {
    goto_block(noted_edge(c, cx, st, fi, blocks, b, to), block_sym(fi, blocks, to), loc)
}

/// The two-way jump on Z: to `f` if it is set, else to `t`.
pub open spec fn cond_branch(
    st: St,
    t: Option<Sym>,
    f: Option<Sym>,
    loc: Option<SrcLoc>,
) -> St {
    goto_block(goto_block(st.emit_at(note_z(BitOp::Btfsc), loc), f, loc), t, loc)
}

/// A conditional branch. Copies run on their own edge only.
#[verifier::opaque]
pub open spec fn branch<C: Lower>(
    c: &C,
    cx: &Ctx,
    st: St,
    fi: usize,
    blocks: Seq<Block>,
    b: int,
    x: BrCond,
) -> St {
    let lt = block_sym(fi, blocks, x.t@);
    let lf = block_sym(fi, blocks, x.f@);
    let st = st.check(lt is Some && lf is Some, IselError::UnknownBlock);
    match x.cond {
        Val::Reg(r) => {
            let (st, ca) = cx.local_step(st, r@);
            let st = st.join(c.test_step(st.fresh(), ca), x.loc);
            let has_t = edge(blocks, b, x.t@).len() > 0;
            let has_f = edge(blocks, b, x.f@).len() > 0;
            if !has_t && !has_f {
                cond_branch(st, lt, lf, x.loc)
            } else if has_t && has_f {
                let l = st.next;
                let st = st.bump().emit_at(note_z(BitOp::Btfss), x.loc).emit_at(goto_tmp(l), x.loc);
                let st = noted_edge(c, cx, st, fi, blocks, b, x.f@);
                let st = goto_block(st, lf, x.loc).emit(label_tmp(l));
                goto_block(edge_step(c, cx, st, blocks, b, x.t@), lt, x.loc)
            } else if has_f {
                let st = goto_block(st.emit_at(note_z(BitOp::Btfss), x.loc), lt, x.loc);
                goto_block(noted_edge(c, cx, st, fi, blocks, b, x.f@), lf, x.loc)
            } else {
                let st = goto_block(st.emit_at(note_z(BitOp::Btfsc), x.loc), lf, x.loc);
                goto_block(noted_edge(c, cx, st, fi, blocks, b, x.t@), lt, x.loc)
            }
        },
        Val::Const(k) => if k != 0 {
            goto_block(noted_edge(c, cx, st, fi, blocks, b, x.t@), lt, x.loc)
        } else {
            goto_block(noted_edge(c, cx, st, fi, blocks, b, x.f@), lf, x.loc)
        },
        Val::Global(_) => st.fail(IselError::BranchOnGlobal),
    }
}

/// What ends a block.
pub open spec fn terminator<C: Lower>(
    c: &C,
    cx: &Ctx,
    st: St,
    fi: usize,
    f: Func,
    b: int,
    t: Inst,
) -> St {
    match t {
        Inst::Br(x) => jump(c, cx, st, fi, f.blocks@, b, x.target@, x.loc),
        Inst::BrCond(x) => branch(c, cx, st, fi, f.blocks@, b, x),
        Inst::Ret(x) => st.join(c.ret_step(st.fresh(), f, x), x.loc),
        _ => st.fail(IselError::UnsupportedInstruction),
    }
}

/// One instruction inside a block. Its lines carry its location.
pub open spec fn inst_lines<C: Lower>(c: &C, st: St, i: Inst) -> St {
    st.join(c.inst_step(st.fresh(), i), i.loc())
}

/// The instructions from `j` on that neither end the block nor are phis.
pub open spec fn insts_from<C: Lower>(c: &C, st: St, insts: Seq<Inst>, j: int) -> St
    decreases insts.len() - j,
{
    if j < 0 || j >= insts.len() {
        st
    } else if insts[j] is Phi || insts[j].ends_block() {
        insts_from(c, st, insts, j + 1)
    } else {
        insts_from(c, inst_lines(c, st, insts[j]), insts, j + 1)
    }
}

/// The last instruction before `j` that ends the block.
pub open spec fn ending(insts: Seq<Inst>, j: int) -> Option<int>
    decreases j,
{
    if j <= 0 || j > insts.len() {
        None
    } else if insts[j - 1].ends_block() {
        Some(j - 1)
    } else {
        ending(insts, j - 1)
    }
}

#[verifier::opaque]
pub open spec fn block_step<C: Lower>(c: &C, cx: &Ctx, st: St, fi: usize, f: Func, b: int) -> St {
    let blk = f.blocks@[b];
    let st = match block_sym(fi, f.blocks@, blk.label@) {
        Some(s) => st.emit(Line::Label(s)),
        None => st.fail(IselError::UnknownBlock),
    };
    let st = if b == 0 {
        st.join(c.enter_step(st.fresh(), f), None)
    } else {
        st
    };
    let st = insts_from(c, st, blk.insts@, 0);
    match ending(blk.insts@, blk.insts@.len() as int) {
        Some(j) => terminator(c, cx, st, fi, f, b, blk.insts@[j]),
        None => st,
    }
}

pub open spec fn blocks_from<C: Lower>(c: &C, cx: &Ctx, st: St, fi: usize, f: Func, b: int) -> St
    decreases f.blocks@.len() - b,
{
    if b < 0 || b >= f.blocks@.len() {
        st
    } else {
        blocks_from(c, cx, block_step(c, cx, st, fi, f, b), fi, f, b + 1)
    }
}

/// The assembly of one block of a naked function, from instruction `j` on.
pub open spec fn naked_insts<C: Lower>(c: &C, st: St, insts: Seq<Inst>, j: int) -> St
    decreases insts.len() - j,
{
    if j < 0 || j >= insts.len() {
        st
    } else {
        let st = match insts[j] {
            Inst::Asm(x) => st.join(c.asm_step(st.fresh(), x), x.loc),
            _ => st.fail(IselError::NakedBody),
        };
        naked_insts(c, st, insts, j + 1)
    }
}

pub open spec fn naked_from<C: Lower>(c: &C, st: St, blocks: Seq<Block>, b: int) -> St
    decreases blocks.len() - b,
{
    if b < 0 || b >= blocks.len() {
        st
    } else {
        naked_from(c, naked_insts(c, st, blocks[b].insts@, 0), blocks, b + 1)
    }
}

/// The body of function number `fi`.
#[verifier::opaque]
pub open spec fn func_body<C: Lower>(c: &C, cx: &Ctx, st: St, fi: usize) -> St {
    let f = cx.m.funcs@[fi as int];
    if f.naked {
        let st = st.emit(Line::Label(Sym::Func(fi))).emit(Line::AsmStart);
        naked_from(c, st, f.blocks@, 0).emit(Line::AsmEnd).emit(Line::Blank)
    } else if f.blocks@.len() == 0 {
        st.fail(IselError::NoBlocks)
    } else {
        blocks_from(c, cx, st, fi, f, 0).emit(Line::Blank)
    }
}

fn find_move(cx: &Ctx, g: &mut Emitter, c: &PhiCopy) -> (r: Move)
    requires
        cx.wf(),
    ensures
        (final(g)@, r) == move_of(cx, old(g)@, *c),
{
    let dst: u32 = cx.local_addr(g, c.dst.as_str());
    match c.val {
        Val::Reg(r) => {
            if cx.find_pointer(r.as_str()).is_some() {
                Move { dst, src: None }
            } else {
                let src: u32 = cx.local_addr(g, r.as_str());
                Move { dst, src: Some(src) }
            }
        },
        _ => Move { dst, src: None },
    }
}

/// Emits the copies of one edge. No copy overwrites a slot that a later one
/// still reads; copies in a ring are refused.
pub fn emit_phi_copies<C: Lower>(
    c: &C,
    cx: &Ctx,
    g: &mut Emitter,
    copies: &Vec<PhiCopy>,
    back: bool,
)
    requires
        c.ready(),
        cx.wf(),
    ensures
        final(g)@ == phi_copies(c, cx, old(g)@, copies@, back),
{
    reveal(phi_copies);
    let mut moves: Vec<Move> = Vec::new();
    let mut i: usize = 0;
    while i < copies.len()
        invariant
            cx.wf(),
            i <= copies@.len(),
            moves@.len() == i,
            moves_from(cx, old(g)@, copies@, Seq::empty(), 0) == moves_from(
                cx,
                g@,
                copies@,
                moves@,
                i as int,
            ),
        decreases copies@.len() - i,
    {
        let m = find_move(cx, g, &copies[i]);
        moves.push(m);
        i += 1;
    }
    match order_copies(&moves, back) {
        Some(order) => {
            let ghost start = g@;
            let mut k: usize = 0;
            while k < order.len()
                invariant
                    c.ready(),
                    k <= order@.len(),
                    moves@.len() == copies@.len(),
                    forall|a: int| 0 <= a < order@.len() ==> (#[trigger] order@[a]) < moves@.len(),
                    run_copies(c, start, copies@, moves@, order@, 0) == run_copies(
                        c,
                        g@,
                        copies@,
                        moves@,
                        order@,
                        k as int,
                    ),
                decreases order@.len() - k,
            {
                let j: usize = order[k];
                c.lower_move(g, copies[j].val, copies[j].ty, moves[j].dst);
                k += 1;
            }
        },
        None => g.fail(IselError::PhiCycle),
    }
}

fn emit_goto(g: &mut Emitter, s: Option<Sym>, loc: Option<SrcLoc>)
    ensures
        final(g)@ == goto_block(old(g)@, s, loc),
{
    match s {
        Some(l) => g.emit_at(Line::Goto(l), loc),
        None => g.fail(IselError::UnknownBlock),
    }
}

fn emit_edge<C: Lower>(
    c: &C,
    cx: &Ctx,
    g: &mut Emitter,
    f: &Func,
    doms: &Doms,
    b: usize,
    merge: &str,
)
    requires
        c.ready(),
        cx.wf(),
        b < f.blocks@.len(),
        doms.correct(f.blocks@),
    ensures
        final(g)@ == edge_step(c, cx, old(g)@, f.blocks@, b as int, merge@),
{
    let copies = collect_copies(&f.blocks, f.blocks[b].label.as_str(), merge);
    let back: bool = doms.is_back_edge(&f.blocks, b, merge);
    let rows = g.set_aside();
    emit_phi_copies(c, cx, g, &copies, back);
    g.rejoin(rows, None);
}

fn has_copies(f: &Func, b: usize, merge: &str) -> (r: bool)
    requires
        b < f.blocks@.len(),
    ensures
        r == (edge(f.blocks@, b as int, merge@).len() > 0),
{
    collect_copies(&f.blocks, f.blocks[b].label.as_str(), merge).len() > 0
}

fn emit_noted_edge<C: Lower>(
    c: &C,
    cx: &Ctx,
    g: &mut Emitter,
    fi: usize,
    f: &Func,
    doms: &Doms,
    b: usize,
    merge: &str,
)
    requires
        c.ready(),
        cx.wf(),
        b < f.blocks@.len(),
        doms.correct(f.blocks@),
    ensures
        final(g)@ == noted_edge(c, cx, old(g)@, fi, f.blocks@, b as int, merge@),
{
    if has_copies(f, b, merge) {
        match find_block_sym(fi, &f.blocks, f.blocks[b].label.as_str()) {
            Some(s) => g.emit(Line::PhiNote(s)),
            None => g.fail(IselError::UnknownBlock),
        }
        emit_edge(c, cx, g, f, doms, b, merge);
    }
}

/// Branches on Z, which the test of the condition byte left: zero goes to
/// `f`, anything else to `t`.
fn emit_cond_branch(g: &mut Emitter, t: Option<Sym>, f: Option<Sym>, loc: Option<SrcLoc>)
    ensures
        final(g)@ == cond_branch(old(g)@, t, f, loc),
{
    g.emit_at(note_z(BitOp::Btfsc), loc);
    emit_goto(g, f, loc);
    emit_goto(g, t, loc);
}

fn emit_branch<C: Lower>(
    c: &C,
    cx: &Ctx,
    g: &mut Emitter,
    fi: usize,
    f: &Func,
    doms: &Doms,
    b: usize,
    x: &BrCond,
)
    requires
        c.ready(),
        cx.wf(),
        b < f.blocks@.len(),
        doms.correct(f.blocks@),
    ensures
        final(g)@ == branch(c, cx, old(g)@, fi, f.blocks@, b as int, *x),
{
    reveal(branch);
    let t = x.t.as_str();
    let e = x.f.as_str();
    let lt = find_block_sym(fi, &f.blocks, t);
    let lf = find_block_sym(fi, &f.blocks, e);
    g.check(lt.is_some() && lf.is_some(), IselError::UnknownBlock);
    match &x.cond {
        Val::Reg(r) => {
            let ca: u32 = cx.local_addr(g, r.as_str());
            let rows = g.set_aside();
            c.lower_test(g, ca);
            g.rejoin(rows, x.loc);
            let has_t: bool = has_copies(f, b, t);
            let has_f: bool = has_copies(f, b, e);
            if !has_t && !has_f {
                emit_cond_branch(g, lt, lf, x.loc);
            } else if has_t && has_f {
                let l: u32 = g.fresh_label();
                g.emit_at(note_z(BitOp::Btfss), x.loc);
                g.emit_at(goto_tmp(l), x.loc);
                emit_noted_edge(c, cx, g, fi, f, doms, b, e);
                emit_goto(g, lf, x.loc);
                g.emit(label_tmp(l));
                emit_edge(c, cx, g, f, doms, b, t);
                emit_goto(g, lt, x.loc);
            } else if has_f {
                g.emit_at(note_z(BitOp::Btfss), x.loc);
                emit_goto(g, lt, x.loc);
                emit_noted_edge(c, cx, g, fi, f, doms, b, e);
                emit_goto(g, lf, x.loc);
            } else {
                g.emit_at(note_z(BitOp::Btfsc), x.loc);
                emit_goto(g, lf, x.loc);
                emit_noted_edge(c, cx, g, fi, f, doms, b, t);
                emit_goto(g, lt, x.loc);
            }
        },
        Val::Const(k) => {
            if *k != 0 {
                emit_noted_edge(c, cx, g, fi, f, doms, b, t);
                emit_goto(g, lt, x.loc);
            } else {
                emit_noted_edge(c, cx, g, fi, f, doms, b, e);
                emit_goto(g, lf, x.loc);
            }
        },
        Val::Global(_) => g.fail(IselError::BranchOnGlobal),
    }
}

/// Emits what ends a block.
fn emit_terminator<C: Lower>(
    c: &C,
    cx: &Ctx,
    g: &mut Emitter,
    fi: usize,
    f: &Func,
    doms: &Doms,
    b: usize,
    t: &Inst,
)
    requires
        c.ready(),
        cx.wf(),
        b < f.blocks@.len(),
        doms.correct(f.blocks@),
    ensures
        final(g)@ == terminator(c, cx, old(g)@, fi, *f, b as int, *t),
{
    match t {
        Inst::Br(x) => {
            emit_noted_edge(c, cx, g, fi, f, doms, b, x.target.as_str());
            emit_goto(g, find_block_sym(fi, &f.blocks, x.target.as_str()), x.loc);
        },
        Inst::BrCond(x) => emit_branch(c, cx, g, fi, f, doms, b, x),
        Inst::Ret(x) => {
            let rows = g.set_aside();
            c.lower_ret(g, f, x);
            g.rejoin(rows, x.loc);
        },
        _ => g.fail(IselError::UnsupportedInstruction),
    }
}

fn emit_block<C: Lower>(
    c: &C,
    cx: &Ctx,
    g: &mut Emitter,
    fi: usize,
    f: &Func,
    doms: &Doms,
    b: usize,
)
    requires
        c.ready(),
        cx.wf(),
        b < f.blocks@.len(),
        doms.correct(f.blocks@),
    ensures
        final(g)@ == block_step(c, cx, old(g)@, fi, *f, b as int),
{
    reveal(block_step);
    let blk = &f.blocks[b];
    match find_block_sym(fi, &f.blocks, blk.label.as_str()) {
        Some(s) => g.emit(Line::Label(s)),
        None => g.fail(IselError::UnknownBlock),
    }
    if b == 0 {
        let rows = g.set_aside();
        c.lower_enter(g, f);
        g.rejoin(rows, None);
    }
    let ghost start = g@;
    let mut j: usize = 0;
    while j < blk.insts.len()
        invariant
            c.ready(),
            j <= blk.insts@.len(),
            insts_from(c, start, blk.insts@, 0) == insts_from(c, g@, blk.insts@, j as int),
        decreases blk.insts@.len() - j,
    {
        let i = &blk.insts[j];
        let is_phi: bool = matches!(i, Inst::Phi(_));
        if !is_phi && !i.ends_block() {
            let rows = g.set_aside();
            c.lower_inst(g, i);
            g.rejoin(rows, i.loc());
        }
        j += 1;
    }
    let mut e: usize = blk.insts.len();
    while e > 0
        invariant
            e <= blk.insts@.len(),
            ending(blk.insts@, blk.insts@.len() as int) == ending(blk.insts@, e as int),
            c.ready(),
            cx.wf(),
            b < f.blocks@.len(),
            doms.correct(f.blocks@),
            blk == f.blocks@[b as int],
            block_step(c, cx, old(g)@, fi, *f, b as int) == (match ending(
                blk.insts@,
                blk.insts@.len() as int,
            ) {
                Some(k) => terminator(c, cx, g@, fi, *f, b as int, blk.insts@[k]),
                None => g@,
            }),
        decreases e,
    {
        e -= 1;
        if blk.insts[e].ends_block() {
            emit_terminator(c, cx, g, fi, f, doms, b, &blk.insts[e]);
            return;
        }
    }
}

fn emit_naked<C: Lower>(c: &C, g: &mut Emitter, f: &Func)
    requires
        c.ready(),
    ensures
        final(g)@ == naked_from(c, old(g)@, f.blocks@, 0),
{
    let mut b: usize = 0;
    while b < f.blocks.len()
        invariant
            c.ready(),
            b <= f.blocks@.len(),
            naked_from(c, old(g)@, f.blocks@, 0) == naked_from(c, g@, f.blocks@, b as int),
        decreases f.blocks@.len() - b,
    {
        let insts = &f.blocks[b].insts;
        let ghost start = g@;
        let mut j: usize = 0;
        while j < insts.len()
            invariant
                c.ready(),
                j <= insts@.len(),
                naked_insts(c, start, insts@, 0) == naked_insts(c, g@, insts@, j as int),
            decreases insts@.len() - j,
        {
            match &insts[j] {
                Inst::Asm(x) => {
                    let rows = g.set_aside();
                    c.lower_asm(g, x);
                    g.rejoin(rows, x.loc);
                },
                _ => g.fail(IselError::NakedBody),
            }
            j += 1;
        }
        b += 1;
    }
}

/// Emits the body of function number `fi`: a naked function verbatim, any
/// other block by block.
pub fn emit_func_body<C: Lower>(c: &C, cx: &Ctx, g: &mut Emitter, fi: usize)
    requires
        c.ready(),
        cx.wf(),
        fi < cx.m.funcs@.len(),
    ensures
        final(g)@ == func_body(c, cx, old(g)@, fi),
{
    reveal(func_body);
    let f = &cx.m.funcs[fi];
    if f.naked {
        g.emit(Line::Label(Sym::Func(fi)));
        g.emit(Line::AsmStart);
        emit_naked(c, g, f);
        g.emit(Line::AsmEnd);
        g.emit(Line::Blank);
        return;
    }
    if f.blocks.len() == 0 {
        g.fail(IselError::NoBlocks);
        return;
    }
    let doms = block_dominators(&f.blocks);
    let ghost start = g@;
    let mut b: usize = 0;
    while b < f.blocks.len()
        invariant
            c.ready(),
            cx.wf(),
            doms.correct(f.blocks@),
            b <= f.blocks@.len(),
            blocks_from(c, cx, start, fi, *f, 0) == blocks_from(c, cx, g@, fi, *f, b as int),
        decreases f.blocks@.len() - b,
    {
        emit_block(c, cx, g, fi, f, &doms, b);
        b += 1;
    }
    g.emit(Line::Blank);
}

} // verus!
