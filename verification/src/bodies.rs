//! What holds of the code for a function as a whole: every block and every instruction is
//! in it, in order.
use vstd::prelude::*;
use crate::body::{
    block_step, blocks_from, func_body, inst_lines, insts_from, naked_from, naked_insts, terminator,
    ending, Lower,
};
use crate::cfg::block_sym;
use crate::ctx::Ctx;
use crate::emit::St;
use crate::error::IselError;
use crate::ir::{Asm, Block, Func, Inst};
use crate::line::{Line, Sym};
use crate::located::{
    law_a_block_marks_its_lines, law_an_instruction_marks_its_lines,
    law_the_end_of_a_block_marks_its_lines, lemma_blocks, lemma_insts, lemma_naked,
    lemma_naked_insts,
};

verus! {

/// Whether the lines of `t` start with those of `s`.
pub open spec fn begins(s: St, t: St) -> bool {
    &&& s.rows.len() <= t.rows.len()
    &&& forall|k: int| 0 <= k < s.rows.len() ==> #[trigger] t.rows[k] == s.rows[k]
}

/// Whether the code for an instruction stands in `t`, right behind the lines of `s`.
pub open spec fn lowered<C: Lower>(c: &C, s: St, i: Inst, t: St) -> bool {
    begins(inst_lines(c, s, i), t)
}

/// Whether an instruction stands inside a block: it is no phi, and does not end the block.
pub open spec fn inside(i: Inst) -> bool {
    !(i is Phi) && !i.ends_block()
}

proof fn lemma_over(a: St, b: St, c: St)
    requires
        begins(a, b),
        begins(b, c),
    ensures
        begins(a, c),
{
}

proof fn lemma_one<C: Lower>(c: &C, st: St, x: Block, from: int, j: int)
    requires
        0 <= from <= j < x.insts@.len(),
        inside(x.insts@[j]),
    ensures
        exists|s: St|
            begins(st, s) && #[trigger] lowered(
                c,
                s,
                x.insts@[j],
                insts_from(c, st, x.insts@, from),
            ),
    decreases j - from,
{
    let all = insts_from(c, st, x.insts@, from);
    let i = x.insts@[from];
    let next = if inside(i) {
        inst_lines(c, st, i)
    } else {
        st
    };
    law_an_instruction_marks_its_lines(c, st, i);
    assert(begins(st, next));
    assert(all == insts_from(c, next, x.insts@, from + 1));
    if from < j {
        lemma_one(c, next, x, from + 1, j);
        let s = choose|s: St| begins(next, s) && #[trigger] lowered(c, s, x.insts@[j], all);
        lemma_over(st, next, s);
        assert(begins(st, s) && lowered(c, s, x.insts@[j], all));
    } else {
        lemma_insts(c, next, x, from + 1);
        assert(begins(st, st) && lowered(c, st, x.insts@[j], all));
    }
}

proof fn lemma_two<C: Lower>(c: &C, st: St, x: Block, from: int, j: int, k: int)
    requires
        0 <= from <= j < k < x.insts@.len(),
        inside(x.insts@[j]),
        inside(x.insts@[k]),
    ensures
        exists|s: St, t: St|
            begins(st, s) && #[trigger] lowered(c, s, x.insts@[j], t) && #[trigger] lowered(
                c,
                t,
                x.insts@[k],
                insts_from(c, st, x.insts@, from),
            ),
    decreases j - from,
{
    let all = insts_from(c, st, x.insts@, from);
    let i = x.insts@[from];
    let next = if inside(i) {
        inst_lines(c, st, i)
    } else {
        st
    };
    law_an_instruction_marks_its_lines(c, st, i);
    assert(begins(st, next));
    assert(all == insts_from(c, next, x.insts@, from + 1));
    if from < j {
        lemma_two(c, next, x, from + 1, j, k);
        let (s, t) = choose|s: St, t: St|
            begins(next, s) && #[trigger] lowered(c, s, x.insts@[j], t) && #[trigger] lowered(
                c,
                t,
                x.insts@[k],
                all,
            );
        lemma_over(st, next, s);
        assert(begins(st, s) && lowered(c, s, x.insts@[j], t) && lowered(c, t, x.insts@[k], all));
    } else {
        lemma_one(c, next, x, from + 1, k);
        let t = choose|t: St| begins(next, t) && #[trigger] lowered(c, t, x.insts@[k], all);
        assert(begins(st, st) && lowered(c, st, x.insts@[j], t) && lowered(c, t, x.insts@[k], all));
    }
}

/// The lines of a block before its instructions: its label, and what a function starts
/// with.
pub open spec fn block_start<C: Lower>(c: &C, st: St, f: Func, b: int, l: Sym) -> St {
    let st = st.emit(Line::Label(l));
    if b == 0 {
        st.join(c.enter_step(st.fresh(), f), None)
    } else {
        st
    }
}

/// Behind the label of a block, and behind what a function starts with if it is the
/// first, stands the code for every instruction inside it, that of the earlier before
/// that of the later.
pub proof fn law_block_lowers_its_instructions_in_order<C: Lower>(
    c: &C,
    cx: &Ctx,
    st: St,
    fi: usize,
    f: Func,
    b: int,
    l: Sym,
    j: int,
    k: int,
)
    requires
        0 <= b < f.blocks@.len(),
        block_sym(fi, f.blocks@, f.blocks@[b].label@) == Some(l),
        0 <= j <= k < f.blocks@[b].insts@.len(),
        inside(f.blocks@[b].insts@[j]),
        inside(f.blocks@[b].insts@[k]),
    ensures
        begins(block_start(c, st, f, b, l), block_step(c, cx, st, fi, f, b)),
        j == k ==> exists|s: St|
            begins(block_start(c, st, f, b, l), s) && #[trigger] lowered(
                c,
                s,
                f.blocks@[b].insts@[j],
                block_step(c, cx, st, fi, f, b),
            ),
        j < k ==> exists|s: St, t: St|
            begins(block_start(c, st, f, b, l), s) && #[trigger] lowered(
                c,
                s,
                f.blocks@[b].insts@[j],
                t,
            ) && #[trigger] lowered(
                c,
                t,
                f.blocks@[b].insts@[k],
                block_step(c, cx, st, fi, f, b),
            ),
{
    reveal(block_step);
    let x = f.blocks@[b];
    let s0 = block_start(c, st, f, b, l);
    let s1 = insts_from(c, s0, x.insts@, 0);
    let all = block_step(c, cx, st, fi, f, b);
    lemma_insts(c, s0, x, 0);
    if let Some(e) = ending(x.insts@, x.insts@.len() as int) {
        law_the_end_of_a_block_marks_its_lines(c, cx, s1, fi, f, b, x.insts@[e]);
    }
    assert(begins(s1, all));
    if j == k {
        lemma_one(c, s0, x, 0, j);
        let s = choose|s: St| begins(s0, s) && #[trigger] lowered(c, s, x.insts@[j], s1);
        lemma_over(inst_lines(c, s, x.insts@[j]), s1, all);
        assert(begins(s0, s) && lowered(c, s, x.insts@[j], all));
    } else {
        lemma_two(c, s0, x, 0, j, k);
        let (s, t) = choose|s: St, t: St|
            begins(s0, s) && #[trigger] lowered(c, s, x.insts@[j], t) && #[trigger] lowered(
                c,
                t,
                x.insts@[k],
                s1,
            );
        lemma_over(inst_lines(c, t, x.insts@[k]), s1, all);
        assert(begins(s0, s) && lowered(c, s, x.insts@[j], t) && lowered(c, t, x.insts@[k], all));
    }
}

proof fn lemma_ends(insts: Seq<Inst>, n: int, e: int)
    requires
        0 <= e < n <= insts.len(),
        insts[e].ends_block(),
        forall|k: int| e < k < n ==> !(#[trigger] insts[k]).ends_block(),
    ensures
        ending(insts, n) == Some(e),
    decreases n,
{
    if e < n - 1 {
        lemma_ends(insts, n - 1, e);
    }
}

/// The code of a block ends with that of the instruction that ends the block, behind that
/// of every instruction inside it.
pub proof fn law_block_ends_as_it_says<C: Lower>(
    c: &C,
    cx: &Ctx,
    st: St,
    fi: usize,
    f: Func,
    b: int,
    l: Sym,
    j: int,
    e: int,
)
    requires
        0 <= b < f.blocks@.len(),
        block_sym(fi, f.blocks@, f.blocks@[b].label@) == Some(l),
        0 <= j < f.blocks@[b].insts@.len(),
        inside(f.blocks@[b].insts@[j]),
        0 <= e < f.blocks@[b].insts@.len(),
        f.blocks@[b].insts@[e].ends_block(),
        forall|k: int|
            e < k < f.blocks@[b].insts@.len() ==> !(#[trigger] f.blocks@[b].insts@[k]).ends_block(),
    ensures
        exists|s: St, t: St|
            begins(block_start(c, st, f, b, l), s) && #[trigger] lowered(
                c,
                s,
                f.blocks@[b].insts@[j],
                t,
            ) && block_step(c, cx, st, fi, f, b) == terminator(
                c,
                cx,
                t,
                fi,
                f,
                b,
                f.blocks@[b].insts@[e],
            ),
{
    reveal(block_step);
    let x = f.blocks@[b];
    let s0 = block_start(c, st, f, b, l);
    let s1 = insts_from(c, s0, x.insts@, 0);
    lemma_ends(x.insts@, x.insts@.len() as int, e);
    lemma_one(c, s0, x, 0, j);
    let s = choose|s: St| begins(s0, s) && #[trigger] lowered(c, s, x.insts@[j], s1);
    assert(begins(s0, s) && lowered(c, s, x.insts@[j], s1));
}

proof fn lemma_block<C: Lower>(c: &C, cx: &Ctx, st: St, fi: usize, f: Func, from: int, b: int)
    requires
        0 <= from <= b < f.blocks@.len(),
    ensures
        exists|s: St|
            begins(st, s) && begins(
                #[trigger] block_step(c, cx, s, fi, f, b),
                blocks_from(c, cx, st, fi, f, from),
            ),
    decreases b - from,
{
    let all = blocks_from(c, cx, st, fi, f, from);
    let next = block_step(c, cx, st, fi, f, from);
    law_a_block_marks_its_lines(c, cx, st, fi, f, from);
    assert(begins(st, next));
    if from < b {
        lemma_block(c, cx, next, fi, f, from + 1, b);
        let s = choose|s: St|
            begins(next, s) && begins(#[trigger] block_step(c, cx, s, fi, f, b), all);
        lemma_over(st, next, s);
        assert(begins(st, s) && begins(block_step(c, cx, s, fi, f, b), all));
    } else {
        lemma_blocks(c, cx, next, fi, f, from + 1);
        assert(begins(st, st) && begins(block_step(c, cx, st, fi, f, b), all));
    }
}

/// The code of a function holds that of every block, the first block first.
pub proof fn law_function_lowers_every_block<C: Lower>(c: &C, cx: &Ctx, st: St, fi: usize, b: int)
    requires
        fi < cx.m.funcs@.len(),
        !cx.m.funcs@[fi as int].naked,
        0 <= b < cx.m.funcs@[fi as int].blocks@.len(),
    ensures
        begins(
            block_step(c, cx, st, fi, cx.m.funcs@[fi as int], 0),
            func_body(c, cx, st, fi),
        ),
        exists|s: St|
            begins(st, s) && begins(
                #[trigger] block_step(c, cx, s, fi, cx.m.funcs@[fi as int], b),
                func_body(c, cx, st, fi),
            ),
{
    reveal(func_body);
    let f = cx.m.funcs@[fi as int];
    let all = func_body(c, cx, st, fi);
    let most = blocks_from(c, cx, st, fi, f, 0);
    assert(begins(most, all));
    let first = block_step(c, cx, st, fi, f, 0);
    lemma_blocks(c, cx, first, fi, f, 1);
    lemma_over(first, most, all);
    lemma_block(c, cx, st, fi, f, 0, b);
    let s = choose|s: St| begins(st, s) && begins(#[trigger] block_step(c, cx, s, fi, f, b), most);
    lemma_over(block_step(c, cx, s, fi, f, b), most, all);
}

/// Whether the lines of inline assembly stand in `t`, right behind those of `s`.
pub open spec fn written<C: Lower>(c: &C, s: St, x: Asm, t: St) -> bool {
    begins(s.join(c.asm_step(s.fresh(), x), x.loc), t)
}

proof fn lemma_naked_one<C: Lower>(c: &C, st: St, x: Block, from: int, j: int)
    requires
        0 <= from <= j < x.insts@.len(),
        x.insts@[j] is Asm,
    ensures
        exists|s: St|
            begins(st, s) && #[trigger] written(
                c,
                s,
                x.insts@[j]->Asm_0,
                naked_insts(c, st, x.insts@, from),
            ),
    decreases j - from,
{
    let all = naked_insts(c, st, x.insts@, from);
    let next = match x.insts@[from] {
        Inst::Asm(a) => st.join(c.asm_step(st.fresh(), a), a.loc),
        _ => st.fail(IselError::NakedBody),
    };
    assert(begins(st, next));
    assert(all == naked_insts(c, next, x.insts@, from + 1));
    if from < j {
        lemma_naked_one(c, next, x, from + 1, j);
        let s = choose|s: St| begins(next, s) && #[trigger] written(c, s, x.insts@[j]->Asm_0, all);
        lemma_over(st, next, s);
        assert(begins(st, s) && written(c, s, x.insts@[j]->Asm_0, all));
    } else {
        lemma_naked_insts(c, next, x, from + 1);
        assert(begins(st, st) && written(c, st, x.insts@[j]->Asm_0, all));
    }
}

proof fn lemma_naked_block<C: Lower>(c: &C, st: St, f: Func, from: int, b: int, j: int)
    requires
        0 <= from <= b < f.blocks@.len(),
        0 <= j < f.blocks@[b].insts@.len(),
        f.blocks@[b].insts@[j] is Asm,
    ensures
        exists|s: St|
            begins(st, s) && #[trigger] written(
                c,
                s,
                f.blocks@[b].insts@[j]->Asm_0,
                naked_from(c, st, f.blocks@, from),
            ),
    decreases b - from,
{
    let all = naked_from(c, st, f.blocks@, from);
    let next = naked_insts(c, st, f.blocks@[from].insts@, 0);
    let x = f.blocks@[b].insts@[j]->Asm_0;
    lemma_naked_insts(c, st, f.blocks@[from], 0);
    assert(begins(st, next));
    if from < b {
        lemma_naked_block(c, next, f, from + 1, b, j);
        let s = choose|s: St| begins(next, s) && #[trigger] written(c, s, x, all);
        lemma_over(st, next, s);
        assert(begins(st, s) && written(c, s, x, all));
    } else {
        lemma_naked(c, next, f, from + 1);
        lemma_naked_one(c, st, f.blocks@[b], 0, j);
        let s = choose|s: St| begins(st, s) && #[trigger] written(c, s, x, next);
        lemma_over(s.join(c.asm_step(s.fresh(), x), x.loc), next, all);
        assert(begins(st, s) && written(c, s, x, all));
    }
}

/// A naked function is its label and its assembly: nothing is saved or set up before it,
/// and each of its statements stands in it.
pub proof fn law_naked_function_is_its_assembly<C: Lower>(
    c: &C,
    cx: &Ctx,
    st: St,
    fi: usize,
    b: int,
    j: int,
)
    requires
        fi < cx.m.funcs@.len(),
        cx.m.funcs@[fi as int].naked,
        0 <= b < cx.m.funcs@[fi as int].blocks@.len(),
        0 <= j < cx.m.funcs@[fi as int].blocks@[b].insts@.len(),
        cx.m.funcs@[fi as int].blocks@[b].insts@[j] is Asm,
    ensures
        exists|s: St|
            begins(st.emit(Line::Label(Sym::Func(fi))).emit(Line::AsmStart), s)
                && #[trigger] written(
                c,
                s,
                cx.m.funcs@[fi as int].blocks@[b].insts@[j]->Asm_0,
                func_body(c, cx, st, fi),
            ),
        b == 0 && j == 0 ==> written(
            c,
            st.emit(Line::Label(Sym::Func(fi))).emit(Line::AsmStart),
            cx.m.funcs@[fi as int].blocks@[0].insts@[0]->Asm_0,
            func_body(c, cx, st, fi),
        ),
{
    reveal(func_body);
    let f = cx.m.funcs@[fi as int];
    let x = f.blocks@[b].insts@[j]->Asm_0;
    let s0 = st.emit(Line::Label(Sym::Func(fi))).emit(Line::AsmStart);
    let most = naked_from(c, s0, f.blocks@, 0);
    let all = func_body(c, cx, st, fi);
    assert(begins(most, all));
    lemma_naked_block(c, s0, f, 0, b, j);
    let s = choose|s: St| begins(s0, s) && #[trigger] written(c, s, x, most);
    lemma_over(s.join(c.asm_step(s.fresh(), x), x.loc), most, all);
    assert(begins(s0, s) && written(c, s, x, all));
    if b == 0 && j == 0 {
        let s1 = s0.join(c.asm_step(s0.fresh(), x), x.loc);
        let s2 = naked_insts(c, s0, f.blocks@[0].insts@, 0);
        lemma_naked_insts(c, s1, f.blocks@[0], 1);
        assert(begins(s1, s2));
        lemma_naked(c, s2, f, 1);
        lemma_over(s1, s2, most);
        lemma_over(s1, most, all);
    }
}

} // verus!
