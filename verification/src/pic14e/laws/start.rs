//! The reset code.
use vstd::prelude::*;
use crate::consts::{byte_imm, ref_at};
use crate::emit::{movwf, St};
use crate::line::{Imm, Line, LitOp, Sym};
use crate::output::row_lines;
use crate::pic14e::select::{init_bytes, init_from, placed, start_lines, Inputs, Progress};
use crate::pic14e::{to_pclath, PageList};

verus! {

proof fn lemma_init_bytes(x: Inputs, y: Inputs, st: St, gi: usize, base: u16, i: int)
    requires
        x.m.globals == y.m.globals,
        x.addrs == y.addrs,
    ensures
        init_bytes(x, st, gi, base, i) == init_bytes(y, st, gi, base, i),
    decreases x.m.globals@[gi as int].bytes@.len() - i,
{
    if 0 <= i < x.m.globals@[gi as int].bytes@.len() {
        let s = st.emit(Line::Lit(LitOp::Movlw, byte_imm(x.m, x.addrs, gi, i)));
        lemma_init_bytes(x, y, s.emit(movwf((base as u32).wrapping_add(i as u32))), gi, base, i + 1);
    }
}

proof fn lemma_init(x: Inputs, y: Inputs, st: St, gi: int)
    requires
        x.m.globals == y.m.globals,
        x.addrs == y.addrs,
    ensures
        init_from(x, st, gi) == init_from(y, st, gi),
    decreases x.m.globals@.len() - gi,
{
    if 0 <= gi < x.m.globals@.len() {
        let base = x.addrs@[x.m.globals@[gi].name@];
        lemma_init_bytes(x, y, st, gi as usize, base, 0);
        lemma_init(x, y, init_bytes(x, st, gi as usize, base, 0), gi + 1);
        lemma_init(x, y, st, gi + 1);
    }
}

/// The reset code depends on the globals and their addresses alone: a module with
/// a handler has the reset code of the module without it, right behind the
/// handler.
pub proof fn law_reset_code_is_the_same_with_a_handler(
    x: Inputs,
    y: Inputs,
    common: u16,
    calls: &PageList,
    pads: Map<Seq<char>, usize>,
    acc: Progress,
    fi: usize,
)
    requires
        x.m.globals == y.m.globals,
        x.addrs == y.addrs,
        fi < x.m.funcs@.len(),
    ensures
        start_lines(x) == start_lines(y),
        x.m.funcs@[fi as int].isr ==> ({
            let p = placed(x, common, calls, pads, acc, fi);
            p.err is None ==> p.out.lines.len() >= start_lines(y).rows.len() && p.out.lines.skip(
                p.out.lines.len() - start_lines(y).rows.len(),
            ) == row_lines(x.m, start_lines(y))
        }),
{
    let st = St::start(0).emit(Line::Label(Sym::Start)).emit(
        Line::Lit(LitOp::Movlw, Imm::Page(Sym::Main)),
    ).emit(to_pclath());
    lemma_init(x, y, st, 0);
    let p = placed(x, common, calls, pads, acc, fi);
    if x.m.funcs@[fi as int].isr && p.err is None {
        let n = start_lines(y).rows.len();
        assert(p.out.lines.skip(p.out.lines.len() - n) =~= row_lines(x.m, start_lines(y)));
    }
}

/// A byte of a constant in RAM that is part of the address of a function starts
/// as the label's low byte at even offsets, as its high byte at odd ones.
pub proof fn law_function_fields_start_as_labels(x: Inputs, gi: usize, i: int, r: usize)
    requires
        gi < x.m.globals@.len(),
        ref_at(x.m.globals@[gi as int].refs@, i, 0) == Some(r),
        !x.addrs@.dom().contains(x.m.globals@[gi as int].refs@[r as int].name@),
    ensures
        byte_imm(x.m, x.addrs, gi, i) == (if i % 2 == 0 {
            Imm::Low(Sym::Field(gi, r))
        } else {
            Imm::High(Sym::Field(gi, r))
        }),
{
}

} // verus!
