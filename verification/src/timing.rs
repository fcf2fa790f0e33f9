//! How long a whole program takes: the reset code, `main`, and the sleep at the
//! end.
use vstd::prelude::*;
use crate::baseline;
use crate::body::{block_step, blocks_from, ending, func_body, insts_from, Lower};
use crate::cfg::{block_before, block_sym};
use crate::consts::byte_imm;
use crate::ctx::Ctx;
use crate::delay::{count32, delay, law_delay_is_exact, nops, steady, LOOP_MIN, LOOP_TURN};
use crate::device::Device;
use crate::emit::{movwf, Row, St};
use crate::error::IselError;
use crate::ir::{Inst, Module, SrcLoc, Val};
use crate::line::{BitOp, Imm, Line, LitOp, Sym};
use crate::machine::{exec, exec_to, group_exec, lemma_joined, runs_to, settle, step, Flow, Machine};
use crate::names::{func_index, AddrMap, PtrMap};
use crate::output::Listing;
use crate::pic14e;
use crate::pic14e::laws::start::law_reset_code_is_the_same_with_a_handler;
use crate::pic14e::select::{common_base, start_lines, Inputs, Progress};
use crate::pic14e::PageList;
use crate::runtime::routine;

verus! {

/// Whether a program of this reset code and this `main` comes to its sleep, and
/// in how many cycles: the reset code ends in the call of `main`, `main` returns,
/// and the sleep takes one cycle more.
pub open spec fn sleeps_after(start: Seq<Row>, body: Seq<Row>, m: Machine, cycles: nat) -> bool {
    let called = exec(start, 0, m);
    called.flow is Gone && exists|after: Machine| #[trigger]
        runs_to(body, 0, (Machine { flow: Flow::Next, ..called }), after) && after.flow is Gone
            && cycles == after.cycles + 1
}

/// Whether function `fi` is a delay of `k` cycles and a return.
pub open spec fn only_waits(m: &Module, fi: usize, k: i64) -> bool {
    let f = m.funcs@[fi as int];
    let insts = f.blocks@[0].insts@;
    &&& fi < m.funcs@.len()
    &&& f.name@ == "main"@
    &&& routine(f.name@) is None
    &&& !f.isr
    &&& !f.naked
    &&& f.blocks@.len() == 1
    &&& insts.len() == 2
    &&& insts[0] matches Inst::Call(x) && x.func@ == "_delay"@ && x.callees@.len() == 0
        && x.args@.len() == 1 && x.args@[0].val == Val::Const(k)
    &&& insts[1] matches Inst::Ret(x) && x.val is None
    &&& func_index(m, "_delay"@) is None
}

/// Whether every jump among some rows is to a fresh label.
spec fn jumps_stay(rows: Seq<Row>) -> bool {
    forall|i: int| 0 <= i < rows.len() ==> (#[trigger] rows[i].line matches Line::Goto(s) ==> s is Tmp)
}

/// Whether a jump that is pending is to a fresh label.
spec fn to_fresh(m: Machine) -> bool {
    m.flow matches Flow::Seek(s) ==> s is Tmp
}

proof fn lemma_pending(rows: Seq<Row>, n: int, m: Machine)
    requires
        0 <= n <= rows.len(),
        jumps_stay(rows),
        to_fresh(m),
    ensures
        to_fresh(exec_to(rows, 0, n, m)),
    decreases n,
{
    if n > 0 {
        lemma_pending(rows, n - 1, m);
        reveal(step);
    }
}

proof fn lemma_nops_stay(st: St, n: u32)
    requires
        jumps_stay(st.rows),
    ensures
        jumps_stay(nops(st, n).rows),
    decreases n,
{
    if n > 0 {
        lemma_nops_stay(st.emit(Line::Nop), (n - 1) as u32);
    }
}

proof fn lemma_delay_stays(st: St, n: u32, c: u32)
    requires
        jumps_stay(st.rows),
    ensures
        jumps_stay(delay(st, n, c).rows),
{
    lemma_nops_stay(st, n);
    lemma_nops_stay(st, ((n - LOOP_MIN) % LOOP_TURN as int) as u32);
}

/// The rows of a function: its label, what it does, its return, a blank.
spec fn whole(st: St, d: St, r: St, l: Option<SrcLoc>, k: Option<SrcLoc>) -> St {
    st.join(d, l).join(r, k).emit(Line::Blank)
}

spec fn goes_back(l: Line) -> bool {
    l == Line::Return || l == Line::Lit(LitOp::Retlw, Imm::Byte(0))
}

/// A run of the middle of a function is a run of the function up to its return.
proof fn lemma_whole(
    next: u32,
    f: usize,
    d: St,
    t: St,
    e: Line,
    l: Option<SrcLoc>,
    k: Option<SrcLoc>,
    m: Machine,
    n: nat,
)
    requires
        n > 0,
        jumps_stay(d.rows),
        goes_back(e),
        m.flow is Next || m.flow is Seek,
        to_fresh(m),
        settle(d.rows, 0, m, n).flow is Next,
    ensures
        ({
            let st = St::start(next).emit(Line::Label(Sym::Func(f)));
            let a = settle(d.rows, 0, m, n);
            let z = settle(whole(st, d, t.fresh().emit(e), l, k).rows, 0, m, n);
            z.flow is Gone && z.cycles == a.cycles + 2
        }),
    decreases n,
{
    let st = St::start(next).emit(Line::Label(Sym::Func(f)));
    let r = t.fresh().emit(e);
    let rows = whole(st, d, r, l, k).rows;
    let first = exec(d.rows, 0, m);
    assert(exec(st.rows, 0, m) == m) by {
        broadcast use group_exec;

    }
    lemma_joined(st, d, l, 0, m);
    lemma_joined(st.join(d, l), r, k, 0, m);
    let all = exec(r.rows, 0, first);
    assert(to_fresh(first)) by {
        reveal(exec);
        lemma_pending(d.rows, d.rows.len() as int, m);
    }
    if first.flow is Seek {
        assert(all == first) by {
            broadcast use group_exec;

        }
        assert(exec(rows, 0, m) == first) by {
            broadcast use group_exec;

        }
        lemma_whole(next, f, d, t, e, l, k, first, (n - 1) as nat);
    } else {
        assert(all.flow is Gone && all.cycles == first.cycles + 2) by {
            broadcast use group_exec;

            reveal(step);
        }
        assert(exec(rows, 0, m) == all) by {
            broadcast use group_exec;

            reveal(step);
        }
    }
}

/// A function that waits and returns takes two cycles more than it waits.
proof fn lemma_waits(
    next: u32,
    f: usize,
    from: St,
    n: u32,
    c: u32,
    t: St,
    e: Line,
    l: Option<SrcLoc>,
    k: Option<SrcLoc>,
    m: Machine,
)
    requires
        goes_back(e),
        m.flow is Next,
        steady(m, c),
    ensures
        ({
            let st = St::start(next).emit(Line::Label(Sym::Func(f)));
            let rows = whole(st, delay(from.fresh(), n, c), t.fresh().emit(e), l, k).rows;
            exists|after: Machine| #[trigger]
                runs_to(rows, 0, m, after) && after.flow is Gone && after.cycles == m.cycles + n + 2
        }),
{
    let d = delay(from.fresh(), n, c);
    law_delay_is_exact(from.fresh(), n, c, m);
    let a = choose|after: Machine| #[trigger]
        runs_to(d.rows, 0, m, after) && after.flow is Next && after.cycles == m.cycles + n;
    let turns = choose|i: nat| a == #[trigger] settle(d.rows, 0, m, i);
    lemma_delay_stays(from.fresh(), n, c);
    let st = St::start(next).emit(Line::Label(Sym::Func(f)));
    let rows = whole(st, d, t.fresh().emit(e), l, k).rows;
    if turns == 0 {
        assert(exec(d.rows, 0, m) == m) by {
            broadcast use group_exec;

        }
        lemma_whole(next, f, d, t, e, l, k, m, 1);
        assert(runs_to(rows, 0, m, settle(rows, 0, m, 1)));
    } else {
        lemma_whole(next, f, d, t, e, l, k, m, turns);
        assert(runs_to(rows, 0, m, settle(rows, 0, m, turns)));
    }
}

/// The body of a function that waits and returns.
proof fn lemma_body<C: Lower>(c: &C, cx: &Ctx, next: u32, fi: usize, k: i64, n: u32, at: u32, e: Line)
    requires
        only_waits(cx.m, fi, k),
        forall|st: St| #[trigger] c.enter_step(st, cx.m.funcs@[fi as int]) == st,
        forall|st: St| #[trigger]
            c.inst_step(st, cx.m.funcs@[fi as int].blocks@[0].insts@[0]) == delay(st, n, at),
        forall|st: St| #[trigger]
            c.ret_step(
                st,
                cx.m.funcs@[fi as int],
                cx.m.funcs@[fi as int].blocks@[0].insts@[1]->Ret_0,
            ) == st.emit(e),
    ensures
        exists|t: St, l: Option<SrcLoc>, g: Option<SrcLoc>|
            func_body(c, cx, St::start(next), fi).rows == (#[trigger] whole(
                St::start(next).emit(Line::Label(Sym::Func(fi))),
                delay(St::start(next).emit(Line::Label(Sym::Func(fi))).fresh(), n, at),
                t.fresh().emit(e),
                l,
                g,
            )).rows,
{
    let f = cx.m.funcs@[fi as int];
    let insts = f.blocks@[0].insts@;
    let st = St::start(next).emit(Line::Label(Sym::Func(fi)));
    let d = delay(st.fresh(), n, at);
    let x = insts[0]->Call_0;
    let y = insts[1]->Ret_0;
    let s2 = st.join(d, insts[0].loc());
    assert(st.join(st.fresh(), None).rows =~= st.rows);
    assert(st.join(st.fresh(), None) == st);
    reveal_with_fuel(block_before, 2);
    assert(block_sym(fi, f.blocks@, f.blocks@[0].label@) == Some(Sym::Func(fi)));
    assert(insts_from(c, st, insts, 2) == st) by {
        reveal_with_fuel(insts_from, 1);
    }
    assert(insts_from(c, s2, insts, 2) == s2);
    assert(insts_from(c, s2, insts, 1) == s2);
    assert(insts_from(c, st, insts, 0) == s2);
    assert(ending(insts, 2) == Some(1int));
    let s3 = s2.join(s2.fresh().emit(e), y.loc);
    assert(block_step(c, cx, St::start(next), fi, f, 0) == s3) by {
        reveal(block_step);
    }
    assert(blocks_from(c, cx, s3, fi, f, 1) == s3);
    assert(func_body(c, cx, St::start(next), fi) == s3.emit(Line::Blank)) by {
        reveal(func_body);
    }
    assert(whole(st, d, s2.fresh().emit(e), insts[0].loc(), y.loc) == s3.emit(Line::Blank));
}

/// A line after which the next one runs, whatever happened before.
spec fn flows_on(l: Line) -> bool {
    match l {
        Line::Label(_) => true,
        Line::Lit(op, _) => op == LitOp::Movlw,
        Line::Movwf(r) => r is Ram || r is Pclath,
        Line::Bit(op, r, _, _) => (op == BitOp::Bsf || op == BitOp::Bcf) && r is Fsr,
        _ => false,
    }
}

spec fn all_flow_on(rows: Seq<Row>) -> bool {
    forall|i: int| 0 <= i < rows.len() ==> flows_on(#[trigger] rows[i].line)
}

proof fn lemma_flows_on(rows: Seq<Row>, n: int, m: Machine)
    requires
        0 <= n <= rows.len(),
        all_flow_on(rows),
        m.flow is Next,
    ensures
        exec_to(rows, 0, n, m).flow is Next,
        exec_to(rows, 0, n, m).core == m.core,
    decreases n,
{
    if n > 0 {
        lemma_flows_on(rows, n - 1, m);
        assert(flows_on(rows[n - 1].line));
        reveal(step);
    }
}

/// The reset code ends in its call.
proof fn lemma_called(st: St, m: Machine)
    requires
        all_flow_on(st.rows),
        m.flow is Next,
    ensures
        ({
            let a = exec(
                st.emit(Line::Call(Sym::Main)).emit(Line::Sleep).emit(Line::Blank).rows,
                0,
                m,
            );
            a.flow is Gone && a.core == m.core
        }),
{
    assert(exec(st.rows, 0, m).flow is Next && exec(st.rows, 0, m).core == m.core) by {
        reveal(exec);
        lemma_flows_on(st.rows, st.rows.len() as int, m);
    }
    broadcast use group_exec;

    reveal(step);
}

proof fn lemma_init_bytes(x: Inputs, st: St, gi: usize, base: u16, i: int)
    requires
        all_flow_on(st.rows),
    ensures
        all_flow_on(pic14e::select::init_bytes(x, st, gi, base, i).rows),
    decreases x.m.globals@[gi as int].bytes@.len() - i,
{
    if 0 <= i < x.m.globals@[gi as int].bytes@.len() {
        let s = st.emit(Line::Lit(LitOp::Movlw, byte_imm(x.m, x.addrs, gi, i)));
        lemma_init_bytes(x, s.emit(movwf((base as u32).wrapping_add(i as u32))), gi, base, i + 1);
    }
}

proof fn lemma_init(x: Inputs, st: St, gi: int)
    requires
        all_flow_on(st.rows),
    ensures
        all_flow_on(pic14e::select::init_from(x, st, gi).rows),
    decreases x.m.globals@.len() - gi,
{
    if 0 <= gi < x.m.globals@.len() {
        let base = x.addrs@[x.m.globals@[gi].name@];
        lemma_init_bytes(x, st, gi as usize, base, 0);
        lemma_init(x, pic14e::select::init_bytes(x, st, gi as usize, base, 0), gi + 1);
        lemma_init(x, st, gi + 1);
    }
}

/// A program for the enhanced core whose `main` waits.
proof fn lemma_enhanced(
    x: Inputs,
    common: u16,
    pages: Option<&PageList>,
    next: u32,
    fi: usize,
    k: i64,
    m: Machine,
)
    requires
        only_waits(x.m, fi, k),
        common_base(x) == Ok::<u16, IselError>(common),
        m.flow is Next,
        m.core is Enhanced,
    ensures
        sleeps_after(
            start_lines(x).rows,
            pic14e::select::func_lines(x, common, pages, next, fi).rows,
            m,
            exec(start_lines(x).rows, 0, m).cycles + count32(k) as nat + 3,
        ),
{
    let st = St::start(0).emit(Line::Label(Sym::Start)).emit(
        Line::Lit(LitOp::Movlw, Imm::Page(Sym::Main)),
    ).emit(pic14e::to_pclath());
    lemma_init(x, st, 0);
    lemma_called(pic14e::select::init_from(x, st, 0), m);
    let called = exec(start_lines(x).rows, 0, m);
    let from = Machine { flow: Flow::Next, ..called };
    let name = x.m.funcs@[fi as int].name@;
    let c = pic14e::select::gen_for(x, common, func_index(x.m, name).unwrap_or(fi), pages);
    let i = x.m.funcs@[fi as int].blocks@[0].insts@[0];
    assert forall|s: St| #[trigger] c.inst_step(s, i) == delay(s, count32(k), c.retval) by {
        reveal(pic14e::Gen::call);
        reveal(pic14e::Gen::inst);
        let q = i->Call_0;
        assert(c.inst(s, i) == c.call(s, q.dst, q.ty, q.func@, q.args@, q.callees@));
        assert(c.call(s, q.dst, q.ty, q.func@, q.args@, q.callees@) == c.delay_call(s, q.args@));
    }
    lemma_body(&c, &c.cx, next, fi, k, count32(k), c.retval, Line::Return);
    let rows = func_body(&c, &c.cx, St::start(next), fi).rows;
    let s = St::start(next).emit(Line::Label(Sym::Func(fi)));
    let (t, l, g) = choose|t: St, l: Option<SrcLoc>, g: Option<SrcLoc>|
        rows == (#[trigger] whole(
            s,
            delay(s.fresh(), count32(k), c.retval),
            t.fresh().emit(Line::Return),
            l,
            g,
        )).rows;
    lemma_waits(next, fi, s, count32(k), c.retval, t, Line::Return, l, g, from);
}

proof fn lemma_no_count()
    ensures
        count32(0) == 0,
{
    assert((0i64 & 0xFFFF_FFFF) as u32 == 0) by (bit_vector);
}

/// On the enhanced core a program whose `main` waits takes exactly as many
/// cycles more as it waits.
pub proof fn law_enhanced_program_waits_exactly(
    x: Inputs,
    y: Inputs,
    common: u16,
    px: Option<&PageList>,
    py: Option<&PageList>,
    nx: u32,
    ny: u32,
    fx: usize,
    fy: usize,
    k: i64,
    m: Machine,
)
    requires
        only_waits(x.m, fx, k),
        only_waits(y.m, fy, 0),
        x.m.globals == y.m.globals,
        x.addrs == y.addrs,
        common_base(x) == Ok::<u16, IselError>(common),
        common_base(y) == Ok::<u16, IselError>(common),
        m.flow is Next,
        m.core is Enhanced,
    ensures
        exists|c: nat| #[trigger]
            sleeps_after(
                start_lines(y).rows,
                pic14e::select::func_lines(y, common, py, ny, fy).rows,
                m,
                c,
            ) && sleeps_after(
                start_lines(x).rows,
                pic14e::select::func_lines(x, common, px, nx, fx).rows,
                m,
                c + count32(k) as nat,
            ),
{
    let acc = Progress { out: Listing::start(), next: 0, err: None };
    law_reset_code_is_the_same_with_a_handler(x, y, common, &PageList::Empty, Map::empty(), acc, fx);
    lemma_enhanced(x, common, px, nx, fx, k, m);
    lemma_enhanced(y, common, py, ny, fy, 0, m);
    lemma_no_count();
    let c = exec(start_lines(y).rows, 0, m).cycles + 3;
    assert(sleeps_after(
        start_lines(y).rows,
        pic14e::select::func_lines(y, common, py, ny, fy).rows,
        m,
        c,
    ));
}

proof fn lemma_bank_lines(c: baseline::Gen, d: baseline::Gen, st: St, b: usize, i: u8)
    requires
        c.cx.device == d.cx.device,
        all_flow_on(st.rows),
    ensures
        c.bank_lines(st, b, i) == d.bank_lines(st, b, i),
        all_flow_on(c.bank_lines(st, b, i).rows),
    decreases c.cx.device.fsr_bank_bits - i,
{
    if i < c.cx.device.fsr_bank_bits {
        lemma_bank_lines(c, d, st.keep(baseline::bank_line(b, i)), b, (i + 1) as u8);
    }
}

proof fn lemma_put(c: baseline::Gen, d: baseline::Gen, st: St, a: u32)
    requires
        c.cx.device == d.cx.device,
        all_flow_on(st.rows),
    ensures
        c.put(st, a) == d.put(st, a),
        all_flow_on(c.put(st, a).rows),
{
    if let Some(b) = c.cx.device.bank(a) {
        lemma_bank_lines(c, d, st, b, 0);
    }
}

/// Two selectors for the same device, globals and addresses.
spec fn alike(c: baseline::Gen, d: baseline::Gen) -> bool {
    c.cx.device == d.cx.device && c.cx.m.globals == d.cx.m.globals && c.cx.addrs == d.cx.addrs
}

proof fn lemma_base_bytes(c: baseline::Gen, d: baseline::Gen, st: St, gi: usize, at: u16, i: int)
    requires
        alike(c, d),
        all_flow_on(st.rows),
    ensures
        baseline::select::init_bytes(c, st, gi, at, i) == baseline::select::init_bytes(
            d,
            st,
            gi,
            at,
            i,
        ),
        all_flow_on(baseline::select::init_bytes(c, st, gi, at, i).rows),
    decreases c.cx.m.globals@[gi as int].bytes@.len() - i,
{
    if 0 <= i < c.cx.m.globals@[gi as int].bytes@.len() {
        let s = st.emit(Line::Lit(LitOp::Movlw, byte_imm(c.cx.m, c.cx.addrs, gi, i)));
        let a = (at as u32).wrapping_add(i as u32);
        lemma_put(c, d, s, a);
        lemma_base_bytes(c, d, c.put(s, a), gi, at, i + 1);
    }
}

proof fn lemma_base_init(c: baseline::Gen, d: baseline::Gen, st: St, gi: int)
    requires
        alike(c, d),
        all_flow_on(st.rows),
    ensures
        baseline::select::init_from(c, st, gi) == baseline::select::init_from(d, st, gi),
        all_flow_on(baseline::select::init_from(c, st, gi).rows),
    decreases c.cx.m.globals@.len() - gi,
{
    if 0 <= gi < c.cx.m.globals@.len() {
        let at = c.cx.addrs@[c.cx.m.globals@[gi].name@];
        lemma_base_bytes(c, d, st, gi as usize, at, 0);
        lemma_base_init(
            c,
            d,
            baseline::select::init_bytes(c, st, gi as usize, at, 0),
            gi + 1,
        );
        lemma_base_init(c, d, st, gi + 1);
    }
}

/// The reset code of a program for the baseline core.
pub open spec fn base_start(
    device: &Device,
    m: &Module,
    addrs: &AddrMap,
    ptrs: &PtrMap,
    common: u16,
) -> Seq<Row> {
    let c = baseline::select::gen_for(device, m, addrs, ptrs, common, 0);
    baseline::select::start_block(c, St::start(0)).rows
}

/// A program for the baseline core whose `main` waits.
proof fn lemma_baseline(
    device: &Device,
    x: &Module,
    addrs: &AddrMap,
    ptrs: &PtrMap,
    common: u16,
    next: u32,
    fi: usize,
    k: i64,
    m: Machine,
)
    requires
        only_waits(x, fi, k),
        common + 4 < 16,
        m.flow is Next,
        m.core is Baseline,
    ensures
        ({
            let start = base_start(device, x, addrs, ptrs, common);
            sleeps_after(
                start,
                baseline::select::func_lines(device, x, addrs, ptrs, common, next, fi).rows,
                m,
                exec(start, 0, m).cycles + count32(k) as nat + 3,
            )
        }),
{
    let start = base_start(device, x, addrs, ptrs, common);
    let c0 = baseline::select::gen_for(device, x, addrs, ptrs, common, 0);
    let st = St::start(0).emit(Line::Label(Sym::Start));
    lemma_base_init(c0, c0, st, 0);
    lemma_called(baseline::select::init_from(c0, st, 0), m);
    let called = exec(start, 0, m);
    let from = Machine { flow: Flow::Next, ..called };
    let name = x.funcs@[fi as int].name@;
    let func = func_index(x, name).unwrap_or(fi);
    let c = baseline::select::gen_for(device, x, addrs, ptrs, common, func);
    let i = x.funcs@[fi as int].blocks@[0].insts@[0];
    assert forall|s: St| #[trigger] c.inst_step(s, i) == delay(s, count32(k), c.retval) by {
        reveal(baseline::Gen::call);
        reveal(baseline::Gen::inst);
        let q = i->Call_0;
        assert(c.inst(s, i) == c.call(s, q.dst, q.ty, q.func@, q.args@, q.callees@));
        assert(c.call(s, q.dst, q.ty, q.func@, q.args@, q.callees@) == c.delay_call(s, q.args@));
    }
    let e = Line::Lit(LitOp::Retlw, Imm::Byte(0));
    lemma_body(&c, &c.cx, next, fi, k, count32(k), c.retval, e);
    let rows = func_body(&c, &c.cx, St::start(next), fi).rows;
    let s = St::start(next).emit(Line::Label(Sym::Func(fi)));
    let (t, l, g) = choose|t: St, l: Option<SrcLoc>, g: Option<SrcLoc>|
        rows == (#[trigger] whole(
            s,
            delay(s.fresh(), count32(k), c.retval),
            t.fresh().emit(e),
            l,
            g,
        )).rows;
    lemma_waits(next, fi, s, count32(k), c.retval, t, e, l, g, from);
}

/// On the baseline core a program whose `main` waits takes exactly as many cycles
/// more as it waits.
pub proof fn law_baseline_program_waits_exactly(
    device: &Device,
    x: &Module,
    y: &Module,
    addrs: &AddrMap,
    px: &PtrMap,
    py: &PtrMap,
    common: u16,
    nx: u32,
    ny: u32,
    fx: usize,
    fy: usize,
    k: i64,
    m: Machine,
)
    requires
        only_waits(x, fx, k),
        only_waits(y, fy, 0),
        x.globals == y.globals,
        common + 4 < 16,
        m.flow is Next,
        m.core is Baseline,
    ensures
        exists|c: nat| #[trigger]
            sleeps_after(
                base_start(device, y, addrs, py, common),
                baseline::select::func_lines(device, y, addrs, py, common, ny, fy).rows,
                m,
                c,
            ) && sleeps_after(
                base_start(device, x, addrs, px, common),
                baseline::select::func_lines(device, x, addrs, px, common, nx, fx).rows,
                m,
                c + count32(k) as nat,
            ),
{
    let cx = baseline::select::gen_for(device, x, addrs, px, common, 0);
    let cy = baseline::select::gen_for(device, y, addrs, py, common, 0);
    lemma_base_init(cx, cy, St::start(0).emit(Line::Label(Sym::Start)), 0);
    lemma_baseline(device, x, addrs, px, common, nx, fx, k, m);
    lemma_baseline(device, y, addrs, py, common, ny, fy, 0, m);
    lemma_no_count();
    let c = exec(base_start(device, y, addrs, py, common), 0, m).cycles + 3;
    assert(sleeps_after(
        base_start(device, y, addrs, py, common),
        baseline::select::func_lines(device, y, addrs, py, common, ny, fy).rows,
        m,
        c,
    ));
}

} // verus!
