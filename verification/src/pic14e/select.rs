//! A whole module into a program for the enhanced mid-range core.
//!
//! The bank selects and the peephole rules are passes of their own over
//! assembly text, and both change how many words a function takes. So the
//! work has three steps with those passes in between: [`measure`] writes
//! every function once, to be banked and measured; [`arrange`] packs the
//! functions into pages by those sizes and writes the program up to its
//! tables; [`finish`] places the tables after the measured code.
use vstd::prelude::*;
use crate::body::{emit_func_body, func_body, Lower};
use crate::consts::{
    add_capped, byte_imm, capped, count_init_words, in_ram, init_words, make_byte,
};
use crate::ctx::Ctx;
use crate::device::Device;
use crate::emit::{movf, movlw, movwf, Emitter, Row, St};
use crate::error::IselError;
use crate::ir::{Asm, Func, Inst, Module, Ret, SrcLoc, Ty, Val};
use crate::line::{push_sym, sym_text, texts_view, Imm, Line, LitOp, Reg, Sym};
use crate::names::{find_func, func_index, AddrMap, NameMap, PtrMap};
use crate::output::{
    asm_entries, join, module_asm, word_size, write_asm_entries, write_module_asm, Listing, Output,
};
use crate::pic14e::layout::{
    after_table, are_tables, base_of_table, chunk_count, end_org, find_end_org, measure_sizes,
    pack_from, pages_from, reader_pages, sizes_in, table_base, table_chunks, Pack, Packing,
    ADDRESS_LIMIT, READER,
};
use crate::pic14e::{to_pclath, Gen, PageList, PageMap};
use crate::runtime::{routine, routine_recipe};
use crate::scan::count_words;
use crate::text::{chars_of, hex4_text, push_hex4, same};

verus! {

/// What a handler saves: the result bytes and the comparison byte, each with
/// the byte it is kept in.
#[verifier::allow_in_spec]
pub fn saved(k: u8) -> (u32, u32)
    returns
        (match k {
            0u8 => (0x71u32, 0x79u32),
            1u8 => (0x72u32, 0x7Au32),
            2u8 => (0x73u32, 0x7Bu32),
            3u8 => (0x74u32, 0x7Cu32),
            _ => (0x70u32, 0x7Du32),
        }),
{
    match k {
        0 => (0x71, 0x79),
        1 => (0x72, 0x7A),
        2 => (0x73, 0x7B),
        3 => (0x74, 0x7C),
        _ => (0x70, 0x7D),
    }
}

pub open spec fn save_from(st: St, k: u8) -> St
    decreases 5 - k,
{
    if k >= 5 {
        st
    } else {
        save_from(st.emit(movf(saved(k).0)).emit(movwf(saved(k).1)), (k + 1) as u8)
    }
}

pub open spec fn restore_from(st: St, k: u8) -> St
    decreases 5 - k,
{
    if k >= 5 {
        st
    } else {
        restore_from(st.emit(movf(saved(k).1)).emit(movwf(saved(k).0)), (k + 1) as u8)
    }
}

/// The entry of a handler: the saved bytes, and PCLATH for the branches of
/// the handler, which lies in page zero. The core saves its own registers.
pub open spec fn handler_entry(st: St) -> St {
    save_from(st, 0).emit(movlw(0)).emit(to_pclath())
}

/// The return of a handler.
pub open spec fn handler_exit(st: St) -> St {
    restore_from(st, 0).emit(Line::Retfie)
}

fn emit_handler_entry(g: &mut Emitter)
    ensures
        final(g)@ == handler_entry(old(g)@),
{
    let mut k: u8 = 0;
    while k < 5
        invariant
            k <= 5,
            save_from(old(g)@, 0) == save_from(g@, k),
        decreases 5 - k,
    {
        g.emit(movf(saved(k).0));
        g.emit(movwf(saved(k).1));
        k += 1;
    }
    g.emit(movlw(0));
    g.emit(to_pclath());
}

fn emit_handler_exit(g: &mut Emitter)
    ensures
        final(g)@ == handler_exit(old(g)@),
{
    let mut k: u8 = 0;
    while k < 5
        invariant
            k <= 5,
            restore_from(old(g)@, 0) == restore_from(g@, k),
        decreases 5 - k,
    {
        g.emit(movf(saved(k).1));
        g.emit(movwf(saved(k).0));
        k += 1;
    }
    g.emit(Line::Retfie);
}

impl<'a> Lower for Gen<'a> {
    open spec fn ready(&self) -> bool {
        self.wf()
    }

    open spec fn move_step(&self, st: St, val: Val, ty: Ty, dst: u32) -> St {
        self.move_val(st, val, ty, dst)
    }

    open spec fn inst_step(&self, st: St, i: Inst) -> St {
        self.inst(st, i)
    }

    open spec fn test_step(&self, st: St, a: u32) -> St {
        st.emit(movf(a))
    }

    open spec fn enter_step(&self, st: St, f: Func) -> St {
        if f.isr {
            handler_entry(st)
        } else {
            st
        }
    }

    open spec fn ret_step(&self, st: St, f: Func, x: Ret) -> St {
        if f.isr {
            if x.val is Some {
                st.fail(IselError::HandlerReturnsValue)
            } else {
                handler_exit(st)
            }
        } else {
            self.ret(st, x)
        }
    }

    open spec fn asm_step(&self, st: St, x: Asm) -> St {
        self.asm_lines(st, x)
    }

    fn lower_move(&self, g: &mut Emitter, val: &Val, ty: Ty, dst: u32) {
        self.emit_move_val_to_slot(g, val, ty, dst);
    }

    fn lower_inst(&self, g: &mut Emitter, i: &Inst) {
        self.emit_inst(g, i);
    }

    fn lower_test(&self, g: &mut Emitter, a: u32) {
        g.emit(movf(a));
    }

    fn lower_enter(&self, g: &mut Emitter, f: &Func) {
        if f.isr {
            emit_handler_entry(g);
        }
    }

    fn lower_ret(&self, g: &mut Emitter, f: &Func, x: &Ret) {
        if f.isr {
            if x.val.is_some() {
                g.fail(IselError::HandlerReturnsValue);
            } else {
                emit_handler_exit(g);
            }
        } else {
            self.emit_ret(g, x);
        }
    }

    fn lower_asm(&self, g: &mut Emitter, x: &Asm) {
        self.emit_asm_lines(g, x);
    }
}

/// Everything a program is made of: the device, the module, the addresses of
/// globals and locals, and the folded pointers.
#[derive(Clone, Copy)]
pub struct Inputs<'a> {
    pub device: &'a Device,
    pub m: &'a Module,
    pub addrs: &'a AddrMap,
    pub ptrs: &'a PtrMap,
}

/// The functions before `n` that are handlers, or that are not.
pub open spec fn picked(m: &Module, isr: bool, n: int) -> Seq<usize>
    decreases n,
{
    if n <= 0 {
        Seq::empty()
    } else if m.funcs@[n - 1].isr == isr {
        picked(m, isr, n - 1).push((n - 1) as usize)
    } else {
        picked(m, isr, n - 1)
    }
}

pub open spec fn handlers(m: &Module) -> Seq<usize> {
    picked(m, true, m.funcs@.len() as int)
}

/// The functions in the order they are written: the handlers first.
pub open spec fn order(m: &Module) -> Seq<usize> {
    handlers(m) + picked(m, false, m.funcs@.len() as int)
}

/// The name of the handler at the vector.
pub open spec fn vector(m: &Module) -> Option<Seq<char>> {
    if handlers(m).len() > 0 {
        Some(m.funcs@[handlers(m)[0] as int].name@)
    } else {
        None
    }
}

fn pick(m: &Module, isr: bool) -> (r: Vec<usize>)
    ensures
        r@ == picked(m, isr, m.funcs@.len() as int),
        forall|k: int| 0 <= k < r@.len() ==> (#[trigger] r@[k]) < m.funcs@.len(),
{
    let mut v: Vec<usize> = Vec::new();
    let mut i: usize = 0;
    while i < m.funcs.len()
        invariant
            i <= m.funcs@.len(),
            v@ == picked(m, isr, i as int),
            forall|k: int| 0 <= k < v@.len() ==> (#[trigger] v@[k]) < m.funcs@.len(),
        decreases m.funcs@.len() - i,
    {
        if m.funcs[i].isr == isr {
            v.push(i);
        }
        i += 1;
    }
    v
}

fn written_order(m: &Module) -> (r: Vec<usize>)
    ensures
        r@ == order(m),
        forall|k: int| 0 <= k < r@.len() ==> (#[trigger] r@[k]) < m.funcs@.len(),
{
    let mut v = pick(m, true);
    let rest = pick(m, false);
    let ghost first = v@;
    let mut k: usize = 0;
    assert(v@ =~= first + rest@.take(0));
    while k < rest.len()
        invariant
            k <= rest@.len(),
            v@ == first + rest@.take(k as int),
            forall|j: int| 0 <= j < v@.len() ==> (#[trigger] v@[j]) < m.funcs@.len(),
            forall|j: int| 0 <= j < rest@.len() ==> (#[trigger] rest@[j]) < m.funcs@.len(),
        decreases rest@.len() - k,
    {
        v.push(rest[k]);
        k += 1;
        assert(v@ =~= first + rest@.take(k as int));
    }
    assert(rest@.take(k as int) =~= rest@);
    v
}

/// Whether every operand is a data address: it has sixteen bits.
pub open spec fn in_reach(rows: Seq<Row>) -> bool {
    forall|i: int|
        0 <= i < rows.len() ==> (operand((#[trigger] rows[i]).line) matches Some(a) ==> a
            <= 0xFFFF)
}

/// The byte of RAM that a line names.
#[verifier::allow_in_spec]
pub fn operand(l: Line) -> Option<u32>
    returns
        (match l {
            Line::Byte(_, Reg::Ram(a), _) => Some(a),
            Line::Movwf(Reg::Ram(a)) => Some(a),
            Line::Clrf(Reg::Ram(a)) => Some(a),
            Line::Bit(_, Reg::Ram(a), _, _) => Some(a),
            _ => None,
        }),
{
    match l {
        Line::Byte(_, Reg::Ram(a), _) => Some(a),
        Line::Movwf(Reg::Ram(a)) => Some(a),
        Line::Clrf(Reg::Ram(a)) => Some(a),
        Line::Bit(_, Reg::Ram(a), _, _) => Some(a),
        _ => None,
    }
}

/// The lines of `st`, or the error that an operand is out of reach.
pub open spec fn reach_checked(st: St) -> St {
    st.check(in_reach(st.rows), IselError::AddressOverflow)
}

fn check_reach(g: &mut Emitter)
    ensures
        final(g)@ == reach_checked(old(g)@),
{
    let mut i: usize = 0;
    while i < g.rows.len()
        invariant
            i <= g.rows@.len(),
            *g == *old(g),
            forall|j: int|
                0 <= j < i ==> (operand((#[trigger] g.rows@[j]).line) matches Some(a) ==> a
                    <= 0xFFFF),
        decreases g.rows@.len() - i,
    {
        if let Some(a) = operand(g.rows[i].line) {
            if a > 0xFFFF {
                assert(!in_reach(g.rows@)) by {
                    assert(operand(g.rows@[i as int].line) == Some(a));
                }
                g.fail(IselError::AddressOverflow);
                return;
            }
        }
        i += 1;
    }
}

/// The selector for function number `func`.
pub open spec fn gen_for<'a>(x: Inputs<'a>, common: u16, func: usize, pages: Option<&'a PageList>) -> Gen<
    'a,
> {
    Gen {
        cx: Ctx { m: x.m, addrs: x.addrs, device: x.device, ptrs: x.ptrs, func },
        scratch: common as u32,
        retval: (common + 1) as u32,
        pages,
    }
}

fn make_gen<'a>(x: Inputs<'a>, common: u16, func: usize, pages: Option<&'a PageList>) -> (r: Gen<'a>)
    ensures
        r == gen_for(x, common, func, pages),
{
    Gen {
        cx: Ctx { m: x.m, addrs: x.addrs, device: x.device, ptrs: x.ptrs, func },
        scratch: common as u32,
        retval: common as u32 + 1,
        pages,
    }
}

/// Function number `fi`, its fresh labels numbered from `next`.
pub open spec fn func_lines(
    x: Inputs,
    common: u16,
    pages: Option<&PageList>,
    next: u32,
    fi: usize,
) -> St {
    let name = x.m.funcs@[fi as int].name@;
    let c = gen_for(x, common, func_index(x.m, name).unwrap_or(fi), pages);
    reach_checked(
        if routine(name) is Some {
            c.routine_step(St::start(next))
        } else {
            func_body(&c, &c.cx, St::start(next), fi)
        },
    )
}

fn emit_func(x: Inputs, common: u16, pages: Option<&PageList>, next: u32, fi: usize) -> (g: Emitter)
    requires
        fi < x.m.funcs@.len(),
    ensures
        g@ == func_lines(x, common, pages, next, fi),
{
    let name = x.m.funcs[fi].name.as_str();
    let func: usize = match find_func(x.m, name) {
        Some(i) => i,
        None => fi,
    };
    let mut g = Emitter::new(next);
    let c = make_gen(x, common, func, pages);
    if routine_recipe(name).is_some() {
        c.emit_routine(&mut g);
    } else {
        emit_func_body(&c, &c.cx, &mut g, fi);
    }
    check_reach(&mut g);
    g
}

/// Bytes `i..` of a constant into RAM at `base`.
pub open spec fn init_bytes(x: Inputs, st: St, gi: usize, base: u16, i: int) -> St
    decreases x.m.globals@[gi as int].bytes@.len() - i,
{
    if i < 0 || i >= x.m.globals@[gi as int].bytes@.len() {
        st
    } else {
        let st = st.emit(Line::Lit(LitOp::Movlw, byte_imm(x.m, x.addrs, gi, i)));
        init_bytes(x, st.emit(movwf((base as u32).wrapping_add(i as u32))), gi, base, i + 1)
    }
}

pub open spec fn init_from(x: Inputs, st: St, gi: int) -> St
    decreases x.m.globals@.len() - gi,
{
    if gi < 0 || gi >= x.m.globals@.len() {
        st
    } else if in_ram(x.m, x.addrs, gi) {
        let base = x.addrs@[x.m.globals@[gi].name@];
        init_from(x, init_bytes(x, st, gi as usize, base, 0), gi + 1)
    } else {
        init_from(x, st, gi + 1)
    }
}

/// The reset code: the page of `main`, the constants in RAM, the call.
pub open spec fn start_lines(x: Inputs) -> St {
    let st = St::start(0).emit(Line::Label(Sym::Start)).emit(
        Line::Lit(LitOp::Movlw, Imm::Page(Sym::Main)),
    ).emit(to_pclath());
    reach_checked(
        init_from(x, st, 0).emit(Line::Call(Sym::Main)).emit(Line::Sleep).emit(Line::Blank),
    )
}

fn emit_init_bytes(x: Inputs, g: &mut Emitter, gi: usize, base: u16)
    requires
        gi < x.m.globals@.len(),
    ensures
        final(g)@ == init_bytes(x, old(g)@, gi, base, 0),
{
    let mut i: usize = 0;
    while i < x.m.globals[gi].bytes.len()
        invariant
            gi < x.m.globals@.len(),
            i <= x.m.globals@[gi as int].bytes@.len(),
            init_bytes(x, old(g)@, gi, base, 0) == init_bytes(x, g@, gi, base, i as int),
        decreases x.m.globals@[gi as int].bytes@.len() - i,
    {
        g.emit(Line::Lit(LitOp::Movlw, make_byte(x.m, x.addrs, gi, i)));
        g.emit(movwf((base as u32).wrapping_add(i as u32)));
        i += 1;
    }
}

fn emit_start(x: Inputs) -> (g: Emitter)
    ensures
        g@ == start_lines(x),
{
    let mut g = Emitter::new(0);
    g.emit(Line::Label(Sym::Start));
    g.emit(Line::Lit(LitOp::Movlw, Imm::Page(Sym::Main)));
    g.emit(to_pclath());
    let ghost start = g@;
    let mut gi: usize = 0;
    while gi < x.m.globals.len()
        invariant
            gi <= x.m.globals@.len(),
            init_from(x, start, 0) == init_from(x, g@, gi as int),
        decreases x.m.globals@.len() - gi,
    {
        if x.m.globals[gi].is_const {
            if let Some(base) = x.addrs.get(x.m.globals[gi].name.as_str()) {
                emit_init_bytes(x, &mut g, gi, *base);
            }
        }
        gi += 1;
    }
    g.emit(Line::Call(Sym::Main));
    g.emit(Line::Sleep);
    g.emit(Line::Blank);
    check_reach(&mut g);
    g
}

/// A program with some of its functions.
pub ghost struct Progress {
    pub out: Listing,
    pub next: u32,
    pub err: Option<IselError>,
}

impl Progress {
    /// With the reset code.
    pub open spec fn with_start(self, x: Inputs) -> Progress {
        let st = start_lines(x);
        Progress {
            out: self.out.append(x.m, st),
            err: match self.err {
                Some(e) => Some(e),
                None => st.err,
            },
            ..self
        }
    }

    pub open spec fn with_func(self, x: Inputs, st: St) -> Progress {
        Progress { out: self.out.append(x.m, st), next: st.next, err: st.err }
    }
}

/// The functions `order(m)[k..]`, every page restored, up to the first that
/// cannot be lowered.
pub open spec fn measured_from(x: Inputs, common: u16, acc: Progress, k: int) -> Progress
    decreases order(x.m).len() - k,
{
    if k < 0 || k >= order(x.m).len() || acc.err is Some {
        acc
    } else {
        let fi = order(x.m)[k];
        let st = func_lines(x, common, None, acc.next, fi);
        let acc = acc.with_func(x, st);
        measured_from(
            x,
            common,
            if vector(x.m) == Some(x.m.funcs@[fi as int].name@) && acc.err is None {
                acc.with_start(x)
            } else {
                acc
            },
            k + 1,
        )
    }
}

/// The common RAM, if the fixed bytes fit it: the comparison byte, four
/// result bytes, and what a handler saves.
pub open spec fn common_base(x: Inputs) -> Result<u16, IselError> {
    if handlers(x.m).len() > x.device.interrupt_vectors@.len() {
        Err(IselError::TooManyHandlers)
    } else {
        match x.device.common_ram {
            None => Err(IselError::NoCommonRam),
            Some((lo, hi)) => if hi == u16::MAX || lo + 14 > hi {
                Err(IselError::CommonRamTooSmall)
            } else {
                Ok(lo)
            },
        }
    }
}

/// The program to be measured, or why there is none.
pub open spec fn measured(x: Inputs) -> Result<Listing, IselError> {
    match common_base(x) {
        Err(e) => Err(e),
        Ok(lo) => {
            let out = asm_entries(
                Listing::start().line("    org 0x0000"@).line("    goto __start"@).line(""@),
                x.m.module_asm@,
                0,
            );
            let acc = Progress { out, next: 0, err: None };
            let acc = if vector(x.m) is None {
                acc.with_start(x)
            } else {
                acc
            };
            let p = measured_from(x, lo, acc, 0);
            match p.err {
                Some(e) => Err(e),
                None => Ok(p.out),
            }
        },
    }
}

fn find_common(x: Inputs) -> (r: Result<u16, IselError>)
    ensures
        r == common_base(x),
        r matches Ok(lo) ==> lo <= 0xFFF0,
{
    if pick(x.m, true).len() > x.device.interrupt_vectors.len() {
        return Err(IselError::TooManyHandlers);
    }
    match x.device.common_ram {
        None => Err(IselError::NoCommonRam),
        Some((lo, hi)) => if hi == u16::MAX || lo as u32 + 14 > hi as u32 {
            Err(IselError::CommonRamTooSmall)
        } else {
            Ok(lo)
        },
    }
}

fn at_vector(m: &Module, fi: usize) -> (r: bool)
    requires
        fi < m.funcs@.len(),
    ensures
        r == (vector(m) == Some(m.funcs@[fi as int].name@)),
{
    let v = pick(m, true);
    v.len() > 0 && same(m.funcs[v[0]].name.as_str(), m.funcs[fi].name.as_str())
}

/// The text to be banked and measured: every function once, with all pages
/// restored after calls. Pages are assigned by the sizes it takes.
pub fn measure(x: Inputs) -> (r: Result<String, IselError>)
    ensures
        match measured(x) {
            Ok(p) => r matches Ok(t) && t@ == p.text(),
            Err(e) => r matches Err(f) && f == e,
        },
{
    let lo: u16 = match find_common(x) {
        Ok(lo) => lo,
        Err(e) => {
            return Err(e);
        },
    };
    let ord = written_order(x.m);
    let has_isr: bool = pick(x.m, true).len() > 0;
    let mut out = Output::new();
    out.line("    org 0x0000");
    out.line("    goto __start");
    out.line("");
    write_asm_entries(&mut out, x.m);
    let mut err: Option<IselError> = None;
    let start = emit_start(x);
    if !has_isr {
        out.append(x.m, &start);
        err = start.err;
    }
    let mut next: u32 = 0;
    let ghost first = Progress { out: out@, next, err };
    let mut k: usize = 0;
    while k < ord.len() && err.is_none()
        invariant
            k <= ord@.len(),
            ord@ == order(x.m),
            start@ == start_lines(x),
            forall|j: int| 0 <= j < ord@.len() ==> (#[trigger] ord@[j]) < x.m.funcs@.len(),
            measured_from(x, lo, first, 0) == measured_from(
                x,
                lo,
                Progress { out: out@, next, err },
                k as int,
            ),
        decreases ord@.len() - k,
    {
        let fi: usize = ord[k];
        let g = emit_func(x, lo, None, next, fi);
        out.append(x.m, &g);
        next = g.next;
        err = g.err;
        if err.is_none() && at_vector(x.m, fi) {
            out.append(x.m, &start);
            err = start.err;
        }
        k += 1;
    }
    match err {
        Some(e) => Err(e),
        None => Ok(join(&out.lines)),
    }
}

/// Whether `a` comes before or at `b` in the order of code points.
pub open spec fn text_le(a: Seq<char>, b: Seq<char>) -> bool
    decreases a.len(),
{
    if a.len() == 0 {
        true
    } else if b.len() == 0 {
        false
    } else if a[0] == b[0] {
        text_le(a.skip(1), b.skip(1))
    } else {
        a[0] < b[0]
    }
}

fn comes_first(a: &str, b: &str) -> (r: bool)
    ensures
        r == text_le(a@, b@),
{
    let p = chars_of(a);
    let q = chars_of(b);
    let mut i: usize = 0;
    assert(a@.skip(0) =~= a@);
    assert(b@.skip(0) =~= b@);
    while i < p.len() && i < q.len()
        invariant
            p@ == a@,
            q@ == b@,
            i <= p@.len(),
            i <= q@.len(),
            text_le(a@, b@) == text_le(a@.skip(i as int), b@.skip(i as int)),
        decreases p@.len() - i,
    {
        if p[i] != q[i] {
            return p[i] < q[i];
        }
        assert(a@.skip(i as int).skip(1) =~= a@.skip(i + 1));
        assert(b@.skip(i as int).skip(1) =~= b@.skip(i + 1));
        i += 1;
    }
    i >= p.len()
}

/// Where a table goes in a list of tables by name: after those whose names
/// come first or are the same.
pub open spec fn rank(m: &Module, v: Seq<usize>, gi: usize, p: int) -> int
    decreases v.len() - p,
{
    if p < 0 || p >= v.len() || !text_le(
        m.globals@[v[p] as int].name@,
        m.globals@[gi as int].name@,
    ) {
        p
    } else {
        rank(m, v, gi, p + 1)
    }
}

/// The constants among the globals before `n` that stay in flash, by name.
pub open spec fn tables(m: &Module, addrs: &AddrMap, n: int) -> Seq<usize>
    decreases n,
{
    if n <= 0 {
        Seq::empty()
    } else {
        let v = tables(m, addrs, n - 1);
        if m.globals@[n - 1].is_const && !in_ram(m, addrs, n - 1) {
            v.insert(rank(m, v, (n - 1) as usize, 0), (n - 1) as usize)
        } else {
            v
        }
    }
}

fn find_tables(m: &Module, addrs: &AddrMap) -> (r: Vec<usize>)
    ensures
        r@ == tables(m, addrs, m.globals@.len() as int),
        forall|k: int| 0 <= k < r@.len() ==> (#[trigger] r@[k]) < m.globals@.len(),
{
    let mut v: Vec<usize> = Vec::new();
    let mut i: usize = 0;
    while i < m.globals.len()
        invariant
            i <= m.globals@.len(),
            v@ == tables(m, addrs, i as int),
            forall|k: int| 0 <= k < v@.len() ==> (#[trigger] v@[k]) < m.globals@.len(),
        decreases m.globals@.len() - i,
    {
        if m.globals[i].is_const && addrs.get(m.globals[i].name.as_str()).is_none() {
            let mut p: usize = 0;
            while p < v.len() && comes_first(
                m.globals[v[p]].name.as_str(),
                m.globals[i].name.as_str(),
            )
                invariant
                    i < m.globals@.len(),
                    p <= v@.len(),
                    forall|k: int| 0 <= k < v@.len() ==> (#[trigger] v@[k]) < m.globals@.len(),
                    rank(m, v@, i, 0) == rank(m, v@, i, p as int),
                decreases v@.len() - p,
            {
                p += 1;
            }
            v.insert(p, i);
        }
        i += 1;
    }
    v
}

/// The first table of `consts[k..]` that is empty or beyond its index.
pub open spec fn bad_table(m: &Module, consts: Seq<usize>, k: int) -> Option<IselError>
    decreases consts.len() - k,
{
    if k < 0 || k >= consts.len() {
        None
    } else {
        let size = m.globals@[consts[k] as int].bytes@.len();
        if size == 0 {
            Some(IselError::EmptyTable)
        } else if size > 65535 {
            Some(IselError::TableTooLarge)
        } else {
            bad_table(m, consts, k + 1)
        }
    }
}

fn check_sizes(m: &Module, consts: &Vec<usize>) -> (r: Option<IselError>)
    requires
        forall|k: int| 0 <= k < consts@.len() ==> (#[trigger] consts@[k]) < m.globals@.len(),
    ensures
        r == bad_table(m, consts@, 0),
        r is None ==> are_tables(m, consts@),
{
    let mut k: usize = 0;
    while k < consts.len()
        invariant
            forall|j: int| 0 <= j < consts@.len() ==> (#[trigger] consts@[j]) < m.globals@.len(),
            k <= consts@.len(),
            bad_table(m, consts@, 0) == bad_table(m, consts@, k as int),
            forall|j: int|
                0 <= j < k ==> m.globals@[(#[trigger] consts@[j]) as int].bytes@.len() <= 65535,
        decreases consts@.len() - k,
    {
        let size: usize = m.globals[consts[k]].bytes.len();
        if size == 0 {
            return Some(IselError::EmptyTable);
        }
        if size > 65535 {
            return Some(IselError::TableTooLarge);
        }
        k += 1;
    }
    None
}

/// The labels of the chunks from `c` on: data and reader of each.
pub open spec fn chunk_labels(gi: usize, n: nat, c: nat) -> Seq<Sym>
    decreases n - c,
{
    if c >= n {
        Seq::empty()
    } else {
        seq![Sym::Chunk(gi, c as u32), Sym::Reader(gi, c as u32)] + chunk_labels(gi, n, c + 1)
    }
}

/// The labels that the tables `consts[k..]` define.
pub open spec fn labels(m: &Module, consts: Seq<usize>, k: int) -> Seq<Sym>
    decreases consts.len() - k,
{
    if k < 0 || k >= consts.len() {
        Seq::empty()
    } else {
        chunk_labels(
            consts[k],
            table_chunks(m.globals@[consts[k] as int].bytes@.len()),
            0,
        ) + labels(m, consts, k + 1)
    }
}

/// Whether no two tables, readers or chunks claim one label.
pub open spec fn distinct_labels(m: &Module, ls: Seq<Sym>) -> bool {
    forall|i: int, j: int|
        0 <= i < j < ls.len() ==> #[trigger] sym_text(m, ls[i]) != #[trigger] sym_text(m, ls[j])
}

fn find_labels(m: &Module, consts: &Vec<usize>) -> (r: Vec<Sym>)
    requires
        are_tables(m, consts@),
    ensures
        r@ == labels(m, consts@, 0),
{
    let mut v: Vec<Sym> = Vec::new();
    let mut k: usize = 0;
    assert(v@ + labels(m, consts@, 0) =~= labels(m, consts@, 0));
    while k < consts.len()
        invariant
            are_tables(m, consts@),
            k <= consts@.len(),
            labels(m, consts@, 0) == v@ + labels(m, consts@, k as int),
        decreases consts@.len() - k,
    {
        let gi: usize = consts[k];
        assert(consts@[k as int] < m.globals@.len());
        let n: usize = chunk_count(m.globals[gi].bytes.len());
        let ghost rest = labels(m, consts@, k + 1);
        let ghost start = v@;
        let mut c: usize = 0;
        while c < n
            invariant
                c <= n <= 256,
                start + chunk_labels(gi, n as nat, 0) == v@ + chunk_labels(
                    gi,
                    n as nat,
                    c as nat,
                ),
            decreases n - c,
        {
            let ghost before = v@;
            v.push(Sym::Chunk(gi, c as u32));
            v.push(Sym::Reader(gi, c as u32));
            proof {
                let after = chunk_labels(gi, n as nat, (c + 1) as nat);
                assert(before + (seq![Sym::Chunk(gi, c as u32), Sym::Reader(gi, c as u32)] + after)
                    =~= v@ + after);
            }
            c += 1;
        }
        proof {
            assert(v@ =~= start + chunk_labels(gi, n as nat, 0));
            assert(start + (chunk_labels(gi, n as nat, 0) + rest) =~= v@ + rest);
        }
        k += 1;
    }
    assert(v@ =~= v@ + labels(m, consts@, k as int));
    v
}

fn labels_differ(m: &Module, ls: &Vec<Sym>) -> (r: bool)
    ensures
        r == distinct_labels(m, ls@),
{
    let mut texts: Vec<String> = Vec::new();
    let mut i: usize = 0;
    while i < ls.len()
        invariant
            i <= ls@.len(),
            texts@.len() == i,
            forall|j: int| 0 <= j < i ==> (#[trigger] texts@[j])@ == sym_text(m, ls@[j]),
            forall|a: int, b: int|
                0 <= a < b < i ==> #[trigger] sym_text(m, ls@[a]) != #[trigger] sym_text(
                    m,
                    ls@[b],
                ),
        decreases ls@.len() - i,
    {
        let mut s = String::new();
        push_sym(&mut s, m, ls[i]);
        assert(s@ =~= sym_text(m, ls@[i as int]));
        let mut j: usize = 0;
        while j < i
            invariant
                j <= i < ls@.len(),
                texts@.len() == i,
                s@ == sym_text(m, ls@[i as int]),
                forall|a: int| 0 <= a < i ==> (#[trigger] texts@[a])@ == sym_text(m, ls@[a]),
                forall|a: int| 0 <= a < j ==> #[trigger] sym_text(m, ls@[a]) != s@,
            decreases i - j,
        {
            if same(texts[j].as_str(), s.as_str()) {
                assert(texts@[j as int]@ == sym_text(m, ls@[j as int]));
                assert(sym_text(m, ls@[j as int]) == sym_text(m, ls@[i as int]));
                return false;
            }
            assert(texts@[j as int]@ == sym_text(m, ls@[j as int]));
            j += 1;
        }
        texts.push(s);
        i += 1;
    }
    true
}

/// `pages` with the pages of the readers `rs[k..]`.
pub open spec fn with_readers(
    m: &Module,
    pages: Map<Seq<char>, usize>,
    rs: Seq<(Sym, usize)>,
    k: int,
) -> Map<Seq<char>, usize>
    decreases rs.len() - k,
{
    if k < 0 || k >= rs.len() {
        pages
    } else {
        with_readers(m, pages.insert(sym_text(m, rs[k].0), rs[k].1), rs, k + 1)
    }
}

fn add_readers(m: &Module, pages: &mut PageMap, rs: &Vec<(Sym, usize)>)
    ensures
        final(pages)@ == with_readers(m, old(pages)@, rs@, 0),
        forall|n: Seq<char>| old(pages)@.dom().contains(n) ==> final(pages)@.dom().contains(n),
{
    let mut k: usize = 0;
    while k < rs.len()
        invariant
            k <= rs@.len(),
            forall|n: Seq<char>| old(pages)@.dom().contains(n) ==> pages@.dom().contains(n),
            with_readers(m, old(pages)@, rs@, 0) == with_readers(m, pages@, rs@, k as int),
        decreases rs@.len() - k,
    {
        let mut s = String::new();
        push_sym(&mut s, m, rs[k].0);
        assert(s@ =~= sym_text(m, rs@[k as int].0));
        pages.insert(s, rs[k].1);
        k += 1;
    }
}

/// The first `n` functions with their pages.
pub open spec fn listed_funcs(m: &Module, pages: Map<Seq<char>, usize>, n: int) -> PageList
    decreases n,
{
    if n <= 0 {
        PageList::Empty
    } else {
        let rest = listed_funcs(m, pages, n - 1);
        let name = m.funcs@[n - 1].name@;
        if pages.dom().contains(name) {
            PageList::Entry(Sym::Func((n - 1) as usize), pages[name], Box::new(rest))
        } else {
            rest
        }
    }
}

/// The first `n` readers with their pages, before `rest`.
pub open spec fn listed_readers(rest: PageList, rs: Seq<(Sym, usize)>, n: int) -> PageList
    decreases n,
{
    if n <= 0 {
        rest
    } else {
        PageList::Entry(rs[n - 1].0, rs[n - 1].1, Box::new(listed_readers(rest, rs, n - 1)))
    }
}

fn list_pages(m: &Module, pages: &PageMap, rs: &Vec<(Sym, usize)>) -> (r: PageList)
    ensures
        r == listed_readers(
            listed_funcs(m, pages@, m.funcs@.len() as int),
            rs@,
            rs@.len() as int,
        ),
{
    let mut l = PageList::Empty;
    let mut k: usize = 0;
    while k < m.funcs.len()
        invariant
            k <= m.funcs@.len(),
            l == listed_funcs(m, pages@, k as int),
        decreases m.funcs@.len() - k,
    {
        if let Some(p) = pages.get(m.funcs[k].name.as_str()) {
            l = PageList::Entry(Sym::Func(k), *p, Box::new(l));
        }
        k += 1;
    }
    let ghost funcs = l;
    let mut k: usize = 0;
    while k < rs.len()
        invariant
            k <= rs@.len(),
            l == listed_readers(funcs, rs@, k as int),
        decreases rs@.len() - k,
    {
        l = PageList::Entry(rs[k].0, rs[k].1, Box::new(l));
        k += 1;
    }
    l
}

/// The last page that one of the first `k` functions takes.
pub open spec fn last_page(m: &Module, pages: Map<Seq<char>, usize>, k: int) -> usize
    decreases k,
{
    if k <= 0 {
        0
    } else {
        let n = last_page(m, pages, k - 1);
        let p = pages[m.funcs@[order(m)[k - 1] as int].name@];
        if p > n {
            p
        } else {
            n
        }
    }
}

/// Function number `fi` with its page anchored, the reset code behind a
/// handler.
pub open spec fn placed(
    x: Inputs,
    common: u16,
    calls: &PageList,
    pads: Map<Seq<char>, usize>,
    acc: Progress,
    fi: usize,
) -> Progress {
    let f = x.m.funcs@[fi as int];
    let st = func_lines(x, common, Some(calls), acc.next, fi);
    let out = if pads.dom().contains(f.name@) {
        acc.out.line("    org 0x"@ + hex4_text(pads[f.name@] as nat))
    } else {
        acc.out
    };
    let acc = Progress { out, ..acc }.with_func(x, st);
    if f.isr && acc.err is None {
        acc.with_start(x)
    } else {
        acc
    }
}

/// The functions `order(m)[k..]` of page `p`.
pub open spec fn page_from(
    x: Inputs,
    common: u16,
    pages: Map<Seq<char>, usize>,
    calls: &PageList,
    pads: Map<Seq<char>, usize>,
    acc: Progress,
    p: int,
    k: int,
) -> Progress
    decreases order(x.m).len() - k,
{
    if k < 0 || k >= order(x.m).len() || acc.err is Some {
        acc
    } else {
        let fi = order(x.m)[k];
        let acc = if pages[x.m.funcs@[fi as int].name@] == p {
            placed(x, common, calls, pads, acc, fi)
        } else {
            acc
        };
        page_from(x, common, pages, calls, pads, acc, p, k + 1)
    }
}

/// The functions of the pages from `p` to `last`.
pub open spec fn pages_up(
    x: Inputs,
    common: u16,
    pages: Map<Seq<char>, usize>,
    calls: &PageList,
    pads: Map<Seq<char>, usize>,
    acc: Progress,
    last: int,
    p: int,
) -> Progress
    decreases last + 1 - p,
{
    if p > last {
        acc
    } else {
        let acc = page_from(x, common, pages, calls, pads, acc, p, 0);
        pages_up(x, common, pages, calls, pads, acc, last, p + 1)
    }
}

pub open spec fn header(device: &Device) -> Listing {
    Listing::start().line("; pic8 -- integer spine milestone 2 (isel)"@).line(
        "    list p="@ + device.name@,
    ).line("    radix hex"@).line("STATUS equ 0x03"@).line("FSR0L  equ 0x04"@).line(
        "FSR0H  equ 0x05"@,
    ).line("FSR1L  equ 0x06"@).line("FSR1H  equ 0x07"@).line("INDF0  equ 0x00"@).line(
        "INDF1  equ 0x01"@,
    ).line("PCL    equ 0x02"@).line("PCLATH equ 0x0A"@).line("INTCON equ 0x0B"@).line(""@).line(
        "    org 0x0000"@,
    ).line("    goto __start"@).line(""@)
}

fn write_header(device: &Device) -> (out: Output)
    ensures
        out@ == header(device),
{
    let mut out = Output::new();
    out.line("; pic8 -- integer spine milestone 2 (isel)");
    let mut list = "    list p=".to_owned();
    list.append(device.name.as_str());
    out.line(list.as_str());
    out.line("    radix hex");
    out.line("STATUS equ 0x03");
    out.line("FSR0L  equ 0x04");
    out.line("FSR0H  equ 0x05");
    out.line("FSR1L  equ 0x06");
    out.line("FSR1H  equ 0x07");
    out.line("INDF0  equ 0x00");
    out.line("INDF1  equ 0x01");
    out.line("PCL    equ 0x02");
    out.line("PCLATH equ 0x0A");
    out.line("INTCON equ 0x0B");
    out.line("");
    out.line("    org 0x0000");
    out.line("    goto __start");
    out.line("");
    out
}

/// The first word of page zero that is free for functions: behind the
/// vector, or behind the reset code and the assembly before it.
pub open spec fn first_free(x: Inputs) -> nat {
    if vector(x.m) is Some {
        4
    } else {
        let ls = asm_entries(Listing::start(), x.m.module_asm@, 0).lines;
        5 + count_words(ls, ls.len() as int) + init_words(x.m, x.addrs, x.m.globals@.len() as int)
    }
}

/// A program up to its tables: its lines, the tables in their order, and
/// where they start if pages have not grown.
#[verifier::ext_equal]
pub ghost struct Arranged {
    pub out: Listing,
    pub consts: Seq<usize>,
    pub table_start: usize,
}

/// The functions packed into pages by the sizes that the banked text shows.
pub open spec fn packed(x: Inputs, banked: Seq<char>) -> Result<Pack, IselError> {
    let init = init_words(x.m, x.addrs, x.m.globals@.len() as int);
    match sizes_in(x.m, banked) {
        None => Err(IselError::MalformedText),
        Some(sizes) => if init > ADDRESS_LIMIT || first_free(x) > ADDRESS_LIMIT {
            Err(IselError::FlashExhausted)
        } else {
            let empty = Pack {
                next: seq![first_free(x) as usize],
                pages: Map::empty(),
                pads: Map::empty(),
            };
            pack_from(x.device, x.m, order(x.m), sizes, vector(x.m), init, empty, 0)
        },
    }
}

/// The tables of a module, or why they cannot be laid out.
pub open spec fn sound_tables(x: Inputs) -> Result<Seq<usize>, IselError> {
    let consts = tables(x.m, x.addrs, x.m.globals@.len() as int);
    match bad_table(x.m, consts, 0) {
        Some(e) => Err(e),
        None => if distinct_labels(x.m, labels(x.m, consts, 0)) {
            Ok(consts)
        } else {
            Err(IselError::LabelCollision)
        },
    }
}

/// Where everything goes: the common RAM, the packed functions, the tables
/// in their order, and the page of every function and reader, by its name
/// and as the calls look it up.
pub ghost struct Plan {
    pub common: u16,
    pub pack: Pack,
    pub consts: Seq<usize>,
    pub pages: Map<Seq<char>, usize>,
    pub calls: PageList,
}

/// The plan that the sizes in the banked text lead to.
pub open spec fn planned(x: Inputs, banked: Seq<char>) -> Result<Plan, IselError> {
    match common_base(x) {
        Err(e) => Err(e),
        Ok(common) => match packed(x, banked) {
            Err(e) => Err(e),
            Ok(pack) => match sound_tables(x) {
                Err(e) => Err(e),
                Ok(consts) => match pages_from(x.m, consts, pack.next.last() as nat, 0) {
                    None => Err(IselError::FlashExhausted),
                    Some(rs) => {
                        let pages = with_readers(x.m, pack.pages, rs, 0);
                        let funcs = listed_funcs(x.m, pack.pages, x.m.funcs@.len() as int);
                        let calls = listed_readers(funcs, rs, rs.len() as int);
                        Ok(Plan { common, pack, consts, pages, calls })
                    },
                },
            },
        },
    }
}

/// The program up to its tables.
pub open spec fn written(x: Inputs, p: Plan) -> Progress {
    let acc = Progress { out: module_asm(header(x.device), x.m), next: 0, err: None };
    let acc = if vector(x.m) is None {
        acc.with_start(x)
    } else {
        acc
    };
    let last = last_page(x.m, p.pages, order(x.m).len() as int);
    pages_up(x, p.common, p.pages, &p.calls, p.pack.pads, acc, last as int, 0)
}

/// A program up to its tables.
#[derive(Debug)]
pub struct Layout {
    pub out: Output,
    pub consts: Vec<usize>,
    pub table_start: usize,
}

impl View for Layout {
    type V = Arranged;

    open spec fn view(&self) -> Arranged {
        Arranged { out: self.out@, consts: self.consts@, table_start: self.table_start }
    }
}

impl Layout {
    /// Whether the tables can be laid out where they are planned.
    pub open spec fn wf(&self, m: &Module) -> bool {
        are_tables(m, self.consts@) && pages_from(m, self.consts@, self.table_start as nat, 0) is Some
    }
}

fn count_free(x: Inputs, init: usize) -> (r: usize)
    requires
        init == capped(
            init_words(x.m, x.addrs, x.m.globals@.len() as int),
            ADDRESS_LIMIT,
        ),
    ensures
        r == capped(first_free(x), ADDRESS_LIMIT),
{
    if pick(x.m, true).len() > 0 {
        return 4;
    }
    let mut asm_text = Output::new();
    write_asm_entries(&mut asm_text, x.m);
    let words: usize = word_size(asm_text.lines.as_slice());
    add_capped(5, add_capped(words, init, ADDRESS_LIMIT), ADDRESS_LIMIT)
}

fn pack(x: Inputs, ord: &Vec<usize>, banked: &str) -> (r: Result<Packing, IselError>)
    requires
        ord@ == order(x.m),
        forall|k: int| 0 <= k < ord@.len() ==> (#[trigger] ord@[k]) < x.m.funcs@.len(),
    ensures
        match packed(x, banked@) {
            Ok(p) => r matches Ok(q) && q@ == p && p.wf() && forall|k: int|
                0 <= k < ord@.len() ==> p.pages.dom().contains(
                    x.m.funcs@[#[trigger] ord@[k] as int].name@,
                ),
            Err(e) => r matches Err(f) && f == e,
        },
{
    let sizes = match measure_sizes(x.m, banked) {
        Some(s) => s,
        None => {
            return Err(IselError::MalformedText);
        },
    };
    let init: usize = count_init_words(x.m, x.addrs, ADDRESS_LIMIT);
    let first: usize = count_free(x, init);
    if init > ADDRESS_LIMIT || first > ADDRESS_LIMIT {
        return Err(IselError::FlashExhausted);
    }
    let mut p = Packing::new(first);
    let ghost empty = p@;
    let mut k: usize = 0;
    while k < ord.len()
        invariant
            k <= ord@.len(),
            ord@ == order(x.m),
            forall|j: int| 0 <= j < ord@.len() ==> (#[trigger] ord@[j]) < x.m.funcs@.len(),
            p@.wf(),
            forall|j: int|
                0 <= j < k ==> p@.pages.dom().contains(x.m.funcs@[#[trigger] ord@[j] as int].name@),
            pack_from(
                x.device,
                x.m,
                order(x.m),
                sizes@,
                vector(x.m),
                init as nat,
                empty,
                0,
            ) == pack_from(
                x.device,
                x.m,
                order(x.m),
                sizes@,
                vector(x.m),
                init as nat,
                p@,
                k as int,
            ),
            packed(x, banked@) == pack_from(
                x.device,
                x.m,
                order(x.m),
                sizes@,
                vector(x.m),
                init as nat,
                empty,
                0,
            ),
        decreases ord@.len() - k,
    {
        let fi: usize = ord[k];
        let name = x.m.funcs[fi].name.as_str();
        let size: usize = match sizes.get(name) {
            Some(n) => *n,
            None => {
                return Err(IselError::MissingLabel);
            },
        };
        let done = if at_vector(x.m, fi) {
            p.place_handler(name, size, init)
        } else {
            p.place(x.device, name, size)
        };
        if let Err(e) = done {
            return Err(e);
        }
        k += 1;
    }
    Ok(p)
}

fn check_tables(x: Inputs) -> (r: Result<Vec<usize>, IselError>)
    ensures
        match sound_tables(x) {
            Ok(c) => r matches Ok(v) && v@ == c && are_tables(x.m, c),
            Err(e) => r matches Err(f) && f == e,
        },
{
    let consts = find_tables(x.m, x.addrs);
    if let Some(e) = check_sizes(x.m, &consts) {
        return Err(e);
    }
    if !labels_differ(x.m, &find_labels(x.m, &consts)) {
        return Err(IselError::LabelCollision);
    }
    Ok(consts)
}

fn page_of(pages: &PageMap, name: &str) -> (r: usize)
    requires
        pages@.dom().contains(name@),
    ensures
        r == pages@[name@],
{
    match pages.get(name) {
        Some(p) => *p,
        None => 0,
    }
}

fn find_last_page(m: &Module, ord: &Vec<usize>, pages: &PageMap) -> (r: usize)
    requires
        ord@ == order(m),
        forall|k: int|
            0 <= k < ord@.len() ==> (#[trigger] ord@[k]) < m.funcs@.len()
                && pages@.dom().contains(m.funcs@[ord@[k] as int].name@),
    ensures
        r == last_page(m, pages@, ord@.len() as int),
{
    let mut n: usize = 0;
    let mut k: usize = 0;
    while k < ord.len()
        invariant
            k <= ord@.len(),
            ord@ == order(m),
            forall|j: int|
                0 <= j < ord@.len() ==> (#[trigger] ord@[j]) < m.funcs@.len()
                    && pages@.dom().contains(m.funcs@[ord@[j] as int].name@),
            n == last_page(m, pages@, k as int),
        decreases ord@.len() - k,
    {
        let p: usize = page_of(pages, m.funcs[ord[k]].name.as_str());
        if p > n {
            n = p;
        }
        k += 1;
    }
    n
}

/// Whether every fixed address has 32 bits.
pub open spec fn pads_fit(pads: Map<Seq<char>, usize>) -> bool {
    forall|n: Seq<char>| pads.dom().contains(n) ==> #[trigger] pads[n] <= u32::MAX
}

/// The lines of a program so far, the next label and the first error.
struct Writer {
    out: Output,
    next: u32,
    err: Option<IselError>,
}

impl View for Writer {
    type V = Progress;

    closed spec fn view(&self) -> Progress {
        Progress { out: self.out@, next: self.next, err: self.err }
    }
}

impl Writer {
    fn add_start(&mut self, x: Inputs, start: &Emitter)
        requires
            start@ == start_lines(x),
        ensures
            final(self)@ == old(self)@.with_start(x),
    {
        self.out.append(x.m, start);
        if self.err.is_none() {
            self.err = start.err;
        }
    }

    fn place(
        &mut self,
        x: Inputs,
        common: u16,
        calls: &PageList,
        pads: &NameMap<usize>,
        start: &Emitter,
        fi: usize,
    )
        requires
            fi < x.m.funcs@.len(),
            pads_fit(pads@),
            start@ == start_lines(x),
        ensures
            final(self)@ == placed(x, common, calls, pads@, old(self)@, fi),
    {
        let g = emit_func(x, common, Some(calls), self.next, fi);
        if let Some(pad) = pads.get(x.m.funcs[fi].name.as_str()) {
            let mut t = "    org 0x".to_owned();
            push_hex4(&mut t, *pad as u32);
            self.out.line(t.as_str());
        }
        self.out.append(x.m, &g);
        self.next = g.next;
        self.err = g.err;
        if x.m.funcs[fi].isr && self.err.is_none() {
            self.add_start(x, start);
        }
    }

    fn write_page(
        &mut self,
        x: Inputs,
        common: u16,
        ord: &Vec<usize>,
        pages: &PageMap,
        calls: &PageList,
        pads: &NameMap<usize>,
        start: &Emitter,
        p: usize,
    )
        requires
            pads_fit(pads@),
            start@ == start_lines(x),
            ord@ == order(x.m),
            forall|k: int|
                0 <= k < ord@.len() ==> (#[trigger] ord@[k]) < x.m.funcs@.len()
                    && pages@.dom().contains(x.m.funcs@[ord@[k] as int].name@),
        ensures
            final(self)@ == page_from(x, common, pages@, calls, pads@, old(self)@, p as int, 0),
    {
        let mut k: usize = 0;
        while k < ord.len() && self.err.is_none()
            invariant
                k <= ord@.len(),
                pads_fit(pads@),
                start@ == start_lines(x),
                ord@ == order(x.m),
                forall|j: int|
                    0 <= j < ord@.len() ==> (#[trigger] ord@[j]) < x.m.funcs@.len()
                        && pages@.dom().contains(x.m.funcs@[ord@[j] as int].name@),
                page_from(x, common, pages@, calls, pads@, old(self)@, p as int, 0) == page_from(
                    x,
                    common,
                    pages@,
                    calls,
                    pads@,
                    self@,
                    p as int,
                    k as int,
                ),
            decreases ord@.len() - k,
        {
            let fi: usize = ord[k];
            if page_of(pages, x.m.funcs[fi].name.as_str()) == p {
                self.place(x, common, calls, pads, start, fi);
            }
            k += 1;
        }
    }
}

/// The program up to its tables for the plan `p`, or why it is none.
pub open spec fn is_arranged(x: Inputs, p: Plan, r: Result<Layout, IselError>) -> bool {
    match written(x, p).err {
        Some(e) => r matches Err(f) && f == e,
        None => r matches Ok(l) && l.wf(x.m) && l@ == (Arranged {
            out: written(x, p).out,
            consts: p.consts,
            table_start: p.pack.next.last(),
        }),
    }
}

/// Packs the functions into pages by the sizes in the banked text, and
/// writes the program up to its tables. Calls within a page restore nothing.
pub fn arrange(x: Inputs, banked: &str) -> (r: Result<Layout, IselError>)
    ensures
        match planned(x, banked@) {
            Ok(p) => is_arranged(x, p, r),
            Err(e) => r matches Err(f) && f == e,
        },
{
    let lo: u16 = match find_common(x) {
        Ok(lo) => lo,
        Err(e) => {
            return Err(e);
        },
    };
    let ord = written_order(x.m);
    let packing = match pack(x, &ord, banked) {
        Ok(p) => p,
        Err(e) => {
            return Err(e);
        },
    };
    let consts = match check_tables(x) {
        Ok(c) => c,
        Err(e) => {
            return Err(e);
        },
    };
    let Packing { next, mut pages, pads } = packing;
    let table_start: usize = next[next.len() - 1];
    let readers = match reader_pages(x.m, &consts, table_start) {
        Some(v) => v,
        None => {
            return Err(IselError::FlashExhausted);
        },
    };
    let calls = list_pages(x.m, &pages, &readers);
    add_readers(x.m, &mut pages, &readers);
    let ghost plan = planned(x, banked@)->Ok_0;
    let start = emit_start(x);
    let mut out = write_header(x.device);
    write_module_asm(&mut out, x.m);
    let mut w = Writer { out, next: 0, err: None };
    if pick(x.m, true).len() == 0 {
        w.add_start(x, &start);
    }
    let ghost first = w@;
    let last: usize = find_last_page(x.m, &ord, &pages);
    let mut p: usize = 0;
    let mut more: bool = true;
    while more
        invariant
            p <= last,
            pads_fit(pads@),
            start@ == start_lines(x),
            ord@ == order(x.m),
            forall|k: int|
                0 <= k < ord@.len() ==> (#[trigger] ord@[k]) < x.m.funcs@.len()
                    && pages@.dom().contains(x.m.funcs@[ord@[k] as int].name@),
            pages_up(x, lo, pages@, &calls, pads@, first, last as int, 0) == (if more {
                pages_up(x, lo, pages@, &calls, pads@, w@, last as int, p as int)
            } else {
                w@
            }),
        decreases last - p + (if more {
            1int
        } else {
            0int
        }),
    {
        w.write_page(x, lo, &ord, &pages, &calls, &pads, &start, p);
        assert(pages_up(x, lo, pages@, &calls, pads@, w@, last as int, last + 1) == w@);
        if p < last {
            p += 1;
        } else {
            more = false;
        }
    }
    assert(w@ == written(x, plan));
    match w.err {
        Some(e) => Err(e),
        None => Ok(Layout { out: w.out, consts, table_start }),
    }
}

/// The lines that stand for a reader while code is measured.
pub open spec fn stand_in(out: Listing, m: &Module, gi: usize) -> Listing {
    out.line(sym_text(m, Sym::Reader(gi, 0)) + ":"@).line("    MOVWF 0x70"@).line(
        "    MOVLW 0x00"@,
    ).line("    MOVWF PCLATH"@).line("    MOVF 0x70, W"@).line("    ADDLW 0x00"@).line(
        "    MOVWF PCL"@,
    ).line("    RETLW 0x00"@)
}

pub open spec fn stand_ins(out: Listing, m: &Module, consts: Seq<usize>, k: int) -> Listing
    decreases consts.len() - k,
{
    if k < 0 || k >= consts.len() {
        out
    } else {
        stand_ins(stand_in(out, m, consts[k]), m, consts, k + 1)
    }
}

fn copy_lines(v: &Vec<String>) -> (r: Vec<String>)
    ensures
        texts_view(r@) == texts_view(v@),
{
    let mut r: Vec<String> = Vec::new();
    let mut i: usize = 0;
    while i < v.len()
        invariant
            i <= v@.len(),
            texts_view(r@) == texts_view(v@).take(i as int),
        decreases v@.len() - i,
    {
        let ghost before = r@;
        r.push(v[i].clone());
        i += 1;
        assert(texts_view(r@) =~= texts_view(before).push(v@[i - 1]@));
        assert(texts_view(r@) =~= texts_view(v@).take(i as int));
    }
    assert(texts_view(r@) =~= texts_view(v@));
    r
}

/// The program up to its tables, with a stand-in for every reader: banked
/// and optimised, it shows where the code ends.
pub fn probe(m: &Module, l: &Layout) -> (r: String)
    ensures
        r@ == stand_ins(l@.out, m, l@.consts, 0).text(),
{
    let mut lines = copy_lines(&l.out.lines);
    let mut k: usize = 0;
    let ghost locs = l.out@.locs;
    let ghost mut out = l.out@;
    while k < l.consts.len()
        invariant
            k <= l.consts@.len(),
            out.lines == texts_view(lines@),
            stand_ins(l@.out, m, l@.consts, 0) == stand_ins(out, m, l@.consts, k as int),
        decreases l.consts@.len() - k,
    {
        let ghost before = lines@;
        let mut name = String::new();
        push_sym(&mut name, m, Sym::Reader(l.consts[k], 0));
        name.append(":");
        assert(name@ =~= sym_text(m, Sym::Reader(l.consts@[k as int], 0)) + ":"@);
        lines.push(name);
        lines.push("    MOVWF 0x70".to_owned());
        lines.push("    MOVLW 0x00".to_owned());
        lines.push("    MOVWF PCLATH".to_owned());
        lines.push("    MOVF 0x70, W".to_owned());
        lines.push("    ADDLW 0x00".to_owned());
        lines.push("    MOVWF PCL".to_owned());
        lines.push("    RETLW 0x00".to_owned());
        proof {
            out = stand_in(out, m, l.consts@[k as int]);
            assert(out.lines =~= texts_view(lines@));
        }
        k += 1;
    }
    join(&lines)
}

/// The reader of chunk `c`: it parks the index, sets PCLATH to the window
/// of the data and jumps to the entry.
pub open spec fn reader_lines(st: St, scratch: u32, gi: usize, c: u32) -> St {
    st.emit(Line::Label(Sym::Reader(gi, c))).emit(movwf(scratch)).emit(
        Line::Lit(LitOp::Movlw, Imm::High(Sym::Chunk(gi, c))),
    ).emit(to_pclath()).emit(movf(scratch)).emit(
        Line::Lit(LitOp::Addlw, Imm::Low(Sym::Chunk(gi, c))),
    ).emit(Line::Movwf(Reg::Pcl))
}

fn emit_reader(g: &mut Emitter, scratch: u32, gi: usize, c: u32)
    ensures
        final(g)@ == reader_lines(old(g)@, scratch, gi, c),
{
    g.emit(Line::Label(Sym::Reader(gi, c)));
    g.emit(movwf(scratch));
    g.emit(Line::Lit(LitOp::Movlw, Imm::High(Sym::Chunk(gi, c))));
    g.emit(to_pclath());
    g.emit(movf(scratch));
    g.emit(Line::Lit(LitOp::Addlw, Imm::Low(Sym::Chunk(gi, c))));
    g.emit(Line::Movwf(Reg::Pcl));
}

/// Bytes `i..end` of a table.
pub open spec fn data_lines(x: Inputs, st: St, gi: usize, i: int, end: int) -> St
    decreases end - i,
{
    if i >= end {
        st
    } else {
        let st = st.emit(Line::Lit(LitOp::Retlw, byte_imm(x.m, x.addrs, gi, i)));
        data_lines(x, st, gi, i + 1, end)
    }
}

fn emit_data(x: Inputs, g: &mut Emitter, gi: usize, from: usize, end: usize)
    requires
        gi < x.m.globals@.len(),
        end <= x.m.globals@[gi as int].bytes@.len(),
    ensures
        final(g)@ == data_lines(x, old(g)@, gi, from as int, end as int),
{
    let mut i: usize = from;
    while i < end
        invariant
            gi < x.m.globals@.len(),
            end <= x.m.globals@[gi as int].bytes@.len(),
            data_lines(x, old(g)@, gi, from as int, end as int) == data_lines(
                x,
                g@,
                gi,
                i as int,
                end as int,
            ),
        decreases end - i,
    {
        g.emit(Line::Lit(LitOp::Retlw, make_byte(x.m, x.addrs, gi, i)));
        i += 1;
    }
}

/// Where chunk `c` of a table ends.
pub open spec fn chunk_end(size: nat, c: nat) -> nat {
    if 256 * (c + 1) < size {
        256 * (c + 1)
    } else {
        size
    }
}

/// The data of the chunks from `c` on, each under its label.
pub open spec fn chunks_from(x: Inputs, st: St, gi: usize, size: nat, c: nat) -> St
    decreases table_chunks(size) - c,
{
    if c >= table_chunks(size) {
        st
    } else {
        let st = st.emit(Line::Label(Sym::Chunk(gi, c as u32)));
        let st = data_lines(x, st, gi, 256 * c as int, chunk_end(size, c) as int);
        chunks_from(x, st, gi, size, c + 1)
    }
}

/// The readers of the chunks from `c` to `n`.
pub open spec fn readers_from(st: St, scratch: u32, gi: usize, n: nat, c: nat) -> St
    decreases n - c,
{
    if c >= n {
        st
    } else {
        readers_from(reader_lines(st, scratch, gi, c as u32), scratch, gi, n, c + 1)
    }
}

/// A table whose reader stands at `addr`: the reader, the data from its base
/// on, and the readers of the chunks but the first behind the data.
pub open spec fn table_lines(x: Inputs, st: St, scratch: u32, gi: usize, addr: nat) -> St {
    let size = x.m.globals@[gi as int].bytes@.len();
    let st = reader_lines(st, scratch, gi, 0);
    let st = if size >= 256 || table_base(addr, size) != addr + READER {
        st.emit(Line::Align)
    } else {
        st
    };
    let st = chunks_from(x, st.emit(Line::Table(gi, size as u32)), gi, size, 0);
    readers_from(st, scratch, gi, table_chunks(size), 1).emit(Line::Blank)
}

fn emit_table(x: Inputs, g: &mut Emitter, scratch: u32, gi: usize, addr: usize) -> (r: usize)
    requires
        gi < x.m.globals@.len(),
        x.m.globals@[gi as int].bytes@.len() <= 65535,
        addr <= ADDRESS_LIMIT,
    ensures
        final(g)@ == table_lines(x, old(g)@, scratch, gi, addr as nat),
        r == after_table(addr as nat, x.m.globals@[gi as int].bytes@.len()),
{
    let size: usize = x.m.globals[gi].bytes.len();
    let n: usize = chunk_count(size);
    let base: usize = base_of_table(addr, size);
    emit_reader(g, scratch, gi, 0);
    if size >= 256 || base != addr + READER {
        g.emit(Line::Align);
    }
    g.emit(Line::Table(gi, size as u32));
    let ghost start = g@;
    let mut c: usize = 0;
    while c < n
        invariant
            c <= n <= 256,
            gi < x.m.globals@.len(),
            size == x.m.globals@[gi as int].bytes@.len(),
            size <= 65535,
            n == table_chunks(size as nat),
            chunks_from(x, start, gi, size as nat, 0) == chunks_from(
                x,
                g@,
                gi,
                size as nat,
                c as nat,
            ),
        decreases n - c,
    {
        g.emit(Line::Label(Sym::Chunk(gi, c as u32)));
        let end: usize = if 256 * (c + 1) < size {
            256 * (c + 1)
        } else {
            size
        };
        emit_data(x, g, gi, 256 * c, end);
        c += 1;
    }
    let ghost middle = g@;
    let mut d: usize = 1;
    while d < n
        invariant
            1 <= d <= n <= 256,
            readers_from(middle, scratch, gi, n as nat, 1) == readers_from(
                g@,
                scratch,
                gi,
                n as nat,
                d as nat,
            ),
        decreases n - d,
    {
        emit_reader(g, scratch, gi, d as u32);
        d += 1;
    }
    g.emit(Line::Blank);
    base + size + READER * (n - 1)
}

/// The tables `consts[k..]` from `addr` on.
pub open spec fn tables_from(
    x: Inputs,
    st: St,
    scratch: u32,
    consts: Seq<usize>,
    addr: nat,
    k: int,
) -> St
    decreases consts.len() - k,
{
    if k < 0 || k >= consts.len() {
        st
    } else {
        let st = table_lines(x, st, scratch, consts[k], addr);
        let size = x.m.globals@[consts[k] as int].bytes@.len();
        tables_from(x, st, scratch, consts, after_table(addr, size), k + 1)
    }
}

/// The whole program: the tables stand where the measured code ends, or, if
/// that would move a reader to another page, where they were planned.
pub open spec fn finished(x: Inputs, a: Arranged, measured: Seq<char>) -> Result<
    Listing,
    IselError,
> {
    match common_base(x) {
        Err(e) => Err(e),
        Ok(common) => if a.consts.len() == 0 {
            Ok(a.out.line("    end"@))
        } else {
            match end_org(measured) {
                None => Err(IselError::MalformedText),
                Some(end) => match pages_from(x.m, a.consts, end as nat, 0) {
                    None => Err(IselError::FlashExhausted),
                    Some(pages) => {
                        let kept = Some(pages) == pages_from(
                            x.m,
                            a.consts,
                            a.table_start as nat,
                            0,
                        );
                        let out = if kept {
                            a.out
                        } else {
                            a.out.line("    org 0x"@ + hex4_text(a.table_start as nat))
                        };
                        let addr = if kept {
                            end
                        } else {
                            a.table_start
                        };
                        let st = tables_from(
                            x,
                            St::start(0),
                            common as u32,
                            a.consts,
                            addr as nat,
                            0,
                        );
                        Ok(out.append(x.m, st).line("    end"@))
                    },
                },
            }
        },
    }
}

fn same_pages(a: &Vec<(Sym, usize)>, b: &Vec<(Sym, usize)>) -> (r: bool)
    ensures
        r == (a@ == b@),
{
    if a.len() != b.len() {
        return false;
    }
    let mut i: usize = 0;
    while i < a.len()
        invariant
            i <= a@.len(),
            a@.len() == b@.len(),
            forall|j: int| 0 <= j < i ==> a@[j] == b@[j],
        decreases a@.len() - i,
    {
        if a[i].0 != b[i].0 || a[i].1 != b[i].1 {
            return false;
        }
        i += 1;
    }
    assert(a@ =~= b@);
    true
}

/// Appends the tables. `measured` is the probe, banked and optimised; it is
/// not looked at where the module has no table.
pub fn finish(x: Inputs, l: Layout, measured: &str) -> (r: Result<
    (String, Vec<Option<SrcLoc>>),
    IselError,
>)
    requires
        l.wf(x.m),
    ensures
        match finished(x, l@, measured@) {
            Ok(p) => r matches Ok(t) && t.0@ == p.text() && t.1@ == p.locs,
            Err(e) => r matches Err(f) && f == e,
        },
{
    let lo: u16 = match find_common(x) {
        Ok(lo) => lo,
        Err(e) => {
            return Err(e);
        },
    };
    let Layout { mut out, consts, table_start } = l;
    if consts.len() > 0 {
        let end: usize = match find_end_org(measured) {
            Some(n) => n,
            None => {
                return Err(IselError::MalformedText);
            },
        };
        let found = match reader_pages(x.m, &consts, end) {
            Some(p) => p,
            None => {
                return Err(IselError::FlashExhausted);
            },
        };
        let mut addr: usize = end;
        let kept: bool = match reader_pages(x.m, &consts, table_start) {
            Some(p) => same_pages(&found, &p),
            None => false,
        };
        if !kept {
            let mut t = "    org 0x".to_owned();
            push_hex4(&mut t, table_start as u32);
            out.line(t.as_str());
            addr = table_start;
        }
        let mut g = Emitter::new(0);
        let ghost first = addr;
        let mut k: usize = 0;
        while k < consts.len()
            invariant
                k <= consts@.len(),
                are_tables(x.m, consts@),
                pages_from(x.m, consts@, addr as nat, k as int) is Some,
                tables_from(x, St::start(0), lo as u32, consts@, first as nat, 0) == tables_from(
                    x,
                    g@,
                    lo as u32,
                    consts@,
                    addr as nat,
                    k as int,
                ),
            decreases consts@.len() - k,
        {
            assert(consts@[k as int] < x.m.globals@.len());
            addr = emit_table(x, &mut g, lo as u32, consts[k], addr);
            k += 1;
        }
        out.append(x.m, &g);
    }
    out.line("    end");
    Ok((join(&out.lines), out.locs))
}

/// Whether `t` is what `pass` makes of a text.
pub open spec fn passed<F: Fn(&str) -> String>(pass: F, text: Seq<char>, t: String) -> bool {
    exists|s: &str| s@ == text && #[trigger] call_ensures(pass, (s,), t)
}

/// Whether `r` is the program `p` or its error.
pub open spec fn gives(
    p: Result<Listing, IselError>,
    r: Result<(String, Vec<Option<SrcLoc>>), IselError>,
) -> bool {
    match p {
        Ok(q) => r matches Ok(t) && t.0@ == q.text() && t.1@ == q.locs,
        Err(e) => r matches Err(f) && f == e,
    }
}

/// Whether `r` is the outcome for a program up to its tables: it is finished
/// as the banked and optimised probe shows, if there are tables.
pub open spec fn is_finished<B: Fn(&str) -> String, P: Fn(&str) -> String>(
    x: Inputs,
    bank: B,
    optimize: P,
    a: Arranged,
    r: Result<(String, Vec<Option<SrcLoc>>), IselError>,
) -> bool {
    if a.consts.len() == 0 {
        gives(finished(x, a, ""@), r)
    } else {
        exists|second: String, shown: String| #[trigger]
            passed(bank, stand_ins(a.out, x.m, a.consts, 0).text(), second) && #[trigger] passed(
                optimize,
                second@,
                shown,
            ) && gives(finished(x, a, shown@), r)
    }
}

/// Whether `r` is the outcome for a banked text.
pub open spec fn is_laid_out<B: Fn(&str) -> String, P: Fn(&str) -> String>(
    x: Inputs,
    bank: B,
    optimize: P,
    banked: Seq<char>,
    r: Result<(String, Vec<Option<SrcLoc>>), IselError>,
) -> bool {
    match planned(x, banked) {
        Err(e) => r matches Err(f) && f == e,
        Ok(p) => exists|a: Result<Layout, IselError>| #[trigger]
            is_arranged(x, p, a) && match a {
                Err(e) => r matches Err(f) && f == e,
                Ok(l) => is_finished(x, bank, optimize, l@, r),
            },
    }
}

/// Whether `r` is the program for `x`, or why there is none.
pub open spec fn is_selected<B: Fn(&str) -> String, P: Fn(&str) -> String>(
    x: Inputs,
    bank: B,
    optimize: P,
    r: Result<(String, Vec<Option<SrcLoc>>), IselError>,
) -> bool {
    match measured(x) {
        Err(e) => r matches Err(f) && f == e,
        Ok(p) => exists|banked: String| #[trigger]
            passed(bank, p.text(), banked) && is_laid_out(x, bank, optimize, banked@, r),
    }
}

/// Selects instructions for the whole module, with the source location of
/// every line of the text.
///
/// `bank` inserts the bank selects into a program, `optimize` applies the
/// peephole rules. Every address comes from the caller's maps. The first
/// byte of common RAM is for comparisons, the next four for results.
pub fn select_with_locs<B: Fn(&str) -> String, P: Fn(&str) -> String>(
    x: Inputs,
    bank: B,
    optimize: P,
) -> (r: Result<(String, Vec<Option<SrcLoc>>), IselError>)
    requires
        forall|s: &str| call_requires(bank, (s,)),
        forall|s: &str| call_requires(optimize, (s,)),
    ensures
        is_selected(x, bank, optimize, r),
{
    let text = match measure(x) {
        Ok(t) => t,
        Err(e) => {
            return Err(e);
        },
    };
    let banked = bank(text.as_str());
    assert(passed(bank, text@, banked));
    let a = arrange(x, banked.as_str());
    let ghost outcome = a;
    let l = match a {
        Ok(l) => l,
        Err(e) => {
            return Err(e);
        },
    };
    if l.consts.len() == 0 {
        let r = finish(x, l, "");
        assert(is_finished(x, bank, optimize, outcome->Ok_0@, r));
        return r;
    }
    let code = probe(x.m, &l);
    let second = bank(code.as_str());
    assert(passed(bank, code@, second));
    let shown = optimize(second.as_str());
    assert(passed(optimize, second@, shown));
    let r = finish(x, l, shown.as_str());
    assert(is_finished(x, bank, optimize, outcome->Ok_0@, r));
    r
}

/// Selects instructions for the whole module: assembly text for the
/// enhanced mid-range core.
pub fn select<B: Fn(&str) -> String, P: Fn(&str) -> String>(x: Inputs, bank: B, optimize: P) -> (r:
    Result<String, IselError>)
    requires
        forall|s: &str| call_requires(bank, (s,)),
        forall|s: &str| call_requires(optimize, (s,)),
    ensures
        exists|full: Result<(String, Vec<Option<SrcLoc>>), IselError>| #[trigger]
            is_selected(x, bank, optimize, full) && match full {
                Ok(t) => r matches Ok(s) && s@ == t.0@,
                Err(e) => r matches Err(f) && f == e,
            },
{
    let full = select_with_locs(x, bank, optimize);
    let ghost outcome = full;
    assert(is_selected(x, bank, optimize, outcome));
    match full {
        Ok(out) => Ok(out.0),
        Err(e) => Err(e),
    }
}

} // verus!
