//! A whole module into a program for the baseline core.
use vstd::prelude::*;
use crate::baseline::Gen;
use crate::body::{emit_func_body, func_body, Lower};
use crate::consts::{byte_imm, in_ram, make_byte};
use crate::ctx::Ctx;
use crate::device::Device;
use crate::emit::{Emitter, St};
use crate::error::IselError;
use crate::ir::{Asm, Func, Inst, Module, Ret, SrcLoc, Ty, Val};
use crate::line::{Line, LitOp, Op, Sym};
use crate::names::{find_func, func_index, AddrMap, PtrMap};
use crate::output::{join, module_asm, word_size, write_module_asm, Listing, Output};
use crate::runtime::{routine, routine_recipe};
use crate::scan::count_words;

verus! {

impl<'a> Lower for Gen<'a> {
    open spec fn ready(&self) -> bool {
        self.wf()
    }

    open spec fn move_step(&self, st: St, val: Val, ty: Ty, dst: u32) -> St {
        self.move_val(st, val, ty, dst)
    }

    open spec fn inst_step(&self, st: St, i: Inst) -> St {
        self.inst(st, i)
    }

    open spec fn test_step(&self, st: St, a: u32) -> St {
        self.acc_w(st, Op::Movf, a)
    }

    open spec fn enter_step(&self, st: St, f: Func) -> St {
        st
    }

    open spec fn ret_step(&self, st: St, f: Func, x: Ret) -> St {
        self.ret(st, x)
    }

    open spec fn asm_step(&self, st: St, x: Asm) -> St {
        self.asm_lines(st, x)
    }

    fn lower_move(&self, g: &mut Emitter, val: &Val, ty: Ty, dst: u32) {
        self.emit_move_val_to_slot(g, val, ty, dst);
    }

    fn lower_inst(&self, g: &mut Emitter, i: &Inst) {
        self.emit_inst(g, i);
    }

    fn lower_test(&self, g: &mut Emitter, a: u32) {
        self.emit_acc_w(g, Op::Movf, a);
    }

    fn lower_enter(&self, _g: &mut Emitter, _f: &Func) {
    }

    fn lower_ret(&self, g: &mut Emitter, _f: &Func, x: &Ret) {
        self.emit_ret(g, x);
    }

    fn lower_asm(&self, g: &mut Emitter, x: &Asm) {
        self.emit_asm_lines(g, x);
    }
}

/// A program has at most this many words: a call reaches no further.
pub const CALL_CEILING: usize = 0x100;

/// The selector for function number `func`.
pub open spec fn gen_for<'a>(
    device: &'a Device,
    m: &'a Module,
    addrs: &'a AddrMap,
    ptrs: &'a PtrMap,
    common: u16,
    func: usize,
) -> Gen<'a> {
    Gen {
        cx: Ctx { m, addrs, device, ptrs, func },
        scratch: common as u32,
        retval: (common + 1) as u32,
        tmp: (common + 5) as u32,
        tmp2: (common + 6) as u32,
    }
}

pub open spec fn header(device: &Device) -> Listing {
    Listing::start().line("; pic8 -- integer spine milestone 2 (isel-pic-baseline)"@).line(
        "    list p="@ + device.name@,
    ).line("    radix hex"@).line("STATUS equ 0x03"@).line("FSR    equ 0x04"@).line(
        "INDF   equ 0x00"@,
    ).line("PCL    equ 0x02"@).line(""@).line("    org 0x0000"@).line("    goto __start"@).line(""@)
}

/// Bytes `i..` of a constant into RAM at `base`.
pub open spec fn init_bytes(c: Gen, st: St, gi: usize, base: u16, i: int) -> St
    decreases c.cx.m.globals@[gi as int].bytes@.len() - i,
{
    let x = c.cx.m.globals@[gi as int];
    if i < 0 || i >= x.bytes@.len() {
        st
    } else {
        let st = st.emit(Line::Lit(LitOp::Movlw, byte_imm(c.cx.m, c.cx.addrs, gi, i)));
        init_bytes(c, c.put(st, (base as u32).wrapping_add(i as u32)), gi, base, i + 1)
    }
}

pub open spec fn init_from(c: Gen, st: St, gi: int) -> St
    decreases c.cx.m.globals@.len() - gi,
{
    if gi < 0 || gi >= c.cx.m.globals@.len() {
        st
    } else if in_ram(c.cx.m, c.cx.addrs, gi) {
        let base = c.cx.addrs@[c.cx.m.globals@[gi].name@];
        init_from(c, init_bytes(c, st, gi as usize, base, 0), gi + 1)
    } else {
        init_from(c, st, gi + 1)
    }
}

/// The reset code: the constants in RAM, then the call of `main`.
pub open spec fn start_block(c: Gen, st: St) -> St {
    init_from(c, st.emit(Line::Label(Sym::Start)), 0).emit(Line::Call(Sym::Main)).emit(
        Line::Sleep,
    ).emit(Line::Blank)
}

/// Function number `fi`, its fresh labels numbered from `next`.
pub open spec fn func_lines(
    device: &Device,
    m: &Module,
    addrs: &AddrMap,
    ptrs: &PtrMap,
    common: u16,
    next: u32,
    fi: usize,
) -> St {
    let name = m.funcs@[fi as int].name@;
    let c = gen_for(device, m, addrs, ptrs, common, func_index(m, name).unwrap_or(fi));
    if routine(name) is Some {
        St::start(next).fail(IselError::RuntimeRoutine)
    } else {
        func_body(&c, &c.cx, St::start(next), fi)
    }
}

/// A program with some of its functions.
pub ghost struct Progress {
    pub out: Listing,
    pub next: u32,
    pub err: Option<IselError>,
}

pub open spec fn add_func(m: &Module, acc: Progress, st: St) -> Progress {
    Progress {
        out: acc.out.append(m, st),
        next: st.next,
        err: st.err,
    }
}

/// The functions from `fi` on, up to the first that cannot be lowered.
pub open spec fn funcs_from(
    device: &Device,
    m: &Module,
    addrs: &AddrMap,
    ptrs: &PtrMap,
    common: u16,
    acc: Progress,
    fi: int,
) -> Progress
    decreases m.funcs@.len() - fi,
{
    if fi < 0 || fi >= m.funcs@.len() || acc.err is Some {
        acc
    } else {
        let st = func_lines(device, m, addrs, ptrs, common, acc.next, fi as usize);
        funcs_from(device, m, addrs, ptrs, common, add_func(m, acc, st), fi + 1)
    }
}

/// Everything up to the reset code.
pub open spec fn preamble(
    device: &Device,
    m: &Module,
    addrs: &AddrMap,
    ptrs: &PtrMap,
    common: u16,
) -> Progress {
    let st = start_block(gen_for(device, m, addrs, ptrs, common, 0), St::start(0));
    Progress {
        out: module_asm(header(device), m).append(m, st),
        next: 0,
        err: st.err,
    }
}

/// A program, unless a call could not reach all of it.
pub open spec fn within_reach(out: Listing) -> Result<Listing, IselError> {
    if count_words(out.lines, out.lines.len() as int) > CALL_CEILING {
        Err(IselError::CallCeiling)
    } else {
        Ok(out)
    }
}

/// The whole program, or why there is none.
pub open spec fn program(device: &Device, m: &Module, addrs: &AddrMap, ptrs: &PtrMap) -> Result<
    Listing,
    IselError,
> {
    if exists|i: int| 0 <= i < m.funcs@.len() && (#[trigger] m.funcs@[i]).isr {
        Err(IselError::InterruptOnBaseline)
    } else {
        match device.common_ram {
            None => Err(IselError::NoCommonRam),
            Some((lo, hi)) => if hi == u16::MAX || lo + 6 > hi {
                Err(IselError::CommonRamTooSmall)
            } else {
                let p = funcs_from(
                    device,
                    m,
                    addrs,
                    ptrs,
                    lo,
                    preamble(device, m, addrs, ptrs, lo),
                    0,
                );
                match p.err {
                    Some(e) => Err(e),
                    None => within_reach(p.out.line("    end"@)),
                }
            },
        }
    }
}

fn write_header(device: &Device) -> (out: Output)
    ensures
        out@ == header(device),
{
    let mut out = Output::new();
    out.line("; pic8 -- integer spine milestone 2 (isel-pic-baseline)");
    let mut list = "    list p=".to_owned();
    list.append(device.name.as_str());
    out.line(list.as_str());
    out.line("    radix hex");
    out.line("STATUS equ 0x03");
    out.line("FSR    equ 0x04");
    out.line("INDF   equ 0x00");
    out.line("PCL    equ 0x02");
    out.line("");
    out.line("    org 0x0000");
    out.line("    goto __start");
    out.line("");
    out
}

fn emit_init_bytes(c: &Gen, g: &mut Emitter, gi: usize, base: u16)
    requires
        gi < c.cx.m.globals@.len(),
    ensures
        final(g)@ == init_bytes(*c, old(g)@, gi, base, 0),
{
    let x = &c.cx.m.globals[gi];
    let mut i: usize = 0;
    while i < x.bytes.len()
        invariant
            gi < c.cx.m.globals@.len(),
            *x == c.cx.m.globals@[gi as int],
            i <= x.bytes@.len(),
            init_bytes(*c, old(g)@, gi, base, 0) == init_bytes(*c, g@, gi, base, i as int),
        decreases x.bytes@.len() - i,
    {
        let imm = make_byte(c.cx.m, c.cx.addrs, gi, i);
        g.emit(Line::Lit(LitOp::Movlw, imm));
        c.emit_put(g, (base as u32).wrapping_add(i as u32));
        i += 1;
    }
}

fn emit_start(c: &Gen, g: &mut Emitter)
    ensures
        final(g)@ == start_block(*c, old(g)@),
{
    g.emit(Line::Label(Sym::Start));
    let ghost start = g@;
    let m = c.cx.m;
    let mut gi: usize = 0;
    while gi < m.globals.len()
        invariant
            m == c.cx.m,
            gi <= m.globals@.len(),
            init_from(*c, start, 0) == init_from(*c, g@, gi as int),
        decreases m.globals@.len() - gi,
    {
        if m.globals[gi].is_const {
            if let Some(base) = c.cx.addrs.get(m.globals[gi].name.as_str()) {
                emit_init_bytes(c, g, gi, *base);
            }
        }
        gi += 1;
    }
    g.emit(Line::Call(Sym::Main));
    g.emit(Line::Sleep);
    g.emit(Line::Blank);
}

fn has_handler(m: &Module) -> (r: bool)
    ensures
        r == exists|i: int| 0 <= i < m.funcs@.len() && (#[trigger] m.funcs@[i]).isr,
{
    let mut i: usize = 0;
    while i < m.funcs.len()
        invariant
            i <= m.funcs@.len(),
            forall|j: int| 0 <= j < i ==> !(#[trigger] m.funcs@[j]).isr,
        decreases m.funcs@.len() - i,
    {
        if m.funcs[i].isr {
            assert(m.funcs@[i as int].isr);
            return true;
        }
        i += 1;
    }
    false
}

fn make_gen<'a>(
    device: &'a Device,
    m: &'a Module,
    addrs: &'a AddrMap,
    ptrs: &'a PtrMap,
    common: u16,
    func: usize,
) -> (r: Gen<'a>)
    requires
        common + 6 <= u16::MAX,
    ensures
        r == gen_for(device, m, addrs, ptrs, common, func),
{
    Gen {
        cx: Ctx { m, addrs, device, ptrs, func },
        scratch: common as u32,
        retval: common as u32 + 1,
        tmp: common as u32 + 5,
        tmp2: common as u32 + 6,
    }
}

fn emit_func(
    device: &Device,
    m: &Module,
    addrs: &AddrMap,
    ptrs: &PtrMap,
    common: u16,
    next: u32,
    fi: usize,
) -> (g: Emitter)
    requires
        common + 6 <= u16::MAX,
        fi < m.funcs@.len(),
    ensures
        g@ == func_lines(device, m, addrs, ptrs, common, next, fi),
{
    let name = m.funcs[fi].name.as_str();
    let func: usize = match find_func(m, name) {
        Some(i) => i,
        None => fi,
    };
    let mut g = Emitter::new(next);
    let c = make_gen(device, m, addrs, ptrs, common, func);
    if routine_recipe(name).is_some() {
        g.fail(IselError::RuntimeRoutine);
    } else {
        emit_func_body(&c, &c.cx, &mut g, fi);
    }
    g
}

/// Selects instructions for the whole module, with the source location of
/// every line of the text.
///
/// `addrs` holds every address: globals by name, locals by function and
/// name. `ptrs` holds the folded pointers. The comparison byte, the result
/// bytes and the staging bytes are the first seven bytes of common RAM.
pub fn select_with_locs(device: &Device, m: &Module, addrs: &AddrMap, ptrs: &PtrMap) -> (r: Result<
    (String, Vec<Option<SrcLoc>>),
    IselError,
>)
    ensures
        match program(device, m, addrs, ptrs) {
            Ok(p) => r matches Ok(out) && out.0@ == p.text() && out.1@ == p.locs,
            Err(e) => r matches Err(x) && x == e,
        },
{
    if has_handler(m) {
        return Err(IselError::InterruptOnBaseline);
    }
    let (lo, hi) = match device.common_ram {
        Some(c) => c,
        None => {
            return Err(IselError::NoCommonRam);
        },
    };
    if hi == u16::MAX || lo as u32 + 6 > hi as u32 {
        return Err(IselError::CommonRamTooSmall);
    }
    let mut out = write_header(device);
    write_module_asm(&mut out, m);
    let mut g = Emitter::new(0);
    let c0 = make_gen(device, m, addrs, ptrs, lo, 0);
    emit_start(&c0, &mut g);
    out.append(m, &g);
    let ghost pre = preamble(device, m, addrs, ptrs, lo);
    let ghost mut acc = pre;
    let mut err = g.err;
    let mut next: u32 = 0;
    let mut fi: usize = 0;
    while fi < m.funcs.len() && err.is_none()
        invariant
            lo + 6 <= u16::MAX,
            fi <= m.funcs@.len(),
            acc.out == out@,
            acc.next == next,
            acc.err == err,
            funcs_from(device, m, addrs, ptrs, lo, pre, 0) == funcs_from(
                device,
                m,
                addrs,
                ptrs,
                lo,
                acc,
                fi as int,
            ),
        decreases m.funcs@.len() - fi,
    {
        let f = emit_func(device, m, addrs, ptrs, lo, next, fi);
        out.append(m, &f);
        next = f.next;
        err = f.err;
        proof {
            acc = add_func(m, acc, f@);
        }
        fi += 1;
    }
    if let Some(e) = err {
        return Err(e);
    }
    out.line("    end");
    if word_size(out.lines.as_slice()) > CALL_CEILING {
        return Err(IselError::CallCeiling);
    }
    Ok((join(&out.lines), out.locs))
}

/// Selects instructions for the whole module: assembly text for the
/// baseline core. One pass, bodies in module order.
pub fn select(device: &Device, m: &Module, addrs: &AddrMap, ptrs: &PtrMap) -> (r: Result<
    String,
    IselError,
>)
    ensures
        match program(device, m, addrs, ptrs) {
            Ok(p) => r matches Ok(out) && out@ == p.text(),
            Err(e) => r matches Err(x) && x == e,
        },
{
    match select_with_locs(device, m, addrs, ptrs) {
        Ok(out) => Ok(out.0),
        Err(e) => Err(e),
    }
}

/// A program that is handed out has no more words than a call can reach, reset
/// code, module assembly and bank selects counted.
pub proof fn law_programs_are_within_reach(
    device: &Device,
    m: &Module,
    addrs: &AddrMap,
    ptrs: &PtrMap,
)
    ensures
        program(device, m, addrs, ptrs) matches Ok(p) ==> count_words(p.lines, p.lines.len() as int)
            <= CALL_CEILING,
{
}

/// Equal inputs give equal programs, line by line and location by location, and
/// [`select`] gives the text of [`select_with_locs`].
pub proof fn law_equal_inputs_give_equal_programs(
    device: &Device,
    m: &Module,
    addrs: &AddrMap,
    ptrs: &PtrMap,
    a: Result<(String, Vec<Option<SrcLoc>>), IselError>,
    b: Result<(String, Vec<Option<SrcLoc>>), IselError>,
    t: Result<String, IselError>,
)
    requires
        call_ensures(select_with_locs, (device, m, addrs, ptrs), a),
        call_ensures(select_with_locs, (device, m, addrs, ptrs), b),
        call_ensures(select, (device, m, addrs, ptrs), t),
    ensures
        match a {
            Ok(x) => b matches Ok(y) && x.0@ == y.0@ && x.1@ == y.1@ && (t matches Ok(z) && z@
                == x.0@),
            Err(e) => b matches Err(f) && e == f && (t matches Err(g) && e == g),
        },
{
}

} // verus!
