//! Variadic functions: the size of their argument region, the start of a
//! list and the next argument.
use vstd::prelude::*;
use crate::emit::{at, f_op, movwf, on_z, Emitter, St};
use crate::error::IselError;
use crate::ir::{Block, Call, CallArg, Func, Inst, Module, Term, VaArg, VaStart};
use crate::line::{BitOp, Op};
use crate::names::{find_func, func_index};
use crate::pic14e::pointer::from_indf;
use crate::pic14e::Gen;
use crate::text::same;

verus! {

/// Regions are counted up to this many bytes.
pub const REGION_CAP: u32 = 0x1_0000;

/// The width of a variadic argument: a pointer has none of its own.
pub open spec fn extra_width(a: CallArg) -> nat {
    match a.ty {
        Some(t) => t.bytes() as nat,
        None => 2,
    }
}

pub open spec fn extra_from(args: Seq<CallArg>, i: int) -> nat
    decreases args.len() - i,
{
    if i < 0 || i >= args.len() {
        0
    } else {
        extra_width(args[i]) + extra_from(args, i + 1)
    }
}

/// What a call of `func` with `named` parameters puts into its region.
pub open spec fn call_extra(c: Call, func: Seq<char>, named: nat) -> nat {
    if c.callees@.len() == 0 && c.func@ == func && c.args@.len() > named {
        extra_from(c.args@, named as int)
    } else {
        0
    }
}

pub open spec fn larger(a: nat, b: nat) -> nat {
    if a >= b {
        a
    } else {
        b
    }
}

pub open spec fn insts_extra(insts: Seq<Inst>, func: Seq<char>, named: nat, j: int) -> nat
    decreases insts.len() - j,
{
    if j < 0 || j >= insts.len() {
        0
    } else {
        let here = match insts[j] {
            Inst::Call(c) => call_extra(c, func, named),
            _ => 0,
        };
        larger(here, insts_extra(insts, func, named, j + 1))
    }
}

pub open spec fn blocks_extra(blocks: Seq<Block>, func: Seq<char>, named: nat, b: int) -> nat
    decreases blocks.len() - b,
{
    if b < 0 || b >= blocks.len() {
        0
    } else {
        larger(
            insts_extra(blocks[b].insts@, func, named, 0),
            blocks_extra(blocks, func, named, b + 1),
        )
    }
}

pub open spec fn funcs_extra(funcs: Seq<Func>, func: Seq<char>, named: nat, f: int) -> nat
    decreases funcs.len() - f,
{
    if f < 0 || f >= funcs.len() {
        0
    } else {
        larger(
            blocks_extra(funcs[f].blocks@, func, named, 0),
            funcs_extra(funcs, func, named, f + 1),
        )
    }
}

/// The size of the variadic region of `func`: the largest any call fills.
pub open spec fn va_size(m: &Module, func: Seq<char>) -> nat {
    match func_index(m, func) {
        Some(f) => funcs_extra(m.funcs@, func, m.funcs@[f as int].params@.len(), 0),
        None => 0,
    }
}

pub open spec fn capped(n: nat) -> nat {
    if n > REGION_CAP {
        REGION_CAP as nat
    } else {
        n
    }
}

fn count_extra(args: &Vec<CallArg>, named: usize) -> (r: u32)
    requires
        named <= args@.len(),
    ensures
        r == capped(extra_from(args@, named as int)),
{
    let mut sum: u32 = 0;
    let mut i: usize = named;
    while i < args.len()
        invariant
            named <= i <= args@.len(),
            sum < REGION_CAP ==> extra_from(args@, named as int) == sum + extra_from(
                args@,
                i as int,
            ),
            sum >= REGION_CAP ==> extra_from(args@, named as int) >= REGION_CAP,
            sum <= REGION_CAP + 4,
        decreases args@.len() - i,
    {
        if sum < REGION_CAP {
            let n: u32 = match args[i].ty {
                Some(t) => t.bytes() as u32,
                None => 2,
            };
            sum += n;
        }
        i += 1;
    }
    if sum > REGION_CAP {
        REGION_CAP
    } else {
        sum
    }
}

fn largest(a: u32, b: u32) -> (r: u32)
    ensures
        r == larger(a as nat, b as nat),
{
    if a >= b {
        a
    } else {
        b
    }
}

fn count_insts(insts: &Vec<Inst>, func: &str, named: usize) -> (r: u32)
    ensures
        r == capped(insts_extra(insts@, func@, named as nat, 0)),
{
    let mut top: u32 = 0;
    let mut j: usize = 0;
    while j < insts.len()
        invariant
            j <= insts@.len(),
            top <= REGION_CAP,
            capped(insts_extra(insts@, func@, named as nat, 0)) == larger(
                top as nat,
                capped(insts_extra(insts@, func@, named as nat, j as int)),
            ),
        decreases insts@.len() - j,
    {
        if let Inst::Call(c) = &insts[j] {
            if c.callees.len() == 0 && c.args.len() > named && same(c.func.as_str(), func) {
                top = largest(top, count_extra(&c.args, named));
            }
        }
        j += 1;
    }
    top
}

fn count_blocks(blocks: &Vec<Block>, func: &str, named: usize) -> (r: u32)
    ensures
        r == capped(blocks_extra(blocks@, func@, named as nat, 0)),
{
    let mut top: u32 = 0;
    let mut b: usize = 0;
    while b < blocks.len()
        invariant
            b <= blocks@.len(),
            top <= REGION_CAP,
            capped(blocks_extra(blocks@, func@, named as nat, 0)) == larger(
                top as nat,
                capped(blocks_extra(blocks@, func@, named as nat, b as int)),
            ),
        decreases blocks@.len() - b,
    {
        top = largest(top, count_insts(&blocks[b].insts, func, named));
        b += 1;
    }
    top
}

/// The size of the variadic region of `func` in bytes, counted up to
/// [`REGION_CAP`].
pub fn func_va_size(m: &Module, func: &str) -> (r: u32)
    ensures
        r == capped(va_size(m, func@)),
{
    let named: usize = match find_func(m, func) {
        Some(f) => m.funcs[f].params.len(),
        None => {
            return 0;
        },
    };
    let mut top: u32 = 0;
    let mut f: usize = 0;
    while f < m.funcs.len()
        invariant
            f <= m.funcs@.len(),
            top <= REGION_CAP,
            capped(va_size(m, func@)) == larger(
                top as nat,
                capped(funcs_extra(m.funcs@, func@, named as nat, f as int)),
            ),
        decreases m.funcs@.len() - f,
    {
        top = largest(top, count_blocks(&m.funcs[f].blocks, func, named));
        f += 1;
    }
    top
}

impl<'a> Gen<'a> {
    /// The address of the variadic region into the list.
    pub open spec fn va_start(&self, st: St, x: VaStart) -> St {
        let (st, list) = self.cx.local_step(st, x.list@);
        match self.cx.slot(self.cx.fname(), "__va"@) {
            Some(va) => {
                let st = st.check(
                    (va & 0xFF) + va_size(self.cx.m, self.cx.fname()) <= 0x100,
                    IselError::VariadicRegion,
                );
                self.put_addr(st, va, list)
            },
            None => st.fail(IselError::Variadic),
        }
    }

    pub open spec fn va_read(&self, st: St, list: u32, da: u32, n: u8, i: u8) -> St
        decreases n - i,
    {
        if i >= n {
            st
        } else {
            let st = self.fsr_indirect(st, list, 0, Seq::empty(), i).emit(from_indf()).emit(
                movwf(at(da, i)),
            );
            self.va_read(st, list, da, n, (i + 1) as u8)
        }
    }

    /// The address at `list` moved on by `n`.
    pub open spec fn va_advance(&self, st: St, list: u32, n: u8) -> St
        decreases n,
    {
        if n == 0 {
            st
        } else {
            let st = st.emit(f_op(Op::Incf, list)).emit(on_z(BitOp::Btfsc)).emit(
                f_op(Op::Incf, at(list, 1)),
            );
            self.va_advance(st, list, (n - 1) as u8)
        }
    }

    /// The next argument behind the list into its slot.
    pub open spec fn va_arg(&self, st: St, x: VaArg) -> St {
        let (st, da) = self.cx.local_step(st, x.dst@);
        let (st, list) = self.cx.local_step(st, x.ptr@);
        self.va_advance(self.va_read(st, list, da, x.ty.bytes(), 0), list, x.ty.bytes())
    }

    /// Starts a list: it holds the address of the region. The region lies in
    /// one 256-byte pair of banks.
    pub fn emit_va_start(&self, g: &mut Emitter, x: &VaStart)
        requires
            self.wf(),
        ensures
            final(g)@ == self.va_start(old(g)@, *x),
    {
        let list: u32 = self.cx.local_addr(g, x.list.as_str());
        match self.cx.find_slot(self.cx.name(), "__va") {
            Some(va) => {
                let n: u32 = func_va_size(self.cx.m, self.cx.name());
                assert(va & 0xFF <= 0xFF) by (bit_vector);
                g.check((va & 0xFF) + n <= 0x100, IselError::VariadicRegion);
                self.emit_put_addr(g, va, list);
            },
            None => g.fail(IselError::Variadic),
        }
    }

    /// Reads the next argument through the list and moves the list on.
    pub fn emit_va_arg(&self, g: &mut Emitter, x: &VaArg)
        requires
            self.wf(),
        ensures
            final(g)@ == self.va_arg(old(g)@, *x),
    {
        let da: u32 = self.cx.local_addr(g, x.dst.as_str());
        let list: u32 = self.cx.local_addr(g, x.ptr.as_str());
        let n: u8 = x.ty.bytes();
        let none: Vec<Term> = Vec::new();
        assert(none@ =~= Seq::<Term>::empty());
        let ghost start = g@;
        let mut i: u8 = 0;
        while i < n
            invariant
                self.wf(),
                none@ == Seq::<Term>::empty(),
                self.va_read(start, list, da, n, 0) == self.va_read(g@, list, da, n, i),
            decreases n - i,
        {
            self.emit_fsr_indirect(g, list, 0, &none, i);
            g.emit(from_indf());
            g.emit(movwf(at(da, i)));
            i += 1;
        }
        let ghost mid = g@;
        let mut k: u8 = n;
        while k > 0
            invariant
                self.va_advance(mid, list, n) == self.va_advance(g@, list, k),
            decreases k,
        {
            g.emit(f_op(Op::Incf, list));
            g.emit(on_z(BitOp::Btfsc));
            g.emit(f_op(Op::Incf, at(list, 1)));
            k -= 1;
        }
    }
}

} // verus!
