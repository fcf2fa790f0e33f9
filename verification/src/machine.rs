//! What the emitted lines do when they run.
//!
//! A [`Machine`] is a core at some point of a program. [`step`] runs one
//! line, [`exec`] runs the rows of an emitter from a given row on. Control
//! moves down the rows: a skip drops the next instruction, and a jump drops
//! everything up to its label. A jump up the rows is left pending, and one
//! more pass over the same rows carries it out ([`settle`]). Code that leaves
//! the rows for good (calls, returns, computed jumps, raw assembly) ends the
//! run.
use vstd::prelude::*;
use crate::emit::{marked, Row, St};
use crate::ir::SrcLoc;
use crate::line::{BitOp, Dest, Imm, Line, LitOp, Note, Op, Reg, Sym};

verus! {

/// Which core runs: the baseline core, with its number of bank bits in FSR,
/// reaches a byte by a five-bit operand and the selected bank. For the
/// enhanced core an operand is the full data address: the bank selects are
/// inserted by a later pass.
pub enum Core {
    Baseline(u8),
    Enhanced,
}

/// Where control is: at the next row, about to drop one instruction, on the
/// way to a label, or gone from these rows.
pub enum Flow {
    Next,
    Skip,
    Seek(Sym),
    Gone,
}

/// A core between two rows.
pub ghost struct Machine {
    pub core: Core,
    pub w: u8,
    pub c: bool,
    pub z: bool,
    pub fsr: u8,
    pub fsr0: (u8, u8),
    pub pclath: u8,
    pub links: Map<Imm, u8>,
    pub ram: Map<u32, u8>,
    pub flow: Flow,
    pub cycles: nat,
}

/// Two to the `n`, for the bits of a byte.
pub open spec fn power(n: u8) -> int {
    match n {
        0u8 => 1,
        1u8 => 2,
        2u8 => 4,
        3u8 => 8,
        4u8 => 16,
        5u8 => 32,
        6u8 => 64,
        7u8 => 128,
        _ => 256,
    }
}

/// Bit `b` of a byte.
pub open spec fn bit_of(v: u8, b: u8) -> bool {
    match b {
        0u8 => v % 2 == 1,
        1u8 => v / 2 % 2 == 1,
        2u8 => v / 4 % 2 == 1,
        3u8 => v / 8 % 2 == 1,
        4u8 => v / 16 % 2 == 1,
        5u8 => v / 32 % 2 == 1,
        6u8 => v / 64 % 2 == 1,
        _ => v >= 128,
    }
}

/// A byte with bit `b` as given.
pub open spec fn with_bit(v: u8, b: u8, on: bool) -> u8 {
    if bit_of(v, b) == on {
        v
    } else if on {
        (v + power(b)) as u8
    } else {
        (v - power(b)) as u8
    }
}

/// The low byte of `x`, for `x` below twice 256.
pub open spec fn wrap(x: int) -> u8 {
    if x < 0 {
        (x + 256) as u8
    } else if x >= 256 {
        (x - 256) as u8
    } else {
        x as u8
    }
}

/// The byte that a direct operand reaches.
pub open spec fn reached(m: Machine, f: u32) -> u32 {
    match m.core {
        Core::Enhanced => f,
        Core::Baseline(bits) => if f % 32 < 16 {
            f
        } else {
            (f + 32 * (m.fsr as int / 32 % power(bits))) as u32
        },
    }
}

/// The byte at 16-bit pointer `p` of the enhanced core: the linear region
/// holds the general-purpose RAM of all banks without gaps.
pub open spec fn unlinear(p: int) -> u32 {
    if 0x2000 <= p < 0x29B0 {
        ((p - 0x2000) / 80 * 128 + 0x20 + (p - 0x2000) % 80) as u32
    } else {
        p as u32
    }
}

/// The byte that a register names, if it is one of RAM.
pub open spec fn place(m: Machine, r: Reg) -> Option<u32> {
    match r {
        Reg::Ram(f) => Some(reached(m, f)),
        Reg::Indf => Some(reached(m, m.fsr as u32 % 32)),
        Reg::Indf0 => Some(unlinear(m.fsr0.0 + 256 * m.fsr0.1)),
        _ => None,
    }
}

pub open spec fn read(m: Machine, r: Reg) -> u8 {
    match place(m, r) {
        Some(a) => m.ram[a],
        None => match r {
            Reg::Fsr => m.fsr,
            Reg::Fsr0L => m.fsr0.0,
            Reg::Fsr0H => m.fsr0.1,
            _ => m.pclath,
        },
    }
}

pub open spec fn write(m: Machine, r: Reg, v: u8) -> Machine {
    match place(m, r) {
        Some(a) => Machine { ram: m.ram.insert(a, v), ..m },
        None => match r {
            Reg::Fsr => Machine { fsr: v, ..m },
            Reg::Fsr0L => Machine { fsr0: (v, m.fsr0.1), ..m },
            Reg::Fsr0H => Machine { fsr0: (m.fsr0.0, v), ..m },
            Reg::Pclath => Machine { pclath: v, ..m },
            _ => Machine { flow: Flow::Gone, ..m },
        },
    }
}

/// The result of a byte-oriented instruction on file value `f`, with the
/// flags that it leaves.
pub open spec fn result(m: Machine, op: Op, f: u8) -> (u8, bool, bool) {
    let (v, c) = match op {
        Op::Addwf => (wrap(f + m.w), f + m.w >= 256),
        Op::Subwf => (wrap(f - m.w), f >= m.w),
        Op::Andwf => (f & m.w, m.c),
        Op::Iorwf => (f | m.w, m.c),
        Op::Xorwf => (f ^ m.w, m.c),
        Op::Comf => (wrap(255 - f), m.c),
        Op::Decfsz => (wrap(f - 1), m.c),
        Op::Incf => (wrap(f + 1), m.c),
        Op::Incfsz => (wrap(f + 1), m.c),
        Op::Movf => (f, m.c),
        Op::Rlf => (wrap(2 * f + (if m.c {
            1int
        } else {
            0int
        })), f >= 128),
        Op::Rrf => ((f as int / 2 + (if m.c {
            128int
        } else {
            0int
        })) as u8, f % 2 == 1),
    };
    let z = match op {
        Op::Decfsz | Op::Incfsz | Op::Rlf | Op::Rrf => m.z,
        _ => v == 0,
    };
    (v, c, z)
}

pub open spec fn byte_step(m: Machine, op: Op, r: Reg, d: Dest) -> Machine {
    let (v, c, z) = result(m, op, read(m, r));
    let n = match d {
        Dest::W => Machine { w: v, ..m },
        Dest::F => write(m, r, v),
    };
    let n = Machine { c, z, ..n };
    if (op == Op::Decfsz || op == Op::Incfsz) && v == 0 {
        Machine { flow: Flow::Skip, ..n }
    } else {
        n
    }
}

/// A bit instruction. In the status register bit zero is the carry and bit
/// two the zero flag.
pub open spec fn bit_step(m: Machine, op: BitOp, r: Reg, b: u8) -> Machine {
    let on = match r {
        Reg::Status => if b == 0 {
            m.c
        } else {
            m.z
        },
        _ => bit_of(read(m, r), b),
    };
    match op {
        BitOp::Btfsc => if on {
            m
        } else {
            Machine { flow: Flow::Skip, ..m }
        },
        BitOp::Btfss => if on {
            Machine { flow: Flow::Skip, ..m }
        } else {
            m
        },
        _ => match r {
            Reg::Status => if b == 0 {
                Machine { c: op == BitOp::Bsf, ..m }
            } else {
                Machine { z: op == BitOp::Bsf, ..m }
            },
            _ => write(m, r, with_bit(read(m, r), b, op == BitOp::Bsf)),
        },
    }
}

/// The byte of a literal; that of a label literal is known to the linker.
pub open spec fn literal(m: Machine, i: Imm) -> u8 {
    match i {
        Imm::Byte(k) => k,
        _ => m.links[i],
    }
}

/// A literal instruction.
pub open spec fn lit_step(m: Machine, op: LitOp, i: Imm) -> Machine {
    let k = literal(m, i);
    match op {
        LitOp::Movlw => Machine { w: k, ..m },
        LitOp::Addlw => Machine {
            w: wrap(k + m.w),
            c: k + m.w >= 256,
            z: wrap(k + m.w) == 0,
            ..m
        },
        LitOp::Sublw => Machine { w: wrap(k - m.w), c: k >= m.w, z: k == m.w, ..m },
        LitOp::Andlw => Machine { w: m.w & k, z: (m.w & k) == 0, ..m },
        LitOp::Iorlw => Machine { w: m.w | k, z: (m.w | k) == 0, ..m },
        LitOp::Xorlw => Machine { w: m.w ^ k, z: (m.w ^ k) == 0, ..m },
        LitOp::Retlw => Machine { w: k, flow: Flow::Gone, ..m },
    }
}

/// Whether a line is an instruction.
pub open spec fn is_code(l: Line) -> bool {
    match l {
        Line::Label(_) | Line::Blank | Line::PhiNote(_) | Line::AsmStart | Line::AsmEnd
        | Line::Org(_) | Line::Align | Line::Table(_, _) => false,
        _ => true,
    }
}

/// The instruction cycles of a line that runs.
pub open spec fn cost(l: Line) -> nat {
    match l {
        Line::Goto(_) | Line::Call(_) | Line::Return | Line::Retfie | Line::Lit(LitOp::Retlw, _) => 2,
        _ => if is_code(l) {
            1
        } else {
            0
        },
    }
}

/// A line that is not dropped.
pub open spec fn effect(m: Machine, l: Line) -> Machine {
    match l {
        Line::Byte(op, r, d) => byte_step(m, op, r, d),
        Line::Movwf(r) => write(m, r, m.w),
        Line::Clrf(r) => Machine { z: true, ..write(m, r, 0) },
        Line::Bit(op, r, b, _) => bit_step(m, op, r, b),
        Line::Lit(op, i) => lit_step(m, op, i),
        Line::Goto(s) => Machine { flow: Flow::Seek(s), ..m },
        Line::Nop => m,
        _ => if is_code(l) {
            Machine { flow: Flow::Gone, ..m }
        } else {
            m
        },
    }
}

/// One line: it runs, or it is dropped. A dropped instruction still takes
/// its cycle when a skip drops it.
#[verifier::opaque]
pub open spec fn step(m: Machine, l: Line) -> Machine {
    match m.flow {
        Flow::Next => {
            let n = effect(m, l);
            Machine { cycles: m.cycles + cost(l), ..n }
        },
        Flow::Skip => if is_code(l) {
            Machine { flow: Flow::Next, cycles: m.cycles + 1, ..m }
        } else {
            m
        },
        Flow::Seek(s) => if l == Line::Label(s) {
            Machine { flow: Flow::Next, ..m }
        } else {
            m
        },
        Flow::Gone => m,
    }
}

/// The first `n` rows from row `base` on.
pub open spec fn exec_to(rows: Seq<Row>, base: int, n: int, m: Machine) -> Machine
    decreases n - base,
{
    if n <= base {
        m
    } else {
        step(exec_to(rows, base, n - 1, m), rows[n - 1].line)
    }
}

/// The rows from row `base` on.
#[verifier::opaque]
pub open spec fn exec(rows: Seq<Row>, base: int, m: Machine) -> Machine {
    exec_to(rows, base, rows.len() as int, m)
}

pub(crate) proof fn lemma_exec_prefix(rows: Seq<Row>, r: Row, base: int, n: int, m: Machine)
    requires
        0 <= base,
        n <= rows.len(),
    ensures
        exec_to(rows.push(r), base, n, m) == exec_to(rows, base, n, m),
    decreases n - base,
{
    if n > base {
        lemma_exec_prefix(rows, r, base, n - 1, m);
    }
}

/// Rows that follow others start from where those end. Source locations are
/// nothing to the machine.
pub proof fn lemma_exec_join(
    rows: Seq<Row>,
    more: Seq<Row>,
    loc: Option<SrcLoc>,
    base: int,
    n: int,
    m: Machine,
)
    requires
        0 <= base <= rows.len(),
        0 <= n <= more.len(),
    ensures
        exec_to(rows + marked(more, loc), base, rows.len() + n, m) == exec_to(
            more,
            0,
            n,
            exec_to(rows, base, rows.len() as int, m),
        ),
    decreases n,
{
    if n > 0 {
        lemma_exec_join(rows, more, loc, base, n - 1, m);
    } else {
        lemma_exec_start(rows, marked(more, loc), base, rows.len() as int, m);
    }
}

proof fn lemma_exec_start(rows: Seq<Row>, more: Seq<Row>, base: int, n: int, m: Machine)
    requires
        0 <= base,
        n <= rows.len(),
    ensures
        exec_to(rows + more, base, n, m) == exec_to(rows, base, n, m),
    decreases n - base,
{
    if n > base {
        lemma_exec_start(rows, more, base, n - 1, m);
    }
}

/// What a piece of a program does is what its lines do.
pub proof fn lemma_joined(st: St, s: St, loc: Option<SrcLoc>, base: int, m: Machine)
    requires
        0 <= base <= st.rows.len(),
    ensures
        exec(st.join(s, loc).rows, base, m) == exec(s.rows, 0, exec(st.rows, base, m)),
        exec(st.fresh().rows, 0, exec(st.rows, base, m)) == exec(st.rows, base, m),
{
    reveal(exec);
    lemma_exec_join(st.rows, s.rows, loc, base, s.rows.len() as int, m);
}

/// No rows do nothing.
pub broadcast proof fn lemma_exec_none(rows: Seq<Row>, base: int, m: Machine)
    requires
        base == rows.len(),
    ensures
        #[trigger] exec(rows, base, m) == m,
{
    reveal(exec);
}

/// One more row is one more step.
pub broadcast proof fn lemma_exec_push(rows: Seq<Row>, r: Row, base: int, m: Machine)
    requires
        0 <= base <= rows.len(),
    ensures
        #[trigger] exec(rows.push(r), base, m) == step(exec(rows, base, m), r.line),
{
    reveal(exec);
    lemma_exec_prefix(rows, r, base, rows.len() as int, m);
}

/// A line that a jump passes over.
pub broadcast proof fn lemma_step_seek(m: Machine, l: Line)
    requires
        m.flow is Seek,
    ensures
        #[trigger] step(m, l) == (if l == Line::Label(m.flow->Seek_0) {
            Machine { flow: Flow::Next, ..m }
        } else {
            m
        }),
{
    reveal(step);
}

/// A line after the run has left.
pub broadcast proof fn lemma_step_gone(m: Machine, l: Line)
    requires
        m.flow is Gone,
    ensures
        #[trigger] step(m, l) == m,
{
    reveal(step);
}

/// An instruction that a skip drops.
pub broadcast proof fn lemma_step_skip(m: Machine, l: Line)
    requires
        m.flow is Skip,
        is_code(l),
    ensures
        #[trigger] step(m, l) == (Machine { flow: Flow::Next, cycles: m.cycles + 1, ..m }),
{
    reveal(step);
}

pub broadcast proof fn lemma_step_byte_w(m: Machine, op: Op, f: u32)
    requires
        m.flow is Next,
    ensures
        #[trigger] step(m, Line::Byte(op, Reg::Ram(f), Dest::W)) == ({
            let (w, c, z) = result(m, op, m.ram[reached(m, f)]);
            let flow = if (op == Op::Decfsz || op == Op::Incfsz) && w == 0 {
                Flow::Skip
            } else {
                Flow::Next
            };
            Machine { w, c, z, flow, cycles: m.cycles + 1, ..m }
        }),
{
    reveal(step);
}

pub broadcast proof fn lemma_step_byte_f(m: Machine, op: Op, f: u32)
    requires
        m.flow is Next,
    ensures
        #[trigger] step(m, Line::Byte(op, Reg::Ram(f), Dest::F)) == ({
            let (v, c, z) = result(m, op, m.ram[reached(m, f)]);
            let flow = if (op == Op::Decfsz || op == Op::Incfsz) && v == 0 {
                Flow::Skip
            } else {
                Flow::Next
            };
            Machine {
                ram: m.ram.insert(reached(m, f), v),
                c,
                z,
                flow,
                cycles: m.cycles + 1,
                ..m
            }
        }),
{
    reveal(step);
}

pub broadcast proof fn lemma_step_movwf(m: Machine, f: u32)
    requires
        m.flow is Next,
    ensures
        #[trigger] step(m, Line::Movwf(Reg::Ram(f))) == (Machine {
            ram: m.ram.insert(reached(m, f), m.w),
            cycles: m.cycles + 1,
            ..m
        }),
{
    reveal(step);
}

pub broadcast proof fn lemma_step_clrf(m: Machine, f: u32)
    requires
        m.flow is Next,
    ensures
        #[trigger] step(m, Line::Clrf(Reg::Ram(f))) == (Machine {
            ram: m.ram.insert(reached(m, f), 0),
            z: true,
            cycles: m.cycles + 1,
            ..m
        }),
{
    reveal(step);
}

pub broadcast proof fn lemma_step_status(m: Machine, op: BitOp, b: u8, n: Note)
    requires
        m.flow is Next,
        b == 0 || b == 2,
    ensures
        #[trigger] step(m, Line::Bit(op, Reg::Status, b, n)) == ({
            let on = if b == 0 {
                m.c
            } else {
                m.z
            };
            let c = if b == 0 && (op == BitOp::Bcf || op == BitOp::Bsf) {
                op == BitOp::Bsf
            } else {
                m.c
            };
            let z = if b == 2 && (op == BitOp::Bcf || op == BitOp::Bsf) {
                op == BitOp::Bsf
            } else {
                m.z
            };
            let flow = if (op == BitOp::Btfsc && !on) || (op == BitOp::Btfss && on) {
                Flow::Skip
            } else {
                Flow::Next
            };
            Machine { c, z, flow, cycles: m.cycles + 1, ..m }
        }),
{
    reveal(step);
}

pub broadcast proof fn lemma_step_test(m: Machine, op: BitOp, f: u32, b: u8, n: Note)
    requires
        m.flow is Next,
        op == BitOp::Btfsc || op == BitOp::Btfss,
    ensures
        #[trigger] step(m, Line::Bit(op, Reg::Ram(f), b, n)) == (Machine {
            flow: if (op == BitOp::Btfss) == bit_of(m.ram[reached(m, f)], b) {
                Flow::Skip
            } else {
                Flow::Next
            },
            cycles: m.cycles + 1,
            ..m
        }),
{
    reveal(step);
}

pub broadcast proof fn lemma_step_set(m: Machine, op: BitOp, f: u32, b: u8, n: Note)
    requires
        m.flow is Next,
        op == BitOp::Bcf || op == BitOp::Bsf,
    ensures
        #[trigger] step(m, Line::Bit(op, Reg::Ram(f), b, n)) == (Machine {
            ram: m.ram.insert(
                reached(m, f),
                with_bit(m.ram[reached(m, f)], b, op == BitOp::Bsf),
            ),
            cycles: m.cycles + 1,
            ..m
        }),
{
    reveal(step);
}

pub broadcast proof fn lemma_step_lit(m: Machine, op: LitOp, i: Imm)
    requires
        m.flow is Next,
    ensures
        #[trigger] step(m, Line::Lit(op, i)) == (Machine {
            cycles: m.cycles + cost(Line::Lit(op, i)),
            ..lit_step(m, op, i)
        }),
{
    reveal(step);
}

pub broadcast proof fn lemma_step_goto(m: Machine, s: Sym)
    requires
        m.flow is Next,
    ensures
        #[trigger] step(m, Line::Goto(s)) == (Machine {
            flow: Flow::Seek(s),
            cycles: m.cycles + 2,
            ..m
        }),
{
    reveal(step);
}

pub broadcast proof fn lemma_step_label(m: Machine, s: Sym)
    requires
        m.flow is Next || m.flow is Skip,
    ensures
        #[trigger] step(m, Line::Label(s)) == m,
{
    reveal(step);
}

pub broadcast proof fn lemma_step_nop(m: Machine)
    requires
        m.flow is Next,
    ensures
        #[trigger] step(m, Line::Nop) == (Machine { cycles: m.cycles + 1, ..m }),
{
    reveal(step);
}

/// A run row by row.
pub broadcast group group_exec {
    lemma_exec_none,
    lemma_exec_push,
    lemma_step_seek,
    lemma_step_skip,
    lemma_step_byte_w,
    lemma_step_byte_f,
    lemma_step_movwf,
    lemma_step_clrf,
    lemma_step_status,
    lemma_step_test,
    lemma_step_set,
    lemma_step_lit,
    lemma_step_goto,
    lemma_step_label,
    lemma_step_nop,
}

/// A byte-oriented instruction on any register.
pub broadcast proof fn lemma_step_byte(m: Machine, op: Op, r: Reg, d: Dest)
    requires
        m.flow is Next,
    ensures
        #[trigger] step(m, Line::Byte(op, r, d)) == (Machine {
            cycles: m.cycles + 1,
            ..byte_step(m, op, r, d)
        }),
{
    reveal(step);
}

/// A store of W to any register.
pub broadcast proof fn lemma_step_write(m: Machine, r: Reg)
    requires
        m.flow is Next,
    ensures
        #[trigger] step(m, Line::Movwf(r)) == (Machine {
            cycles: m.cycles + 1,
            ..write(m, r, m.w)
        }),
{
    reveal(step);
}

/// A run row by row, with the pointer registers.
pub broadcast group group_exec_pointer {
    lemma_exec_none,
    lemma_exec_push,
    lemma_step_skip,
    lemma_step_byte,
    lemma_step_write,
    lemma_step_status,
    lemma_step_lit,
}

/// Passes over the rows until no jump is pending, `n` at most.
pub open spec fn settle(rows: Seq<Row>, base: int, m: Machine, n: nat) -> Machine
    decreases n,
{
    if n == 0 {
        m
    } else {
        let after = exec(rows, base, m);
        match after.flow {
            Flow::Seek(_) => settle(rows, base, after, (n - 1) as nat),
            _ => after,
        }
    }
}

/// Whether the rows from `base` on take `m` to `after`.
pub open spec fn runs_to(rows: Seq<Row>, base: int, m: Machine, after: Machine) -> bool {
    exists|n: nat| after == #[trigger] settle(rows, base, m, n)
}

} // verus!
