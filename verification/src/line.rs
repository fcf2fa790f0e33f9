//! Assembly lines as values, and the text each of them stands for.
use vstd::prelude::*;
use crate::ir::Module;
use crate::text::{hex2_text, hex4_text, number_text, push_hex2, push_hex4, push_number};

verus! {

/// Byte-oriented instructions that take a destination.
#[derive(Clone, Copy, PartialEq, Eq, Structural, Debug)]
pub enum Op {
    Addwf,
    Andwf,
    Comf,
    Decfsz,
    Incf,
    Incfsz,
    Iorwf,
    Movf,
    Rlf,
    Rrf,
    Subwf,
    Xorwf,
}

/// Where a byte-oriented instruction leaves its result.
#[derive(Clone, Copy, PartialEq, Eq, Structural, Debug)]
pub enum Dest {
    W,
    F,
}

#[derive(Clone, Copy, PartialEq, Eq, Structural, Debug)]
pub enum BitOp {
    Bcf,
    Bsf,
    Btfsc,
    Btfss,
}

/// The comment that names the flag a bit instruction works on.
#[derive(Clone, Copy, PartialEq, Eq, Structural, Debug)]
pub enum Note {
    Bare,
    C,
    Z,
}

#[derive(Clone, Copy, PartialEq, Eq, Structural, Debug)]
pub enum LitOp {
    Addlw,
    Andlw,
    Iorlw,
    Movlw,
    Retlw,
    Sublw,
    Xorlw,
}

/// A file register: a byte of RAM by its operand, or a named register.
#[derive(Clone, Copy, PartialEq, Eq, Structural, Debug)]
pub enum Reg {
    Ram(u32),
    Status,
    Fsr,
    Indf,
    Fsr0L,
    Fsr0H,
    Indf0,
    Pcl,
    Pclath,
}

/// A label: a function, a block of a function, a fresh label, the reset
/// code, the entry function, the reader or the data of one chunk of a
/// constant table, or the target of an address field.
#[derive(Clone, Copy, PartialEq, Eq, Structural, Debug)]
pub enum Sym {
    Func(usize),
    Block(usize, usize),
    Tmp(u32),
    Start,
    Main,
    Reader(usize, u32),
    Chunk(usize, u32),
    Field(usize, usize),
}

/// A literal operand.
#[derive(Clone, Copy, PartialEq, Eq, Structural, Debug)]
pub enum Imm {
    Byte(u8),
    Low(Sym),
    High(Sym),
    Page(Sym),
}

/// One line of output. `Text(i)` is entry `i` of the emitter's text table.
#[derive(Clone, Copy, PartialEq, Eq, Structural, Debug)]
pub enum Line {
    Byte(Op, Reg, Dest),
    Movwf(Reg),
    Clrf(Reg),
    Bit(BitOp, Reg, u8, Note),
    Lit(LitOp, Imm),
    Call(Sym),
    Goto(Sym),
    Return,
    Retfie,
    Sleep,
    Nop,
    Label(Sym),
    Blank,
    PhiNote(Sym),
    AsmStart,
    AsmEnd,
    Org(u32),
    Align,
    Table(usize, u32),
    Text(usize),
}

pub open spec fn op_text(op: Op) -> Seq<char> {
    match op {
        Op::Addwf => "ADDWF"@,
        Op::Andwf => "ANDWF"@,
        Op::Comf => "COMF"@,
        Op::Decfsz => "DECFSZ"@,
        Op::Incf => "INCF"@,
        Op::Incfsz => "INCFSZ"@,
        Op::Iorwf => "IORWF"@,
        Op::Movf => "MOVF"@,
        Op::Rlf => "RLF"@,
        Op::Rrf => "RRF"@,
        Op::Subwf => "SUBWF"@,
        Op::Xorwf => "XORWF"@,
    }
}

fn op_str(op: Op) -> (r: &'static str)
    ensures
        r@ == op_text(op),
{
    match op {
        Op::Addwf => "ADDWF",
        Op::Andwf => "ANDWF",
        Op::Comf => "COMF",
        Op::Decfsz => "DECFSZ",
        Op::Incf => "INCF",
        Op::Incfsz => "INCFSZ",
        Op::Iorwf => "IORWF",
        Op::Movf => "MOVF",
        Op::Rlf => "RLF",
        Op::Rrf => "RRF",
        Op::Subwf => "SUBWF",
        Op::Xorwf => "XORWF",
    }
}

pub open spec fn bit_text(op: BitOp) -> Seq<char> {
    match op {
        BitOp::Bcf => "BCF"@,
        BitOp::Bsf => "BSF"@,
        BitOp::Btfsc => "BTFSC"@,
        BitOp::Btfss => "BTFSS"@,
    }
}

fn bit_str(op: BitOp) -> (r: &'static str)
    ensures
        r@ == bit_text(op),
{
    match op {
        BitOp::Bcf => "BCF",
        BitOp::Bsf => "BSF",
        BitOp::Btfsc => "BTFSC",
        BitOp::Btfss => "BTFSS",
    }
}

pub open spec fn lit_text(op: LitOp) -> Seq<char> {
    match op {
        LitOp::Addlw => "ADDLW"@,
        LitOp::Andlw => "ANDLW"@,
        LitOp::Iorlw => "IORLW"@,
        LitOp::Movlw => "MOVLW"@,
        LitOp::Retlw => "RETLW"@,
        LitOp::Sublw => "SUBLW"@,
        LitOp::Xorlw => "XORLW"@,
    }
}

fn lit_str(op: LitOp) -> (r: &'static str)
    ensures
        r@ == lit_text(op),
{
    match op {
        LitOp::Addlw => "ADDLW",
        LitOp::Andlw => "ANDLW",
        LitOp::Iorlw => "IORLW",
        LitOp::Movlw => "MOVLW",
        LitOp::Retlw => "RETLW",
        LitOp::Sublw => "SUBLW",
        LitOp::Xorlw => "XORLW",
    }
}

pub open spec fn dest_text(d: Dest) -> Seq<char> {
    match d {
        Dest::W => ", W"@,
        Dest::F => ", F"@,
    }
}

pub open spec fn note_text(n: Note) -> Seq<char> {
    match n {
        Note::Bare => ""@,
        Note::C => " ; C"@,
        Note::Z => " ; Z"@,
    }
}

pub open spec fn reg_text(r: Reg) -> Seq<char> {
    match r {
        Reg::Ram(a) => "0x"@ + hex2_text(a as nat),
        Reg::Status => "STATUS"@,
        Reg::Fsr => "FSR"@,
        Reg::Indf => "INDF"@,
        Reg::Fsr0L => "FSR0L"@,
        Reg::Fsr0H => "FSR0H"@,
        Reg::Indf0 => "INDF0"@,
        Reg::Pcl => "PCL"@,
        Reg::Pclath => "PCLATH"@,
    }
}

fn push_reg(s: &mut String, r: Reg)
    ensures
        final(s)@ == old(s)@ + reg_text(r),
{
    match r {
        Reg::Ram(a) => {
            s.append("0x");
            push_hex2(s, a);
            assert(s@ =~= old(s)@ + reg_text(r));
        },
        Reg::Status => s.append("STATUS"),
        Reg::Fsr => s.append("FSR"),
        Reg::Indf => s.append("INDF"),
        Reg::Fsr0L => s.append("FSR0L"),
        Reg::Fsr0H => s.append("FSR0H"),
        Reg::Indf0 => s.append("INDF0"),
        Reg::Pcl => s.append("PCL"),
        Reg::Pclath => s.append("PCLATH"),
    }
}

pub open spec fn func_name(m: &Module, i: usize) -> Seq<char> {
    if i < m.funcs@.len() {
        m.funcs@[i as int].name@
    } else {
        ""@
    }
}

fn func_str(m: &Module, i: usize) -> (r: &str)
    ensures
        r@ == func_name(m, i),
{
    if i < m.funcs.len() {
        m.funcs[i].name.as_str()
    } else {
        ""
    }
}

pub open spec fn global_name(m: &Module, i: usize) -> Seq<char> {
    if i < m.globals@.len() {
        m.globals@[i as int].name@
    } else {
        ""@
    }
}

fn global_str(m: &Module, i: usize) -> (r: &str)
    ensures
        r@ == global_name(m, i),
{
    if i < m.globals.len() {
        m.globals[i].name.as_str()
    } else {
        ""
    }
}

pub open spec fn block_label(m: &Module, f: usize, b: usize) -> Seq<char> {
    if f < m.funcs@.len() && b < m.funcs@[f as int].blocks@.len() {
        m.funcs@[f as int].blocks@[b as int].label@
    } else {
        ""@
    }
}

fn block_str(m: &Module, f: usize, b: usize) -> (r: &str)
    ensures
        r@ == block_label(m, f, b),
{
    if f < m.funcs.len() && b < m.funcs[f].blocks.len() {
        m.funcs[f].blocks[b].label.as_str()
    } else {
        ""
    }
}

pub open spec fn field_name(m: &Module, g: usize, r: usize) -> Seq<char> {
    if g < m.globals@.len() && r < m.globals@[g as int].refs@.len() {
        m.globals@[g as int].refs@[r as int].name@
    } else {
        ""@
    }
}

fn field_str(m: &Module, g: usize, r: usize) -> (s: &str)
    ensures
        s@ == field_name(m, g, r),
{
    if g < m.globals.len() && r < m.globals[g].refs.len() {
        m.globals[g].refs[r].name.as_str()
    } else {
        ""
    }
}

/// The text of a label.
pub open spec fn sym_text(m: &Module, s: Sym) -> Seq<char> {
    match s {
        Sym::Func(i) => func_name(m, i),
        Sym::Block(f, b) => func_name(m, f) + "_L"@ + block_label(m, f, b),
        Sym::Tmp(n) => "tmp"@ + number_text(n as nat, 10),
        Sym::Start => "__start"@,
        Sym::Main => "main"@,
        Sym::Reader(g, c) => if c == 0 {
            "__read_"@ + global_name(m, g)
        } else if c == 1 {
            "__read_"@ + global_name(m, g) + "_hi"@
        } else {
            "__read_"@ + global_name(m, g) + "_hi"@ + number_text(c as nat, 10)
        },
        Sym::Chunk(g, c) => if c == 0 {
            global_name(m, g)
        } else {
            global_name(m, g) + "_"@ + number_text(c as nat, 10)
        },
        Sym::Field(g, r) => field_name(m, g, r),
    }
}

pub fn push_sym(s: &mut String, m: &Module, sym: Sym)
    ensures
        final(s)@ == old(s)@ + sym_text(m, sym),
{
    match sym {
        Sym::Func(i) => s.append(func_str(m, i)),
        Sym::Block(f, b) => {
            s.append(func_str(m, f));
            s.append("_L");
            s.append(block_str(m, f, b));
        },
        Sym::Tmp(n) => {
            s.append("tmp");
            push_number(s, n, 10);
        },
        Sym::Start => s.append("__start"),
        Sym::Main => s.append("main"),
        Sym::Reader(g, c) => {
            s.append("__read_");
            s.append(global_str(m, g));
            if c == 1 {
                s.append("_hi");
            } else if c > 1 {
                s.append("_hi");
                push_number(s, c, 10);
            }
        },
        Sym::Chunk(g, c) => {
            s.append(global_str(m, g));
            if c > 0 {
                s.append("_");
                push_number(s, c, 10);
            }
        },
        Sym::Field(g, r) => s.append(field_str(m, g, r)),
    }
    assert(s@ =~= old(s)@ + sym_text(m, sym));
}

pub open spec fn imm_text(m: &Module, i: Imm) -> Seq<char> {
    match i {
        Imm::Byte(b) => "0x"@ + hex2_text(b as nat),
        Imm::Low(s) => "LOW("@ + sym_text(m, s) + ")"@,
        Imm::High(s) => "HIGH("@ + sym_text(m, s) + ")"@,
        Imm::Page(s) => "PAGE("@ + sym_text(m, s) + ")"@,
    }
}

fn push_imm(s: &mut String, m: &Module, i: Imm)
    ensures
        final(s)@ == old(s)@ + imm_text(m, i),
{
    match i {
        Imm::Byte(b) => {
            s.append("0x");
            push_hex2(s, b as u32);
        },
        Imm::Low(sym) => {
            s.append("LOW(");
            push_sym(s, m, sym);
            s.append(")");
        },
        Imm::High(sym) => {
            s.append("HIGH(");
            push_sym(s, m, sym);
            s.append(")");
        },
        Imm::Page(sym) => {
            s.append("PAGE(");
            push_sym(s, m, sym);
            s.append(")");
        },
    }
    assert(s@ =~= old(s)@ + imm_text(m, i));
}

/// The text of one line.
pub open spec fn line_text(m: &Module, texts: Seq<Seq<char>>, l: Line) -> Seq<char> {
    match l {
        Line::Byte(op, r, d) => "    "@ + op_text(op) + " "@ + reg_text(r) + dest_text(d),
        Line::Movwf(r) => "    MOVWF "@ + reg_text(r),
        Line::Clrf(r) => "    CLRF "@ + reg_text(r),
        Line::Bit(op, r, b, n) => "    "@ + bit_text(op) + " "@ + reg_text(r) + ", "@ + number_text(
            b as nat,
            10,
        ) + note_text(n),
        Line::Lit(op, i) => "    "@ + lit_text(op) + " "@ + imm_text(m, i),
        Line::Call(s) => "    CALL "@ + sym_text(m, s),
        Line::Goto(s) => "    GOTO "@ + sym_text(m, s),
        Line::Return => "    RETURN"@,
        Line::Retfie => "    RETFIE"@,
        Line::Sleep => "    SLEEP"@,
        Line::Nop => "    NOP"@,
        Line::Label(s) => sym_text(m, s) + ":"@,
        Line::Blank => ""@,
        Line::PhiNote(s) => "    ; phi copies for pred "@ + sym_text(m, s),
        Line::AsmStart => "; --- asm start ---"@,
        Line::AsmEnd => "; --- asm end ---"@,
        Line::Org(n) => "    org 0x"@ + hex4_text(n as nat),
        Line::Align => "    .align 256"@,
        Line::Table(g, n) => "    .table "@ + global_name(m, g) + " "@ + number_text(n as nat, 10),
        Line::Text(i) => if i < texts.len() {
            texts[i as int]
        } else {
            ""@
        },
    }
}

pub open spec fn texts_view(texts: Seq<String>) -> Seq<Seq<char>> {
    texts.map_values(|s: String| s@)
}

/// Appends the text of `l` to `s`.
pub fn push_line(s: &mut String, m: &Module, texts: &Vec<String>, l: Line)
    ensures
        final(s)@ == old(s)@ + line_text(m, texts_view(texts@), l),
{
    match l {
        Line::Byte(op, r, d) => {
            s.append("    ");
            s.append(op_str(op));
            s.append(" ");
            push_reg(s, r);
            s.append(
                match d {
                    Dest::W => ", W",
                    Dest::F => ", F",
                },
            );
        },
        Line::Movwf(r) => {
            s.append("    MOVWF ");
            push_reg(s, r);
        },
        Line::Clrf(r) => {
            s.append("    CLRF ");
            push_reg(s, r);
        },
        Line::Bit(op, r, b, n) => {
            s.append("    ");
            s.append(bit_str(op));
            s.append(" ");
            push_reg(s, r);
            s.append(", ");
            push_number(s, b as u32, 10);
            s.append(
                match n {
                    Note::Bare => "",
                    Note::C => " ; C",
                    Note::Z => " ; Z",
                },
            );
        },
        Line::Lit(op, i) => {
            s.append("    ");
            s.append(lit_str(op));
            s.append(" ");
            push_imm(s, m, i);
        },
        Line::Call(sym) => {
            s.append("    CALL ");
            push_sym(s, m, sym);
        },
        Line::Goto(sym) => {
            s.append("    GOTO ");
            push_sym(s, m, sym);
        },
        Line::Return => s.append("    RETURN"),
        Line::Retfie => s.append("    RETFIE"),
        Line::Sleep => s.append("    SLEEP"),
        Line::Nop => s.append("    NOP"),
        Line::Label(sym) => {
            push_sym(s, m, sym);
            s.append(":");
        },
        Line::Blank => s.append(""),
        Line::PhiNote(sym) => {
            s.append("    ; phi copies for pred ");
            push_sym(s, m, sym);
        },
        Line::AsmStart => s.append("; --- asm start ---"),
        Line::AsmEnd => s.append("; --- asm end ---"),
        Line::Org(n) => {
            s.append("    org 0x");
            push_hex4(s, n);
        },
        Line::Align => s.append("    .align 256"),
        Line::Table(g, n) => {
            s.append("    .table ");
            s.append(global_str(m, g));
            s.append(" ");
            push_number(s, n, 10);
        },
        Line::Text(i) => {
            if i < texts.len() {
                s.append(texts[i].as_str());
            } else {
                s.append("");
            }
        },
    }
    assert(s@ =~= old(s)@ + line_text(m, texts_view(texts@), l));
}

} // verus!
