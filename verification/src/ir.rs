//! The module the selectors read: functions in SSA form, globals, and the
//! pointers that a pointer-folding pass resolved.
use vstd::prelude::*;

verus! {

/// A value type. `F32` is the four-byte single-precision slot.
#[derive(Clone, Copy, PartialEq, Eq, Structural, Debug)]
pub enum Ty {
    I1,
    I8,
    I16,
    I32,
    F32,
}

impl Ty {
    /// The bytes a value of this type occupies; an `i1` takes a whole byte.
    #[verifier::allow_in_spec]
    pub fn bytes(self) -> u8
        returns
            (match self {
                Ty::I1 => 1u8,
                Ty::I8 => 1u8,
                Ty::I16 => 2u8,
                Ty::I32 => 4u8,
                Ty::F32 => 4u8,
            }),
    {
        match self {
            Ty::I1 => 1,
            Ty::I8 => 1,
            Ty::I16 => 2,
            Ty::I32 => 4,
            Ty::F32 => 4,
        }
    }
}

/// A handle to a source location in the driver's location table.
#[derive(Clone, Copy, PartialEq, Eq, Structural, Debug)]
pub struct SrcLoc(pub u32);

/// An operand: an SSA register, the address of a global, or a constant.
#[derive(Debug)]
pub enum Val {
    Reg(String),
    Global(String),
    Const(i64),
}

#[derive(Clone, Copy, PartialEq, Eq, Structural, Debug)]
pub enum BinOp {
    Add,
    Sub,
    And,
    Or,
    Xor,
    Mul,
    UDiv,
    URem,
    SDiv,
    SRem,
    Shl,
    LShr,
    AShr,
}

/// An integer comparison predicate.
#[derive(Clone, Copy, PartialEq, Eq, Structural, Debug)]
pub enum Pred {
    Eq,
    Ne,
    Ult,
    Ule,
    Ugt,
    Uge,
    Slt,
    Sle,
    Sgt,
    Sge,
}

/// `dst = load ty, ptr`; `ptr` is `@global`, `%reg` or a `0x` literal.
#[derive(Debug)]
pub struct Load {
    pub dst: String,
    pub ty: Ty,
    pub ptr: String,
    pub loc: Option<SrcLoc>,
}

/// `store ty val, ptr`; `ptr` is written as in [`Load`].
#[derive(Debug)]
pub struct Store {
    pub ty: Ty,
    pub val: Val,
    pub ptr: String,
    pub loc: Option<SrcLoc>,
}

/// A pointer computation; it emits nothing, its uses read the folded pointer.
#[derive(Debug)]
pub struct Gep {
    pub dst: String,
    pub loc: Option<SrcLoc>,
}

/// A stack slot of `size` bytes, placed by the address map.
#[derive(Debug)]
pub struct Alloca {
    pub dst: String,
    pub size: u16,
    pub loc: Option<SrcLoc>,
}

#[derive(Debug)]
pub enum MemLen {
    Const(u8),
    Reg(Val),
}

#[derive(Debug)]
pub struct Memcpy {
    pub dst: Val,
    pub src: Val,
    pub len: MemLen,
    pub loc: Option<SrcLoc>,
}

#[derive(Debug)]
pub struct Bin {
    pub dst: String,
    pub op: BinOp,
    pub ty: Ty,
    pub a: Val,
    pub b: Val,
    pub loc: Option<SrcLoc>,
}

#[derive(Debug)]
pub struct Freeze {
    pub dst: String,
    pub ty: Ty,
    pub val: Val,
    pub loc: Option<SrcLoc>,
}

/// A width change from `from` to `to`.
#[derive(Debug)]
pub struct Conv {
    pub dst: String,
    pub from: Ty,
    pub to: Ty,
    pub val: Val,
    pub loc: Option<SrcLoc>,
}

#[derive(Debug)]
pub struct Icmp {
    pub dst: String,
    pub pred: Pred,
    pub ty: Ty,
    pub a: Val,
    pub b: Val,
    pub loc: Option<SrcLoc>,
}

/// `dst = cond ? a : b`; `ptr` marks a select between pointers.
#[derive(Debug)]
pub struct Select {
    pub dst: String,
    pub cond: Val,
    pub ty: Ty,
    pub a: Val,
    pub b: Val,
    pub ptr: bool,
    pub loc: Option<SrcLoc>,
}

/// One call argument. A pointer carries no type; `byval` gives the size of
/// a struct passed by value, `sret` marks the result pointer.
#[derive(Debug)]
pub struct CallArg {
    pub val: Val,
    pub ty: Option<Ty>,
    pub byval: Option<u8>,
    pub sret: bool,
}

/// A direct call of `func`, or, when `callees` is not empty, a call through
/// the function pointer held in register `func`.
#[derive(Debug)]
pub struct Call {
    pub dst: Option<String>,
    pub ty: Option<Ty>,
    pub func: String,
    pub args: Vec<CallArg>,
    pub callees: Vec<String>,
    pub loc: Option<SrcLoc>,
}

#[derive(Debug)]
pub struct VaStart {
    pub list: String,
    pub loc: Option<SrcLoc>,
}

#[derive(Debug)]
pub struct VaArg {
    pub dst: String,
    pub ptr: String,
    pub ty: Ty,
    pub loc: Option<SrcLoc>,
}

/// A memory operand of inline assembly: `@global` or `%local`.
#[derive(Debug)]
pub struct AsmOperand {
    pub ptr: String,
}

#[derive(Debug)]
pub struct Asm {
    pub template: String,
    pub operands: Vec<AsmOperand>,
    pub loc: Option<SrcLoc>,
}

/// A floating-point instruction; only its result register and width matter.
#[derive(Debug)]
pub struct FloatOp {
    pub dst: String,
    pub to: Ty,
    pub loc: Option<SrcLoc>,
}

#[derive(Debug)]
pub struct Incoming {
    pub val: Val,
    pub pred: String,
}

#[derive(Debug)]
pub struct Phi {
    pub dst: String,
    pub ty: Ty,
    pub incoming: Vec<Incoming>,
    pub loc: Option<SrcLoc>,
}

#[derive(Debug)]
pub struct Br {
    pub target: String,
    pub loc: Option<SrcLoc>,
}

#[derive(Debug)]
pub struct BrCond {
    pub cond: Val,
    pub t: String,
    pub f: String,
    pub loc: Option<SrcLoc>,
}

#[derive(Debug)]
pub struct Ret {
    pub val: Option<(Ty, Val)>,
    pub loc: Option<SrcLoc>,
}

#[derive(Debug)]
pub enum Inst {
    Load(Load),
    Store(Store),
    Gep(Gep),
    Alloca(Alloca),
    Memcpy(Memcpy),
    Bin(Bin),
    Freeze(Freeze),
    Zext(Conv),
    Sext(Conv),
    Trunc(Conv),
    IntToPtr(Conv),
    Icmp(Icmp),
    Select(Select),
    Call(Call),
    VaStart(VaStart),
    VaArg(VaArg),
    Asm(Asm),
    FloatBin(FloatOp),
    Fcmp(FloatOp),
    FloatConv(FloatOp),
    Phi(Phi),
    Br(Br),
    BrCond(BrCond),
    Ret(Ret),
}

impl Inst {
    /// The source location of this instruction, if it has one.
    #[verifier::allow_in_spec]
    pub fn loc(&self) -> Option<SrcLoc>
        returns
            (match *self {
                Inst::Load(x) => x.loc,
                Inst::Store(x) => x.loc,
                Inst::Gep(x) => x.loc,
                Inst::Alloca(x) => x.loc,
                Inst::Memcpy(x) => x.loc,
                Inst::Bin(x) => x.loc,
                Inst::Freeze(x) => x.loc,
                Inst::Zext(x) => x.loc,
                Inst::Sext(x) => x.loc,
                Inst::Trunc(x) => x.loc,
                Inst::IntToPtr(x) => x.loc,
                Inst::Icmp(x) => x.loc,
                Inst::Select(x) => x.loc,
                Inst::Call(x) => x.loc,
                Inst::VaStart(x) => x.loc,
                Inst::VaArg(x) => x.loc,
                Inst::Asm(x) => x.loc,
                Inst::FloatBin(x) => x.loc,
                Inst::Fcmp(x) => x.loc,
                Inst::FloatConv(x) => x.loc,
                Inst::Phi(x) => x.loc,
                Inst::Br(x) => x.loc,
                Inst::BrCond(x) => x.loc,
                Inst::Ret(x) => x.loc,
            }),
    {
        match self {
            Inst::Load(x) => x.loc,
            Inst::Store(x) => x.loc,
            Inst::Gep(x) => x.loc,
            Inst::Alloca(x) => x.loc,
            Inst::Memcpy(x) => x.loc,
            Inst::Bin(x) => x.loc,
            Inst::Freeze(x) => x.loc,
            Inst::Zext(x) => x.loc,
            Inst::Sext(x) => x.loc,
            Inst::Trunc(x) => x.loc,
            Inst::IntToPtr(x) => x.loc,
            Inst::Icmp(x) => x.loc,
            Inst::Select(x) => x.loc,
            Inst::Call(x) => x.loc,
            Inst::VaStart(x) => x.loc,
            Inst::VaArg(x) => x.loc,
            Inst::Asm(x) => x.loc,
            Inst::FloatBin(x) => x.loc,
            Inst::Fcmp(x) => x.loc,
            Inst::FloatConv(x) => x.loc,
            Inst::Phi(x) => x.loc,
            Inst::Br(x) => x.loc,
            Inst::BrCond(x) => x.loc,
            Inst::Ret(x) => x.loc,
        }
    }

    /// Whether control leaves the block here.
    #[verifier::allow_in_spec]
    pub fn ends_block(&self) -> bool
        returns
            (match *self {
                Inst::Br(_) => true,
                Inst::BrCond(_) => true,
                Inst::Ret(_) => true,
                _ => false,
            }),
    {
        match self {
            Inst::Br(_) => true,
            Inst::BrCond(_) => true,
            Inst::Ret(_) => true,
            _ => false,
        }
    }
}

/// A parameter slot. `ptr` marks a plain pointer, whose slot holds a run-time
/// address; `byval` gives the size of a struct copy, `sret` the result pointer.
#[derive(Debug)]
pub struct Param {
    pub name: String,
    pub width: u8,
    pub ptr: bool,
    pub byval: Option<u8>,
    pub sret: bool,
}

#[derive(Debug)]
pub struct Block {
    pub label: String,
    pub insts: Vec<Inst>,
}

#[derive(Debug)]
pub struct Func {
    pub name: String,
    pub params: Vec<Param>,
    pub blocks: Vec<Block>,
    pub naked: bool,
    pub isr: bool,
}

/// An address field in a global's initialiser: byte `offset` holds one byte
/// of the address of `name`.
#[derive(Debug)]
pub struct Ref {
    pub offset: usize,
    pub name: String,
}

#[derive(Debug)]
pub struct Global {
    pub name: String,
    pub is_const: bool,
    pub size: u16,
    pub bytes: Vec<u8>,
    pub refs: Vec<Ref>,
}

#[derive(Debug)]
pub struct Module {
    pub funcs: Vec<Func>,
    pub globals: Vec<Global>,
    pub module_asm: Vec<String>,
}

/// Where a folded pointer starts: a global, or a slot of the current
/// function. The flag marks a slot that holds the address of its object.
#[derive(Debug)]
pub enum Base {
    Global(String),
    Slot(String, bool),
}

/// A run-time summand of a pointer: `scale` times the value of `reg`.
#[derive(Debug)]
pub struct Term {
    pub scale: u8,
    pub reg: String,
}

/// A fully folded pointer: `base + k + sum of terms`.
#[derive(Debug)]
pub struct Pointer {
    pub base: Base,
    pub k: u8,
    pub terms: Vec<Term>,
}

} // verus!
