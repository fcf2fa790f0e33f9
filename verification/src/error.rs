//! Why a module cannot be lowered.
use vstd::prelude::*;

verus! {

#[derive(Clone, Copy, PartialEq, Eq, Structural, Debug)]
pub enum IselError {
    /// A literal pointer that is not `0x` and a 16-bit hexadecimal number.
    MalformedLiteralPointer,
    /// A pointer that is not `@global`, `%reg` or a literal.
    MalformedPointer,
    /// A file register beyond the five-bit operand field.
    FileRegisterRange,
    /// A register without a slot in the address map.
    NoSlot,
    /// A global without an address in the map.
    NoAddress,
    /// A name that no global has.
    UnknownGlobal,
    /// A pointer register that was never resolved.
    UnresolvedPointer,
    /// Inline assembly with an operand derived by pointer arithmetic.
    AsmDerivedOperand,
    /// Inline assembly with a placeholder beyond its operands.
    AsmPlaceholderRange,
    /// Inline assembly with an operand that is neither `@global` nor `%local`.
    AsmMalformedOperand,
    /// A write to a constant in flash.
    StoreToConst,
    /// A data address beyond what the core can hold in a pointer.
    DataSpaceRange,
    /// A pointer operand that is a constant.
    ConstPointer,
    /// A pointer offset that does not fit its byte.
    OffsetRange,
    /// A pointer with a constant offset and run-time terms in value position.
    OffsetWithTerms,
    /// A pointer with more run-time terms than the shape supports.
    TooManyTerms,
    /// The address of a plain slot in value position.
    SlotAddressValue,
    /// An operation on two constants.
    ConstantFolding,
    /// A conditional branch on the address of a global.
    BranchOnGlobal,
    /// A select on the address of a global.
    SelectOnGlobal,
    /// A select arm that is not a single address.
    ComputedSelectArm,
    /// A two-operand instruction without a register operand.
    NeedsRegister,
    /// A two-operand instruction on the address of a global.
    GlobalOperand,
    /// A call of a function that the module lacks.
    UnknownFunction,
    /// A struct argument for a parameter that takes none, or of another size.
    ByvalMismatch,
    /// A result pointer for a parameter that takes none.
    SretMismatch,
    /// A result pointer that is not a plain global or slot.
    SretTarget,
    /// A pointer argument for a parameter that is not two bytes wide.
    PointerParamWidth,
    /// A constant too large to be copied to RAM, used as an argument.
    ConstTooLarge,
    /// A literal pointer argument other than null.
    NonNullConstPointer,
    /// A scalar argument narrower than its parameter.
    NarrowArgument,
    /// A call result without a type.
    UntypedCall,
    /// A delay whose count is not a compile-time constant.
    DelayCount,
    /// A feature this core does not lower: variadic functions.
    Variadic,
    /// A feature this core does not lower: copies of run-time length.
    DynamicMemcpy,
    /// A feature this core does not lower: reads of constant tables.
    ConstTableRead,
    /// A feature this core does not lower: 32-bit arithmetic.
    WideArithmetic,
    /// A feature this core does not lower: runtime routines.
    RuntimeRoutine,
    /// An operation that legalisation has to rewrite.
    NotLegalized,
    /// A shift whose count is not a constant.
    VariableShift,
    /// A constant shift count beyond the width.
    ShiftRange,
    /// An operation the selector does not know at this type.
    UnsupportedBinop,
    /// A zero extension that narrows.
    ZextNarrows,
    /// A pointer conversion that changes the width.
    IntToPtrWidth,
    /// A sign extension that does not widen, or from `i1`.
    SextWidth,
    /// A sign extension of a constant.
    SextConst,
    /// A truncation that does not narrow.
    TruncWidens,
    /// A floating-point instruction.
    FloatInstruction,
    /// An instruction out of place.
    UnsupportedInstruction,
    /// A function without blocks.
    NoBlocks,
    /// A branch to a label no block has.
    UnknownBlock,
    /// Phi copies that form a cycle.
    PhiCycle,
    /// A naked function with an instruction other than assembly.
    NakedBody,
    /// An interrupt handler on a core without interrupts.
    InterruptOnBaseline,
    /// More interrupt handlers than vectors.
    TooManyHandlers,
    /// An interrupt handler that returns a value.
    HandlerReturnsValue,
    /// A device without common RAM.
    NoCommonRam,
    /// Common RAM too small for the fixed bytes.
    CommonRamTooSmall,
    /// A program past the reach of `CALL`.
    CallCeiling,
    /// An operand address beyond sixteen bits.
    AddressOverflow,
    /// More labels than the counter can number.
    LabelsExhausted,
    /// An object outside the general-purpose RAM.
    OutsideRam,
    /// A result pointer target that straddles a bank.
    SretStraddles,
    /// A read of a large table with an index other than one 16-bit register.
    LargeTableIndex,
    /// A large table with an element size other than one, two or four.
    LargeTableScale,
    /// A register without a definition.
    NoDefinition,
    /// A slot that is neither a parameter nor a stack slot.
    NoSpan,
    /// A run-time copy with a pointer it cannot address.
    MemcpyPointer,
    /// A run-time copy through a slot that holds an address.
    MemcpyIndirect,
    /// A variadic argument without a type.
    UntypedVariadic,
    /// Variadic arguments past their region.
    VariadicOverflow,
    /// A variadic region that crosses a 256-byte pair.
    VariadicRegion,
    /// A routine slot outside the banked RAM.
    RoutineSlot,
    /// Routine slots in more than one bank.
    RoutineStraddles,
    /// A name that is not a runtime routine.
    NotARoutine,
    /// Text with a malformed directive or an address that overflows.
    MalformedText,
    /// A function that the banked text does not hold.
    MissingLabel,
    /// A function larger than a page.
    FunctionTooLarge,
    /// A handler that leaves no room for the reset code in page zero.
    HandlerTooLarge,
    /// A program beyond the device's flash.
    FlashExhausted,
    /// A function or reader that spans two pages.
    SpansPages,
    /// Two tables that claim one label.
    LabelCollision,
    /// A constant without bytes.
    EmptyTable,
    /// A table beyond a 16-bit index.
    TableTooLarge,
}

} // verus!
