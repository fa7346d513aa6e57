use vstd::prelude::*;

use crate::types::{LabelKind, SectionTy, ValType};

verus! {

/// Every way in which decoding, validating, instantiating or invoking can fail.
#[derive(Debug, Clone, Copy, PartialEq, Eq)]
pub enum Error {
    /// The byte buffer ended in the middle of an item.
    Eof,
    /// A variable-length integer is too long or its value does not fit its width.
    MalformedVarInt,
    /// The first four bytes are not the module magic.
    InvalidMagic,
    /// The four bytes after the magic are not the supported version.
    InvalidVersion,
    /// A section id that names no known section kind.
    InvalidSectionType(u8),
    /// A section appeared after a section that must follow it.
    SectionOutOfOrder(SectionTy),
    /// A section's contents did not end exactly where its header said.
    SectionSizeMismatch(SectionTy),
    /// A section kind that is recognised but cannot be decoded yet.
    UnsupportedSection(SectionTy),
    /// The code section holds another number of bodies than the function section declares.
    FunctionCountMismatch,
    /// A byte that should be a value type is not one.
    InvalidValType(u8),
    /// A function type entry does not start with the function type tag.
    InvalidFuncTypeTag(u8),
    /// An import descriptor with an unknown kind.
    InvalidImportDesc(u8),
    /// An export descriptor with an unknown kind.
    InvalidExportDesc(u8),
    /// A limits entry with an unknown flag byte.
    InvalidLimitsType(u8),
    /// A mutability byte that is neither constant nor variable.
    InvalidMut(u8),
    /// A byte that should be a reference type is not one.
    InvalidRefType(u8),
    /// A constant expression that is not one supported instruction followed by `end`.
    InvalidConstExpr,
    /// A type index beyond the type section.
    InvalidTypeIdx,
    /// A function body declares more locals than the runtime supports.
    TooManyLocals,
    /// A popped value has another type than the instruction needs
    /// (`None` when nothing was left to pop).
    InvalidValidationStackValType(Option<ValType>),
    /// A value was expected where a control-flow label stands.
    FoundLabel(LabelKind),
    /// The values at the end of a scope differ from its declared results.
    EndInvalidValueStack,
    /// A local index beyond the function's locals.
    InvalidLocalIdx,
    /// A block type that is neither empty nor a single value type.
    InvalidBlockType(u8),
    /// An `else` that does not close an `if`.
    ElseWithoutIf,
    /// An opcode that the validator does not know.
    UnsupportedInstruction(u8),
    /// A function body whose instructions do not end exactly at the body's end.
    CodeSizeMismatch,
    /// A function index beyond the store.
    InvalidFuncIdx,
    /// The arguments of a call differ from the function's parameter types.
    InvalidParamTypes,
    /// The interpreter found fewer operands than an instruction needs.
    OperandStackUnderflow,
    /// The interpreter found an operand of another type than an instruction needs.
    OperandTypeMismatch,
}

} // verus!
