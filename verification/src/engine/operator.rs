//! WebAssembly instructions, as the interpreter reads them.
//!
//! The set is every instruction the interpreter executes, the ones admission must tell
//! apart to refuse them, and one case for everything else, carrying its rendering. An
//! instruction keeps the immediates that some rule of this crate reads.
use vstd::prelude::*;

verus! {

/// The type of a structured control instruction.
#[derive(Debug, Clone, Copy, PartialEq, Eq, Structural)]
pub enum BlockType {
    /// Takes nothing and leaves nothing.
    Empty,
    /// Takes nothing and leaves one value.
    Value,
    /// Described by a function type.
    FuncType(u32),
}

/// An instruction.
#[derive(Debug, Clone, PartialEq, Eq)]
pub enum Operator {
    /// Traps.
    Unreachable,
    /// Does nothing.
    Nop,
    /// Opens a `block`.
    Block { blockty: BlockType },
    /// Opens a `loop`.
    Loop { blockty: BlockType },
    /// Opens a `if`.
    If { blockty: BlockType },
    /// Separates the branches of an `if`.
    Else,
    /// Closes a construct or the function.
    End,
    /// Branches.
    Br { relative_depth: u32 },
    /// Branches on a condition.
    BrIf { relative_depth: u32 },
    /// Branches by index.
    BrTable { targets: Vec<u32>, default: u32 },
    /// Returns.
    Return,
    /// Calls a function.
    Call { function_index: u32 },
    /// Calls through the table.
    CallIndirect { type_index: u32 },
    /// Discards a value.
    Drop,
    /// Picks one of two values.
    Select,
    /// Picks one of two values of a stated type.
    TypedSelect { reference: bool, text: String },
    /// Reads a local.
    LocalGet { local_index: u32 },
    /// Writes a local.
    LocalSet { local_index: u32 },
    /// Writes a local, keeping the value.
    LocalTee { local_index: u32 },
    /// Reads a global.
    GlobalGet { global_index: u32 },
    /// Writes a global.
    GlobalSet { global_index: u32 },
    /// Loads from memory.
    I32Load { offset: u64 },
    /// Loads from memory.
    I64Load { offset: u64 },
    /// Loads from memory.
    F32Load { offset: u64 },
    /// Loads from memory.
    F64Load { offset: u64 },
    /// Loads from memory.
    I32Load8S { offset: u64 },
    /// Loads from memory.
    I32Load8U { offset: u64 },
    /// Loads from memory.
    I32Load16S { offset: u64 },
    /// Loads from memory.
    I32Load16U { offset: u64 },
    /// Loads from memory.
    I64Load8S { offset: u64 },
    /// Loads from memory.
    I64Load8U { offset: u64 },
    /// Loads from memory.
    I64Load16S { offset: u64 },
    /// Loads from memory.
    I64Load16U { offset: u64 },
    /// Loads from memory.
    I64Load32S { offset: u64 },
    /// Loads from memory.
    I64Load32U { offset: u64 },
    /// Stores to memory.
    I32Store { offset: u64 },
    /// Stores to memory.
    I64Store { offset: u64 },
    /// Stores to memory.
    F32Store { offset: u64 },
    /// Stores to memory.
    F64Store { offset: u64 },
    /// Stores to memory.
    I32Store8 { offset: u64 },
    /// Stores to memory.
    I32Store16 { offset: u64 },
    /// Stores to memory.
    I64Store8 { offset: u64 },
    /// Stores to memory.
    I64Store16 { offset: u64 },
    /// Stores to memory.
    I64Store32 { offset: u64 },
    /// Reads the memory size.
    MemorySize,
    /// Grows memory.
    MemoryGrow,
    /// Fills memory.
    MemoryFill,
    /// Copies within memory.
    MemoryCopy,
    /// Copies a data segment into memory.
    MemoryInit { data_index: u32 },
    /// Drops a data segment.
    DataDrop { data_index: u32 },
    /// Drops an element segment.
    ElemDrop { elem_index: u32 },
    /// A constant.
    I32Const { value: i32 },
    /// A constant.
    I64Const { value: i64 },
    /// A constant.
    F32Const { value: u32 },
    /// A constant.
    F64Const { value: u64 },
    /// Numeric.
    I32Eqz,
    /// Numeric.
    I32Clz,
    /// Numeric.
    I32Ctz,
    /// Numeric.
    I32Popcnt,
    /// Numeric.
    I64ExtendI32S,
    /// Numeric.
    I64ExtendI32U,
    /// Numeric.
    I32Extend8S,
    /// Numeric.
    I32Extend16S,
    /// Numeric.
    F32ConvertI32S,
    /// Numeric.
    F32ConvertI32U,
    /// Numeric.
    F64ConvertI32S,
    /// Numeric.
    F64ConvertI32U,
    /// Numeric.
    F32ReinterpretI32,
    /// Numeric.
    I32Eq,
    /// Numeric.
    I32Ne,
    /// Numeric.
    I32LtS,
    /// Numeric.
    I32LtU,
    /// Numeric.
    I32GtS,
    /// Numeric.
    I32GtU,
    /// Numeric.
    I32LeS,
    /// Numeric.
    I32LeU,
    /// Numeric.
    I32GeS,
    /// Numeric.
    I32GeU,
    /// Numeric.
    I32Add,
    /// Numeric.
    I32Sub,
    /// Numeric.
    I32Mul,
    /// Numeric.
    I32DivS,
    /// Numeric.
    I32DivU,
    /// Numeric.
    I32RemS,
    /// Numeric.
    I32RemU,
    /// Numeric.
    I32And,
    /// Numeric.
    I32Or,
    /// Numeric.
    I32Xor,
    /// Numeric.
    I32Shl,
    /// Numeric.
    I32ShrS,
    /// Numeric.
    I32ShrU,
    /// Numeric.
    I32Rotl,
    /// Numeric.
    I32Rotr,
    /// Numeric.
    I64Eqz,
    /// Numeric.
    I64Clz,
    /// Numeric.
    I64Ctz,
    /// Numeric.
    I64Popcnt,
    /// Numeric.
    I32WrapI64,
    /// Numeric.
    I64Extend8S,
    /// Numeric.
    I64Extend16S,
    /// Numeric.
    I64Extend32S,
    /// Numeric.
    F32ConvertI64S,
    /// Numeric.
    F32ConvertI64U,
    /// Numeric.
    F64ConvertI64S,
    /// Numeric.
    F64ConvertI64U,
    /// Numeric.
    F64ReinterpretI64,
    /// Numeric.
    I64Eq,
    /// Numeric.
    I64Ne,
    /// Numeric.
    I64LtS,
    /// Numeric.
    I64LtU,
    /// Numeric.
    I64GtS,
    /// Numeric.
    I64GtU,
    /// Numeric.
    I64LeS,
    /// Numeric.
    I64LeU,
    /// Numeric.
    I64GeS,
    /// Numeric.
    I64GeU,
    /// Numeric.
    I64Add,
    /// Numeric.
    I64Sub,
    /// Numeric.
    I64Mul,
    /// Numeric.
    I64DivS,
    /// Numeric.
    I64DivU,
    /// Numeric.
    I64RemS,
    /// Numeric.
    I64RemU,
    /// Numeric.
    I64And,
    /// Numeric.
    I64Or,
    /// Numeric.
    I64Xor,
    /// Numeric.
    I64Shl,
    /// Numeric.
    I64ShrS,
    /// Numeric.
    I64ShrU,
    /// Numeric.
    I64Rotl,
    /// Numeric.
    I64Rotr,
    /// Numeric.
    F32Abs,
    /// Numeric.
    F32Neg,
    /// Numeric.
    F32Ceil,
    /// Numeric.
    F32Floor,
    /// Numeric.
    F32Trunc,
    /// Numeric.
    F32Nearest,
    /// Numeric.
    F32Sqrt,
    /// Numeric.
    F64PromoteF32,
    /// Numeric.
    I32ReinterpretF32,
    /// Numeric.
    I32TruncF32S,
    /// Numeric.
    I32TruncF32U,
    /// Numeric.
    I64TruncF32S,
    /// Numeric.
    I64TruncF32U,
    /// Numeric.
    I32TruncSatF32S,
    /// Numeric.
    I32TruncSatF32U,
    /// Numeric.
    I64TruncSatF32S,
    /// Numeric.
    I64TruncSatF32U,
    /// Numeric.
    F32Eq,
    /// Numeric.
    F32Ne,
    /// Numeric.
    F32Lt,
    /// Numeric.
    F32Gt,
    /// Numeric.
    F32Le,
    /// Numeric.
    F32Ge,
    /// Numeric.
    F32Add,
    /// Numeric.
    F32Sub,
    /// Numeric.
    F32Mul,
    /// Numeric.
    F32Div,
    /// Numeric.
    F32Min,
    /// Numeric.
    F32Max,
    /// Numeric.
    F32Copysign,
    /// Numeric.
    F64Abs,
    /// Numeric.
    F64Neg,
    /// Numeric.
    F64Ceil,
    /// Numeric.
    F64Floor,
    /// Numeric.
    F64Trunc,
    /// Numeric.
    F64Nearest,
    /// Numeric.
    F64Sqrt,
    /// Numeric.
    F32DemoteF64,
    /// Numeric.
    I64ReinterpretF64,
    /// Numeric.
    I32TruncF64S,
    /// Numeric.
    I32TruncF64U,
    /// Numeric.
    I64TruncF64S,
    /// Numeric.
    I64TruncF64U,
    /// Numeric.
    I32TruncSatF64S,
    /// Numeric.
    I32TruncSatF64U,
    /// Numeric.
    I64TruncSatF64S,
    /// Numeric.
    I64TruncSatF64U,
    /// Numeric.
    F64Eq,
    /// Numeric.
    F64Ne,
    /// Numeric.
    F64Lt,
    /// Numeric.
    F64Gt,
    /// Numeric.
    F64Le,
    /// Numeric.
    F64Ge,
    /// Numeric.
    F64Add,
    /// Numeric.
    F64Sub,
    /// Numeric.
    F64Mul,
    /// Numeric.
    F64Div,
    /// Numeric.
    F64Min,
    /// Numeric.
    F64Max,
    /// Numeric.
    F64Copysign,
    /// Touches a reference or the table.
    RefNull { text: String },
    /// Touches a reference or the table.
    RefIsNull { text: String },
    /// Touches a reference or the table.
    TableGet { text: String },
    /// Touches a reference or the table.
    TableSet { text: String },
    /// Touches a reference or the table.
    TableSize { text: String },
    /// Touches a reference or the table.
    TableGrow { text: String },
    /// Touches a reference or the table.
    TableFill { text: String },
    /// Touches a reference or the table.
    TableCopy { text: String },
    /// Touches a reference or the table.
    TableInit { text: String },
    /// Makes a function reference.
    RefFunc { function_index: u32, text: String },
    /// A tail call.
    ReturnCall { function_index: u32, text: String },
    /// Anything else.
    Other { text: String },
}

/// Are two instructions the same, their lists and renderings compared element by element?
pub open spec fn same_operator(a: Operator, b: Operator) -> bool {
    match (a, b) {
        (
            Operator::BrTable { targets: s, default: d },
            Operator::BrTable { targets: t, default: e },
        ) => s@ == t@ && d == e,
        (
            Operator::TypedSelect { reference: r, text: s },
            Operator::TypedSelect { reference: q, text: t },
        ) => r == q && s@ == t@,
        (Operator::RefNull { text: s }, Operator::RefNull { text: t }) => s@ == t@,
        (Operator::RefIsNull { text: s }, Operator::RefIsNull { text: t }) => s@ == t@,
        (Operator::TableGet { text: s }, Operator::TableGet { text: t }) => s@ == t@,
        (Operator::TableSet { text: s }, Operator::TableSet { text: t }) => s@ == t@,
        (Operator::TableSize { text: s }, Operator::TableSize { text: t }) => s@ == t@,
        (Operator::TableGrow { text: s }, Operator::TableGrow { text: t }) => s@ == t@,
        (Operator::TableFill { text: s }, Operator::TableFill { text: t }) => s@ == t@,
        (Operator::TableCopy { text: s }, Operator::TableCopy { text: t }) => s@ == t@,
        (Operator::TableInit { text: s }, Operator::TableInit { text: t }) => s@ == t@,
        (
            Operator::RefFunc { function_index: f, text: s },
            Operator::RefFunc { function_index: g, text: t },
        ) => f == g && s@ == t@,
        (
            Operator::ReturnCall { function_index: f, text: s },
            Operator::ReturnCall { function_index: g, text: t },
        ) => f == g && s@ == t@,
        (Operator::Other { text: s }, Operator::Other { text: t }) => s@ == t@,
        _ => a == b,
    }
}

/// Are two sequences of instructions the same?
pub open spec fn same_operators(a: Seq<Operator>, b: Seq<Operator>) -> bool {
    a.len() == b.len() && forall|i: int| 0 <= i < a.len() ==> same_operator(#[trigger] a[i], b[i])
}

} // verus!
