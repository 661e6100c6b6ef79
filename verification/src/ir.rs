//! The intermediate representation that lowering produces: typed values,
//! instructions, and basic blocks grouped into one compilation unit per
//! module. A backend turns a verified, linked unit into object code; this
//! crate only builds and checks the structure.
//!
//! Registers and storage slots are named by the position of their
//! defining instruction, as in single-static-assignment form: the result
//! of the instruction at block `b`, index `i` is the register `(b, i)`,
//! and the slot made by an `Alloca` there is the handle `(b, i)`. Blocks
//! only ever grow during lowering, so such a handle stays valid for the
//! rest of the enclosing function body.

use vstd::prelude::*;

use crate::ast::{MathOperator, Number};
use crate::types::ValidType;

verus! {

/// A machine-level storage type: doubles, one-bit integers, bytes, and
/// pointers to any of these.
#[derive(Debug, PartialEq, Eq)]
pub enum IrType {
    F64,
    I1,
    I8,
    Ptr(Box<IrType>),
}

/// The machine-level type a value of a language type is stored as:
/// numbers as doubles, booleans as one-bit integers, strings as pointers
/// to bytes, arrays as pointers to their element storage.
pub open spec fn spec_ir_type(t: ValidType) -> IrType
    decreases t,
{
    match t {
        ValidType::Number => IrType::F64,
        ValidType::Boolean => IrType::I1,
        ValidType::String => IrType::Ptr(Box::new(IrType::I8)),
        ValidType::Array(inner) => IrType::Ptr(Box::new(spec_ir_type(*inner))),
    }
}

impl ValidType {
    /// The storage type for values of this language type.
    pub fn ir_type(&self) -> (r: IrType)
        ensures
            r == spec_ir_type(*self),
        decreases *self,
    {
        match self {
            ValidType::Number => IrType::F64,
            ValidType::Boolean => IrType::I1,
            ValidType::String => IrType::Ptr(Box::new(IrType::I8)),
            ValidType::Array(inner) => IrType::Ptr(Box::new((&**inner).ir_type())),
        }
    }
}

/// The position of an instruction inside a unit's entry function: which
/// block it stands in, and where. Doubles as the name of the register or
/// storage slot that the instruction defines.
#[derive(Debug, Clone, Copy, PartialEq, Eq, Hash, Structural)]
pub struct InstrId {
    pub block: usize,
    pub idx: usize,
}

/// A value an instruction can consume: a constant, a reference to a
/// global string buffer, or the result of an earlier instruction.
#[derive(Debug, PartialEq, Eq)]
pub enum IrValue {
    /// A double constant, carried as its IEEE-754 bit pattern.
    ConstNumber(Number),
    /// A one-bit integer constant.
    ConstBool(bool),
    /// The all-zero value of the given storage type.
    ConstZero(IrType),
    /// A pointer to the global string buffer with this index.
    GlobalStr(usize),
    /// The result of the instruction at this position.
    Reg(InstrId),
}

/// One non-terminating instruction of a basic block. An instruction's
/// result, where it has one, is named by the instruction's own position.
#[derive(Debug, PartialEq, Eq)]
pub enum Instr {
    /// Allocate one mutable storage slot of the given type; the slot's
    /// handle is this instruction's position.
    Alloca { ty: IrType },
    /// Write a value into the slot allocated at `slot`.
    Store { slot: InstrId, value: IrValue },
    /// Read the current value of the slot allocated at `slot`.
    Load { slot: InstrId },
    /// A double-precision arithmetic operation.
    FloatBin { op: MathOperator, lhs: IrValue, rhs: IrValue },
    /// Convert a double to a signed 64-bit integer.
    FloatToInt { value: IrValue },
    /// Bitwise exclusive or of two 64-bit integers.
    IntXor { lhs: IrValue, rhs: IrValue },
    /// Convert a signed 64-bit integer back to a double.
    IntToFloat { value: IrValue },
    /// Call a function from the unit's function table; any return value
    /// is discarded.
    Call { callee: String, args: Vec<IrValue> },
}

/// The single control-flow instruction that ends a basic block.
#[derive(Debug, Clone, Copy, PartialEq, Eq, Structural)]
pub enum Terminator {
    /// An unconditional jump to the block with this index.
    Jump(usize),
    /// Return from the entry function with the default success value.
    Ret,
}

/// A straight-line sequence of instructions ending in at most one
/// terminator; a finished unit has exactly one per block.
#[derive(Debug, PartialEq, Eq)]
#[verifier::ext_equal]
pub struct Block {
    pub instrs: Vec<Instr>,
    pub terminator: Option<Terminator>,
}

/// The self-contained result of lowering one module: its symbol table,
/// the basic blocks of its synthetic entry function, and its global
/// string constants.
#[derive(Debug)]
#[verifier::ext_equal]
pub struct CompilationUnit {
    /// The unit's name: the module path joined with dots.
    pub name: String,
    /// Every function symbol declared in the unit and callable from it.
    pub functions: Vec<String>,
    /// The name of the unit's synthetic entry function.
    pub entry: String,
    /// The entry function's basic blocks; index 0 is its entry block.
    pub blocks: Vec<Block>,
    /// Global string constants, referenced by index.
    pub globals: Vec<String>,
}

/// Whether a terminator only jumps to blocks that exist among `n` blocks.
pub open spec fn spec_terminator_ok(t: Terminator, n: nat) -> bool {
    match t {
        Terminator::Jump(j) => j < n,
        Terminator::Ret => true,
    }
}

/// A well-formed finished block among `n` blocks: exactly one terminator,
/// and it references only existing blocks.
pub open spec fn spec_block_wf(b: Block, n: nat) -> bool {
    match b.terminator {
        Some(t) => spec_terminator_ok(t, n),
        None => false,
    }
}

/// Internal well-formedness of a finished unit: every block has exactly
/// one terminator and all referenced blocks exist.
pub open spec fn spec_unit_wf(u: CompilationUnit) -> bool {
    forall|i: int| 0 <= i < u.blocks.len() ==> spec_block_wf(#[trigger] u.blocks[i], u.blocks@.len())
}

/// Check the internal well-formedness of a finished unit. Lowering
/// guarantees this by construction; a failed check marks a defect of the
/// compiler itself, not of the compiled source.
pub fn verify_unit(u: &CompilationUnit) -> (r: bool)
    ensures
        r == spec_unit_wf(*u),
{
    let n = u.blocks.len();
    let mut i: usize = 0;
    while i < n
        invariant
            i <= n,
            n == u.blocks.len(),
            forall|k: int| 0 <= k < i ==> spec_block_wf(#[trigger] u.blocks[k], n as nat),
        decreases n - i,
    {
        match &u.blocks[i].terminator {
            None => {
                return false;
            },
            Some(Terminator::Jump(j)) => {
                if !(*j < n) {
                    return false;
                }
            },
            Some(Terminator::Ret) => {},
        }
        i = i + 1;
    }
    true
}

} // verus!
