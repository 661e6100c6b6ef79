//! The error taxonomy of the compiler.
//!
//! Errors fall in two tiers: user-facing source errors, which are reported
//! and halt the compilation gracefully, and internal invariant violations,
//! which indicate a defect of the compiler itself.

use vstd::prelude::*;

verus! {

/// Every way a compilation can fail.
#[derive(Debug, Clone, PartialEq, Eq)]
pub enum CompileError {
    /// A declared type's root name is not part of the type universe.
    UnknownType(String),
    /// `Null` was written where a declarable type is expected; it is a
    /// value marker, not a type.
    NullIsNotAType,
    /// A `Null` term was asked for its type; it has none.
    NullHasNoType,
    /// An identifier term was asked for its type without a scope to
    /// resolve it in.
    UnknowableIdentType,
    /// An initializer or assigned value disagrees with the declared type.
    TypeMismatch,
    /// A reference to a variable that was never declared in the current
    /// scope.
    UndefinedVariable(String),
    /// A call to a function name absent from the global function table.
    UndefinedFunction(String),
    /// A function table lookup returned a degenerate placeholder entry.
    /// Internal bug class.
    CorruptFunction(String),
    /// A `Break` statement outside of any loop.
    BreakOutsideLoop,
    /// A non-numeric-literal operand reached arithmetic lowering.
    /// Internal bug class: the grammar layer constrains binary-expression
    /// operands to numeric literals.
    InvalidOperand,
    /// Two linked units define the same symbol.
    DuplicateSymbol(String),
    /// An imported module's source file is not available.
    ModuleNotFound(String),
    /// A lowered unit failed its post-lowering well-formedness check.
    /// Internal bug class: lowering establishes well-formedness by
    /// construction.
    MalformedUnit,
    /// A language construct that the current subset defers; encountering
    /// one fails fast rather than being silently skipped.
    Unimplemented,
}

impl CompileError {
    /// True for the errors of the internal "compiler bug" tier, as opposed
    /// to user-facing source errors.
    pub fn is_internal(&self) -> (r: bool)
        ensures
            r == (self is CorruptFunction || self is InvalidOperand || self is MalformedUnit),
    {
        match self {
            CompileError::CorruptFunction(_) => true,
            CompileError::InvalidOperand => true,
            CompileError::MalformedUnit => true,
            _ => false,
        }
    }
}

} // verus!
