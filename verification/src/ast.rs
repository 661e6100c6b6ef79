//! The abstract syntax tree consumed by the lowering engine.
//!
//! Trees of these nodes are produced by an external front end (a grammar
//! driven parser together with a mechanical parse-tree-to-AST conversion);
//! the lowering engine only reads them.

use vstd::prelude::*;

verus! {

/// An identifier of the source language: a plain owned string.
/// Identity is string equality.
#[derive(Debug, Clone)]
pub struct Ident(pub String);

impl View for Ident {
    type V = Seq<char>;

    open spec fn view(&self) -> Seq<char> {
        self.0@
    }
}

/// A numeric literal of the source language. The language's numbers are
/// IEEE-754 doubles; the lowering engine never computes with them, it only
/// embeds them into emitted constants, so a literal is carried as its
/// 64-bit pattern.
#[derive(Debug, Clone, Copy, PartialEq, Eq, Structural)]
pub struct Number {
    pub bits: u64,
}

/// A type expression as written in the source: a root name applied to
/// zero or more generic arguments, e.g. `Array<Number>`. Not yet
/// validated; see `ValidType`.
#[derive(Debug)]
pub struct Type {
    pub generics: Vec<Type>,
    pub root_type: Ident,
}

/// A variable or function header: a name together with its declared type.
#[derive(Debug)]
pub struct Declaration {
    pub ident: Ident,
    pub ty: Type,
}

/// An unconditional loop statement holding its body.
#[derive(Debug)]
pub struct Loop(pub Tree);

/// An early exit from the innermost enclosing loop.
#[derive(Debug, Clone)]
pub struct Break;

/// A function declaration with its modifiers, header, arguments and body.
#[derive(Debug)]
pub struct Function {
    pub modifiers: Vec<FunctionMod>,
    pub declaration: Declaration,
    pub args: Vec<Declaration>,
    pub body: Tree,
}

#[derive(Debug, Clone)]
pub enum FunctionMod {
    Debug,
    Public,
}

/// A call statement: a callee name and its argument expressions.
#[derive(Debug)]
pub struct Call {
    pub ident: Ident,
    pub args: Vec<Expr>,
}

#[derive(Debug)]
pub struct Throw(pub Expr);

/// An import directive naming one module to pull into the compilation.
/// The target is a single module-path component; the module resolver joins
/// it onto the importing module's own path.
#[derive(Debug, Clone)]
pub struct Import(pub String);

/// A named module statement: a legacy surface form that the lowering
/// engine does not consume.
#[derive(Debug, Clone)]
pub struct Module {
    pub ident: Ident,
}

#[derive(Debug)]
pub struct TryCatch {
    pub try_block: Try,
    pub catch_block: Catch,
}

#[derive(Debug)]
pub struct Try(pub Tree);

#[derive(Debug)]
pub struct Catch(pub Option<Ident>, pub Tree);

/// A variable declaration statement with its initializer expression.
#[derive(Debug)]
pub struct Variable {
    pub modifiers: Vec<VariableMod>,
    pub declaration: Declaration,
    pub value: Expr,
}

#[derive(Debug, Clone)]
pub enum VariableMod {
    Public,
}

/// A user type definition: a legacy surface form that the lowering engine
/// does not consume.
#[derive(Debug, Clone)]
pub struct TypeDef {}

/// An assignment to an already declared variable.
#[derive(Debug)]
pub struct Assignment {
    pub ident: Ident,
    pub value: Expr,
}

#[derive(Debug)]
pub struct IfBlock {
    pub if_nodes: Vec<IfNode>,
}

#[derive(Debug)]
pub enum IfNode {
    Case(IfCase),
    Else(Else),
}

#[derive(Debug)]
pub struct IfCase {
    pub body: Tree,
    pub expr: Expr,
}

#[derive(Debug)]
pub struct Else {
    pub body: Tree,
}

#[derive(Debug)]
pub struct Class {
    pub ident: Ident,
    pub body: Tree,
}

#[derive(Debug)]
pub struct Return(pub Expr);

/// The arithmetic operators of a binary expression chain.
#[derive(Debug, Clone, Copy, PartialEq, Eq, Structural)]
pub enum MathOperator {
    Add,
    Subtract,
    Multiply,
    Divide,
    XOR,
    Modulus,
}

/// The comparison operators of a conditional expression chain.
#[derive(Debug, Clone, Copy, PartialEq, Eq, Structural)]
pub enum ConditionalOperator {
    Equality,
    AntiEquality,
}

/// A literal or reference value.
#[derive(Debug)]
pub enum Term {
    Number(Number),
    String(String),
    Boolean(bool),
    Array(Vec<Expr>),
    Null,
    Ident(Ident),
}

/// One link of an operator chain: an operand together with the operator
/// that folds it into the running value. A missing operator is treated as
/// addition by the expression lowerer.
#[derive(Debug)]
pub struct ChainedExprTerm<T> {
    pub operand: Term,
    pub operator: Option<T>,
}

/// A flat chain of operands and operators, folded strictly left to right
/// by the expression lowerer; there is no precedence climbing.
#[derive(Debug)]
pub struct ChainedExpr<T> {
    pub terms: Vec<ChainedExprTerm<T>>,
}

pub type BinaryExpr = ChainedExpr<MathOperator>;

pub type BinaryExprTerm = ChainedExprTerm<MathOperator>;

pub type ConditionalExpr = ChainedExpr<ConditionalOperator>;

pub type ConditionExprTerm = ChainedExprTerm<ConditionalOperator>;

#[derive(Debug)]
pub enum Index {
    Number(Number),
    String(String),
}

#[derive(Debug)]
pub struct IndexExpr {
    pub term: Term,
    pub index: Index,
}

/// An expression in statement or argument position.
#[derive(Debug)]
pub enum Expr {
    BinaryExpr(BinaryExpr),
    ConditionalExpr(ConditionalExpr),
    IndexExpr(IndexExpr),
    Term(Term),
    CallExpr(Call),
}

/// A statement of the source language.
#[derive(Debug)]
pub enum Node {
    Loop(Loop),
    Break(Break),
    Function(Function),
    Call(Call),
    Throw(Throw),
    Import(Import),
    TryCatch(TryCatch),
    Variable(Variable),
    Assignment(Assignment),
    If(IfBlock),
    Class(Class),
    Return(Return),
    Expr(Expr),
}

/// An ordered sequence of statements: one module's program text.
pub type Tree = Vec<Node>;

} // verus!
