//! The statement and expression lowerer: turns AST statements into IR
//! instructions inside a compilation unit under construction.
//!
//! One block is under construction ("open", without a terminator) at any
//! time: the builder position. The exit blocks of the loops currently
//! being lowered are open too; they receive their instructions once the
//! loop body is done. Every other block is finished and never touched
//! again.

use vstd::prelude::*;

use crate::ast::{
    Assignment, BinaryExprTerm, Break, Call, Expr, Ident, Loop, MathOperator, Node, Number, Term,
    Tree, Variable,
};
use crate::errors::CompileError;
use crate::ir::{
    spec_ir_type, spec_terminator_ok, Block, CompilationUnit, Instr, InstrId, IrType, IrValue,
    Terminator,
};
use crate::scope::{Scope, ScopeVariable};
use crate::types::{spec_resolve, ValidType};

verus! {

/// The loop the lowerer is currently inside of: where its body starts and
/// where a `Break` must jump.
#[derive(Debug, Clone, Copy, PartialEq, Eq, Structural)]
pub struct LoopMetadata {
    pub loop_block: usize,
    pub exit_block: usize,
}

/// The unit under construction together with the builder position: the
/// index of the block that currently receives instructions.
#[derive(Debug)]
pub struct Compiler {
    pub unit: CompilationUnit,
    pub current: usize,
}

/// The per-function-body lowering state: the stack of active loops
/// (innermost last) and the function's scope.
#[derive(Debug)]
pub struct CompileMetadata {
    pub loops: Vec<LoopMetadata>,
    pub function_scope: Scope,
}

/// The unit's identity and symbol table, which lowering never changes.
pub open spec fn spec_same_shell(pre: CompilationUnit, post: CompilationUnit) -> bool {
    &&& post.name == pre.name
    &&& post.functions == pre.functions
    &&& post.entry == pre.entry
}

/// How a unit may grow during lowering: blocks are only appended, the
/// instructions of an existing block are only appended to, a terminator
/// once set is never changed, and globals are only appended. Anything
/// already in the unit therefore stays where it is.
pub open spec fn spec_extends(pre: CompilationUnit, post: CompilationUnit) -> bool {
    &&& spec_same_shell(pre, post)
    &&& pre.blocks@.len() <= post.blocks@.len()
    &&& forall|i: int|
        0 <= i < pre.blocks@.len() ==> (#[trigger] pre.blocks@[i]).instrs@.is_prefix_of(
            post.blocks@[i].instrs@,
        )
    &&& forall|i: int|
        0 <= i < pre.blocks@.len() && (#[trigger] pre.blocks@[i]).terminator is Some
            ==> post.blocks@[i] == pre.blocks@[i]
    &&& pre.globals@.is_prefix_of(post.globals@)
}

/// The position the next instruction appended at the builder position
/// will occupy; it is also the name of that instruction's result.
pub open spec fn spec_next_pos(c: Compiler) -> InstrId {
    InstrId {
        block: c.current,
        idx: c.unit.blocks@[c.current as int].instrs@.len() as usize,
    }
}

/// The unit changed only by appending `emitted` at the builder position
/// and `added` to the global string constants.
pub open spec fn spec_appended(pre: Compiler, post: Compiler, emitted: Seq<Instr>, added: Seq<String>) -> bool {
    &&& post.current == pre.current
    &&& spec_same_shell(pre.unit, post.unit)
    &&& post.unit.globals@ == pre.unit.globals@ + added
    &&& post.unit.blocks@.len() == pre.unit.blocks@.len()
    &&& forall|i: int|
        0 <= i < pre.unit.blocks@.len() && i != pre.current ==> post.unit.blocks@[i]
            == pre.unit.blocks@[i]
    &&& post.unit.blocks@[pre.current as int].instrs@ == pre.unit.blocks@[pre.current as int].instrs@
        + emitted
    &&& post.unit.blocks@[pre.current as int].terminator
        == pre.unit.blocks@[pre.current as int].terminator
}

/// A scope binding points at an `Alloca` of exactly its own type: the
/// well-typed-storage invariant.
pub open spec fn spec_slot_wf(u: CompilationUnit, v: ScopeVariable) -> bool {
    &&& v.ptr.block < u.blocks@.len()
    &&& v.ptr.idx < u.blocks@[v.ptr.block as int].instrs@.len()
    &&& u.blocks@[v.ptr.block as int].instrs@[v.ptr.idx as int] == (Instr::Alloca {
        ty: spec_ir_type(v.ty),
    })
}

/// Whether block `i` is open (still without terminator) by right: it is
/// the builder position, or the exit block of an active loop.
pub open spec fn spec_open_at(c: Compiler, m: CompileMetadata, i: int) -> bool {
    i == c.current || exists|k: int|
        0 <= k < m.loops@.len() && (#[trigger] m.loops@[k]).exit_block == i
}

/// The cross-cutting invariant of lowering: the builder position is a
/// real block; a block lacks its terminator exactly while it is the
/// builder position or an active loop's pending exit block, and those are
/// pairwise distinct; set terminators only jump to existing blocks; every
/// active loop's blocks exist; and every scope binding is well-typed
/// storage in the unit.
pub open spec fn spec_low_wf(c: Compiler, m: CompileMetadata) -> bool {
    &&& c.current < c.unit.blocks@.len()
    &&& forall|i: int|
        0 <= i < c.unit.blocks@.len() ==> ((#[trigger] c.unit.blocks@[i]).terminator is None
            <==> spec_open_at(c, m, i))
    &&& forall|i: int|
        0 <= i < c.unit.blocks@.len() ==> match (#[trigger] c.unit.blocks@[i]).terminator {
            Some(t) => spec_terminator_ok(t, c.unit.blocks@.len()),
            None => true,
        }
    &&& forall|k: int|
        0 <= k < m.loops@.len() ==> (#[trigger] m.loops@[k]).loop_block < c.unit.blocks@.len()
            && m.loops@[k].exit_block < c.unit.blocks@.len()
    &&& forall|k: int| 0 <= k < m.loops@.len() ==> (#[trigger] m.loops@[k]).exit_block != c.current
    &&& forall|k1: int, k2: int|
        0 <= k1 < k2 < m.loops@.len() ==> (#[trigger] m.loops@[k1]).exit_block != (
        #[trigger] m.loops@[k2]).exit_block
    &&& m.function_scope.wf()
    &&& forall|key: Seq<char>|
        #[trigger] m.function_scope.as_map().dom().contains(key) ==> spec_slot_wf(
            c.unit,
            m.function_scope.as_map()[key],
        )
}

/// An element of a prefix stands unchanged in the longer sequence.
pub proof fn lemma_prefix_index<T>(a: Seq<T>, b: Seq<T>, i: int)
    requires
        a.is_prefix_of(b),
        0 <= i < a.len(),
    ensures
        a[i] == b[i],
{
    assert(b.subrange(0, a.len() as int)[i] == b[i]);
}

/// Growing a unit twice grows it once.
pub proof fn lemma_extends_trans(a: CompilationUnit, b: CompilationUnit, c: CompilationUnit)
    requires
        spec_extends(a, b),
        spec_extends(b, c),
    ensures
        spec_extends(a, c),
{
    assert forall|i: int| 0 <= i < a.blocks@.len() implies (#[trigger] a.blocks@[i]).instrs@
        .is_prefix_of(c.blocks@[i].instrs@) by {
        let x = a.blocks@[i].instrs@;
        let y = b.blocks@[i].instrs@;
        let z = c.blocks@[i].instrs@;
        assert(x.is_prefix_of(y));
        assert(y.is_prefix_of(z));
        assert(x =~= z.subrange(0, x.len() as int)) by {
            assert(x =~= y.subrange(0, x.len() as int));
            assert(y =~= z.subrange(0, y.len() as int));
        }
    }
    assert(a.globals@.is_prefix_of(c.globals@)) by {
        let x = a.globals@;
        let y = b.globals@;
        let z = c.globals@;
        assert(x =~= z.subrange(0, x.len() as int)) by {
            assert(x =~= y.subrange(0, x.len() as int));
            assert(y =~= z.subrange(0, y.len() as int));
        }
    }
}

/// A unit is unchanged by an empty growth step.
pub proof fn lemma_extends_refl(u: CompilationUnit)
    ensures
        spec_extends(u, u),
{
    assert forall|i: int| 0 <= i < u.blocks@.len() implies (#[trigger] u.blocks@[i]).instrs@
        .is_prefix_of(u.blocks@[i].instrs@) by {
        assert(u.blocks@[i].instrs@ =~= u.blocks@[i].instrs@.subrange(
            0,
            u.blocks@[i].instrs@.len() as int,
        ));
    }
    assert(u.globals@ =~= u.globals@.subrange(0, u.globals@.len() as int));
}

/// A unit that only appended at the builder position has grown.
pub proof fn lemma_appended_extends(pre: Compiler, post: Compiler, emitted: Seq<Instr>, added: Seq<String>)
    requires
        pre.current < pre.unit.blocks@.len(),
        pre.unit.blocks@[pre.current as int].terminator is None,
        spec_appended(pre, post, emitted, added),
    ensures
        spec_extends(pre.unit, post.unit),
{
    assert forall|i: int| 0 <= i < pre.unit.blocks@.len() implies (
    #[trigger] pre.unit.blocks@[i]).instrs@.is_prefix_of(post.unit.blocks@[i].instrs@) by {
        let x = pre.unit.blocks@[i].instrs@;
        let y = post.unit.blocks@[i].instrs@;
        assert(x =~= y.subrange(0, x.len() as int));
    }
    assert(pre.unit.globals@ =~= post.unit.globals@.subrange(0, pre.unit.globals@.len() as int));
}

impl Compiler {
    /// The position (and result name) of the next instruction appended
    /// at the builder position.
    pub fn next_pos(&self) -> (r: InstrId)
        requires
            self.current < self.unit.blocks@.len(),
        ensures
            r == spec_next_pos(*self),
            r.block == self.current,
            r.idx == self.unit.blocks@[self.current as int].instrs@.len(),
    {
        InstrId { block: self.current, idx: self.unit.blocks[self.current].instrs.len() }
    }

    /// Append one instruction at the builder position.
    pub fn append_instr(&mut self, instr: Instr)
        requires
            old(self).current < old(self).unit.blocks@.len(),
        ensures
            spec_appended(*old(self), *final(self), seq![instr], Seq::<String>::empty()),
    {
        let cur = self.current;
        let ghost pre = self.unit.blocks@[cur as int].instrs@;
        self.unit.blocks[cur].instrs.push(instr);
        proof {
            assert(self.unit.blocks@[cur as int].instrs@ =~= pre + seq![instr]);
            assert(self.unit.globals@ =~= self.unit.globals@ + Seq::<String>::empty());
        }
    }

    /// Set the terminator of the block at the builder position.
    pub fn set_terminator(&mut self, t: Terminator)
        requires
            old(self).current < old(self).unit.blocks@.len(),
        ensures
            final(self).current == old(self).current,
            spec_same_shell(old(self).unit, final(self).unit),
            final(self).unit.globals == old(self).unit.globals,
            final(self).unit.blocks@.len() == old(self).unit.blocks@.len(),
            forall|i: int|
                0 <= i < old(self).unit.blocks@.len() && i != old(self).current
                    ==> final(self).unit.blocks@[i] == old(self).unit.blocks@[i],
            final(self).unit.blocks@[old(self).current as int].instrs == old(
                self,
            ).unit.blocks@[old(self).current as int].instrs,
            final(self).unit.blocks@[old(self).current as int].terminator == Some(t),
    {
        let cur = self.current;
        self.unit.blocks[cur].terminator = Some(t);
    }

    /// Append a fresh, empty, open block; its index is returned.
    pub fn fresh_block(&mut self) -> (r: usize)
        ensures
            r == old(self).unit.blocks@.len(),
            final(self).current == old(self).current,
            spec_same_shell(old(self).unit, final(self).unit),
            final(self).unit.globals == old(self).unit.globals,
            final(self).unit.blocks@.len() == old(self).unit.blocks@.len() + 1,
            forall|i: int|
                0 <= i < old(self).unit.blocks@.len() ==> final(self).unit.blocks@[i] == old(
                    self,
                ).unit.blocks@[i],
            final(self).unit.blocks@[old(self).unit.blocks@.len() as int].instrs@ == Seq::<
                Instr,
            >::empty(),
            final(self).unit.blocks@[old(self).unit.blocks@.len() as int].terminator is None,
    {
        let r = self.unit.blocks.len();
        self.unit.blocks.push(Block { instrs: Vec::new(), terminator: None });
        r
    }
}

/// The contract of lowering one term, shared by `Term::compute` and the
/// term arm of `Expr::compute`: what is returned and what the unit looks
/// like afterwards, for every kind of term.
pub open spec fn spec_term_compute_post(
    term: Term,
    scope: Map<Seq<char>, ScopeVariable>,
    pre: Compiler,
    post: Compiler,
    r: Result<IrValue, CompileError>,
) -> bool {
    match term {
        Term::Number(n) => r == Ok::<IrValue, CompileError>(IrValue::ConstNumber(n)) && post
            == pre,
        Term::Boolean(b) => r == Ok::<IrValue, CompileError>(IrValue::ConstBool(b)) && post == pre,
        Term::String(s) => {
            &&& r == Ok::<IrValue, CompileError>(
                IrValue::GlobalStr(pre.unit.globals@.len() as usize),
            )
            &&& spec_appended(pre, post, Seq::<Instr>::empty(), seq![s])
        },
        Term::Ident(x) => {
            if scope.dom().contains(x@) {
                let v = scope[x@];
                &&& r == Ok::<IrValue, CompileError>(IrValue::Reg(spec_next_pos(pre)))
                &&& spec_appended(pre, post, seq![Instr::Load { slot: v.ptr }], Seq::<String>::empty())
            } else {
                &&& r matches Err(e) && e == CompileError::UndefinedVariable(x.0)
                &&& post == pre
            }
        },
        Term::Array(_) => r == Err::<IrValue, CompileError>(CompileError::Unimplemented) && post
            == pre,
        Term::Null => r == Err::<IrValue, CompileError>(CompileError::Unimplemented) && post
            == pre,
    }
}

impl Term {
    /// Lower a term to the IR value that holds it: numeric and boolean
    /// literals become constants, a string literal becomes a fresh global
    /// buffer referenced by pointer, and an identifier is looked up in
    /// the scope and its current value loaded from its storage slot.
    /// Array and `Null` terms are deferred by the current subset and fail
    /// loudly.
    pub fn compute(&self, compiler: &mut Compiler, meta: &CompileMetadata) -> (r: Result<
        IrValue,
        CompileError,
    >)
        requires
            old(compiler).current < old(compiler).unit.blocks@.len(),
            meta.function_scope.wf(),
        ensures
            spec_term_compute_post(
                *self,
                meta.function_scope.as_map(),
                *old(compiler),
                *final(compiler),
                r,
            ),
    {
        match self {
            Term::Number(n) => Ok(IrValue::ConstNumber(*n)),
            Term::Boolean(b) => Ok(IrValue::ConstBool(*b)),
            Term::String(s) => {
                let idx = compiler.unit.globals.len();
                let ghost preg = compiler.unit.globals@;
                compiler.unit.globals.push(s.clone());
                proof {
                    assert(compiler.unit.globals@ =~= preg + seq![*s]);
                    let cur = compiler.current as int;
                    assert(compiler.unit.blocks@[cur].instrs@ =~= compiler.unit.blocks@[cur].instrs@
                        + Seq::<Instr>::empty());
                }
                Ok(IrValue::GlobalStr(idx))
            },
            Term::Ident(x) => {
                match meta.function_scope.lookup(&x.0) {
                    None => Err(CompileError::UndefinedVariable(x.0.clone())),
                    Some(v) => {
                        let ptr = v.ptr;
                        let id = compiler.next_pos();
                        compiler.append_instr(Instr::Load { slot: ptr });
                        Ok(IrValue::Reg(id))
                    },
                }
            },
            Term::Array(_) => Err(CompileError::Unimplemented),
            Term::Null => Err(CompileError::Unimplemented),
        }
    }
}

/// The operator a chain link applies: the one it carries, or addition
/// where it carries none.
pub open spec fn spec_chain_op(t: BinaryExprTerm) -> MathOperator {
    match t.operator {
        Some(op) => op,
        None => MathOperator::Add,
    }
}

/// The numeric literal a chain link's operand holds; meaningful only for
/// links whose operand is a number.
pub open spec fn spec_operand_number(t: BinaryExprTerm) -> Number {
    match t.operand {
        Term::Number(n) => n,
        _ => arbitrary(),
    }
}

/// Every operand of the chain is a numeric literal, as the grammar layer
/// guarantees for binary expressions.
pub open spec fn spec_all_numeric(terms: Seq<BinaryExprTerm>) -> bool {
    forall|i: int| 0 <= i < terms.len() ==> (#[trigger] terms[i]).operand is Number
}

/// The register defined at index `i` of block `b`.
pub open spec fn spec_reg(b: usize, i: int) -> IrValue {
    IrValue::Reg(InstrId { block: b, idx: i as usize })
}

/// The instructions one fold step emits into block `b`, with the step's
/// first instruction standing at index `base` and `acc` the running
/// value. The five plain operators are single double-precision
/// operations; exclusive or converts both sides to signed 64-bit
/// integers, combines them, and converts back.
pub open spec fn spec_fold_step(t: BinaryExprTerm, b: usize, base: int, acc: IrValue) -> Seq<
    Instr,
> {
    let n = spec_operand_number(t);
    if spec_chain_op(t) == MathOperator::XOR {
        seq![
            Instr::FloatToInt { value: acc },
            Instr::FloatToInt { value: IrValue::ConstNumber(n) },
            Instr::IntXor { lhs: spec_reg(b, base), rhs: spec_reg(b, base + 1) },
            Instr::IntToFloat { value: spec_reg(b, base + 2) },
        ]
    } else {
        seq![
            Instr::FloatBin {
                op: spec_chain_op(t),
                lhs: acc,
                rhs: IrValue::ConstNumber(n),
            },
        ]
    }
}

/// The running value after one fold step.
pub open spec fn spec_fold_step_result(t: BinaryExprTerm, b: usize, base: int) -> IrValue {
    if spec_chain_op(t) == MathOperator::XOR {
        spec_reg(b, base + 3)
    } else {
        spec_reg(b, base)
    }
}

/// The strictly left-to-right fold of the first `i` links of a chain:
/// the instructions emitted into block `b` starting at index `base`, and
/// the running value, which starts at the zero double. Each link updates
/// the running value with its own operator and operand, in source order;
/// there is no operator precedence.
pub open spec fn spec_fold_upto(terms: Seq<BinaryExprTerm>, b: usize, base: int, i: int) -> (
    Seq<Instr>,
    IrValue,
)
    decreases i,
{
    if i <= 0 {
        (Seq::<Instr>::empty(), IrValue::ConstZero(IrType::F64))
    } else {
        let prev = spec_fold_upto(terms, b, base, i - 1);
        let stepbase = base + prev.0.len();
        (
            prev.0 + spec_fold_step(terms[i - 1], b, stepbase, prev.1),
            spec_fold_step_result(terms[i - 1], b, stepbase),
        )
    }
}

/// Two consecutive append-only steps make one.
pub proof fn lemma_appended_trans(
    a: Compiler,
    b: Compiler,
    c: Compiler,
    e1: Seq<Instr>,
    e2: Seq<Instr>,
    g1: Seq<String>,
    g2: Seq<String>,
)
    requires
        spec_appended(a, b, e1, g1),
        spec_appended(b, c, e2, g2),
    ensures
        spec_appended(a, c, e1 + e2, g1 + g2),
{
    assert(c.unit.blocks@[a.current as int].instrs@ =~= a.unit.blocks@[a.current as int].instrs@ + (
    e1 + e2));
    assert(c.unit.globals@ =~= a.unit.globals@ + (g1 + g2));
}

/// Nothing was appended: the states agree.
pub proof fn lemma_appended_refl(a: Compiler)
    requires
        a.current < a.unit.blocks@.len(),
    ensures
        spec_appended(a, a, Seq::<Instr>::empty(), Seq::<String>::empty()),
{
    assert(a.unit.blocks@[a.current as int].instrs@ =~= a.unit.blocks@[a.current as int].instrs@
        + Seq::<Instr>::empty());
    assert(a.unit.globals@ =~= a.unit.globals@ + Seq::<String>::empty());
}

/// The contract of lowering one expression: what is returned and what
/// the unit looks like afterwards, for every kind of expression.
pub open spec fn spec_expr_compute_post(
    e: Expr,
    scope: Map<Seq<char>, ScopeVariable>,
    pre: Compiler,
    post: Compiler,
    r: Result<IrValue, CompileError>,
) -> bool {
    match e {
        Expr::BinaryExpr(x) => {
            if spec_all_numeric(x.terms@) {
                let full = spec_fold_upto(
                    x.terms@,
                    pre.current,
                    pre.unit.blocks@[pre.current as int].instrs@.len() as int,
                    x.terms@.len() as int,
                );
                r == Ok::<IrValue, CompileError>(full.1) && spec_appended(
                    pre,
                    post,
                    full.0,
                    Seq::<String>::empty(),
                )
            } else {
                r == Err::<IrValue, CompileError>(CompileError::InvalidOperand) && post == pre
            }
        },
        Expr::Term(t) => spec_term_compute_post(t, scope, pre, post, r),
        Expr::ConditionalExpr(_) => r == Err::<IrValue, CompileError>(CompileError::Unimplemented)
            && post == pre,
        Expr::IndexExpr(_) => r == Err::<IrValue, CompileError>(CompileError::Unimplemented)
            && post == pre,
        Expr::CallExpr(_) => r == Err::<IrValue, CompileError>(CompileError::Unimplemented) && post
            == pre,
    }
}

impl Expr {
    /// Lower an expression to an IR value. A binary expression folds its
    /// chain strictly left to right starting from the zero double — the
    /// emitted operations follow source order, not arithmetic
    /// precedence — and demands numeric-literal operands: anything else
    /// is an internal invariant violation, because the grammar layer
    /// constrains the chain. A plain term lowers as the term does;
    /// conditional, index and call expressions are deferred by the
    /// current subset.
    pub fn compute(&self, compiler: &mut Compiler, meta: &CompileMetadata) -> (r: Result<
        IrValue,
        CompileError,
    >)
        requires
            old(compiler).current < old(compiler).unit.blocks@.len(),
            meta.function_scope.wf(),
        ensures
            spec_expr_compute_post(
                *self,
                meta.function_scope.as_map(),
                *old(compiler),
                *final(compiler),
                r,
            ),
    {
        match self {
            Expr::BinaryExpr(x) => {
                let n = x.terms.len();
                let mut i: usize = 0;
                while i < n
                    invariant
                        i <= n,
                        n == x.terms@.len(),
                        *self == Expr::BinaryExpr(*x),
                        *compiler == *old(compiler),
                        forall|k: int| 0 <= k < i ==> (#[trigger] x.terms@[k]).operand is Number,
                    decreases n - i,
                {
                    match &x.terms[i].operand {
                        Term::Number(_) => {},
                        _ => {
                            proof {
                                assert(!((#[trigger] x.terms@[i as int]).operand is Number));
                                assert(!spec_all_numeric(x.terms@));
                            }
                            return Err(CompileError::InvalidOperand);
                        },
                    }
                    i = i + 1;
                }
                let ghost pre = *compiler;
                let ghost base = pre.unit.blocks@[pre.current as int].instrs@.len() as int;
                let mut acc = IrValue::ConstZero(IrType::F64);
                let mut i: usize = 0;
                proof {
                    lemma_appended_refl(pre);
                }
                while i < n
                    invariant
                        i <= n,
                        n == x.terms@.len(),
                        *self == Expr::BinaryExpr(*x),
                        spec_all_numeric(x.terms@),
                        pre.current < pre.unit.blocks@.len(),
                        base == pre.unit.blocks@[pre.current as int].instrs@.len(),
                        spec_appended(pre, *compiler, spec_fold_upto(x.terms@, pre.current, base, i as int).0, Seq::<String>::empty()),
                        acc == spec_fold_upto(x.terms@, pre.current, base, i as int).1,
                    decreases n - i,
                {
                    let ghost mid = *compiler;
                    let ghost done = spec_fold_upto(x.terms@, pre.current, base, i as int);
                    let t = &x.terms[i];
                    let op = match t.operator {
                        Some(o) => o,
                        None => MathOperator::Add,
                    };
                    let num = match &t.operand {
                        Term::Number(num) => *num,
                        _ => {
                            return Err(CompileError::InvalidOperand);
                        },
                    };
                    proof {
                        assert(compiler.unit.blocks@[pre.current as int].instrs@.len() == base
                            + done.0.len());
                    }
                    match op {
                        MathOperator::XOR => {
                            let p0 = compiler.next_pos();
                            compiler.append_instr(Instr::FloatToInt { value: acc });
                            let p1 = compiler.next_pos();
                            compiler.append_instr(
                                Instr::FloatToInt { value: IrValue::ConstNumber(num) },
                            );
                            let p2 = compiler.next_pos();
                            compiler.append_instr(
                                Instr::IntXor { lhs: IrValue::Reg(p0), rhs: IrValue::Reg(p1) },
                            );
                            let p3 = compiler.next_pos();
                            compiler.append_instr(Instr::IntToFloat { value: IrValue::Reg(p2) });
                            acc = IrValue::Reg(p3);
                        },
                        _ => {
                            let p0 = compiler.next_pos();
                            compiler.append_instr(
                                Instr::FloatBin { op, lhs: acc, rhs: IrValue::ConstNumber(num) },
                            );
                            acc = IrValue::Reg(p0);
                        },
                    }
                    proof {
                        let stepbase = base + done.0.len();
                        let step = spec_fold_step(x.terms@[i as int], pre.current, stepbase, done.1);
                        assert(spec_appended(mid, *compiler, step, Seq::<String>::empty())) by {
                            assert(compiler.unit.blocks@[pre.current as int].instrs@
                                =~= mid.unit.blocks@[pre.current as int].instrs@ + step);
                            assert(compiler.unit.globals@ =~= mid.unit.globals@
                                + Seq::<String>::empty());
                        }
                        lemma_appended_trans(pre, mid, *compiler, done.0, step,
                            Seq::<String>::empty(), Seq::<String>::empty());
                        assert(Seq::<String>::empty() + Seq::<String>::empty()
                            =~= Seq::<String>::empty());
                        assert(spec_fold_upto(x.terms@, pre.current, base, i + 1).0 == done.0
                            + step);
                    }
                    i = i + 1;
                }
                Ok(acc)
            },
            Expr::Term(t) => t.compute(compiler, meta),
            Expr::ConditionalExpr(_) => Err(CompileError::Unimplemented),
            Expr::IndexExpr(_) => Err(CompileError::Unimplemented),
            Expr::CallExpr(_) => Err(CompileError::Unimplemented),
        }
    }
}

/// A sequence is its own prefix.
pub proof fn lemma_self_prefix<T>(s: Seq<T>)
    ensures
        s.is_prefix_of(s),
{
    assert(s =~= s.subrange(0, s.len() as int));
}

/// A binding that is well-typed storage stays so as the unit grows.
pub proof fn lemma_slot_wf_grow(pre: CompilationUnit, post: CompilationUnit, v: ScopeVariable)
    requires
        spec_extends(pre, post),
        spec_slot_wf(pre, v),
    ensures
        spec_slot_wf(post, v),
{
    lemma_prefix_index(
        pre.blocks@[v.ptr.block as int].instrs@,
        post.blocks@[v.ptr.block as int].instrs@,
        v.ptr.idx as int,
    );
}

/// Appending instructions and globals at the builder position does not
/// disturb the lowering invariant.
pub proof fn lemma_wf_after_append(
    pre: Compiler,
    post: Compiler,
    m: CompileMetadata,
    emitted: Seq<Instr>,
    added: Seq<String>,
)
    requires
        spec_low_wf(pre, m),
        spec_appended(pre, post, emitted, added),
    ensures
        spec_low_wf(post, m),
{
    assert(spec_open_at(pre, m, pre.current as int));
    assert(pre.unit.blocks@[pre.current as int].terminator is None);
    lemma_appended_extends(pre, post, emitted, added);
    assert forall|i: int| 0 <= i < post.unit.blocks@.len() implies ((
    #[trigger] post.unit.blocks@[i]).terminator is None <==> spec_open_at(post, m, i)) by {
        if i != pre.current {
            assert(post.unit.blocks@[i] == pre.unit.blocks@[i]);
        }
        assert(pre.unit.blocks@[i].terminator is None <==> spec_open_at(pre, m, i));
        assert(spec_open_at(post, m, i) <==> spec_open_at(pre, m, i));
    }
    assert forall|i: int| 0 <= i < post.unit.blocks@.len() implies match (
    #[trigger] post.unit.blocks@[i]).terminator {
        Some(t) => spec_terminator_ok(t, post.unit.blocks@.len()),
        None => true,
    } by {
        if i != pre.current {
            assert(post.unit.blocks@[i] == pre.unit.blocks@[i]);
        }
    }
    assert forall|key: Seq<char>|
        #[trigger] m.function_scope.as_map().dom().contains(key) implies spec_slot_wf(
        post.unit,
        m.function_scope.as_map()[key],
    ) by {
        lemma_slot_wf_grow(pre.unit, post.unit, m.function_scope.as_map()[key]);
    }
}

/// Binding one more name whose slot is well-typed storage does not
/// disturb the lowering invariant.
pub proof fn lemma_wf_after_declare(
    c: Compiler,
    m_pre: CompileMetadata,
    m_post: CompileMetadata,
    ident: Ident,
    v: ScopeVariable,
)
    requires
        spec_low_wf(c, m_pre),
        spec_slot_wf(c.unit, v),
        m_post.loops == m_pre.loops,
        m_post.function_scope.wf(),
        m_post.function_scope.as_map() == m_pre.function_scope.as_map().insert(ident@, v),
    ensures
        spec_low_wf(c, m_post),
{
    assert forall|i: int| 0 <= i < c.unit.blocks@.len() implies ((
    #[trigger] c.unit.blocks@[i]).terminator is None <==> spec_open_at(c, m_post, i)) by {
        assert(spec_open_at(c, m_post, i) <==> spec_open_at(c, m_pre, i));
    }
    assert forall|key: Seq<char>|
        #[trigger] m_post.function_scope.as_map().dom().contains(key) implies spec_slot_wf(
        c.unit,
        m_post.function_scope.as_map()[key],
    ) by {
        if key == ident@ {
            assert(m_post.function_scope.as_map()[key] == v);
        } else {
            assert(m_post.function_scope.as_map()[key] == m_pre.function_scope.as_map()[key]);
            assert(m_pre.function_scope.as_map().dom().contains(key));
        }
    }
}

/// The effect of a successful variable declaration: the lead
/// instructions (a load, for an identifier initializer), then the
/// allocation and the initializing store; the freshly allocated slot is
/// bound to the declared name, shadowing any previous binding of it.
pub open spec fn spec_declared(
    pre: Compiler,
    post: Compiler,
    m_pre: CompileMetadata,
    m_post: CompileMetadata,
    lead: Seq<Instr>,
    added: Seq<String>,
    value: IrValue,
    ident: Ident,
    ty: ValidType,
) -> bool {
    let pa = InstrId {
        block: pre.current,
        idx: (pre.unit.blocks@[pre.current as int].instrs@.len() + lead.len()) as usize,
    };
    &&& spec_appended(
        pre,
        post,
        lead + seq![Instr::Alloca { ty: spec_ir_type(ty) }, Instr::Store { slot: pa, value }],
        added,
    )
    &&& m_post.loops == m_pre.loops
    &&& m_post.function_scope.as_map() == m_pre.function_scope.as_map().insert(
        ident@,
        ScopeVariable { ptr: pa, ty },
    )
}

/// The effect of a successful assignment: the lead instructions (a load,
/// for an identifier right-hand side), then a store into the existing
/// slot; the scope itself never changes.
pub open spec fn spec_assigned(
    pre: Compiler,
    post: Compiler,
    lead: Seq<Instr>,
    added: Seq<String>,
    slot: InstrId,
    value: IrValue,
) -> bool {
    spec_appended(pre, post, lead + seq![Instr::Store { slot, value }], added)
}

/// The contract of lowering one variable declaration, stated over the
/// states before and after: exactly when it succeeds, which error comes
/// otherwise, and what it emits and binds on success.
pub open spec fn spec_variable_post(
    v: Variable,
    m_pre: CompileMetadata,
    m_post: CompileMetadata,
    pre: Compiler,
    post: Compiler,
    r: Result<(), CompileError>,
) -> bool {
        let scope = m_pre.function_scope.as_map();
        let ident = v.declaration.ident;
        match spec_resolve(v.declaration.ty) {
            Err(e) => r == Err::<(), CompileError>(e) && post == pre && m_post == m_pre,
            Ok(ty) => match v.value {
                Expr::Term(ref term) => match *term {
                    Term::Null => r is Ok && spec_declared(
                        pre,
                        post,
                        m_pre,
                        m_post,
                        Seq::<Instr>::empty(),
                        Seq::<String>::empty(),
                        IrValue::ConstZero(spec_ir_type(ty)),
                        ident,
                        ty,
                    ),
                    Term::Ident(x) => if !scope.dom().contains(x@) {
                        r == Err::<(), CompileError>(
                            CompileError::UndefinedVariable(x.0),
                        ) && post == pre && m_post == m_pre
                    } else if scope[x@].ty != ty {
                        r == Err::<(), CompileError>(CompileError::TypeMismatch) && post
                            == pre && m_post == m_pre
                    } else {
                        r is Ok && spec_declared(
                            pre,
                            post,
                            m_pre,
                            m_post,
                            seq![Instr::Load { slot: scope[x@].ptr }],
                            Seq::<String>::empty(),
                            IrValue::Reg(spec_next_pos(pre)),
                            ident,
                            ty,
                        )
                    },
                    Term::Number(n) => if ty is Number {
                        r is Ok && spec_declared(
                            pre,
                            post,
                            m_pre,
                            m_post,
                            Seq::<Instr>::empty(),
                            Seq::<String>::empty(),
                            IrValue::ConstNumber(n),
                            ident,
                            ty,
                        )
                    } else {
                        r == Err::<(), CompileError>(CompileError::TypeMismatch) && post
                            == pre && m_post == m_pre
                    },
                    Term::String(text) => if ty is String {
                        r is Ok && spec_declared(
                            pre,
                            post,
                            m_pre,
                            m_post,
                            Seq::<Instr>::empty(),
                            seq![text],
                            IrValue::GlobalStr(pre.unit.globals@.len() as usize),
                            ident,
                            ty,
                        )
                    } else {
                        r == Err::<(), CompileError>(CompileError::TypeMismatch) && post
                            == pre && m_post == m_pre
                    },
                    Term::Boolean(b) => if ty is Boolean {
                        r is Ok && spec_declared(
                            pre,
                            post,
                            m_pre,
                            m_post,
                            Seq::<Instr>::empty(),
                            Seq::<String>::empty(),
                            IrValue::ConstBool(b),
                            ident,
                            ty,
                        )
                    } else {
                        r == Err::<(), CompileError>(CompileError::TypeMismatch) && post
                            == pre && m_post == m_pre
                    },
                    Term::Array(_) => if ty is Array {
                        r == Err::<(), CompileError>(CompileError::Unimplemented) && post
                            == pre && m_post == m_pre
                    } else {
                        r == Err::<(), CompileError>(CompileError::TypeMismatch) && post
                            == pre && m_post == m_pre
                    },
                },
                _ => r == Err::<(), CompileError>(CompileError::Unimplemented) && post
                    == pre && m_post == m_pre,
            },
        }
}

impl Variable {
    /// Lower a variable declaration: resolve the declared type, check the
    /// initializer against it (literals by kind; an identifier by exact
    /// type equality with the variable it names; `Null` takes any type as
    /// its zero value), then allocate a slot, store the initial value and
    /// bind the name, shadowing any previous binding. Fails exactly when
    /// the type does not resolve, the initializer disagrees with it, an
    /// identifier initializer is undefined, or the initializer is a form
    /// the current subset defers (an array literal or a non-term
    /// expression).
    pub fn compile(&self, compiler: &mut Compiler, compile_meta: &mut CompileMetadata) -> (r:
        Result<(), CompileError>)
        requires
            spec_low_wf(*old(compiler), *old(compile_meta)),
        ensures
            spec_extends(old(compiler).unit, final(compiler).unit),
            final(compile_meta).loops@ == old(compile_meta).loops@,
            r is Ok ==> spec_low_wf(*final(compiler), *final(compile_meta)),
            spec_variable_post(
                *self,
                *old(compile_meta),
                *final(compile_meta),
                *old(compiler),
                *final(compiler),
                r,
            ),
    {
        let ty = match ValidType::resolve(&self.declaration.ty) {
            Ok(t) => t,
            Err(e) => {
                return Err(e);
            },
        };
        match &self.value {
            Expr::Term(term) => {
                match term {
                    Term::Null | Term::Ident(_) => {},
                    _ => {
                        match ty.same_as_term(term) {
                            Ok(true) => {},
                            Ok(false) => {
                                return Err(CompileError::TypeMismatch);
                            },
                            Err(e) => {
                                return Err(e);
                            },
                        }
                    },
                }
                let ghost pre = *compiler;
                let ghost m_pre = *compile_meta;
                let ghost lead: Seq<Instr> = Seq::<Instr>::empty();
                let ghost added: Seq<String> = Seq::<String>::empty();
                let value = match term {
                    Term::Number(n) => IrValue::ConstNumber(*n),
                    Term::Boolean(b) => IrValue::ConstBool(*b),
                    Term::Null => IrValue::ConstZero(ty.ir_type()),
                    Term::String(text) => {
                        let idx = compiler.unit.globals.len();
                        let ghost preg = compiler.unit.globals@;
                        compiler.unit.globals.push(text.clone());
                        proof {
                            added = seq![*text];
                            assert(compiler.unit.globals@ =~= preg + added);
                        }
                        IrValue::GlobalStr(idx)
                    },
                    Term::Ident(x) => {
                        match compile_meta.function_scope.lookup(&x.0) {
                            None => {
                                return Err(CompileError::UndefinedVariable(x.0.clone()));
                            },
                            Some(v) => {
                                if !ty.same_as(&v.ty) {
                                    return Err(CompileError::TypeMismatch);
                                }
                                let ptr = v.ptr;
                                let id = compiler.next_pos();
                                compiler.append_instr(Instr::Load { slot: ptr });
                                proof {
                                    lead = seq![Instr::Load { slot: ptr }];
                                }
                                IrValue::Reg(id)
                            },
                        }
                    },
                    Term::Array(_) => {
                        return Err(CompileError::Unimplemented);
                    },
                };
                let ghost mid = *compiler;
                proof {
                    assert(mid.unit.blocks@[pre.current as int].instrs@
                        =~= pre.unit.blocks@[pre.current as int].instrs@ + lead);
                    assert(mid.unit.globals@ =~= pre.unit.globals@ + added);
                }
                let ghost value_g = value;
                let pa = compiler.next_pos();
                compiler.append_instr(Instr::Alloca { ty: ty.ir_type() });
                compiler.append_instr(Instr::Store { slot: pa, value });
                let ghost ty_g = ty;
                compile_meta.function_scope.declare(self.declaration.ident.0.clone(), pa, ty);
                proof {
                    let emitted = lead + seq![
                        Instr::Alloca { ty: spec_ir_type(ty_g) },
                        Instr::Store { slot: pa, value: value_g },
                    ];
                    assert(compiler.unit.blocks@[pre.current as int].instrs@
                        =~= pre.unit.blocks@[pre.current as int].instrs@ + emitted);
                    assert(compiler.unit.globals@ =~= pre.unit.globals@ + added);
                    assert(spec_appended(pre, *compiler, emitted, added));
                    lemma_wf_after_append(pre, *compiler, m_pre, emitted, added);
                    let v = ScopeVariable { ptr: pa, ty: ty_g };
                    assert(pa.block == pre.current);
                    assert(pa.idx == pre.unit.blocks@[pre.current as int].instrs@.len()
                        + lead.len());
                    assert(emitted[lead.len() as int] == (Instr::Alloca { ty: spec_ir_type(ty_g) }));
                    assert(compiler.unit.blocks@[pre.current as int].instrs@[pa.idx as int] == (
                    Instr::Alloca { ty: spec_ir_type(ty_g) }));
                    assert(spec_slot_wf(compiler.unit, v));
                    lemma_wf_after_declare(
                        *compiler,
                        m_pre,
                        *compile_meta,
                        self.declaration.ident,
                        v,
                    );
                    lemma_appended_extends(pre, *compiler, emitted, added);
                }
                Ok(())
            },
            _ => Err(CompileError::Unimplemented),
        }
    }
}

/// The contract of lowering one assignment: exactly when it succeeds,
/// which error comes otherwise, and the store it emits on success. The
/// scope and loop state never change.
pub open spec fn spec_assignment_post(
    a: Assignment,
    m_pre: CompileMetadata,
    m_post: CompileMetadata,
    pre: Compiler,
    post: Compiler,
    r: Result<(), CompileError>,
) -> bool {
    &&& m_post == m_pre
    &&& ({
    let scope = m_pre.function_scope.as_map();
    if !scope.dom().contains(a.ident@) {
        r == Err::<(), CompileError>(CompileError::UndefinedVariable(a.ident.0))
            && post == pre
    } else {
        let var = scope[a.ident@];
        match a.value {
            Expr::Term(ref term) => match *term {
                Term::Null => r is Ok && spec_assigned(
                    pre,
                    post,
                    Seq::<Instr>::empty(),
                    Seq::<String>::empty(),
                    var.ptr,
                    IrValue::ConstZero(spec_ir_type(var.ty)),
                ),
                Term::Ident(x) => if !scope.dom().contains(x@) {
                    r == Err::<(), CompileError>(
                        CompileError::UndefinedVariable(x.0),
                    ) && post == pre
                } else if scope[x@].ty != var.ty {
                    r == Err::<(), CompileError>(CompileError::TypeMismatch) && post
                        == pre
                } else {
                    r is Ok && spec_assigned(
                        pre,
                        post,
                        seq![Instr::Load { slot: scope[x@].ptr }],
                        Seq::<String>::empty(),
                        var.ptr,
                        IrValue::Reg(spec_next_pos(pre)),
                    )
                },
                Term::Number(n) => if var.ty is Number {
                    r is Ok && spec_assigned(
                        pre,
                        post,
                        Seq::<Instr>::empty(),
                        Seq::<String>::empty(),
                        var.ptr,
                        IrValue::ConstNumber(n),
                    )
                } else {
                    r == Err::<(), CompileError>(CompileError::TypeMismatch) && post
                        == pre
                },
                Term::String(text) => if var.ty is String {
                    r is Ok && spec_assigned(
                        pre,
                        post,
                        Seq::<Instr>::empty(),
                        seq![text],
                        var.ptr,
                        IrValue::GlobalStr(pre.unit.globals@.len() as usize),
                    )
                } else {
                    r == Err::<(), CompileError>(CompileError::TypeMismatch) && post
                        == pre
                },
                Term::Boolean(b) => if var.ty is Boolean {
                    r is Ok && spec_assigned(
                        pre,
                        post,
                        Seq::<Instr>::empty(),
                        Seq::<String>::empty(),
                        var.ptr,
                        IrValue::ConstBool(b),
                    )
                } else {
                    r == Err::<(), CompileError>(CompileError::TypeMismatch) && post
                        == pre
                },
                Term::Array(_) => if var.ty is Array {
                    r == Err::<(), CompileError>(CompileError::Unimplemented) && post
                        == pre
                } else {
                    r == Err::<(), CompileError>(CompileError::TypeMismatch) && post
                        == pre
                },
            },
            _ => r == Err::<(), CompileError>(CompileError::Unimplemented) && post
                == pre,
        }
    }
    })
}

impl Assignment {
    /// Lower an assignment: the named variable must already be declared;
    /// the right-hand term is checked against the variable's existing
    /// type exactly as a declaration initializer would be, and the new
    /// value is stored into the variable's existing slot. The binding
    /// itself, in particular its type, never changes.
    pub fn compile(&self, compiler: &mut Compiler, compile_meta: &mut CompileMetadata) -> (r:
        Result<(), CompileError>)
        requires
            spec_low_wf(*old(compiler), *old(compile_meta)),
        ensures
            spec_extends(old(compiler).unit, final(compiler).unit),
            *final(compile_meta) == *old(compile_meta),
            r is Ok ==> spec_low_wf(*final(compiler), *final(compile_meta)),
            spec_assignment_post(
                *self,
                *old(compile_meta),
                *final(compile_meta),
                *old(compiler),
                *final(compiler),
                r,
            ),
    {
        let (slot, is_num, is_bool, is_str, is_arr) = match compile_meta.function_scope.lookup(
            &self.ident.0,
        ) {
            None => {
                return Err(CompileError::UndefinedVariable(self.ident.0.clone()));
            },
            Some(var) => {
                (
                    var.ptr,
                    matches!(var.ty, ValidType::Number),
                    matches!(var.ty, ValidType::Boolean),
                    matches!(var.ty, ValidType::String),
                    matches!(var.ty, ValidType::Array(..)),
                )
            },
        };
        let ghost pre = *compiler;
        let ghost m_pre = *compile_meta;
        let ghost var = m_pre.function_scope.as_map()[self.ident@];
        match &self.value {
            Expr::Term(term) => {
                let ghost lead: Seq<Instr> = Seq::<Instr>::empty();
                let ghost added: Seq<String> = Seq::<String>::empty();
                let value = match term {
                    Term::Number(n) => {
                        if !is_num {
                            return Err(CompileError::TypeMismatch);
                        }
                        IrValue::ConstNumber(*n)
                    },
                    Term::Boolean(b) => {
                        if !is_bool {
                            return Err(CompileError::TypeMismatch);
                        }
                        IrValue::ConstBool(*b)
                    },
                    Term::String(text) => {
                        if !is_str {
                            return Err(CompileError::TypeMismatch);
                        }
                        let idx = compiler.unit.globals.len();
                        let ghost preg = compiler.unit.globals@;
                        compiler.unit.globals.push(text.clone());
                        proof {
                            added = seq![*text];
                            assert(compiler.unit.globals@ =~= preg + added);
                        }
                        IrValue::GlobalStr(idx)
                    },
                    Term::Array(_) => {
                        if !is_arr {
                            return Err(CompileError::TypeMismatch);
                        }
                        return Err(CompileError::Unimplemented);
                    },
                    Term::Null => {
                        let zero_ty = match compile_meta.function_scope.lookup(&self.ident.0) {
                            Some(v) => v.ty.ir_type(),
                            None => {
                                return Err(CompileError::UndefinedVariable(self.ident.0.clone()));
                            },
                        };
                        IrValue::ConstZero(zero_ty)
                    },
                    Term::Ident(x) => {
                        let (src_ptr, types_match) = match (
                            compile_meta.function_scope.lookup(&x.0),
                            compile_meta.function_scope.lookup(&self.ident.0),
                        ) {
                            (None, _) => {
                                return Err(CompileError::UndefinedVariable(x.0.clone()));
                            },
                            (Some(src), Some(dst)) => (src.ptr, src.ty.same_as(&dst.ty)),
                            (_, None) => {
                                return Err(CompileError::UndefinedVariable(self.ident.0.clone()));
                            },
                        };
                        if !types_match {
                            return Err(CompileError::TypeMismatch);
                        }
                        let id = compiler.next_pos();
                        compiler.append_instr(Instr::Load { slot: src_ptr });
                        proof {
                            lead = seq![Instr::Load { slot: src_ptr }];
                        }
                        IrValue::Reg(id)
                    },
                };
                let ghost value_g = value;
                compiler.append_instr(Instr::Store { slot, value });
                proof {
                    let emitted = lead + seq![Instr::Store { slot, value: value_g }];
                    assert(compiler.unit.blocks@[pre.current as int].instrs@
                        =~= pre.unit.blocks@[pre.current as int].instrs@ + emitted);
                    assert(compiler.unit.globals@ =~= pre.unit.globals@ + added);
                    assert(spec_appended(pre, *compiler, emitted, added));
                    lemma_wf_after_append(pre, *compiler, m_pre, emitted, added);
                    lemma_appended_extends(pre, *compiler, emitted, added);
                }
                Ok(())
            },
            _ => Err(CompileError::Unimplemented),
        }
    }
}

/// The contract of lowering one break: it fails exactly when no loop is
/// active; otherwise it seals the block under construction with a jump
/// to the innermost loop's exit block and opens a fresh, unreachable
/// continuation block. The loop stack and scope never change.
pub open spec fn spec_break_post(
    m_pre: CompileMetadata,
    m_post: CompileMetadata,
    pre: Compiler,
    post: Compiler,
    r: Result<(), CompileError>,
) -> bool {
    &&& m_post == m_pre
    &&& ({
    if m_pre.loops@.len() == 0 {
        r == Err::<(), CompileError>(CompileError::BreakOutsideLoop) && post == pre
    } else {
        let ctx = m_pre.loops@.last();
        &&& r is Ok
        &&& spec_same_shell(pre.unit, post.unit)
        &&& post.unit.globals == pre.unit.globals
        &&& post.unit.blocks@.len() == pre.unit.blocks@.len() + 1
        &&& post.unit.blocks@[pre.current as int].instrs
            == pre.unit.blocks@[pre.current as int].instrs
        &&& post.unit.blocks@[pre.current as int].terminator == Some(
            Terminator::Jump(ctx.exit_block),
        )
        &&& forall|i: int|
            0 <= i < pre.unit.blocks@.len() && i != pre.current
                ==> post.unit.blocks@[i] == pre.unit.blocks@[i]
        &&& post.current == pre.unit.blocks@.len()
        &&& post.unit.blocks@.last().instrs@ == Seq::<Instr>::empty()
        &&& post.unit.blocks@.last().terminator is None
    }
    })
}

impl Break {
    /// Lower an early exit: there must be an active loop, and the
    /// innermost one's exit block is where the jump goes. Because a block
    /// may hold only one terminator, a fresh unreachable continuation
    /// block is opened to receive whatever the same source sequence still
    /// lowers after the break; control never returns past the jump within
    /// the sealed block.
    pub fn compile(&self, compiler: &mut Compiler, compile_meta: &mut CompileMetadata) -> (r:
        Result<(), CompileError>)
        requires
            spec_low_wf(*old(compiler), *old(compile_meta)),
        ensures
            spec_extends(old(compiler).unit, final(compiler).unit),
            *final(compile_meta) == *old(compile_meta),
            r is Ok ==> spec_low_wf(*final(compiler), *final(compile_meta)),
            spec_break_post(
                *old(compile_meta),
                *final(compile_meta),
                *old(compiler),
                *final(compiler),
                r,
            ),
    {
        let n = compile_meta.loops.len();
        if n == 0 {
            return Err(CompileError::BreakOutsideLoop);
        }
        let ctx = compile_meta.loops[n - 1];
        let ghost pre = *compiler;
        let ghost m = *compile_meta;
        compiler.set_terminator(Terminator::Jump(ctx.exit_block));
        let nb = compiler.fresh_block();
        compiler.current = nb;
        proof {
            let post = *compiler;
            assert(m.loops@.last() == m.loops@[n - 1]);
            assert forall|i: int| 0 <= i < post.unit.blocks@.len() implies ((
            #[trigger] post.unit.blocks@[i]).terminator is None <==> spec_open_at(post, m, i)) by {
                if i < pre.unit.blocks@.len() && i != pre.current {
                    assert(post.unit.blocks@[i] == pre.unit.blocks@[i]);
                    assert(pre.unit.blocks@[i].terminator is None <==> spec_open_at(pre, m, i));
                }
            }
            assert forall|i: int| 0 <= i < post.unit.blocks@.len() implies match (
            #[trigger] post.unit.blocks@[i]).terminator {
                Some(t) => spec_terminator_ok(t, post.unit.blocks@.len()),
                None => true,
            } by {
                if i < pre.unit.blocks@.len() && i != pre.current {
                    assert(post.unit.blocks@[i] == pre.unit.blocks@[i]);
                }
            }
            assert forall|key: Seq<char>|
                #[trigger] m.function_scope.as_map().dom().contains(key) implies spec_slot_wf(
                post.unit,
                m.function_scope.as_map()[key],
            ) by {
                let v = m.function_scope.as_map()[key];
                assert(spec_slot_wf(pre.unit, v));
                if v.ptr.block == pre.current {
                    assert(post.unit.blocks@[v.ptr.block as int].instrs
                        == pre.unit.blocks@[v.ptr.block as int].instrs);
                } else {
                    assert(post.unit.blocks@[v.ptr.block as int]
                        == pre.unit.blocks@[v.ptr.block as int]);
                }
            }
            assert(spec_low_wf(post, m));
            assert forall|i: int| 0 <= i < pre.unit.blocks@.len() implies (
            #[trigger] pre.unit.blocks@[i]).instrs@.is_prefix_of(post.unit.blocks@[i].instrs@) by {
                if i != pre.current {
                    assert(post.unit.blocks@[i] == pre.unit.blocks@[i]);
                }
                lemma_self_prefix(pre.unit.blocks@[i].instrs@);
                assert(pre.unit.blocks@[i].instrs@ == post.unit.blocks@[i].instrs@);
            }
            lemma_self_prefix(pre.unit.globals@);
        }
        Ok(())
    }
}

/// Lowering an expression leaves the lowering invariant standing and
/// only grows the unit, whichever kind of expression it was and whether
/// or not it succeeded.
pub proof fn lemma_expr_post_preserves(
    e: Expr,
    m: CompileMetadata,
    pre: Compiler,
    post: Compiler,
    r: Result<IrValue, CompileError>,
)
    requires
        spec_low_wf(pre, m),
        spec_expr_compute_post(e, m.function_scope.as_map(), pre, post, r),
    ensures
        spec_low_wf(post, m),
        spec_extends(pre.unit, post.unit),
        post.current == pre.current,
{
    assert(spec_open_at(pre, m, pre.current as int));
    assert(pre.unit.blocks@[pre.current as int].terminator is None);
    match e {
        Expr::BinaryExpr(x) => {
            if spec_all_numeric(x.terms@) {
                let full = spec_fold_upto(
                    x.terms@,
                    pre.current,
                    pre.unit.blocks@[pre.current as int].instrs@.len() as int,
                    x.terms@.len() as int,
                );
                lemma_wf_after_append(pre, post, m, full.0, Seq::<String>::empty());
                lemma_appended_extends(pre, post, full.0, Seq::<String>::empty());
            } else {
                lemma_extends_refl(pre.unit);
            }
        },
        Expr::Term(t) => {
            match t {
                Term::String(s) => {
                    lemma_wf_after_append(pre, post, m, Seq::<Instr>::empty(), seq![s]);
                    lemma_appended_extends(pre, post, Seq::<Instr>::empty(), seq![s]);
                },
                Term::Ident(x) => {
                    if m.function_scope.as_map().dom().contains(x@) {
                        let v = m.function_scope.as_map()[x@];
                        lemma_wf_after_append(
                            pre,
                            post,
                            m,
                            seq![Instr::Load { slot: v.ptr }],
                            Seq::<String>::empty(),
                        );
                        lemma_appended_extends(
                            pre,
                            post,
                            seq![Instr::Load { slot: v.ptr }],
                            Seq::<String>::empty(),
                        );
                    } else {
                        lemma_extends_refl(pre.unit);
                    }
                },
                _ => {
                    lemma_extends_refl(pre.unit);
                },
            }
        },
        _ => {
            lemma_extends_refl(pre.unit);
        },
    }
}

/// A function table holds a symbol of this name.
pub open spec fn spec_contains_fn(fns: Seq<String>, name: Seq<char>) -> bool {
    exists|i: int| 0 <= i < fns.len() && (#[trigger] fns[i])@ == name
}

/// Look a callee up in a unit's function table.
pub(crate) fn table_contains(fns: &Vec<String>, name: &String) -> (r: bool)
    ensures
        r == spec_contains_fn(fns@, name@),
{
    let n = fns.len();
    let mut i: usize = 0;
    while i < n
        invariant
            i <= n,
            n == fns@.len(),
            forall|k: int| 0 <= k < i ==> (#[trigger] fns@[k])@ != name@,
        decreases n - i,
    {
        if fns[i] == *name {
            return true;
        }
        i = i + 1;
    }
    false
}


/// The contract of lowering an argument list, in order: each argument
/// lowers from the state the previous one left, and hands back its
/// value.
pub open spec fn spec_args_post(
    args: Seq<Expr>,
    scope: Map<Seq<char>, ScopeVariable>,
    pre: Compiler,
    post: Compiler,
    vs: Seq<IrValue>,
) -> bool
    decreases args.len(),
{
    if args.len() == 0 {
        post == pre && vs.len() == 0
    } else {
        &&& vs.len() == args.len()
        &&& exists|mid: Compiler|
            #[trigger] spec_expr_compute_post(args[0], scope, pre, mid, Ok(vs[0]))
                && spec_args_post(args.drop_first(), scope, mid, post, vs.drop_first())
    }
}

/// One more lowered argument extends the relation by one step.
pub proof fn lemma_args_post_snoc(
    args: Seq<Expr>,
    scope: Map<Seq<char>, ScopeVariable>,
    pre: Compiler,
    mid: Compiler,
    post: Compiler,
    vs: Seq<IrValue>,
    e: Expr,
    v: IrValue,
)
    requires
        spec_args_post(args, scope, pre, mid, vs),
        spec_expr_compute_post(e, scope, mid, post, Ok(v)),
    ensures
        spec_args_post(args.push(e), scope, pre, post, vs.push(v)),
    decreases args.len(),
{
    if args.len() == 0 {
        assert(mid == pre);
        assert(args.push(e)[0] == e);
        assert(vs.push(v)[0] == v);
        assert(args.push(e).drop_first() =~= Seq::<Expr>::empty());
        assert(vs.push(v).drop_first() =~= Seq::<IrValue>::empty());
        assert(spec_expr_compute_post(args.push(e)[0], scope, pre, post, Ok(vs.push(v)[0])));
        assert(spec_args_post(args.push(e).drop_first(), scope, post, post, vs.push(v).drop_first()));
    } else {
        let m0 = choose|m0: Compiler|
            #[trigger] spec_expr_compute_post(args[0], scope, pre, m0, Ok(vs[0]))
                && spec_args_post(args.drop_first(), scope, m0, mid, vs.drop_first());
        lemma_args_post_snoc(args.drop_first(), scope, m0, mid, post, vs.drop_first(), e, v);
        assert(args.push(e)[0] == args[0]);
        assert(vs.push(v)[0] == vs[0]);
        assert(args.push(e).drop_first() =~= args.drop_first().push(e));
        assert(vs.push(v).drop_first() =~= vs.drop_first().push(v));
        assert(spec_expr_compute_post(args.push(e)[0], scope, pre, m0, Ok(vs.push(v)[0])));
        assert(spec_args_post(args.push(e).drop_first(), scope, m0, post, vs.push(v).drop_first()));
    }
}

/// The contract of lowering one call statement: it fails with nothing
/// emitted exactly when the callee is not in the function table; with the
/// callee present it fails exactly when lowering some argument fails,
/// with that argument's own error, the earlier arguments already lowered;
/// on success the arguments lower in order and one call instruction
/// carrying their values ends the emission. The scope and loop state
/// never change.
pub open spec fn spec_call_post(
    c: Call,
    m_pre: CompileMetadata,
    m_post: CompileMetadata,
    pre: Compiler,
    post: Compiler,
    r: Result<(), CompileError>,
) -> bool {
    &&& m_post == m_pre
    &&& ({
    if !spec_contains_fn(pre.unit.functions@, c.ident@) {
        r == Err::<(), CompileError>(CompileError::UndefinedFunction(c.ident.0))
            && post == pre
    } else {
        match r {
            Ok(_) => {
                let post_instrs = post.unit.blocks@[pre.current as int].instrs@;
                &&& post.current == pre.current
                &&& exists|mid: Compiler, vs: Seq<IrValue>|
                    {
                        &&& #[trigger] spec_args_post(
                            c.args@,
                            m_pre.function_scope.as_map(),
                            pre,
                            mid,
                            vs,
                        )
                        &&& spec_appended(
                            mid,
                            post,
                            seq![post_instrs.last()],
                            Seq::<String>::empty(),
                        )
                        &&& (post_instrs.last() matches Instr::Call { callee, args }
                            && callee@ == c.ident@ && args@ == vs)
                    }
            },
            Err(e) => exists|k: int, mid: Compiler, vs: Seq<IrValue>|
                {
                    &&& 0 <= k < c.args@.len()
                    &&& #[trigger] spec_args_post(
                        c.args@.take(k),
                        m_pre.function_scope.as_map(),
                        pre,
                        mid,
                        vs,
                    )
                    &&& spec_expr_compute_post(
                        c.args@[k],
                        m_pre.function_scope.as_map(),
                        mid,
                        post,
                        Err(e),
                    )
                },
        }
    }
    })
}

impl Call {
    /// Lower a call statement: the callee is looked up by name in the
    /// unit's global function table, and when the name is absent the
    /// call fails with nothing emitted. Otherwise every argument
    /// expression is lowered to a value, in left-to-right order, and one
    /// call instruction carrying those values is emitted; any return
    /// value is discarded.
    pub fn compile(&self, compiler: &mut Compiler, compile_meta: &mut CompileMetadata) -> (r:
        Result<(), CompileError>)
        requires
            spec_low_wf(*old(compiler), *old(compile_meta)),
        ensures
            spec_extends(old(compiler).unit, final(compiler).unit),
            *final(compile_meta) == *old(compile_meta),
            r is Ok ==> spec_low_wf(*final(compiler), *final(compile_meta)),
            spec_call_post(
                *self,
                *old(compile_meta),
                *final(compile_meta),
                *old(compiler),
                *final(compiler),
                r,
            ),
    {
        if !table_contains(&compiler.unit.functions, &self.ident.0) {
            return Err(CompileError::UndefinedFunction(self.ident.0.clone()));
        }
        let ghost pre = *compiler;
        proof {
            lemma_extends_refl(pre.unit);
        }
        let n = self.args.len();
        let mut args: Vec<IrValue> = Vec::new();
        let mut i: usize = 0;
        while i < n
            invariant
                i <= n,
                n == self.args@.len(),
                args@.len() == i,
                spec_low_wf(*compiler, *compile_meta),
                spec_extends(pre.unit, compiler.unit),
                compiler.current == pre.current,
                *compile_meta == *old(compile_meta),
                pre == *old(compiler),
                spec_contains_fn(pre.unit.functions@, self.ident@),
                spec_args_post(
                    self.args@.take(i as int),
                    compile_meta.function_scope.as_map(),
                    pre,
                    *compiler,
                    args@,
                ),
            decreases n - i,
        {
            let ghost before = *compiler;
            let v = match self.args[i].compute(compiler, compile_meta) {
                Ok(v) => v,
                Err(e) => {
                    proof {
                        lemma_expr_post_preserves(
                            self.args@[i as int],
                            *compile_meta,
                            before,
                            *compiler,
                            Err(e),
                        );
                        lemma_extends_trans(pre.unit, before.unit, compiler.unit);
                        assert(spec_args_post(
                            self.args@.take(i as int),
                            old(compile_meta).function_scope.as_map(),
                            *old(compiler),
                            before,
                            args@,
                        ));
                        assert(spec_expr_compute_post(
                            self.args@[i as int],
                            old(compile_meta).function_scope.as_map(),
                            before,
                            *compiler,
                            Err(e),
                        ));
                    }
                    return Err(e);
                },
            };
            proof {
                lemma_expr_post_preserves(
                    self.args@[i as int],
                    *compile_meta,
                    before,
                    *compiler,
                    Ok(v),
                );
                lemma_extends_trans(pre.unit, before.unit, compiler.unit);
                lemma_args_post_snoc(
                    self.args@.take(i as int),
                    compile_meta.function_scope.as_map(),
                    pre,
                    before,
                    *compiler,
                    args@,
                    self.args@[i as int],
                    v,
                );
                assert(self.args@.take(i as int).push(self.args@[i as int]) =~= self.args@.take(
                    i + 1,
                ));
            }
            args.push(v);
            i = i + 1;
        }
        let ghost before_call = *compiler;
        let ghost vs_g = args@;
        let instr = Instr::Call { callee: self.ident.0.clone(), args };
        let ghost instr_g = instr;
        compiler.append_instr(instr);
        proof {
            lemma_wf_after_append(
                before_call,
                *compiler,
                *compile_meta,
                seq![instr_g],
                Seq::<String>::empty(),
            );
            lemma_appended_extends(before_call, *compiler, seq![instr_g], Seq::<String>::empty());
            lemma_extends_trans(pre.unit, before_call.unit, compiler.unit);
            assert(compiler.unit.blocks@[pre.current as int].instrs@.last() == instr_g);
            assert(self.args@.take(n as int) =~= self.args@);
            assert(spec_args_post(
                self.args@,
                compile_meta.function_scope.as_map(),
                pre,
                before_call,
                vs_g,
            ));
        }
        Ok(())
    }
}

impl Loop {
    /// Lower a loop: two fresh blocks are made, the loop body block and
    /// the exit block; the block under construction is sealed with a
    /// jump into the body block; the body is lowered into it under a
    /// loop context pushed for the duration, so a `Break` inside jumps
    /// to the exit block; the block left open after the body is sealed
    /// with the back edge to the body block; and lowering continues at
    /// the exit block. Without a `Break` in the body the loop never
    /// ends.
    pub fn compile(&self, compiler: &mut Compiler, compile_meta: &mut CompileMetadata) -> (r:
        Result<(), CompileError>)
        requires
            spec_low_wf(*old(compiler), *old(compile_meta)),
        ensures
            spec_extends(old(compiler).unit, final(compiler).unit),
            final(compile_meta).loops@ == old(compile_meta).loops@,
            r is Ok ==> spec_low_wf(*final(compiler), *final(compile_meta)),
            r is Ok ==> ({
                let pre = *old(compiler);
                let post = *final(compiler);
                let loop_block = pre.unit.blocks@.len() as int;
                &&& post.unit.blocks@.len() >= pre.unit.blocks@.len() + 2
                &&& post.unit.blocks@[pre.current as int].instrs
                    == pre.unit.blocks@[pre.current as int].instrs
                &&& (post.unit.blocks@[pre.current as int].terminator matches Some(t)
                    && t matches Terminator::Jump(j) && j == loop_block)
                &&& post.current == loop_block + 1
                &&& exists|b: int|
                    0 <= b < post.unit.blocks@.len() && b != pre.current && ((
                    #[trigger] post.unit.blocks@[b]).terminator matches Some(t)
                        && t matches Terminator::Jump(j) && j == loop_block)
            }),
            spec_loop_post(
                *self,
                *old(compile_meta),
                *final(compile_meta),
                *old(compiler),
                *final(compiler),
                r,
            ),
        decreases *self,
    {
        let ghost pre = *compiler;
        let ghost m_pre = *compile_meta;
        let loop_block = compiler.fresh_block();
        let exit_block = compiler.fresh_block();
        compiler.set_terminator(Terminator::Jump(loop_block));
        compiler.current = loop_block;
        compile_meta.loops.push(LoopMetadata { loop_block, exit_block });
        let ghost c1 = *compiler;
        let ghost m1 = *compile_meta;
        proof {
            assert(m1.loops@ == m_pre.loops@.push(LoopMetadata { loop_block, exit_block }));
            assert forall|i: int| 0 <= i < c1.unit.blocks@.len() implies ((
            #[trigger] c1.unit.blocks@[i]).terminator is None <==> spec_open_at(c1, m1, i)) by {
                if i < pre.unit.blocks@.len() {
                    if i != pre.current {
                        assert(c1.unit.blocks@[i] == pre.unit.blocks@[i]);
                        assert(pre.unit.blocks@[i].terminator is None <==> spec_open_at(
                            pre,
                            m_pre,
                            i,
                        ));
                        if c1.unit.blocks@[i].terminator is None {
                            let k = choose|k: int|
                                0 <= k < m_pre.loops@.len() && (#[trigger] m_pre.loops@[k]).exit_block
                                    == i;
                            assert(m1.loops@[k].exit_block == i);
                        }
                        if spec_open_at(c1, m1, i) {
                            let k = choose|k: int|
                                0 <= k < m1.loops@.len() && (#[trigger] m1.loops@[k]).exit_block
                                    == i;
                            assert(k < m_pre.loops@.len());
                            assert(spec_open_at(pre, m_pre, i));
                        }
                    }
                } else if i == exit_block {
                    assert(m1.loops@[m_pre.loops@.len() as int].exit_block == i);
                }
            }
            assert forall|i: int| 0 <= i < c1.unit.blocks@.len() implies match (
            #[trigger] c1.unit.blocks@[i]).terminator {
                Some(t) => spec_terminator_ok(t, c1.unit.blocks@.len()),
                None => true,
            } by {
                if i < pre.unit.blocks@.len() && i != pre.current {
                    assert(c1.unit.blocks@[i] == pre.unit.blocks@[i]);
                }
            }
            assert forall|k1: int, k2: int| 0 <= k1 < k2 < m1.loops@.len() implies (
            #[trigger] m1.loops@[k1]).exit_block != (#[trigger] m1.loops@[k2]).exit_block by {
                if k2 == m1.loops@.len() - 1 {
                    assert(m1.loops@[k1].exit_block < pre.unit.blocks@.len());
                }
            }
            assert forall|key: Seq<char>|
                #[trigger] m1.function_scope.as_map().dom().contains(key) implies spec_slot_wf(
                c1.unit,
                m1.function_scope.as_map()[key],
            ) by {
                let v = m1.function_scope.as_map()[key];
                assert(spec_slot_wf(pre.unit, v));
                if v.ptr.block == pre.current {
                    assert(c1.unit.blocks@[v.ptr.block as int].instrs
                        == pre.unit.blocks@[v.ptr.block as int].instrs);
                } else {
                    assert(c1.unit.blocks@[v.ptr.block as int] == pre.unit.blocks@[v.ptr.block as int]);
                }
            }
            assert(spec_low_wf(c1, m1));
            assert(c1.current == pre.unit.blocks@.len());
            assert(c1.unit.blocks@.len() == pre.unit.blocks@.len() + 2);
            assert(spec_same_shell(pre.unit, c1.unit));
            assert(c1.unit.globals == pre.unit.globals);
            assert(c1.unit.blocks@[pre.current as int].instrs == pre.unit.blocks@[pre.current as int].instrs);
            assert(c1.unit.blocks@[pre.current as int].terminator == Some(
                Terminator::Jump(loop_block),
            ));
            assert(c1.unit.blocks@[loop_block as int].instrs@ == Seq::<Instr>::empty());
            assert(c1.unit.blocks@[loop_block as int + 1].instrs@ == Seq::<Instr>::empty());
            assert(m1.function_scope == m_pre.function_scope);
            assert(m1.loops@ == m_pre.loops@.push(LoopMetadata { loop_block, exit_block }));
        }
        let body_result = compile(compiler, &self.0, compile_meta);
        let ghost rb = body_result;
        let ghost mb = *compile_meta;
        proof {
            assert(spec_tree_post(self.0@, m1, mb, c1, *compiler, rb));
        }
        compile_meta.loops.pop();
        proof {
            assert(mb.loops@ == m1.loops@);
            assert(compile_meta.loops@ =~= m_pre.loops@);
        }
        match body_result {
            Err(e) => {
                proof {
                    lemma_loop_frame(pre, c1, *compiler);
                    assert(compile_meta.function_scope == mb.function_scope);
                    assert(rb == Err::<(), CompileError>(e));
                    assert(spec_tree_post(self.0@, m1, mb, c1, *compiler, Err(e)));
                    assert(spec_mid_state(m1, c1));
                    assert(spec_mid_state(mb, *compiler));
                    assert(spec_loop_post(*self, m_pre, *compile_meta, pre, *compiler, Err(e)));
                }
                return Err(e);
            },
            Ok(()) => {
                proof {
                    assert(rb is Ok);
                    assert(rb->Ok_0 == ());
                    assert(rb == Ok::<(), CompileError>(()));
                }
            },
        }
        let ghost c2 = *compiler;
        let ghost m2 = *compile_meta;
        compiler.set_terminator(Terminator::Jump(loop_block));
        compiler.current = exit_block;
        proof {
            let post = *compiler;
            assert(spec_low_wf(c2, mb));
            assert(exit_block != c2.current) by {
                assert(mb.loops@[mb.loops@.len() - 1].exit_block == exit_block);
            }
            assert forall|i: int| 0 <= i < post.unit.blocks@.len() implies ((
            #[trigger] post.unit.blocks@[i]).terminator is None <==> spec_open_at(post, m2, i)) by {
                if i != c2.current {
                    assert(post.unit.blocks@[i] == c2.unit.blocks@[i]);
                    assert(c2.unit.blocks@[i].terminator is None <==> spec_open_at(c2, mb, i));
                    if c2.unit.blocks@[i].terminator is None {
                        if i == c2.current {
                        } else if i == exit_block {
                            assert(i == post.current);
                        } else {
                            let k = choose|k: int|
                                0 <= k < mb.loops@.len() && (#[trigger] mb.loops@[k]).exit_block
                                    == i;
                            assert(k < mb.loops@.len() - 1);
                            assert(m2.loops@[k].exit_block == i);
                        }
                    }
                    if spec_open_at(post, m2, i) {
                        if i == post.current {
                            assert(c2.unit.blocks@[i].terminator is None) by {
                                assert(mb.loops@[mb.loops@.len() - 1].exit_block == exit_block);
                                assert(spec_open_at(c2, mb, exit_block as int));
                            }
                        } else {
                            let k = choose|k: int|
                                0 <= k < m2.loops@.len() && (#[trigger] m2.loops@[k]).exit_block
                                    == i;
                            assert(mb.loops@[k].exit_block == i);
                            assert(spec_open_at(c2, mb, i));
                        }
                    }
                } else {
                    assert(post.unit.blocks@[i].terminator == Some(Terminator::Jump(loop_block)));
                    assert(!spec_open_at(post, m2, i)) by {
                        assert(i != post.current) by {
                            assert(mb.loops@[mb.loops@.len() - 1].exit_block == exit_block);
                        }
                        if spec_open_at(post, m2, i) {
                            let k = choose|k: int|
                                0 <= k < m2.loops@.len() && (#[trigger] m2.loops@[k]).exit_block
                                    == i;
                            assert(mb.loops@[k].exit_block == i);
                            assert(spec_open_at(c2, mb, i));
                        }
                    }
                }
            }
            assert forall|i: int| 0 <= i < post.unit.blocks@.len() implies match (
            #[trigger] post.unit.blocks@[i]).terminator {
                Some(t) => spec_terminator_ok(t, post.unit.blocks@.len()),
                None => true,
            } by {
                if i != c2.current {
                    assert(post.unit.blocks@[i] == c2.unit.blocks@[i]);
                }
            }
            assert forall|key: Seq<char>|
                #[trigger] m2.function_scope.as_map().dom().contains(key) implies spec_slot_wf(
                post.unit,
                m2.function_scope.as_map()[key],
            ) by {
                let v = m2.function_scope.as_map()[key];
                assert(mb.function_scope.as_map().dom().contains(key));
                assert(spec_slot_wf(c2.unit, v));
                if v.ptr.block == c2.current {
                    assert(post.unit.blocks@[v.ptr.block as int].instrs
                        == c2.unit.blocks@[v.ptr.block as int].instrs);
                } else {
                    assert(post.unit.blocks@[v.ptr.block as int] == c2.unit.blocks@[v.ptr.block as int]);
                }
            }
            assert(spec_low_wf(post, m2));
            lemma_loop_frame(pre, c1, c2);
            assert forall|i: int| 0 <= i < c2.unit.blocks@.len() implies (
            #[trigger] c2.unit.blocks@[i]).instrs@.is_prefix_of(post.unit.blocks@[i].instrs@) by {
                if i != c2.current {
                    assert(post.unit.blocks@[i] == c2.unit.blocks@[i]);
                }
                lemma_self_prefix(c2.unit.blocks@[i].instrs@);
                assert(c2.unit.blocks@[i].instrs@ == post.unit.blocks@[i].instrs@);
            }
            lemma_self_prefix(c2.unit.globals@);
            assert(spec_extends(c2.unit, post.unit));
            lemma_extends_trans(pre.unit, c2.unit, post.unit);
            assert(c2.unit.blocks@[pre.current as int] == c1.unit.blocks@[pre.current as int]) by {
                assert(c1.unit.blocks@[pre.current as int].terminator is Some);
            }
            assert(c2.current != pre.current) by {
                assert(c2.unit.blocks@[c2.current as int].terminator is None) by {
                    assert(spec_open_at(c2, mb, c2.current as int));
                }
            }
            assert(post.unit.blocks@[pre.current as int] == c2.unit.blocks@[pre.current as int]);
            assert(post.unit.blocks@[c2.current as int].terminator == Some(
                Terminator::Jump(loop_block),
            ));
            assert(m2.function_scope == mb.function_scope);
            assert(rb == Ok::<(), CompileError>(()));
            assert(spec_tree_post(self.0@, m1, mb, c1, c2, Ok(())));
            assert(spec_mid_state(m1, c1));
            assert(spec_mid_state(mb, c2));
            assert(spec_loop_post(*self, m_pre, m2, pre, post, Ok(())));
        }
        Ok(())
    }
}

/// The block sealed when a loop was entered keeps its seal through the
/// body: the unit only grows.
proof fn lemma_loop_frame(pre: Compiler, c1: Compiler, c2: Compiler)
    requires
        pre.current < pre.unit.blocks@.len(),
        pre.unit.blocks@[pre.current as int].terminator is None,
        c1.unit.blocks@.len() == pre.unit.blocks@.len() + 2,
        forall|i: int|
            0 <= i < pre.unit.blocks@.len() && i != pre.current ==> c1.unit.blocks@[i]
                == pre.unit.blocks@[i],
        c1.unit.blocks@[pre.current as int].instrs == pre.unit.blocks@[pre.current as int].instrs,
        spec_same_shell(pre.unit, c1.unit),
        c1.unit.globals == pre.unit.globals,
        spec_extends(c1.unit, c2.unit),
    ensures
        spec_extends(pre.unit, c2.unit),
{
    assert(spec_extends(pre.unit, c1.unit)) by {
        assert forall|i: int| 0 <= i < pre.unit.blocks@.len() implies (
        #[trigger] pre.unit.blocks@[i]).instrs@.is_prefix_of(c1.unit.blocks@[i].instrs@) by {
            if i != pre.current {
                assert(c1.unit.blocks@[i] == pre.unit.blocks@[i]);
            }
            lemma_self_prefix(pre.unit.blocks@[i].instrs@);
            assert(pre.unit.blocks@[i].instrs@ == c1.unit.blocks@[i].instrs@);
        }
        lemma_self_prefix(pre.unit.globals@);
    }
    lemma_extends_trans(pre.unit, c1.unit, c2.unit);
}


/// The contract of lowering one loop, stated over the states before and
/// after. Two fresh blocks open the loop: the body block, which the
/// sealed predecessor jumps into, and the exit block. The body lowers
/// under the loop context pushed for the duration; afterwards the block
/// it left open is sealed with the back edge and lowering stands at the
/// exit block. The loop stack comes back as it was; the scope keeps
/// whatever the body declared, since the function body has one flat
/// scope.
pub open spec fn spec_loop_post(
    l: Loop,
    m_pre: CompileMetadata,
    m_post: CompileMetadata,
    pre: Compiler,
    post: Compiler,
    r: Result<(), CompileError>,
) -> bool
    decreases l,
{
    let lb = pre.unit.blocks@.len() as int;
    exists|c1: Compiler, m1: CompileMetadata, mb: CompileMetadata, c2: Compiler|
        #![trigger spec_mid_state(m1, c1), spec_mid_state(mb, c2)]
        {
            &&& spec_mid_state(m1, c1)
            &&& spec_mid_state(mb, c2)
            &&& c1.current == lb
            &&& c1.unit.blocks@.len() == lb + 2
            &&& spec_same_shell(pre.unit, c1.unit)
            &&& c1.unit.globals == pre.unit.globals
            &&& forall|i: int|
                0 <= i < lb && i != pre.current ==> c1.unit.blocks@[i] == pre.unit.blocks@[i]
            &&& c1.unit.blocks@[pre.current as int].instrs == pre.unit.blocks@[pre.current as int].instrs
            &&& c1.unit.blocks@[pre.current as int].terminator == Some(
                Terminator::Jump(lb as usize),
            )
            &&& c1.unit.blocks@[lb].instrs@ == Seq::<Instr>::empty()
            &&& c1.unit.blocks@[lb + 1].instrs@ == Seq::<Instr>::empty()
            &&& m1.function_scope == m_pre.function_scope
            &&& m1.loops@ == m_pre.loops@.push(
                LoopMetadata { loop_block: lb as usize, exit_block: (lb + 1) as usize },
            )
            &&& m_post.function_scope == mb.function_scope
            &&& m_post.loops@ == m_pre.loops@
            &&& if r is Err {
                spec_tree_post(l.0@, m1, mb, c1, c2, r) && post == c2
            } else {
                &&& spec_tree_post(l.0@, m1, mb, c1, c2, Ok(()))
                &&& post.current == lb + 1
                &&& post.unit.blocks@.len() == c2.unit.blocks@.len()
                &&& spec_same_shell(c2.unit, post.unit)
                &&& post.unit.globals == c2.unit.globals
                &&& forall|i: int|
                    0 <= i < c2.unit.blocks@.len() && i != c2.current
                        ==> post.unit.blocks@[i] == c2.unit.blocks@[i]
                &&& post.unit.blocks@[c2.current as int].instrs == c2.unit.blocks@[c2.current as int].instrs
                &&& post.unit.blocks@[c2.current as int].terminator == Some(
                    Terminator::Jump(lb as usize),
                )
            }
        }
}

/// The contract of lowering one statement, by its kind: the five
/// implemented forms behave as their own contracts say, an import
/// lowers to nothing, and every deferred construct fails fast leaving
/// the state untouched.
pub open spec fn spec_node_post(
    n: Node,
    m_pre: CompileMetadata,
    m_post: CompileMetadata,
    pre: Compiler,
    post: Compiler,
    r: Result<(), CompileError>,
) -> bool
    decreases n,
{
    match n {
        Node::Variable(v) => spec_variable_post(v, m_pre, m_post, pre, post, r),
        Node::Assignment(a) => spec_assignment_post(a, m_pre, m_post, pre, post, r),
        Node::Break(_) => spec_break_post(m_pre, m_post, pre, post, r),
        Node::Call(c) => spec_call_post(c, m_pre, m_post, pre, post, r),
        Node::Loop(l) => spec_loop_post(l, m_pre, m_post, pre, post, r),
        Node::Import(_) => r is Ok && post == pre && m_post == m_pre,
        _ => r == Err::<(), CompileError>(CompileError::Unimplemented) && post == pre && m_post
            == m_pre,
    }
}


/// A trigger marker naming one intermediate state of a statement
/// sequence's lowering; always true, it only guides the verifier to the
/// right intermediate states.
pub open spec fn spec_mid_state(m: CompileMetadata, c: Compiler) -> bool {
    true
}

/// The contract of lowering a statement sequence: the statements lower
/// in source order, each from the state the previous one left, and the
/// first failure stops everything with that error and that state.
pub open spec fn spec_tree_post(
    t: Seq<Node>,
    m_pre: CompileMetadata,
    m_post: CompileMetadata,
    pre: Compiler,
    post: Compiler,
    r: Result<(), CompileError>,
) -> bool
    decreases t,
{
    if t.len() == 0 {
        r is Ok && post == pre && m_post == m_pre
    } else {
        (r is Err && exists|m_mid: CompileMetadata, c_mid: Compiler|
            #[trigger] spec_mid_state(m_mid, c_mid) && spec_node_post(t[0], m_pre, m_mid, pre, c_mid, r)
                && post == c_mid && m_post == m_mid) || (exists|m_mid: CompileMetadata, c_mid: Compiler|
            #[trigger] spec_mid_state(m_mid, c_mid) && spec_node_post(t[0], m_pre, m_mid, pre, c_mid, Ok(()))
                && spec_tree_post(t.drop_first(), m_mid, m_post, c_mid, post, r))
    }
}

/// Lower one statement node. Variable declarations, assignments, loops,
/// breaks and calls are the implemented subset; an import is a compiler
/// directive consumed by module resolution and lowers to nothing; every
/// other construct is deferred and fails fast rather than being silently
/// skipped.
pub fn compile_one(
    compiler: &mut Compiler,
    node: &Node,
    compile_meta: &mut CompileMetadata,
) -> (r: Result<(), CompileError>)
    requires
        spec_low_wf(*old(compiler), *old(compile_meta)),
    ensures
        spec_extends(old(compiler).unit, final(compiler).unit),
        final(compile_meta).loops@ == old(compile_meta).loops@,
        r is Ok ==> spec_low_wf(*final(compiler), *final(compile_meta)),
        *node is Import ==> r is Ok && *final(compiler) == *old(compiler) && *final(compile_meta)
            == *old(compile_meta),
        (*node is Function || *node is Throw || *node is TryCatch || *node is If || *node is Class
            || *node is Return || *node is Expr) ==> r == Err::<(), CompileError>(
            CompileError::Unimplemented,
        ) && *final(compiler) == *old(compiler) && *final(compile_meta) == *old(compile_meta),
        spec_node_post(
            *node,
            *old(compile_meta),
            *final(compile_meta),
            *old(compiler),
            *final(compiler),
            r,
        ),
    decreases *node,
{
    match node {
        Node::Variable(x) => x.compile(compiler, compile_meta),
        Node::Assignment(x) => x.compile(compiler, compile_meta),
        Node::Loop(x) => x.compile(compiler, compile_meta),
        Node::Break(x) => x.compile(compiler, compile_meta),
        Node::Call(x) => x.compile(compiler, compile_meta),
        Node::Import(_) => {
            proof {
                lemma_extends_refl(compiler.unit);
            }
            Ok(())
        },
        Node::Function(_) => {
            proof {
                lemma_extends_refl(compiler.unit);
            }
            Err(CompileError::Unimplemented)
        },
        Node::Throw(_) => {
            proof {
                lemma_extends_refl(compiler.unit);
            }
            Err(CompileError::Unimplemented)
        },
        Node::TryCatch(_) => {
            proof {
                lemma_extends_refl(compiler.unit);
            }
            Err(CompileError::Unimplemented)
        },
        Node::If(_) => {
            proof {
                lemma_extends_refl(compiler.unit);
            }
            Err(CompileError::Unimplemented)
        },
        Node::Class(_) => {
            proof {
                lemma_extends_refl(compiler.unit);
            }
            Err(CompileError::Unimplemented)
        },
        Node::Return(_) => {
            proof {
                lemma_extends_refl(compiler.unit);
            }
            Err(CompileError::Unimplemented)
        },
        Node::Expr(_) => {
            proof {
                lemma_extends_refl(compiler.unit);
            }
            Err(CompileError::Unimplemented)
        },
    }
}

/// Lower a whole statement sequence in source order, stopping at the
/// first failure.
pub fn compile(
    compiler: &mut Compiler,
    tree: &Tree,
    compile_meta: &mut CompileMetadata,
) -> (r: Result<(), CompileError>)
    requires
        spec_low_wf(*old(compiler), *old(compile_meta)),
    ensures
        spec_extends(old(compiler).unit, final(compiler).unit),
        final(compile_meta).loops@ == old(compile_meta).loops@,
        r is Ok ==> spec_low_wf(*final(compiler), *final(compile_meta)),
        spec_tree_post(
            tree@,
            *old(compile_meta),
            *final(compile_meta),
            *old(compiler),
            *final(compiler),
            r,
        ),
    decreases tree@,
{
    let ghost pre = *compiler;
    let ghost m0 = *compile_meta;
    proof {
        lemma_extends_refl(pre.unit);
        assert(tree@.skip(0) =~= tree@);
    }
    let n = tree.len();
    let mut i: usize = 0;
    while i < n
        invariant
            i <= n,
            n == tree@.len(),
            spec_low_wf(*compiler, *compile_meta),
            spec_extends(pre.unit, compiler.unit),
            compile_meta.loops@ == old(compile_meta).loops@,
            pre == *old(compiler),
            m0 == *old(compile_meta),
            forall|mp: CompileMetadata, cp: Compiler, rr: Result<(), CompileError>|
                #[trigger] spec_tree_post(tree@.skip(i as int), *compile_meta, mp, *compiler, cp, rr)
                    ==> spec_tree_post(tree@, m0, mp, pre, cp, rr),
        decreases n - i,
    {
        let ghost m_b = *compile_meta;
        let ghost before = *compiler;
        let step = compile_one(compiler, &tree[i], compile_meta);
        let ghost step_g = step;
        match step {
            Ok(()) => {
                proof {
                    assert(step_g is Ok);
                    assert(step_g->Ok_0 == ());
                    assert(step_g == Ok::<(), CompileError>(()));
                }
            },
            Err(e) => {
                proof {
                    lemma_extends_trans(pre.unit, before.unit, compiler.unit);
                    assert(tree@.skip(i as int)[0] == tree@[i as int]);
                    assert(step_g == Err::<(), CompileError>(e));
                    assert(spec_node_post(
                        tree@.skip(i as int)[0],
                        m_b,
                        *compile_meta,
                        before,
                        *compiler,
                        Err(e),
                    ));
                    assert(spec_mid_state(*compile_meta, *compiler));
                    assert(spec_tree_post(
                        tree@.skip(i as int),
                        m_b,
                        *compile_meta,
                        before,
                        *compiler,
                        Err(e),
                    ));
                }
                return Err(e);
            },
        }
        proof {
            lemma_extends_trans(pre.unit, before.unit, compiler.unit);
            let m_a = *compile_meta;
            let c_a = *compiler;
            assert(step_g == Ok::<(), CompileError>(()));
            assert(tree@.skip(i as int)[0] == tree@[i as int]);
            assert(tree@.skip(i as int).drop_first() =~= tree@.skip(i + 1));
            assert forall|mp: CompileMetadata, cp: Compiler, rr: Result<(), CompileError>|
                #[trigger] spec_tree_post(tree@.skip(i + 1), m_a, mp, c_a, cp, rr) implies spec_tree_post(
                tree@,
                m0,
                mp,
                pre,
                cp,
                rr,
            ) by {
                assert(spec_node_post(
                    tree@.skip(i as int)[0],
                    m_b,
                    m_a,
                    before,
                    c_a,
                    Ok(()),
                ));
                assert(spec_mid_state(m_a, c_a));
                assert(spec_tree_post(tree@.skip(i as int), m_b, mp, before, cp, rr));
            }
        }
        i = i + 1;
    }
    proof {
        assert(tree@.skip(n as int) =~= Seq::<Node>::empty());
        assert(spec_tree_post(
            tree@.skip(n as int),
            *compile_meta,
            *compile_meta,
            *compiler,
            *compiler,
            Ok(()),
        ));
    }
    Ok(())
}











} // verus!
