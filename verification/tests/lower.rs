use redditlang::ast::{
    Assignment, BinaryExpr, BinaryExprTerm, Break, Call, Declaration, Expr, Function, Ident,
    IfBlock, Loop, MathOperator, Node, Number, Term, Throw, Type, Variable,
};
use redditlang::errors::CompileError;
use redditlang::ir::{Block, CompilationUnit, Instr, InstrId, IrType, IrValue, Terminator};
use redditlang::lower::{CompileMetadata, Compiler};
use redditlang::resolver::ModulePath;
use redditlang::scope::Scope;
use redditlang::unit::compile_unit;

fn num(x: f64) -> Number {
    Number { bits: x.to_bits() }
}

fn ident(s: &str) -> Ident {
    Ident(String::from(s))
}

fn ty(name: &str) -> Type {
    Type { generics: vec![], root_type: ident(name) }
}

fn ty1(name: &str, inner: Type) -> Type {
    Type { generics: vec![inner], root_type: ident(name) }
}

fn declare(name: &str, t: Type, value: Term) -> Node {
    Node::Variable(Variable {
        modifiers: vec![],
        declaration: Declaration { ident: ident(name), ty: t },
        value: Expr::Term(value),
    })
}

fn assign(name: &str, value: Term) -> Node {
    Node::Assignment(Assignment { ident: ident(name), value: Expr::Term(value) })
}

fn call(name: &str, args: Vec<Expr>) -> Node {
    Node::Call(Call { ident: ident(name), args })
}

fn root() -> ModulePath {
    ModulePath { components: vec![String::from("main")] }
}

fn reg(block: usize, idx: usize) -> IrValue {
    IrValue::Reg(InstrId { block, idx })
}

fn slot(block: usize, idx: usize) -> InstrId {
    InstrId { block, idx }
}

/// A bare unit with the standard function table and one open block, for
/// driving the lowerer directly.
fn fresh_state() -> (Compiler, CompileMetadata) {
    let unit = CompilationUnit {
        name: String::from("main"),
        functions: vec![
            String::from("coitusinterruptus"),
            String::from("nums"),
            String::from("main"),
        ],
        entry: String::from("main"),
        blocks: vec![Block { instrs: vec![], terminator: None }],
        globals: vec![],
    };
    (
        Compiler { unit, current: 0 },
        CompileMetadata { loops: vec![], function_scope: Scope::new() },
    )
}

#[test]
fn declaration_emits_alloca_and_store() {
    let unit = compile_unit(&root(), &vec![declare("x", ty("Number"), Term::Number(num(5.0)))])
        .expect("declaration must compile");
    assert_eq!(
        unit.blocks[0].instrs,
        vec![
            Instr::Alloca { ty: IrType::F64 },
            Instr::Store { slot: slot(0, 0), value: IrValue::ConstNumber(num(5.0)) },
        ]
    );
    assert_eq!(unit.blocks[0].terminator, Some(Terminator::Ret));
}

#[test]
fn declaration_with_wrong_literal_type_fails() {
    let r = compile_unit(&root(), &vec![declare("x", ty("Number"), Term::Boolean(true))]);
    assert_eq!(r.unwrap_err(), CompileError::TypeMismatch);
}

#[test]
fn scenario_array_declared_with_string_fails() {
    let r = compile_unit(
        &root(),
        &vec![declare("arr", ty1("Array", ty("Number")), Term::String(String::from("oops")))],
    );
    assert_eq!(r.unwrap_err(), CompileError::TypeMismatch);
}

#[test]
fn declaration_with_unknown_type_fails() {
    let r = compile_unit(&root(), &vec![declare("x", ty("Wat"), Term::Number(num(1.0)))]);
    assert_eq!(r.unwrap_err(), CompileError::UnknownType(String::from("Wat")));
}

#[test]
fn declaration_from_undefined_ident_fails() {
    let r = compile_unit(&root(), &vec![declare("x", ty("Number"), Term::Ident(ident("y")))]);
    assert_eq!(r.unwrap_err(), CompileError::UndefinedVariable(String::from("y")));
}

#[test]
fn declaration_from_ident_requires_equal_types() {
    let r = compile_unit(
        &root(),
        &vec![
            declare("x", ty("Number"), Term::Number(num(1.0))),
            declare("y", ty("String"), Term::Ident(ident("x"))),
        ],
    );
    assert_eq!(r.unwrap_err(), CompileError::TypeMismatch);
}

#[test]
fn declaration_from_ident_loads_current_value() {
    let unit = compile_unit(
        &root(),
        &vec![
            declare("x", ty("Number"), Term::Number(num(1.0))),
            declare("y", ty("Number"), Term::Ident(ident("x"))),
        ],
    )
    .expect("must compile");
    assert_eq!(
        unit.blocks[0].instrs,
        vec![
            Instr::Alloca { ty: IrType::F64 },
            Instr::Store { slot: slot(0, 0), value: IrValue::ConstNumber(num(1.0)) },
            Instr::Load { slot: slot(0, 0) },
            Instr::Alloca { ty: IrType::F64 },
            Instr::Store { slot: slot(0, 3), value: reg(0, 2) },
        ]
    );
}

#[test]
fn null_initializer_stores_typed_zero() {
    let unit = compile_unit(&root(), &vec![declare("x", ty("Number"), Term::Null)])
        .expect("must compile");
    assert_eq!(
        unit.blocks[0].instrs[1],
        Instr::Store { slot: slot(0, 0), value: IrValue::ConstZero(IrType::F64) }
    );
}

#[test]
fn string_initializer_makes_global_buffer() {
    let unit = compile_unit(
        &root(),
        &vec![declare("s", ty("String"), Term::String(String::from("hi")))],
    )
    .expect("must compile");
    assert_eq!(unit.globals, vec![String::from("hi")]);
    assert_eq!(
        unit.blocks[0].instrs[1],
        Instr::Store { slot: slot(0, 0), value: IrValue::GlobalStr(0) }
    );
}

#[test]
fn assignment_to_undeclared_fails() {
    let r = compile_unit(&root(), &vec![assign("x", Term::Number(num(1.0)))]);
    assert_eq!(r.unwrap_err(), CompileError::UndefinedVariable(String::from("x")));
}

#[test]
fn assignment_type_must_match_declaration() {
    let r = compile_unit(
        &root(),
        &vec![
            declare("x", ty("Number"), Term::Number(num(1.0))),
            assign("x", Term::Boolean(false)),
        ],
    );
    assert_eq!(r.unwrap_err(), CompileError::TypeMismatch);
}

#[test]
fn assignment_reuses_existing_slot() {
    let unit = compile_unit(
        &root(),
        &vec![
            declare("x", ty("Number"), Term::Number(num(1.0))),
            assign("x", Term::Number(num(2.0))),
        ],
    )
    .expect("must compile");
    assert_eq!(
        unit.blocks[0].instrs[2],
        Instr::Store { slot: slot(0, 0), value: IrValue::ConstNumber(num(2.0)) }
    );
    let allocas = unit.blocks[0]
        .instrs
        .iter()
        .filter(|i| matches!(i, Instr::Alloca { .. }))
        .count();
    assert_eq!(allocas, 1);
}

#[test]
fn scenario_declare_assign_print() {
    let unit = compile_unit(
        &root(),
        &vec![
            declare("x", ty("Number"), Term::Number(num(5.0))),
            assign("x", Term::Number(num(10.0))),
            call("coitusinterruptus", vec![Expr::Term(Term::Ident(ident("x")))]),
        ],
    )
    .expect("must compile");
    assert_eq!(
        unit.blocks[0].instrs,
        vec![
            Instr::Alloca { ty: IrType::F64 },
            Instr::Store { slot: slot(0, 0), value: IrValue::ConstNumber(num(5.0)) },
            Instr::Store { slot: slot(0, 0), value: IrValue::ConstNumber(num(10.0)) },
            Instr::Load { slot: slot(0, 0) },
            Instr::Call { callee: String::from("coitusinterruptus"), args: vec![reg(0, 3)] },
        ]
    );
    assert_eq!(unit.blocks[0].terminator, Some(Terminator::Ret));
}

#[test]
fn break_outside_loop_fails() {
    let r = compile_unit(&root(), &vec![Node::Break(Break)]);
    assert_eq!(r.unwrap_err(), CompileError::BreakOutsideLoop);
}

#[test]
fn scenario_loop_with_only_break() {
    let unit = compile_unit(&root(), &vec![Node::Loop(Loop(vec![Node::Break(Break)]))])
        .expect("must compile");
    // Entry jumps into the loop block; the loop block jumps straight to
    // the exit block: no back-edge from the loop block to itself.
    assert_eq!(unit.blocks[0].terminator, Some(Terminator::Jump(1)));
    assert_eq!(unit.blocks[1].instrs, vec![]);
    assert_eq!(unit.blocks[1].terminator, Some(Terminator::Jump(2)));
    assert_eq!(unit.blocks[2].terminator, Some(Terminator::Ret));
    // The dead continuation block opened after the break carries the
    // formal back edge; control cannot reach it.
    assert_eq!(unit.blocks[3].terminator, Some(Terminator::Jump(1)));
}

#[test]
fn empty_loop_has_back_edge() {
    let unit = compile_unit(&root(), &vec![Node::Loop(Loop(vec![]))]).expect("must compile");
    assert_eq!(unit.blocks[0].terminator, Some(Terminator::Jump(1)));
    assert_eq!(unit.blocks[1].terminator, Some(Terminator::Jump(1)));
    assert_eq!(unit.blocks[2].terminator, Some(Terminator::Ret));
}

#[test]
fn break_targets_innermost_loop() {
    let tree = vec![Node::Loop(Loop(vec![
        Node::Loop(Loop(vec![Node::Break(Break)])),
        Node::Break(Break),
    ]))];
    let unit = compile_unit(&root(), &tree).expect("must compile");
    // Outer loop block 1, outer exit 2; inner loop block 3, inner exit 4.
    assert_eq!(unit.blocks[1].terminator, Some(Terminator::Jump(3)));
    // The inner break jumps to the inner exit...
    assert_eq!(unit.blocks[3].terminator, Some(Terminator::Jump(4)));
    // ...and the outer break, lowered after the inner loop is done,
    // jumps to the outer exit.
    assert_eq!(unit.blocks[4].terminator, Some(Terminator::Jump(2)));
    assert_eq!(unit.blocks[2].terminator, Some(Terminator::Ret));
}

#[test]
fn fold_is_order_sensitive_not_precedence_sensitive() {
    let (mut compiler, meta) = fresh_state();
    let chain = Expr::BinaryExpr(BinaryExpr {
        terms: vec![
            BinaryExprTerm { operand: Term::Number(num(2.0)), operator: Some(MathOperator::Add) },
            BinaryExprTerm {
                operand: Term::Number(num(3.0)),
                operator: Some(MathOperator::Multiply),
            },
        ],
    });
    let v = chain.compute(&mut compiler, &meta).expect("must lower");
    // acc starts at 0.0; acc = acc + 2; acc = acc * 3 — strictly left to
    // right, with no precedence climbing.
    assert_eq!(
        compiler.unit.blocks[0].instrs,
        vec![
            Instr::FloatBin {
                op: MathOperator::Add,
                lhs: IrValue::ConstZero(IrType::F64),
                rhs: IrValue::ConstNumber(num(2.0)),
            },
            Instr::FloatBin {
                op: MathOperator::Multiply,
                lhs: reg(0, 0),
                rhs: IrValue::ConstNumber(num(3.0)),
            },
        ]
    );
    assert_eq!(v, reg(0, 1));
}

#[test]
fn fold_missing_operator_defaults_to_add() {
    let (mut compiler, meta) = fresh_state();
    let chain = Expr::BinaryExpr(BinaryExpr {
        terms: vec![BinaryExprTerm { operand: Term::Number(num(7.0)), operator: None }],
    });
    let v = chain.compute(&mut compiler, &meta).expect("must lower");
    assert_eq!(
        compiler.unit.blocks[0].instrs,
        vec![Instr::FloatBin {
            op: MathOperator::Add,
            lhs: IrValue::ConstZero(IrType::F64),
            rhs: IrValue::ConstNumber(num(7.0)),
        }]
    );
    assert_eq!(v, reg(0, 0));
}

#[test]
fn fold_xor_goes_through_integers() {
    let (mut compiler, meta) = fresh_state();
    let chain = Expr::BinaryExpr(BinaryExpr {
        terms: vec![
            BinaryExprTerm { operand: Term::Number(num(5.0)), operator: None },
            BinaryExprTerm { operand: Term::Number(num(3.0)), operator: Some(MathOperator::XOR) },
        ],
    });
    let v = chain.compute(&mut compiler, &meta).expect("must lower");
    assert_eq!(
        compiler.unit.blocks[0].instrs,
        vec![
            Instr::FloatBin {
                op: MathOperator::Add,
                lhs: IrValue::ConstZero(IrType::F64),
                rhs: IrValue::ConstNumber(num(5.0)),
            },
            Instr::FloatToInt { value: reg(0, 0) },
            Instr::FloatToInt { value: IrValue::ConstNumber(num(3.0)) },
            Instr::IntXor { lhs: reg(0, 1), rhs: reg(0, 2) },
            Instr::IntToFloat { value: reg(0, 3) },
        ]
    );
    assert_eq!(v, reg(0, 4));
}

#[test]
fn non_literal_operand_is_internal_invariant_violation() {
    let (mut compiler, meta) = fresh_state();
    let chain = Expr::BinaryExpr(BinaryExpr {
        terms: vec![BinaryExprTerm {
            operand: Term::Ident(ident("x")),
            operator: Some(MathOperator::Add),
        }],
    });
    let r = chain.compute(&mut compiler, &meta);
    assert_eq!(r.unwrap_err(), CompileError::InvalidOperand);
    assert!(compiler.unit.blocks[0].instrs.is_empty());
    assert!(CompileError::InvalidOperand.is_internal());
}

#[test]
fn scenario_undefined_function_emits_nothing() {
    let (mut compiler, mut meta) = fresh_state();
    let stmt = Call { ident: ident("definitely_not_defined"), args: vec![] };
    let r = stmt.compile(&mut compiler, &mut meta);
    assert_eq!(
        r.unwrap_err(),
        CompileError::UndefinedFunction(String::from("definitely_not_defined"))
    );
    assert!(compiler.unit.blocks[0].instrs.is_empty());
    // And through the whole unit compiler the same call aborts the unit.
    let r2 = compile_unit(&root(), &vec![call("definitely_not_defined", vec![])]);
    assert_eq!(
        r2.unwrap_err(),
        CompileError::UndefinedFunction(String::from("definitely_not_defined"))
    );
}

#[test]
fn unimplemented_constructs_fail_loudly() {
    let r = compile_unit(
        &root(),
        &vec![Node::Throw(Throw(Expr::Term(Term::Null)))],
    );
    assert_eq!(r.unwrap_err(), CompileError::Unimplemented);
    let r2 = compile_unit(&root(), &vec![Node::If(IfBlock { if_nodes: vec![] })]);
    assert_eq!(r2.unwrap_err(), CompileError::Unimplemented);
}

#[test]
fn empty_chain_folds_to_zero() {
    let (mut compiler, meta) = fresh_state();
    let chain = Expr::BinaryExpr(BinaryExpr { terms: vec![] });
    let v = chain.compute(&mut compiler, &meta).expect("must lower");
    assert_eq!(v, IrValue::ConstZero(IrType::F64));
    assert!(compiler.unit.blocks[0].instrs.is_empty());
}

#[test]
fn function_declarations_are_deferred() {
    let r = compile_unit(
        &root(),
        &vec![Node::Function(Function {
            modifiers: vec![],
            declaration: Declaration { ident: ident("f"), ty: ty("Number") },
            args: vec![],
            body: vec![],
        })],
    );
    assert_eq!(r.unwrap_err(), CompileError::Unimplemented);
}

#[test]
fn import_lowers_to_nothing() {
    let unit = compile_unit(
        &root(),
        &vec![Node::Import(redditlang::ast::Import(String::from("other")))],
    )
    .expect("must compile");
    assert!(unit.blocks[0].instrs.is_empty());
    assert_eq!(unit.blocks[0].terminator, Some(Terminator::Ret));
}
