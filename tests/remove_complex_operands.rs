use yep::ast::{Expression, Module, Operator, Statement};
use yep::remove_complex_operands::RemoveComplexOperandsPass;

fn constant(value: i64) -> Expression {
    Expression::Constant { value }
}

fn var(name: &str) -> Expression {
    Expression::VariableAccess { name: name.to_string() }
}

fn call(name: &str, args: Vec<Expression>) -> Expression {
    Expression::Call { name: name.to_string(), args }
}

fn binary(left: Expression, operator: Operator, right: Expression) -> Expression {
    Expression::BinaryOp { left: Box::new(left), operator, right: Box::new(right) }
}

fn negate(operand: Expression) -> Expression {
    Expression::UnaryOp { operator: Operator::Sub, operand: Box::new(operand) }
}

fn declare(name: &str, value: Expression) -> Statement {
    Statement::VariableDeclaration { name: name.to_string(), value }
}

fn run(statements: Vec<Statement>) -> Vec<Statement> {
    RemoveComplexOperandsPass::new(Module { statements }).run().statements
}

#[test]
fn transform_method_call_into_variable_access() {
    let result = run(vec![declare(
        "test",
        binary(
            binary(
                call("get_number", vec![]),
                Operator::Add,
                call("get_number_2", vec![call("get_number_3", vec![])]),
            ),
            Operator::Sub,
            constant(3),
        ),
    )]);
    assert_eq!(
        result,
        vec![
            declare("tmp_0", call("get_number", vec![])),
            declare("tmp_1", call("get_number_3", vec![])),
            declare("tmp_2", call("get_number_2", vec![var("tmp_1")])),
            declare("tmp_3", binary(var("tmp_0"), Operator::Add, var("tmp_2"))),
            declare("test", binary(var("tmp_3"), Operator::Sub, constant(3))),
        ]
    )
}

#[test]
fn test() {
    let result = run(vec![declare(
        "test",
        binary(
            binary(constant(3), Operator::Add, negate(constant(4))),
            Operator::Sub,
            negate(call("get_number", vec![])),
        ),
    )]);
    assert_eq!(
        result,
        vec![
            declare("tmp_0", negate(constant(4))),
            declare("tmp_1", binary(constant(3), Operator::Add, var("tmp_0"))),
            declare("tmp_2", call("get_number", vec![])),
            declare("tmp_3", negate(var("tmp_2"))),
            declare("test", binary(var("tmp_1"), Operator::Sub, var("tmp_3"))),
        ]
    )
}

#[test]
fn expression_statement_call_is_bound_to_a_temporary() {
    let result = run(vec![
        declare("a", constant(1)),
        Statement::Expression(call("print_int", vec![binary(var("a"), Operator::Add, constant(2))])),
    ]);
    assert_eq!(
        result,
        vec![
            declare("a", constant(1)),
            declare("tmp_0", binary(var("a"), Operator::Add, constant(2))),
            declare("tmp_1", call("print_int", vec![var("tmp_0")])),
            Statement::Expression(var("tmp_1")),
        ]
    )
}

#[test]
fn groupings_are_dropped_and_numbering_continues_across_statements() {
    let result = run(vec![
        declare("a", Expression::Grouping { expression: Box::new(negate(call("f", vec![]))) }),
        declare("b", call("g", vec![constant(1), var("a")])),
    ]);
    assert_eq!(
        result,
        vec![
            declare("tmp_0", call("f", vec![])),
            declare("a", negate(var("tmp_0"))),
            declare("tmp_1", call("g", vec![constant(1), var("a")])),
            declare("b", var("tmp_1")),
        ]
    )
}

#[test]
fn atoms_stay_as_they_are() {
    let result = run(vec![declare("a", constant(7)), declare("b", var("a"))]);
    assert_eq!(result, vec![declare("a", constant(7)), declare("b", var("a"))]);
}
