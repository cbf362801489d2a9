use yep::ast::{Expression, Module, Operator, Statement};
use yep::partial_evaluator::PartialEvaluator;

fn constant(value: i64) -> Expression {
    Expression::Constant { value }
}

fn binary(left: Expression, operator: Operator, right: Expression) -> Expression {
    Expression::BinaryOp { left: Box::new(left), operator, right: Box::new(right) }
}

fn negate(operand: Expression) -> Expression {
    Expression::UnaryOp { operator: Operator::Sub, operand: Box::new(operand) }
}

fn group(expression: Expression) -> Expression {
    Expression::Grouping { expression: Box::new(expression) }
}

fn evaluate(statements: Vec<Statement>) -> Vec<Statement> {
    PartialEvaluator::new(Module { statements }).evaluate().statements
}

#[test]
fn do_nothing_with_constant_expression() {
    let result = evaluate(vec![Statement::Expression(constant(5))]);
    assert_eq!(result, vec![Statement::Expression(constant(5))]);
}

#[test]
fn evaluate_unary_op_with_constant() {
    let result = evaluate(vec![Statement::Expression(negate(constant(5)))]);
    assert_eq!(result, vec![Statement::Expression(constant(-5))]);
}

#[test]
fn evaluate_binary_op_with_constants() {
    let result = evaluate(vec![Statement::Expression(binary(constant(8), Operator::Sub, constant(3)))]);
    assert_eq!(result, vec![Statement::Expression(constant(5))]);
}

#[test]
fn evaluate_binary_op_with_nested_expressions() {
    // 8 - (-(3 + 1) + 2) = 10
    let expression = binary(
        constant(8),
        Operator::Sub,
        binary(
            negate(binary(constant(3), Operator::Add, constant(1))),
            Operator::Add,
            binary(constant(1), Operator::Add, constant(1)),
        ),
    );
    let result = evaluate(vec![Statement::Expression(expression)]);
    assert_eq!(result, vec![Statement::Expression(constant(10))]);
}

#[test]
fn evaluate_constant_assignment_to_variable() {
    let result = evaluate(vec![Statement::VariableDeclaration {
        name: "foo".to_string(),
        value: binary(constant(8), Operator::Sub, constant(3)),
    }]);
    assert_eq!(
        result,
        vec![Statement::VariableDeclaration { name: "foo".to_string(), value: constant(5) }]
    );
}

fn runtime_program() -> Vec<Statement> {
    // x - (-(3 + get_value()) + (1 + 1))
    vec![Statement::Expression(binary(
        Expression::VariableAccess { name: "x".to_string() },
        Operator::Sub,
        binary(
            negate(binary(
                constant(3),
                Operator::Add,
                Expression::Call { name: "get_value".to_string(), args: vec![] },
            )),
            Operator::Add,
            binary(constant(1), Operator::Add, constant(1)),
        ),
    ))]
}

#[test]
fn do_not_evalute_when_there_is_runtime_expressions() {
    // the runtime parts stay; only the constant (1 + 1) folds
    let program = Module { statements: runtime_program() };
    let result = PartialEvaluator::new(program).evaluate();
    assert_eq!(
        result.statements,
        vec![Statement::Expression(binary(
            Expression::VariableAccess { name: "x".to_string() },
            Operator::Sub,
            binary(
                negate(binary(
                    constant(3),
                    Operator::Add,
                    Expression::Call { name: "get_value".to_string(), args: vec![] },
                )),
                Operator::Add,
                constant(2),
            ),
        ))]
    );
}

fn all_runtime_program() -> Vec<Statement> {
    // -(x + f(y)) * (g() / z)
    vec![Statement::Expression(binary(
        negate(binary(
            Expression::VariableAccess { name: "x".to_string() },
            Operator::Add,
            Expression::Call {
                name: "f".to_string(),
                args: vec![Expression::VariableAccess { name: "y".to_string() }],
            },
        )),
        Operator::Multiply,
        group(binary(
            Expression::Call { name: "g".to_string(), args: vec![] },
            Operator::Divide,
            Expression::VariableAccess { name: "z".to_string() },
        )),
    ))]
}

#[test]
fn runtime_tree_is_left_unchanged() {
    let program = Module { statements: all_runtime_program() };
    let original_program = program.clone();
    let result = PartialEvaluator::new(program).evaluate();
    assert_eq!(result.statements, original_program.statements);
}

#[test]
fn call_arguments_are_folded() {
    let result = evaluate(vec![Statement::Expression(Expression::Call {
        name: "print_int".to_string(),
        args: vec![binary(constant(2), Operator::Multiply, group(binary(constant(3), Operator::Add, constant(4))))],
    })]);
    assert_eq!(
        result,
        vec![Statement::Expression(Expression::Call {
            name: "print_int".to_string(),
            args: vec![constant(14)],
        })]
    );
}

#[test]
fn evaluate_grouped_nested_expression() {
    // 8 - (-((3 + 1)) + (1 + 1)), with its groupings
    let expression = binary(
        constant(8),
        Operator::Sub,
        group(binary(
            negate(group(group(binary(constant(3), Operator::Add, constant(1))))),
            Operator::Add,
            group(binary(constant(1), Operator::Add, constant(1))),
        )),
    );
    let result = evaluate(vec![Statement::Expression(expression)]);
    assert_eq!(result, vec![Statement::Expression(constant(10))]);
}

#[test]
fn evaluate_multiplication_and_division() {
    let result = evaluate(vec![
        Statement::Expression(binary(constant(6), Operator::Multiply, constant(7))),
        Statement::Expression(binary(constant(-7), Operator::Divide, constant(2))),
    ]);
    assert_eq!(
        result,
        vec![Statement::Expression(constant(42)), Statement::Expression(constant(-3))]
    );
}

#[test]
fn arithmetic_wraps_around() {
    let result = evaluate(vec![
        Statement::Expression(binary(constant(i64::MAX), Operator::Add, constant(1))),
        Statement::Expression(negate(binary(constant(i64::MIN), Operator::Add, constant(0)))),
        Statement::Expression(binary(constant(i64::MIN), Operator::Divide, constant(-1))),
    ]);
    assert_eq!(
        result,
        vec![
            Statement::Expression(constant(i64::MIN)),
            Statement::Expression(constant(i64::MIN)),
            Statement::Expression(constant(i64::MIN)),
        ]
    );
}

fn division_by_zero() -> Vec<Statement> {
    vec![Statement::Expression(binary(constant(1), Operator::Divide, constant(0)))]
}

#[test]
fn division_by_zero_is_left_unfolded() {
    assert_eq!(evaluate(division_by_zero()), division_by_zero());
}

#[test]
fn evaluating_twice_changes_nothing_more() {
    let once = evaluate(runtime_program());
    let twice = evaluate(evaluate(runtime_program()));
    assert_eq!(once, twice);
    let folded = evaluate(vec![Statement::Expression(binary(constant(2), Operator::Add, constant(2)))]);
    assert_eq!(evaluate(folded), vec![Statement::Expression(constant(4))]);
}
