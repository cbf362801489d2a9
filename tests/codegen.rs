use yep::ast::{Expression, Module, Operator, Statement};
use yep::codegen::{CodegenError, X86AssemblyCodegen};

fn generate(statements: Vec<Statement>) -> Result<Vec<String>, CodegenError> {
    X86AssemblyCodegen::new(Module { statements }).generate()
}

fn declare(name: &str, value: Expression) -> Statement {
    Statement::VariableDeclaration { name: name.to_string(), value }
}

fn constant(value: i64) -> Expression {
    Expression::Constant { value }
}

fn var(name: &str) -> Expression {
    Expression::VariableAccess { name: name.to_string() }
}

fn call(name: &str, args: Vec<Expression>) -> Expression {
    Expression::Call { name: name.to_string(), args }
}

const PROLOGUE: [&str; 6] =
    ["global main", "extern print_int", "section .text", "main:", "push rbp", "mov rbp, rsp"];
const EPILOGUE: [&str; 4] = ["mov rsp, rbp", "pop rbp", "xor rax, rax", "ret"];

fn listing(body: &[&str]) -> Vec<String> {
    PROLOGUE.iter().chain(body.iter()).chain(EPILOGUE.iter()).map(|s| s.to_string()).collect()
}

#[test]
fn declare_variable_with_constant_initializer() {
    let result = generate(vec![
        declare("foo", constant(4)),
        declare("bar", constant(42)),
        declare("baz", constant(127)),
    ])
    .unwrap();
    assert_eq!(
        vec![
            "global main",
            "extern print_int",
            "section .text",
            "main:",
            "push rbp",
            "mov rbp, rsp",
            "sub rsp, 16",
            "mov dword [rbp - 4], 4",
            "mov dword [rbp - 8], 42",
            "mov dword [rbp - 12], 127",
            "mov rsp, rbp",
            "pop rbp",
            "xor rax, rax",
            "ret"
        ],
        result
    )
}

#[test]
fn emit_function_call_with_constant_argument() {
    let result = generate(vec![Statement::Expression(call("print_int", vec![constant(4)]))]).unwrap();
    assert_eq!(
        vec![
            "global main",
            "extern print_int",
            "section .text",
            "main:",
            "push rbp",
            "mov rbp, rsp",
            "mov dword rdi, 4",
            "call print_int",
            "mov rsp, rbp",
            "pop rbp",
            "xor rax, rax",
            "ret"
        ],
        result
    )
}

#[test]
fn call_with_variable_argument_loads_through_rax() {
    let result = generate(vec![
        declare("x", constant(-12)),
        Statement::Expression(call("print_int", vec![var("x")])),
    ])
    .unwrap();
    assert_eq!(
        result,
        listing(&[
            "sub rsp, 16",
            "mov dword [rbp - 4], -12",
            "mov dword rax, [rbp - 4]",
            "mov dword rdi, rax",
            "call print_int",
        ])
    );
}

#[test]
fn declarations_from_variables_and_calls() {
    let result = generate(vec![
        declare("a", constant(1)),
        declare("b", var("a")),
        declare("c", call("next", vec![var("b")])),
        declare("d", constant(2)),
        declare("e", constant(3)),
    ])
    .unwrap();
    assert_eq!(
        result,
        listing(&[
            "sub rsp, 32",
            "mov dword [rbp - 4], 1",
            "mov dword rax, [rbp - 4]",
            "mov dword [rbp - 8], rax",
            "mov dword rax, [rbp - 8]",
            "mov dword rdi, rax",
            "call next",
            "mov dword [rbp - 12], rax",
            "mov dword [rbp - 16], 2",
            "mov dword [rbp - 20], 3",
        ])
    );
}

#[test]
fn report_non_atomic_initializer() {
    let r = generate(vec![declare(
        "a",
        Expression::BinaryOp {
            left: Box::new(constant(1)),
            operator: Operator::Add,
            right: Box::new(constant(2)),
        },
    )]);
    assert_eq!(r, Err(CodegenError::NonAtomicOperand));
}

#[test]
fn report_unknown_variable() {
    let r = generate(vec![Statement::Expression(call("print_int", vec![var("nope")]))]);
    assert_eq!(r, Err(CodegenError::UnknownVariable));
}

#[test]
fn report_argument_count() {
    let r = generate(vec![Statement::Expression(call("print_int", vec![]))]);
    assert_eq!(r, Err(CodegenError::UnsupportedArgumentCount));
}

#[test]
fn report_unsupported_expression_statement() {
    let r = generate(vec![Statement::Expression(Expression::UnaryOp {
        operator: Operator::Sub,
        operand: Box::new(var("a")),
    })]);
    assert_eq!(r, Err(CodegenError::UnsupportedExpression));
}

#[test]
fn empty_module_is_prologue_and_epilogue() {
    assert_eq!(generate(vec![]).unwrap(), listing(&[]));
}

#[test]
fn report_unknown_variable_as_statement() {
    let r = generate(vec![Statement::Expression(var("nope"))]);
    assert_eq!(r, Err(CodegenError::UnknownVariable));
}

#[test]
fn declared_variable_as_statement_emits_nothing() {
    let result = generate(vec![declare("a", constant(3)), Statement::Expression(var("a"))]).unwrap();
    assert_eq!(result, listing(&["sub rsp, 16", "mov dword [rbp - 4], 3"]));
}
