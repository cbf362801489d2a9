use yep::ast::{Expression, Operator, Statement};
use yep::codegen::CodegenError;
use yep::parser::{ParseError, Parser};
use yep::pipeline::{compile, CompileError};
use yep::tokenizer::{TokenType, Tokenizer};

fn parse(source: &str) -> Result<Vec<Statement>, ParseError> {
    let tokens = Tokenizer::new(source.to_string()).tokenize().unwrap();
    Parser::new(tokens).parse().map(|m| m.statements)
}

fn constant(value: i64) -> Expression {
    Expression::Constant { value }
}

fn var(name: &str) -> Expression {
    Expression::VariableAccess { name: name.to_string() }
}

fn binary(left: Expression, operator: Operator, right: Expression) -> Expression {
    Expression::BinaryOp { left: Box::new(left), operator, right: Box::new(right) }
}

#[test]
fn parse_precedence_and_associativity() {
    let statements = parse("let a = 1 - 2 - 3 * -b / 4;").unwrap();
    assert_eq!(
        statements,
        vec![Statement::VariableDeclaration {
            name: "a".to_string(),
            value: binary(
                binary(constant(1), Operator::Sub, constant(2)),
                Operator::Sub,
                binary(
                    binary(
                        constant(3),
                        Operator::Multiply,
                        Expression::UnaryOp { operator: Operator::Sub, operand: Box::new(var("b")) },
                    ),
                    Operator::Divide,
                    constant(4),
                ),
            ),
        }]
    );
}

#[test]
fn parse_grouping_and_call() {
    let statements = parse("let x = (1 + 2); print_int(x, 3);").unwrap();
    assert_eq!(
        statements,
        vec![
            Statement::VariableDeclaration {
                name: "x".to_string(),
                value: Expression::Grouping {
                    expression: Box::new(binary(constant(1), Operator::Add, constant(2))),
                },
            },
            Statement::Expression(Expression::Call {
                name: "print_int".to_string(),
                args: vec![var("x"), constant(3)],
            }),
        ]
    );
}

#[test]
fn parse_reports_missing_token() {
    assert_eq!(
        parse("let = 4;"),
        Err(ParseError::UnexpectedToken {
            expected: TokenType::Identifier,
            found: TokenType::Equals,
            line: 1,
            column: 5
        })
    );
    assert_eq!(
        parse("let a = (1;"),
        Err(ParseError::UnexpectedToken {
            expected: TokenType::ParenthesesRight,
            found: TokenType::Semicolon,
            line: 1,
            column: 11
        })
    );
}

#[test]
fn parse_reports_missing_expression_and_bad_callee() {
    assert_eq!(
        parse("let a = ;"),
        Err(ParseError::ExpectedExpression { found: TokenType::Semicolon, line: 1, column: 9 })
    );
    assert_eq!(parse("3(4);"), Err(ParseError::InvalidCallTarget { line: 1, column: 2 }));
}

#[test]
fn parse_reports_number_out_of_range() {
    assert_eq!(
        parse("let a = 9223372036854775808;"),
        Err(ParseError::InvalidNumber { line: 1, column: 9 })
    );
    assert_eq!(
        parse("let a = 9223372036854775807;").unwrap(),
        vec![Statement::VariableDeclaration { name: "a".to_string(), value: constant(i64::MAX) }]
    );
}

#[test]
fn compile_print_of_folded_constant() {
    let lines = compile("let a = 2 * (3 + 4);\nprint_int(a);".to_string()).unwrap();
    assert_eq!(
        lines,
        vec![
            "global main",
            "extern print_int",
            "section .text",
            "main:",
            "push rbp",
            "mov rbp, rsp",
            "sub rsp, 16",
            "mov dword [rbp - 4], 14",
            "mov dword rax, [rbp - 4]",
            "mov dword rdi, rax",
            "call print_int",
            "mov dword [rbp - 8], rax",
            "mov rsp, rbp",
            "pop rbp",
            "xor rax, rax",
            "ret"
        ]
    );
}

#[test]
fn compile_is_deterministic() {
    let source = "let a = 4; print_int(a);";
    assert_eq!(compile(source.to_string()), compile(source.to_string()));
}

#[test]
fn compile_reports_each_stage() {
    assert!(matches!(compile("let a = 1 # 2;".to_string()), Err(CompileError::Lex(_))));
    assert!(matches!(compile("let a = 1".to_string()), Err(CompileError::Parse(_))));
    assert_eq!(
        compile("let a = b + 1;".to_string()),
        Err(CompileError::Codegen(CodegenError::NonAtomicOperand))
    );
}

#[test]
fn parse_then_fold_grouped_expression() {
    let statements = parse("let x = 8 - (-((3 + 1)) + (1 + 1));").unwrap();
    let folded = yep::partial_evaluator::PartialEvaluator::new(yep::ast::Module { statements })
        .evaluate()
        .statements;
    assert_eq!(
        folded,
        vec![Statement::VariableDeclaration { name: "x".to_string(), value: constant(10) }]
    );
}

#[test]
fn compile_call_with_constant_argument() {
    let lines = compile("print_int(4);".to_string()).unwrap();
    assert_eq!(
        lines,
        vec![
            "global main",
            "extern print_int",
            "section .text",
            "main:",
            "push rbp",
            "mov rbp, rsp",
            "sub rsp, 16",
            "mov dword rdi, 4",
            "call print_int",
            "mov dword [rbp - 4], rax",
            "mov rsp, rbp",
            "pop rbp",
            "xor rax, rax",
            "ret"
        ]
    );
}

#[test]
fn parse_requires_expression_statements_to_be_calls() {
    assert_eq!(parse("5 6"), Err(ParseError::ExpectedCall { line: 1, column: 1 }));
    assert_eq!(parse("let a = 1;\n  a;"), Err(ParseError::ExpectedCall { line: 2, column: 3 }));
}

#[test]
fn parse_any_whitespace_layout() {
    let spaced = parse("\n  let   a\t=  ( 1 +\n 2 ) ;\r\n print_int ( a ) ;  ").unwrap();
    let tight = parse("let a = (1 + 2); print_int(a);").unwrap();
    assert_eq!(spaced, tight);
    assert_eq!(spaced.len(), 2);
}
