use crate::ast::{view_args, lemma_view_args, Expression, Statement, Stmt, view_statements};
use crate::codegen::{codegen_module, line_texts, CodegenError, X86AssemblyCodegen};
use crate::parser::{
    lemma_parse_spelled, parse_tokens, punct, spell_module, spell_stmts, stmt_in_form, ParseError,
    Parser,
};
use crate::partial_evaluator::{evaluate_module, PartialEvaluator};
use crate::remove_complex_operands::{
    anf_module, args_size, module_size, size, stmt_size, RemoveComplexOperandsPass,
};
use crate::tokenizer::{
    laid_out, layout, lemma_lex_text, lex, same_token, writable, LexError, TokenType, Tokenizer,
};
use vstd::prelude::*;

verus! {

/// Why a source text does not compile.
#[derive(Clone, Copy, Debug, PartialEq, Eq, Structural)]
pub enum CompileError {
    Lex(LexError),
    Parse(ParseError),
    /// The source or its syntax tree is too large to number its parts.
    TooLarge,
    Codegen(CodegenError),
}

/// The assembly listing of source text `src`: tokenize, parse, fold
/// constants, bring into A-normal form, lower.
pub open spec fn compile_text(src: Seq<char>) -> Result<Seq<Seq<char>>, CompileError> {
    if src.len() >= usize::MAX {
        Err(CompileError::TooLarge)
    } else {
        match lex(src) {
            Err(e) => Err(CompileError::Lex(e)),
            Ok(toks) => match parse_tokens(toks) {
                Err(e) => Err(CompileError::Parse(e)),
                Ok(m) => {
                    let folded = evaluate_module(m);
                    if module_size(folded) >= u64::MAX {
                        Err(CompileError::TooLarge)
                    } else {
                        match codegen_module(anf_module(folded)) {
                            Err(e) => Err(CompileError::Codegen(e)),
                            Ok(lines) => Ok(lines),
                        }
                    }
                },
            },
        }
    }
}

/// Parsing succeeds on grammatical source: a module that the grammar
/// writes (declarations and calls as statements, each expression at its
/// precedence), whose names are letters and underscores and not reserved,
/// written out as text with any whitespace before, between and after its
/// tokens (at least some between two tokens), tokenizes, and parses back to
/// itself.
pub proof fn lemma_source_round_trip(m: Seq<Stmt>, gaps: Seq<Seq<char>>)
    requires
        forall|k: int| 0 <= k < m.len() ==> stmt_in_form(#[trigger] m[k]),
        forall|k: int| 0 <= k < spell_stmts(m).len() ==> writable(#[trigger] spell_stmts(m)[k]),
        layout(spell_stmts(m), gaps),
    ensures
        lex(laid_out(spell_stmts(m), gaps)) matches Ok(toks) && parse_tokens(toks) == Ok::<
            Seq<Stmt>,
            ParseError,
        >(m),
{
    let ts = spell_stmts(m);
    let src = laid_out(ts, gaps);
    assert(src.subrange(0, src.len() as int) =~= src);
    lemma_lex_text(src, 0, ts, gaps);
    let toks = lex(src)->Ok_0;
    let sm = spell_module(m);
    assert forall|k: int| 0 <= k < sm.len() implies same_token(toks[0 + k], #[trigger] sm[k]) by {
        if k < ts.len() {
            assert(sm[k] == ts[k]);
        } else {
            assert(sm[k] == punct(TokenType::Eof));
            assert(toks[k] == toks.last());
        }
    }
    lemma_parse_spelled(toks, m);
}

fn saturating_sum(a: u64, b: u64) -> (r: u64)
    ensures
        r == if a + b > u64::MAX { u64::MAX as int } else { a + b },
{
    if a > u64::MAX - b {
        u64::MAX
    } else {
        a + b
    }
}

/// The number of nodes of `e`, or `u64::MAX` when there are more.
fn expression_size(e: &Expression) -> (r: u64)
    ensures
        r == if size(e@) > u64::MAX { u64::MAX as nat } else { size(e@) },
    decreases e,
{
    match e {
        Expression::Constant { .. } => 1,
        Expression::VariableAccess { .. } => 1,
        Expression::UnaryOp { operand, .. } => saturating_sum(1, expression_size(operand)),
        Expression::BinaryOp { left, right, .. } => saturating_sum(
            1,
            saturating_sum(expression_size(left), expression_size(right)),
        ),
        Expression::Grouping { expression } => saturating_sum(1, expression_size(expression)),
        Expression::Call { args, .. } => {
            let ghost view = view_args(args@);
            proof {
                lemma_view_args(args@);
            }
            let mut total: u64 = 0;
            let mut i: usize = 0;
            while i < args.len()
                invariant
                    view == view_args(args@),
                    view.len() == args@.len(),
                    forall|j: int| 0 <= j < args@.len() ==> #[trigger] view[j] == args@[j]@,
                    i <= args@.len(),
                    total == if args_size(view.subrange(0, i as int)) > u64::MAX {
                        u64::MAX as nat
                    } else {
                        args_size(view.subrange(0, i as int))
                    },
                    forall|j: int| 0 <= j < args@.len() ==> decreases_to!(e => #[trigger] args@[j]),
                decreases args@.len() - i,
            {
                assert(view.subrange(0, i + 1).drop_last() =~= view.subrange(0, i as int));
                total = saturating_sum(total, expression_size(&args[i]));
                i = i + 1;
            }
            assert(view.subrange(0, i as int) =~= view);
            saturating_sum(1, total)
        },
    }
}

/// The number of expression nodes of `statements`, or `u64::MAX` when
/// there are more.
fn statements_size(statements: &Vec<Statement>) -> (r: u64)
    ensures
        r == if module_size(view_statements(statements@)) > u64::MAX {
            u64::MAX as nat
        } else {
            module_size(view_statements(statements@))
        },
{
    let ghost m = view_statements(statements@);
    let mut total: u64 = 0;
    let mut i: usize = 0;
    while i < statements.len()
        invariant
            m == view_statements(statements@),
            i <= statements@.len(),
            total == if module_size(m.subrange(0, i as int)) > u64::MAX {
                u64::MAX as nat
            } else {
                module_size(m.subrange(0, i as int))
            },
        decreases statements@.len() - i,
    {
        assert(m.subrange(0, i + 1).drop_last() =~= m.subrange(0, i as int));
        let n = match &statements[i] {
            Statement::Expression(e) => expression_size(e),
            Statement::VariableDeclaration { value, .. } => expression_size(value),
        };
        total = saturating_sum(total, n);
        i = i + 1;
    }
    assert(m.subrange(0, i as int) =~= m);
    total
}

/// Compiles source text to an x86-64 assembly listing, one line per
/// element. The listing, or the error, is `compile_text` of the text: a
/// function of the source alone.
pub fn compile(source: String) -> (r: Result<Vec<String>, CompileError>)
    ensures
        match compile_text(source@) {
            Ok(lines) => r matches Ok(v) && line_texts(v@) == lines,
            Err(e) => r == Err::<Vec<String>, CompileError>(e),
        },
{
    if source.as_str().unicode_len() == usize::MAX {
        return Err(CompileError::TooLarge);
    }
    let mut tokenizer = Tokenizer::new(source);
    let tokens = match tokenizer.tokenize() {
        Ok(tokens) => tokens,
        Err(e) => {
            return Err(CompileError::Lex(e));
        },
    };
    let mut parser = Parser::new(tokens);
    let program = match parser.parse() {
        Ok(program) => program,
        Err(e) => {
            return Err(CompileError::Parse(e));
        },
    };
    let program = PartialEvaluator::new(program).evaluate();
    if statements_size(&program.statements) == u64::MAX {
        return Err(CompileError::TooLarge);
    }
    let program = RemoveComplexOperandsPass::new(program).run();
    let mut codegen = X86AssemblyCodegen::new(program);
    match codegen.generate() {
        Ok(lines) => Ok(lines),
        Err(e) => Err(CompileError::Codegen(e)),
    }
}

} // verus!
