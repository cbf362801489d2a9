use crate::ast::{
    lemma_view_args, reversed, view_args, view_statements, Expr, Expression, Module, Operator,
    Statement, Stmt,
};
use vstd::prelude::*;

verus! {

/// The value of `l op r` in two's-complement 64-bit arithmetic; `None` for a
/// division by zero, which is left unfolded.
pub open spec fn fold_binary(op: Operator, l: i64, r: i64) -> Option<i64> {
    match op {
        Operator::Add => Some(l.wrapping_add(r)),
        Operator::Sub => Some(l.wrapping_sub(r)),
        Operator::Multiply => Some(l.wrapping_mul(r)),
        Operator::Divide => if r == 0 {
            None
        } else if l == i64::MIN && r == -1 {
            Some(i64::MIN)
        } else {
            l.checked_div(r)
        },
    }
}

/// `e` with its constant parts folded, bottom-up: a negation of a constant,
/// an operation on two constants (unless it divides by zero), and a
/// grouping of a constant each become that constant; call arguments are
/// folded; everything else keeps its shape over folded parts.
pub open spec fn evaluate_expr(e: Expr) -> Expr
    decreases e,
{
    match e {
        Expr::Unary(op, x) => {
            let fx = evaluate_expr(*x);
            match fx {
                Expr::Constant(v) => if op == Operator::Sub {
                    Expr::Constant(0i64.wrapping_sub(v))
                } else {
                    Expr::Unary(op, Box::new(fx))
                },
                _ => Expr::Unary(op, Box::new(fx)),
            }
        },
        Expr::Binary(l, op, r) => {
            let fl = evaluate_expr(*l);
            let fr = evaluate_expr(*r);
            match (fl, fr) {
                (Expr::Constant(a), Expr::Constant(b)) => match fold_binary(op, a, b) {
                    Some(v) => Expr::Constant(v),
                    None => Expr::Binary(Box::new(fl), op, Box::new(fr)),
                },
                _ => Expr::Binary(Box::new(fl), op, Box::new(fr)),
            }
        },
        Expr::Grouping(x) => {
            let fx = evaluate_expr(*x);
            if fx is Constant {
                fx
            } else {
                Expr::Grouping(Box::new(fx))
            }
        },
        Expr::Call(name, args) => Expr::Call(name, evaluate_args(args)),
        _ => e,
    }
}

/// Each argument folded.
pub open spec fn evaluate_args(args: Seq<Expr>) -> Seq<Expr>
    decreases args,
{
    if args.len() == 0 {
        Seq::empty()
    } else {
        evaluate_args(args.drop_last()).push(evaluate_expr(args[args.len() - 1]))
    }
}

pub open spec fn evaluate_stmt(s: Stmt) -> Stmt {
    match s {
        Stmt::Expr(e) => Stmt::Expr(evaluate_expr(e)),
        Stmt::Decl(name, e) => Stmt::Decl(name, evaluate_expr(e)),
    }
}

/// Each statement of `m` with its expression folded.
pub open spec fn evaluate_module(m: Seq<Stmt>) -> Seq<Stmt> {
    m.map_values(|s: Stmt| evaluate_stmt(s))
}

/// Whether every leaf of `e` is a variable access or a call (a call's
/// arguments count as its subtrees).
pub open spec fn runtime_leaves(e: Expr) -> bool
    decreases e,
{
    match e {
        Expr::Constant(_) => false,
        Expr::Unary(_, x) => runtime_leaves(*x),
        Expr::Binary(l, _, r) => runtime_leaves(*l) && runtime_leaves(*r),
        Expr::Grouping(x) => runtime_leaves(*x),
        Expr::Call(_, args) => args_runtime_leaves(args),
        Expr::Var(_) => true,
    }
}

/// Whether every leaf of every argument is a variable access or a call.
pub open spec fn args_runtime_leaves(args: Seq<Expr>) -> bool
    decreases args,
{
    if args.len() == 0 {
        true
    } else {
        args_runtime_leaves(args.drop_last()) && runtime_leaves(args[args.len() - 1])
    }
}

pub open spec fn stmt_runtime_leaves(s: Stmt) -> bool {
    match s {
        Stmt::Expr(e) => runtime_leaves(e),
        Stmt::Decl(_, e) => runtime_leaves(e),
    }
}

fn fold_binary_exec(op: Operator, l: i64, r: i64) -> (res: Option<i64>)
    ensures
        res == fold_binary(op, l, r),
{
    match op {
        Operator::Add => Some(l.wrapping_add(r)),
        Operator::Sub => Some(l.wrapping_sub(r)),
        Operator::Multiply => Some(l.wrapping_mul(r)),
        Operator::Divide => if r == 0 {
            None
        } else if l == i64::MIN && r == -1 {
            Some(i64::MIN)
        } else {
            l.checked_div(r)
        },
    }
}

/// Folds the constant subtrees of a module.
pub struct PartialEvaluator {
    program: Module,
}

impl PartialEvaluator {
    /// The module to fold.
    pub closed spec fn input(&self) -> Seq<Stmt> {
        self.program@
    }

    pub fn new(program: Module) -> (r: PartialEvaluator)
        ensures
            r.input() == program@,
    {
        PartialEvaluator { program }
    }

    /// The module with each statement's expression replaced by its constant
    /// when it has one.
    pub fn evaluate(self) -> (r: Module)
        ensures
            r@ == evaluate_module(self.input()),
    {
        let ghost input = self.program.statements@;
        let n = self.program.statements.len();
        let mut rest = reversed(self.program.statements);
        let mut statements: Vec<Statement> = Vec::new();
        let mut i: usize = 0;
        while i < n
            invariant
                input.len() == n,
                i <= n,
                rest@.len() == n - i,
                forall|k: int| 0 <= k < rest@.len() ==> #[trigger] rest@[k] == input[n - 1 - k],
                view_statements(statements@) == evaluate_module(view_statements(input.subrange(0, i as int))),
            decreases n - i,
        {
            let statement = rest.pop().unwrap();
            let ghost done = view_statements(statements@);
            statements.push(evaluate_statement(statement));
            proof {
                assert(view_statements(statements@) =~= done.push(evaluate_stmt(input[i as int]@)));
                assert(view_statements(input.subrange(0, i + 1)) =~= view_statements(
                    input.subrange(0, i as int),
                ).push(input[i as int]@));
                assert(evaluate_module(view_statements(input.subrange(0, i + 1))) =~= evaluate_module(
                    view_statements(input.subrange(0, i as int)),
                ).push(evaluate_stmt(input[i as int]@)));
            }
            i = i + 1;
        }
        assert(input.subrange(0, n as int) =~= input);
        Module { statements }
    }
}

fn evaluate_statement(statement: Statement) -> (r: Statement)
    ensures
        r@ == evaluate_stmt(statement@),
{
    match statement {
        Statement::Expression(e) => Statement::Expression(evaluate_expression(e)),
        Statement::VariableDeclaration { name, value } => Statement::VariableDeclaration {
            name,
            value: evaluate_expression(value),
        },
    }
}

fn evaluate_expression(e: Expression) -> (r: Expression)
    ensures
        r@ == evaluate_expr(e@),
    decreases e,
{
    match e {
        Expression::UnaryOp { operator, operand } => {
            let folded = evaluate_expression(*operand);
            match folded {
                Expression::Constant { value } => {
                    if operator == Operator::Sub {
                        Expression::Constant { value: 0i64.wrapping_sub(value) }
                    } else {
                        Expression::UnaryOp { operator, operand: Box::new(Expression::Constant { value }) }
                    }
                },
                _ => Expression::UnaryOp { operator, operand: Box::new(folded) },
            }
        },
        Expression::BinaryOp { left, operator, right } => {
            let l = evaluate_expression(*left);
            let r = evaluate_expression(*right);
            let both = match (&l, &r) {
                (Expression::Constant { value: a }, Expression::Constant { value: b }) => fold_binary_exec(
                    operator,
                    *a,
                    *b,
                ),
                _ => None,
            };
            match both {
                Some(value) => Expression::Constant { value },
                None => Expression::BinaryOp { left: Box::new(l), operator, right: Box::new(r) },
            }
        },
        Expression::Grouping { expression } => {
            let folded = evaluate_expression(*expression);
            match folded {
                Expression::Constant { value } => Expression::Constant { value },
                _ => Expression::Grouping { expression: Box::new(folded) },
            }
        },
        Expression::Call { name, args } => {
            let ghost args_view = view_args(args@);
            let ghost args_vec = args;
            proof {
                lemma_view_args(args@);
            }
            let n = args.len();
            assert(decreases_to!(e => args_vec));
            let mut rest = reversed(args);
            let mut folded: Vec<Expression> = Vec::new();
            let mut i: usize = 0;
            while i < n
                invariant
                    args_view.len() == n,
                    args_vec@.len() == n,
                    i <= n,
                    rest@.len() == n - i,
                    forall|j: int| 0 <= j < rest@.len() ==> #[trigger] rest@[j] == args_vec@[n - 1 - j],
                    forall|j: int| 0 <= j < n ==> #[trigger] args_vec@[j]@ == args_view[j],
                    decreases_to!(e => args_vec),
                    view_args(folded@) == evaluate_args(args_view.subrange(0, i as int)),
                decreases n - i,
            {
                let arg = rest.pop().unwrap();
                proof {
                    assert(arg == args_vec@[i as int]);
                    vstd::std_specs::vec::axiom_vec_index_decreases(args_vec, i as int);
                    assert(decreases_to!(e => arg));
                    assert(args_view.subrange(0, i + 1).drop_last() =~= args_view.subrange(0, i as int));
                }
                let ghost before = folded@;
                folded.push(evaluate_expression(arg));
                assert(folded@.drop_last() =~= before);
                i = i + 1;
            }
            assert(args_view.subrange(0, n as int) =~= args_view);
            Expression::Call { name, args: folded }
        },
        _ => e,
    }
}

/// Folding is idempotent: folding a folded module changes nothing.
pub proof fn lemma_evaluate_idempotent(m: Seq<Stmt>)
    ensures
        evaluate_module(evaluate_module(m)) == evaluate_module(m),
{
    assert forall|k: int| 0 <= k < m.len() implies evaluate_stmt(evaluate_stmt(#[trigger] m[k]))
        == evaluate_stmt(m[k]) by {
        match m[k] {
            Stmt::Expr(e) => lemma_evaluate_expr_idempotent(e),
            Stmt::Decl(_, e) => lemma_evaluate_expr_idempotent(e),
        }
    }
    assert(evaluate_module(evaluate_module(m)) =~= evaluate_module(m));
}

proof fn lemma_evaluate_expr_idempotent(e: Expr)
    ensures
        evaluate_expr(evaluate_expr(e)) == evaluate_expr(e),
    decreases e,
{
    match e {
        Expr::Unary(_, x) => lemma_evaluate_expr_idempotent(*x),
        Expr::Binary(l, _, r) => {
            lemma_evaluate_expr_idempotent(*l);
            lemma_evaluate_expr_idempotent(*r);
        },
        Expr::Grouping(x) => lemma_evaluate_expr_idempotent(*x),
        Expr::Call(_, args) => lemma_evaluate_args_idempotent(args),
        _ => {},
    }
}

proof fn lemma_evaluate_args_idempotent(args: Seq<Expr>)
    ensures
        evaluate_args(evaluate_args(args)) == evaluate_args(args),
    decreases args,
{
    if args.len() > 0 {
        lemma_evaluate_args_idempotent(args.drop_last());
        lemma_evaluate_expr_idempotent(args[args.len() - 1]);
        let f = evaluate_args(args);
        assert(f.drop_last() =~= evaluate_args(args.drop_last()));
    }
}

/// A module whose every leaf is a variable access or a call is left as it
/// is.
pub proof fn lemma_evaluate_runtime_unchanged(m: Seq<Stmt>)
    requires
        forall|k: int| 0 <= k < m.len() ==> stmt_runtime_leaves(#[trigger] m[k]),
    ensures
        evaluate_module(m) == m,
{
    assert forall|k: int| 0 <= k < m.len() implies evaluate_stmt(#[trigger] m[k]) == m[k] by {
        match m[k] {
            Stmt::Expr(e) => lemma_runtime_unchanged(e),
            Stmt::Decl(_, e) => lemma_runtime_unchanged(e),
        }
    }
    assert(evaluate_module(m) =~= m);
}

proof fn lemma_runtime_unchanged(e: Expr)
    requires
        runtime_leaves(e),
    ensures
        evaluate_expr(e) == e,
        !(evaluate_expr(e) is Constant),
    decreases e,
{
    match e {
        Expr::Unary(_, x) => lemma_runtime_unchanged(*x),
        Expr::Binary(l, _, r) => {
            lemma_runtime_unchanged(*l);
            lemma_runtime_unchanged(*r);
        },
        Expr::Grouping(x) => lemma_runtime_unchanged(*x),
        Expr::Call(_, args) => lemma_runtime_args_unchanged(args),
        _ => {},
    }
}

proof fn lemma_runtime_args_unchanged(args: Seq<Expr>)
    requires
        args_runtime_leaves(args),
    ensures
        evaluate_args(args) == args,
    decreases args,
{
    if args.len() > 0 {
        lemma_runtime_args_unchanged(args.drop_last());
        lemma_runtime_unchanged(args[args.len() - 1]);
        assert(args.drop_last().push(args[args.len() - 1]) =~= args);
    }
}

} // verus!
