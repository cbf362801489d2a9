use crate::ast::{
    is_atom, lemma_view_args, reversed, view_args, view_statements, Expr, Expression, Module,
    Statement, Stmt,
};
use crate::codegen::declared_names;
use crate::text::{decimal, push_char, push_decimal};
use vstd::seq_lib::lemma_no_dup_in_concat;
use vstd::prelude::*;

verus! {

/// The name of the `k`-th temporary: `tmp_` followed by `k` in decimal.
pub open spec fn temp_name(k: nat) -> Seq<char> {
    seq!['t', 'm', 'p', '_'] + decimal(k)
}

/// The number of nodes of `e`.
pub open spec fn size(e: Expr) -> nat
    decreases e,
{
    match e {
        Expr::Constant(_) => 1,
        Expr::Var(_) => 1,
        Expr::Unary(_, x) => 1 + size(*x),
        Expr::Binary(l, _, r) => 1 + size(*l) + size(*r),
        Expr::Grouping(x) => 1 + size(*x),
        Expr::Call(_, args) => 1 + args_size(args),
    }
}

pub open spec fn args_size(args: Seq<Expr>) -> nat
    decreases args,
{
    if args.len() == 0 {
        0
    } else {
        args_size(args.drop_last()) + size(args[args.len() - 1])
    }
}

pub open spec fn stmt_size(s: Stmt) -> nat {
    match s {
        Stmt::Expr(e) => size(e),
        Stmt::Decl(_, e) => size(e),
    }
}

/// The number of expression nodes in `m`.
pub open spec fn module_size(m: Seq<Stmt>) -> nat
    decreases m.len(),
{
    if m.len() == 0 {
        0
    } else {
        module_size(m.drop_last()) + stmt_size(m.last())
    }
}

/// Rewrites `e` so that its operands are atoms, naming temporaries from
/// number `k` on. Gives the rewritten expression (an atom when `need_atom`),
/// the declarations of the temporaries that must come first, in evaluation
/// order, and the next free number.
pub open spec fn anf_expr(e: Expr, need_atom: bool, k: nat) -> (Expr, Seq<Stmt>, nat)
    decreases e,
{
    match e {
        Expr::Constant(_) => (e, Seq::empty(), k),
        Expr::Var(_) => (e, Seq::empty(), k),
        Expr::Unary(op, x) => {
            let (a, extras, k1) = anf_expr(*x, true, k);
            let u = Expr::Unary(op, Box::new(a));
            if need_atom {
                (Expr::Var(temp_name(k1)), extras.push(Stmt::Decl(temp_name(k1), u)), k1 + 1)
            } else {
                (u, extras, k1)
            }
        },
        Expr::Binary(l, op, r) => {
            let (al, el, k1) = anf_expr(*l, true, k);
            let (ar, er, k2) = anf_expr(*r, true, k1);
            let b = Expr::Binary(Box::new(al), op, Box::new(ar));
            if need_atom {
                (Expr::Var(temp_name(k2)), (el + er).push(Stmt::Decl(temp_name(k2), b)), k2 + 1)
            } else {
                (b, el + er, k2)
            }
        },
        Expr::Call(name, args) => {
            let (atoms, extras, k1) = anf_args(args, k);
            (
                Expr::Var(temp_name(k1)),
                extras.push(Stmt::Decl(temp_name(k1), Expr::Call(name, atoms))),
                k1 + 1,
            )
        },
        Expr::Grouping(x) => anf_expr(*x, need_atom, k),
    }
}

/// Rewrites each argument to an atom, left to right.
pub open spec fn anf_args(args: Seq<Expr>, k: nat) -> (Seq<Expr>, Seq<Stmt>, nat)
    decreases args,
{
    if args.len() == 0 {
        (Seq::empty(), Seq::empty(), k)
    } else {
        let (atoms, extras, k1) = anf_args(args.drop_last(), k);
        let (a, more, k2) = anf_expr(args[args.len() - 1], true, k1);
        (atoms.push(a), extras + more, k2)
    }
}

/// The statements that replace `s`: the temporaries it needs, then `s`
/// over the rewritten expression.
pub open spec fn anf_stmt(s: Stmt, k: nat) -> (Seq<Stmt>, nat) {
    match s {
        Stmt::Expr(e) => {
            let (x, extras, k1) = anf_expr(e, false, k);
            (extras.push(Stmt::Expr(x)), k1)
        },
        Stmt::Decl(name, e) => {
            let (x, extras, k1) = anf_expr(e, false, k);
            (extras.push(Stmt::Decl(name, x)), k1)
        },
    }
}

pub open spec fn anf_stmts(m: Seq<Stmt>, k: nat) -> (Seq<Stmt>, nat)
    decreases m.len(),
{
    if m.len() == 0 {
        (Seq::empty(), k)
    } else {
        let (done, k1) = anf_stmts(m.drop_last(), k);
        let (more, k2) = anf_stmt(m.last(), k1);
        (done + more, k2)
    }
}

/// The module in A-normal form, with temporaries numbered from zero.
pub open spec fn anf_module(m: Seq<Stmt>) -> Seq<Stmt> {
    anf_stmts(m, 0).0
}

pub proof fn lemma_anf_counter(e: Expr, need_atom: bool, k: nat)
    ensures
        k <= anf_expr(e, need_atom, k).2 <= k + size(e),
    decreases e,
{
    match e {
        Expr::Unary(_, x) => lemma_anf_counter(*x, true, k),
        Expr::Binary(l, _, r) => {
            lemma_anf_counter(*l, true, k);
            lemma_anf_counter(*r, true, anf_expr(*l, true, k).2);
        },
        Expr::Call(_, args) => lemma_anf_args_counter(args, k),
        Expr::Grouping(x) => lemma_anf_counter(*x, need_atom, k),
        _ => {},
    }
}

pub proof fn lemma_anf_args_counter(args: Seq<Expr>, k: nat)
    ensures
        k <= anf_args(args, k).2 <= k + args_size(args),
    decreases args,
{
    if args.len() > 0 {
        lemma_anf_args_counter(args.drop_last(), k);
        lemma_anf_counter(args[args.len() - 1], true, anf_args(args.drop_last(), k).2);
    }
}

proof fn lemma_args_size_prefix(args: Seq<Expr>, i: int)
    requires
        0 <= i <= args.len(),
    ensures
        args_size(args.subrange(0, i)) <= args_size(args),
    decreases args.len() - i,
{
    if i < args.len() {
        lemma_args_size_prefix(args, i + 1);
        assert(args.subrange(0, i + 1).drop_last() =~= args.subrange(0, i));
    } else {
        assert(args.subrange(0, i) =~= args);
    }
}

proof fn lemma_module_size_prefix(m: Seq<Stmt>, i: int)
    requires
        0 <= i <= m.len(),
    ensures
        module_size(m.subrange(0, i)) <= module_size(m),
    decreases m.len() - i,
{
    if i < m.len() {
        lemma_module_size_prefix(m, i + 1);
        assert(m.subrange(0, i + 1).drop_last() =~= m.subrange(0, i));
    } else {
        assert(m.subrange(0, i) =~= m);
    }
}

struct TransformExpressionResult {
    expression: Expression,
    additional_statements: Vec<Statement>,
}

/// Rewrites a module so that every operand of an operator or a call is a
/// constant or a variable, introducing temporaries `tmp_0`, `tmp_1`, ...
pub struct RemoveComplexOperandsPass {
    program: Module,
    temp_variable_index: u64,
}

fn temp_name_of(k: u64) -> (r: String)
    ensures
        r@ == temp_name(k as nat),
{
    let mut r = String::new();
    push_char(&mut r, 't');
    push_char(&mut r, 'm');
    push_char(&mut r, 'p');
    push_char(&mut r, '_');
    push_decimal(&mut r, k);
    assert(r@ =~= temp_name(k as nat));
    r
}

impl RemoveComplexOperandsPass {
    /// The module to rewrite.
    pub closed spec fn input(&self) -> Seq<Stmt> {
        self.program@
    }

    /// The number of the next temporary.
    pub closed spec fn next_temporary(&self) -> nat {
        self.temp_variable_index as nat
    }

    pub fn new(program: Module) -> (r: RemoveComplexOperandsPass)
        ensures
            r.input() == program@,
            r.next_temporary() == 0,
    {
        RemoveComplexOperandsPass { program, temp_variable_index: 0 }
    }

    /// The module in A-normal form. The temporaries must be countable in a
    /// `u64`: there are at most as many as the module has expression nodes.
    pub fn run(self) -> (r: Module)
        requires
            self.next_temporary() + module_size(self.input()) <= u64::MAX,
        ensures
            r@ == anf_stmts(self.input(), self.next_temporary()).0,
    {
        let ghost input = self.program.statements@;
        let ghost k0 = self.temp_variable_index as nat;
        let mut pass = RemoveComplexOperandsPass {
            program: Module { statements: Vec::new() },
            temp_variable_index: self.temp_variable_index,
        };
        let n = self.program.statements.len();
        let mut rest = reversed(self.program.statements);
        let mut statements: Vec<Statement> = Vec::new();
        let mut i: usize = 0;
        while i < n
            invariant
                input.len() == n,
                i <= n,
                rest@.len() == n - i,
                forall|k: int| 0 <= k < rest@.len() ==> #[trigger] rest@[k] == input[n - 1 - k],
                (view_statements(statements@), pass.temp_variable_index as nat) == anf_stmts(
                    view_statements(input.subrange(0, i as int)),
                    k0,
                ),
                pass.temp_variable_index <= k0 + module_size(view_statements(input.subrange(0, i as int))),
                k0 + module_size(view_statements(input)) <= u64::MAX,
            decreases n - i,
        {
            let statement = rest.pop().unwrap();
            let ghost done = view_statements(statements@);
            let ghost prefix = view_statements(input.subrange(0, i as int));
            let ghost next = view_statements(input.subrange(0, i + 1));
            proof {
                assert(next =~= prefix.push(statement@));
                assert(next.drop_last() =~= prefix);
                lemma_module_size_prefix(view_statements(input), i + 1);
                assert(view_statements(input.subrange(0, i + 1)) =~= view_statements(input).subrange(0, i + 1));
            }
            let mut more = pass.transform_statement(statement);
            proof {
                lemma_anf_counter(
                    match statement@ {
                        Stmt::Expr(e) => e,
                        Stmt::Decl(_, e) => e,
                    },
                    false,
                    anf_stmts(prefix, k0).1,
                );
            }
            let ghost more_view = view_statements(more@);
            statements.append(&mut more);
            proof {
                assert(view_statements(statements@) =~= done + more_view);
            }
            i = i + 1;
        }
        assert(input.subrange(0, n as int) =~= input);
        Module { statements }
    }

    fn transform_statement(&mut self, statement: Statement) -> (r: Vec<Statement>)
        requires
            old(self).temp_variable_index + stmt_size(statement@) <= u64::MAX,
        ensures
            (view_statements(r@), final(self).temp_variable_index as nat) == anf_stmt(
                statement@,
                old(self).temp_variable_index as nat,
            ),
    {
        match statement {
            Statement::Expression(e) => {
                let result = self.transform_expression(e, false);
                let mut new_statements = result.additional_statements;
                let ghost extras = view_statements(new_statements@);
                let s = Statement::Expression(result.expression);
                new_statements.push(s);
                assert(view_statements(new_statements@) =~= extras.push(s@));
                new_statements
            },
            Statement::VariableDeclaration { name, value } => {
                let result = self.transform_expression(value, false);
                let mut new_statements = result.additional_statements;
                let ghost extras = view_statements(new_statements@);
                let s = Statement::VariableDeclaration { name, value: result.expression };
                new_statements.push(s);
                assert(view_statements(new_statements@) =~= extras.push(s@));
                new_statements
            },
        }
    }

    fn transform_expression(&mut self, expression: Expression, need_atom: bool) -> (r:
        TransformExpressionResult)
        requires
            old(self).temp_variable_index + size(expression@) <= u64::MAX,
        ensures
            (r.expression@, view_statements(r.additional_statements@), final(self).temp_variable_index as nat)
                == anf_expr(expression@, need_atom, old(self).temp_variable_index as nat),
        decreases expression,
    {
        let ghost k = self.temp_variable_index as nat;
        match expression {
            Expression::Constant { .. } => TransformExpressionResult {
                expression,
                additional_statements: Vec::new(),
            },
            Expression::VariableAccess { .. } => TransformExpressionResult {
                expression,
                additional_statements: Vec::new(),
            },
            Expression::UnaryOp { operator, operand } => {
                let inner = self.transform_expression(*operand, true);
                proof {
                    lemma_anf_counter(operand@, true, k);
                }
                let u = Expression::UnaryOp { operator, operand: Box::new(inner.expression) };
                if !need_atom {
                    return TransformExpressionResult {
                        expression: u,
                        additional_statements: inner.additional_statements,
                    };
                }
                let mut additional_statements = inner.additional_statements;
                let ghost extras = view_statements(additional_statements@);
                let (name, declaration) = self.declare_temporary_variable(u);
                additional_statements.push(declaration);
                assert(view_statements(additional_statements@) =~= extras.push(declaration@));
                TransformExpressionResult {
                    expression: Expression::VariableAccess { name },
                    additional_statements,
                }
            },
            Expression::BinaryOp { left, operator, right } => {
                proof {
                    lemma_anf_counter(left@, true, k);
                }
                let l = self.transform_expression(*left, true);
                proof {
                    lemma_anf_counter(right@, true, self.temp_variable_index as nat);
                }
                let r = self.transform_expression(*right, true);
                let mut additional_statements = l.additional_statements;
                let mut right_statements = r.additional_statements;
                let ghost el = view_statements(additional_statements@);
                let ghost er = view_statements(right_statements@);
                additional_statements.append(&mut right_statements);
                assert(view_statements(additional_statements@) =~= el + er);
                let b = Expression::BinaryOp {
                    left: Box::new(l.expression),
                    operator,
                    right: Box::new(r.expression),
                };
                if !need_atom {
                    return TransformExpressionResult { expression: b, additional_statements };
                }
                let (name, declaration) = self.declare_temporary_variable(b);
                additional_statements.push(declaration);
                assert(view_statements(additional_statements@) =~= (el + er).push(declaration@));
                TransformExpressionResult {
                    expression: Expression::VariableAccess { name },
                    additional_statements,
                }
            },
            Expression::Call { name, args } => {
                let ghost args_view = view_args(args@);
                let ghost args_vec = args;
                proof {
                    lemma_view_args(args@);
                    lemma_anf_args_counter(args_view, k);
                }
                let n = args.len();
                assert(decreases_to!(expression => args_vec));
                let mut rest = reversed(args);
                let mut atoms: Vec<Expression> = Vec::new();
                let mut additional_statements: Vec<Statement> = Vec::new();
                let mut i: usize = 0;
                while i < n
                    invariant
                        args_view.len() == n,
                        i <= n,
                        rest@.len() == n - i,
                        forall|j: int| 0 <= j < rest@.len() ==> #[trigger] rest@[j]@ == args_view[n - 1 - j],
                        forall|j: int| 0 <= j < rest@.len() ==> #[trigger] rest@[j] == args_vec@[n - 1 - j],
                        args_vec@.len() == n,
                        decreases_to!(expression => args_vec),
                        (view_args(atoms@), view_statements(additional_statements@), self.temp_variable_index as nat)
                            == anf_args(args_view.subrange(0, i as int), k),
                        self.temp_variable_index <= k + args_size(args_view.subrange(0, i as int)),
                        k + size(expression@) <= u64::MAX,
                        size(expression@) == 1 + args_size(args_view),
                    decreases n - i,
                {
                    let arg = rest.pop().unwrap();
                    let ghost prefix = args_view.subrange(0, i as int);
                    let ghost next = args_view.subrange(0, i + 1);
                    proof {
                        assert(next.drop_last() =~= prefix);
                        assert(next[next.len() - 1] == arg@);
                        lemma_args_size_prefix(args_view, i + 1);
                        lemma_anf_counter(arg@, true, self.temp_variable_index as nat);
                        assert(arg == args_vec@[i as int]);
                        vstd::std_specs::vec::axiom_vec_index_decreases(args_vec, i as int);
                        assert(decreases_to!(expression => arg));
                    }
                    let t = self.transform_expression(arg, true);
                    let ghost before_atoms = atoms@;
                    atoms.push(t.expression);
                    let mut more = t.additional_statements;
                    let ghost done = view_statements(additional_statements@);
                    let ghost more_view = view_statements(more@);
                    additional_statements.append(&mut more);
                    proof {
                        assert(atoms@.drop_last() =~= before_atoms);
                        assert(view_statements(additional_statements@) =~= done + more_view);
                    }
                    i = i + 1;
                }
                assert(args_view.subrange(0, n as int) =~= args_view);
                let call = Expression::Call { name, args: atoms };
                let ghost extras = view_statements(additional_statements@);
                let (temp, declaration) = self.declare_temporary_variable(call);
                additional_statements.push(declaration);
                assert(view_statements(additional_statements@) =~= extras.push(declaration@));
                TransformExpressionResult {
                    expression: Expression::VariableAccess { name: temp },
                    additional_statements,
                }
            },
            Expression::Grouping { expression } => self.transform_expression(*expression, need_atom),
        }
    }

    /// Binds `initializer` to the next temporary.
    fn declare_temporary_variable(&mut self, initializer: Expression) -> (r: (String, Statement))
        requires
            old(self).temp_variable_index < u64::MAX,
        ensures
            r.0@ == temp_name(old(self).temp_variable_index as nat),
            r.1@ == Stmt::Decl(temp_name(old(self).temp_variable_index as nat), initializer@),
            final(self).temp_variable_index == old(self).temp_variable_index + 1,
    {
        let name = temp_name_of(self.temp_variable_index);
        self.temp_variable_index = self.temp_variable_index + 1;
        let statement = Statement::VariableDeclaration { name: name.clone(), value: initializer };
        (name, statement)
    }
}

} // verus!

verus! {

/// Whether every operand of `e` is an atom (a grouping counts as an
/// operand that is not).
pub open spec fn operands_atomic(e: Expr) -> bool {
    match e {
        Expr::Constant(_) => true,
        Expr::Var(_) => true,
        Expr::Unary(_, x) => is_atom(*x),
        Expr::Binary(l, _, r) => is_atom(*l) && is_atom(*r),
        Expr::Call(_, args) => forall|i: int| 0 <= i < args.len() ==> is_atom(#[trigger] args[i]),
        Expr::Grouping(_) => false,
    }
}

pub open spec fn stmt_operands_atomic(s: Stmt) -> bool {
    match s {
        Stmt::Expr(e) => operands_atomic(e),
        Stmt::Decl(_, e) => operands_atomic(e),
    }
}

pub open spec fn all_atomic(ss: Seq<Stmt>) -> bool {
    forall|i: int| 0 <= i < ss.len() ==> stmt_operands_atomic(#[trigger] ss[i])
}

proof fn lemma_anf_expr_atomic(e: Expr, need_atom: bool, k: nat)
    ensures
        need_atom ==> is_atom(anf_expr(e, need_atom, k).0),
        operands_atomic(anf_expr(e, need_atom, k).0),
        all_atomic(anf_expr(e, need_atom, k).1),
    decreases e,
{
    match e {
        Expr::Unary(op, x) => lemma_anf_expr_atomic(*x, true, k),
        Expr::Binary(l, op, r) => {
            lemma_anf_expr_atomic(*l, true, k);
            lemma_anf_expr_atomic(*r, true, anf_expr(*l, true, k).2);
            let (al, el, k1) = anf_expr(*l, true, k);
            let (ar, er, k2) = anf_expr(*r, true, k1);
            assert(all_atomic(el + er));
        },
        Expr::Call(name, args) => lemma_anf_args_atomic(args, k),
        Expr::Grouping(x) => lemma_anf_expr_atomic(*x, need_atom, k),
        _ => {},
    }
}

proof fn lemma_anf_args_atomic(args: Seq<Expr>, k: nat)
    ensures
        forall|i: int| 0 <= i < anf_args(args, k).0.len() ==> is_atom(#[trigger] anf_args(args, k).0[i]),
        all_atomic(anf_args(args, k).1),
    decreases args,
{
    if args.len() > 0 {
        lemma_anf_args_atomic(args.drop_last(), k);
        let (atoms, extras, k1) = anf_args(args.drop_last(), k);
        lemma_anf_expr_atomic(args[args.len() - 1], true, k1);
        let (a, more, k2) = anf_expr(args[args.len() - 1], true, k1);
        assert(all_atomic(extras + more));
        assert forall|i: int| 0 <= i < atoms.push(a).len() implies is_atom(#[trigger] atoms.push(a)[i]) by {
            if i < atoms.len() {
                assert(atoms.push(a)[i] == atoms[i]);
            }
        }
    }
}

proof fn lemma_anf_stmts_atomic(m: Seq<Stmt>, k: nat)
    ensures
        all_atomic(anf_stmts(m, k).0),
    decreases m.len(),
{
    if m.len() > 0 {
        lemma_anf_stmts_atomic(m.drop_last(), k);
        let (done, k1) = anf_stmts(m.drop_last(), k);
        match m.last() {
            Stmt::Expr(e) => lemma_anf_expr_atomic(e, false, k1),
            Stmt::Decl(_, e) => lemma_anf_expr_atomic(e, false, k1),
        }
        let (more, k2) = anf_stmt(m.last(), k1);
        assert(all_atomic(more));
        assert(all_atomic(done + more));
    }
}

/// After the pass, every operand of a unary operator, a binary operator or
/// a call, in every statement, is a constant or a variable access.
pub proof fn lemma_anf_operands_atomic(m: Seq<Stmt>)
    ensures
        all_atomic(anf_module(m)),
{
    lemma_anf_stmts_atomic(m, 0);
}

/// Whether `n` is the name of some temporary.
pub open spec fn is_temp_name(n: Seq<char>) -> bool {
    exists|k: nat| n == temp_name(k)
}

/// The names of the temporaries that `ss` declares, in order.
pub open spec fn temp_names_in(ss: Seq<Stmt>) -> Seq<Seq<char>>
    decreases ss.len(),
{
    if ss.len() == 0 {
        Seq::empty()
    } else {
        match ss.last() {
            Stmt::Decl(n, _) => if is_temp_name(n) {
                temp_names_in(ss.drop_last()).push(n)
            } else {
                temp_names_in(ss.drop_last())
            },
            Stmt::Expr(_) => temp_names_in(ss.drop_last()),
        }
    }
}

/// `temp_name(k)`, ..., `temp_name(k2 - 1)`.
pub open spec fn temp_range(k: nat, k2: nat) -> Seq<Seq<char>> {
    Seq::new((k2 - k) as nat, |j: int| temp_name((k + j) as nat))
}

proof fn lemma_temp_names_concat(a: Seq<Stmt>, b: Seq<Stmt>)
    ensures
        temp_names_in(a + b) == temp_names_in(a) + temp_names_in(b),
    decreases b.len(),
{
    if b.len() == 0 {
        assert(a + b =~= a);
        assert(temp_names_in(a) + temp_names_in(b) =~= temp_names_in(a));
    } else {
        assert((a + b).drop_last() =~= a + b.drop_last());
        lemma_temp_names_concat(a, b.drop_last());
        match b.last() {
            Stmt::Decl(n, _) => if is_temp_name(n) {
                assert(temp_names_in(a) + temp_names_in(b.drop_last()).push(n) =~= (temp_names_in(a)
                    + temp_names_in(b.drop_last())).push(n));
            },
            Stmt::Expr(_) => {},
        }
    }
}

proof fn lemma_temp_range_concat(k: nat, k1: nat, k2: nat)
    requires
        k <= k1 <= k2,
    ensures
        temp_range(k, k1) + temp_range(k1, k2) == temp_range(k, k2),
{
    assert(temp_range(k, k1) + temp_range(k1, k2) =~= temp_range(k, k2));
}

/// Whether no user declaration of `m` is named like a temporary.
pub open spec fn no_temp_like_names(m: Seq<Stmt>) -> bool {
    forall|i: int| 0 <= i < m.len() ==> (#[trigger] m[i] matches Stmt::Decl(n, _) ==> !is_temp_name(n))
}

proof fn lemma_anf_expr_temps(e: Expr, need_atom: bool, k: nat)
    ensures
        k <= anf_expr(e, need_atom, k).2,
        temp_names_in(anf_expr(e, need_atom, k).1) == temp_range(k, anf_expr(e, need_atom, k).2),
    decreases e,
{
    match e {
        Expr::Unary(op, x) => {
            lemma_anf_expr_temps(*x, true, k);
            let (a, extras, k1) = anf_expr(*x, true, k);
            if need_atom {
                let d = Stmt::Decl(temp_name(k1), Expr::Unary(op, Box::new(a)));
                assert(extras.push(d).drop_last() =~= extras);
                assert(is_temp_name(temp_name(k1)));
                assert(temp_range(k, k1).push(temp_name(k1)) =~= temp_range(k, k1 + 1));
            }
        },
        Expr::Binary(l, op, r) => {
            lemma_anf_expr_temps(*l, true, k);
            let (al, el, k1) = anf_expr(*l, true, k);
            lemma_anf_expr_temps(*r, true, k1);
            let (ar, er, k2) = anf_expr(*r, true, k1);
            lemma_temp_names_concat(el, er);
            lemma_temp_range_concat(k, k1, k2);
            if need_atom {
                let d = Stmt::Decl(temp_name(k2), Expr::Binary(Box::new(al), op, Box::new(ar)));
                assert((el + er).push(d).drop_last() =~= el + er);
                assert(is_temp_name(temp_name(k2)));
                assert(temp_range(k, k2).push(temp_name(k2)) =~= temp_range(k, k2 + 1));
            }
        },
        Expr::Call(name, args) => {
            lemma_anf_args_temps(args, k);
            let (atoms, extras, k1) = anf_args(args, k);
            let d = Stmt::Decl(temp_name(k1), Expr::Call(name, atoms));
            assert(extras.push(d).drop_last() =~= extras);
            assert(is_temp_name(temp_name(k1)));
            assert(temp_range(k, k1).push(temp_name(k1)) =~= temp_range(k, k1 + 1));
        },
        Expr::Grouping(x) => lemma_anf_expr_temps(*x, need_atom, k),
        _ => {
            assert(temp_names_in(Seq::empty()) =~= temp_range(k, k));
        },
    }
}

proof fn lemma_anf_args_temps(args: Seq<Expr>, k: nat)
    ensures
        k <= anf_args(args, k).2,
        temp_names_in(anf_args(args, k).1) == temp_range(k, anf_args(args, k).2),
    decreases args,
{
    if args.len() == 0 {
        assert(temp_names_in(Seq::empty()) =~= temp_range(k, k));
    } else {
        lemma_anf_args_temps(args.drop_last(), k);
        let (atoms, extras, k1) = anf_args(args.drop_last(), k);
        lemma_anf_expr_temps(args[args.len() - 1], true, k1);
        let (a, more, k2) = anf_expr(args[args.len() - 1], true, k1);
        lemma_temp_names_concat(extras, more);
        lemma_temp_range_concat(k, k1, k2);
    }
}

proof fn lemma_anf_stmts_temps(m: Seq<Stmt>, k: nat)
    requires
        no_temp_like_names(m),
    ensures
        k <= anf_stmts(m, k).1,
        temp_names_in(anf_stmts(m, k).0) == temp_range(k, anf_stmts(m, k).1),
    decreases m.len(),
{
    if m.len() == 0 {
        assert(temp_names_in(Seq::empty()) =~= temp_range(k, k));
    } else {
        assert forall|i: int| 0 <= i < m.drop_last().len() implies (#[trigger] m.drop_last()[i] matches Stmt::Decl(
            n,
            _,
        ) ==> !is_temp_name(n)) by {
            assert(m.drop_last()[i] == m[i]);
        }
        lemma_anf_stmts_temps(m.drop_last(), k);
        let (done, k1) = anf_stmts(m.drop_last(), k);
        let s = m.last();
        assert(s == m[m.len() - 1]);
        let e = match s {
            Stmt::Expr(e) => e,
            Stmt::Decl(_, e) => e,
        };
        lemma_anf_expr_temps(e, false, k1);
        let (x, extras, k2) = anf_expr(e, false, k1);
        let (more, k3) = anf_stmt(s, k1);
        assert(more.drop_last() =~= extras);
        assert(temp_names_in(more) == temp_names_in(extras));
        lemma_temp_names_concat(done, more);
        lemma_temp_range_concat(k, k1, k2);
    }
}

/// Distinct numbers give distinct temporaries.
pub proof fn lemma_temp_name_injective(a: nat, b: nat)
    requires
        a != b,
    ensures
        temp_name(a) != temp_name(b),
{
    crate::text::lemma_decimal_round_trip(a);
    crate::text::lemma_decimal_round_trip(b);
    if temp_name(a) == temp_name(b) {
        assert(decimal(a) =~= temp_name(a).subrange(4, temp_name(a).len() as int));
        assert(decimal(b) =~= temp_name(b).subrange(4, temp_name(b).len() as int));
    }
}

/// In a module whose own declarations are not named like temporaries, the
/// temporaries that the pass declares are `tmp_0`, ..., `tmp_{M-1}`, in the
/// order in which they are emitted, `M` being the number the pass used; so
/// no two of them share a name, nor one with a declaration of the module.
pub proof fn lemma_anf_temporaries(m: Seq<Stmt>)
    requires
        no_temp_like_names(m),
    ensures
        temp_names_in(anf_module(m)) == temp_range(0, anf_stmts(m, 0).1),
        forall|i: int, j: int|
            0 <= i < j < temp_names_in(anf_module(m)).len() ==> temp_names_in(anf_module(m))[i]
                != temp_names_in(anf_module(m))[j],
{
    lemma_anf_stmts_temps(m, 0);
    let names = temp_names_in(anf_module(m));
    assert forall|i: int, j: int| 0 <= i < j < names.len() implies names[i] != names[j] by {
        lemma_temp_name_injective(i as nat, j as nat);
    }
}

} // verus!

verus! {

proof fn lemma_declared_concat(a: Seq<Stmt>, b: Seq<Stmt>)
    ensures
        declared_names(a + b) == declared_names(a) + declared_names(b),
    decreases b.len(),
{
    if b.len() == 0 {
        assert(a + b =~= a);
        assert(declared_names(a) + declared_names(b) =~= declared_names(a));
    } else {
        assert((a + b).drop_last() =~= a + b.drop_last());
        lemma_declared_concat(a, b.drop_last());
        match b.last() {
            Stmt::Decl(n, _) => {
                assert(declared_names(a) + declared_names(b.drop_last()).push(n) =~= (declared_names(
                    a,
                ) + declared_names(b.drop_last())).push(n));
            },
            Stmt::Expr(_) => {},
        }
    }
}

proof fn lemma_anf_expr_declares(e: Expr, need_atom: bool, k: nat)
    ensures
        declared_names(anf_expr(e, need_atom, k).1) == temp_range(k, anf_expr(e, need_atom, k).2),
    decreases e,
{
    lemma_anf_counter(e, need_atom, k);
    match e {
        Expr::Unary(op, x) => {
            lemma_anf_expr_declares(*x, true, k);
            lemma_anf_counter(*x, true, k);
            let (a, extras, k1) = anf_expr(*x, true, k);
            if need_atom {
                let d = Stmt::Decl(temp_name(k1), Expr::Unary(op, Box::new(a)));
                assert(extras.push(d).drop_last() =~= extras);
                assert(temp_range(k, k1).push(temp_name(k1)) =~= temp_range(k, k1 + 1));
            }
        },
        Expr::Binary(l, op, r) => {
            lemma_anf_expr_declares(*l, true, k);
            let (al, el, k1) = anf_expr(*l, true, k);
            lemma_anf_expr_declares(*r, true, k1);
            lemma_anf_counter(*l, true, k);
            lemma_anf_counter(*r, true, k1);
            let (ar, er, k2) = anf_expr(*r, true, k1);
            lemma_declared_concat(el, er);
            lemma_temp_range_concat(k, k1, k2);
            if need_atom {
                let d = Stmt::Decl(temp_name(k2), Expr::Binary(Box::new(al), op, Box::new(ar)));
                assert((el + er).push(d).drop_last() =~= el + er);
                assert(temp_range(k, k2).push(temp_name(k2)) =~= temp_range(k, k2 + 1));
            }
        },
        Expr::Call(name, args) => {
            lemma_anf_args_declares(args, k);
            lemma_anf_args_counter(args, k);
            let (atoms, extras, k1) = anf_args(args, k);
            let d = Stmt::Decl(temp_name(k1), Expr::Call(name, atoms));
            assert(extras.push(d).drop_last() =~= extras);
            assert(temp_range(k, k1).push(temp_name(k1)) =~= temp_range(k, k1 + 1));
        },
        Expr::Grouping(x) => lemma_anf_expr_declares(*x, need_atom, k),
        _ => {
            assert(declared_names(Seq::empty()) =~= temp_range(k, k));
        },
    }
}

proof fn lemma_anf_args_declares(args: Seq<Expr>, k: nat)
    ensures
        declared_names(anf_args(args, k).1) == temp_range(k, anf_args(args, k).2),
    decreases args,
{
    lemma_anf_args_counter(args, k);
    if args.len() == 0 {
        assert(declared_names(Seq::empty()) =~= temp_range(k, k));
    } else {
        lemma_anf_args_declares(args.drop_last(), k);
        lemma_anf_args_counter(args.drop_last(), k);
        let (atoms, extras, k1) = anf_args(args.drop_last(), k);
        lemma_anf_expr_declares(args[args.len() - 1], true, k1);
        lemma_anf_counter(args[args.len() - 1], true, k1);
        let (a, more, k2) = anf_expr(args[args.len() - 1], true, k1);
        lemma_declared_concat(extras, more);
        lemma_temp_range_concat(k, k1, k2);
    }
}

/// Whether `x` names one of the temporaries numbered below `n`.
pub open spec fn temp_below(x: Seq<char>, n: nat) -> bool {
    exists|j: nat| j < n && x == temp_name(j)
}

proof fn lemma_anf_declared_distinct(m: Seq<Stmt>)
    requires
        declared_names(m).no_duplicates(),
        no_temp_like_names(m),
    ensures
        declared_names(anf_stmts(m, 0).0).no_duplicates(),
        forall|i: int| 0 <= i < declared_names(anf_stmts(m, 0).0).len() ==> {
            let x = #[trigger] declared_names(anf_stmts(m, 0).0)[i];
            temp_below(x, anf_stmts(m, 0).1) || (!is_temp_name(x) && declared_names(m).contains(x))
        },
    decreases m.len(), 1nat,
{
    if m.len() > 0 {
        lemma_anf_declared_distinct_step(m);
    }
}

proof fn lemma_anf_declared_distinct_step(m: Seq<Stmt>)
    requires
        m.len() > 0,
        declared_names(m).no_duplicates(),
        no_temp_like_names(m),
    ensures
        declared_names(anf_stmts(m, 0).0).no_duplicates(),
        forall|i: int| 0 <= i < declared_names(anf_stmts(m, 0).0).len() ==> {
            let x = #[trigger] declared_names(anf_stmts(m, 0).0)[i];
            temp_below(x, anf_stmts(m, 0).1) || (!is_temp_name(x) && declared_names(m).contains(x))
        },
    decreases m.len(), 0nat,
{
    let init = m.drop_last();
    let s = m.last();
    assert(s == m[m.len() - 1]);
    assert forall|i: int| 0 <= i < init.len() implies (#[trigger] init[i] matches Stmt::Decl(n, _)
        ==> !is_temp_name(n)) by {
        assert(init[i] == m[i]);
    }
    let users = declared_names(m);
    let users0 = declared_names(init);
    assert(users0.no_duplicates()) by {
        match s {
            Stmt::Decl(n, _) => {
                assert forall|i: int, j: int|
                    0 <= i < users0.len() && 0 <= j < users0.len() && i != j implies users0[i]
                    != users0[j] by {
                    assert(users[i] == users0[i]);
                    assert(users[j] == users0[j]);
                }
            },
            Stmt::Expr(_) => {},
        }
    }
    lemma_anf_declared_distinct(init);
    lemma_anf_stmts_temps(init, 0);
    let (done, k1) = anf_stmts(init, 0);
    let e = match s {
        Stmt::Expr(e) => e,
        Stmt::Decl(_, e) => e,
    };
    lemma_anf_expr_declares(e, false, k1);
    lemma_anf_counter(e, false, k1);
    let (x, extras, k2) = anf_expr(e, false, k1);
    let (more, k3) = anf_stmt(s, k1);
    assert(more.drop_last() =~= extras);
    let temps = temp_range(k1, k2);
    let tail = declared_names(more);
    let prev = declared_names(done);
    lemma_declared_concat(done, more);
    assert(anf_stmts(m, 0).0 == done + more);
    assert(anf_stmts(m, 0).1 == k2);
    // every name so far is a temporary below k2 or a user name of m, and
    // user names are not temporaries'
    assert forall|i: int| 0 <= i < users.len() implies !is_temp_name(#[trigger] users[i]) by {
        lemma_declared_not_temp(m, i);
    }
    assert forall|i: int| 0 <= i < prev.len() implies {
        let y = #[trigger] prev[i];
        temp_below(y, k1) || (!is_temp_name(y) && users0.contains(y))
    } by {}
    assert(temps.no_duplicates()) by {
        assert forall|i: int, j: int|
            0 <= i < temps.len() && 0 <= j < temps.len() && i != j implies temps[i] != temps[j] by {
            lemma_temp_name_injective((k1 + i) as nat, (k1 + j) as nat);
        }
    }
    assert forall|i: int, j: int| 0 <= i < prev.len() && 0 <= j < temps.len() implies prev[i]
        != temps[j] by {
        let y = prev[i];
        assert(is_temp_name(temps[j]));
        if temp_below(y, k1) {
            let t = choose|t: nat| t < k1 && y == temp_name(t);
            lemma_temp_name_injective(t, (k1 + j) as nat);
        }
    }
    lemma_no_dup_in_concat(prev, temps);
    match s {
        Stmt::Decl(n, _) => {
            assert(tail =~= temps.push(n));
            assert(users =~= users0.push(n));
            assert(!is_temp_name(n)) by {
                assert(users[users.len() - 1] == n);
            }
            assert(!users0.contains(n)) by {
                if users0.contains(n) {
                    let i = choose|i: int| 0 <= i < users0.len() && users0[i] == n;
                    assert(users[i] == users[users.len() - 1]);
                }
            }
            let all = prev + temps;
            assert forall|i: int| 0 <= i < all.len() implies all[i] != n by {
                if i < prev.len() {
                    assert(all[i] == prev[i]);
                    if temp_below(prev[i], k1) {
                        let t = choose|t: nat| t < k1 && prev[i] == temp_name(t);
                        assert(is_temp_name(prev[i]));
                    }
                } else {
                    assert(all[i] == temps[i - prev.len()]);
                    assert(is_temp_name(temps[i - prev.len()]));
                }
            }
            assert(prev + temps.push(n) =~= all.push(n));
            assert(all.push(n).no_duplicates()) by {
                assert forall|i: int, j: int|
                    0 <= i < all.push(n).len() && 0 <= j < all.push(n).len() && i != j implies all.push(
                    n,
                )[i] != all.push(n)[j] by {
                    if i < all.len() && j < all.len() {
                    } else if i < all.len() {
                        assert(all.push(n)[j] == n);
                    } else {
                        assert(all.push(n)[i] == n);
                    }
                }
            }
        },
        Stmt::Expr(_) => {
            assert(tail =~= temps);
            assert(users =~= users0);
        },
    }
    let out = declared_names(anf_stmts(m, 0).0);
    assert forall|i: int| 0 <= i < out.len() implies {
        let x = #[trigger] out[i];
        temp_below(x, k2) || (!is_temp_name(x) && users.contains(x))
    } by {
        if i < prev.len() {
            assert(out[i] == prev[i]);
            if temp_below(prev[i], k1) {
                let t = choose|t: nat| t < k1 && prev[i] == temp_name(t);
                assert(t < k2);
            } else {
                let q = choose|q: int| 0 <= q < users0.len() && users0[q] == prev[i];
                assert(users[q] == users0[q]);
            }
        } else if i < prev.len() + temps.len() {
            assert(out[i] == temps[i - prev.len()]);
            assert(temps[i - prev.len()] == temp_name((k1 + i - prev.len()) as nat));
        } else {
            assert(users[users.len() - 1] == out[i]);
        }
    }
}

proof fn lemma_declared_not_temp(m: Seq<Stmt>, i: int)
    requires
        no_temp_like_names(m),
        0 <= i < declared_names(m).len(),
    ensures
        !is_temp_name(declared_names(m)[i]),
    decreases m.len(),
{
    let init = m.drop_last();
    assert forall|k: int| 0 <= k < init.len() implies (#[trigger] init[k] matches Stmt::Decl(n, _)
        ==> !is_temp_name(n)) by {
        assert(init[k] == m[k]);
    }
    assert(m.last() == m[m.len() - 1]);
    if i < declared_names(init).len() {
        lemma_declared_not_temp(init, i);
    }
}

/// No two declarations of the rewritten module share a name, when none of
/// the module's own declarations did and none is named like a temporary.
pub proof fn lemma_anf_declared_names_distinct(m: Seq<Stmt>)
    requires
        declared_names(m).no_duplicates(),
        no_temp_like_names(m),
    ensures
        declared_names(anf_module(m)).no_duplicates(),
{
    lemma_anf_declared_distinct(m);
}

} // verus!
