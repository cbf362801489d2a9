use vstd::prelude::*;

verus! {

/// A binary arithmetic operator; `Sub` also serves as unary negation.
#[derive(Clone, Copy, Debug, PartialEq, Eq, Structural)]
pub enum Operator {
    Sub,
    Add,
    Multiply,
    Divide,
}

#[derive(Debug, PartialEq)]
pub enum Expression {
    Constant { value: i64 },
    UnaryOp { operator: Operator, operand: Box<Expression> },
    BinaryOp { left: Box<Expression>, operator: Operator, right: Box<Expression> },
    Call { name: String, args: Vec<Expression> },
    VariableAccess { name: String },
    Grouping { expression: Box<Expression> },
}

#[derive(Debug, PartialEq)]
pub enum Statement {
    Expression(Expression),
    VariableDeclaration { name: String, value: Expression },
}

/// A compilation unit: statements in program order.
#[derive(Debug, PartialEq)]
pub struct Module {
    pub statements: Vec<Statement>,
}

/// Mathematical model of an expression: names are character sequences.
pub enum Expr {
    Constant(i64),
    Unary(Operator, Box<Expr>),
    Binary(Box<Expr>, Operator, Box<Expr>),
    Call(Seq<char>, Seq<Expr>),
    Var(Seq<char>),
    Grouping(Box<Expr>),
}

/// Mathematical model of a statement.
pub enum Stmt {
    Expr(Expr),
    Decl(Seq<char>, Expr),
}

impl Expression {
    pub open spec fn view(&self) -> Expr
        decreases self,
    {
        match self {
            Expression::Constant { value } => Expr::Constant(*value),
            Expression::UnaryOp { operator, operand } => Expr::Unary(*operator, Box::new((**operand).view())),
            Expression::BinaryOp { left, operator, right } => Expr::Binary(
                Box::new((**left).view()),
                *operator,
                Box::new((**right).view()),
            ),
            Expression::Call { name, args } => Expr::Call(name@, view_args(args@)),
            Expression::VariableAccess { name } => Expr::Var(name@),
            Expression::Grouping { expression } => Expr::Grouping(Box::new((**expression).view())),
        }
    }
}

impl Statement {
    pub open spec fn view(&self) -> Stmt {
        match self {
            Statement::Expression(e) => Stmt::Expr(e@),
            Statement::VariableDeclaration { name, value } => Stmt::Decl(name@, value@),
        }
    }
}

/// The models of `statements`, in order.
pub open spec fn view_statements(statements: Seq<Statement>) -> Seq<Stmt> {
    statements.map_values(|s: Statement| s@)
}

impl Module {
    pub open spec fn view(&self) -> Seq<Stmt> {
        view_statements(self.statements@)
    }
}

pub proof fn lemma_view_args(args: Seq<Expression>)
    ensures
        view_args(args).len() == args.len(),
        forall|i: int| 0 <= i < args.len() ==> #[trigger] view_args(args)[i] == args[i]@,
    decreases args.len(),
{
    if args.len() > 0 {
        lemma_view_args(args.drop_last());
    }
}

/// Whether `e` is an atom: a constant or a variable access.
pub open spec fn is_atom(e: Expr) -> bool {
    e is Constant || e is Var
}

/// The elements of `v`, last first.
pub fn reversed<T>(v: Vec<T>) -> (r: Vec<T>)
    ensures
        r@.len() == v@.len(),
        forall|k: int| 0 <= k < v@.len() ==> #[trigger] r@[k] == v@[v@.len() - 1 - k],
{
    let ghost original = v@;
    let mut rest = v;
    let mut r: Vec<T> = Vec::new();
    while rest.len() > 0
        invariant
            rest@ == original.subrange(0, original.len() - r@.len()),
            r@.len() <= original.len(),
            forall|k: int| 0 <= k < r@.len() ==> #[trigger] r@[k] == original[original.len() - 1 - k],
        decreases rest@.len(),
    {
        let x = rest.pop().unwrap();
        r.push(x);
    }
    r
}

pub open spec fn view_args(args: Seq<Expression>) -> Seq<Expr>
    decreases args,
{
    if args.len() == 0 {
        Seq::empty()
    } else {
        view_args(args.drop_last()).push(args.last().view())
    }
}

} // verus!

verus! {

impl Clone for Expression {
    fn clone(&self) -> (r: Self)
        ensures
            r@ == self@,
        decreases self,
    {
        match self {
            Expression::Constant { value } => Expression::Constant { value: *value },
            Expression::UnaryOp { operator, operand } => Expression::UnaryOp {
                operator: *operator,
                operand: Box::new((**operand).clone()),
            },
            Expression::BinaryOp { left, operator, right } => Expression::BinaryOp {
                left: Box::new((**left).clone()),
                operator: *operator,
                right: Box::new((**right).clone()),
            },
            Expression::Call { name, args } => {
                proof {
                    lemma_view_args(args@);
                }
                let mut copies: Vec<Expression> = Vec::new();
                let mut i: usize = 0;
                while i < args.len()
                    invariant
                        i <= args@.len(),
                        view_args(copies@) == view_args(args@.subrange(0, i as int)),
                        forall|j: int| 0 <= j < args@.len() ==> decreases_to!(self => #[trigger] args@[j]),
                    decreases args@.len() - i,
                {
                    let ghost before = copies@;
                    copies.push(args[i].clone());
                    proof {
                        assert(copies@.drop_last() =~= before);
                        assert(args@.subrange(0, i + 1).drop_last() =~= args@.subrange(0, i as int));
                    }
                    i = i + 1;
                }
                assert(args@.subrange(0, i as int) =~= args@);
                Expression::Call { name: name.clone(), args: copies }
            },
            Expression::VariableAccess { name } => Expression::VariableAccess { name: name.clone() },
            Expression::Grouping { expression } => Expression::Grouping {
                expression: Box::new((**expression).clone()),
            },
        }
    }
}

} // verus!

verus! {

impl Clone for Statement {
    fn clone(&self) -> (r: Self)
        ensures
            r@ == self@,
    {
        match self {
            Statement::Expression(e) => Statement::Expression(e.clone()),
            Statement::VariableDeclaration { name, value } => Statement::VariableDeclaration {
                name: name.clone(),
                value: value.clone(),
            },
        }
    }
}

impl Clone for Module {
    fn clone(&self) -> (r: Self)
        ensures
            r@ == self@,
    {
        let mut statements: Vec<Statement> = Vec::new();
        let mut i: usize = 0;
        while i < self.statements.len()
            invariant
                i <= self.statements@.len(),
                view_statements(statements@) == view_statements(self.statements@.subrange(0, i as int)),
            decreases self.statements@.len() - i,
        {
            let ghost before = view_statements(statements@);
            let copy = self.statements[i].clone();
            assert(copy@ == self.statements@[i as int]@);
            statements.push(copy);
            assert(view_statements(statements@) =~= before.push(copy@));
            assert(view_statements(self.statements@.subrange(0, i + 1)) =~= view_statements(
                self.statements@.subrange(0, i as int),
            ).push(copy@));
            i = i + 1;
        }
        assert(self.statements@.subrange(0, i as int) =~= self.statements@);
        Module { statements }
    }
}

} // verus!
