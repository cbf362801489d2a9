use crate::ast::{Expr, Expression, Module, Operator, Statement, Stmt, view_args, view_statements};
use crate::text::{number_value, parse_decimal};
use crate::tokenizer::{same_token, Keyword, Lexeme, Token, TokenType};
use vstd::prelude::*;

verus! {

#[derive(Clone, Copy, Debug, PartialEq, Eq, Structural)]
pub enum ParseError {
    /// A required token is missing.
    UnexpectedToken { expected: TokenType, found: TokenType, line: usize, column: usize },
    /// No expression starts at this token.
    ExpectedExpression { found: TokenType, line: usize, column: usize },
    /// Something other than a name is called.
    InvalidCallTarget { line: usize, column: usize },
    /// A number literal that does not fit in 64 signed bits.
    InvalidNumber { line: usize, column: usize },
    /// An expression statement that is not a call.
    ExpectedCall { line: usize, column: usize },
}

/// A parse of a phrase: what it denotes and how many tokens it takes.
pub type Parsed<T> = Result<(T, nat), ParseError>;

/// The kind of token `i`; past the end, the input counts as ended.
pub open spec fn kind_at(toks: Seq<Lexeme>, i: int) -> TokenType {
    if 0 <= i < toks.len() {
        toks[i].kind
    } else {
        TokenType::Eof
    }
}

pub open spec fn line_at(toks: Seq<Lexeme>, i: int) -> usize {
    if 0 <= i < toks.len() {
        toks[i].line as usize
    } else {
        0
    }
}

pub open spec fn column_at(toks: Seq<Lexeme>, i: int) -> usize {
    if 0 <= i < toks.len() {
        toks[i].column as usize
    } else {
        0
    }
}

pub open spec fn unexpected_token(toks: Seq<Lexeme>, i: int, expected: TokenType) -> ParseError {
    ParseError::UnexpectedToken {
        expected,
        found: kind_at(toks, i),
        line: line_at(toks, i),
        column: column_at(toks, i),
    }
}

/// The operator that a token of kind `k` stands for.
pub open spec fn operator_of(k: TokenType) -> Operator {
    match k {
        TokenType::Plus => Operator::Add,
        TokenType::Star => Operator::Multiply,
        TokenType::Slash => Operator::Divide,
        _ => Operator::Sub,
    }
}

/// The measure by which parsing proceeds: the tokens left from `i`.
pub open spec fn left(toks: Seq<Lexeme>, i: int) -> int {
    if i <= toks.len() {
        toks.len() + 1 - i
    } else {
        0
    }
}

pub open spec fn shift<T>(r: Parsed<T>, by: nat) -> Parsed<T> {
    match r {
        Ok((x, c)) => Ok((x, c + by)),
        Err(e) => Err(e),
    }
}

/// expression := term
pub open spec fn p_expression(toks: Seq<Lexeme>, i: int) -> Parsed<Expr>
    decreases left(toks, i), 9int,
{
    p_term(toks, i)
}

/// term := factor ( ("+" | "-") factor )*
pub open spec fn p_term(toks: Seq<Lexeme>, i: int) -> Parsed<Expr>
    decreases left(toks, i), 8int,
{
    match p_factor(toks, i) {
        Err(e) => Err(e),
        Ok((l, c)) => shift(p_term_rest(toks, l, i + c), c),
    }
}

/// The `( ("+" | "-") factor )*` part of a term whose left operand so far
/// is `acc`.
pub open spec fn p_term_rest(toks: Seq<Lexeme>, acc: Expr, j: int) -> Parsed<Expr>
    decreases left(toks, j), 7int,
{
    let k = kind_at(toks, j);
    if k == TokenType::Plus || k == TokenType::Minus {
        match p_factor(toks, j + 1) {
            Err(e) => Err(e),
            Ok((r, c)) => shift(
                p_term_rest(toks, Expr::Binary(Box::new(acc), operator_of(k), Box::new(r)), j + 1 + c),
                1 + c,
            ),
        }
    } else {
        Ok((acc, 0))
    }
}

/// factor := call ( ("*" | "/") call )*
pub open spec fn p_factor(toks: Seq<Lexeme>, i: int) -> Parsed<Expr>
    decreases left(toks, i), 6int,
{
    match p_call(toks, i) {
        Err(e) => Err(e),
        Ok((l, c)) => shift(p_factor_rest(toks, l, i + c), c),
    }
}

pub open spec fn p_factor_rest(toks: Seq<Lexeme>, acc: Expr, j: int) -> Parsed<Expr>
    decreases left(toks, j), 5int,
{
    let k = kind_at(toks, j);
    if k == TokenType::Star || k == TokenType::Slash {
        match p_call(toks, j + 1) {
            Err(e) => Err(e),
            Ok((r, c)) => shift(
                p_factor_rest(toks, Expr::Binary(Box::new(acc), operator_of(k), Box::new(r)), j + 1 + c),
                1 + c,
            ),
        }
    } else {
        Ok((acc, 0))
    }
}

/// call := unary ( "(" args ")" ";" )?, where only a name can be called.
pub open spec fn p_call(toks: Seq<Lexeme>, i: int) -> Parsed<Expr>
    decreases left(toks, i), 4int,
{
    match p_unary(toks, i) {
        Err(e) => Err(e),
        Ok((callee, c)) => {
            let j = i + c;
            if kind_at(toks, j) != TokenType::ParenthesesLeft {
                Ok((callee, c))
            } else {
                match callee {
                    Expr::Var(name) => match p_args(toks, j + 1) {
                        Err(e) => Err(e),
                        Ok((args, d)) => {
                            let close = j + 1 + d;
                            if kind_at(toks, close) != TokenType::ParenthesesRight {
                                Err(unexpected_token(toks, close, TokenType::ParenthesesRight))
                            } else if kind_at(toks, close + 1) != TokenType::Semicolon {
                                Err(unexpected_token(toks, close + 1, TokenType::Semicolon))
                            } else {
                                Ok((Expr::Call(name, args), c + d + 3))
                            }
                        },
                    },
                    _ => Err(ParseError::InvalidCallTarget { line: line_at(toks, j), column: column_at(toks, j) }),
                }
            }
        },
    }
}

/// args := expression ( "," expression )*
pub open spec fn p_args(toks: Seq<Lexeme>, i: int) -> Parsed<Seq<Expr>>
    decreases left(toks, i), 11int,
{
    match p_expression(toks, i) {
        Err(e) => Err(e),
        Ok((first, c)) => shift(p_args_rest(toks, seq![first], i + c), c),
    }
}

pub open spec fn p_args_rest(toks: Seq<Lexeme>, acc: Seq<Expr>, j: int) -> Parsed<Seq<Expr>>
    decreases left(toks, j), 10int,
{
    if kind_at(toks, j) == TokenType::Comma {
        match p_expression(toks, j + 1) {
            Err(e) => Err(e),
            Ok((a, c)) => shift(p_args_rest(toks, acc.push(a), j + 1 + c), 1 + c),
        }
    } else {
        Ok((acc, 0))
    }
}

/// unary := "-" unary | primary
pub open spec fn p_unary(toks: Seq<Lexeme>, i: int) -> Parsed<Expr>
    decreases left(toks, i), 3int,
{
    if kind_at(toks, i) == TokenType::Minus {
        match p_unary(toks, i + 1) {
            Err(e) => Err(e),
            Ok((x, c)) => Ok((Expr::Unary(Operator::Sub, Box::new(x)), c + 1)),
        }
    } else {
        p_primary(toks, i)
    }
}

/// primary := IDENT | NUMBER | "(" expression ")"
pub open spec fn p_primary(toks: Seq<Lexeme>, i: int) -> Parsed<Expr>
    decreases left(toks, i), 2int,
{
    let k = kind_at(toks, i);
    if k == TokenType::Identifier {
        Ok((Expr::Var(toks[i].literal), 1))
    } else if k == TokenType::Number {
        match number_value(toks[i].literal) {
            Some(v) => Ok((Expr::Constant(v), 1)),
            None => Err(ParseError::InvalidNumber { line: line_at(toks, i), column: column_at(toks, i) }),
        }
    } else if k == TokenType::ParenthesesLeft {
        match p_expression(toks, i + 1) {
            Err(e) => Err(e),
            Ok((x, c)) => if kind_at(toks, i + 1 + c) == TokenType::ParenthesesRight {
                Ok((Expr::Grouping(Box::new(x)), c + 2))
            } else {
                Err(unexpected_token(toks, i + 1 + c, TokenType::ParenthesesRight))
            },
        }
    } else {
        Err(ParseError::ExpectedExpression { found: k, line: line_at(toks, i), column: column_at(toks, i) })
    }
}

/// statement := "let" IDENT "=" expression ";" | call, where a call takes
/// its own ";"
pub open spec fn p_statement(toks: Seq<Lexeme>, i: int) -> Parsed<Stmt> {
    if kind_at(toks, i) == TokenType::Keyword(Keyword::Let) {
        if kind_at(toks, i + 1) != TokenType::Identifier {
            Err(unexpected_token(toks, i + 1, TokenType::Identifier))
        } else if kind_at(toks, i + 2) != TokenType::Equals {
            Err(unexpected_token(toks, i + 2, TokenType::Equals))
        } else {
            match p_expression(toks, i + 3) {
                Err(e) => Err(e),
                Ok((x, c)) => if kind_at(toks, i + 3 + c) != TokenType::Semicolon {
                    Err(unexpected_token(toks, i + 3 + c, TokenType::Semicolon))
                } else {
                    Ok((Stmt::Decl(toks[i + 1].literal, x), c + 4))
                },
            }
        }
    } else {
        match p_expression(toks, i) {
            Err(e) => Err(e),
            Ok((x, c)) => if x is Call {
                Ok((Stmt::Expr(x), c))
            } else {
                Err(ParseError::ExpectedCall { line: line_at(toks, i), column: column_at(toks, i) })
            },
        }
    }
}

} // verus!

verus! {

proof fn lemma_expression_consumes(toks: Seq<Lexeme>, i: int)
    ensures
        p_expression(toks, i) matches Ok((_, c)) ==> c >= 1,
        p_statement(toks, i) matches Ok((_, c)) ==> c >= 1,
{
    if let Ok((_, c)) = p_unary(toks, i) {
        if kind_at(toks, i) != TokenType::Minus {
            assert(p_unary(toks, i) == p_primary(toks, i));
        }
        assert(c >= 1);
    }
    if let Ok((_, c)) = p_call(toks, i) {
        assert(c >= 1);
    }
    if let Ok((_, c)) = p_factor(toks, i) {
        assert(c >= 1);
    }
    if let Ok((_, c)) = p_expression(toks, i) {
        assert(p_expression(toks, i) == p_term(toks, i));
        assert(c >= 1);
    }
}

/// module := statement* EOF
pub open spec fn p_module(toks: Seq<Lexeme>, i: int) -> Result<Seq<Stmt>, ParseError>
    decreases left(toks, i),
    via p_module_decreases
{
    if kind_at(toks, i) == TokenType::Eof {
        Ok(Seq::empty())
    } else {
        match p_statement(toks, i) {
            Err(e) => Err(e),
            Ok((s, c)) => match p_module(toks, i + c) {
                Err(e) => Err(e),
                Ok(rest) => Ok(seq![s] + rest),
            },
        }
    }
}

#[via_fn]
proof fn p_module_decreases(toks: Seq<Lexeme>, i: int) {
    lemma_expression_consumes(toks, i);
}

/// The module that `toks` spells, or the first syntax error in it.
pub open spec fn parse_tokens(toks: Seq<Lexeme>) -> Result<Seq<Stmt>, ParseError> {
    p_module(toks, 0)
}

/// What an exec parsing step returns and where it leaves the cursor, as
/// against the parse `spec` from the cursor's old place.
pub open spec fn parsed_expr(
    spec: Parsed<Expr>,
    r: Result<Expression, ParseError>,
    old_cursor: int,
    new_cursor: int,
) -> bool {
    match spec {
        Ok((e, c)) => r matches Ok(x) && x@ == e && new_cursor == old_cursor + c,
        Err(err) => r == Err::<Expression, ParseError>(err),
    }
}

fn operator_for(k: TokenType) -> (r: Operator)
    ensures
        r == operator_of(k),
{
    match k {
        TokenType::Plus => Operator::Add,
        TokenType::Star => Operator::Multiply,
        TokenType::Slash => Operator::Divide,
        _ => Operator::Sub,
    }
}

/// A recursive-descent parser over a token sequence.
pub struct Parser {
    tokens: Vec<Token>,
    cursor: usize,
}

impl Parser {
    /// The models of the tokens being parsed.
    pub closed spec fn input(&self) -> Seq<Lexeme> {
        crate::tokenizer::lexemes(self.tokens@)
    }

    /// The index of the next token to read.
    pub closed spec fn position(&self) -> int {
        self.cursor as int
    }

    pub closed spec fn wf(&self) -> bool {
        self.cursor <= self.tokens@.len()
    }

    pub fn new(tokens: Vec<Token>) -> (r: Parser)
        ensures
            r.wf(),
            r.input() == crate::tokenizer::lexemes(tokens@),
            r.position() == 0,
    {
        Parser { tokens, cursor: 0 }
    }

    /// Parses statements up to the end of input.
    pub fn parse(&mut self) -> (r: Result<Module, ParseError>)
        requires
            old(self).wf(),
        ensures
            final(self).wf(),
            final(self).input() == old(self).input(),
            match p_module(old(self).input(), old(self).position()) {
                Ok(m) => r matches Ok(x) && x@ == m,
                Err(e) => r == Err::<Module, ParseError>(e),
            },
    {
        let ghost toks = self.input();
        let ghost first = self.cursor as int;
        let mut statements: Vec<Statement> = Vec::new();
        loop
            invariant_except_break
                self.wf(),
                self.input() == toks,
                toks == old(self).input(),
                first == old(self).cursor,
                first <= self.cursor,
                p_module(toks, first) == prepend_stmts(
                    view_statements(statements@),
                    p_module(toks, self.cursor as int),
                ),
            ensures
                self.wf(),
                self.input() == toks,
                p_module(toks, first) == Ok::<Seq<Stmt>, ParseError>(view_statements(statements@)),
            decreases left(toks, self.cursor as int),
        {
            if self.peek_kind() == TokenType::Eof {
                assert(view_statements(statements@) + Seq::<Stmt>::empty() =~= view_statements(statements@));
                break;
            }
            proof {
                lemma_expression_consumes(toks, self.cursor as int);
            }
            let ghost done = view_statements(statements@);
            match self.parse_statement() {
                Ok(s) => {
                    statements.push(s);
                    proof {
                        assert(view_statements(statements@) =~= done.push(s@));
                        match p_module(toks, self.cursor as int) {
                            Ok(rest) => {
                                assert(done + (seq![s@] + rest) =~= done.push(s@) + rest);
                            },
                            Err(_) => {},
                        }
                    }
                },
                Err(e) => {
                    return Err(e);
                },
            }
        }
        Ok(Module { statements })
    }

    fn peek_kind(&self) -> (k: TokenType)
        requires
            self.wf(),
        ensures
            k == kind_at(self.input(), self.cursor as int),
            k != TokenType::Eof ==> self.cursor < self.tokens@.len(),
            self.tokens@.len() <= usize::MAX,
    {
        if self.cursor < self.tokens.len() {
            *self.tokens[self.cursor].get_type()
        } else {
            TokenType::Eof
        }
    }

    fn line_at(&self, i: usize) -> (r: usize)
        ensures
            r == line_at(self.input(), i as int),
    {
        if i < self.tokens.len() {
            self.tokens[i].get_line()
        } else {
            0
        }
    }

    fn column_at(&self, i: usize) -> (r: usize)
        ensures
            r == column_at(self.input(), i as int),
    {
        if i < self.tokens.len() {
            self.tokens[i].get_column()
        } else {
            0
        }
    }

    fn literal_at(&self, i: usize) -> (r: String)
        requires
            i < self.tokens@.len(),
        ensures
            r@ == self.input()[i as int].literal,
    {
        self.tokens[i].get_literal_value().to_owned()
    }

    /// Moves past the current token, which must be of kind `required`, and
    /// returns it.
    fn consume_required(&mut self, required: TokenType) -> (r: Result<Token, ParseError>)
        requires
            old(self).wf(),
            required != TokenType::Eof,
        ensures
            final(self).wf(),
            final(self).input() == old(self).input(),
            kind_at(old(self).input(), old(self).cursor as int) == required ==> (r matches Ok(t)
                && t@ == old(self).input()[old(self).cursor as int] && final(self).cursor
                == old(self).cursor + 1),
            kind_at(old(self).input(), old(self).cursor as int) != required ==> r == Err::<
                Token,
                ParseError,
            >(unexpected_token(old(self).input(), old(self).cursor as int, required)),
    {
        let current = self.peek_kind();
        if current != required {
            return Err(
                ParseError::UnexpectedToken {
                    expected: required,
                    found: current,
                    line: self.line_at(self.cursor),
                    column: self.column_at(self.cursor),
                },
            );
        }
        let token = self.tokens[self.cursor].clone();
        self.cursor = self.cursor + 1;
        Ok(token)
    }

    /// Moves past the current token when it is of kind `first` or `second`,
    /// and returns that kind.
    fn consume_if_matched(&mut self, first: TokenType, second: TokenType) -> (r: Option<TokenType>)
        requires
            old(self).wf(),
            first != TokenType::Eof,
            second != TokenType::Eof,
        ensures
            final(self).wf(),
            final(self).input() == old(self).input(),
            ({
                let k = kind_at(old(self).input(), old(self).cursor as int);
                if k == first || k == second {
                    r == Some(k) && final(self).cursor == old(self).cursor + 1
                } else {
                    r is None && final(self).cursor == old(self).cursor
                }
            }),
    {
        let current = self.peek_kind();
        if current == first || current == second {
            self.cursor = self.cursor + 1;
            Some(current)
        } else {
            None
        }
    }

    fn parse_statement(&mut self) -> (r: Result<Statement, ParseError>)
        requires
            old(self).wf(),
        ensures
            final(self).wf(),
            final(self).input() == old(self).input(),
            match p_statement(old(self).input(), old(self).cursor as int) {
                Ok((s, c)) => r matches Ok(x) && x@ == s && final(self).cursor == old(self).cursor + c,
                Err(err) => r == Err::<Statement, ParseError>(err),
            },
    {
        self.parse_variable_declaration()
    }

    fn parse_variable_declaration(&mut self) -> (r: Result<Statement, ParseError>)
        requires
            old(self).wf(),
        ensures
            final(self).wf(),
            final(self).input() == old(self).input(),
            match p_statement(old(self).input(), old(self).cursor as int) {
                Ok((s, c)) => r matches Ok(x) && x@ == s && final(self).cursor == old(self).cursor + c,
                Err(err) => r == Err::<Statement, ParseError>(err),
            },
    {
        let let_kind = TokenType::Keyword(Keyword::Let);
        if self.consume_if_matched(let_kind, let_kind).is_some() {
            let name = match self.consume_required(TokenType::Identifier) {
                Ok(identifier) => identifier.get_literal_value().to_owned(),
                Err(e) => {
                    return Err(e);
                },
            };
            if let Err(e) = self.consume_required(TokenType::Equals) {
                return Err(e);
            }
            let value = match self.parse_expression() {
                Ok(x) => x,
                Err(e) => {
                    return Err(e);
                },
            };
            if let Err(e) = self.consume_required(TokenType::Semicolon) {
                return Err(e);
            }
            return Ok(Statement::VariableDeclaration { name, value });
        }
        let at = self.cursor;
        match self.parse_expression() {
            Ok(x) => match x {
                Expression::Call { .. } => Ok(Statement::Expression(x)),
                _ => Err(ParseError::ExpectedCall { line: self.line_at(at), column: self.column_at(at) }),
            },
            Err(e) => Err(e),
        }
    }

    fn parse_expression(&mut self) -> (r: Result<Expression, ParseError>)
        requires
            old(self).wf(),
        ensures
            final(self).wf(),
            final(self).input() == old(self).input(),
            parsed_expr(
                p_expression(old(self).input(), old(self).cursor as int),
                r,
                old(self).cursor as int,
                final(self).cursor as int,
            ),
        decreases left(self.input(), self.cursor as int), 9int,
    {
        self.parse_term()
    }

    fn parse_term(&mut self) -> (r: Result<Expression, ParseError>)
        requires
            old(self).wf(),
        ensures
            final(self).wf(),
            final(self).input() == old(self).input(),
            parsed_expr(
                p_term(old(self).input(), old(self).cursor as int),
                r,
                old(self).cursor as int,
                final(self).cursor as int,
            ),
        decreases left(self.input(), self.cursor as int), 8int,
    {
        let ghost toks = self.input();
        let ghost i = self.cursor as int;
        let mut expression = match self.parse_factor() {
            Ok(x) => x,
            Err(e) => {
                return Err(e);
            },
        };
        loop
            invariant_except_break
                self.wf(),
                self.input() == toks,
                toks == old(self).input(),
                i == old(self).cursor,
                i <= self.cursor,
                p_term(toks, i) == shift(
                    p_term_rest(toks, expression@, self.cursor as int),
                    (self.cursor - i) as nat,
                ),
            ensures
                self.wf(),
                self.input() == toks,
                i <= self.cursor,
                p_term(toks, i) == Ok::<(Expr, nat), ParseError>(
                    (expression@, (self.cursor - i) as nat),
                ),
            decreases left(toks, self.cursor as int),
        {
            let ghost j = self.cursor as int;
            match self.consume_if_matched(TokenType::Plus, TokenType::Minus) {
                Some(k) => {
                    let rhs = match self.parse_factor() {
                        Ok(x) => x,
                        Err(e) => {
                            return Err(e);
                        },
                    };
                    expression = Expression::BinaryOp {
                        left: Box::new(expression),
                        operator: operator_for(k),
                        right: Box::new(rhs),
                    };
                },
                None => {
                    break;
                },
            }
        }
        Ok(expression)
    }

    fn parse_factor(&mut self) -> (r: Result<Expression, ParseError>)
        requires
            old(self).wf(),
        ensures
            final(self).wf(),
            final(self).input() == old(self).input(),
            parsed_expr(
                p_factor(old(self).input(), old(self).cursor as int),
                r,
                old(self).cursor as int,
                final(self).cursor as int,
            ),
        decreases left(self.input(), self.cursor as int), 6int,
    {
        let ghost toks = self.input();
        let ghost i = self.cursor as int;
        let mut expression = match self.parse_function_call() {
            Ok(x) => x,
            Err(e) => {
                return Err(e);
            },
        };
        loop
            invariant_except_break
                self.wf(),
                self.input() == toks,
                toks == old(self).input(),
                i == old(self).cursor,
                i <= self.cursor,
                p_factor(toks, i) == shift(
                    p_factor_rest(toks, expression@, self.cursor as int),
                    (self.cursor - i) as nat,
                ),
            ensures
                self.wf(),
                self.input() == toks,
                i <= self.cursor,
                p_factor(toks, i) == Ok::<(Expr, nat), ParseError>(
                    (expression@, (self.cursor - i) as nat),
                ),
            decreases left(toks, self.cursor as int),
        {
            match self.consume_if_matched(TokenType::Star, TokenType::Slash) {
                Some(k) => {
                    let rhs = match self.parse_function_call() {
                        Ok(x) => x,
                        Err(e) => {
                            return Err(e);
                        },
                    };
                    expression = Expression::BinaryOp {
                        left: Box::new(expression),
                        operator: operator_for(k),
                        right: Box::new(rhs),
                    };
                },
                None => {
                    break;
                },
            }
        }
        Ok(expression)
    }

    fn parse_function_call(&mut self) -> (r: Result<Expression, ParseError>)
        requires
            old(self).wf(),
        ensures
            final(self).wf(),
            final(self).input() == old(self).input(),
            parsed_expr(
                p_call(old(self).input(), old(self).cursor as int),
                r,
                old(self).cursor as int,
                final(self).cursor as int,
            ),
        decreases left(self.input(), self.cursor as int), 4int,
    {
        let callee = match self.parse_unary() {
            Ok(x) => x,
            Err(e) => {
                return Err(e);
            },
        };
        if self.peek_kind() != TokenType::ParenthesesLeft {
            return Ok(callee);
        }
        let paren = self.cursor;
        match callee {
            Expression::VariableAccess { name } => {
                self.cursor = self.cursor + 1;
                let args = match self.parse_args() {
                    Ok(a) => a,
                    Err(e) => {
                        return Err(e);
                    },
                };
                if let Err(e) = self.consume_required(TokenType::ParenthesesRight) {
                    return Err(e);
                }
                if let Err(e) = self.consume_required(TokenType::Semicolon) {
                    return Err(e);
                }
                Ok(Expression::Call { name, args })
            },
            _ => Err(
                ParseError::InvalidCallTarget { line: self.line_at(paren), column: self.column_at(paren) },
            ),
        }
    }

    fn parse_args(&mut self) -> (r: Result<Vec<Expression>, ParseError>)
        requires
            old(self).wf(),
        ensures
            final(self).wf(),
            final(self).input() == old(self).input(),
            match p_args(old(self).input(), old(self).cursor as int) {
                Ok((a, c)) => r matches Ok(x) && view_args(x@) == a && final(self).cursor
                    == old(self).cursor + c,
                Err(err) => r == Err::<Vec<Expression>, ParseError>(err),
            },
        decreases left(self.input(), self.cursor as int), 11int,
    {
        let ghost toks = self.input();
        let ghost i = self.cursor as int;
        let first = match self.parse_expression() {
            Ok(x) => x,
            Err(e) => {
                return Err(e);
            },
        };
        let mut args: Vec<Expression> = Vec::new();
        args.push(first);
        proof {
            assert(args@.drop_last() =~= Seq::<Expression>::empty());
            reveal_with_fuel(view_args, 2);
            assert(view_args(args@) =~= seq![first@]);
        }
        loop
            invariant_except_break
                self.wf(),
                self.input() == toks,
                toks == old(self).input(),
                i == old(self).cursor,
                i <= self.cursor,
                p_args(toks, i) == shift(
                    p_args_rest(toks, view_args(args@), self.cursor as int),
                    (self.cursor - i) as nat,
                ),
            ensures
                self.wf(),
                self.input() == toks,
                i <= self.cursor,
                p_args(toks, i) == Ok::<(Seq<Expr>, nat), ParseError>(
                    (view_args(args@), (self.cursor - i) as nat),
                ),
            decreases left(toks, self.cursor as int),
        {
            match self.consume_if_matched(TokenType::Comma, TokenType::Comma) {
                Some(_) => {
                    let a = match self.parse_expression() {
                        Ok(x) => x,
                        Err(e) => {
                            return Err(e);
                        },
                    };
                    let ghost before = args@;
                    args.push(a);
                    assert(args@.drop_last() =~= before);
                },
                None => {
                    break;
                },
            }
        }
        Ok(args)
    }

    fn parse_unary(&mut self) -> (r: Result<Expression, ParseError>)
        requires
            old(self).wf(),
        ensures
            final(self).wf(),
            final(self).input() == old(self).input(),
            parsed_expr(
                p_unary(old(self).input(), old(self).cursor as int),
                r,
                old(self).cursor as int,
                final(self).cursor as int,
            ),
        decreases left(self.input(), self.cursor as int), 3int,
    {
        if self.consume_if_matched(TokenType::Minus, TokenType::Minus).is_some() {
            let operand = match self.parse_unary() {
                Ok(x) => x,
                Err(e) => {
                    return Err(e);
                },
            };
            return Ok(Expression::UnaryOp { operator: Operator::Sub, operand: Box::new(operand) });
        }
        self.parse_primary()
    }

    fn parse_primary(&mut self) -> (r: Result<Expression, ParseError>)
        requires
            old(self).wf(),
        ensures
            final(self).wf(),
            final(self).input() == old(self).input(),
            parsed_expr(
                p_primary(old(self).input(), old(self).cursor as int),
                r,
                old(self).cursor as int,
                final(self).cursor as int,
            ),
        decreases left(self.input(), self.cursor as int), 2int,
    {
        let at = self.cursor;
        let k = self.peek_kind();
        if k == TokenType::Identifier {
            let name = self.literal_at(at);
            self.cursor = self.cursor + 1;
            return Ok(Expression::VariableAccess { name });
        }
        if k == TokenType::Number {
            return match parse_decimal(self.tokens[at].get_literal_value()) {
                Some(value) => {
                    self.cursor = self.cursor + 1;
                    Ok(Expression::Constant { value })
                },
                None => Err(
                    ParseError::InvalidNumber { line: self.line_at(at), column: self.column_at(at) },
                ),
            };
        }
        if k == TokenType::ParenthesesLeft {
            self.cursor = self.cursor + 1;
            let expression = match self.parse_expression() {
                Ok(x) => x,
                Err(e) => {
                    return Err(e);
                },
            };
            if let Err(e) = self.consume_required(TokenType::ParenthesesRight) {
                return Err(e);
            }
            return Ok(Expression::Grouping { expression: Box::new(expression) });
        }
        Err(ParseError::ExpectedExpression { found: k, line: self.line_at(at), column: self.column_at(at) })
    }
}

pub open spec fn prepend_stmts(
    done: Seq<Stmt>,
    rest: Result<Seq<Stmt>, ParseError>,
) -> Result<Seq<Stmt>, ParseError> {
    match rest {
        Ok(ss) => Ok(done + ss),
        Err(e) => Err(e),
    }
}

} // verus!

verus! {

// ---------------------------------------------------------------------------
// Spelling a syntax tree as tokens, and reading it back

/// A token of kind `kind` with literal `literal`, at no particular place.
pub open spec fn tok(kind: TokenType, literal: Seq<char>) -> Lexeme {
    Lexeme { kind, line: 0, column: 0, start: 0, length: 0, literal }
}

pub open spec fn punct(kind: TokenType) -> Lexeme {
    tok(kind, Seq::empty())
}

/// The token kind that spells a binary operator.
pub open spec fn operator_kind(op: Operator) -> TokenType {
    match op {
        Operator::Add => TokenType::Plus,
        Operator::Sub => TokenType::Minus,
        Operator::Multiply => TokenType::Star,
        Operator::Divide => TokenType::Slash,
    }
}

pub open spec fn is_additive(op: Operator) -> bool {
    op == Operator::Add || op == Operator::Sub
}

/// Whether `e` is written at precedence `level` or tighter, as the grammar
/// builds it: 4 for a term, 3 a factor, 2 a call, 1 a unary, 0 a primary.
/// Constants are not negative, as a literal cannot be; a negative value is
/// a negation.
pub open spec fn in_form(e: Expr, level: nat) -> bool
    decreases e,
{
    match e {
        Expr::Binary(l, op, r) => if is_additive(op) {
            level >= 4 && in_form(*l, 4) && in_form(*r, 3)
        } else {
            level >= 3 && in_form(*l, 3) && in_form(*r, 2)
        },
        Expr::Call(_, args) => level >= 2 && args.len() >= 1 && args_in_form(args),
        Expr::Unary(op, x) => level >= 1 && op == Operator::Sub && in_form(*x, 1),
        Expr::Constant(v) => v >= 0,
        Expr::Var(_) => true,
        Expr::Grouping(x) => in_form(*x, 4),
    }
}

pub open spec fn args_in_form(args: Seq<Expr>) -> bool
    decreases args,
{
    if args.len() == 0 {
        true
    } else {
        args_in_form(args.drop_last()) && in_form(args[args.len() - 1], 4)
    }
}

/// The tokens that spell `e`.
pub open spec fn spell(e: Expr) -> Seq<Lexeme>
    decreases e,
{
    match e {
        Expr::Binary(l, op, r) => spell(*l) + seq![punct(operator_kind(op))] + spell(*r),
        Expr::Call(name, args) => seq![tok(TokenType::Identifier, name), punct(TokenType::ParenthesesLeft)]
            + spell_args(args) + seq![
            punct(TokenType::ParenthesesRight),
            punct(TokenType::Semicolon),
        ],
        Expr::Unary(_, x) => seq![punct(TokenType::Minus)] + spell(*x),
        Expr::Constant(v) => seq![tok(TokenType::Number, crate::text::decimal(v as nat))],
        Expr::Var(name) => seq![tok(TokenType::Identifier, name)],
        Expr::Grouping(x) => seq![punct(TokenType::ParenthesesLeft)] + spell(*x) + seq![
            punct(TokenType::ParenthesesRight),
        ],
    }
}

/// The tokens that spell an argument list, separated by commas.
pub open spec fn spell_args(args: Seq<Expr>) -> Seq<Lexeme>
    decreases args,
{
    if args.len() == 0 {
        Seq::empty()
    } else if args.len() == 1 {
        spell(args[0])
    } else {
        spell_args(args.drop_last()) + seq![punct(TokenType::Comma)] + spell(args[args.len() - 1])
    }
}

/// Whether `s` is a statement the grammar writes: a declaration, or a call.
pub open spec fn stmt_in_form(s: Stmt) -> bool {
    match s {
        Stmt::Decl(_, e) => in_form(e, 4),
        Stmt::Expr(e) => e is Call && in_form(e, 2),
    }
}

pub open spec fn spell_stmt(s: Stmt) -> Seq<Lexeme> {
    match s {
        Stmt::Decl(name, e) => seq![
            punct(TokenType::Keyword(Keyword::Let)),
            tok(TokenType::Identifier, name),
            punct(TokenType::Equals),
        ] + spell(e) + seq![punct(TokenType::Semicolon)],
        Stmt::Expr(e) => spell(e),
    }
}

pub open spec fn spell_stmts(m: Seq<Stmt>) -> Seq<Lexeme>
    decreases m.len(),
{
    if m.len() == 0 {
        Seq::empty()
    } else {
        spell_stmt(m[0]) + spell_stmts(m.drop_first())
    }
}

/// The tokens that spell module `m`, ending with the end of input.
pub open spec fn spell_module(m: Seq<Stmt>) -> Seq<Lexeme> {
    spell_stmts(m) + seq![punct(TokenType::Eof)]
}

/// Whether `s` stands in `toks` from index `i` on, up to positions.
pub open spec fn spelled_at(toks: Seq<Lexeme>, i: int, s: Seq<Lexeme>) -> bool {
    &&& 0 <= i
    &&& i + s.len() <= toks.len()
    &&& forall|k: int| 0 <= k < s.len() ==> same_token(toks[i + k], #[trigger] s[k])
}

proof fn lemma_spelled_split(toks: Seq<Lexeme>, i: int, a: Seq<Lexeme>, b: Seq<Lexeme>)
    requires
        spelled_at(toks, i, a + b),
    ensures
        spelled_at(toks, i, a),
        spelled_at(toks, i + a.len(), b),
{
    assert forall|k: int| 0 <= k < a.len() implies same_token(toks[i + k], #[trigger] a[k]) by {
        assert((a + b)[k] == a[k]);
    }
    assert forall|k: int| 0 <= k < b.len() implies same_token(toks[i + a.len() + k], #[trigger] b[k]) by {
        assert((a + b)[a.len() + k] == b[k]);
    }
}

proof fn lemma_spelled_one(toks: Seq<Lexeme>, j: int, x: Lexeme)
    requires
        spelled_at(toks, j, seq![x]),
    ensures
        same_token(toks[j], x),
        kind_at(toks, j) == x.kind,
{
    assert(same_token(toks[j + 0], seq![x][0]));
}

proof fn lemma_number_of_decimal(v: i64)
    requires
        v >= 0,
    ensures
        number_value(crate::text::decimal(v as nat)) == Some(v),
{
    crate::text::lemma_decimal_round_trip(v as nat);
}

/// A term: parsing from `i` reads `e` and goes on with what may follow it.
proof fn lemma_parse_term(toks: Seq<Lexeme>, i: int, e: Expr)
    requires
        in_form(e, 4),
        spelled_at(toks, i, spell(e)),
        ({
            let t = kind_at(toks, i + spell(e).len());
            t != TokenType::Star && t != TokenType::Slash && t != TokenType::ParenthesesLeft
        }),
    ensures
        p_term(toks, i) == shift(p_term_rest(toks, e, i + spell(e).len()), spell(e).len()),
    decreases e, 5nat,
{
    match e {
        Expr::Binary(l, op, r) => {
            if is_additive(op) {
                lemma_parse_term_step(toks, i, *l, op, *r);
            } else {
                lemma_parse_factor(toks, i, e);
            }
        },
        _ => {
            lemma_parse_factor(toks, i, e);
        },
    }
}

/// A term `l op r` with an additive `op`.
#[verifier::spinoff_prover]
#[verifier::rlimit(40)]
proof fn lemma_parse_term_step(toks: Seq<Lexeme>, i: int, l: Expr, op: Operator, r: Expr)
    requires
        is_additive(op),
        in_form(l, 4),
        in_form(r, 3),
        spelled_at(toks, i, spell(Expr::Binary(Box::new(l), op, Box::new(r)))),
        ({
            let t = kind_at(toks, i + spell(Expr::Binary(Box::new(l), op, Box::new(r))).len());
            t != TokenType::Star && t != TokenType::Slash && t != TokenType::ParenthesesLeft
        }),
    ensures
        ({
            let e = Expr::Binary(Box::new(l), op, Box::new(r));
            p_term(toks, i) == shift(p_term_rest(toks, e, i + spell(e).len()), spell(e).len())
        }),
    decreases Expr::Binary(Box::new(l), op, Box::new(r)), 4nat,
{
    let e = Expr::Binary(Box::new(l), op, Box::new(r));
    lemma_spelled_split(toks, i, spell(l) + seq![punct(operator_kind(op))], spell(r));
    lemma_spelled_split(toks, i, spell(l), seq![punct(operator_kind(op))]);
    let j = i + spell(l).len();
    let end = j + 1 + spell(r).len();
    assert(spell(e).len() == spell(l).len() + 1 + spell(r).len());
    lemma_spelled_one(toks, j, punct(operator_kind(op)));
    lemma_parse_term(toks, i, l);
    lemma_parse_factor(toks, j + 1, r);
    assert(p_factor_rest(toks, r, end) == Ok::<(Expr, nat), ParseError>((r, 0)));
    assert(p_factor(toks, j + 1) == Ok::<(Expr, nat), ParseError>((r, spell(r).len())));
    assert(operator_of(operator_kind(op)) == op);
    assert(p_term_rest(toks, l, j) == shift(p_term_rest(toks, e, end), 1 + spell(r).len()));
}

/// A factor: parsing from `i` reads `e` and goes on with what may follow
/// it.
proof fn lemma_parse_factor(toks: Seq<Lexeme>, i: int, e: Expr)
    requires
        in_form(e, 3),
        spelled_at(toks, i, spell(e)),
        kind_at(toks, i + spell(e).len()) != TokenType::ParenthesesLeft,
    ensures
        p_factor(toks, i) == shift(p_factor_rest(toks, e, i + spell(e).len()), spell(e).len()),
    decreases e, 3nat,
{
    match e {
        Expr::Binary(l, op, r) => {
            lemma_spelled_split(toks, i, spell(*l) + seq![punct(operator_kind(op))], spell(*r));
            lemma_spelled_split(toks, i, spell(*l), seq![punct(operator_kind(op))]);
            let j = i + spell(*l).len();
            lemma_spelled_one(toks, j, punct(operator_kind(op)));
            lemma_parse_factor(toks, i, *l);
            lemma_parse_call(toks, j + 1, *r);
            assert(operator_of(operator_kind(op)) == op);
        },
        _ => {
            lemma_parse_call(toks, i, e);
        },
    }
}

/// A call, or what binds tighter: parsing from `i` reads exactly `e`.
proof fn lemma_parse_call(toks: Seq<Lexeme>, i: int, e: Expr)
    requires
        in_form(e, 2),
        spelled_at(toks, i, spell(e)),
        kind_at(toks, i + spell(e).len()) != TokenType::ParenthesesLeft,
    ensures
        p_call(toks, i) == Ok::<(Expr, nat), ParseError>((e, spell(e).len())),
    decreases e, 2nat,
{
    match e {
        Expr::Call(name, args) => {
            let head = seq![tok(TokenType::Identifier, name), punct(TokenType::ParenthesesLeft)];
            let tail = seq![punct(TokenType::ParenthesesRight), punct(TokenType::Semicolon)];
            lemma_spelled_split(toks, i, head + spell_args(args), tail);
            lemma_spelled_split(toks, i, head, spell_args(args));
            assert(same_token(toks[i], head[0]));
            assert(same_token(toks[i + 1], head[1]));
            let close = i + 2 + spell_args(args).len();
            assert(same_token(toks[close], tail[0]));
            assert(same_token(toks[close + 1], tail[1]));
            assert(p_primary(toks, i) == Ok::<(Expr, nat), ParseError>((Expr::Var(name), 1)));
            assert(p_unary(toks, i) == p_primary(toks, i));
            lemma_parse_args(toks, i + 2, args);
        },
        _ => {
            lemma_parse_unary(toks, i, e);
        },
    }
}

proof fn lemma_parse_unary(toks: Seq<Lexeme>, i: int, e: Expr)
    requires
        in_form(e, 1),
        spelled_at(toks, i, spell(e)),
    ensures
        p_unary(toks, i) == Ok::<(Expr, nat), ParseError>((e, spell(e).len())),
    decreases e, 1nat,
{
    match e {
        Expr::Unary(op, x) => {
            lemma_spelled_split(toks, i, seq![punct(TokenType::Minus)], spell(*x));
            assert(same_token(toks[i], seq![punct(TokenType::Minus)][0]));
            lemma_parse_unary(toks, i + 1, *x);
        },
        _ => {
            lemma_parse_primary(toks, i, e);
            assert(same_token(toks[i], spell(e)[0]));
        },
    }
}

proof fn lemma_parse_primary(toks: Seq<Lexeme>, i: int, e: Expr)
    requires
        in_form(e, 0),
        spelled_at(toks, i, spell(e)),
    ensures
        p_primary(toks, i) == Ok::<(Expr, nat), ParseError>((e, spell(e).len())),
        spell(e).len() >= 1,
        kind_at(toks, i) != TokenType::Minus,
    decreases e, 0nat,
{
    match e {
        Expr::Constant(v) => {
            assert(same_token(toks[i], spell(e)[0]));
            lemma_number_of_decimal(v);
        },
        Expr::Var(name) => {
            assert(same_token(toks[i], spell(e)[0]));
        },
        Expr::Grouping(x) => {
            let open = seq![punct(TokenType::ParenthesesLeft)];
            let close = seq![punct(TokenType::ParenthesesRight)];
            lemma_spelled_split(toks, i, open + spell(*x), close);
            lemma_spelled_split(toks, i, open, spell(*x));
            assert(same_token(toks[i], open[0]));
            let j = i + 1 + spell(*x).len();
            assert(same_token(toks[j], close[0]));
            lemma_parse_term(toks, i + 1, *x);
            assert(p_expression(toks, i + 1) == p_term(toks, i + 1));
        },
        _ => {},
    }
}

/// An argument list: parsing from `i` reads `args` and goes on with what
/// may follow.
proof fn lemma_parse_args(toks: Seq<Lexeme>, i: int, args: Seq<Expr>)
    requires
        args.len() >= 1,
        args_in_form(args),
        spelled_at(toks, i, spell_args(args)),
        ({
            let t = kind_at(toks, i + spell_args(args).len());
            t != TokenType::Plus && t != TokenType::Minus && t != TokenType::Star && t
                != TokenType::Slash && t != TokenType::ParenthesesLeft && t != TokenType::Comma
        }),
    ensures
        p_args(toks, i) == Ok::<(Seq<Expr>, nat), ParseError>((args, spell_args(args).len())),
    decreases args, 6nat,
{
    lemma_parse_args_rest(toks, i, args);
}

proof fn lemma_parse_args_rest(toks: Seq<Lexeme>, i: int, args: Seq<Expr>)
    requires
        args.len() >= 1,
        args_in_form(args),
        spelled_at(toks, i, spell_args(args)),
        ({
            let t = kind_at(toks, i + spell_args(args).len());
            t != TokenType::Plus && t != TokenType::Minus && t != TokenType::Star && t
                != TokenType::Slash && t != TokenType::ParenthesesLeft
        }),
    ensures
        p_args(toks, i) == shift(
            p_args_rest(toks, args, i + spell_args(args).len()),
            spell_args(args).len(),
        ),
    decreases args, 5nat,
{
    let last = args[args.len() - 1];
    if args.len() == 1 {
        lemma_parse_term(toks, i, last);
        assert(p_expression(toks, i) == p_term(toks, i));
        assert(seq![last] =~= args);
    } else {
        let init = args.drop_last();
        lemma_spelled_split(toks, i, spell_args(init) + seq![punct(TokenType::Comma)], spell(last));
        lemma_spelled_split(toks, i, spell_args(init), seq![punct(TokenType::Comma)]);
        let j = i + spell_args(init).len();
        lemma_spelled_one(toks, j, punct(TokenType::Comma));
        lemma_parse_args_rest(toks, i, init);
        lemma_parse_term(toks, j + 1, last);
        assert(p_expression(toks, j + 1) == p_term(toks, j + 1));
        assert(init.push(last) =~= args);
    }
}

} // verus!

verus! {

proof fn lemma_spell_stmt_start(s: Stmt)
    requires
        stmt_in_form(s),
    ensures
        spell_stmt(s).len() >= 1,
        spell_stmt(s)[0].kind == TokenType::Keyword(Keyword::Let) || spell_stmt(s)[0].kind
            == TokenType::Identifier,
{
}

proof fn lemma_parse_statement(toks: Seq<Lexeme>, i: int, s: Stmt)
    requires
        stmt_in_form(s),
        spelled_at(toks, i, spell_stmt(s)),
        ({
            let t = kind_at(toks, i + spell_stmt(s).len());
            t != TokenType::Plus && t != TokenType::Minus && t != TokenType::Star && t
                != TokenType::Slash && t != TokenType::ParenthesesLeft
        }),
    ensures
        p_statement(toks, i) == Ok::<(Stmt, nat), ParseError>((s, spell_stmt(s).len())),
{
    match s {
        Stmt::Decl(name, e) => {
            let head = seq![
                punct(TokenType::Keyword(Keyword::Let)),
                tok(TokenType::Identifier, name),
                punct(TokenType::Equals),
            ];
            let tail = seq![punct(TokenType::Semicolon)];
            lemma_spelled_split(toks, i, head + spell(e), tail);
            lemma_spelled_split(toks, i, head, spell(e));
            assert(same_token(toks[i + 0], head[0]));
            assert(same_token(toks[i + 1], head[1]));
            assert(same_token(toks[i + 2], head[2]));
            lemma_spelled_one(toks, i + 3 + spell(e).len(), punct(TokenType::Semicolon));
            lemma_parse_term(toks, i + 3, e);
            assert(p_expression(toks, i + 3) == p_term(toks, i + 3));
        },
        Stmt::Expr(e) => {
            assert(same_token(toks[i + 0], spell(e)[0]));
            lemma_parse_term(toks, i, e);
            assert(p_expression(toks, i) == p_term(toks, i));
        },
    }
}

proof fn lemma_parse_statements(toks: Seq<Lexeme>, i: int, m: Seq<Stmt>)
    requires
        forall|k: int| 0 <= k < m.len() ==> stmt_in_form(#[trigger] m[k]),
        spelled_at(toks, i, spell_stmts(m)),
        kind_at(toks, i + spell_stmts(m).len()) == TokenType::Eof,
    ensures
        p_module(toks, i) == Ok::<Seq<Stmt>, ParseError>(m),
    decreases m.len(),
{
    if m.len() == 0 {
        assert(m =~= Seq::<Stmt>::empty());
    } else {
        let s = m[0];
        let rest = m.drop_first();
        lemma_spelled_split(toks, i, spell_stmt(s), spell_stmts(rest));
        lemma_spell_stmt_start(s);
        assert(same_token(toks[i + 0], spell_stmt(s)[0]));
        let j = i + spell_stmt(s).len();
        if rest.len() > 0 {
            lemma_spell_stmt_start(rest[0]);
            assert(spell_stmts(rest) == spell_stmt(rest[0]) + spell_stmts(rest.drop_first()));
            assert(spell_stmts(rest)[0] == spell_stmt(rest[0])[0]);
            assert(same_token(toks[j + 0], spell_stmts(rest)[0]));
        }
        lemma_parse_statement(toks, i, s);
        assert forall|k: int| 0 <= k < rest.len() implies stmt_in_form(#[trigger] rest[k]) by {
            assert(rest[k] == m[k + 1]);
        }
        lemma_parse_statements(toks, j, rest);
        assert(seq![s] + rest =~= m);
    }
}

/// Every token sequence that spells, up to positions, a module that the
/// grammar writes parses to that module.
pub proof fn lemma_parse_spelled(toks: Seq<Lexeme>, m: Seq<Stmt>)
    requires
        forall|k: int| 0 <= k < m.len() ==> stmt_in_form(#[trigger] m[k]),
        spelled_at(toks, 0, spell_module(m)),
    ensures
        parse_tokens(toks) == Ok::<Seq<Stmt>, ParseError>(m),
{
    lemma_spelled_split(toks, 0, spell_stmts(m), seq![punct(TokenType::Eof)]);
    lemma_spelled_one(toks, spell_stmts(m).len() as int, punct(TokenType::Eof));
    lemma_parse_statements(toks, 0, m);
}

/// Round trip: every module that the grammar writes (declarations, and
/// calls as statements, over expressions at their precedence) parses back
/// from its spelling as tokens, to itself.
pub proof fn lemma_parse_round_trip(m: Seq<Stmt>)
    requires
        forall|k: int| 0 <= k < m.len() ==> stmt_in_form(#[trigger] m[k]),
    ensures
        parse_tokens(spell_module(m)) == Ok::<Seq<Stmt>, ParseError>(m),
{
    let toks = spell_module(m);
    lemma_spelled_split(toks, 0, spell_stmts(m), seq![punct(TokenType::Eof)]);
    assert(same_token(toks[spell_stmts(m).len() as int], punct(TokenType::Eof)));
    lemma_parse_statements(toks, 0, m);
}

} // verus!
