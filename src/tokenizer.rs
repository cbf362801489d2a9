use crate::text::{all_digits, chars_of, is_digit, push_char, string_of_chars};
use vstd::prelude::*;

verus! {

#[derive(Clone, Copy, Debug, PartialEq, Eq, Structural)]
pub enum Keyword {
    Let,
    Const,
}

#[derive(Clone, Copy, Debug, PartialEq, Eq, Structural)]
pub enum TokenType {
    // one character
    ParenthesesLeft,
    ParenthesesRight,
    BraceLeft,
    BraceRight,
    Comma,
    Dot,
    Plus,
    Minus,
    Star,
    Slash,
    Semicolon,
    Not,
    // one or two characters
    Equals,
    EqualsEquals,
    NotEquals,
    GreaterThan,
    GreaterThanEquals,
    LessThan,
    LessThanEquals,
    ColonEquals,
    DoubleColon,
    ArrowRight,
    // runs of characters
    Identifier,
    Number,
    String,
    Keyword(Keyword),
    Eof,
}

/// A lexical token. Its position is that of the first character of its
/// lexeme: a 1-based line and column, and an index into the source's
/// characters. The lexer reads characters, so positions and the length
/// count characters, not bytes; the two differ only where a string literal
/// holds characters outside ASCII, the only place the lexer accepts them.
#[derive(Debug, PartialEq)]
pub struct Token {
    kind: TokenType,
    line: usize,
    column: usize,
    start: usize,
    length: usize,
    literal_value: String,
}

/// Mathematical model of a token.
pub struct Lexeme {
    pub kind: TokenType,
    pub line: nat,
    pub column: nat,
    pub start: nat,
    pub length: nat,
    pub literal: Seq<char>,
}

#[derive(Clone, Copy, Debug, PartialEq, Eq, Structural)]
pub enum LexError {
    UnexpectedCharacter { character: char, line: usize, column: usize },
    UnterminatedString { line: usize, column: usize },
}

impl Token {
    pub closed spec fn view(&self) -> Lexeme {
        Lexeme {
            kind: self.kind,
            line: self.line as nat,
            column: self.column as nat,
            start: self.start as nat,
            length: self.length as nat,
            literal: self.literal_value@,
        }
    }

    pub fn get_type(&self) -> (r: &TokenType)
        ensures
            *r == self@.kind,
    {
        &self.kind
    }

    pub fn get_literal_value(&self) -> (r: &str)
        ensures
            r@ == self@.literal,
    {
        self.literal_value.as_str()
    }

    pub fn get_line(&self) -> (r: usize)
        ensures
            r == self@.line,
    {
        self.line
    }

    pub fn get_column(&self) -> (r: usize)
        ensures
            r == self@.column,
    {
        self.column
    }

    pub fn get_start(&self) -> (r: usize)
        ensures
            r == self@.start,
    {
        self.start
    }

    pub fn get_length(&self) -> (r: usize)
        ensures
            r == self@.length,
    {
        self.length
    }
}

impl Clone for Token {
    fn clone(&self) -> (r: Self)
        ensures
            r@ == self@,
    {
        Token {
            kind: self.kind,
            line: self.line,
            column: self.column,
            start: self.start,
            length: self.length,
            literal_value: self.literal_value.clone(),
        }
    }
}

pub open spec fn keyword_of(s: Seq<char>) -> Option<Keyword> {
    if s == seq!['l', 'e', 't'] {
        Some(Keyword::Let)
    } else if s == seq!['c', 'o', 'n', 's', 't'] {
        Some(Keyword::Const)
    } else {
        None
    }
}

impl Keyword {
    /// The reserved word spelled by `raw`, if any.
    pub fn try_match_from_raw_value(raw: &str) -> (r: Option<Keyword>)
        ensures
            r == keyword_of(raw@),
    {
        let cs = chars_of(raw);
        if cs.len() == 3 && cs[0] == 'l' && cs[1] == 'e' && cs[2] == 't' {
            assert(raw@ =~= seq!['l', 'e', 't']);
            Some(Keyword::Let)
        } else if cs.len() == 5 && cs[0] == 'c' && cs[1] == 'o' && cs[2] == 'n' && cs[3] == 's'
            && cs[4] == 't' {
            assert(raw@ =~= seq!['c', 'o', 'n', 's', 't']);
            Some(Keyword::Const)
        } else {
            None
        }
    }
}

// ---------------------------------------------------------------------------
// The lexical grammar

pub open spec fn is_whitespace(c: char) -> bool {
    c == ' ' || c == '\t' || c == '\r' || c == '\n'
}

pub open spec fn is_identifier_char(c: char) -> bool {
    ('a' <= c && c <= 'z') || ('A' <= c && c <= 'Z') || c == '_'
}

/// The classes of characters that make up runs in the source.
pub enum CharClass {
    Whitespace,
    Digit,
    IdentifierChar,
}

pub open spec fn in_class(c: char, class: CharClass) -> bool {
    match class {
        CharClass::Whitespace => is_whitespace(c),
        CharClass::Digit => is_digit(c),
        CharClass::IdentifierChar => is_identifier_char(c),
    }
}

/// The first index at or after `i` whose character is not in `class` (or
/// the length of `src`).
pub open spec fn run_end(src: Seq<char>, i: int, class: CharClass) -> int
    decreases src.len() - i,
{
    if 0 <= i < src.len() && in_class(src[i], class) {
        run_end(src, i + 1, class)
    } else {
        i
    }
}

/// The index of the first quote at or after `i` that no backslash escapes
/// (a backslash escapes the character after it), or the length of `src`
/// when there is none.
pub open spec fn closing_quote(src: Seq<char>, i: int) -> int
    decreases src.len() - i,
{
    if i < 0 || i >= src.len() {
        src.len() as int
    } else if src[i] == '"' {
        i
    } else if src[i] == '\\' && i + 1 < src.len() {
        closing_quote(src, i + 2)
    } else {
        closing_quote(src, i + 1)
    }
}

proof fn lemma_closing_quote(src: Seq<char>, i: int)
    requires
        0 <= i <= src.len(),
    ensures
        i <= closing_quote(src, i) <= src.len(),
        closing_quote(src, i) < src.len() ==> src[closing_quote(src, i)] == '"',
    decreases src.len() - i,
{
    if i < src.len() && src[i] != '"' {
        if src[i] == '\\' && i + 1 < src.len() {
            lemma_closing_quote(src, i + 2);
        } else {
            lemma_closing_quote(src, i + 1);
        }
    }
}

/// The 1-based line on which index `i` of `src` lies.
pub open spec fn line_of(src: Seq<char>, i: int) -> nat
    decreases i,
{
    if i <= 0 {
        1
    } else if src[i - 1] == '\n' {
        line_of(src, i - 1) + 1
    } else {
        line_of(src, i - 1)
    }
}

/// The index at which the line holding index `i` of `src` begins.
pub open spec fn line_start_of(src: Seq<char>, i: int) -> int
    decreases i,
{
    if i <= 0 {
        0
    } else if src[i - 1] == '\n' {
        i
    } else {
        line_start_of(src, i - 1)
    }
}

pub open spec fn column_of(src: Seq<char>, i: int) -> nat {
    (i - line_start_of(src, i) + 1) as nat
}

pub open spec fn char_at(src: Seq<char>, i: int) -> Option<char> {
    if 0 <= i < src.len() {
        Some(src[i])
    } else {
        None
    }
}

pub open spec fn single_char_kind(c: char) -> Option<TokenType> {
    if c == '(' {
        Some(TokenType::ParenthesesLeft)
    } else if c == ')' {
        Some(TokenType::ParenthesesRight)
    } else if c == '{' {
        Some(TokenType::BraceLeft)
    } else if c == '}' {
        Some(TokenType::BraceRight)
    } else if c == ',' {
        Some(TokenType::Comma)
    } else if c == '.' {
        Some(TokenType::Dot)
    } else if c == '+' {
        Some(TokenType::Plus)
    } else if c == '*' {
        Some(TokenType::Star)
    } else if c == '/' {
        Some(TokenType::Slash)
    } else if c == ';' {
        Some(TokenType::Semicolon)
    } else {
        None
    }
}

/// For a character that may start a one- or two-character token: the
/// second character, the kind of the pair, and the kind of the single
/// character.
pub open spec fn pair_kinds(c: char) -> Option<(char, TokenType, TokenType)> {
    if c == '-' {
        Some(('>', TokenType::ArrowRight, TokenType::Minus))
    } else if c == '!' {
        Some(('=', TokenType::NotEquals, TokenType::Not))
    } else if c == '=' {
        Some(('=', TokenType::EqualsEquals, TokenType::Equals))
    } else if c == '>' {
        Some(('=', TokenType::GreaterThanEquals, TokenType::GreaterThan))
    } else if c == '<' {
        Some(('=', TokenType::LessThanEquals, TokenType::LessThan))
    } else {
        None
    }
}

pub open spec fn unexpected(src: Seq<char>, i: int) -> LexError {
    LexError::UnexpectedCharacter {
        character: src[i],
        line: line_of(src, i) as usize,
        column: column_of(src, i) as usize,
    }
}

/// The kind and end of the lexeme that starts at index `i`, whose first
/// character is not whitespace.
#[verifier::opaque]
pub open spec fn scan(src: Seq<char>, i: int) -> Result<(TokenType, int), LexError> {
    let c = src[i];
    if single_char_kind(c) is Some {
        Ok((single_char_kind(c)->0, i + 1))
    } else if pair_kinds(c) is Some {
        let (second, pair, single) = pair_kinds(c)->0;
        if char_at(src, i + 1) == Some(second) {
            Ok((pair, i + 2))
        } else {
            Ok((single, i + 1))
        }
    } else if c == ':' {
        if char_at(src, i + 1) == Some('=') {
            Ok((TokenType::ColonEquals, i + 2))
        } else if char_at(src, i + 1) == Some(':') {
            Ok((TokenType::DoubleColon, i + 2))
        } else {
            Err(unexpected(src, i))
        }
    } else if c == '"' {
        let close = closing_quote(src, i + 1);
        if close < src.len() {
            Ok((TokenType::String, close + 1))
        } else {
            Err(
                LexError::UnterminatedString {
                    line: line_of(src, i) as usize,
                    column: column_of(src, i) as usize,
                },
            )
        }
    } else if is_digit(c) {
        Ok((TokenType::Number, run_end(src, i + 1, CharClass::Digit)))
    } else if is_identifier_char(c) {
        let end = run_end(src, i + 1, CharClass::IdentifierChar);
        match keyword_of(src.subrange(i, end)) {
            Some(k) => Ok((TokenType::Keyword(k), end)),
            None => Ok((TokenType::Identifier, end)),
        }
    } else {
        Err(unexpected(src, i))
    }
}

/// The token of kind `kind` whose lexeme is `src[i..end]`.
pub open spec fn lexeme(src: Seq<char>, kind: TokenType, i: int, end: int) -> Lexeme {
    Lexeme {
        kind,
        line: line_of(src, i),
        column: column_of(src, i),
        start: i as nat,
        length: (end - i) as nat,
        literal: if kind == TokenType::String {
            src.subrange(i + 1, end - 1)
        } else {
            src.subrange(i, end)
        },
    }
}

/// The end-of-input token.
pub open spec fn eof_lexeme(src: Seq<char>) -> Lexeme {
    Lexeme {
        kind: TokenType::Eof,
        line: line_of(src, src.len() as int),
        column: column_of(src, src.len() as int),
        start: src.len(),
        length: 0,
        literal: Seq::empty(),
    }
}

/// The tokens of `src` from index `i` on, or the first lexical error there.
pub open spec fn lex_from(src: Seq<char>, i: int) -> Result<Seq<Lexeme>, LexError>
    decreases src.len() - i,
    via lex_from_decreases
{
    let j = run_end(src, i, CharClass::Whitespace);
    if j >= src.len() || j < 0 {
        Ok(seq![eof_lexeme(src)])
    } else {
        match scan(src, j) {
            Err(e) => Err(e),
            Ok((kind, end)) => match lex_from(src, end) {
                Err(e) => Err(e),
                Ok(rest) => Ok(seq![lexeme(src, kind, j, end)] + rest),
            },
        }
    }
}

/// The tokens of all of `src`, ending with the end-of-input token, or the
/// first lexical error.
pub open spec fn lex(src: Seq<char>) -> Result<Seq<Lexeme>, LexError> {
    lex_from(src, 0)
}

proof fn lemma_run_end(src: Seq<char>, i: int, class: CharClass)
    ensures
        i <= run_end(src, i, class),
        0 <= i <= src.len() ==> run_end(src, i, class) <= src.len(),
        0 <= i ==> run_end(src, i, class) < src.len() ==> !in_class(src[run_end(src, i, class)], class),
    decreases src.len() - i,
{
    if 0 <= i < src.len() && in_class(src[i], class) {
        lemma_run_end(src, i + 1, class);
    }
}

proof fn lemma_scan_advances(src: Seq<char>, i: int)
    requires
        0 <= i < src.len(),
    ensures
        scan(src, i) matches Ok((_, end)) ==> i < end <= src.len(),
        scan(src, i) matches Ok((kind, _)) ==> kind != TokenType::Eof,
{
    reveal(scan);
    lemma_closing_quote(src, i + 1);
    lemma_run_end(src, i + 1, CharClass::Digit);
    lemma_run_end(src, i + 1, CharClass::IdentifierChar);
}

#[via_fn]
proof fn lex_from_decreases(src: Seq<char>, i: int) {
    let j = run_end(src, i, CharClass::Whitespace);
    lemma_run_end(src, i, CharClass::Whitespace);
    if 0 <= j < src.len() {
        lemma_scan_advances(src, j);
    }
}

} // verus!

verus! {

/// Splits a source text into tokens.
pub struct Tokenizer {
    source: Vec<char>,
    cursor: usize,
    current_line: usize,
    line_start: usize,
    current_token_start: usize,
    token_line: usize,
    token_column: usize,
}

fn single_char_kind_of(c: char) -> (r: Option<TokenType>)
    ensures
        r == single_char_kind(c),
{
    if c == '(' {
        Some(TokenType::ParenthesesLeft)
    } else if c == ')' {
        Some(TokenType::ParenthesesRight)
    } else if c == '{' {
        Some(TokenType::BraceLeft)
    } else if c == '}' {
        Some(TokenType::BraceRight)
    } else if c == ',' {
        Some(TokenType::Comma)
    } else if c == '.' {
        Some(TokenType::Dot)
    } else if c == '+' {
        Some(TokenType::Plus)
    } else if c == '*' {
        Some(TokenType::Star)
    } else if c == '/' {
        Some(TokenType::Slash)
    } else if c == ';' {
        Some(TokenType::Semicolon)
    } else {
        None
    }
}

fn pair_kinds_of(c: char) -> (r: Option<(char, TokenType, TokenType)>)
    ensures
        r == pair_kinds(c),
{
    if c == '-' {
        Some(('>', TokenType::ArrowRight, TokenType::Minus))
    } else if c == '!' {
        Some(('=', TokenType::NotEquals, TokenType::Not))
    } else if c == '=' {
        Some(('=', TokenType::EqualsEquals, TokenType::Equals))
    } else if c == '>' {
        Some(('=', TokenType::GreaterThanEquals, TokenType::GreaterThan))
    } else if c == '<' {
        Some(('=', TokenType::LessThanEquals, TokenType::LessThan))
    } else {
        None
    }
}

/// The models of `tokens`, in order.
pub open spec fn lexemes(tokens: Seq<Token>) -> Seq<Lexeme> {
    tokens.map_values(|t: Token| t@)
}

pub open spec fn prepend(
    done: Seq<Lexeme>,
    rest: Result<Seq<Lexeme>, LexError>,
) -> Result<Seq<Lexeme>, LexError> {
    match rest {
        Ok(ts) => Ok(done + ts),
        Err(e) => Err(e),
    }
}

/// The lexer ends every token sequence with a single end-of-input token,
/// and the tokens start at strictly increasing positions.
pub proof fn lemma_lex_shape_of_text(src: Seq<char>)
    ensures
        lex(src) matches Ok(ts) ==> {
            &&& ts.len() >= 1
            &&& ts.last().kind == TokenType::Eof
            &&& ts.last().start == src.len()
            &&& forall|k: int| 0 <= k < ts.len() - 1 ==> ts[k].kind != TokenType::Eof
            &&& forall|k: int| 0 <= k < ts.len() - 1 ==> #[trigger] ts[k].start < ts[k + 1].start
        },
{
    lemma_lex_shape(src, 0);
}

proof fn lemma_lex_shape(src: Seq<char>, i: int)
    requires
        0 <= i <= src.len(),
    ensures
        lex_from(src, i) matches Ok(ts) ==> {
            &&& ts.len() >= 1
            &&& ts.last().kind == TokenType::Eof
            &&& ts.last().start == src.len()
            &&& forall|k: int| 0 <= k < ts.len() - 1 ==> #[trigger] ts[k].kind != TokenType::Eof
            &&& i <= ts[0].start
            &&& forall|k: int| 0 <= k < ts.len() - 1 ==> #[trigger] ts[k].start < ts[k + 1].start
        },
    decreases src.len() - i,
{
    let j = run_end(src, i, CharClass::Whitespace);
    lemma_run_end(src, i, CharClass::Whitespace);
    if 0 <= j < src.len() {
        lemma_scan_advances(src, j);
        if let Ok((kind, end)) = scan(src, j) {
            lemma_lex_shape(src, end);
            if let Ok(rest) = lex_from(src, end) {
                let ts = seq![lexeme(src, kind, j, end)] + rest;
                assert forall|k: int| 0 <= k < ts.len() - 1 implies #[trigger] ts[k].start < ts[k
                    + 1].start by {
                    if k > 0 {
                        assert(ts[k] == rest[k - 1]);
                        assert(ts[k + 1] == rest[k]);
                    }
                }
                assert forall|k: int| 0 <= k < ts.len() - 1 implies #[trigger] ts[k].kind
                    != TokenType::Eof by {
                    if k > 0 {
                        assert(ts[k] == rest[k - 1]);
                    }
                }
            }
        }
    }
}

proof fn lemma_line_bounds(src: Seq<char>, i: int)
    requires
        0 <= i <= src.len(),
    ensures
        1 <= line_of(src, i) <= i + 1,
        0 <= line_start_of(src, i) <= i,
    decreases i,
{
    if i > 0 {
        lemma_line_bounds(src, i - 1);
    }
}

impl Tokenizer {
    /// The characters being split.
    pub closed spec fn text(&self) -> Seq<char> {
        self.source@
    }

    /// The index of the next character to read.
    pub closed spec fn position(&self) -> nat {
        self.cursor as nat
    }

    pub closed spec fn wf(&self) -> bool {
        &&& self.source@.len() < usize::MAX
        &&& self.cursor <= self.source@.len()
        &&& self.current_line == line_of(self.source@, self.cursor as int)
        &&& self.line_start == line_start_of(self.source@, self.cursor as int)
    }

    /// A tokenizer at the start of `source`, whose length in characters
    /// must leave room to count lines in a `usize`.
    pub fn new(source: String) -> (r: Tokenizer)
        requires
            source@.len() < usize::MAX,
        ensures
            r.wf(),
            r.text() == source@,
            r.position() == 0,
    {
        Tokenizer {
            source: chars_of(source.as_str()),
            cursor: 0,
            current_line: 1,
            line_start: 0,
            current_token_start: 0,
            token_line: 1,
            token_column: 1,
        }
    }

    /// Splits the text from the current position on into tokens, ending
    /// with a single end-of-input token; or reports the first lexical
    /// error.
    #[verifier::rlimit(50)]
    pub fn tokenize(&mut self) -> (r: Result<Vec<Token>, LexError>)
        requires
            old(self).wf(),
        ensures
            final(self).wf(),
            final(self).text() == old(self).text(),
            match r {
                Ok(tokens) => lex_from(old(self).text(), old(self).position() as int) == Ok::<
                    Seq<Lexeme>,
                    LexError,
                >(lexemes(tokens@)),
                Err(e) => lex_from(old(self).text(), old(self).position() as int) == Err::<
                    Seq<Lexeme>,
                    LexError,
                >(e),
            },
            r matches Ok(tokens) ==> tokens@.len() >= 1 && tokens@.last()@.kind == TokenType::Eof,
            r matches Ok(tokens) ==> forall|k: int|
                0 <= k < tokens@.len() - 1 ==> #[trigger] tokens@[k]@.start < tokens@[k + 1]@.start,
    {
        let ghost src = self.source@;
        let ghost first = self.cursor as int;
        let mut tokens: Vec<Token> = Vec::new();
        loop
            invariant
                self.wf(),
                self.source@ == src,
                src == old(self).source@,
                first == old(self).cursor,
                first <= self.cursor,
                lex_from(src, first) == prepend(lexemes(tokens@), lex_from(src, self.cursor as int)),
            decreases src.len() - self.cursor,
        {
            proof {
                lemma_run_end(src, self.cursor as int, CharClass::Whitespace);
            }
            self.skip_whitespace();
            let ghost done = lexemes(tokens@);
            if self.is_at_end() {
                let eof = self.make_eof_token();
                tokens.push(eof);
                proof {
                    let ts = lexemes(tokens@);
                    assert(ts =~= done.push(eof@));
                    assert(done + seq![eof@] =~= done.push(eof@));
                    lemma_lex_shape(src, first);
                    assert forall|k: int| 0 <= k < tokens@.len() - 1 implies #[trigger] tokens@[k]@.start
                        < tokens@[k + 1]@.start by {
                        assert(ts[k] == tokens@[k]@);
                        assert(ts[k + 1] == tokens@[k + 1]@);
                    }
                }
                return Ok(tokens);
            }
            let ghost before = self.cursor as int;
            proof {
                lemma_scan_advances(src, before);
            }
            match self.consume_token() {
                Ok(token) => {
                    tokens.push(token);
                    proof {
                        assert(lexemes(tokens@) =~= done.push(token@));
                        match lex_from(src, self.cursor as int) {
                            Ok(rest) => {
                                assert(done + (seq![token@] + rest) =~= done.push(token@) + rest);
                            },
                            Err(_) => {},
                        }
                    }
                },
                Err(e) => {
                    return Err(e);
                },
            }
        }
    }

    fn is_at_end(&self) -> (r: bool)
        requires
            self.wf(),
        ensures
            r == (self.cursor >= self.source@.len()),
    {
        self.cursor >= self.source.len()
    }

    fn peek_next_char(&self) -> (r: Option<char>)
        requires
            self.wf(),
        ensures
            r == char_at(self.source@, self.cursor as int),
    {
        if self.cursor < self.source.len() {
            Some(self.source[self.cursor])
        } else {
            None
        }
    }

    /// Moves past one character, keeping count of lines.
    fn consume_char(&mut self) -> (c: char)
        requires
            old(self).wf(),
            old(self).cursor < old(self).source@.len(),
        ensures
            final(self).wf(),
            final(self).source@ == old(self).source@,
            final(self).cursor == old(self).cursor + 1,
            final(self).current_token_start == old(self).current_token_start,
            final(self).token_line == old(self).token_line,
            final(self).token_column == old(self).token_column,
            c == old(self).source@[old(self).cursor as int],
    {
        proof {
            lemma_line_bounds(self.source@, self.cursor as int);
        }
        let c = self.source[self.cursor];
        if c == '\n' {
            self.current_line = self.current_line + 1;
            self.line_start = self.cursor + 1;
        }
        self.cursor = self.cursor + 1;
        c
    }

    /// Moves the cursor past whitespace.
    fn skip_whitespace(&mut self)
        requires
            old(self).wf(),
        ensures
            final(self).wf(),
            final(self).source@ == old(self).source@,
            final(self).cursor == run_end(old(self).source@, old(self).cursor as int, CharClass::Whitespace),
    {
        while self.cursor < self.source.len() && (self.source[self.cursor] == ' '
            || self.source[self.cursor] == '\t' || self.source[self.cursor] == '\r'
            || self.source[self.cursor] == '\n')
            invariant
                self.wf(),
                self.source@ == old(self).source@,
                run_end(self.source@, self.cursor as int, CharClass::Whitespace)
                    == run_end(old(self).source@, old(self).cursor as int, CharClass::Whitespace),
            decreases self.source@.len() - self.cursor,
        {
            self.consume_char();
        }
    }

    fn match_next_char(&mut self, wanted: char) -> (r: bool)
        requires
            old(self).wf(),
        ensures
            final(self).wf(),
            final(self).source@ == old(self).source@,
            final(self).current_token_start == old(self).current_token_start,
            final(self).token_line == old(self).token_line,
            final(self).token_column == old(self).token_column,
            r == (char_at(old(self).source@, old(self).cursor as int) == Some(wanted)),
            final(self).cursor == old(self).cursor + if r { 1int } else { 0int },
    {
        if self.peek_next_char() == Some(wanted) {
            self.consume_char();
            true
        } else {
            false
        }
    }

    /// Reads the token whose first character is at the cursor.
    fn consume_token(&mut self) -> (r: Result<Token, LexError>)
        requires
            old(self).wf(),
            old(self).cursor < old(self).source@.len(),
            !is_whitespace(old(self).source@[old(self).cursor as int]),
        ensures
            final(self).wf(),
            final(self).source@ == old(self).source@,
            match scan(old(self).source@, old(self).cursor as int) {
                Ok((kind, end)) => r matches Ok(t) && t@ == lexeme(
                    old(self).source@,
                    kind,
                    old(self).cursor as int,
                    end,
                ) && final(self).cursor == end,
                Err(e) => r == Err::<Token, LexError>(e),
            },
    {
        reveal(scan);
        self.mark_token_start();
        let c = self.consume_char();
        if let Some(kind) = single_char_kind_of(c) {
            return Ok(self.make_lexeme_token(kind));
        }
        if let Some((second, pair, single)) = pair_kinds_of(c) {
            if self.match_next_char(second) {
                return Ok(self.make_lexeme_token(pair));
            } else {
                return Ok(self.make_lexeme_token(single));
            }
        }
        if c == ':' {
            if self.match_next_char('=') {
                return Ok(self.make_lexeme_token(TokenType::ColonEquals));
            } else if self.match_next_char(':') {
                return Ok(self.make_lexeme_token(TokenType::DoubleColon));
            } else {
                return Err(self.unexpected_character(c));
            }
        }
        if c == '"' {
            return self.consume_string();
        }
        if '0' <= c && c <= '9' {
            return Ok(self.consume_number());
        }
        if ('a' <= c && c <= 'z') || ('A' <= c && c <= 'Z') || c == '_' {
            return Ok(self.consume_identifier_or_keyword());
        }
        Err(self.unexpected_character(c))
    }

    fn unexpected_character(&self, c: char) -> (r: LexError)
        requires
            self.token_marked(),
            self.current_token_start < self.source@.len(),
            c == self.source@[self.current_token_start as int],
        ensures
            r == unexpected(self.source@, self.current_token_start as int),
    {
        LexError::UnexpectedCharacter { character: c, line: self.token_line, column: self.token_column }
    }

    /// Reads a string literal whose opening quote has just been read.
    fn consume_string(&mut self) -> (r: Result<Token, LexError>)
        requires
            old(self).wf(),
            old(self).token_marked(),
            old(self).cursor == old(self).current_token_start + 1,
        ensures
            final(self).wf(),
            final(self).source@ == old(self).source@,
            ({
                let src = old(self).source@;
                let start = old(self).current_token_start as int;
                let close = closing_quote(src, start + 1);
                if close < src.len() {
                    r matches Ok(t) && t@ == lexeme(src, TokenType::String, start, close + 1)
                        && final(self).cursor == close + 1
                } else {
                    r == Err::<Token, LexError>(
                        LexError::UnterminatedString {
                            line: line_of(src, start) as usize,
                            column: column_of(src, start) as usize,
                        },
                    )
                }
            }),
    {
        let ghost src = self.source@;
        let ghost start = self.current_token_start as int;
        loop
            invariant_except_break
                self.wf(),
                self.token_marked(),
                self.source@ == src,
                src == old(self).source@,
                start == old(self).current_token_start,
                self.current_token_start == start,
                start < self.cursor,
                closing_quote(src, self.cursor as int) == closing_quote(src, start + 1),
            ensures
                self.wf(),
                self.token_marked(),
                self.source@ == src,
                self.current_token_start == start,
                start < self.cursor,
                self.cursor < src.len(),
                src[self.cursor as int] == '"',
                closing_quote(src, self.cursor as int) == closing_quote(src, start + 1),
            decreases src.len() - self.cursor,
        {
            if self.is_at_end() {
                return Err(
                    LexError::UnterminatedString { line: self.token_line, column: self.token_column },
                );
            }
            let c = self.source[self.cursor];
            if c == '"' {
                break;
            }
            if c == '\\' && self.cursor + 1 < self.source.len() {
                self.consume_char();
            }
            self.consume_char();
        }
        self.consume_char();
        let literal = string_of_chars(&self.source, self.current_token_start + 1, self.cursor - 1);
        Ok(self.make_token(TokenType::String, literal))
    }

    /// Reads a number whose first digit has just been read.
    fn consume_number(&mut self) -> (r: Token)
        requires
            old(self).wf(),
            old(self).token_marked(),
            old(self).cursor == old(self).current_token_start + 1,
            old(self).current_token_start < old(self).source@.len(),
            is_digit(old(self).source@[old(self).current_token_start as int]),
        ensures
            final(self).wf(),
            final(self).source@ == old(self).source@,
            ({
                let src = old(self).source@;
                let start = old(self).current_token_start as int;
                let end = run_end(src, start + 1, CharClass::Digit);
                r@ == lexeme(src, TokenType::Number, start, end) && final(self).cursor == end
            }),
    {
        let ghost src = self.source@;
        let ghost start = self.current_token_start as int;
        while self.cursor < self.source.len() && '0' <= self.source[self.cursor]
            && self.source[self.cursor] <= '9'
            invariant
                self.wf(),
                self.token_marked(),
                self.source@ == src,
                self.current_token_start == start,
                start < self.cursor,
                run_end(src, self.cursor as int, CharClass::Digit) == run_end(
                    src,
                    start + 1,
                    CharClass::Digit,
                ),
            decreases src.len() - self.cursor,
        {
            self.consume_char();
        }
        self.make_lexeme_token(TokenType::Number)
    }

    /// Reads an identifier or reserved word whose first character has just
    /// been read.
    fn consume_identifier_or_keyword(&mut self) -> (r: Token)
        requires
            old(self).wf(),
            old(self).token_marked(),
            old(self).cursor == old(self).current_token_start + 1,
        ensures
            final(self).wf(),
            final(self).source@ == old(self).source@,
            ({
                let src = old(self).source@;
                let start = old(self).current_token_start as int;
                let end = run_end(src, start + 1, CharClass::IdentifierChar);
                let kind = match keyword_of(src.subrange(start, end)) {
                    Some(k) => TokenType::Keyword(k),
                    None => TokenType::Identifier,
                };
                r@ == lexeme(src, kind, start, end) && final(self).cursor == end
            }),
    {
        let ghost src = self.source@;
        let ghost start = self.current_token_start as int;
        while self.cursor < self.source.len() && (('a' <= self.source[self.cursor]
            && self.source[self.cursor] <= 'z') || ('A' <= self.source[self.cursor]
            && self.source[self.cursor] <= 'Z') || self.source[self.cursor] == '_')
            invariant
                self.wf(),
                self.token_marked(),
                self.source@ == src,
                self.current_token_start == start,
                start < self.cursor,
                run_end(src, self.cursor as int, CharClass::IdentifierChar) == run_end(
                    src,
                    start + 1,
                    CharClass::IdentifierChar,
                ),
            decreases src.len() - self.cursor,
        {
            self.consume_char();
        }
        let literal = string_of_chars(&self.source, self.current_token_start, self.cursor);
        let kind = match Keyword::try_match_from_raw_value(literal.as_str()) {
            Some(keyword) => TokenType::Keyword(keyword),
            None => TokenType::Identifier,
        };
        self.make_token(kind, literal)
    }

    /// Whether the start of the current token is recorded with its line
    /// and column.
    spec fn token_marked(&self) -> bool {
        &&& self.current_token_start <= self.cursor
        &&& self.token_line == line_of(self.source@, self.current_token_start as int)
        &&& self.token_column == column_of(self.source@, self.current_token_start as int)
    }

    /// Records the cursor as the start of a token.
    fn mark_token_start(&mut self)
        requires
            old(self).wf(),
        ensures
            final(self).wf(),
            final(self).source@ == old(self).source@,
            final(self).cursor == old(self).cursor,
            final(self).current_token_start == old(self).cursor,
            final(self).token_marked(),
    {
        proof {
            lemma_line_bounds(self.source@, self.cursor as int);
        }
        self.current_token_start = self.cursor;
        self.token_line = self.current_line;
        self.token_column = self.cursor - self.line_start + 1;
    }

    /// The token of kind `kind` that runs from the recorded start to the
    /// cursor, with `literal` as its literal.
    fn make_token(&self, kind: TokenType, literal: String) -> (r: Token)
        requires
            self.wf(),
            self.token_marked(),
        ensures
            r@ == (Lexeme {
                kind,
                line: line_of(self.source@, self.current_token_start as int),
                column: column_of(self.source@, self.current_token_start as int),
                start: self.current_token_start as nat,
                length: (self.cursor - self.current_token_start) as nat,
                literal: literal@,
            }),
    {
        Token {
            kind,
            line: self.token_line,
            column: self.token_column,
            start: self.current_token_start,
            length: self.cursor - self.current_token_start,
            literal_value: literal,
        }
    }

    /// The token of kind `kind` whose lexeme runs from the recorded start
    /// to the cursor.
    fn make_lexeme_token(&self, kind: TokenType) -> (r: Token)
        requires
            self.wf(),
            self.token_marked(),
            kind != TokenType::String,
        ensures
            r@ == lexeme(self.source@, kind, self.current_token_start as int, self.cursor as int),
    {
        let literal = string_of_chars(&self.source, self.current_token_start, self.cursor);
        self.make_token(kind, literal)
    }

    /// The end-of-input token.
    fn make_eof_token(&mut self) -> (r: Token)
        requires
            old(self).wf(),
            old(self).cursor == old(self).source@.len(),
        ensures
            final(self).wf(),
            final(self).source@ == old(self).source@,
            final(self).cursor == old(self).cursor,
            r@ == eof_lexeme(old(self).source@),
    {
        self.mark_token_start();
        let r = self.make_token(TokenType::Eof, String::new());
        assert(r@.literal =~= Seq::<char>::empty());
        r
    }
}

} // verus!

verus! {

// ---------------------------------------------------------------------------
// Writing tokens out as text, and reading them back

/// Whether tokens `a` and `b` are the same to the parser: of one kind, and
/// with one literal where the kind carries one (a name or a number).
pub open spec fn same_token(a: Lexeme, b: Lexeme) -> bool {
    &&& a.kind == b.kind
    &&& (a.kind == TokenType::Identifier || a.kind == TokenType::Number) ==> a.literal == b.literal
}

/// The characters that write token `t` of the grammar.
pub open spec fn token_text(t: Lexeme) -> Seq<char> {
    match t.kind {
        TokenType::Identifier => t.literal,
        TokenType::Number => t.literal,
        TokenType::Keyword(Keyword::Let) => seq!['l', 'e', 't'],
        TokenType::Plus => seq!['+'],
        TokenType::Minus => seq!['-'],
        TokenType::Star => seq!['*'],
        TokenType::Slash => seq!['/'],
        TokenType::ParenthesesLeft => seq!['('],
        TokenType::ParenthesesRight => seq![')'],
        TokenType::Comma => seq![','],
        TokenType::Semicolon => seq![';'],
        TokenType::Equals => seq!['='],
        _ => Seq::empty(),
    }
}

/// Whether `t` is a token that the grammar writes and that reads back as
/// itself: a name of letters and underscores that is not reserved, a run of
/// digits, `let`, or one of the punctuation marks of expressions and
/// statements.
pub open spec fn writable(t: Lexeme) -> bool {
    match t.kind {
        TokenType::Identifier => {
            &&& t.literal.len() > 0
            &&& forall|k: int| 0 <= k < t.literal.len() ==> is_identifier_char(#[trigger] t.literal[k])
            &&& keyword_of(t.literal) is None
        },
        TokenType::Number => t.literal.len() > 0 && all_digits(t.literal),
        _ => token_text(t).len() > 0,
    }
}

/// The text of `ts` laid out with `gaps`: the first gap, then each token
/// followed by the next gap.
pub open spec fn laid_out(ts: Seq<Lexeme>, gaps: Seq<Seq<char>>) -> Seq<char>
    decreases ts.len(),
{
    if ts.len() == 0 || gaps.len() == 0 {
        if gaps.len() == 0 {
            Seq::empty()
        } else {
            gaps[0]
        }
    } else {
        gaps[0] + token_text(ts[0]) + laid_out(ts.drop_first(), gaps.drop_first())
    }
}

/// Whether `gaps` lays out `ts`: one gap before each token and one after
/// the last, all whitespace, and those between two tokens not empty.
pub open spec fn layout(ts: Seq<Lexeme>, gaps: Seq<Seq<char>>) -> bool {
    &&& gaps.len() == ts.len() + 1
    &&& forall|k: int, c: int|
        0 <= k < gaps.len() && 0 <= c < gaps[k].len() ==> is_whitespace(#[trigger] gaps[k][c])
    &&& forall|k: int| 0 < k < ts.len() ==> (#[trigger] gaps[k]).len() > 0
}

proof fn lemma_run_end_exact(src: Seq<char>, a: int, e: int, class: CharClass)
    requires
        0 <= a <= e <= src.len(),
        forall|k: int| a <= k < e ==> in_class(#[trigger] src[k], class),
        e < src.len() ==> !in_class(src[e], class),
    ensures
        run_end(src, a, class) == e,
    decreases e - a,
{
    if a < e {
        lemma_run_end_exact(src, a + 1, e, class);
    }
}

/// A writable token followed by whitespace, or by the end of the text,
/// scans as itself.
proof fn lemma_scan_written(src: Seq<char>, i: int, t: Lexeme)
    requires
        writable(t),
        0 <= i,
        i + token_text(t).len() <= src.len(),
        src.subrange(i, i + token_text(t).len()) == token_text(t),
        i + token_text(t).len() < src.len() ==> is_whitespace(src[i + token_text(t).len()]),
    ensures
        scan(src, i) == Ok::<(TokenType, int), LexError>((t.kind, i + token_text(t).len())),
        same_token(lexeme(src, t.kind, i, i + token_text(t).len()), t),
        !is_whitespace(src[i]),
{
    reveal(scan);
    let txt = token_text(t);
    let e = i + txt.len();
    assert(src[i] == txt[0]);
    if t.kind == TokenType::Identifier || t.kind == TokenType::Keyword(Keyword::Let) {
        assert forall|k: int| i + 1 <= k < e implies in_class(#[trigger] src[k], CharClass::IdentifierChar) by {
            assert(src[k] == txt[k - i]);
        }
        lemma_run_end_exact(src, i + 1, e, CharClass::IdentifierChar);
        assert(src.subrange(i, e) == txt);
        assert(keyword_of(seq!['l', 'e', 't']) == Some(Keyword::Let));
    } else if t.kind == TokenType::Number {
        assert forall|k: int| i + 1 <= k < e implies in_class(#[trigger] src[k], CharClass::Digit) by {
            assert(src[k] == txt[k - i]);
        }
        lemma_run_end_exact(src, i + 1, e, CharClass::Digit);
        assert(src.subrange(i, e) == txt);
    } else {
        assert(txt.len() == 1);
    }
}

/// Writable tokens laid out with whitespace gaps, standing at the end of
/// `src` from index `i`, lex to those tokens and the end of input.
pub proof fn lemma_lex_text(src: Seq<char>, i: int, ts: Seq<Lexeme>, gaps: Seq<Seq<char>>)
    requires
        forall|k: int| 0 <= k < ts.len() ==> writable(#[trigger] ts[k]),
        layout(ts, gaps),
        0 <= i <= src.len(),
        src.subrange(i, src.len() as int) == laid_out(ts, gaps),
    ensures
        lex_from(src, i) matches Ok(ls) && ls.len() == ts.len() + 1 && ls.last().kind
            == TokenType::Eof && forall|k: int| 0 <= k < ts.len() ==> same_token(#[trigger] ls[k], ts[k]),
    decreases ts.len(),
{
    let g = gaps[0];
    let text = laid_out(ts, gaps);
    assert forall|c: int| 0 <= c < g.len() implies is_whitespace(#[trigger] g[c]) by {
        assert(is_whitespace(gaps[0][c]));
    }
    if ts.len() == 0 {
        assert(text == g);
        assert forall|k: int| i <= k < src.len() implies in_class(#[trigger] src[k], CharClass::Whitespace) by {
            assert(src[k] == src.subrange(i, src.len() as int)[k - i]);
            assert(is_whitespace(g[k - i]));
        }
        lemma_run_end_exact(src, i, src.len() as int, CharClass::Whitespace);
    } else {
        let t = ts[0];
        let txt = token_text(t);
        let rest = ts.drop_first();
        let rgaps = gaps.drop_first();
        let p = i + g.len();
        let e = p + txt.len();
        assert(text == g + txt + laid_out(rest, rgaps));
        assert forall|k: int| 0 <= k < g.len() implies src[i + k] == #[trigger] g[k] by {
            assert(src[i + k] == src.subrange(i, src.len() as int)[k]);
            assert(text[k] == g[k]);
        }
        assert forall|k: int| 0 <= k < txt.len() implies src[p + k] == #[trigger] txt[k] by {
            assert(src[p + k] == src.subrange(i, src.len() as int)[g.len() + k]);
            assert(text[g.len() + k] == txt[k]);
        }
        assert(src.subrange(p, e) =~= txt);
        assert(src.subrange(e, src.len() as int) =~= laid_out(rest, rgaps)) by {
            assert forall|k: int| 0 <= k < laid_out(rest, rgaps).len() implies src.subrange(
                e,
                src.len() as int,
            )[k] == laid_out(rest, rgaps)[k] by {
                assert(src[e + k] == src.subrange(i, src.len() as int)[g.len() + txt.len() + k]);
                assert(text[g.len() + txt.len() + k] == laid_out(rest, rgaps)[k]);
            }
        }
        assert(layout(rest, rgaps)) by {
            assert forall|k: int, c: int|
                0 <= k < rgaps.len() && 0 <= c < rgaps[k].len() implies is_whitespace(
                #[trigger] rgaps[k][c],
            ) by {
                assert(rgaps[k] == gaps[k + 1]);
                assert(is_whitespace(gaps[k + 1][c]));
            }
            assert forall|k: int| 0 < k < rest.len() implies (#[trigger] rgaps[k]).len() > 0 by {
                assert(rgaps[k] == gaps[k + 1]);
            }
        }
        if e < src.len() {
            let ng = rgaps[0];
            if rest.len() > 0 {
                assert(ng.len() > 0) by {
                    assert(gaps[1].len() > 0);
                }
            }
            let after = laid_out(rest, rgaps);
            if ng.len() > 0 {
                if rest.len() > 0 {
                    assert(after == ng + token_text(rest[0]) + laid_out(rest.drop_first(), rgaps.drop_first()));
                } else {
                    assert(after == ng);
                }
                assert(after[0] == ng[0]);
                assert(is_whitespace(rgaps[0][0]));
            } else {
                assert(rest.len() == 0);
                assert(after == ng);
            }
            assert(src[e] == src.subrange(e, src.len() as int)[0]);
        }
        assert(txt.len() > 0);
        assert forall|k: int| i <= k < p implies in_class(#[trigger] src[k], CharClass::Whitespace) by {
            assert(src[i + (k - i)] == g[k - i]);
        }
        lemma_scan_written(src, p, t);
        lemma_run_end_exact(src, i, p, CharClass::Whitespace);
        assert forall|k: int| 0 <= k < rest.len() implies writable(#[trigger] rest[k]) by {
            assert(rest[k] == ts[k + 1]);
        }
        lemma_lex_text(src, e, rest, rgaps);
        let ls_rest = lex_from(src, e)->Ok_0;
        let ls = seq![lexeme(src, t.kind, p, e)] + ls_rest;
        assert(lex_from(src, i) == Ok::<Seq<Lexeme>, LexError>(ls));
        assert forall|k: int| 0 <= k < ts.len() implies same_token(#[trigger] ls[k], ts[k]) by {
            if k > 0 {
                assert(ls[k] == ls_rest[k - 1]);
                assert(ts[k] == rest[k - 1]);
            }
        }
    }
}

} // verus!

verus! {

/// Whether `c` may stand in source text outside string literals and
/// without a colon: whitespace, a punctuation mark of the lexical grammar,
/// a digit, a letter or `_`.
pub open spec fn plain_char(c: char) -> bool {
    is_whitespace(c) || single_char_kind(c) is Some || pair_kinds(c) is Some || is_digit(c)
        || is_identifier_char(c)
}

/// Whether the text from index `i` on is lexically valid: outside string
/// literals it holds only plain characters and colons, each colon starts
/// `:=` or `::`, and each string literal is closed.
pub open spec fn lexically_valid(src: Seq<char>, i: int) -> bool
    decreases src.len() - i,
{
    if i < 0 || i >= src.len() {
        true
    } else if src[i] == ':' {
        (char_at(src, i + 1) == Some('=') || char_at(src, i + 1) == Some(':')) && lexically_valid(
            src,
            i + 2,
        )
    } else if src[i] == '"' {
        let close = closing_quote(src, i + 1);
        0 <= i + 1 <= close < src.len() && lexically_valid(src, close + 1)
    } else {
        plain_char(src[i]) && lexically_valid(src, i + 1)
    }
}

/// Validity carries over a run of plain characters.
proof fn lemma_valid_over_plain(src: Seq<char>, j: int, e: int)
    requires
        0 <= j <= e <= src.len(),
        lexically_valid(src, j),
        forall|k: int| j <= k < e ==> plain_char(#[trigger] src[k]),
    ensures
        lexically_valid(src, e),
    decreases e - j,
{
    if j < e {
        assert(plain_char(src[j]));
        lemma_valid_over_plain(src, j + 1, e);
    }
}

proof fn lemma_scan_valid(src: Seq<char>, j: int)
    requires
        0 <= j < src.len(),
        lexically_valid(src, j),
        !is_whitespace(src[j]),
    ensures
        scan(src, j) matches Ok((_, end)) && lexically_valid(src, end),
{
    reveal(scan);
    lemma_scan_advances(src, j);
    let c = src[j];
    if c == ':' || c == '"' {
        lemma_closing_quote(src, j + 1);
    } else if is_digit(c) {
        let e = run_end(src, j + 1, CharClass::Digit);
        lemma_run_end(src, j + 1, CharClass::Digit);
        lemma_run_all(src, j + 1, CharClass::Digit);
        lemma_valid_over_plain(src, j, e);
    } else if is_identifier_char(c) && single_char_kind(c) is None && pair_kinds(c) is None {
        let e = run_end(src, j + 1, CharClass::IdentifierChar);
        lemma_run_end(src, j + 1, CharClass::IdentifierChar);
        lemma_run_all(src, j + 1, CharClass::IdentifierChar);
        lemma_valid_over_plain(src, j, e);
    } else if pair_kinds(c) is Some {
        let (second, pair, single) = pair_kinds(c)->0;
        if char_at(src, j + 1) == Some(second) {
            assert(plain_char(src[j + 1]));
            lemma_valid_over_plain(src, j, j + 2);
        } else {
            lemma_valid_over_plain(src, j, j + 1);
        }
    } else {
        lemma_valid_over_plain(src, j, j + 1);
    }
}

proof fn lemma_run_all(src: Seq<char>, i: int, class: CharClass)
    requires
        0 <= i,
    ensures
        forall|k: int| i <= k < run_end(src, i, class) ==> in_class(#[trigger] src[k], class),
    decreases src.len() - i,
{
    if 0 <= i < src.len() && in_class(src[i], class) {
        lemma_run_all(src, i + 1, class);
    }
}

/// Lexically valid text always lexes: the tokenizer gives tokens ending
/// with the end of input, rather than an error.
pub proof fn lemma_lex_valid_text(src: Seq<char>)
    requires
        lexically_valid(src, 0),
    ensures
        lex(src) is Ok,
{
    lemma_lex_valid_from(src, 0);
}

proof fn lemma_lex_valid_from(src: Seq<char>, i: int)
    requires
        0 <= i <= src.len(),
        lexically_valid(src, i),
    ensures
        lex_from(src, i) is Ok,
    decreases src.len() - i,
{
    let j = run_end(src, i, CharClass::Whitespace);
    lemma_run_end(src, i, CharClass::Whitespace);
    lemma_run_all(src, i, CharClass::Whitespace);
    lemma_valid_over_plain(src, i, j);
    if j < src.len() {
        lemma_scan_valid(src, j);
        lemma_scan_advances(src, j);
        let end = scan(src, j)->Ok_0.1;
        lemma_lex_valid_from(src, end);
    }
}

} // verus!
