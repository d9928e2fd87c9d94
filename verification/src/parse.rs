//! Parsing: from tokens to a program, by recursive descent with one token of
//! lookahead.
//!
//! ```text
//! program     := statement* EndOfInput
//! statement   := declaration | expression ';'
//! declaration := 'var' Identifier ('=' expression)? ';'
//! expression  := term (('+' | '-') term)*
//! term        := factor (('*' | '/') factor)*
//! factor      := Number | Identifier | '(' expression ')'
//! ```
//!
//! Operators of one level group to the left. A token sequence that ends
//! without `EndOfInput` is read as if it ended with one.

use vstd::prelude::*;
use vstd::string::StringExecFns;
pub use crate::ast::{BinaryOperator, Expression, Statement, StatementView};
use crate::ast::{default_initial_value, program_view};
use crate::lex::{tokens_view, Keyword, Operator, Token, TokenView};

verus! {

/// Why a token sequence is no program.
#[derive(Debug, PartialEq, Eq)]
pub enum ParseError {
    /// The token `found` stands where the grammar wants what
    /// `expected_description` names.
    UnexpectedToken { found: Token, expected_description: String },
    /// The tokens end inside a statement.
    UnexpectedEndOfInput,
}

/// What a [`ParseError`] is, with texts as sequences of characters.
pub enum ParseErrorView {
    UnexpectedToken { found: TokenView, expected_description: Seq<char> },
    UnexpectedEndOfInput,
}

impl View for ParseError {
    type V = ParseErrorView;

    open spec fn view(&self) -> ParseErrorView {
        match *self {
            ParseError::UnexpectedToken { found, expected_description } => ParseErrorView::UnexpectedToken {
                found: found@,
                expected_description: expected_description@,
            },
            ParseError::UnexpectedEndOfInput => ParseErrorView::UnexpectedEndOfInput,
        }
    }
}

/// What a failing parse returns: the error, and the position of the token at
/// which it was found.
pub type Failure = (ParseErrorView, int);

/// What parsing one construct returns: its value and the position behind it,
/// or a failure.
pub type Step<T> = Result<(T, int), Failure>;

/// What is wanted where an expression has to start.
pub open spec fn expression_wanted() -> Seq<char> {
    "an expression"@
}

/// What is wanted behind an expression in parentheses.
pub open spec fn closing_paren_wanted() -> Seq<char> {
    "')'"@
}

/// What is wanted behind the expression of a statement.
pub open spec fn semicolon_wanted() -> Seq<char> {
    "';'"@
}

/// What is wanted behind `var`.
pub open spec fn identifier_wanted() -> Seq<char> {
    "an identifier"@
}

/// What is wanted behind the name of a declaration.
pub open spec fn initialiser_wanted() -> Seq<char> {
    "'=' or ';'"@
}

/// The token at position `at`; `EndOfInput` outside the sequence.
pub open spec fn token_at(tokens: Seq<TokenView>, at: int) -> TokenView {
    if 0 <= at < tokens.len() {
        tokens[at]
    } else {
        TokenView::EndOfInput
    }
}

/// The failure at position `at`, where the grammar wants what `wanted` names:
/// the end of the input where the token there is `EndOfInput`, else that
/// token as unexpected.
pub open spec fn failure_at(tokens: Seq<TokenView>, at: int, wanted: Seq<char>) -> Failure {
    if token_at(tokens, at) is EndOfInput {
        (ParseErrorView::UnexpectedEndOfInput, at)
    } else {
        (ParseErrorView::UnexpectedToken { found: token_at(tokens, at), expected_description: wanted }, at)
    }
}

/// The operator of a term that `token` is: `*` or `/`.
pub open spec fn multiplicative(token: TokenView) -> Option<BinaryOperator> {
    match token {
        TokenView::Operator(Operator::Mul) => Some(BinaryOperator::Mul),
        TokenView::Operator(Operator::Div) => Some(BinaryOperator::Div),
        _ => None,
    }
}

/// The operator of an expression that `token` is: `+` or `-`.
pub open spec fn additive(token: TokenView) -> Option<BinaryOperator> {
    match token {
        TokenView::Operator(Operator::Add) => Some(BinaryOperator::Add),
        TokenView::Operator(Operator::Sub) => Some(BinaryOperator::Sub),
        _ => None,
    }
}

/// Whether a construct that started at `at` and ended before `next` holds at
/// least one token of the sequence. Every construct does (see
/// `lemma_parsing_advances`); the parsing functions ask so that they are seen
/// to end.
pub open spec fn advances(tokens: Seq<TokenView>, at: int, next: int) -> bool {
    at < next <= tokens.len()
}

/// `factor := Number | Identifier | '(' expression ')'`, at position `at`.
pub open spec fn parse_factor(tokens: Seq<TokenView>, at: int) -> Step<Expression>
    decreases tokens.len() - at, 0int,
{
    match token_at(tokens, at) {
        TokenView::Number(value) => Ok((Expression::NumberLiteral { value }, at + 1)),
        TokenView::Identifier { index, .. } => Ok((Expression::VariableRef { index }, at + 1)),
        TokenView::LParen => match parse_expression(tokens, at + 1) {
            Err(failure) => Err(failure),
            Ok((inner, next)) => if token_at(tokens, next) is RParen {
                Ok((inner, next + 1))
            } else {
                Err(failure_at(tokens, next, closing_paren_wanted()))
            },
        },
        _ => Err(failure_at(tokens, at, expression_wanted())),
    }
}

/// `(('*' | '/') factor)*` at position `at`, behind the term `lhs`.
pub open spec fn parse_term_rest(tokens: Seq<TokenView>, at: int, lhs: Expression) -> Step<Expression>
    decreases tokens.len() - at, 1int,
{
    match multiplicative(token_at(tokens, at)) {
        None => Ok((lhs, at)),
        Some(operator) => match parse_factor(tokens, at + 1) {
            Err(failure) => Err(failure),
            Ok((rhs, next)) => if advances(tokens, at, next) {
                parse_term_rest(
                    tokens,
                    next,
                    Expression::BinaryOp { operator, lhs: Box::new(lhs), rhs: Box::new(rhs) },
                )
            } else {
                Err((ParseErrorView::UnexpectedEndOfInput, at))
            },
        },
    }
}

/// `term := factor (('*' | '/') factor)*`, at position `at`.
pub open spec fn parse_term(tokens: Seq<TokenView>, at: int) -> Step<Expression>
    decreases tokens.len() - at, 2int,
{
    match parse_factor(tokens, at) {
        Err(failure) => Err(failure),
        Ok((lhs, next)) => if advances(tokens, at, next) {
            parse_term_rest(tokens, next, lhs)
        } else {
            Err((ParseErrorView::UnexpectedEndOfInput, at))
        },
    }
}

/// `(('+' | '-') term)*` at position `at`, behind the expression `lhs`.
pub open spec fn parse_expression_rest(tokens: Seq<TokenView>, at: int, lhs: Expression) -> Step<Expression>
    decreases tokens.len() - at, 3int,
{
    match additive(token_at(tokens, at)) {
        None => Ok((lhs, at)),
        Some(operator) => match parse_term(tokens, at + 1) {
            Err(failure) => Err(failure),
            Ok((rhs, next)) => if advances(tokens, at, next) {
                parse_expression_rest(
                    tokens,
                    next,
                    Expression::BinaryOp { operator, lhs: Box::new(lhs), rhs: Box::new(rhs) },
                )
            } else {
                Err((ParseErrorView::UnexpectedEndOfInput, at))
            },
        },
    }
}

/// `expression := term (('+' | '-') term)*`, at position `at`.
pub open spec fn parse_expression(tokens: Seq<TokenView>, at: int) -> Step<Expression>
    decreases tokens.len() - at, 4int,
{
    match parse_term(tokens, at) {
        Err(failure) => Err(failure),
        Ok((lhs, next)) => if advances(tokens, at, next) {
            parse_expression_rest(tokens, next, lhs)
        } else {
            Err((ParseErrorView::UnexpectedEndOfInput, at))
        },
    }
}

/// An expression at position `at` and the `;` behind it.
pub open spec fn parse_terminated_expression(tokens: Seq<TokenView>, at: int) -> Step<Expression> {
    match parse_expression(tokens, at) {
        Err(failure) => Err(failure),
        Ok((expr, next)) => if token_at(tokens, next) is Semicolon {
            Ok((expr, next + 1))
        } else {
            Err(failure_at(tokens, next, semicolon_wanted()))
        },
    }
}

/// `statement := declaration | expression ';'`, at position `at`. A
/// declaration without initialiser has the default initial value.
pub open spec fn parse_statement(tokens: Seq<TokenView>, at: int) -> Step<StatementView> {
    if token_at(tokens, at) == TokenView::Keyword(Keyword::Var) {
        match token_at(tokens, at + 1) {
            TokenView::Identifier { name, index } => match token_at(tokens, at + 2) {
                TokenView::Semicolon => Ok(
                    (
                        StatementView::DeclareVariable { index, name, initial_value: default_initial_value() },
                        at + 3,
                    ),
                ),
                TokenView::Operator(Operator::Assign) => match parse_terminated_expression(tokens, at + 3) {
                    Err(failure) => Err(failure),
                    Ok((initial_value, next)) => Ok(
                        (StatementView::DeclareVariable { index, name, initial_value }, next),
                    ),
                },
                _ => Err(failure_at(tokens, at + 2, initialiser_wanted())),
            },
            _ => Err(failure_at(tokens, at + 1, identifier_wanted())),
        }
    } else {
        match parse_terminated_expression(tokens, at) {
            Err(failure) => Err(failure),
            Ok((expr, next)) => Ok((StatementView::ExpressionStatement { expr }, next)),
        }
    }
}

/// `statement* EndOfInput`, at position `at`.
pub open spec fn parse_program(tokens: Seq<TokenView>, at: int) -> Result<Seq<StatementView>, Failure>
    decreases tokens.len() - at,
{
    if token_at(tokens, at) is EndOfInput {
        Ok(Seq::<StatementView>::empty())
    } else {
        match parse_statement(tokens, at) {
            Err(failure) => Err(failure),
            Ok((statement, next)) => if advances(tokens, at, next) {
                match parse_program(tokens, next) {
                    Err(failure) => Err(failure),
                    Ok(rest) => Ok(seq![statement] + rest),
                }
            } else {
                Err((ParseErrorView::UnexpectedEndOfInput, at))
            },
        }
    }
}

/// The program that `tokens` are, or the first error.
pub open spec fn program_of(tokens: Seq<TokenView>) -> Result<Seq<StatementView>, ParseErrorView> {
    match parse_program(tokens, 0) {
        Ok(program) => Ok(program),
        Err(failure) => Err(failure.0),
    }
}

/// Every construct holds at least one token, and a failure is found at or
/// behind the construct's start, not behind the end of the tokens.
pub proof fn lemma_parsing_advances(tokens: Seq<TokenView>, at: int)
    requires
        0 <= at <= tokens.len(),
    ensures
        parse_factor(tokens, at) matches Ok((_, next)) ==> advances(tokens, at, next),
        parse_term(tokens, at) matches Ok((_, next)) ==> advances(tokens, at, next),
        parse_expression(tokens, at) matches Ok((_, next)) ==> advances(tokens, at, next),
        parse_factor(tokens, at) matches Err((_, found)) ==> at <= found <= tokens.len(),
        parse_term(tokens, at) matches Err((_, found)) ==> at <= found <= tokens.len(),
        parse_expression(tokens, at) matches Err((_, found)) ==> at <= found <= tokens.len(),
    decreases tokens.len() - at, 1int,
{
    if at < tokens.len() {
        lemma_parsing_advances(tokens, at + 1);
    }
    match parse_factor(tokens, at) {
        Ok((lhs, next)) => {
            lemma_rest_advances(tokens, next, lhs);
        },
        Err(_) => {},
    }
    match parse_term(tokens, at) {
        Ok((lhs, next)) => {
            lemma_rest_advances(tokens, next, lhs);
        },
        Err(_) => {},
    }
}

/// The operators and operands behind a term or an expression end at or
/// behind their start, inside the tokens.
pub proof fn lemma_rest_advances(tokens: Seq<TokenView>, at: int, lhs: Expression)
    requires
        0 <= at <= tokens.len(),
    ensures
        parse_term_rest(tokens, at, lhs) matches Ok((_, next)) ==> at <= next <= tokens.len(),
        parse_expression_rest(tokens, at, lhs) matches Ok((_, next)) ==> at <= next <= tokens.len(),
        parse_term_rest(tokens, at, lhs) matches Err((_, found)) ==> at <= found <= tokens.len(),
        parse_expression_rest(tokens, at, lhs) matches Err((_, found)) ==> at <= found <= tokens.len(),
    decreases tokens.len() - at, 0int,
{
    if at < tokens.len() {
        lemma_parsing_advances(tokens, at + 1);
        match multiplicative(token_at(tokens, at)) {
            None => {},
            Some(operator) => match parse_factor(tokens, at + 1) {
                Err(_) => {},
                Ok((rhs, next)) => {
                    lemma_rest_advances(
                        tokens,
                        next,
                        Expression::BinaryOp { operator, lhs: Box::new(lhs), rhs: Box::new(rhs) },
                    );
                },
            },
        }
        match additive(token_at(tokens, at)) {
            None => {},
            Some(operator) => match parse_term(tokens, at + 1) {
                Err(_) => {},
                Ok((rhs, next)) => {
                    lemma_rest_advances(
                        tokens,
                        next,
                        Expression::BinaryOp { operator, lhs: Box::new(lhs), rhs: Box::new(rhs) },
                    );
                },
            },
        }
    }
}


/// A statement holds at least one token, and a failure is found at or behind
/// the statement's start.
pub proof fn lemma_statement_advances(tokens: Seq<TokenView>, at: int)
    requires
        0 <= at < tokens.len(),
    ensures
        parse_statement(tokens, at) matches Ok((_, next)) ==> advances(tokens, at, next),
        parse_statement(tokens, at) matches Err((_, found)) ==> at <= found <= tokens.len(),
{
    lemma_parsing_advances(tokens, at);
    if at + 3 <= tokens.len() {
        lemma_parsing_advances(tokens, at + 3);
    }
}

/// A sequence of tokens with a cursor. The cursor never moves back and never
/// leaves the sequence.
pub struct TokenStream {
    tokens: Vec<Token>,
    cursor: usize,
}

impl TokenStream {
    #[verifier::type_invariant]
    spec fn cursor_inside(self) -> bool {
        self.cursor <= self.tokens.len()
    }

    /// The tokens of the stream, read or not.
    pub closed spec fn tokens(&self) -> Seq<TokenView> {
        tokens_view(self.tokens@)
    }

    /// The number of tokens that have been read.
    pub closed spec fn cursor(&self) -> int {
        self.cursor as int
    }

    /// A stream over `tokens`, with nothing read.
    pub fn new(tokens: Vec<Token>) -> (stream: TokenStream)
        ensures
            stream.tokens() == tokens_view(tokens@),
            stream.cursor() == 0,
    {
        TokenStream { tokens, cursor: 0 }
    }

    /// The number of tokens that have been read.
    pub fn position(&self) -> (position: usize)
        ensures
            position == self.cursor(),
            self.cursor() <= self.tokens().len(),
    {
        proof {
            use_type_invariant(self);
        }
        self.cursor
    }

    /// The next token, which stays unread; `None` where all are read.
    pub fn peek(&self) -> (token: Option<&Token>)
        ensures
            match token {
                Some(token) => self.cursor() < self.tokens().len() && token@ == self.tokens()[self.cursor()],
                None => self.cursor() == self.tokens().len(),
            },
    {
        proof {
            use_type_invariant(self);
        }
        if self.cursor < self.tokens.len() {
            Some(&self.tokens[self.cursor])
        } else {
            None
        }
    }

    /// Reads the next token; `None`, and no change, where all are read.
    pub fn next(&mut self) -> (token: Option<Token>)
        ensures
            final(self).tokens() == old(self).tokens(),
            match token {
                Some(token) => old(self).cursor() < old(self).tokens().len() && token@ == old(
                    self,
                ).tokens()[old(self).cursor()] && final(self).cursor() == old(self).cursor() + 1,
                None => old(self).cursor() == old(self).tokens().len() && final(self).cursor() == old(
                    self,
                ).cursor(),
            },
    {
        proof {
            use_type_invariant(&*self);
        }
        if self.cursor < self.tokens.len() {
            let token = self.tokens[self.cursor].clone();
            self.cursor = self.cursor + 1;
            Some(token)
        } else {
            None
        }
    }
}

/// The next token of `stream`, or `EndOfInput` where all are read.
fn lookahead(stream: &TokenStream) -> (token: Token)
    ensures
        token@ == token_at(stream.tokens(), stream.cursor()),
        0 <= stream.cursor() <= stream.tokens().len(),
{
    match stream.peek() {
        Some(token) => token.clone(),
        None => Token::EndOfInput,
    }
}

/// The error for the next token of `stream`, where the grammar wants what
/// `wanted` names.
fn failure(stream: &TokenStream, wanted: &str) -> (error: ParseError)
    ensures
        (error@, stream.cursor()) == failure_at(stream.tokens(), stream.cursor(), wanted@),
{
    match lookahead(stream) {
        Token::EndOfInput => ParseError::UnexpectedEndOfInput,
        found => ParseError::UnexpectedToken { found, expected_description: String::from_str(wanted) },
    }
}

/// Whether `result`, with the cursor at `cursor`, is what `step` says.
pub open spec fn is_step(result: Result<Expression, ParseError>, cursor: int, step: Step<Expression>) -> bool {
    match result {
        Ok(expr) => step == Ok::<(Expression, int), Failure>((expr, cursor)),
        Err(error) => step == Err::<(Expression, int), Failure>((error@, cursor)),
    }
}

/// Parses a factor at the cursor.
fn factor(stream: &mut TokenStream) -> (result: Result<Expression, ParseError>)
    ensures
        final(stream).tokens() == old(stream).tokens(),
        is_step(result, final(stream).cursor(), parse_factor(old(stream).tokens(), old(stream).cursor())),
    decreases old(stream).tokens().len() - old(stream).cursor(), 0int,
{
    match lookahead(stream) {
        Token::Number(value) => {
            let _ = stream.next();
            Ok(Expression::NumberLiteral { value })
        },
        Token::Identifier { index, .. } => {
            let _ = stream.next();
            Ok(Expression::VariableRef { index })
        },
        Token::LParen => {
            let _ = stream.next();
            let inner = match evaluate_expression(stream) {
                Ok(inner) => inner,
                Err(error) => {
                    return Err(error);
                },
            };
            match lookahead(stream) {
                Token::RParen => {
                    let _ = stream.next();
                    Ok(inner)
                },
                _ => Err(failure(stream, "')'")),
            }
        },
        _ => Err(failure(stream, "an expression")),
    }
}

/// Parses a term at the cursor.
fn term(stream: &mut TokenStream) -> (result: Result<Expression, ParseError>)
    ensures
        final(stream).tokens() == old(stream).tokens(),
        is_step(result, final(stream).cursor(), parse_term(old(stream).tokens(), old(stream).cursor())),
    decreases old(stream).tokens().len() - old(stream).cursor(), 2int,
{
    let ghost tokens = stream.tokens();
    let ghost start = stream.cursor();
    proof {
        use_type_invariant(&*stream);
        lemma_parsing_advances(tokens, start);
    }
    let first = factor(stream);
    let mut lhs = match first {
        Ok(lhs) => lhs,
        Err(error) => {
            return Err(error);
        },
    };
    loop
        invariant
            tokens == old(stream).tokens(),
            start == old(stream).cursor(),
            stream.tokens() == tokens,
            start < stream.cursor() <= tokens.len(),
            parse_term(tokens, start) == parse_term_rest(tokens, stream.cursor(), lhs),
        decreases tokens.len() - stream.cursor(),
    {
        let operator = match lookahead(stream) {
            Token::Operator(Operator::Mul) => BinaryOperator::Mul,
            Token::Operator(Operator::Div) => BinaryOperator::Div,
            _ => {
                return Ok(lhs);
            },
        };
        let _ = stream.next();
        proof {
            lemma_parsing_advances(tokens, stream.cursor());
        }
        let rhs = match factor(stream) {
            Ok(rhs) => rhs,
            Err(error) => {
                return Err(error);
            },
        };
        lhs = Expression::BinaryOp { operator, lhs: Box::new(lhs), rhs: Box::new(rhs) };
    }
}

/// Parses an expression at the cursor of `stream` and moves the cursor
/// behind it.
///
/// `*` and `/` bind tighter than `+` and `-`; operators of one level group to
/// the left. On failure the cursor stands at the token that the error is
/// about.
pub fn evaluate_expression(stream: &mut TokenStream) -> (result: Result<Expression, ParseError>)
    ensures
        final(stream).tokens() == old(stream).tokens(),
        old(stream).cursor() <= final(stream).cursor() <= final(stream).tokens().len(),
        result is Ok ==> old(stream).cursor() < final(stream).cursor(),
        is_step(
            result,
            final(stream).cursor(),
            parse_expression(old(stream).tokens(), old(stream).cursor()),
        ),
    decreases old(stream).tokens().len() - old(stream).cursor(), 4int,
{
    let ghost tokens = stream.tokens();
    let ghost start = stream.cursor();
    proof {
        use_type_invariant(&*stream);
        lemma_parsing_advances(tokens, start);
    }
    let first = term(stream);
    let mut lhs = match first {
        Ok(lhs) => lhs,
        Err(error) => {
            return Err(error);
        },
    };
    loop
        invariant
            tokens == old(stream).tokens(),
            start == old(stream).cursor(),
            stream.tokens() == tokens,
            start < stream.cursor() <= tokens.len(),
            parse_expression(tokens, start) == parse_expression_rest(tokens, stream.cursor(), lhs),
        decreases tokens.len() - stream.cursor(),
    {
        let operator = match lookahead(stream) {
            Token::Operator(Operator::Add) => BinaryOperator::Add,
            Token::Operator(Operator::Sub) => BinaryOperator::Sub,
            _ => {
                return Ok(lhs);
            },
        };
        let _ = stream.next();
        proof {
            lemma_parsing_advances(tokens, stream.cursor());
        }
        let rhs = match term(stream) {
            Ok(rhs) => rhs,
            Err(error) => {
                return Err(error);
            },
        };
        lhs = Expression::BinaryOp { operator, lhs: Box::new(lhs), rhs: Box::new(rhs) };
    }
}

/// Parses an expression and the `;` behind it.
fn terminated_expression(stream: &mut TokenStream) -> (result: Result<Expression, ParseError>)
    ensures
        final(stream).tokens() == old(stream).tokens(),
        is_step(
            result,
            final(stream).cursor(),
            parse_terminated_expression(old(stream).tokens(), old(stream).cursor()),
        ),
{
    let expr = match evaluate_expression(stream) {
        Ok(expr) => expr,
        Err(error) => {
            return Err(error);
        },
    };
    match lookahead(stream) {
        Token::Semicolon => {
            let _ = stream.next();
            Ok(expr)
        },
        _ => Err(failure(stream, "';'")),
    }
}

/// Parses a statement at the cursor.
fn statement(stream: &mut TokenStream) -> (result: Result<Statement, ParseError>)
    ensures
        final(stream).tokens() == old(stream).tokens(),
        match result {
            Ok(statement) => parse_statement(old(stream).tokens(), old(stream).cursor()) == Ok::<
                (StatementView, int),
                Failure,
            >((statement@, final(stream).cursor())),
            Err(error) => parse_statement(old(stream).tokens(), old(stream).cursor()) == Err::<
                (StatementView, int),
                Failure,
            >((error@, final(stream).cursor())),
        },
{
    match lookahead(stream) {
        Token::Keyword(Keyword::Var) => {
            let _ = stream.next();
            match lookahead(stream) {
                Token::Identifier { name, index } => {
                    let _ = stream.next();
                    match lookahead(stream) {
                        Token::Semicolon => {
                            let _ = stream.next();
                            Ok(
                                Statement::DeclareVariable {
                                    index,
                                    name,
                                    initial_value: Expression::NumberLiteral { value: 0 },
                                },
                            )
                        },
                        Token::Operator(Operator::Assign) => {
                            let _ = stream.next();
                            match terminated_expression(stream) {
                                Ok(initial_value) => Ok(
                                    Statement::DeclareVariable { index, name, initial_value },
                                ),
                                Err(error) => Err(error),
                            }
                        },
                        _ => Err(failure(stream, "'=' or ';'")),
                    }
                },
                _ => Err(failure(stream, "an identifier")),
            }
        },
        _ => match terminated_expression(stream) {
            Ok(expr) => Ok(Statement::ExpressionStatement { expr }),
            Err(error) => Err(error),
        },
    }
}

/// The statements `done`, then what `rest` holds.
pub open spec fn after(done: Seq<StatementView>, rest: Result<Seq<StatementView>, Failure>) -> Result<
    Seq<StatementView>,
    Failure,
> {
    match rest {
        Ok(more) => Ok(done + more),
        Err(failure) => Err(failure),
    }
}

/// Parses `tokens` into a program.
///
/// The result holds the statements in the order of the tokens. Fails with
/// `UnexpectedToken` at the first token that does not fit the grammar, with
/// that token and a description of what was wanted in its place; with
/// `UnexpectedEndOfInput` where that token is `EndOfInput` or the tokens are
/// used up.
pub fn parse(tokens: Vec<Token>) -> (result: Result<Vec<Statement>, ParseError>)
    ensures
        match result {
            Ok(program) => program_of(tokens_view(tokens@)) == Ok::<Seq<StatementView>, ParseErrorView>(
                program_view(program@),
            ),
            Err(error) => program_of(tokens_view(tokens@)) == Err::<Seq<StatementView>, ParseErrorView>(
                error@,
            ),
        },
{
    let ghost all = tokens_view(tokens@);
    let mut stream = TokenStream::new(tokens);
    let mut program: Vec<Statement> = Vec::new();
    assert(after(program_view(program@), parse_program(all, 0)) == parse_program(all, 0));
    loop
        invariant
            all == tokens_view(tokens@),
            stream.tokens() == all,
            0 <= stream.cursor() <= all.len(),
            parse_program(all, 0) == after(program_view(program@), parse_program(all, stream.cursor())),
        decreases all.len() - stream.cursor(),
    {
        match lookahead(&stream) {
            Token::EndOfInput => {
                return Ok(program);
            },
            _ => {},
        }
        let ghost at = stream.cursor();
        let ghost done = program_view(program@);
        proof {
            lemma_statement_advances(all, at);
        }
        match statement(&mut stream) {
            Ok(statement) => {
                program.push(statement);
                proof {
                    assert(program_view(program@) =~= done.push(statement@));
                    match parse_program(all, stream.cursor()) {
                        Ok(more) => {
                            assert(done + (seq![statement@] + more) =~= done.push(statement@) + more);
                        },
                        Err(_) => {},
                    }
                }
            },
            Err(error) => {
                return Err(error);
            },
        }
    }
}


/// A number and a semicolon are a program of one expression statement.
pub proof fn lemma_number_statement_program(value: i32)
    ensures
        program_of(seq![TokenView::Number(value), TokenView::Semicolon, TokenView::EndOfInput]) == Ok::<
            Seq<StatementView>,
            ParseErrorView,
        >(seq![StatementView::ExpressionStatement { expr: Expression::NumberLiteral { value } }]),
{
    let tokens = seq![TokenView::Number(value), TokenView::Semicolon, TokenView::EndOfInput];
    assert(parse_program(tokens, 2) == Ok::<Seq<StatementView>, Failure>(Seq::<StatementView>::empty()));
}


/// The token of an arithmetic operator.
pub open spec fn operator_token(operator: BinaryOperator) -> TokenView {
    match operator {
        BinaryOperator::Add => TokenView::Operator(Operator::Add),
        BinaryOperator::Sub => TokenView::Operator(Operator::Sub),
        BinaryOperator::Mul => TokenView::Operator(Operator::Mul),
        BinaryOperator::Div => TokenView::Operator(Operator::Div),
    }
}

/// The tokens that write `expr` with every operation in parentheses. The
/// variable of slot `i` is written with the name `names[i]`.
pub open spec fn written(expr: Expression, names: Seq<Seq<char>>) -> Seq<TokenView>
    decreases expr,
{
    match expr {
        Expression::NumberLiteral { value } => seq![TokenView::Number(value)],
        Expression::VariableRef { index } => seq![TokenView::Identifier { name: names[index as int], index }],
        Expression::BinaryOp { operator, lhs, rhs } => seq![TokenView::LParen] + written(*lhs, names)
            + seq![operator_token(operator)] + written(*rhs, names) + seq![TokenView::RParen],
    }
}

/// Reading what was written gives back the expression: where the tokens from
/// `at` on write `expr`, a factor is parsed there, and it is `expr`.
pub proof fn lemma_written_factor(tokens: Seq<TokenView>, at: int, expr: Expression, names: Seq<Seq<char>>)
    requires
        0 <= at,
        at + written(expr, names).len() <= tokens.len(),
        tokens.subrange(at, at + written(expr, names).len()) == written(expr, names),
    ensures
        written(expr, names).len() > 0,
        parse_factor(tokens, at) == Ok::<(Expression, int), Failure>(
            (expr, at + written(expr, names).len()),
        ),
    decreases expr,
{
    let text = written(expr, names);
    let n = text.len() as int;
    assert(tokens[at] == tokens.subrange(at, at + n)[0]);
    match expr {
        Expression::NumberLiteral { .. } => {},
        Expression::VariableRef { .. } => {},
        Expression::BinaryOp { operator, lhs, rhs } => {
            let left = written(*lhs, names);
            let right = written(*rhs, names);
            let left_len = left.len() as int;
            let right_len = right.len() as int;
            let left_at = at + 1;
            let operator_at = left_at + left_len;
            let close_at = operator_at + 1 + right_len;
            assert(tokens.subrange(left_at, operator_at) =~= left) by {
                assert forall|k: int| 0 <= k < left.len() implies tokens[left_at + k] == left[k] by {
                    assert(tokens[left_at + k] == tokens.subrange(at, at + n)[1 + k]);
                }
            }
            assert(tokens.subrange(operator_at + 1, close_at) =~= right) by {
                assert forall|k: int| 0 <= k < right.len() implies tokens[operator_at + 1 + k] == right[k] by {
                    assert(tokens[operator_at + 1 + k] == tokens.subrange(at, at + n)[2 + left_len + k]);
                }
            }
            assert(tokens[operator_at] == operator_token(operator)) by {
                assert(tokens[operator_at] == tokens.subrange(at, at + n)[1 + left_len]);
            }
            assert(tokens[close_at] == TokenView::RParen) by {
                assert(tokens[close_at] == tokens.subrange(at, at + n)[n - 1]);
            }
            lemma_written_factor(tokens, left_at, *lhs, names);
            lemma_written_factor(tokens, operator_at + 1, *rhs, names);
            let whole = Expression::BinaryOp { operator, lhs, rhs };
            if multiplicative(operator_token(operator)) is None {
                assert(parse_term(tokens, left_at) == Ok::<(Expression, int), Failure>(
                    (*lhs, operator_at),
                ));
                assert(parse_term(tokens, operator_at + 1) == Ok::<(Expression, int), Failure>(
                    (*rhs, close_at),
                ));
            }
            assert(parse_expression(tokens, left_at) == Ok::<(Expression, int), Failure>((whole, close_at)));
        },
    }
}

/// A written expression with a semicolon behind it is a program of one
/// expression statement, which holds the expression.
pub proof fn lemma_written_statement(expr: Expression, names: Seq<Seq<char>>)
    ensures
        program_of(written(expr, names) + seq![TokenView::Semicolon, TokenView::EndOfInput]) == Ok::<
            Seq<StatementView>,
            ParseErrorView,
        >(seq![StatementView::ExpressionStatement { expr }]),
{
    let text = written(expr, names);
    let n = text.len() as int;
    let tokens = text + seq![TokenView::Semicolon, TokenView::EndOfInput];
    assert(tokens.subrange(0, n) =~= text);
    lemma_written_factor(tokens, 0, expr, names);
    assert(tokens[0] != TokenView::Keyword(Keyword::Var)) by {
        match expr {
            Expression::NumberLiteral { .. } => {},
            Expression::VariableRef { .. } => {},
            Expression::BinaryOp { .. } => {},
        }
    }
    assert(parse_program(tokens, n + 1) == Ok::<Seq<StatementView>, Failure>(
        Seq::<StatementView>::empty(),
    ));
}

} // verus!
