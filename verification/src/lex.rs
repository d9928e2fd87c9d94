//! Lexical analysis: from source text to tokens.
//!
//! The text is first split into lexemes, then each lexeme is classified on
//! its own. A lexeme is a maximal run of word characters; or a minus sign
//! with the digits that follow it directly; or any other single character
//! that is not a space. Spaces, which are the white space characters of
//! Unicode, separate lexemes and belong to none.

use vstd::prelude::*;
use vstd::string::StringExecFns;
pub use crate::symbols::{create_symbol_table, DuplicateDeclarationError, SymbolTable};
use crate::symbols::slot_of;
use crate::text::{
    char_is_digit, char_is_space, char_is_word, chars_of, digits_end, find_digits_end, find_word_end,
    is_digit, is_space, is_word_char, lemma_digit_run, lemma_digits_end, lemma_word_end, lemma_word_run,
    text_between, word_end,
};

verus! {

/// The keywords of the language.
#[derive(Debug, Clone, Copy, PartialEq, Eq, Structural)]
pub enum Keyword {
    Var,
}

/// The operators that a token can be: the four of arithmetic, and the `=` of
/// a declaration.
#[derive(Debug, Clone, Copy, PartialEq, Eq, Structural)]
pub enum Operator {
    Add,
    Sub,
    Mul,
    Div,
    Assign,
}

/// A token. An identifier carries the slot that the symbol table gives its
/// name.
#[derive(Debug, PartialEq, Eq)]
pub enum Token {
    Number(i32),
    Identifier { name: String, index: usize },
    Keyword(Keyword),
    Operator(Operator),
    LParen,
    RParen,
    Semicolon,
    EndOfInput,
}

/// What a [`Token`] is, with the name as a sequence of characters.
pub enum TokenView {
    Number(i32),
    Identifier { name: Seq<char>, index: usize },
    Keyword(Keyword),
    Operator(Operator),
    LParen,
    RParen,
    Semicolon,
    EndOfInput,
}

impl View for Token {
    type V = TokenView;

    open spec fn view(&self) -> TokenView {
        match *self {
            Token::Number(value) => TokenView::Number(value),
            Token::Identifier { name, index } => TokenView::Identifier { name: name@, index },
            Token::Keyword(keyword) => TokenView::Keyword(keyword),
            Token::Operator(operator) => TokenView::Operator(operator),
            Token::LParen => TokenView::LParen,
            Token::RParen => TokenView::RParen,
            Token::Semicolon => TokenView::Semicolon,
            Token::EndOfInput => TokenView::EndOfInput,
        }
    }
}

impl Clone for Token {
    fn clone(&self) -> (copy: Token)
        ensures
            copy@ == self@,
    {
        match self {
            Token::Number(value) => Token::Number(*value),
            Token::Identifier { name, index } => Token::Identifier { name: name.clone(), index: *index },
            Token::Keyword(keyword) => Token::Keyword(*keyword),
            Token::Operator(operator) => Token::Operator(*operator),
            Token::LParen => Token::LParen,
            Token::RParen => Token::RParen,
            Token::Semicolon => Token::Semicolon,
            Token::EndOfInput => Token::EndOfInput,
        }
    }
}

/// The tokens of a sequence, each by its view.
pub open spec fn tokens_view(tokens: Seq<Token>) -> Seq<TokenView> {
    Seq::new(tokens.len(), |i: int| tokens[i]@)
}

/// Why a text has no tokens.
#[derive(Debug, PartialEq, Eq)]
pub enum LexError {
    /// The lexeme `text`, which starts at character `position` of the source,
    /// is no token of the language.
    UnrecognizedToken { text: String, position: usize },
    /// The word `text` is no number, no keyword and no declared name.
    UnknownSymbol { text: String },
}

/// What a [`LexError`] is, with the text as a sequence of characters.
pub enum LexErrorView {
    UnrecognizedToken { text: Seq<char>, position: int },
    UnknownSymbol { text: Seq<char> },
}

impl View for LexError {
    type V = LexErrorView;

    open spec fn view(&self) -> LexErrorView {
        match *self {
            LexError::UnrecognizedToken { text, position } => LexErrorView::UnrecognizedToken {
                text: text@,
                position: position as int,
            },
            LexError::UnknownSymbol { text } => LexErrorView::UnknownSymbol { text: text@ },
        }
    }
}

/// A maximal piece of the source text that is classified as one token, with
/// the position of its first character.
#[derive(Debug, PartialEq, Eq)]
pub struct Lexeme {
    pub text: String,
    pub position: usize,
}

/// What a [`Lexeme`] is, with the text as a sequence of characters.
pub struct LexemeView {
    pub text: Seq<char>,
    pub position: int,
}

impl View for Lexeme {
    type V = LexemeView;

    open spec fn view(&self) -> LexemeView {
        LexemeView { text: self.text@, position: self.position as int }
    }
}

/// The lexemes of a sequence, each by its view.
pub open spec fn lexemes_view(lexemes: Seq<Lexeme>) -> Seq<LexemeView> {
    Seq::new(lexemes.len(), |i: int| lexemes[i]@)
}

/// Where the lexeme that starts at `at` ends. `at` holds a character that is
/// not a space.
pub open spec fn lexeme_end(source: Seq<char>, at: int) -> int {
    if is_word_char(source[at]) {
        word_end(source, at)
    } else if source[at] == '-' && at + 1 < source.len() && is_digit(source[at + 1]) {
        digits_end(source, at + 1)
    } else {
        at + 1
    }
}

/// A lexeme is not empty and ends inside the text.
pub proof fn lemma_lexeme_end(source: Seq<char>, at: int)
    requires
        0 <= at < source.len(),
    ensures
        at < lexeme_end(source, at) <= source.len(),
{
    lemma_word_end(source, at);
    lemma_digits_end(source, at + 1);
}

/// The lexemes that start at `from` or later, from left to right.
pub open spec fn lexemes_from(source: Seq<char>, from: int) -> Seq<LexemeView>
    decreases source.len() - from,
{
    if from < 0 || from >= source.len() {
        Seq::<LexemeView>::empty()
    } else if is_space(source[from]) {
        lexemes_from(source, from + 1)
    } else {
        proof {
            lemma_lexeme_end(source, from);
        }
        seq![
            LexemeView { text: source.subrange(from, lexeme_end(source, from)), position: from },
        ] + lexemes_from(source, lexeme_end(source, from))
    }
}

/// The lexemes of `source`, from left to right.
pub open spec fn lexemes_of(source: Seq<char>) -> Seq<LexemeView> {
    lexemes_from(source, 0)
}

/// Splits `source` into its lexemes.
pub fn lexemes(source: &str) -> (pieces: Vec<Lexeme>)
    ensures
        lexemes_view(pieces@) == lexemes_of(source@),
{
    let chars = chars_of(source);
    let mut pieces: Vec<Lexeme> = Vec::new();
    let mut at: usize = 0;
    while at < chars.len()
        invariant
            chars@ == source@,
            at <= chars.len(),
            lexemes_of(source@) == lexemes_view(pieces@) + lexemes_from(source@, at as int),
        decreases chars.len() - at,
    {
        if char_is_space(chars[at]) {
            at = at + 1;
        } else {
            let end: usize = if char_is_word(chars[at]) {
                find_word_end(&chars, at)
            } else if chars[at] == '-' && chars.len() - at > 1 && char_is_digit(chars[at + 1]) {
                find_digits_end(&chars, at + 1)
            } else {
                at + 1
            };
            proof {
                lemma_lexeme_end(source@, at as int);
            }
            let piece = Lexeme { text: text_between(&chars, at, end), position: at };
            pieces.push(piece);
            at = end;
        }
    }
    pieces
}


/// The value of a decimal digit.
pub open spec fn digit_value(c: char) -> int {
    c as int - '0' as int
}

/// The number that a sequence of decimal digits writes.
pub open spec fn decimal_value(digits: Seq<char>) -> int
    decreases digits.len(),
{
    if digits.len() == 0 {
        0
    } else {
        decimal_value(digits.drop_last()) * 10 + digit_value(digits.last())
    }
}

/// Whether `text` holds decimal digits only.
pub open spec fn all_digits(text: Seq<char>) -> bool {
    forall|i: int| 0 <= i < text.len() ==> is_digit(#[trigger] text[i])
}

/// Whether `text` holds word characters only.
pub open spec fn all_word_chars(text: Seq<char>) -> bool {
    forall|i: int| 0 <= i < text.len() ==> is_word_char(#[trigger] text[i])
}

/// The number that `text` writes, where it has the form of an integer
/// literal: at least one decimal digit, with or without a minus sign before
/// the first.
pub open spec fn literal_value(text: Seq<char>) -> Option<int> {
    if text.len() > 0 && all_digits(text) {
        Some(decimal_value(text))
    } else if text.len() > 1 && text[0] == '-' && all_digits(text.skip(1)) {
        Some(-decimal_value(text.skip(1)))
    } else {
        None
    }
}

/// The value of the number token that `text` is: that of an integer literal
/// that fits 32 bits.
pub open spec fn number_value(text: Seq<char>) -> Option<i32> {
    match literal_value(text) {
        Some(value) => if i32::MIN <= value <= i32::MAX {
            Some(value as i32)
        } else {
            None
        },
        None => None,
    }
}

/// The token that a punctuation character is.
pub open spec fn punctuation(c: char) -> Option<TokenView> {
    if c == '(' {
        Some(TokenView::LParen)
    } else if c == ')' {
        Some(TokenView::RParen)
    } else if c == '+' {
        Some(TokenView::Operator(Operator::Add))
    } else if c == '-' {
        Some(TokenView::Operator(Operator::Sub))
    } else if c == '*' {
        Some(TokenView::Operator(Operator::Mul))
    } else if c == '/' {
        Some(TokenView::Operator(Operator::Div))
    } else if c == '=' {
        Some(TokenView::Operator(Operator::Assign))
    } else if c == ';' {
        Some(TokenView::Semicolon)
    } else {
        None
    }
}

/// Whether `text` is the keyword `var`.
pub open spec fn is_var_keyword(text: Seq<char>) -> bool {
    text.len() == 3 && text[0] == 'v' && text[1] == 'a' && text[2] == 'r'
}

/// The token that the lexeme `text` is, which starts at `position`. The
/// classes are tried in this order: a number, a punctuation character, the
/// keyword, a name. A name must stand in `symbols`. A word of digits that is
/// too large for a number is taken as a name.
pub open spec fn classify(text: Seq<char>, position: int, symbols: Seq<Seq<char>>) -> Result<
    TokenView,
    LexErrorView,
> {
    if number_value(text) is Some {
        Ok(TokenView::Number(number_value(text)->0))
    } else if text.len() == 1 && punctuation(text[0]) is Some {
        Ok(punctuation(text[0])->0)
    } else if is_var_keyword(text) {
        Ok(TokenView::Keyword(Keyword::Var))
    } else if text.len() > 0 && all_word_chars(text) {
        match slot_of(symbols, text) {
            Some(index) => Ok(TokenView::Identifier { name: text, index }),
            None => Err(LexErrorView::UnknownSymbol { text }),
        }
    } else {
        Err(LexErrorView::UnrecognizedToken { text, position })
    }
}

/// The tokens of `lexemes`, in order, or the error of the first lexeme that
/// is no token.
pub open spec fn classify_all(lexemes: Seq<LexemeView>, symbols: Seq<Seq<char>>) -> Result<
    Seq<TokenView>,
    LexErrorView,
>
    decreases lexemes.len(),
{
    if lexemes.len() == 0 {
        Ok(Seq::<TokenView>::empty())
    } else {
        match classify_all(lexemes.drop_last(), symbols) {
            Err(error) => Err(error),
            Ok(tokens) => match classify(lexemes.last().text, lexemes.last().position, symbols) {
                Err(error) => Err(error),
                Ok(token) => Ok(tokens.push(token)),
            },
        }
    }
}

/// The tokens of `lexemes`, in order, and `EndOfInput` behind them, or the
/// error of the first lexeme that is no token.
pub open spec fn tokens_of_lexemes(lexemes: Seq<LexemeView>, symbols: Seq<Seq<char>>) -> Result<
    Seq<TokenView>,
    LexErrorView,
> {
    match classify_all(lexemes, symbols) {
        Ok(tokens) => Ok(tokens.push(TokenView::EndOfInput)),
        Err(error) => Err(error),
    }
}

/// The tokens of `source`: those of its lexemes, then `EndOfInput`.
pub open spec fn tokens_of(source: Seq<char>, symbols: Seq<Seq<char>>) -> Result<
    Seq<TokenView>,
    LexErrorView,
> {
    tokens_of_lexemes(lexemes_of(source), symbols)
}

/// The digits of a number are worth no less than the first of them.
proof fn lemma_decimal_value_grows(digits: Seq<char>, n: int)
    requires
        0 <= n <= digits.len(),
        all_digits(digits),
    ensures
        0 <= decimal_value(digits.take(n)) <= decimal_value(digits),
    decreases digits.len() - n,
{
    if n < digits.len() {
        let next = digits.take(n + 1);
        assert(next.drop_last() =~= digits.take(n));
        lemma_decimal_value_grows(digits, n + 1);
        lemma_decimal_value_positive(digits.take(n));
    } else {
        assert(digits.take(n) =~= digits);
        lemma_decimal_value_positive(digits);
    }
}

/// Digits write no negative number.
proof fn lemma_decimal_value_positive(digits: Seq<char>)
    requires
        all_digits(digits),
    ensures
        0 <= decimal_value(digits),
    decreases digits.len(),
{
    if digits.len() > 0 {
        assert forall|i: int| 0 <= i < digits.drop_last().len() implies is_digit(
            #[trigger] digits.drop_last()[i],
        ) by {}
        lemma_decimal_value_positive(digits.drop_last());
    }
}

/// The value of the number token that `chars` is.
fn parse_number(chars: &Vec<char>) -> (value: Option<i32>)
    ensures
        value == number_value(chars@),
{
    let negative: bool = chars.len() > 1 && chars[0] == '-';
    let start: usize = if negative {
        1
    } else {
        0
    };
    if chars.len() == 0 {
        return None;
    }
    let ghost digits = chars@.skip(start as int);
    let mut magnitude: i64 = 0;
    let mut i: usize = start;
    while i < chars.len()
        invariant
            start <= i <= chars.len(),
            chars.len() > 0,
            negative == (chars.len() > 1 && chars@[0] == '-'),
            start == (if negative { 1usize } else { 0usize }),
            digits == chars@.skip(start as int),
            all_digits(digits.take(i - start)),
            magnitude == decimal_value(digits.take(i - start)),
            0 <= magnitude <= 0x8000_0000,
        decreases chars.len() - i,
    {
        let c = chars[i];
        if !char_is_digit(c) {
            assert(digits[i - start] == c);
            return None;
        }
        let digit: i64 = (c as u32 - '0' as u32) as i64;
        proof {
            let next = digits.take(i + 1 - start);
            assert(next.drop_last() =~= digits.take(i - start));
            assert forall|k: int| 0 <= k < next.len() implies is_digit(#[trigger] next[k]) by {}
        }
        magnitude = magnitude * 10 + digit;
        i = i + 1;
        if magnitude > 0x8000_0000 {
            proof {
                if i < chars.len() && all_digits(digits) {
                    lemma_decimal_value_grows(digits, i - start);
                }
                if start == 0 {
                    assert(digits =~= chars@);
                }
            }
            return None;
        }
    }
    proof {
        assert(digits.take(chars.len() - start) =~= digits);
        if start == 0 {
            assert(digits =~= chars@);
        }
    }
    if negative {
        Some((-magnitude) as i32)
    } else if magnitude <= 0x7FFF_FFFF {
        Some(magnitude as i32)
    } else {
        None
    }
}

/// The token that a punctuation character is.
fn punctuation_token(c: char) -> (token: Option<Token>)
    ensures
        match token {
            Some(t) => punctuation(c) == Some(t@),
            None => punctuation(c) is None,
        },
{
    if c == '(' {
        Some(Token::LParen)
    } else if c == ')' {
        Some(Token::RParen)
    } else if c == '+' {
        Some(Token::Operator(Operator::Add))
    } else if c == '-' {
        Some(Token::Operator(Operator::Sub))
    } else if c == '*' {
        Some(Token::Operator(Operator::Mul))
    } else if c == '/' {
        Some(Token::Operator(Operator::Div))
    } else if c == '=' {
        Some(Token::Operator(Operator::Assign))
    } else if c == ';' {
        Some(Token::Semicolon)
    } else {
        None
    }
}

/// Whether `chars` holds word characters only.
fn holds_word_chars_only(chars: &Vec<char>) -> (all: bool)
    ensures
        all == all_word_chars(chars@),
{
    let mut i: usize = 0;
    while i < chars.len()
        invariant
            i <= chars.len(),
            forall|k: int| 0 <= k < i ==> is_word_char(#[trigger] chars@[k]),
        decreases chars.len() - i,
    {
        if !char_is_word(chars[i]) {
            return false;
        }
        i = i + 1;
    }
    true
}

/// Classifies one lexeme: `text`, which starts at character `position` of
/// the source.
///
/// A lexeme of digits, with or without a minus sign before them, whose
/// value fits 32 bits is a number. One of `( ) + - * / = ;` is that
/// punctuation or operator. `var` is the keyword. Any other word is a name:
/// an identifier with its slot where `symbol_table` holds it, else the error
/// `UnknownSymbol`. Anything else is the error `UnrecognizedToken`.
pub fn create_token(text: &str, position: usize, symbol_table: &SymbolTable) -> (result: Result<
    Token,
    LexError,
>)
    ensures
        match result {
            Ok(token) => classify(text@, position as int, symbol_table@) == Ok::<TokenView, LexErrorView>(
                token@,
            ),
            Err(error) => classify(text@, position as int, symbol_table@) == Err::<
                TokenView,
                LexErrorView,
            >(error@),
        },
{
    let chars = chars_of(text);
    match parse_number(&chars) {
        Some(value) => {
            return Ok(Token::Number(value));
        },
        None => {},
    }
    if chars.len() == 1 {
        match punctuation_token(chars[0]) {
            Some(token) => {
                return Ok(token);
            },
            None => {},
        }
    }
    if chars.len() == 3 && chars[0] == 'v' && chars[1] == 'a' && chars[2] == 'r' {
        return Ok(Token::Keyword(Keyword::Var));
    }
    if chars.len() > 0 && holds_word_chars_only(&chars) {
        match symbol_table.lookup(text) {
            Some(index) => Ok(Token::Identifier { name: String::from_str(text), index }),
            None => Err(LexError::UnknownSymbol { text: String::from_str(text) }),
        }
    } else {
        Err(LexError::UnrecognizedToken { text: String::from_str(text), position })
    }
}

/// Once a lexeme has been found that is no token, further lexemes change
/// nothing.
proof fn lemma_error_stays(lexemes: Seq<LexemeView>, more: Seq<LexemeView>, symbols: Seq<Seq<char>>)
    requires
        classify_all(lexemes, symbols) is Err,
    ensures
        classify_all(lexemes + more, symbols) == classify_all(lexemes, symbols),
    decreases more.len(),
{
    if more.len() > 0 {
        lemma_error_stays(lexemes, more.drop_last(), symbols);
        assert((lexemes + more).drop_last() =~= lexemes + more.drop_last());
    }
}

/// Classifies `pieces` one by one, with the names resolved against
/// `symbols`, and puts `EndOfInput` behind their tokens. Fails with the error
/// of the first piece that is no token.
pub fn tokens_from_lexemes(pieces: &Vec<Lexeme>, symbols: &SymbolTable) -> (result: Result<
    Vec<Token>,
    LexError,
>)
    ensures
        match result {
            Ok(tokens) => tokens_of_lexemes(lexemes_view(pieces@), symbols@) == Ok::<
                Seq<TokenView>,
                LexErrorView,
            >(tokens_view(tokens@)),
            Err(error) => tokens_of_lexemes(lexemes_view(pieces@), symbols@) == Err::<
                Seq<TokenView>,
                LexErrorView,
            >(error@),
        },
{
    let ghost all = lexemes_view(pieces@);
    let mut tokens: Vec<Token> = Vec::new();
    let mut i: usize = 0;
    assert(tokens_view(tokens@) =~= Seq::<TokenView>::empty());
    while i < pieces.len()
        invariant
            i <= pieces.len(),
            all == lexemes_view(pieces@),
            classify_all(all.take(i as int), symbols@) == Ok::<Seq<TokenView>, LexErrorView>(
                tokens_view(tokens@),
            ),
        decreases pieces.len() - i,
    {
        proof {
            let next = all.take(i + 1);
            assert(next.drop_last() =~= all.take(i as int));
        }
        let ghost before = tokens_view(tokens@);
        match create_token(pieces[i].text.as_str(), pieces[i].position, symbols) {
            Ok(token) => {
                tokens.push(token);
                assert(tokens_view(tokens@) =~= before.push(token@));
            },
            Err(error) => {
                proof {
                    lemma_error_stays(all.take(i + 1), all.skip(i + 1), symbols@);
                    assert(all.take(i + 1) + all.skip(i + 1) =~= all);
                }
                return Err(error);
            },
        }
        i = i + 1;
    }
    assert(all.take(pieces.len() as int) =~= all);
    let ghost before = tokens_view(tokens@);
    tokens.push(Token::EndOfInput);
    assert(tokens_view(tokens@) =~= before.push(TokenView::EndOfInput));
    Ok(tokens)
}

/// Turns `source` into tokens, with the names resolved against `symbols`.
///
/// The result holds the token of each lexeme of the text, in order, and
/// `EndOfInput` at its end. Fails with the error of the first lexeme that is
/// no token.
pub fn lex(source: &str, symbols: &SymbolTable) -> (result: Result<Vec<Token>, LexError>)
    ensures
        match result {
            Ok(tokens) => tokens_of(source@, symbols@) == Ok::<Seq<TokenView>, LexErrorView>(
                tokens_view(tokens@),
            ),
            Err(error) => tokens_of(source@, symbols@) == Err::<Seq<TokenView>, LexErrorView>(error@),
        },
{
    let pieces = lexemes(source);
    tokens_from_lexemes(&pieces, symbols)
}

/// A number and a semicolon behind it are two lexemes: the tokens of such a
/// text are the number, the semicolon and `EndOfInput`.
pub proof fn lemma_number_statement_tokens(literal: Seq<char>, value: i32, symbols: Seq<Seq<char>>)
    requires
        number_value(literal) == Some(value),
    ensures
        tokens_of(literal.push(';'), symbols) == Ok::<Seq<TokenView>, LexErrorView>(
            seq![TokenView::Number(value), TokenView::Semicolon, TokenView::EndOfInput],
        ),
{
    let source = literal.push(';');
    let n = literal.len() as int;
    let semicolon = seq![';'];
    assert(source.subrange(0, n) =~= literal);
    assert(source.subrange(n, n + 1) =~= semicolon);
    if all_digits(literal) {
        assert forall|k: int| 0 <= k < n implies is_word_char(#[trigger] source[k]) by {}
        lemma_word_run(source, 0, n);
    } else {
        assert forall|k: int| 1 <= k < n implies is_digit(#[trigger] source[k]) by {
            assert(is_digit(literal.skip(1)[k - 1]));
        }
        lemma_digit_run(source, 1, n);
    }
    let first = LexemeView { text: literal, position: 0 };
    let second = LexemeView { text: semicolon, position: n };
    assert(lexemes_from(source, n + 1) == Seq::<LexemeView>::empty());
    assert(lexemes_of(source) =~= seq![first, second]) by {
        assert(lexemes_from(source, 0) == seq![first] + lexemes_from(source, n));
    }
    let both = seq![first, second];
    assert(both.drop_last() =~= seq![first]);
    assert(classify_all(seq![first], symbols) == Ok::<Seq<TokenView>, LexErrorView>(
        seq![TokenView::Number(value)],
    )) by {
        reveal_with_fuel(classify_all, 2);
    }
    assert(classify_all(both, symbols) == Ok::<Seq<TokenView>, LexErrorView>(
        seq![TokenView::Number(value), TokenView::Semicolon],
    )) by {
        assert(seq![TokenView::Number(value)].push(TokenView::Semicolon) =~= seq![
            TokenView::Number(value),
            TokenView::Semicolon,
        ]);
    }
    assert(seq![TokenView::Number(value), TokenView::Semicolon].push(TokenView::EndOfInput) =~= seq![
        TokenView::Number(value),
        TokenView::Semicolon,
        TokenView::EndOfInput,
    ]);
}


/// The characters of `source` from `from` on that are no spaces, in order.
pub open spec fn visible_from(source: Seq<char>, from: int) -> Seq<char>
    decreases source.len() - from,
{
    if from < 0 || from >= source.len() {
        Seq::<char>::empty()
    } else if is_space(source[from]) {
        visible_from(source, from + 1)
    } else {
        seq![source[from]] + visible_from(source, from + 1)
    }
}

/// The texts of `lexemes`, one behind the other.
pub open spec fn joined(lexemes: Seq<LexemeView>) -> Seq<char>
    decreases lexemes.len(),
{
    if lexemes.len() == 0 {
        Seq::<char>::empty()
    } else {
        lexemes.first().text + joined(lexemes.drop_first())
    }
}

/// Characters without a space among them are all visible.
proof fn lemma_visible_run(source: Seq<char>, from: int, end: int)
    requires
        0 <= from <= end <= source.len(),
        forall|k: int| from <= k < end ==> !is_space(#[trigger] source[k]),
    ensures
        visible_from(source, from) == source.subrange(from, end) + visible_from(source, end),
    decreases end - from,
{
    if from < end {
        lemma_visible_run(source, from + 1, end);
    }
}

/// No lexeme holds a space.
proof fn lemma_lexeme_has_no_space(source: Seq<char>, at: int)
    requires
        0 <= at < source.len(),
        !is_space(source[at]),
    ensures
        forall|k: int| at <= k < lexeme_end(source, at) ==> !is_space(#[trigger] source[k]),
{
    lemma_word_end(source, at);
    lemma_digits_end(source, at + 1);
}

/// The lexemes of a text hold every character of the text that is no space,
/// once and in order, and nothing else: spaces separate lexemes and belong to
/// none.
pub proof fn lemma_lexemes_hold_the_text(source: Seq<char>, from: int)
    requires
        0 <= from,
    ensures
        joined(lexemes_from(source, from)) == visible_from(source, from),
    decreases source.len() - from,
{
    if from < source.len() {
        if is_space(source[from]) {
            lemma_lexemes_hold_the_text(source, from + 1);
        } else {
            let end = lexeme_end(source, from);
            let piece = LexemeView { text: source.subrange(from, end), position: from };
            let rest = lexemes_from(source, end);
            lemma_lexeme_end(source, from);
            lemma_lexeme_has_no_space(source, from);
            lemma_visible_run(source, from, end);
            lemma_lexemes_hold_the_text(source, end);
            assert((seq![piece] + rest).drop_first() =~= rest);
        }
    }
}

/// Every lexeme of a text stands in the text at its position, and is not
/// empty.
pub proof fn lemma_lexemes_stand_in_the_text(source: Seq<char>, from: int, i: int)
    requires
        0 <= from,
        0 <= i < lexemes_from(source, from).len(),
    ensures
        ({
            let piece = lexemes_from(source, from)[i];
            &&& from <= piece.position
            &&& piece.text.len() > 0
            &&& piece.position + piece.text.len() <= source.len()
            &&& piece.text == source.subrange(piece.position, piece.position + piece.text.len())
        }),
    decreases source.len() - from,
{
    if from < source.len() {
        if is_space(source[from]) {
            lemma_lexemes_stand_in_the_text(source, from + 1, i);
        } else {
            lemma_lexeme_end(source, from);
            if i > 0 {
                lemma_lexemes_stand_in_the_text(source, lexeme_end(source, from), i - 1);
            }
        }
    }
}


/// The texts of `lexemes`, in order.
pub open spec fn texts(lexemes: Seq<LexemeView>) -> Seq<Seq<char>> {
    Seq::new(lexemes.len(), |i: int| lexemes[i].text)
}

/// `source` with the character `space` put in before position `at`.
pub open spec fn with_space_at(source: Seq<char>, at: int, space: char) -> Seq<char> {
    source.take(at) + seq![space] + source.skip(at)
}

/// Whether `at` is a place between lexemes for a reader that stands at
/// `from`: the reader, going on lexeme by lexeme and space by space, comes to
/// stand at `at`. The start and the end of a text are such places, and so is
/// every place where a lexeme starts or ends.
pub open spec fn stands_between(source: Seq<char>, from: int, at: int) -> bool
    decreases source.len() - from,
{
    if from == at {
        true
    } else if from < 0 || from >= source.len() || from > at {
        false
    } else if is_space(source[from]) {
        stands_between(source, from + 1, at)
    } else {
        proof {
            lemma_lexeme_end(source, from);
        }
        stands_between(source, lexeme_end(source, from), at)
    }
}

/// The texts of a lexeme and of those behind it are its text and their
/// texts.
proof fn lemma_texts_behind(piece: LexemeView, others: Seq<LexemeView>)
    ensures
        texts(seq![piece] + others) == seq![piece.text] + texts(others),
{
    let all = seq![piece] + others;
    assert forall|i: int| 0 <= i < all.len() implies #[trigger] texts(all)[i] == (seq![piece.text]
        + texts(others))[i] by {
    }
}

/// Where two texts hold the same characters from one place each on, the
/// lexemes from there on have the same ends, counted from those places.
proof fn lemma_same_lexeme_end(first: Seq<char>, at: int, second: Seq<char>, shift: int)
    requires
        0 <= at < first.len(),
        0 <= at + shift,
        second.len() == first.len() + shift,
        forall|k: int| at <= k < first.len() ==> second[k + shift] == #[trigger] first[k],
    ensures
        lexeme_end(second, at + shift) == lexeme_end(first, at) + shift,
{
    lemma_word_end(first, at);
    lemma_digits_end(first, at + 1);
    if is_word_char(first[at]) {
        let end = word_end(first, at);
        assert forall|k: int| at + shift <= k < end + shift implies is_word_char(#[trigger] second[k]) by {
            assert(second[(k - shift) + shift] == first[k - shift]);
        }
        lemma_word_run(second, at + shift, end + shift);
    } else if first[at] == '-' && at + 1 < first.len() && is_digit(first[at + 1]) {
        let end = digits_end(first, at + 1);
        assert forall|k: int| at + 1 + shift <= k < end + shift implies is_digit(#[trigger] second[k]) by {
            assert(second[(k - shift) + shift] == first[k - shift]);
        }
        lemma_digit_run(second, at + 1 + shift, end + shift);
    }
}

/// Where two texts hold the same characters from one place each on, they
/// have the same lexemes from there on, but for the positions.
proof fn lemma_same_lexemes(first: Seq<char>, at: int, second: Seq<char>, shift: int)
    requires
        0 <= at,
        0 <= at + shift,
        second.len() == first.len() + shift,
        forall|k: int| at <= k < first.len() ==> second[k + shift] == #[trigger] first[k],
    ensures
        texts(lexemes_from(second, at + shift)) == texts(lexemes_from(first, at)),
    decreases first.len() - at,
{
    if at < first.len() {
        if is_space(first[at]) {
            lemma_same_lexemes(first, at + 1, second, shift);
        } else {
            let end = lexeme_end(first, at);
            lemma_lexeme_end(first, at);
            lemma_same_lexeme_end(first, at, second, shift);
            lemma_same_lexemes(first, end, second, shift);
            let piece = LexemeView { text: first.subrange(at, end), position: at };
            let other = LexemeView {
                text: second.subrange(at + shift, end + shift),
                position: at + shift,
            };
            assert(other.text =~= piece.text);
            lemma_texts_behind(other, lexemes_from(second, end + shift));
            lemma_texts_behind(piece, lexemes_from(first, end));
        }
    }
}

/// A space that is put in between lexemes, or at either end of a text,
/// changes no lexeme but for its position.
pub proof fn lemma_space_between_lexemes(source: Seq<char>, from: int, at: int, space: char)
    requires
        0 <= from,
        0 <= at <= source.len(),
        is_space(space),
        stands_between(source, from, at),
    ensures
        texts(lexemes_from(with_space_at(source, at, space), from)) == texts(lexemes_from(source, from)),
    decreases source.len() - from,
{
    let spaced = with_space_at(source, at, space);
    if from == at {
        assert forall|k: int| at <= k < source.len() implies spaced[k + 1] == #[trigger] source[k] by {}
        lemma_same_lexemes(source, at, spaced, 1);
    } else if is_space(source[from]) {
        lemma_space_between_lexemes(source, from + 1, at, space);
    } else {
        let end = lexeme_end(source, from);
        lemma_lexeme_end(source, from);
        lemma_stands_behind(source, end, at);
        lemma_word_end(source, from);
        lemma_digits_end(source, from + 1);
        assert forall|k: int| from <= k < end implies spaced[k] == #[trigger] source[k] by {}
        if is_word_char(source[from]) {
            lemma_word_run(spaced, from, end);
        } else if source[from] == '-' && from + 1 < source.len() && is_digit(source[from + 1]) {
            lemma_digit_run(spaced, from + 1, end);
        }
        assert(spaced.subrange(from, end) =~= source.subrange(from, end));
        lemma_space_between_lexemes(source, end, at, space);
        let piece = LexemeView { text: source.subrange(from, end), position: from };
        lemma_texts_behind(piece, lexemes_from(spaced, end));
        lemma_texts_behind(piece, lexemes_from(source, end));
    }
}

/// A place between lexemes does not lie before the reader.
proof fn lemma_stands_behind(source: Seq<char>, from: int, at: int)
    requires
        stands_between(source, from, at),
    ensures
        from <= at,
{
}

/// Lexemes with the same texts have the same tokens; where one of them is no
/// token, the other is none either.
pub proof fn lemma_tokens_follow_texts(first: Seq<LexemeView>, second: Seq<LexemeView>, symbols: Seq<Seq<char>>)
    requires
        texts(first) == texts(second),
    ensures
        classify_all(first, symbols) matches Ok(tokens) ==> classify_all(second, symbols) == Ok::<
            Seq<TokenView>,
            LexErrorView,
        >(tokens),
        classify_all(first, symbols) is Err ==> classify_all(second, symbols) is Err,
    decreases first.len(),
{
    assert(second.len() == texts(second).len());
    if first.len() > 0 {
        assert(texts(first.drop_last()) =~= texts(second.drop_last())) by {
            assert forall|i: int| 0 <= i < first.len() - 1 implies first.drop_last()[i].text
                == second.drop_last()[i].text by {
                assert(texts(first)[i] == texts(second)[i]);
            }
        }
        assert(first.last().text == second.last().text) by {
            assert(texts(first)[first.len() - 1] == texts(second)[first.len() - 1]);
        }
        lemma_tokens_follow_texts(first.drop_last(), second.drop_last(), symbols);
    }
}

/// White space that is added between lexemes, or at either end of a text,
/// leaves the tokens of the text as they are; a text that has no tokens has
/// none with the space either.
pub proof fn lemma_added_space_keeps_tokens(source: Seq<char>, at: int, space: char, symbols: Seq<Seq<char>>)
    requires
        0 <= at <= source.len(),
        is_space(space),
        stands_between(source, 0, at),
    ensures
        tokens_of(source, symbols) is Ok ==> tokens_of(with_space_at(source, at, space), symbols)
            == tokens_of(source, symbols),
        tokens_of(source, symbols) is Err ==> tokens_of(with_space_at(source, at, space), symbols)
            is Err,
{
    lemma_space_between_lexemes(source, 0, at, space);
    lemma_tokens_follow_texts(
        lexemes_of(source),
        lexemes_of(with_space_at(source, at, space)),
        symbols,
    );
}

} // verus!
