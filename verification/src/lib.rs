//! A compiler from a small expression language to a binary stack-machine
//! module.
//!
//! A source text holds variable declarations and arithmetic expressions over
//! 32-bit integers. It is compiled in four steps, each a function of its
//! input alone: the symbol table is built from the raw text, the text is
//! turned into tokens, the tokens are parsed into a program, and the program
//! is turned into the bytes of a module.

pub mod ast;
pub mod codegen;
pub mod decode;
pub mod grouping;
pub mod instruction;
pub mod leb128;
pub mod lex;
pub mod parse;
pub mod semantics;
pub mod symbols;
pub mod text;

use vstd::prelude::*;
use vstd::string::StringSliceAdditionalSpecFns;
use crate::ast::{Expression, StatementView};
use crate::codegen::{
    code_payload, create_program, declared_slots, default_entry_name, encode_sections,
    first_undeclared, generate, lemma_closed_reads_declared, lemma_default_entry_name,
    lemma_generate_succeeds, lemma_number_program_has_module, module_header, result_count,
    undeclared_from, CodeGenError, SectionView, DEFAULT_ENTRY_NAME,
};
use crate::decode::{lemma_module_computes_program, run_module};
use crate::leb128::lemma_unsigned_length;
use crate::lex::{
    all_digits, lemma_number_statement_tokens, lex, number_value, tokens_of, LexError, LexErrorView,
};
use crate::parse::{lemma_number_statement_program, parse, program_of, ParseError, ParseErrorView};
use crate::semantics::{
    lemma_expression_program_value, outcome_of, program_value, value_of, Outcome,
};
use crate::symbols::{
    create_symbol_table, declaration_at, lemma_no_declaration_site, symbol_table_of,
    DuplicateDeclarationError,
};
use crate::text::is_digit;

verus! {

/// Why a source text has no module: the error of the first step that failed.
#[derive(Debug, PartialEq, Eq)]
pub enum CompileError {
    DuplicateDeclaration(DuplicateDeclarationError),
    Lex(LexError),
    Parse(ParseError),
    CodeGen(CodeGenError),
}

/// What a [`CompileError`] is, with texts as sequences of characters.
pub enum CompileErrorView {
    DuplicateDeclaration(Seq<char>),
    Lex(LexErrorView),
    Parse(ParseErrorView),
    CodeGen(CodeGenError),
}

impl View for CompileError {
    type V = CompileErrorView;

    open spec fn view(&self) -> CompileErrorView {
        match *self {
            CompileError::DuplicateDeclaration(error) => CompileErrorView::DuplicateDeclaration(error@),
            CompileError::Lex(error) => CompileErrorView::Lex(error@),
            CompileError::Parse(error) => CompileErrorView::Parse(error@),
            CompileError::CodeGen(error) => CompileErrorView::CodeGen(error),
        }
    }
}

/// The module of `source` under the default entry name.
pub open spec fn compiled(source: Seq<char>) -> Result<Seq<u8>, CompileErrorView> {
    compiled_with_entry(source, default_entry_name())
}

/// The module of `source`, which exports its function under the name
/// `entry`, or the error of the first step that fails: the symbol table, the
/// tokens, the program, the module.
pub open spec fn compiled_with_entry(source: Seq<char>, entry: Seq<u8>) -> Result<
    Seq<u8>,
    CompileErrorView,
> {
    match symbol_table_of(source) {
        Err(name) => Err(CompileErrorView::DuplicateDeclaration(name)),
        Ok(symbols) => match tokens_of(source, symbols) {
            Err(error) => Err(CompileErrorView::Lex(error)),
            Ok(tokens) => match program_of(tokens) {
                Err(error) => Err(CompileErrorView::Parse(error)),
                Ok(program) => match generate(program, entry) {
                    Err(error) => Err(CompileErrorView::CodeGen(error)),
                    Ok(bytes) => Ok(bytes),
                },
            },
        },
    }
}

/// What a result of `compile` is, with bytes and texts as sequences.
pub open spec fn compile_view(result: Result<Vec<u8>, CompileError>) -> Result<Seq<u8>, CompileErrorView> {
    match result {
        Ok(bytes) => Ok(bytes@),
        Err(error) => Err(error@),
    }
}

/// Compiles `source` into the bytes of a module that exports its function
/// under the default entry name.
///
/// The module is complete: it can be handed to a runtime or written out as
/// it is. Nothing is produced for a text with an error: the result is then
/// the error of the first step that failed.
pub fn compile(source: &str) -> (result: Result<Vec<u8>, CompileError>)
    ensures
        compile_view(result) == compiled(source@),
{
    proof {
        lemma_default_entry_name();
    }
    compile_with_entry(source, DEFAULT_ENTRY_NAME)
}

/// Compiles `source` into the bytes of a module that exports its function
/// under `entry_name`.
pub fn compile_with_entry(source: &str, entry_name: &str) -> (result: Result<Vec<u8>, CompileError>)
    ensures
        compile_view(result) == compiled_with_entry(source@, entry_name.spec_bytes()),
{
    let symbols = match create_symbol_table(source) {
        Ok(symbols) => symbols,
        Err(error) => {
            return Err(CompileError::DuplicateDeclaration(error));
        },
    };
    let tokens = match lex(source, &symbols) {
        Ok(tokens) => tokens,
        Err(error) => {
            return Err(CompileError::Lex(error));
        },
    };
    let program = match parse(tokens) {
        Ok(program) => program,
        Err(error) => {
            return Err(CompileError::Parse(error));
        },
    };
    match create_program(&program, entry_name) {
        Ok(bytes) => Ok(bytes),
        Err(error) => Err(CompileError::CodeGen(error)),
    }
}

/// The result of compiling depends on the text alone: two results for one
/// text hold the same bytes, or the same error.
pub proof fn lemma_compile_is_repeatable(
    source: Seq<char>,
    first: Result<Vec<u8>, CompileError>,
    second: Result<Vec<u8>, CompileError>,
)
    requires
        compile_view(first) == compiled(source),
        compile_view(second) == compiled(source),
    ensures
        compile_view(first) == compile_view(second),
        first matches Ok(bytes) ==> second is Ok && second->Ok_0@ == bytes@,
{
}

/// The program that `source` is, where its symbol table, its tokens and its
/// program are found without error.
pub open spec fn program_of_text(source: Seq<char>) -> Option<Seq<StatementView>> {
    match symbol_table_of(source) {
        Err(_) => None,
        Ok(symbols) => match tokens_of(source, symbols) {
            Err(_) => None,
            Ok(tokens) => match program_of(tokens) {
                Err(_) => None,
                Ok(program) => Some(program),
            },
        },
    }
}

/// The module of a text computes the text's program: where a text compiles,
/// its module returns the value of its program, and traps where there is
/// none. The module of a text without statements is the header alone.
pub proof fn lemma_module_computes_text(source: Seq<char>, entry: Seq<u8>)
    requires
        compiled_with_entry(source, entry) is Ok,
    ensures
        program_of_text(source) is Some,
        ({
            let program = program_of_text(source)->0;
            let bytes = compiled_with_entry(source, entry)->Ok_0;
            if program.len() == 0 {
                bytes == module_header()
            } else {
                run_module(bytes, entry) == Some(outcome_of(program_value(program)))
            }
        }),
{
    let program = program_of_text(source)->0;
    if program.len() > 0 {
        lemma_module_computes_program(program, entry);
    }
}

/// A text that is one expression of literals and operators compiles, unless
/// it is too long for the sizes of a module, to a module that returns the
/// value that the expression has when it is evaluated directly; the module
/// traps where the expression has no value.
pub proof fn lemma_expression_text_compiles(source: Seq<char>, expr: Expression)
    requires
        program_of_text(source) == Some(seq![StatementView::ExpressionStatement { expr }]),
        expr.is_closed(),
    ensures
        compiled(source) matches Ok(bytes) ==> run_module(bytes, default_entry_name()) == Some(
            outcome_of(value_of(expr, Seq::<i32>::empty())),
        ),
        compiled(source) matches Err(error) ==> error == CompileErrorView::CodeGen(
            CodeGenError::UnsupportedConstruct,
        ) && code_payload(seq![StatementView::ExpressionStatement { expr }]).len() > u32::MAX,
{
    let program = seq![StatementView::ExpressionStatement { expr }];
    lemma_generate_succeeds(program, default_entry_name());
    lemma_unsigned_length(6);
    lemma_closed_reads_declared(expr, Seq::<usize>::empty());
    lemma_expression_program_value(expr);
    assert(declared_slots(program) =~= Seq::<usize>::empty()) by {
        reveal_with_fuel(declared_slots, 2);
    }
    assert(first_undeclared(program) is None) by {
        reveal_with_fuel(undeclared_from, 2);
    }
    assert(result_count(program) == 1) by {
        reveal_with_fuel(result_count, 2);
    }
    if generate(program, default_entry_name()) is Ok {
        lemma_module_computes_program(program, default_entry_name());
    }
}

/// The program of a text that is one number and a semicolon.
pub open spec fn number_program(value: i32) -> Seq<StatementView> {
    seq![StatementView::ExpressionStatement { expr: Expression::NumberLiteral { value } }]
}

/// A text that is a number of the language and a semicolon behind it
/// compiles, and its module returns the number.
pub proof fn lemma_number_literal_compiles(literal: Seq<char>, value: i32)
    requires
        number_value(literal) == Some(value),
    ensures
        compiled(literal.push(';')) is Ok,
        compiled(literal.push(';'))->Ok_0 == generate(number_program(value), default_entry_name())->Ok_0,
        run_module(compiled(literal.push(';'))->Ok_0, default_entry_name()) == Some(
            Outcome::Returned(value),
        ),
{
    let source = literal.push(';');
    assert forall|at: int| !declaration_at(source, at) by {
        if 0 < at < literal.len() && !all_digits(literal) {
            assert(is_digit(literal.skip(1)[at - 1]));
        }
    }
    lemma_no_declaration_site(source, 0);
    lemma_number_statement_tokens(literal, value, Seq::<Seq<char>>::empty());
    lemma_number_statement_program(value);
    lemma_number_program_has_module(value);
    lemma_expression_program_value(Expression::NumberLiteral { value });
    lemma_module_computes_program(number_program(value), default_entry_name());
}

} // verus!
