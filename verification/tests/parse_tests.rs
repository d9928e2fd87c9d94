use blohai::ast::{BinaryOperator, Expression, Statement};
use blohai::lex::{lex, Keyword, Operator, Token};
use blohai::parse::{evaluate_expression, parse, ParseError, TokenStream};
use blohai::symbols::create_symbol_table;

fn tokens_of(source: &str) -> Vec<Token> {
    let symbols = create_symbol_table(source).unwrap();
    lex(source, &symbols).unwrap()
}

fn number(value: i32) -> Expression {
    Expression::NumberLiteral { value }
}

fn variable(index: usize) -> Expression {
    Expression::VariableRef { index }
}

fn binary(operator: BinaryOperator, lhs: Expression, rhs: Expression) -> Expression {
    Expression::BinaryOp { operator, lhs: Box::new(lhs), rhs: Box::new(rhs) }
}

fn expression_statement(expr: Expression) -> Statement {
    Statement::ExpressionStatement { expr }
}

fn unexpected(found: Token, wanted: &str) -> ParseError {
    ParseError::UnexpectedToken { found, expected_description: String::from(wanted) }
}

#[test]
fn no_tokens_are_an_empty_program() {
    assert_eq!(parse(vec![]), Ok(vec![]));
    assert_eq!(parse(vec![Token::EndOfInput]), Ok(vec![]));
}

#[test]
fn number_statement_is_parsed() {
    assert_eq!(parse(tokens_of("42;")), Ok(vec![expression_statement(number(42))]));
}

#[test]
fn missing_end_token_is_supplied() {
    assert_eq!(
        parse(vec![Token::Number(1), Token::Semicolon]),
        Ok(vec![expression_statement(number(1))])
    );
}

#[test]
fn tokens_behind_the_end_token_are_not_read() {
    assert_eq!(
        parse(vec![Token::Number(1), Token::Semicolon, Token::EndOfInput, Token::RParen]),
        Ok(vec![expression_statement(number(1))])
    );
}

#[test]
fn parenthesised_sum_is_a_binary_operation() {
    assert_eq!(
        parse(tokens_of("(3 + 4);")),
        Ok(vec![expression_statement(binary(BinaryOperator::Add, number(3), number(4)))])
    );
}

#[test]
fn nested_parentheses_nest_the_tree() {
    assert_eq!(
        parse(tokens_of("(3 * (4 - 1));")),
        Ok(vec![expression_statement(binary(
            BinaryOperator::Mul,
            number(3),
            binary(BinaryOperator::Sub, number(4), number(1)),
        ))])
    );
}

#[test]
fn multiplication_binds_tighter_than_addition() {
    assert_eq!(
        parse(tokens_of("1 + 2 * 3;")),
        Ok(vec![expression_statement(binary(
            BinaryOperator::Add,
            number(1),
            binary(BinaryOperator::Mul, number(2), number(3)),
        ))])
    );
    assert_eq!(
        parse(tokens_of("1 * 2 + 3;")),
        Ok(vec![expression_statement(binary(
            BinaryOperator::Add,
            binary(BinaryOperator::Mul, number(1), number(2)),
            number(3),
        ))])
    );
    assert_eq!(
        parse(tokens_of("8 - 6 / 2;")),
        Ok(vec![expression_statement(binary(
            BinaryOperator::Sub,
            number(8),
            binary(BinaryOperator::Div, number(6), number(2)),
        ))])
    );
}

#[test]
fn operators_of_one_level_group_to_the_left() {
    assert_eq!(
        parse(tokens_of("10 - 4 - 3;")),
        Ok(vec![expression_statement(binary(
            BinaryOperator::Sub,
            binary(BinaryOperator::Sub, number(10), number(4)),
            number(3),
        ))])
    );
    assert_eq!(
        parse(tokens_of("100 / 10 * 5 / 2;")),
        Ok(vec![expression_statement(binary(
            BinaryOperator::Div,
            binary(
                BinaryOperator::Mul,
                binary(BinaryOperator::Div, number(100), number(10)),
                number(5),
            ),
            number(2),
        ))])
    );
}

#[test]
fn parentheses_override_the_levels() {
    assert_eq!(
        parse(tokens_of("(1 + 2) * 3;")),
        Ok(vec![expression_statement(binary(
            BinaryOperator::Mul,
            binary(BinaryOperator::Add, number(1), number(2)),
            number(3),
        ))])
    );
    assert_eq!(parse(tokens_of("((7));")), Ok(vec![expression_statement(number(7))]));
}

#[test]
fn declaration_without_initialiser_starts_at_zero() {
    assert_eq!(
        parse(tokens_of("var x;")),
        Ok(vec![Statement::DeclareVariable {
            index: 0,
            name: String::from("x"),
            initial_value: number(0),
        }])
    );
}

#[test]
fn declaration_with_initialiser_holds_its_expression() {
    assert_eq!(
        parse(tokens_of("var x = 2; var y = x * 3 + 1;")),
        Ok(vec![
            Statement::DeclareVariable {
                index: 0,
                name: String::from("x"),
                initial_value: number(2),
            },
            Statement::DeclareVariable {
                index: 1,
                name: String::from("y"),
                initial_value: binary(
                    BinaryOperator::Add,
                    binary(BinaryOperator::Mul, variable(0), number(3)),
                    number(1),
                ),
            },
        ])
    );
}

#[test]
fn statements_keep_their_order() {
    assert_eq!(
        parse(tokens_of("var a; 1; var b; (b + a);")),
        Ok(vec![
            Statement::DeclareVariable { index: 0, name: String::from("a"), initial_value: number(0) },
            expression_statement(number(1)),
            Statement::DeclareVariable { index: 1, name: String::from("b"), initial_value: number(0) },
            expression_statement(binary(BinaryOperator::Add, variable(1), variable(0))),
        ])
    );
}

#[test]
fn missing_operand_is_an_unexpected_token() {
    assert_eq!(parse(tokens_of("(3 + ;")), Err(unexpected(Token::Semicolon, "an expression")));
}

#[test]
fn statement_cannot_start_with_an_operator() {
    assert_eq!(
        parse(tokens_of("* 3;")),
        Err(unexpected(Token::Operator(Operator::Mul), "an expression"))
    );
    assert_eq!(parse(tokens_of(";")), Err(unexpected(Token::Semicolon, "an expression")));
    assert_eq!(parse(tokens_of(")")), Err(unexpected(Token::RParen, "an expression")));
}

#[test]
fn unmatched_parenthesis_is_the_end_of_input() {
    assert_eq!(parse(tokens_of("(3 + 4")), Err(ParseError::UnexpectedEndOfInput));
    assert_eq!(parse(tokens_of("(")), Err(ParseError::UnexpectedEndOfInput));
    assert_eq!(parse(tokens_of("((1)")), Err(ParseError::UnexpectedEndOfInput));
}

#[test]
fn missing_semicolon_at_the_end_is_the_end_of_input() {
    assert_eq!(parse(tokens_of("3")), Err(ParseError::UnexpectedEndOfInput));
    assert_eq!(parse(tokens_of("1; 2 + 3")), Err(ParseError::UnexpectedEndOfInput));
    assert_eq!(parse(tokens_of("var x")), Err(ParseError::UnexpectedEndOfInput));
    assert_eq!(parse(tokens_of("var")), Err(ParseError::UnexpectedEndOfInput));
    assert_eq!(parse(tokens_of("var x = ")), Err(ParseError::UnexpectedEndOfInput));
    assert_eq!(parse(tokens_of("1 + ")), Err(ParseError::UnexpectedEndOfInput));
}

#[test]
fn wrong_closing_token_is_reported() {
    assert_eq!(parse(tokens_of("(3 ;")), Err(unexpected(Token::Semicolon, "')'")));
    assert_eq!(parse(tokens_of("(3 4)")), Err(unexpected(Token::Number(4), "')'")));
}

#[test]
fn two_operands_in_a_row_want_a_semicolon() {
    assert_eq!(parse(tokens_of("3 4;")), Err(unexpected(Token::Number(4), "';'")));
    assert_eq!(parse(tokens_of("4 -1;")), Err(unexpected(Token::Number(-1), "';'")));
    assert_eq!(parse(tokens_of("1 + 2 )")), Err(unexpected(Token::RParen, "';'")));
}

#[test]
fn declaration_wants_a_name_then_an_initialiser_or_the_end() {
    assert_eq!(parse(tokens_of("var 5;")), Err(unexpected(Token::Number(5), "an identifier")));
    assert_eq!(
        parse(vec![Token::Keyword(Keyword::Var), Token::Keyword(Keyword::Var), Token::Semicolon]),
        Err(unexpected(Token::Keyword(Keyword::Var), "an identifier"))
    );
    assert_eq!(
        parse(tokens_of("var x + 1;")),
        Err(unexpected(Token::Operator(Operator::Add), "'=' or ';'"))
    );
    assert_eq!(parse(tokens_of("var x = ;")), Err(unexpected(Token::Semicolon, "an expression")));
    assert_eq!(parse(tokens_of("var x = 1 )")), Err(unexpected(Token::RParen, "';'")));
}

#[test]
fn keyword_and_assignment_are_no_operands() {
    assert_eq!(
        parse(tokens_of("1 + var;")),
        Err(unexpected(Token::Keyword(Keyword::Var), "an expression"))
    );
    assert_eq!(parse(tokens_of("1 = 2;")), Err(unexpected(Token::Operator(Operator::Assign), "';'")));
}

#[test]
fn first_error_is_reported() {
    assert_eq!(parse(tokens_of("1; ); (")), Err(unexpected(Token::RParen, "an expression")));
}

#[test]
fn stream_peeks_without_reading() {
    let stream = TokenStream::new(vec![Token::Number(1), Token::Semicolon]);
    assert_eq!(stream.position(), 0);
    assert_eq!(stream.peek(), Some(&Token::Number(1)));
    assert_eq!(stream.peek(), Some(&Token::Number(1)));
    assert_eq!(stream.position(), 0);
}

#[test]
fn stream_reads_token_by_token() {
    let mut stream = TokenStream::new(vec![Token::Number(1), Token::Semicolon]);
    assert_eq!(stream.next(), Some(Token::Number(1)));
    assert_eq!(stream.position(), 1);
    assert_eq!(stream.peek(), Some(&Token::Semicolon));
    assert_eq!(stream.next(), Some(Token::Semicolon));
    assert_eq!(stream.position(), 2);
}

#[test]
fn stream_stays_at_its_end() {
    let mut stream = TokenStream::new(vec![Token::LParen]);
    assert_eq!(stream.next(), Some(Token::LParen));
    assert_eq!(stream.peek(), None);
    assert_eq!(stream.next(), None);
    assert_eq!(stream.next(), None);
    assert_eq!(stream.position(), 1);
    let mut empty = TokenStream::new(vec![]);
    assert_eq!(empty.peek(), None);
    assert_eq!(empty.next(), None);
    assert_eq!(empty.position(), 0);
}

#[test]
fn expression_is_read_up_to_its_end() {
    let mut stream = TokenStream::new(tokens_of("1 + 2 * 3; 4;"));
    assert_eq!(
        evaluate_expression(&mut stream),
        Ok(binary(BinaryOperator::Add, number(1), binary(BinaryOperator::Mul, number(2), number(3))))
    );
    assert_eq!(stream.position(), 5);
    assert_eq!(stream.peek(), Some(&Token::Semicolon));
}

#[test]
fn expression_can_start_inside_the_stream() {
    let mut stream = TokenStream::new(tokens_of("1 + 2 * 3;"));
    let _ = stream.next();
    let _ = stream.next();
    assert_eq!(
        evaluate_expression(&mut stream),
        Ok(binary(BinaryOperator::Mul, number(2), number(3)))
    );
    assert_eq!(stream.position(), 5);
}

#[test]
fn failed_expression_leaves_the_cursor_at_the_bad_token() {
    let mut stream = TokenStream::new(tokens_of("(3 + ;"));
    assert_eq!(evaluate_expression(&mut stream), Err(unexpected(Token::Semicolon, "an expression")));
    assert_eq!(stream.position(), 3);
    let mut open = TokenStream::new(tokens_of("(3 + 4"));
    assert_eq!(evaluate_expression(&mut open), Err(ParseError::UnexpectedEndOfInput));
    assert_eq!(open.position(), 4);
    let mut used_up = TokenStream::new(vec![Token::Number(1), Token::Operator(Operator::Add)]);
    assert_eq!(evaluate_expression(&mut used_up), Err(ParseError::UnexpectedEndOfInput));
    assert_eq!(used_up.position(), 2);
}

#[test]
fn variables_are_read_by_their_slot() {
    let mut stream = TokenStream::new(tokens_of("var a; var b; b - a;"));
    for _ in 0..6 {
        let _ = stream.next();
    }
    assert_eq!(
        evaluate_expression(&mut stream),
        Ok(binary(BinaryOperator::Sub, variable(1), variable(0)))
    );
}

/// The tokens that write `expr` with every operation in parentheses.
fn written(expr: &Expression, tokens: &mut Vec<Token>) {
    match expr {
        Expression::NumberLiteral { value } => tokens.push(Token::Number(*value)),
        Expression::VariableRef { index } => {
            tokens.push(Token::Identifier { name: format!("v{}", index), index: *index })
        }
        Expression::BinaryOp { operator, lhs, rhs } => {
            tokens.push(Token::LParen);
            written(lhs, tokens);
            tokens.push(Token::Operator(match operator {
                BinaryOperator::Add => Operator::Add,
                BinaryOperator::Sub => Operator::Sub,
                BinaryOperator::Mul => Operator::Mul,
                BinaryOperator::Div => Operator::Div,
            }));
            written(rhs, tokens);
            tokens.push(Token::RParen);
        }
    }
}

#[test]
fn written_expression_is_read_back() {
    let build = || {
        binary(
            BinaryOperator::Sub,
            binary(
                BinaryOperator::Div,
                number(-8),
                binary(BinaryOperator::Add, variable(2), number(1)),
            ),
            binary(BinaryOperator::Mul, binary(BinaryOperator::Sub, number(1), number(2)), variable(0)),
        )
    };
    let mut tokens = Vec::new();
    written(&build(), &mut tokens);
    tokens.push(Token::Semicolon);
    tokens.push(Token::EndOfInput);
    assert_eq!(parse(tokens), Ok(vec![expression_statement(build())]));
}

/// The literals and variables of `expr` from left to right.
fn leaves(expr: &Expression, found: &mut Vec<Expression>) {
    match expr {
        Expression::NumberLiteral { value } => found.push(number(*value)),
        Expression::VariableRef { index } => found.push(variable(*index)),
        Expression::BinaryOp { lhs, rhs, .. } => {
            leaves(lhs, found);
            leaves(rhs, found);
        }
    }
}

#[test]
fn added_parentheses_leave_the_tree_as_it_is() {
    let plain = parse(tokens_of("1 + 2 * 3 - 4 / 5;"));
    assert!(plain.is_ok());
    for grouped in [
        "(1 + 2 * 3 - 4 / 5);",
        "((1 + 2 * 3 - 4 / 5));",
        "(1) + 2 * 3 - 4 / 5;",
        "1 + (2) * 3 - 4 / 5;",
        "1 + 2 * (3) - 4 / 5;",
        "1 + 2 * 3 - (4) / 5;",
        "1 + 2 * 3 - 4 / (5);",
        "1 + (2 * 3) - (4 / 5);",
        "(1 + 2 * 3) - 4 / 5;",
        "((1) + ((2) * (3))) - ((4) / (5));",
    ] {
        assert_eq!(parse(tokens_of(grouped)), plain, "for {:?}", grouped);
    }
    let nested = parse(tokens_of("2 * (3 + 4);"));
    assert_eq!(parse(tokens_of("2 * ((3 + 4));")), nested);
    assert_eq!(parse(tokens_of("(2) * ((3) + (4));")), nested);
    assert_ne!(parse(tokens_of("2 * 3 + 4;")), nested);
}

#[test]
fn leaves_are_the_operands_in_their_order() {
    let source = "var a; var b; (7 - a) * ((b)) / 2 + a - (1 + (2 * 3));";
    let program = parse(tokens_of(source)).unwrap();
    let mut found = Vec::new();
    match &program[2] {
        Statement::ExpressionStatement { expr } => leaves(expr, &mut found),
        Statement::DeclareVariable { .. } => panic!("not an expression statement"),
    }
    assert_eq!(found, vec![
        number(7),
        variable(0),
        variable(1),
        number(2),
        variable(0),
        number(1),
        number(2),
        number(3),
    ]);
}
