use blohai::ast::{BinaryOperator, Expression, Statement};
use blohai::codegen::function_instructions;
use blohai::instruction::Instruction;
use blohai::lex::lex;
use blohai::parse::parse;
use blohai::semantics::{evaluate, execute, Execution};
use blohai::symbols::create_symbol_table;

fn program_of(source: &str) -> Vec<Statement> {
    let symbols = create_symbol_table(source).unwrap();
    parse(lex(source, &symbols).unwrap()).unwrap()
}

/// The value of the one expression statement that `source` is, evaluated
/// directly, after a check that running the code gives the same.
fn value_of(source: &str) -> Option<i32> {
    let program = program_of(source);
    assert_eq!(program.len(), 1);
    let direct = match &program[0] {
        Statement::ExpressionStatement { expr } => evaluate(expr, &vec![]),
        Statement::DeclareVariable { .. } => panic!("not an expression statement"),
    };
    let run = execute(&function_instructions(&program), 0);
    match direct {
        Some(value) => assert_eq!(run, Execution::Returned(value)),
        None => assert_eq!(run, Execution::Trapped),
    }
    direct
}

fn run(source: &str, slots: usize) -> Execution {
    execute(&function_instructions(&program_of(source)), slots)
}

#[test]
fn number_literal_returns_itself() {
    assert_eq!(value_of("0;"), Some(0));
    assert_eq!(value_of("7;"), Some(7));
    assert_eq!(value_of("-7;"), Some(-7));
    assert_eq!(value_of("007;"), Some(7));
    assert_eq!(value_of("2147483647;"), Some(i32::MAX));
    assert_eq!(value_of("-2147483648;"), Some(i32::MIN));
}

#[test]
fn sum_returns_seven() {
    assert_eq!(value_of("(3 + 4);"), Some(7));
}

#[test]
fn nested_product_returns_nine() {
    assert_eq!(value_of("(3 * (4 - 1));"), Some(9));
}

#[test]
fn levels_and_grouping_decide_the_value() {
    assert_eq!(value_of("1 + 2 * 3;"), Some(7));
    assert_eq!(value_of("(1 + 2) * 3;"), Some(9));
    assert_eq!(value_of("10 - 4 - 3;"), Some(3));
    assert_eq!(value_of("10 - (4 - 3);"), Some(9));
    assert_eq!(value_of("100 / 10 / 5;"), Some(2));
    assert_eq!(value_of("100 / (10 / 5);"), Some(50));
    assert_eq!(value_of("2 * 3 + 4 * 5 - 6 / 2;"), Some(23));
}

#[test]
fn quotient_is_truncated_toward_zero() {
    assert_eq!(value_of("7 / 2;"), Some(3));
    assert_eq!(value_of("-7 / 2;"), Some(-3));
    assert_eq!(value_of("7 / -2;"), Some(-3));
    assert_eq!(value_of("-7 / -2;"), Some(3));
    assert_eq!(value_of("1 / 2;"), Some(0));
    assert_eq!(value_of("-1 / 2;"), Some(0));
    assert_eq!(value_of("0 / 5;"), Some(0));
}

#[test]
fn division_by_zero_has_no_value() {
    assert_eq!(value_of("1 / 0;"), None);
    assert_eq!(value_of("0 / 0;"), None);
    assert_eq!(value_of("1 + 2 / (3 - 3);"), None);
}

#[test]
fn least_integer_divided_by_minus_one_has_no_value() {
    assert_eq!(value_of("-2147483648 / -1;"), None);
    assert_eq!(value_of("-2147483647 / -1;"), Some(i32::MAX));
    assert_eq!(value_of("-2147483648 / 1;"), Some(i32::MIN));
}

#[test]
fn sums_differences_and_products_wrap_around() {
    assert_eq!(value_of("2147483647 + 1;"), Some(i32::MIN));
    assert_eq!(value_of("-2147483648 - 1;"), Some(i32::MAX));
    assert_eq!(value_of("65536 * 65536;"), Some(0));
    assert_eq!(value_of("2147483647 * 2;"), Some(-2));
    assert_eq!(value_of("-2147483648 * -1;"), Some(i32::MIN));
}

#[test]
fn variables_hold_their_initial_values() {
    assert_eq!(run("var x = 5; (x + 1);", 1), Execution::Returned(6));
    assert_eq!(run("var x = 5; var y = x * x; (y - x);", 2), Execution::Returned(20));
    assert_eq!(run("var x; (x + 1);", 1), Execution::Returned(1));
    assert_eq!(run("var x = 0; (x + 1);", 1), Execution::Returned(1));
}

#[test]
fn variable_read_before_its_declaration_is_zero() {
    assert_eq!(run("(x + 1); var x = 5;", 1), Execution::Returned(1));
    assert_eq!(run("var y = x + 2; var x = 5; (y * x);", 2), Execution::Returned(10));
}

#[test]
fn failing_initialiser_traps() {
    assert_eq!(run("var x = 1 / 0; 3;", 1), Execution::Trapped);
}

#[test]
fn evaluation_reads_the_given_slots() {
    let expr = Expression::BinaryOp {
        operator: BinaryOperator::Sub,
        lhs: Box::new(Expression::VariableRef { index: 1 }),
        rhs: Box::new(Expression::VariableRef { index: 0 }),
    };
    assert_eq!(evaluate(&expr, &vec![10, 3]), Some(-7));
    assert_eq!(evaluate(&expr, &vec![10]), None);
}

#[test]
fn left_operand_is_taken_first() {
    // Both operands have no value; any order gives `None`, and the run traps
    // on the first division.
    assert_eq!(value_of("(1 / 0) + (2 / 0);"), None);
}

#[test]
fn code_without_return_goes_on() {
    let code = vec![Instruction::I32Const { value: 1 }, Instruction::I32Const { value: 2 }];
    assert_eq!(execute(&code, 1), Execution::Continues { stack: vec![1, 2], locals: vec![0] });
    assert_eq!(execute(&vec![], 2), Execution::Continues { stack: vec![], locals: vec![0, 0] });
}

#[test]
fn return_leaves_with_the_top_of_the_stack() {
    let code = vec![
        Instruction::I32Const { value: 1 },
        Instruction::I32Const { value: 2 },
        Instruction::Return,
        Instruction::I32Const { value: 3 },
    ];
    assert_eq!(execute(&code, 0), Execution::Returned(2));
}

#[test]
fn end_wants_exactly_one_value() {
    assert_eq!(execute(&vec![Instruction::I32Const { value: 4 }, Instruction::End], 0), Execution::Returned(4));
    assert_eq!(execute(&vec![Instruction::End], 0), Execution::Invalid);
    let two = vec![
        Instruction::I32Const { value: 1 },
        Instruction::I32Const { value: 2 },
        Instruction::End,
    ];
    assert_eq!(execute(&two, 0), Execution::Invalid);
}

#[test]
fn missing_operand_or_slot_is_invalid() {
    assert_eq!(execute(&vec![Instruction::Return], 0), Execution::Invalid);
    assert_eq!(execute(&vec![Instruction::I32Add], 0), Execution::Invalid);
    assert_eq!(
        execute(&vec![Instruction::I32Const { value: 1 }, Instruction::I32Mul], 0),
        Execution::Invalid
    );
    assert_eq!(execute(&vec![Instruction::LocalGet { index: 0 }], 0), Execution::Invalid);
    assert_eq!(
        execute(&vec![Instruction::I32Const { value: 1 }, Instruction::LocalSet { index: 2 }], 2),
        Execution::Invalid
    );
    assert_eq!(execute(&vec![Instruction::LocalSet { index: 0 }], 1), Execution::Invalid);
}

#[test]
fn operands_are_popped_right_then_left() {
    let code = vec![
        Instruction::I32Const { value: 9 },
        Instruction::I32Const { value: 20 },
        Instruction::I32Const { value: 6 },
        Instruction::I32Sub,
    ];
    assert_eq!(execute(&code, 0), Execution::Continues { stack: vec![9, 14], locals: vec![] });
    let quotient = vec![
        Instruction::I32Const { value: 20 },
        Instruction::I32Const { value: 6 },
        Instruction::I32DivS,
        Instruction::Return,
    ];
    assert_eq!(execute(&quotient, 0), Execution::Returned(3));
}

#[test]
fn slots_are_set_and_read() {
    let code = vec![
        Instruction::I32Const { value: 8 },
        Instruction::LocalSet { index: 1 },
        Instruction::LocalGet { index: 1 },
        Instruction::LocalGet { index: 0 },
    ];
    assert_eq!(execute(&code, 2), Execution::Continues { stack: vec![8, 0], locals: vec![0, 8] });
}
