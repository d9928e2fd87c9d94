//! What the generated function computes.
//!
//! Two meanings are given and proved equal: that of a program, computed
//! directly over its statements and expressions, and that of the program's
//! code, run instruction by instruction on a stack machine.
//!
//! Arithmetic is that of 32-bit two's complement integers: sums, differences
//! and products wrap around; a quotient is truncated toward zero; a division
//! by zero, and the division of the least integer by -1, have no value, and
//! the machine traps on them.

use vstd::prelude::*;
use crate::ast::{BinaryOperator, Expression, StatementView, default_initial_value};
use crate::codegen::{
    declared_slots, expression_code, first_undeclared, fits_one_function, function_code,
    operator_instruction, result_count, slot_count, statement_code, statement_expression,
    statements_code, undeclared_from, undeclared_in_expression,
};
use crate::instruction::Instruction;

verus! {

/// The value of `lhs operator rhs`, if it has one.
pub open spec fn arithmetic(operator: BinaryOperator, lhs: i32, rhs: i32) -> Option<i32> {
    match operator {
        BinaryOperator::Add => Some(lhs.wrapping_add(rhs)),
        BinaryOperator::Sub => Some(lhs.wrapping_sub(rhs)),
        BinaryOperator::Mul => Some(lhs.wrapping_mul(rhs)),
        BinaryOperator::Div => lhs.checked_div(rhs),
    }
}

/// The value of `expr` where slot `i` holds `locals[i]`. `None` where a
/// division in it has no value, or where a slot that it reads is not there.
/// The left operand of an operation is taken first.
pub open spec fn value_of(expr: Expression, locals: Seq<i32>) -> Option<i32>
    decreases expr,
{
    match expr {
        Expression::NumberLiteral { value } => Some(value),
        Expression::VariableRef { index } => if index < locals.len() {
            Some(locals[index as int])
        } else {
            None
        },
        Expression::BinaryOp { operator, lhs, rhs } => match value_of(*lhs, locals) {
            None => None,
            Some(left) => match value_of(*rhs, locals) {
                None => None,
                Some(right) => arithmetic(operator, left, right),
            },
        },
    }
}

/// The state of a running function: the evaluation stack, with its top at
/// the end, and the local slots.
pub struct Frame {
    pub stack: Seq<i32>,
    pub locals: Seq<i32>,
}

/// How far a run has come.
pub enum Outcome {
    /// The instructions are done and the function has not been left.
    Continues(Frame),
    /// The function was left with this value.
    Returned(i32),
    /// A division had no value.
    Trapped,
    /// An instruction found no operand or no slot, or the function ended with
    /// more or less than one value.
    Invalid,
}

/// `frame` with `value` pushed.
pub open spec fn pushed(frame: Frame, value: i32) -> Frame {
    Frame { stack: frame.stack.push(value), locals: frame.locals }
}

/// What an arithmetic instruction does: it pops the right operand, then the
/// left one, and pushes the value.
pub open spec fn operate(operator: BinaryOperator, frame: Frame) -> Outcome {
    if frame.stack.len() >= 2 {
        let rhs = frame.stack[frame.stack.len() - 1];
        let lhs = frame.stack[frame.stack.len() - 2];
        match arithmetic(operator, lhs, rhs) {
            Some(value) => Outcome::Continues(
                Frame { stack: frame.stack.take(frame.stack.len() - 2).push(value), locals: frame.locals },
            ),
            None => Outcome::Trapped,
        }
    } else {
        Outcome::Invalid
    }
}

/// What one instruction does to `frame`.
pub open spec fn step(instruction: Instruction, frame: Frame) -> Outcome {
    match instruction {
        Instruction::I32Const { value } => Outcome::Continues(pushed(frame, value)),
        Instruction::LocalGet { index } => if index < frame.locals.len() {
            Outcome::Continues(pushed(frame, frame.locals[index as int]))
        } else {
            Outcome::Invalid
        },
        Instruction::LocalSet { index } => if frame.stack.len() >= 1 && index < frame.locals.len() {
            Outcome::Continues(
                Frame {
                    stack: frame.stack.drop_last(),
                    locals: frame.locals.update(index as int, frame.stack.last()),
                },
            )
        } else {
            Outcome::Invalid
        },
        Instruction::I32Add => operate(BinaryOperator::Add, frame),
        Instruction::I32Sub => operate(BinaryOperator::Sub, frame),
        Instruction::I32Mul => operate(BinaryOperator::Mul, frame),
        Instruction::I32DivS => operate(BinaryOperator::Div, frame),
        Instruction::Return => if frame.stack.len() >= 1 {
            Outcome::Returned(frame.stack.last())
        } else {
            Outcome::Invalid
        },
        Instruction::End => if frame.stack.len() == 1 {
            Outcome::Returned(frame.stack[0])
        } else {
            Outcome::Invalid
        },
    }
}

/// What running `code` from `frame` on comes to.
pub open spec fn run(code: Seq<Instruction>, frame: Frame) -> Outcome
    decreases code.len(),
{
    if code.len() == 0 {
        Outcome::Continues(frame)
    } else {
        match step(code.first(), frame) {
            Outcome::Continues(next) => run(code.drop_first(), next),
            outcome => outcome,
        }
    }
}

/// The frame in which a function with `slots` local slots starts: an empty
/// stack, and zero in every slot.
pub open spec fn entry_frame(slots: nat) -> Frame {
    Frame { stack: Seq::<i32>::empty(), locals: Seq::new(slots, |i: int| 0i32) }
}

/// What calling a function with body `code` and `slots` local slots comes to.
pub open spec fn call(code: Seq<Instruction>, slots: nat) -> Outcome {
    run(code, entry_frame(slots))
}

/// What a statement does to `frame`, directly: a declaration with an
/// initialiser sets its slot, an expression statement leaves its value.
/// `None` where the statement's expression has no value.
pub open spec fn statement_effect(statement: StatementView, frame: Frame) -> Option<Frame> {
    match statement {
        StatementView::DeclareVariable { index, initial_value, .. } => if initial_value
            == default_initial_value() {
            Some(frame)
        } else if index < frame.locals.len() {
            match value_of(initial_value, frame.locals) {
                Some(value) => Some(
                    Frame { stack: frame.stack, locals: frame.locals.update(index as int, value) },
                ),
                None => None,
            }
        } else {
            None
        },
        StatementView::ExpressionStatement { expr } => match value_of(expr, frame.locals) {
            Some(value) => Some(pushed(frame, value)),
            None => None,
        },
    }
}

/// What the statements of `program` do to `frame`, one after the other.
pub open spec fn program_effect(program: Seq<StatementView>, frame: Frame) -> Option<Frame>
    decreases program.len(),
{
    if program.len() == 0 {
        Some(frame)
    } else {
        match program_effect(program.drop_last(), frame) {
            Some(next) => statement_effect(program.last(), next),
            None => None,
        }
    }
}

/// The value of `program`: that of its last expression statement, in slots
/// that start at zero. `None` where an expression on the way has no value.
pub open spec fn program_value(program: Seq<StatementView>) -> Option<i32> {
    match program_effect(program, entry_frame(slot_count(declared_slots(program)))) {
        Some(frame) => if frame.stack.len() > 0 {
            Some(frame.stack.last())
        } else {
            None
        },
        None => None,
    }
}

/// What a run that was to leave `value` comes to: the function returns the
/// value, and traps where there is none.
pub open spec fn outcome_of(value: Option<i32>) -> Outcome {
    match value {
        Some(value) => Outcome::Returned(value),
        None => Outcome::Trapped,
    }
}

/// Whether every slot that `expr` reads is below `bound`.
pub open spec fn reads_below(expr: Expression, bound: nat) -> bool
    decreases expr,
{
    match expr {
        Expression::NumberLiteral { .. } => true,
        Expression::VariableRef { index } => index < bound,
        Expression::BinaryOp { lhs, rhs, .. } => reads_below(*lhs, bound) && reads_below(*rhs, bound),
    }
}

/// Running two pieces of code in a row is running the second where the first
/// left off.
pub proof fn lemma_run_in_a_row(first: Seq<Instruction>, second: Seq<Instruction>, frame: Frame)
    ensures
        run(first + second, frame) == (match run(first, frame) {
            Outcome::Continues(next) => run(second, next),
            outcome => outcome,
        }),
    decreases first.len(),
{
    if first.len() > 0 {
        assert((first + second).drop_first() =~= first.drop_first() + second);
        match step(first.first(), frame) {
            Outcome::Continues(next) => {
                lemma_run_in_a_row(first.drop_first(), second, next);
            },
            _ => {},
        }
    }
}

/// Running one instruction is taking its step.
pub proof fn lemma_run_one(instruction: Instruction, frame: Frame)
    ensures
        run(seq![instruction], frame) == step(instruction, frame),
{
    reveal_with_fuel(run, 2);
}

/// The code of an expression computes the expression's value: it pushes the
/// value and changes nothing else, and traps where there is no value.
pub proof fn lemma_expression_code(expr: Expression, frame: Frame)
    requires
        reads_below(expr, frame.locals.len()),
        frame.locals.len() <= u32::MAX,
    ensures
        run(expression_code(expr), frame) == (match value_of(expr, frame.locals) {
            Some(value) => Outcome::Continues(pushed(frame, value)),
            None => Outcome::Trapped,
        }),
    decreases expr,
{
    match expr {
        Expression::NumberLiteral { value } => {
            lemma_run_one(Instruction::I32Const { value }, frame);
        },
        Expression::VariableRef { index } => {
            lemma_run_one(Instruction::LocalGet { index: index as u32 }, frame);
        },
        Expression::BinaryOp { operator, lhs, rhs } => {
            let left = expression_code(*lhs);
            let right = expression_code(*rhs);
            let last = seq![operator_instruction(operator)];
            lemma_expression_code(*lhs, frame);
            lemma_run_in_a_row(left, right + last, frame);
            assert(left + right + last =~= left + (right + last));
            match value_of(*lhs, frame.locals) {
                None => {},
                Some(a) => {
                    let after_left = pushed(frame, a);
                    lemma_expression_code(*rhs, after_left);
                    lemma_run_in_a_row(right, last, after_left);
                    match value_of(*rhs, frame.locals) {
                        None => {},
                        Some(b) => {
                            let after_right = pushed(after_left, b);
                            lemma_run_one(operator_instruction(operator), after_right);
                            assert(after_right.stack.take(after_right.stack.len() - 2) =~= frame.stack);
                        },
                    }
                },
            }
        },
    }
}


/// Whether every slot that a statement of `program` reads or sets is below
/// `bound`.
pub open spec fn slots_below(program: Seq<StatementView>, bound: nat) -> bool {
    forall|k: int|
        0 <= k < program.len() ==> reads_below(statement_expression(#[trigger] program[k]), bound) && (
        program[k] matches StatementView::DeclareVariable { index, .. } ==> index < bound)
}

/// Slots below a bound are below every larger bound.
pub proof fn lemma_reads_below_grows(expr: Expression, bound: nat, larger: nat)
    requires
        reads_below(expr, bound),
        bound <= larger,
    ensures
        reads_below(expr, larger),
    decreases expr,
{
    match expr {
        Expression::BinaryOp { lhs, rhs, .. } => {
            lemma_reads_below_grows(*lhs, bound, larger);
            lemma_reads_below_grows(*rhs, bound, larger);
        },
        _ => {},
    }
}

/// Slots below a bound are below every larger bound.
pub proof fn lemma_slots_below_grows(program: Seq<StatementView>, bound: nat, larger: nat)
    requires
        slots_below(program, bound),
        bound <= larger,
    ensures
        slots_below(program, larger),
{
    assert forall|k: int| 0 <= k < program.len() implies reads_below(
        statement_expression(#[trigger] program[k]),
        larger,
    ) && (program[k] matches StatementView::DeclareVariable { index, .. } ==> index < larger) by {
        lemma_reads_below_grows(statement_expression(program[k]), bound, larger);
    }
}

/// A declared slot is below the number of local slots.
pub proof fn lemma_declared_slot_is_counted(declared: Seq<usize>, slot: usize)
    requires
        declared.contains(slot),
    ensures
        slot < slot_count(declared),
    decreases declared.len(),
{
    if declared.len() > 0 {
        if declared.last() != slot {
            let k = choose|k: int| 0 <= k < declared.len() && declared[k] == slot;
            assert(declared.drop_last()[k] == slot);
            lemma_declared_slot_is_counted(declared.drop_last(), slot);
        }
    }
}

/// The slot of every declaration of a program is among its declared slots.
pub proof fn lemma_declarations_are_declared(program: Seq<StatementView>, k: int)
    requires
        0 <= k < program.len(),
        program[k] is DeclareVariable,
    ensures
        declared_slots(program).contains(program[k]->DeclareVariable_index),
    decreases program.len(),
{
    let front = program.drop_last();
    if k < program.len() - 1 {
        lemma_declarations_are_declared(front, k);
        let slot = program[k]->DeclareVariable_index;
        let at = choose|at: int| 0 <= at < declared_slots(front).len() && declared_slots(front)[at] == slot;
        assert(declared_slots(program)[at] == slot);
    } else {
        let slots = declared_slots(program);
        assert(slots[slots.len() - 1] == program[k]->DeclareVariable_index);
    }
}

/// An expression that reads declared slots only reads slots below any bound
/// on the declared slots.
pub proof fn lemma_declared_reads(expr: Expression, declared: Seq<usize>, bound: nat)
    requires
        undeclared_in_expression(expr, declared) is None,
        forall|slot: usize| declared.contains(slot) ==> slot < bound,
    ensures
        reads_below(expr, bound),
    decreases expr,
{
    match expr {
        Expression::BinaryOp { lhs, rhs, .. } => {
            lemma_declared_reads(*lhs, declared, bound);
            lemma_declared_reads(*rhs, declared, bound);
        },
        _ => {},
    }
}

/// Where no statement from `from` on reads an undeclared slot, none of them
/// does.
pub proof fn lemma_all_declared(program: Seq<StatementView>, declared: Seq<usize>, from: int, k: int)
    requires
        0 <= from <= k < program.len(),
        undeclared_from(program, declared, from) is None,
    ensures
        undeclared_in_expression(statement_expression(program[k]), declared) is None,
    decreases k - from,
{
    if from < k {
        lemma_all_declared(program, declared, from + 1, k);
    }
}

/// A program that reads declared slots only keeps below the number of its
/// local slots.
pub proof fn lemma_slots_below_count(program: Seq<StatementView>)
    requires
        first_undeclared(program) is None,
    ensures
        slots_below(program, slot_count(declared_slots(program))),
{
    let declared = declared_slots(program);
    let bound = slot_count(declared);
    assert forall|slot: usize| declared.contains(slot) implies slot < bound by {
        lemma_declared_slot_is_counted(declared, slot);
    }
    assert forall|k: int| 0 <= k < program.len() implies reads_below(
        statement_expression(#[trigger] program[k]),
        bound,
    ) && (program[k] matches StatementView::DeclareVariable { index, .. } ==> index < bound) by {
        lemma_all_declared(program, declared, 0, k);
        lemma_declared_reads(statement_expression(program[k]), declared, bound);
        if program[k] is DeclareVariable {
            lemma_declarations_are_declared(program, k);
        }
    }
}

/// The statements of a program keep the number of slots, and leave one value
/// for each expression statement.
pub proof fn lemma_effect_shape(program: Seq<StatementView>, frame: Frame)
    ensures
        program_effect(program, frame) matches Some(end) ==> end.locals.len() == frame.locals.len()
            && end.stack.len() == frame.stack.len() + result_count(program),
    decreases program.len(),
{
    if program.len() > 0 {
        lemma_effect_shape(program.drop_last(), frame);
    }
}

/// The code of a statement does what the statement does.
pub proof fn lemma_statement_code(statement: StatementView, frame: Frame)
    requires
        reads_below(statement_expression(statement), frame.locals.len()),
        statement matches StatementView::DeclareVariable { index, .. } ==> index < frame.locals.len(),
        frame.locals.len() <= u32::MAX,
    ensures
        run(statement_code(statement), frame) == (match statement_effect(statement, frame) {
            Some(next) => Outcome::Continues(next),
            None => Outcome::Trapped,
        }),
{
    match statement {
        StatementView::DeclareVariable { index, initial_value, .. } => {
            if initial_value != default_initial_value() {
                let set = seq![Instruction::LocalSet { index: index as u32 }];
                lemma_expression_code(initial_value, frame);
                lemma_run_in_a_row(expression_code(initial_value), set, frame);
                match value_of(initial_value, frame.locals) {
                    Some(value) => {
                        lemma_run_one(Instruction::LocalSet { index: index as u32 }, pushed(frame, value));
                        assert(pushed(frame, value).stack.drop_last() =~= frame.stack);
                    },
                    None => {},
                }
            }
        },
        StatementView::ExpressionStatement { expr } => {
            lemma_expression_code(expr, frame);
        },
    }
}

/// The code of the statements of a program does what the statements do.
pub proof fn lemma_statements_code(program: Seq<StatementView>, frame: Frame)
    requires
        slots_below(program, frame.locals.len()),
        frame.locals.len() <= u32::MAX,
    ensures
        run(statements_code(program), frame) == (match program_effect(program, frame) {
            Some(end) => Outcome::Continues(end),
            None => Outcome::Trapped,
        }),
    decreases program.len(),
{
    if program.len() > 0 {
        let front = program.drop_last();
        assert forall|k: int| 0 <= k < front.len() implies reads_below(
            statement_expression(#[trigger] front[k]),
            frame.locals.len(),
        ) && (front[k] matches StatementView::DeclareVariable { index, .. } ==> index
            < frame.locals.len()) by {}
        lemma_statements_code(front, frame);
        lemma_run_in_a_row(statements_code(front), statement_code(program.last()), frame);
        lemma_effect_shape(front, frame);
        match program_effect(front, frame) {
            Some(next) => {
                lemma_statement_code(program.last(), next);
            },
            None => {},
        }
    }
}

/// The function of a program computes the program's value: a call returns
/// the value, and traps where there is none. Where the statements run
/// through, they leave exactly one value on the stack.
///
/// This holds of every program that fits one function, and so of every
/// program with statements that has a module. In particular, for an
/// expression of literals and operators alone, running the generated code
/// gives the value that the expression has when it is evaluated directly.
pub proof fn lemma_function_computes_program(program: Seq<StatementView>)
    requires
        fits_one_function(program),
    ensures
        call(function_code(program), slot_count(declared_slots(program))) == outcome_of(
            program_value(program),
        ),
        program_effect(program, entry_frame(slot_count(declared_slots(program)))) matches Some(end)
            ==> end.stack.len() == 1,
{
    let slots = slot_count(declared_slots(program));
    let frame = entry_frame(slots);
    let end = seq![Instruction::Return, Instruction::End];
    lemma_slots_below_count(program);
    lemma_statements_code(program, frame);
    lemma_run_in_a_row(statements_code(program), end, frame);
    lemma_effect_shape(program, frame);
    match program_effect(program, frame) {
        Some(last) => {
            reveal_with_fuel(run, 2);
        },
        None => {},
    }
}

/// The function of a program that is one expression of literals and
/// operators returns the expression's value, and traps where the expression
/// has none.
pub proof fn lemma_expression_round_trip(expr: Expression)
    requires
        expr.is_closed(),
    ensures
        call(function_code(seq![StatementView::ExpressionStatement { expr }]), 0) == outcome_of(
            value_of(expr, Seq::<i32>::empty()),
        ),
{
    let program = seq![StatementView::ExpressionStatement { expr }];
    let end = seq![Instruction::Return, Instruction::End];
    let frame = entry_frame(0);
    lemma_closed_reads_nothing(expr, 0);
    assert(statements_code(program) =~= expression_code(expr)) by {
        reveal_with_fuel(statements_code, 2);
    }
    lemma_expression_code(expr, frame);
    lemma_run_in_a_row(expression_code(expr), end, frame);
    lemma_closed_value(expr, frame.locals, Seq::<i32>::empty());
    reveal_with_fuel(run, 2);
}

/// An expression without variables reads no slot.
pub proof fn lemma_closed_reads_nothing(expr: Expression, bound: nat)
    requires
        expr.is_closed(),
    ensures
        reads_below(expr, bound),
    decreases expr,
{
    match expr {
        Expression::BinaryOp { lhs, rhs, .. } => {
            lemma_closed_reads_nothing(*lhs, bound);
            lemma_closed_reads_nothing(*rhs, bound);
        },
        _ => {},
    }
}

/// The value of an expression without variables is the same in all slots.
pub proof fn lemma_closed_value(expr: Expression, locals: Seq<i32>, others: Seq<i32>)
    requires
        expr.is_closed(),
    ensures
        value_of(expr, locals) == value_of(expr, others),
    decreases expr,
{
    match expr {
        Expression::BinaryOp { lhs, rhs, .. } => {
            lemma_closed_value(*lhs, locals, others);
            lemma_closed_value(*rhs, locals, others);
        },
        _ => {},
    }
}


/// The value of a program that is one expression statement is the value of
/// the expression where no slot is there.
pub proof fn lemma_expression_program_value(expr: Expression)
    ensures
        program_value(seq![StatementView::ExpressionStatement { expr }]) == value_of(
            expr,
            Seq::<i32>::empty(),
        ),
{
    let program = seq![StatementView::ExpressionStatement { expr }];
    assert(declared_slots(program) =~= Seq::<usize>::empty()) by {
        reveal_with_fuel(declared_slots, 2);
    }
    assert(entry_frame(0).locals =~= Seq::<i32>::empty());
    reveal_with_fuel(program_effect, 2);
}

/// Evaluates `expr` directly, where slot `i` holds `locals[i]`.
///
/// Sums, differences and products wrap around in 32 bits, a quotient is
/// truncated toward zero. `None` where a division by zero, or that of the
/// least integer by -1, is met, or a slot that is not in `locals`.
pub fn evaluate(expr: &Expression, locals: &Vec<i32>) -> (value: Option<i32>)
    ensures
        value == value_of(*expr, locals@),
    decreases *expr,
{
    match expr {
        Expression::NumberLiteral { value } => Some(*value),
        Expression::VariableRef { index } => {
            if *index < locals.len() {
                Some(locals[*index])
            } else {
                None
            }
        },
        Expression::BinaryOp { operator, lhs, rhs } => {
            let left = match evaluate(lhs, locals) {
                Some(left) => left,
                None => {
                    return None;
                },
            };
            let right = match evaluate(rhs, locals) {
                Some(right) => right,
                None => {
                    return None;
                },
            };
            match operator {
                BinaryOperator::Add => Some(left.wrapping_add(right)),
                BinaryOperator::Sub => Some(left.wrapping_sub(right)),
                BinaryOperator::Mul => Some(left.wrapping_mul(right)),
                BinaryOperator::Div => left.checked_div(right),
            }
        },
    }
}

/// How far a run of [`execute`] has come.
#[derive(Debug, PartialEq, Eq)]
pub enum Execution {
    /// The instructions are done and the function has not been left.
    Continues { stack: Vec<i32>, locals: Vec<i32> },
    /// The function was left with this value.
    Returned(i32),
    /// A division had no value.
    Trapped,
    /// An instruction found no operand or no slot, or the function ended with
    /// more or less than one value.
    Invalid,
}

impl View for Execution {
    type V = Outcome;

    open spec fn view(&self) -> Outcome {
        match *self {
            Execution::Continues { stack, locals } => Outcome::Continues(
                Frame { stack: stack@, locals: locals@ },
            ),
            Execution::Returned(value) => Outcome::Returned(value),
            Execution::Trapped => Outcome::Trapped,
            Execution::Invalid => Outcome::Invalid,
        }
    }
}

/// Pops two operands from `stack` and pushes the value of `operator` on them.
fn execute_operator(operator: BinaryOperator, stack: &mut Vec<i32>, Ghost(locals): Ghost<Seq<i32>>) -> (done:
    Option<Execution>)
    ensures
        match done {
            None => operate(operator, Frame { stack: old(stack)@, locals }) == Outcome::Continues(
                Frame { stack: final(stack)@, locals },
            ),
            Some(outcome) => !(outcome is Continues) && operate(operator, Frame { stack: old(stack)@, locals })
                == outcome@,
        },
{
    if stack.len() < 2 {
        return Some(Execution::Invalid);
    }
    let rhs = stack[stack.len() - 1];
    let lhs = stack[stack.len() - 2];
    let value = match operator {
        BinaryOperator::Add => Some(lhs.wrapping_add(rhs)),
        BinaryOperator::Sub => Some(lhs.wrapping_sub(rhs)),
        BinaryOperator::Mul => Some(lhs.wrapping_mul(rhs)),
        BinaryOperator::Div => lhs.checked_div(rhs),
    };
    match value {
        Some(value) => {
            let _ = stack.pop();
            let _ = stack.pop();
            stack.push(value);
            assert(stack@ =~= old(stack)@.take(old(stack)@.len() - 2).push(value));
            None
        },
        None => Some(Execution::Trapped),
    }
}

/// Calls a function with body `code` and `slots` local slots: runs the
/// instructions in order from an empty stack and zero in every slot.
pub fn execute(code: &Vec<Instruction>, slots: usize) -> (outcome: Execution)
    ensures
        outcome@ == call(code@, slots as nat),
{
    let mut locals: Vec<i32> = Vec::new();
    while locals.len() < slots
        invariant
            locals.len() <= slots,
            forall|i: int| 0 <= i < locals.len() ==> locals@[i] == 0i32,
        decreases slots - locals.len(),
    {
        locals.push(0i32);
    }
    assert(locals@ =~= entry_frame(slots as nat).locals);
    let mut stack: Vec<i32> = Vec::new();
    let mut at: usize = 0;
    assert(code@.skip(0) =~= code@);
    while at < code.len()
        invariant
            at <= code.len(),
            call(code@, slots as nat) == run(code@.skip(at as int), Frame { stack: stack@, locals: locals@ }),
        decreases code.len() - at,
    {
        proof {
            assert(code@.skip(at as int).drop_first() =~= code@.skip(at + 1));
        }
        match code[at] {
            Instruction::I32Const { value } => {
                stack.push(value);
            },
            Instruction::LocalGet { index } => {
                if (index as usize) < locals.len() {
                    stack.push(locals[index as usize]);
                } else {
                    return Execution::Invalid;
                }
            },
            Instruction::LocalSet { index } => {
                if stack.len() >= 1 && (index as usize) < locals.len() {
                    let value = stack[stack.len() - 1];
                    let _ = stack.pop();
                    locals.set(index as usize, value);
                } else {
                    return Execution::Invalid;
                }
            },
            Instruction::I32Add => {
                match execute_operator(BinaryOperator::Add, &mut stack, Ghost(locals@)) {
                    Some(outcome) => {
                        return outcome;
                    },
                    None => {},
                }
            },
            Instruction::I32Sub => {
                match execute_operator(BinaryOperator::Sub, &mut stack, Ghost(locals@)) {
                    Some(outcome) => {
                        return outcome;
                    },
                    None => {},
                }
            },
            Instruction::I32Mul => {
                match execute_operator(BinaryOperator::Mul, &mut stack, Ghost(locals@)) {
                    Some(outcome) => {
                        return outcome;
                    },
                    None => {},
                }
            },
            Instruction::I32DivS => {
                match execute_operator(BinaryOperator::Div, &mut stack, Ghost(locals@)) {
                    Some(outcome) => {
                        return outcome;
                    },
                    None => {},
                }
            },
            Instruction::Return => {
                if stack.len() >= 1 {
                    return Execution::Returned(stack[stack.len() - 1]);
                } else {
                    return Execution::Invalid;
                }
            },
            Instruction::End => {
                if stack.len() == 1 {
                    return Execution::Returned(stack[0]);
                } else {
                    return Execution::Invalid;
                }
            },
        }
        at = at + 1;
    }
    Execution::Continues { stack, locals }
}

} // verus!
