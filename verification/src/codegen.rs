//! Code generation: from a program to the sections of a binary module, and
//! from the sections to the module's bytes.
//!
//! A program becomes one function without parameters that returns one 32-bit
//! integer. The module declares the function's type, binds the function to
//! it, exports it as the entry point and holds its body. A program without
//! statements becomes a module without sections.

use vstd::prelude::*;
use vstd::string::StrSliceExecFns;
use vstd::string::StringSliceAdditionalSpecFns;
use crate::ast::{default_initial_value, program_view, BinaryOperator, Expression, Statement, StatementView};
use crate::instruction::{encode_instructions, write_instructions, Instruction};
use crate::semantics::{lemma_slots_below_count, lemma_slots_below_grows, slots_below};
use crate::leb128::{lemma_signed_length, lemma_unsigned_length, unsigned_leb128, write_unsigned};

verus! {

/// Why a program has no module.
#[derive(Debug, Clone, Copy, PartialEq, Eq, Structural)]
pub enum CodeGenError {
    /// An expression reads slot `index`, which no statement declares. A
    /// program that came out of the parser never does.
    UndefinedVariable { index: usize },
    /// The program cannot be put into one function that returns one value, or
    /// is too large for the module's 32-bit counts and sizes.
    UnsupportedConstruct,
}

/// One section of a module: its numeric id and its content.
#[derive(Debug, PartialEq, Eq)]
pub struct Section {
    pub id: u8,
    pub payload: Vec<u8>,
}

/// What a [`Section`] is, with the content as a sequence of bytes.
pub struct SectionView {
    pub id: u8,
    pub payload: Seq<u8>,
}

impl View for Section {
    type V = SectionView;

    open spec fn view(&self) -> SectionView {
        SectionView { id: self.id, payload: self.payload@ }
    }
}

/// The sections of a module, each by its view.
pub open spec fn sections_view(sections: Seq<Section>) -> Seq<SectionView> {
    Seq::new(sections.len(), |i: int| sections[i]@)
}

/// The id of the section that declares the function types.
pub open spec fn type_section_id() -> u8 {
    1
}

/// The id of the section that gives each function its type.
pub open spec fn function_section_id() -> u8 {
    3
}

/// The id of the section that names what the module exports.
pub open spec fn export_section_id() -> u8 {
    7
}

/// The id of the section that holds the function bodies.
pub open spec fn code_section_id() -> u8 {
    10
}

/// The module's first eight bytes: the magic constant and the version.
pub open spec fn module_header() -> Seq<u8> {
    seq![0x00u8, 0x61u8, 0x73u8, 0x6Du8, 0x01u8, 0x00u8, 0x00u8, 0x00u8]
}

/// The name under which the function is exported where no other is asked
/// for.
pub const DEFAULT_ENTRY_NAME: &'static str = "_start";

/// The bytes of the default entry name.
pub open spec fn default_entry_name() -> Seq<u8> {
    seq![0x5Fu8, 0x73u8, 0x74u8, 0x61u8, 0x72u8, 0x74u8]
}

/// The default entry name has the bytes of `_start`.
pub proof fn lemma_default_entry_name()
    ensures
        DEFAULT_ENTRY_NAME.spec_bytes() == default_entry_name(),
{
    reveal_strlit("_start");
    broadcast use vstd::string::is_ascii_spec_bytes;
    assert(vstd::string::is_ascii(DEFAULT_ENTRY_NAME));
}

/// One function type: no parameter, one 32-bit integer result.
pub open spec fn type_payload() -> Seq<u8> {
    seq![0x01u8, 0x60u8, 0x00u8, 0x01u8, 0x7Fu8]
}

/// One function, of type 0.
pub open spec fn function_payload() -> Seq<u8> {
    seq![0x01u8, 0x00u8]
}

/// One export: the name `entry` with its length, exported as a function,
/// function 0.
pub open spec fn export_payload(entry: Seq<u8>) -> Seq<u8> {
    seq![0x01u8] + unsigned_leb128(entry.len()) + entry + seq![0x00u8, 0x00u8]
}

/// The slots that the statements of `program` declare, in program order.
pub open spec fn declared_slots(program: Seq<StatementView>) -> Seq<usize>
    decreases program.len(),
{
    if program.len() == 0 {
        Seq::<usize>::empty()
    } else {
        match program.last() {
            StatementView::DeclareVariable { index, .. } => declared_slots(program.drop_last()).push(index),
            StatementView::ExpressionStatement { .. } => declared_slots(program.drop_last()),
        }
    }
}

/// The first variable of `expr`, from left to right, whose slot is not among
/// `declared`.
pub open spec fn undeclared_in_expression(expr: Expression, declared: Seq<usize>) -> Option<usize>
    decreases expr,
{
    match expr {
        Expression::NumberLiteral { .. } => None,
        Expression::VariableRef { index } => if declared.contains(index) {
            None
        } else {
            Some(index)
        },
        Expression::BinaryOp { lhs, rhs, .. } => match undeclared_in_expression(*lhs, declared) {
            Some(index) => Some(index),
            None => undeclared_in_expression(*rhs, declared),
        },
    }
}

/// The expression that a statement holds.
pub open spec fn statement_expression(statement: StatementView) -> Expression {
    match statement {
        StatementView::DeclareVariable { initial_value, .. } => initial_value,
        StatementView::ExpressionStatement { expr } => expr,
    }
}

/// The first variable of the statements from `from` on whose slot is not
/// among `declared`.
pub open spec fn undeclared_from(program: Seq<StatementView>, declared: Seq<usize>, from: int) -> Option<
    usize,
>
    decreases program.len() - from,
{
    if from < 0 || from >= program.len() {
        None
    } else {
        match undeclared_in_expression(statement_expression(program[from]), declared) {
            Some(index) => Some(index),
            None => undeclared_from(program, declared, from + 1),
        }
    }
}

/// The first variable that `program` reads, in program order, without any
/// statement of the program declaring its slot.
pub open spec fn first_undeclared(program: Seq<StatementView>) -> Option<usize> {
    undeclared_from(program, declared_slots(program), 0)
}

/// The number of expression statements in `program`.
pub open spec fn result_count(program: Seq<StatementView>) -> nat
    decreases program.len(),
{
    if program.len() == 0 {
        0
    } else {
        match program.last() {
            StatementView::DeclareVariable { .. } => result_count(program.drop_last()),
            StatementView::ExpressionStatement { .. } => result_count(program.drop_last()) + 1,
        }
    }
}

/// The number of local slots that hold every slot of `declared`: one more
/// than the largest, or none.
pub open spec fn slot_count(declared: Seq<usize>) -> nat
    decreases declared.len(),
{
    if declared.len() == 0 {
        0
    } else {
        let rest = slot_count(declared.drop_last());
        if declared.last() + 1 > rest {
            (declared.last() + 1) as nat
        } else {
            rest
        }
    }
}

/// The arithmetic instruction of an operator.
pub open spec fn operator_instruction(operator: BinaryOperator) -> Instruction {
    match operator {
        BinaryOperator::Add => Instruction::I32Add,
        BinaryOperator::Sub => Instruction::I32Sub,
        BinaryOperator::Mul => Instruction::I32Mul,
        BinaryOperator::Div => Instruction::I32DivS,
    }
}

/// The code of an expression, in post-order: a literal pushes its value, a
/// variable reads its slot, an operation has the code of its left operand,
/// then that of its right operand, then its arithmetic instruction.
pub open spec fn expression_code(expr: Expression) -> Seq<Instruction>
    decreases expr,
{
    match expr {
        Expression::NumberLiteral { value } => seq![Instruction::I32Const { value }],
        Expression::VariableRef { index } => seq![Instruction::LocalGet { index: index as u32 }],
        Expression::BinaryOp { operator, lhs, rhs } => expression_code(*lhs) + expression_code(*rhs)
            + seq![operator_instruction(operator)],
    }
}

/// The code of a statement. A declaration whose initial value is the default
/// has none: a slot starts at zero. Any other declaration computes its
/// initial value and stores it in its slot.
pub open spec fn statement_code(statement: StatementView) -> Seq<Instruction> {
    match statement {
        StatementView::DeclareVariable { index, initial_value, .. } => if initial_value
            == default_initial_value() {
            Seq::<Instruction>::empty()
        } else {
            expression_code(initial_value) + seq![Instruction::LocalSet { index: index as u32 }]
        },
        StatementView::ExpressionStatement { expr } => expression_code(expr),
    }
}

/// The code of the statements of `program`, in program order.
pub open spec fn statements_code(program: Seq<StatementView>) -> Seq<Instruction>
    decreases program.len(),
{
    if program.len() == 0 {
        Seq::<Instruction>::empty()
    } else {
        statements_code(program.drop_last()) + statement_code(program.last())
    }
}

/// The instructions of the function: the code of the statements, then
/// `Return` and `End`.
pub open spec fn function_code(program: Seq<StatementView>) -> Seq<Instruction> {
    statements_code(program) + seq![Instruction::Return, Instruction::End]
}

/// The declaration of `count` local slots of type 32-bit integer: no group
/// when there is none, else one group.
pub open spec fn locals_declaration(count: nat) -> Seq<u8> {
    if count == 0 {
        seq![0x00u8]
    } else {
        seq![0x01u8] + unsigned_leb128(count) + seq![0x7Fu8]
    }
}

/// The function body: the declaration of its local slots, then its
/// instructions.
pub open spec fn function_body(program: Seq<StatementView>) -> Seq<u8> {
    locals_declaration(slot_count(declared_slots(program))) + encode_instructions(
        function_code(program),
    )
}

/// One function body, preceded by its size.
pub open spec fn code_payload(program: Seq<StatementView>) -> Seq<u8> {
    seq![0x01u8] + unsigned_leb128(function_body(program).len()) + function_body(program)
}

/// Whether `program` can be put into one function that returns one value:
/// it reads declared slots only, holds exactly one expression statement, and
/// declares no slot beyond the 32-bit count of local slots.
pub open spec fn fits_one_function(program: Seq<StatementView>) -> bool {
    &&& first_undeclared(program) is None
    &&& result_count(program) == 1
    &&& slot_count(declared_slots(program)) <= u32::MAX
}

/// The sections of the module of `program`, which exports its function
/// under the name `entry`.
///
/// A program without statements has none. Any other program must fit one
/// function, and its function body and the name must fit the 32-bit sizes
/// of the format; it then has the type, function, export and code sections,
/// in this order.
pub open spec fn module_sections_of(program: Seq<StatementView>, entry: Seq<u8>) -> Result<
    Seq<SectionView>,
    CodeGenError,
> {
    if program.len() == 0 {
        Ok(Seq::<SectionView>::empty())
    } else if first_undeclared(program) is Some {
        Err(CodeGenError::UndefinedVariable { index: first_undeclared(program)->0 })
    } else if !fits_one_function(program) || function_body(program).len() > u32::MAX || entry.len()
        > u32::MAX {
        Err(CodeGenError::UnsupportedConstruct)
    } else {
        Ok(
            seq![
                SectionView { id: type_section_id(), payload: type_payload() },
                SectionView { id: function_section_id(), payload: function_payload() },
                SectionView { id: export_section_id(), payload: export_payload(entry) },
                SectionView { id: code_section_id(), payload: code_payload(program) },
            ],
        )
    }
}

/// The bytes of one section: its id, the size of its content, its content.
pub open spec fn encode_section(section: SectionView) -> Seq<u8> {
    seq![section.id] + unsigned_leb128(section.payload.len()) + section.payload
}

/// The bytes of a sequence of sections, one after the other.
pub open spec fn encode_sections(sections: Seq<SectionView>) -> Seq<u8>
    decreases sections.len(),
{
    if sections.len() == 0 {
        Seq::<u8>::empty()
    } else {
        encode_sections(sections.drop_last()) + encode_section(sections.last())
    }
}

/// Whether the content of every section is short enough for its size to be
/// written.
pub open spec fn sizes_fit(sections: Seq<SectionView>) -> bool {
    forall|i: int| 0 <= i < sections.len() ==> (#[trigger] sections[i]).payload.len() <= u32::MAX
}

/// Whether `sections` can stand in a module in this order: the ids ascend
/// strictly, and no section is without content.
pub open spec fn sections_in_order(sections: Seq<SectionView>) -> bool {
    &&& forall|i: int, j: int|
        0 <= i < j < sections.len() ==> (#[trigger] sections[i]).id < (#[trigger] sections[j]).id
    &&& forall|i: int| 0 <= i < sections.len() ==> (#[trigger] sections[i]).payload.len() > 0
}

/// The bytes of a module: the header, then the sections. Sections that are
/// out of order, empty or too long make no module.
pub open spec fn module_bytes(sections: Seq<SectionView>) -> Result<Seq<u8>, CodeGenError> {
    if sections_in_order(sections) && sizes_fit(sections) {
        Ok(module_header() + encode_sections(sections))
    } else {
        Err(CodeGenError::UnsupportedConstruct)
    }
}

/// The module of `program`, which exports its function under the name
/// `entry`, or the reason why there is none.
pub open spec fn generate(program: Seq<StatementView>, entry: Seq<u8>) -> Result<Seq<u8>, CodeGenError> {
    match module_sections_of(program, entry) {
        Ok(sections) => module_bytes(sections),
        Err(error) => Err(error),
    }
}


/// The slots that the statements of `program` declare, in program order.
fn collect_declared_slots(program: &Vec<Statement>) -> (declared: Vec<usize>)
    ensures
        declared@ == declared_slots(program_view(program@)),
{
    let ghost view = program_view(program@);
    let mut declared: Vec<usize> = Vec::new();
    let mut i: usize = 0;
    while i < program.len()
        invariant
            i <= program.len(),
            view == program_view(program@),
            declared@ == declared_slots(view.take(i as int)),
        decreases program.len() - i,
    {
        proof {
            let next = view.take(i + 1);
            assert(next.drop_last() =~= view.take(i as int));
        }
        match &program[i] {
            Statement::DeclareVariable { index, .. } => {
                declared.push(*index);
            },
            Statement::ExpressionStatement { .. } => {},
        }
        i = i + 1;
    }
    assert(view.take(program.len() as int) =~= view);
    declared
}

/// Whether `index` is among `declared`.
fn slot_is_declared(declared: &Vec<usize>, index: usize) -> (found: bool)
    ensures
        found == declared@.contains(index),
{
    let mut i: usize = 0;
    while i < declared.len()
        invariant
            i <= declared.len(),
            forall|k: int| 0 <= k < i ==> declared@[k] != index,
        decreases declared.len() - i,
    {
        if declared[i] == index {
            return true;
        }
        i = i + 1;
    }
    false
}

/// The first variable of `expr`, from left to right, whose slot is not among
/// `declared`.
fn undeclared_variable(expr: &Expression, declared: &Vec<usize>) -> (found: Option<usize>)
    ensures
        found == undeclared_in_expression(*expr, declared@),
    decreases *expr,
{
    match expr {
        Expression::NumberLiteral { .. } => None,
        Expression::VariableRef { index } => {
            if slot_is_declared(declared, *index) {
                None
            } else {
                Some(*index)
            }
        },
        Expression::BinaryOp { lhs, rhs, .. } => {
            match undeclared_variable(lhs, declared) {
                Some(index) => Some(index),
                None => undeclared_variable(rhs, declared),
            }
        },
    }
}

/// The first variable that `program` reads whose slot is not among
/// `declared`.
fn first_undeclared_variable(program: &Vec<Statement>, declared: &Vec<usize>) -> (found: Option<usize>)
    ensures
        found == undeclared_from(program_view(program@), declared@, 0),
{
    let ghost view = program_view(program@);
    let mut i: usize = 0;
    while i < program.len()
        invariant
            i <= program.len(),
            view == program_view(program@),
            undeclared_from(view, declared@, 0) == undeclared_from(view, declared@, i as int),
        decreases program.len() - i,
    {
        let found = match &program[i] {
            Statement::DeclareVariable { initial_value, .. } => undeclared_variable(initial_value, declared),
            Statement::ExpressionStatement { expr } => undeclared_variable(expr, declared),
        };
        if found.is_some() {
            return found;
        }
        i = i + 1;
    }
    None
}

/// The number of expression statements in `program`.
fn count_results(program: &Vec<Statement>) -> (count: usize)
    ensures
        count == result_count(program_view(program@)),
{
    let ghost view = program_view(program@);
    let mut count: usize = 0;
    let mut i: usize = 0;
    while i < program.len()
        invariant
            i <= program.len(),
            view == program_view(program@),
            count <= i,
            count == result_count(view.take(i as int)),
        decreases program.len() - i,
    {
        proof {
            let next = view.take(i + 1);
            assert(next.drop_last() =~= view.take(i as int));
        }
        match &program[i] {
            Statement::DeclareVariable { .. } => {},
            Statement::ExpressionStatement { .. } => {
                count = count + 1;
            },
        }
        i = i + 1;
    }
    assert(view.take(program.len() as int) =~= view);
    count
}

/// The number of local slots that hold every slot of `declared`, where it
/// fits 32 bits.
fn count_slots(declared: &Vec<usize>) -> (count: Option<u32>)
    ensures
        count matches Some(n) ==> n == slot_count(declared@),
        count is None <==> slot_count(declared@) > u32::MAX,
{
    let mut count: u32 = 0;
    let mut i: usize = 0;
    while i < declared.len()
        invariant
            i <= declared.len(),
            count == slot_count(declared@.take(i as int)),
        decreases declared.len() - i,
    {
        let slot: usize = declared[i];
        proof {
            let next = declared@.take(i + 1);
            assert(next.drop_last() =~= declared@.take(i as int));
        }
        if slot >= u32::MAX as usize {
            proof {
                lemma_slot_count_grows(declared@, i + 1);
            }
            return None;
        }
        if slot >= count as usize {
            count = (slot + 1) as u32;
        }
        i = i + 1;
    }
    assert(declared@.take(declared.len() as int) =~= declared@);
    Some(count)
}

/// More slots need no fewer local slots.
proof fn lemma_slot_count_grows(declared: Seq<usize>, n: int)
    requires
        0 <= n <= declared.len(),
    ensures
        slot_count(declared.take(n)) <= slot_count(declared),
    decreases declared.len() - n,
{
    if n < declared.len() {
        let next = declared.take(n + 1);
        assert(next.drop_last() =~= declared.take(n));
        lemma_slot_count_grows(declared, n + 1);
    } else {
        assert(declared.take(n) =~= declared);
    }
}

/// Appends the code of `expr` to `code`.
fn emit_expression(expr: &Expression, code: &mut Vec<Instruction>)
    ensures
        final(code)@ == old(code)@ + expression_code(*expr),
    decreases *expr,
{
    match expr {
        Expression::NumberLiteral { value } => {
            code.push(Instruction::I32Const { value: *value });
        },
        Expression::VariableRef { index } => {
            let slot: u32 = #[verifier::truncate] (*index as u32);
            code.push(Instruction::LocalGet { index: slot });
        },
        Expression::BinaryOp { operator, lhs, rhs } => {
            emit_expression(lhs, code);
            emit_expression(rhs, code);
            let instruction = match operator {
                BinaryOperator::Add => Instruction::I32Add,
                BinaryOperator::Sub => Instruction::I32Sub,
                BinaryOperator::Mul => Instruction::I32Mul,
                BinaryOperator::Div => Instruction::I32DivS,
            };
            code.push(instruction);
        },
    }
}

/// Whether `expr` is the initial value of a declaration without initialiser.
fn is_default_initial_value(expr: &Expression) -> (default: bool)
    ensures
        default == (*expr == default_initial_value()),
{
    match expr {
        Expression::NumberLiteral { value } => *value == 0,
        _ => false,
    }
}

/// Whether the code of `program` names every slot exactly: every slot that a
/// statement reads or sets is below 2^32, so that the operand of the
/// instruction that names it is the slot itself. A slot from 2^32 on does
/// not fit the operand, which then holds the slot modulo 2^32.
pub open spec fn names_slots_exactly(program: Seq<StatementView>) -> bool {
    slots_below(program, 0x1_0000_0000)
}

/// The instructions of the function of `program`.
///
/// The code names every slot exactly where the program reads declared slots
/// only and the number of its local slots fits 32 bits: so in every program
/// that has a module.
pub fn function_instructions(program: &Vec<Statement>) -> (code: Vec<Instruction>)
    ensures
        code@ == function_code(program_view(program@)),
        first_undeclared(program_view(program@)) is None && slot_count(
            declared_slots(program_view(program@)),
        ) <= u32::MAX ==> names_slots_exactly(program_view(program@)),
{
    let ghost view = program_view(program@);
    proof {
        if first_undeclared(view) is None && slot_count(declared_slots(view)) <= u32::MAX {
            lemma_slots_below_count(view);
            lemma_slots_below_grows(view, slot_count(declared_slots(view)), 0x1_0000_0000);
        }
    }
    let mut code: Vec<Instruction> = Vec::new();
    let mut i: usize = 0;
    while i < program.len()
        invariant
            i <= program.len(),
            view == program_view(program@),
            code@ == statements_code(view.take(i as int)),
        decreases program.len() - i,
    {
        proof {
            let next = view.take(i + 1);
            assert(next.drop_last() =~= view.take(i as int));
        }
        match &program[i] {
            Statement::DeclareVariable { index, initial_value, .. } => {
                if !is_default_initial_value(initial_value) {
                    emit_expression(initial_value, &mut code);
                    let slot: u32 = #[verifier::truncate] (*index as u32);
                    code.push(Instruction::LocalSet { index: slot });
                }
            },
            Statement::ExpressionStatement { expr } => {
                emit_expression(expr, &mut code);
            },
        }
        i = i + 1;
    }
    assert(view.take(program.len() as int) =~= view);
    code.push(Instruction::Return);
    code.push(Instruction::End);
    code
}


/// The function body: the declaration of `slots` local slots, then the bytes
/// of `code`.
fn function_body_bytes(slots: u32, code: &Vec<Instruction>) -> (body: Vec<u8>)
    ensures
        body@ == locals_declaration(slots as nat) + encode_instructions(code@),
{
    let mut body: Vec<u8> = Vec::new();
    if slots == 0 {
        body.push(0x00u8);
    } else {
        body.push(0x01u8);
        write_unsigned(&mut body, slots);
        body.push(0x7Fu8);
    }
    write_instructions(&mut body, code);
    body
}

fn type_section() -> (section: Section)
    ensures
        section@ == (SectionView { id: type_section_id(), payload: type_payload() }),
{
    let payload: Vec<u8> = vec![0x01u8, 0x60u8, 0x00u8, 0x01u8, 0x7Fu8];
    Section { id: 1, payload }
}

fn function_section() -> (section: Section)
    ensures
        section@ == (SectionView { id: function_section_id(), payload: function_payload() }),
{
    let payload: Vec<u8> = vec![0x01u8, 0x00u8];
    Section { id: 3, payload }
}

fn export_section(name: Vec<u8>) -> (section: Section)
    requires
        name@.len() <= u32::MAX,
    ensures
        section@ == (SectionView { id: export_section_id(), payload: export_payload(name@) }),
{
    let ghost entry = name@;
    let mut name = name;
    let mut payload: Vec<u8> = Vec::new();
    payload.push(0x01u8);
    write_unsigned(&mut payload, name.len() as u32);
    payload.append(&mut name);
    payload.push(0x00u8);
    payload.push(0x00u8);
    assert(payload@ =~= export_payload(entry));
    Section { id: 7, payload }
}

fn code_section(body: Vec<u8>) -> (section: Section)
    requires
        body@.len() <= u32::MAX,
    ensures
        section@ == (SectionView {
            id: code_section_id(),
            payload: seq![0x01u8] + unsigned_leb128(body@.len()) + body@,
        }),
{
    let mut body = body;
    let mut payload: Vec<u8> = Vec::new();
    payload.push(0x01u8);
    write_unsigned(&mut payload, body.len() as u32);
    payload.append(&mut body);
    Section { id: 10, payload }
}

/// Builds the sections of the module of `program`, in the order in which the
/// module holds them. The module exports its function under `entry_name`.
pub fn module_sections(program: &Vec<Statement>, entry_name: &str) -> (result: Result<
    Vec<Section>,
    CodeGenError,
>)
    ensures
        result matches Ok(sections) ==> sections_in_order(sections_view(sections@)),
        match result {
            Ok(sections) => module_sections_of(program_view(program@), entry_name.spec_bytes()) == Ok::<
                Seq<SectionView>,
                CodeGenError,
            >(sections_view(sections@)),
            Err(error) => module_sections_of(program_view(program@), entry_name.spec_bytes()) == Err::<
                Seq<SectionView>,
                CodeGenError,
            >(error),
        },
{
    let ghost view = program_view(program@);
    let ghost entry = entry_name.spec_bytes();
    let mut sections: Vec<Section> = Vec::new();
    if program.len() == 0 {
        assert(sections_view(sections@) =~= Seq::<SectionView>::empty());
        return Ok(sections);
    }
    let declared = collect_declared_slots(program);
    match first_undeclared_variable(program, &declared) {
        Some(index) => {
            return Err(CodeGenError::UndefinedVariable { index });
        },
        None => {},
    }
    if count_results(program) != 1 {
        return Err(CodeGenError::UnsupportedConstruct);
    }
    let slots = match count_slots(&declared) {
        Some(slots) => slots,
        None => {
            return Err(CodeGenError::UnsupportedConstruct);
        },
    };
    let code = function_instructions(program);
    let body = function_body_bytes(slots, &code);
    let name = entry_name.as_bytes_vec();
    if body.len() > u32::MAX as usize || name.len() > u32::MAX as usize {
        return Err(CodeGenError::UnsupportedConstruct);
    }
    sections.push(type_section());
    sections.push(function_section());
    sections.push(export_section(name));
    sections.push(code_section(body));
    assert(sections_view(sections@) =~= module_sections_of(view, entry)->Ok_0);
    proof {
        lemma_sections_in_order(view, entry);
    }
    Ok(sections)
}

/// Appends the bytes of `section` to `out`.
fn write_section(out: &mut Vec<u8>, section: &Section)
    requires
        section.payload@.len() <= u32::MAX,
    ensures
        final(out)@ == old(out)@ + encode_section(section@),
{
    out.push(section.id);
    write_unsigned(out, section.payload.len() as u32);
    let mut i: usize = 0;
    let ghost start = out@;
    while i < section.payload.len()
        invariant
            i <= section.payload.len(),
            out@ == start + section.payload@.take(i as int),
        decreases section.payload.len() - i,
    {
        out.push(section.payload[i]);
        i = i + 1;
    }
}

/// The bytes of the module that holds `sections`: the header, then each
/// section with its id and size.
///
/// Fails with `UnsupportedConstruct` where the ids of the sections do not
/// ascend strictly, where a section has no content, or where the content of
/// a section is too long for its size to be written.
pub fn encode_module(sections: &Vec<Section>) -> (result: Result<Vec<u8>, CodeGenError>)
    ensures
        match result {
            Ok(bytes) => module_bytes(sections_view(sections@)) == Ok::<Seq<u8>, CodeGenError>(bytes@),
            Err(error) => module_bytes(sections_view(sections@)) == Err::<Seq<u8>, CodeGenError>(error),
        },
{
    let ghost view = sections_view(sections@);
    let mut bytes: Vec<u8> = vec![0x00u8, 0x61u8, 0x73u8, 0x6Du8, 0x01u8, 0x00u8, 0x00u8, 0x00u8];
    let mut i: usize = 0;
    while i < sections.len()
        invariant
            i <= sections.len(),
            view == sections_view(sections@),
            sizes_fit(view.take(i as int)),
            sections_in_order(view.take(i as int)),
            bytes@ == module_header() + encode_sections(view.take(i as int)),
        decreases sections.len() - i,
    {
        assert(view[i as int] == sections@[i as int]@);
        let size = sections[i].payload.len();
        if size > u32::MAX as usize {
            return Err(CodeGenError::UnsupportedConstruct);
        }
        if size == 0 {
            return Err(CodeGenError::UnsupportedConstruct);
        }
        if i > 0 && sections[i - 1].id >= sections[i].id {
            return Err(CodeGenError::UnsupportedConstruct);
        }
        write_section(&mut bytes, &sections[i]);
        proof {
            let before = view.take(i as int);
            let next = view.take(i + 1);
            assert(next.drop_last() =~= before);
            assert forall|k: int| 0 <= k < next.len() implies (#[trigger] next[k]).payload.len()
                <= u32::MAX && next[k].payload.len() > 0 by {}
            assert forall|a: int, b: int| 0 <= a < b < next.len() implies (#[trigger] next[a]).id < (
            #[trigger] next[b]).id by {}
        }
        i = i + 1;
    }
    assert(view.take(sections.len() as int) =~= view);
    Ok(bytes)
}

/// Generates the binary module of `program`.
///
/// The result is the module's bytes: the header and, for a program with
/// statements, the type, function, export and code sections, each with its id
/// and size. The function that the module exports, under `entry_name`, runs
/// the statements in order and returns the value of the one expression
/// statement.
///
/// Fails with `UndefinedVariable` where an expression reads a slot that no
/// statement declares, naming the first such slot in program order; else with
/// `UnsupportedConstruct` where the program has statements but not exactly
/// one expression statement, or does not fit the 32-bit counts and sizes of
/// the format.
pub fn create_program(program: &Vec<Statement>, entry_name: &str) -> (result: Result<
    Vec<u8>,
    CodeGenError,
>)
    ensures
        match result {
            Ok(bytes) => generate(program_view(program@), entry_name.spec_bytes()) == Ok::<
                Seq<u8>,
                CodeGenError,
            >(bytes@),
            Err(error) => generate(program_view(program@), entry_name.spec_bytes()) == Err::<
                Seq<u8>,
                CodeGenError,
            >(error),
        },
{
    match module_sections(program, entry_name) {
        Ok(sections) => encode_module(&sections),
        Err(error) => Err(error),
    }
}

/// The sections of a program's module stand in the module's order, and none
/// of them is empty.
pub proof fn lemma_sections_in_order(program: Seq<StatementView>, entry: Seq<u8>)
    ensures
        module_sections_of(program, entry) matches Ok(sections) ==> sections_in_order(sections),
{
}

/// A program has a module exactly where it is empty, or fits one function
/// and is, like the entry name, short enough for the sizes of the format.
pub proof fn lemma_generate_succeeds(program: Seq<StatementView>, entry: Seq<u8>)
    ensures
        generate(program, entry) is Ok <==> program.len() == 0 || (fits_one_function(program)
            && export_payload(entry).len() <= u32::MAX && code_payload(program).len() <= u32::MAX),
        generate(program, entry) matches Err(CodeGenError::UndefinedVariable { index })
            ==> first_undeclared(program) == Some(index),
{
    lemma_sections_in_order(program, entry);
    if module_sections_of(program, entry) is Ok && code_payload(program).len() <= u32::MAX
        && export_payload(entry).len() <= u32::MAX {
        let sections = module_sections_of(program, entry)->Ok_0;
        assert forall|i: int| 0 <= i < sections.len() implies (#[trigger] sections[i]).payload.len()
            <= u32::MAX by {}
    }
}

/// A program of one number has a module under the default entry name.
pub proof fn lemma_number_program_has_module(value: i32)
    ensures
        generate(
            seq![StatementView::ExpressionStatement { expr: Expression::NumberLiteral { value } }],
            default_entry_name(),
        ) is Ok,
{
    let program = seq![StatementView::ExpressionStatement { expr: Expression::NumberLiteral { value } }];
    let code = seq![Instruction::I32Const { value }, Instruction::Return, Instruction::End];
    lemma_generate_succeeds(program, default_entry_name());
    lemma_unsigned_length(6);
    assert(declared_slots(program) =~= Seq::<usize>::empty()) by {
        reveal_with_fuel(declared_slots, 2);
    }
    assert(result_count(program) == 1) by {
        reveal_with_fuel(result_count, 2);
    }
    assert(first_undeclared(program) is None) by {
        reveal_with_fuel(undeclared_from, 2);
    }
    assert(function_code(program) =~= code) by {
        reveal_with_fuel(statements_code, 2);
    }
    lemma_signed_length(value as int);
    assert(encode_instructions(code).len() <= 8) by {
        reveal_with_fuel(encode_instructions, 4);
    }
    lemma_unsigned_length(function_body(program).len());
}

/// An expression without variables reads no undeclared slot.
pub proof fn lemma_closed_reads_declared(expr: Expression, declared: Seq<usize>)
    requires
        expr.is_closed(),
    ensures
        undeclared_in_expression(expr, declared) is None,
    decreases expr,
{
    match expr {
        Expression::BinaryOp { lhs, rhs, .. } => {
            lemma_closed_reads_declared(*lhs, declared);
            lemma_closed_reads_declared(*rhs, declared);
        },
        _ => {},
    }
}

} // verus!
