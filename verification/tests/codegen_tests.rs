use blohai::ast::{BinaryOperator, Expression, Statement};
use blohai::codegen::{
    create_program, encode_module, function_instructions, module_sections, CodeGenError, Section,
    DEFAULT_ENTRY_NAME,
};
use blohai::instruction::{write_instruction, write_instructions, Instruction};

const HEADER: [u8; 8] = [0x00, 0x61, 0x73, 0x6d, 0x01, 0x00, 0x00, 0x00];
const TYPE_SECTION: [u8; 7] = [0x01, 0x05, 0x01, 0x60, 0x00, 0x01, 0x7f];
const FUNCTION_SECTION: [u8; 4] = [0x03, 0x02, 0x01, 0x00];
const EXPORT_SECTION: [u8; 12] =
    [0x07, 0x0a, 0x01, 0x06, 0x5f, 0x73, 0x74, 0x61, 0x72, 0x74, 0x00, 0x00];

fn number(value: i32) -> Expression {
    Expression::NumberLiteral { value }
}

fn variable(index: usize) -> Expression {
    Expression::VariableRef { index }
}

fn binary(operator: BinaryOperator, lhs: Expression, rhs: Expression) -> Expression {
    Expression::BinaryOp { operator, lhs: Box::new(lhs), rhs: Box::new(rhs) }
}

fn result(expr: Expression) -> Statement {
    Statement::ExpressionStatement { expr }
}

fn declare(index: usize, initial_value: Expression) -> Statement {
    Statement::DeclareVariable { index, name: format!("v{}", index), initial_value }
}

fn module_with_code_section(code_section: &[u8]) -> Vec<u8> {
    let mut bytes = Vec::new();
    bytes.extend_from_slice(&HEADER);
    bytes.extend_from_slice(&TYPE_SECTION);
    bytes.extend_from_slice(&FUNCTION_SECTION);
    bytes.extend_from_slice(&EXPORT_SECTION);
    bytes.extend_from_slice(code_section);
    bytes
}

#[test]
fn program_of_one_small_number_has_the_known_bytes() {
    let bytes = create_program(&vec![result(number(7))], "_start").unwrap();
    assert_eq!(bytes, vec![
        0x00, 0x61, 0x73, 0x6d, 0x01, 0x00, 0x00, 0x00, 0x01, 0x05, 0x01, 0x60, 0x00, 0x01, 0x7f,
        0x03, 0x02, 0x01, 0x00, 0x07, 0x0a, 0x01, 0x06, 0x5f, 0x73, 0x74, 0x61, 0x72, 0x74, 0x00,
        0x00, 0x0a, 0x07, 0x01, 0x05, 0x00, 0x41, 0x07, 0x0f, 0x0b,
    ]);
}

#[test]
fn empty_program_is_a_module_without_sections() {
    assert_eq!(create_program(&vec![], "_start"), Ok(HEADER.to_vec()));
    assert_eq!(module_sections(&vec![], "_start"), Ok(vec![]));
}

#[test]
fn constants_are_written_as_signed_numbers() {
    assert_eq!(
        create_program(&vec![result(number(64))], "_start"),
        Ok(module_with_code_section(&[0x0a, 0x08, 0x01, 0x06, 0x00, 0x41, 0xc0, 0x00, 0x0f, 0x0b]))
    );
    assert_eq!(
        create_program(&vec![result(number(-1))], "_start"),
        Ok(module_with_code_section(&[0x0a, 0x07, 0x01, 0x05, 0x00, 0x41, 0x7f, 0x0f, 0x0b]))
    );
    assert_eq!(
        create_program(&vec![result(number(i32::MIN))], "_start"),
        Ok(module_with_code_section(&[
            0x0a, 0x0b, 0x01, 0x09, 0x00, 0x41, 0x80, 0x80, 0x80, 0x80, 0x78, 0x0f, 0x0b,
        ]))
    );
}

#[test]
fn operation_has_its_operands_before_its_instruction() {
    let sum = binary(BinaryOperator::Add, number(3), number(4));
    assert_eq!(function_instructions(&vec![result(sum)]), vec![
        Instruction::I32Const { value: 3 },
        Instruction::I32Const { value: 4 },
        Instruction::I32Add,
        Instruction::Return,
        Instruction::End,
    ]);
    let nested = binary(
        BinaryOperator::Mul,
        number(3),
        binary(BinaryOperator::Sub, number(4), number(1)),
    );
    assert_eq!(function_instructions(&vec![result(nested)]), vec![
        Instruction::I32Const { value: 3 },
        Instruction::I32Const { value: 4 },
        Instruction::I32Const { value: 1 },
        Instruction::I32Sub,
        Instruction::I32Mul,
        Instruction::Return,
        Instruction::End,
    ]);
    let quotient = binary(BinaryOperator::Div, variable(0), variable(1));
    assert_eq!(function_instructions(&vec![result(quotient)]), vec![
        Instruction::LocalGet { index: 0 },
        Instruction::LocalGet { index: 1 },
        Instruction::I32DivS,
        Instruction::Return,
        Instruction::End,
    ]);
}

#[test]
fn sum_has_the_known_bytes() {
    let sum = binary(BinaryOperator::Add, number(3), number(4));
    assert_eq!(
        create_program(&vec![result(sum)], "_start"),
        Ok(module_with_code_section(&[
            0x0a, 0x0a, 0x01, 0x08, 0x00, 0x41, 0x03, 0x41, 0x04, 0x6a, 0x0f, 0x0b,
        ]))
    );
}

#[test]
fn declaration_with_the_default_value_has_no_code() {
    let program = vec![declare(0, number(0)), result(variable(0))];
    assert_eq!(function_instructions(&program), vec![
        Instruction::LocalGet { index: 0 },
        Instruction::Return,
        Instruction::End,
    ]);
    assert_eq!(
        create_program(&program, "_start"),
        Ok(module_with_code_section(&[
            0x0a, 0x09, 0x01, 0x07, 0x01, 0x01, 0x7f, 0x20, 0x00, 0x0f, 0x0b,
        ]))
    );
}

#[test]
fn declaration_with_another_value_stores_it() {
    let program = vec![
        declare(0, number(5)),
        declare(1, binary(BinaryOperator::Add, variable(0), number(1))),
        result(binary(BinaryOperator::Mul, variable(0), variable(1))),
    ];
    assert_eq!(function_instructions(&program), vec![
        Instruction::I32Const { value: 5 },
        Instruction::LocalSet { index: 0 },
        Instruction::LocalGet { index: 0 },
        Instruction::I32Const { value: 1 },
        Instruction::I32Add,
        Instruction::LocalSet { index: 1 },
        Instruction::LocalGet { index: 0 },
        Instruction::LocalGet { index: 1 },
        Instruction::I32Mul,
        Instruction::Return,
        Instruction::End,
    ]);
    assert_eq!(
        create_program(&program, "_start"),
        Ok(module_with_code_section(&[
            0x0a, 0x17, 0x01, 0x15, 0x01, 0x02, 0x7f, 0x41, 0x05, 0x21, 0x00, 0x20, 0x00, 0x41,
            0x01, 0x6a, 0x21, 0x01, 0x20, 0x00, 0x20, 0x01, 0x6c, 0x0f, 0x0b,
        ]))
    );
}

#[test]
fn slots_reach_up_to_the_largest_declared_one() {
    let program = vec![declare(4, number(0)), declare(1, number(0)), result(variable(4))];
    assert_eq!(
        create_program(&program, "_start"),
        Ok(module_with_code_section(&[
            0x0a, 0x09, 0x01, 0x07, 0x01, 0x05, 0x7f, 0x20, 0x04, 0x0f, 0x0b,
        ]))
    );
}

#[test]
fn counts_above_127_take_two_bytes() {
    let mut program = Vec::new();
    for index in 0..200 {
        program.push(declare(index, number(1)));
    }
    program.push(result(variable(199)));
    let bytes = create_program(&program, "_start").unwrap();
    let code_section = &bytes[31..];
    // 200 declarations of 4 or 5 bytes each, the result, the end and the slots.
    let code_length = 128 * 4 + 72 * 5 + 3 + 2;
    let body_length: usize = 4 + code_length;
    assert_eq!(body_length, 881);
    let payload_length = 1 + 2 + body_length;
    assert_eq!(code_section[0], 0x0a);
    assert_eq!(code_section[1..3], [(payload_length & 0x7f) as u8 | 0x80, (payload_length >> 7) as u8]);
    assert_eq!(code_section[3], 0x01);
    assert_eq!(code_section[4..6], [(body_length & 0x7f) as u8 | 0x80, (body_length >> 7) as u8]);
    assert_eq!(code_section[6..10], [0x01, 0xc8, 0x01, 0x7f]);
    assert_eq!(code_section[10..14], [0x41, 0x01, 0x21, 0x00]);
    assert_eq!(code_section.len(), 3 + payload_length);
    assert_eq!(bytes[bytes.len() - 5..], [0x20, 0xc7, 0x01, 0x0f, 0x0b]);
}

#[test]
fn reading_an_undeclared_slot_fails() {
    assert_eq!(
        create_program(&vec![result(variable(3))], "_start"),
        Err(CodeGenError::UndefinedVariable { index: 3 })
    );
    assert_eq!(
        create_program(&vec![declare(0, variable(1)), result(number(1))], "_start"),
        Err(CodeGenError::UndefinedVariable { index: 1 })
    );
}

#[test]
fn first_undeclared_slot_in_program_order_is_reported() {
    let program = vec![
        declare(0, number(0)),
        result(binary(
            BinaryOperator::Add,
            binary(BinaryOperator::Add, variable(0), variable(7)),
            variable(5),
        )),
        result(variable(9)),
    ];
    assert_eq!(create_program(&program, "_start"), Err(CodeGenError::UndefinedVariable { index: 7 }));
}

#[test]
fn slot_may_be_read_before_its_declaration() {
    let program = vec![result(variable(0)), declare(0, number(5))];
    assert!(create_program(&program, "_start").is_ok());
}

#[test]
fn program_without_result_is_unsupported() {
    assert_eq!(create_program(&vec![declare(0, number(0))], "_start"), Err(CodeGenError::UnsupportedConstruct));
    assert_eq!(
        create_program(&vec![declare(0, number(1)), declare(1, number(2))], "_start"),
        Err(CodeGenError::UnsupportedConstruct)
    );
}

#[test]
fn program_with_two_results_is_unsupported() {
    assert_eq!(
        create_program(&vec![result(number(1)), result(number(2))], "_start"),
        Err(CodeGenError::UnsupportedConstruct)
    );
}

#[test]
fn slot_beyond_32_bits_is_unsupported() {
    let program = vec![declare(u32::MAX as usize, number(0)), result(number(1))];
    assert_eq!(create_program(&program, "_start"), Err(CodeGenError::UnsupportedConstruct));
    let largest = vec![declare(u32::MAX as usize - 1, number(0)), result(number(1))];
    assert_eq!(
        create_program(&largest, "_start"),
        Ok(module_with_code_section(&[
            0x0a, 0x0d, 0x01, 0x0b, 0x01, 0xff, 0xff, 0xff, 0xff, 0x0f, 0x7f, 0x41, 0x01, 0x0f,
            0x0b,
        ]))
    );
}

#[test]
fn undeclared_slot_is_reported_before_other_faults() {
    assert_eq!(
        create_program(&vec![result(number(1)), result(variable(2))], "_start"),
        Err(CodeGenError::UndefinedVariable { index: 2 })
    );
}

#[test]
fn sections_come_in_the_order_of_their_ids() {
    let sections = module_sections(&vec![result(number(7))], "_start").unwrap();
    let ids: Vec<u8> = sections.iter().map(|section| section.id).collect();
    assert_eq!(ids, vec![1, 3, 7, 10]);
    assert_eq!(sections[0].payload, vec![0x01, 0x60, 0x00, 0x01, 0x7f]);
    assert_eq!(sections[1].payload, vec![0x01, 0x00]);
    assert_eq!(sections[2].payload, vec![0x01, 0x06, 0x5f, 0x73, 0x74, 0x61, 0x72, 0x74, 0x00, 0x00]);
    assert_eq!(sections[3].payload, vec![0x01, 0x05, 0x00, 0x41, 0x07, 0x0f, 0x0b]);
}

#[test]
fn function_is_exported_under_the_given_name() {
    let program = vec![result(number(7))];
    let sections = module_sections(&program, "main").unwrap();
    assert_eq!(sections[2].id, 7);
    assert_eq!(sections[2].payload, vec![0x01, 0x04, 0x6d, 0x61, 0x69, 0x6e, 0x00, 0x00]);
    let bytes = create_program(&program, "main").unwrap();
    assert_eq!(bytes, vec![
        0x00, 0x61, 0x73, 0x6d, 0x01, 0x00, 0x00, 0x00, 0x01, 0x05, 0x01, 0x60, 0x00, 0x01, 0x7f,
        0x03, 0x02, 0x01, 0x00, 0x07, 0x08, 0x01, 0x04, 0x6d, 0x61, 0x69, 0x6e, 0x00, 0x00, 0x0a,
        0x07, 0x01, 0x05, 0x00, 0x41, 0x07, 0x0f, 0x0b,
    ]);
}

#[test]
fn entry_name_is_written_as_utf8() {
    let sections = module_sections(&vec![result(number(7))], "dé").unwrap();
    assert_eq!(sections[2].payload, vec![0x01, 0x03, 0x64, 0xc3, 0xa9, 0x00, 0x00]);
    let unnamed = module_sections(&vec![result(number(7))], "").unwrap();
    assert_eq!(unnamed[2].payload, vec![0x01, 0x00, 0x00, 0x00]);
}

#[test]
fn long_entry_name_has_a_length_of_two_bytes() {
    let name = "n".repeat(200);
    let sections = module_sections(&vec![result(number(7))], &name).unwrap();
    assert_eq!(sections[2].payload[..3], [0x01, 0xc8, 0x01]);
    assert_eq!(sections[2].payload.len(), 1 + 2 + 200 + 2);
}

#[test]
fn default_entry_name_is_start() {
    assert_eq!(DEFAULT_ENTRY_NAME, "_start");
}

#[test]
fn module_is_the_header_and_the_sections() {
    let sections =
        vec![Section { id: 1, payload: vec![0xaa] }, Section { id: 5, payload: vec![0xbb, 0xcc] }];
    assert_eq!(
        encode_module(&sections),
        Ok(vec![0x00, 0x61, 0x73, 0x6d, 0x01, 0x00, 0x00, 0x00, 0x01, 0x01, 0xaa, 0x05, 0x02, 0xbb, 0xcc])
    );
    assert_eq!(encode_module(&vec![]), Ok(HEADER.to_vec()));
}

#[test]
fn section_sizes_above_127_take_two_bytes() {
    let sections = vec![Section { id: 2, payload: vec![0x11; 300] }];
    let bytes = encode_module(&sections).unwrap();
    assert_eq!(bytes[8..11], [0x02, 0xac, 0x02]);
    assert_eq!(bytes.len(), 8 + 3 + 300);
}

#[test]
fn sections_out_of_order_make_no_module() {
    let descending =
        vec![Section { id: 3, payload: vec![0x01] }, Section { id: 1, payload: vec![0x01] }];
    assert_eq!(encode_module(&descending), Err(CodeGenError::UnsupportedConstruct));
    let repeated =
        vec![Section { id: 3, payload: vec![0x01] }, Section { id: 3, payload: vec![0x01] }];
    assert_eq!(encode_module(&repeated), Err(CodeGenError::UnsupportedConstruct));
}

#[test]
fn empty_section_makes_no_module() {
    let sections = vec![Section { id: 1, payload: vec![0x01] }, Section { id: 3, payload: vec![] }];
    assert_eq!(encode_module(&sections), Err(CodeGenError::UnsupportedConstruct));
}

#[test]
fn each_instruction_has_its_bytes() {
    let cases: Vec<(Instruction, Vec<u8>)> = vec![
        (Instruction::I32Const { value: 5 }, vec![0x41, 0x05]),
        (Instruction::I32Const { value: -128 }, vec![0x41, 0x80, 0x7f]),
        (Instruction::LocalGet { index: 2 }, vec![0x20, 0x02]),
        (Instruction::LocalGet { index: 128 }, vec![0x20, 0x80, 0x01]),
        (Instruction::LocalSet { index: 3 }, vec![0x21, 0x03]),
        (Instruction::I32Add, vec![0x6a]),
        (Instruction::I32Sub, vec![0x6b]),
        (Instruction::I32Mul, vec![0x6c]),
        (Instruction::I32DivS, vec![0x6d]),
        (Instruction::Return, vec![0x0f]),
        (Instruction::End, vec![0x0b]),
    ];
    for (instruction, expected) in cases {
        let mut out = Vec::new();
        write_instruction(&mut out, instruction);
        assert_eq!(out, expected);
    }
}

#[test]
fn instructions_are_written_in_order_behind_what_is_there() {
    let mut out = vec![0x00];
    write_instructions(&mut out, &vec![
        Instruction::I32Const { value: 1 },
        Instruction::LocalSet { index: 0 },
        Instruction::End,
    ]);
    assert_eq!(out, vec![0x00, 0x41, 0x01, 0x21, 0x00, 0x0b]);
}

#[test]
fn slot_beyond_32_bits_is_named_modulo_its_operand() {
    if usize::BITS > 32 {
        let slot = (1usize << 32) + 5;
        assert_eq!(function_instructions(&vec![result(variable(slot))]), vec![
            Instruction::LocalGet { index: 5 },
            Instruction::Return,
            Instruction::End,
        ]);
        assert_eq!(
            create_program(&vec![declare(slot, number(0)), result(variable(slot))], "_start"),
            Err(CodeGenError::UnsupportedConstruct)
        );
    }
}
