//! What a reader finds in the bytes of a module.
//!
//! The functions of this file go the way back from bytes to sections,
//! instructions and numbers. They are stated for contracts alone: with them
//! the bytes that the generator gives can be said to hold what was put in,
//! and a module can be said to return a value.

use vstd::prelude::*;
use crate::ast::StatementView;
use crate::codegen::{
    code_payload, code_section_id, declared_slots, encode_section, encode_sections, export_payload,
    export_section_id, function_body, function_code, function_payload, function_section_id, generate,
    locals_declaration, module_bytes, module_header, module_sections_of, slot_count, type_payload,
    type_section_id, SectionView,
};
use crate::instruction::{encode_instruction, encode_instructions, Instruction};
use crate::leb128::{
    lemma_signed_round_trip, lemma_unsigned_round_trip, read_signed, read_unsigned, signed_leb128,
    unsigned_leb128,
};
use crate::semantics::{call, lemma_function_computes_program, outcome_of, program_value, Outcome};

verus! {

/// The instruction without operand that `opcode` is.
pub open spec fn plain_instruction(opcode: u8) -> Option<Instruction> {
    if opcode == 0x6A {
        Some(Instruction::I32Add)
    } else if opcode == 0x6B {
        Some(Instruction::I32Sub)
    } else if opcode == 0x6C {
        Some(Instruction::I32Mul)
    } else if opcode == 0x6D {
        Some(Instruction::I32DivS)
    } else if opcode == 0x0F {
        Some(Instruction::Return)
    } else if opcode == 0x0B {
        Some(Instruction::End)
    } else {
        None
    }
}

/// The instruction at the start of `bytes`, and the number of bytes that it
/// takes.
pub open spec fn read_instruction(bytes: Seq<u8>) -> Option<(Instruction, nat)> {
    if bytes.len() == 0 {
        None
    } else if bytes[0] == 0x41 {
        match read_signed(bytes.drop_first()) {
            Some((value, taken)) => if i32::MIN <= value <= i32::MAX {
                Some((Instruction::I32Const { value: value as i32 }, taken + 1))
            } else {
                None
            },
            None => None,
        }
    } else if bytes[0] == 0x20 || bytes[0] == 0x21 {
        match read_unsigned(bytes.drop_first()) {
            Some((index, taken)) => if index <= u32::MAX {
                if bytes[0] == 0x20 {
                    Some((Instruction::LocalGet { index: index as u32 }, taken + 1))
                } else {
                    Some((Instruction::LocalSet { index: index as u32 }, taken + 1))
                }
            } else {
                None
            },
            None => None,
        }
    } else {
        match plain_instruction(bytes[0]) {
            Some(instruction) => Some((instruction, 1nat)),
            None => None,
        }
    }
}

/// The instructions that `bytes` hold from start to end.
pub open spec fn read_instructions(bytes: Seq<u8>) -> Option<Seq<Instruction>>
    decreases bytes.len(),
{
    if bytes.len() == 0 {
        Some(Seq::<Instruction>::empty())
    } else {
        match read_instruction(bytes) {
            Some((instruction, taken)) => if 0 < taken <= bytes.len() {
                match read_instructions(bytes.skip(taken as int)) {
                    Some(rest) => Some(seq![instruction] + rest),
                    None => None,
                }
            } else {
                None
            },
            None => None,
        }
    }
}

/// The number of local slots that the start of a function body declares, and
/// the number of bytes that the declaration takes: no group, or one group of
/// 32-bit integers.
pub open spec fn read_locals(bytes: Seq<u8>) -> Option<(nat, nat)> {
    if bytes.len() == 0 {
        None
    } else if bytes[0] == 0x00 {
        Some((0nat, 1nat))
    } else if bytes[0] == 0x01 {
        match read_unsigned(bytes.drop_first()) {
            Some((count, taken)) => if taken + 1 < bytes.len() && bytes[taken + 1 as int] == 0x7F {
                Some((count, taken + 2))
            } else {
                None
            },
            None => None,
        }
    } else {
        None
    }
}

/// The number of local slots and the instructions of a function body.
pub open spec fn read_body(bytes: Seq<u8>) -> Option<(nat, Seq<Instruction>)> {
    match read_locals(bytes) {
        Some((slots, taken)) => match read_instructions(bytes.skip(taken as int)) {
            Some(code) => Some((slots, code)),
            None => None,
        },
        None => None,
    }
}

/// The section at the start of `bytes`, and the number of bytes that it
/// takes: an id, a size, and as many bytes of content as the size says.
pub open spec fn read_section(bytes: Seq<u8>) -> Option<(SectionView, nat)> {
    if bytes.len() == 0 {
        None
    } else {
        match read_unsigned(bytes.drop_first()) {
            Some((size, taken)) => if 1 + taken + size <= bytes.len() {
                Some(
                    (
                        SectionView {
                            id: bytes[0],
                            payload: bytes.subrange(1 + taken as int, 1 + taken + size as int),
                        },
                        1 + taken + size,
                    ),
                )
            } else {
                None
            },
            None => None,
        }
    }
}

/// The sections that `bytes` hold from start to end.
pub open spec fn read_sections(bytes: Seq<u8>) -> Option<Seq<SectionView>>
    decreases bytes.len(),
{
    if bytes.len() == 0 {
        Some(Seq::<SectionView>::empty())
    } else {
        match read_section(bytes) {
            Some((section, taken)) => if 0 < taken <= bytes.len() {
                match read_sections(bytes.skip(taken as int)) {
                    Some(rest) => Some(seq![section] + rest),
                    None => None,
                }
            } else {
                None
            },
            None => None,
        }
    }
}

/// The sections of the module that `bytes` are: those behind the header.
pub open spec fn read_module(bytes: Seq<u8>) -> Option<Seq<SectionView>> {
    if bytes.len() >= 8 && bytes.subrange(0, 8) == module_header() {
        read_sections(bytes.skip(8))
    } else {
        None
    }
}

/// The one function body that the content of a code section holds.
pub open spec fn read_code_payload(payload: Seq<u8>) -> Option<(nat, Seq<Instruction>)> {
    if payload.len() > 0 && payload[0] == 0x01 {
        match read_unsigned(payload.drop_first()) {
            Some((size, taken)) => if 1 + taken + size == payload.len() {
                read_body(payload.subrange(1 + taken as int, 1 + taken + size as int))
            } else {
                None
            },
            None => None,
        }
    } else {
        None
    }
}

/// The function that the module that `bytes` are exports under the name
/// `entry`, by the number of its local slots and its instructions: the
/// module declares one function without parameters and with one 32-bit
/// integer result, exports it under that name, and holds its body.
pub open spec fn read_entry_function(bytes: Seq<u8>, entry: Seq<u8>) -> Option<(nat, Seq<Instruction>)> {
    match read_module(bytes) {
        Some(sections) => if sections.len() == 4 && sections[0] == (SectionView {
            id: type_section_id(),
            payload: type_payload(),
        }) && sections[1] == (SectionView { id: function_section_id(), payload: function_payload() })
            && sections[2] == (SectionView { id: export_section_id(), payload: export_payload(entry) })
            && sections[3].id == code_section_id() {
            read_code_payload(sections[3].payload)
        } else {
            None
        },
        None => None,
    }
}

/// What calling the function that the module that `bytes` are exports under
/// the name `entry` comes to.
pub open spec fn run_module(bytes: Seq<u8>, entry: Seq<u8>) -> Option<Outcome> {
    match read_entry_function(bytes, entry) {
        Some((slots, code)) => Some(call(code, slots)),
        None => None,
    }
}

/// Reading the bytes of an instruction gives back the instruction and takes
/// exactly its bytes, whatever follows them.
pub proof fn lemma_read_instruction(instruction: Instruction, rest: Seq<u8>)
    ensures
        encode_instruction(instruction).len() > 0,
        read_instruction(encode_instruction(instruction) + rest) == Some(
            (instruction, encode_instruction(instruction).len()),
        ),
{
    let bytes = encode_instruction(instruction) + rest;
    match instruction {
        Instruction::I32Const { value } => {
            lemma_signed_round_trip(value as int, rest);
            assert(bytes.drop_first() =~= signed_leb128(value as int) + rest);
        },
        Instruction::LocalGet { index } => {
            lemma_unsigned_round_trip(index as nat, rest);
            assert(bytes.drop_first() =~= unsigned_leb128(index as nat) + rest);
        },
        Instruction::LocalSet { index } => {
            lemma_unsigned_round_trip(index as nat, rest);
            assert(bytes.drop_first() =~= unsigned_leb128(index as nat) + rest);
        },
        _ => {},
    }
}

/// The bytes of instructions are those of the first, then those of the
/// others.
pub proof fn lemma_encode_instructions_front(first: Instruction, others: Seq<Instruction>)
    ensures
        encode_instructions(seq![first] + others) == encode_instruction(first) + encode_instructions(
            others,
        ),
    decreases others.len(),
{
    let code = seq![first] + others;
    if others.len() == 0 {
        assert(encode_instructions(code.drop_last()) =~= Seq::<u8>::empty());
    } else {
        lemma_encode_instructions_front(first, others.drop_last());
        assert(code.drop_last() =~= seq![first] + others.drop_last());
    }
}

/// Reading the bytes of instructions gives back the instructions.
pub proof fn lemma_read_instructions(code: Seq<Instruction>)
    ensures
        read_instructions(encode_instructions(code)) == Some(code),
    decreases code.len(),
{
    if code.len() > 0 {
        let first = code.first();
        let others = code.drop_first();
        assert(code =~= seq![first] + others);
        lemma_encode_instructions_front(first, others);
        lemma_read_instruction(first, encode_instructions(others));
        lemma_read_instructions(others);
        let bytes = encode_instructions(code);
        assert(bytes.skip(encode_instruction(first).len() as int) =~= encode_instructions(others));
    }
}

/// Reading a function body gives back the number of its local slots and its
/// instructions.
pub proof fn lemma_read_body(slots: nat, code: Seq<Instruction>)
    ensures
        read_body(locals_declaration(slots) + encode_instructions(code)) == Some((slots, code)),
{
    let locals = locals_declaration(slots);
    let bytes = locals + encode_instructions(code);
    lemma_read_instructions(code);
    if slots == 0 {
        assert(bytes.skip(1) =~= encode_instructions(code));
    } else {
        let count = unsigned_leb128(slots);
        lemma_unsigned_round_trip(slots, seq![0x7Fu8] + encode_instructions(code));
        assert(bytes.drop_first() =~= count + (seq![0x7Fu8] + encode_instructions(code)));
        assert(bytes.skip(count.len() + 2 as int) =~= encode_instructions(code));
    }
}

/// Reading the bytes of a section gives back the section and takes exactly
/// its bytes, whatever follows them.
pub proof fn lemma_read_section(section: SectionView, rest: Seq<u8>)
    ensures
        encode_section(section).len() > 0,
        read_section(encode_section(section) + rest) == Some((section, encode_section(section).len())),
{
    let size = unsigned_leb128(section.payload.len());
    let bytes = encode_section(section) + rest;
    lemma_unsigned_round_trip(section.payload.len(), section.payload + rest);
    assert(bytes.drop_first() =~= size + (section.payload + rest));
    assert(bytes.subrange(1 + size.len() as int, 1 + size.len() + section.payload.len() as int)
        =~= section.payload);
}

/// The bytes of sections are those of the first, then those of the others.
pub proof fn lemma_encode_sections_front(first: SectionView, others: Seq<SectionView>)
    ensures
        encode_sections(seq![first] + others) == encode_section(first) + encode_sections(others),
    decreases others.len(),
{
    let sections = seq![first] + others;
    if others.len() == 0 {
        assert(encode_sections(sections.drop_last()) =~= Seq::<u8>::empty());
    } else {
        lemma_encode_sections_front(first, others.drop_last());
        assert(sections.drop_last() =~= seq![first] + others.drop_last());
    }
}

/// Reading the bytes of sections gives back the sections.
pub proof fn lemma_read_sections(sections: Seq<SectionView>)
    ensures
        read_sections(encode_sections(sections)) == Some(sections),
    decreases sections.len(),
{
    if sections.len() > 0 {
        let first = sections.first();
        let others = sections.drop_first();
        assert(sections =~= seq![first] + others);
        lemma_encode_sections_front(first, others);
        lemma_read_section(first, encode_sections(others));
        lemma_read_sections(others);
        let bytes = encode_sections(sections);
        assert(bytes.skip(encode_section(first).len() as int) =~= encode_sections(others));
    }
}

/// Reading the bytes of a module gives back its sections: a module holds
/// what was put into it, and nothing else.
pub proof fn lemma_read_module(sections: Seq<SectionView>)
    requires
        module_bytes(sections) is Ok,
    ensures
        read_module(module_bytes(sections)->Ok_0) == Some(sections),
{
    let bytes = module_header() + encode_sections(sections);
    lemma_read_sections(sections);
    assert(bytes.subrange(0, 8) =~= module_header());
    assert(bytes.skip(8) =~= encode_sections(sections));
}

/// The module of a program holds the program's function under the entry
/// name, and calling it gives the program's value: the module returns that
/// value, and traps where there is none.
pub proof fn lemma_module_computes_program(program: Seq<StatementView>, entry: Seq<u8>)
    requires
        program.len() > 0,
        generate(program, entry) is Ok,
    ensures
        read_entry_function(generate(program, entry)->Ok_0, entry) == Some(
            (slot_count(declared_slots(program)), function_code(program)),
        ),
        run_module(generate(program, entry)->Ok_0, entry) == Some(outcome_of(program_value(program))),
{
    let sections = module_sections_of(program, entry)->Ok_0;
    let body = function_body(program);
    let payload = code_payload(program);
    let size = unsigned_leb128(body.len());
    lemma_read_module(sections);
    lemma_unsigned_round_trip(body.len(), body);
    assert(payload.drop_first() =~= size + body);
    assert(payload.subrange(1 + size.len() as int, 1 + size.len() + body.len() as int) =~= body);
    lemma_read_body(slot_count(declared_slots(program)), function_code(program));
    lemma_function_computes_program(program);
}

} // verus!
