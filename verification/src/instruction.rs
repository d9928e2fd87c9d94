//! The instructions that a function body is made of, and their binary form.

use vstd::prelude::*;
use crate::leb128::{signed_leb128, unsigned_leb128, write_signed, write_unsigned};

verus! {

/// One instruction of the stack machine. Each pops its operands from the
/// evaluation stack and pushes at most one result.
#[derive(Debug, Clone, Copy, PartialEq, Eq, Structural)]
pub enum Instruction {
    /// Pushes a constant.
    I32Const { value: i32 },
    /// Pushes the value of a local slot.
    LocalGet { index: u32 },
    /// Pops a value into a local slot.
    LocalSet { index: u32 },
    I32Add,
    I32Sub,
    I32Mul,
    /// Signed division, truncating toward zero.
    I32DivS,
    /// Leaves the function with the value on top of the stack.
    Return,
    /// Closes the function body.
    End,
}

/// The bytes of one instruction: its opcode, then its immediate operand in
/// variable-length form where it has one.
pub open spec fn encode_instruction(instruction: Instruction) -> Seq<u8> {
    match instruction {
        Instruction::I32Const { value } => seq![0x41u8] + signed_leb128(value as int),
        Instruction::LocalGet { index } => seq![0x20u8] + unsigned_leb128(index as nat),
        Instruction::LocalSet { index } => seq![0x21u8] + unsigned_leb128(index as nat),
        Instruction::I32Add => seq![0x6Au8],
        Instruction::I32Sub => seq![0x6Bu8],
        Instruction::I32Mul => seq![0x6Cu8],
        Instruction::I32DivS => seq![0x6Du8],
        Instruction::Return => seq![0x0Fu8],
        Instruction::End => seq![0x0Bu8],
    }
}

/// The bytes of a sequence of instructions, one after the other.
pub open spec fn encode_instructions(code: Seq<Instruction>) -> Seq<u8>
    decreases code.len(),
{
    if code.len() == 0 {
        Seq::<u8>::empty()
    } else {
        encode_instructions(code.drop_last()) + encode_instruction(code.last())
    }
}

/// Appends the bytes of `instruction` to `out`.
pub fn write_instruction(out: &mut Vec<u8>, instruction: Instruction)
    ensures
        final(out)@ == old(out)@ + encode_instruction(instruction),
{
    match instruction {
        Instruction::I32Const { value } => {
            out.push(0x41u8);
            write_signed(out, value);
        },
        Instruction::LocalGet { index } => {
            out.push(0x20u8);
            write_unsigned(out, index);
        },
        Instruction::LocalSet { index } => {
            out.push(0x21u8);
            write_unsigned(out, index);
        },
        Instruction::I32Add => {
            out.push(0x6Au8);
        },
        Instruction::I32Sub => {
            out.push(0x6Bu8);
        },
        Instruction::I32Mul => {
            out.push(0x6Cu8);
        },
        Instruction::I32DivS => {
            out.push(0x6Du8);
        },
        Instruction::Return => {
            out.push(0x0Fu8);
        },
        Instruction::End => {
            out.push(0x0Bu8);
        },
    }
}

/// Appends the bytes of every instruction of `code`, in order, to `out`.
pub fn write_instructions(out: &mut Vec<u8>, code: &Vec<Instruction>)
    ensures
        final(out)@ == old(out)@ + encode_instructions(code@),
{
    let mut i: usize = 0;
    while i < code.len()
        invariant
            i <= code.len(),
            out@ == old(out)@ + encode_instructions(code@.take(i as int)),
        decreases code.len() - i,
    {
        write_instruction(out, code[i]);
        proof {
            let next = code@.take(i + 1);
            assert(next.drop_last() =~= code@.take(i as int));
        }
        i = i + 1;
    }
    assert(code@.take(code.len() as int) =~= code@);
}

} // verus!
