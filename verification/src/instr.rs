//! The instruction set: a closed variant type shared by both backends.

use vstd::prelude::*;

verus! {

/// One typed instruction of the language. The variant set is closed: every
/// consumer matches all variants exhaustively, so extending the set forces
/// both backends to be updated together.
#[derive(Clone, Copy, PartialEq, Eq, Structural, Debug)]
pub enum Instruction {
    /// Push a 32-bit signed integer onto the operand stack.
    Push(i32),
    /// Pop two values, push their 32-bit wraparound sum.
    Plus,
    /// Pop two values, push the second-popped minus the first-popped,
    /// with 32-bit wraparound.
    Minus,
    /// Pop one value and print its decimal text followed by a newline.
    Dump,
}

/// Build a `Push` instruction carrying `x`.
pub fn push(x: i32) -> (r: Instruction)
    ensures
        r == Instruction::Push(x),
{
    Instruction::Push(x)
}

/// Build a `Plus` instruction.
pub fn plus() -> (r: Instruction)
    ensures
        r == Instruction::Plus,
{
    Instruction::Plus
}

/// Build a `Minus` instruction.
pub fn minus() -> (r: Instruction)
    ensures
        r == Instruction::Minus,
{
    Instruction::Minus
}

/// Build a `Dump` instruction.
pub fn dump() -> (r: Instruction)
    ensures
        r == Instruction::Dump,
{
    Instruction::Dump
}

} // verus!
