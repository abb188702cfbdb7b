//! The five-byte near jump that redirects a function, and its decoding.

use vstd::prelude::*;

verus! {

/// Number of bytes that the near jump occupies at the start of a target.
pub const PATCH_LEN: usize = 5;

/// Opcode of a near jump with a 32-bit relative displacement.
pub const JUMP_OPCODE: u8 = 0xE9;

/// `v` reduced to the 32-bit address space.
pub open spec fn wrap(v: int) -> u32 {
    (v % 0x1_0000_0000) as u32
}

/// The displacement that a jump placed at `from` carries to land on `to`:
/// the distance from the end of the instruction, modulo 2^32.
pub open spec fn displacement(from: u32, to: u32) -> u32 {
    wrap(to - from - 5)
}

/// The four bytes of `v`, least significant first.
pub open spec fn little_endian(v: u32) -> Seq<u8> {
    seq![
        (v % 0x100) as u8,
        (v / 0x100 % 0x100) as u8,
        (v / 0x1_0000 % 0x100) as u8,
        (v / 0x100_0000) as u8,
    ]
}

/// The number that four bytes spell, least significant first.
pub open spec fn little_endian_value(bytes: Seq<u8>) -> int
    recommends
        bytes.len() == 4,
{
    bytes[0] + bytes[1] * 0x100 + bytes[2] * 0x1_0000 + bytes[3] * 0x100_0000
}

/// The instruction bytes of a jump at `from` to `to`.
pub open spec fn jump_code(from: u32, to: u32) -> Seq<u8> {
    seq![JUMP_OPCODE] + little_endian(displacement(from, to))
}

/// Where code at `from` sends control if it starts with a near jump.
pub open spec fn jump_destination(from: u32, code: Seq<u8>) -> Option<u32> {
    if code.len() >= 5 && code[0] == JUMP_OPCODE {
        Some(wrap(from + 5 + little_endian_value(code.subrange(1, 5))))
    } else {
        None
    }
}

/// The address right behind the patched bytes of `target`, where the
/// trampoline hands control back.
pub open spec fn continuation(target: u32) -> u32 {
    wrap(target + 5)
}

/// Computes the address right behind the patched bytes of `target`.
pub fn continuation_of(target: u32) -> (next: u32)
    ensures
        next == continuation(target),
{
    target.wrapping_add(5)
}

/// Assembles the jump that, placed at `from`, continues at `to`.
pub fn encode_jump(from: u32, to: u32) -> (code: Vec<u8>)
    ensures
        code@ == jump_code(from, to),
{
    let d: u32 = to.wrapping_sub(from).wrapping_sub(5);
    assert(d == displacement(from, to));
    let mut code: Vec<u8> = Vec::new();
    code.push(JUMP_OPCODE);
    code.push((d % 0x100) as u8);
    code.push((d / 0x100 % 0x100) as u8);
    code.push((d / 0x1_0000 % 0x100) as u8);
    code.push((d / 0x100_0000) as u8);
    assert(code@ =~= jump_code(from, to));
    code
}

/// Reads the destination of a near jump at the start of `code`, which stands
/// at `from`; `None` if `code` does not start with one.
pub fn decode_jump(from: u32, code: &Vec<u8>) -> (destination: Option<u32>)
    ensures
        destination == jump_destination(from, code@),
{
    if code.len() < 5 || code[0] != JUMP_OPCODE {
        return None;
    }
    let b0: u32 = code[1] as u32;
    let b1: u32 = code[2] as u32;
    let b2: u32 = code[3] as u32;
    let b3: u32 = code[4] as u32;
    let d: u32 = b0 + b1 * 0x100 + b2 * 0x1_0000 + b3 * 0x100_0000;
    assert(d == little_endian_value(code@.subrange(1, 5)));
    Some(from.wrapping_add(5).wrapping_add(d))
}

/// A jump decodes to the destination it was assembled for.
pub proof fn lemma_jump_round_trip(from: u32, to: u32)
    ensures
        jump_code(from, to).len() == PATCH_LEN,
        jump_destination(from, jump_code(from, to)) == Some(to),
{
    let d = displacement(from, to);
    let code = jump_code(from, to);
    assert(code.subrange(1, 5) =~= little_endian(d));
    assert(little_endian_value(little_endian(d)) == d);
}

} // verus!
