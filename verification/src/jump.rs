//! Unconditional jumps and no-operations, as machine code.
use crate::arch::Architecture;
use crate::bytes::{
    le_digits, le_value, lemma_le_round_trip, lemma_value_of_digits, pow256, Endian,
};
use crate::decode::{aarch64_branch_target, arm_branch_target};
use crate::error::{Error, Fault, Machine};
use crate::word::{
    difference, from_word, lemma_narrow, lemma_signed_sum, lemma_wrap_sum, low32, low_half, signed,
    signed64, sum, wrap64,
};
use vstd::prelude::*;

verus! {

/// The bytes of the 32-bit instruction `insn`.
pub open spec fn insn_bytes(endian: Endian, insn: nat) -> Seq<u8> {
    endian.digits(insn, 4)
}

/// Encode a 32-bit instruction word in the target's byte order.
pub fn encode_insn(endian: Endian, insn: u32) -> (b: Vec<u8>)
    ensures
        b@ == insn_bytes(endian, insn as nat),
        b@.len() == 4,
{
    let mut b: Vec<u8> = vec![0u8, 0u8, 0u8, 0u8];
    endian.write_uint(&mut b, 0, 4, insn as u64);
    proof {
        lemma_le_round_trip(insn as nat, 4);
        assert(b@ =~= insn_bytes(endian, insn as nat));
    }
    b
}

/// A no-operation of the machine: `nop` on x86 and AArch64, `mov r0, r0` on ARM, and
/// `sll $0, $0, 0` on MIPS.
pub open spec fn nop(machine: Machine) -> Seq<u8> {
    match machine.arch {
        Architecture::X86 | Architecture::X86_64 => seq![0x90u8],
        Architecture::Arm => insn_bytes(machine.endian, 0xe1a0_0000),
        Architecture::Arm64 => insn_bytes(machine.endian, 0xd503_201f),
        Architecture::Mips | Architecture::Mips64 => seq![0u8, 0u8, 0u8, 0u8],
    }
}

/// Get the NOP instruction bytes for the machine, encoded in its byte order.
pub fn get_nop_instruction(machine: Machine) -> (b: Vec<u8>)
    ensures
        b@ == nop(machine),
        b@.len() == 1 || b@.len() == 4,
{
    match machine.arch {
        Architecture::X86 | Architecture::X86_64 => vec![0x90u8],
        Architecture::Arm => encode_insn(machine.endian, 0xe1a0_0000),
        Architecture::Arm64 => encode_insn(machine.endian, 0xd503_201f),
        Architecture::Mips | Architecture::Mips64 => vec![0u8, 0u8, 0u8, 0u8],
    }
}

/// Whether a branch field of instruction counts spans the distance `x`: whole instructions, and
/// less than `half` bytes forwards or at most `half` backwards.
pub open spec fn spans(x: int, half: int) -> bool {
    x % 4 == 0 && -half <= x < half
}

/// Whether a jump of the machine can reach `to` from `from`. Distances are those of 64-bit
/// addresses that wrap around.
pub open spec fn reachable(machine: Machine, from: u64, to: u64) -> bool {
    match machine.arch {
        // A 32-bit displacement reaches all of a 32-bit address space.
        Architecture::X86 => to < 0x1_0000_0000,
        Architecture::X86_64 => -0x8000_0000 <= signed64(to - from - 5) < 0x8000_0000,
        Architecture::Arm => spans(signed64(to - from - 8), 0x200_0000),
        Architecture::Arm64 => spans(signed64(to - from), 0x800_0000),
        // The target lies in the same 256MB region as the delay slot.
        Architecture::Mips | Architecture::Mips64 => to % 4 == 0 && to / 0x1000_0000 == wrap64(
            from + 4,
        ) / 0x1000_0000,
    }
}

/// The machine code of an unconditional jump.
pub open spec fn jump(machine: Machine, from: u64, to: u64) -> Result<Seq<u8>, Fault<Seq<char>>> {
    if !reachable(machine, from, to) {
        Err(Fault::InvalidRange { begin: from, end: to })
    } else {
        match machine.arch {
            // JMP rel32, relative to the end of its five bytes.
            Architecture::X86 | Architecture::X86_64 => Ok(
                seq![0xE9u8] + le_digits(low32(to - from - 5) as nat, 4),
            ),
            // B, with a signed 24-bit count of instructions; the program counter is 8 ahead.
            Architecture::Arm => Ok(
                insn_bytes(
                    machine.endian,
                    (0xEA00_0000 + signed64(to - from - 8) / 4 % 0x100_0000) as nat,
                ),
            ),
            // B, with a signed 26-bit count of instructions.
            Architecture::Arm64 => Ok(
                insn_bytes(
                    machine.endian,
                    (0x1400_0000 + signed64(to - from) / 4 % 0x400_0000) as nat,
                ),
            ),
            // J, with bits 2 to 27 of the address.
            Architecture::Mips | Architecture::Mips64 => Ok(
                insn_bytes(machine.endian, (0x0800_0000 + to as int / 4 % 0x400_0000) as nat),
            ),
        }
    }
}

/// The branch field over the distance that the word `w` holds, for a field of `range` counts.
fn jump_field(w: u64, range: u32) -> (field: Option<u32>)
    requires
        range == 0x100_0000 || range == 0x400_0000,
    ensures
        field is Some <==> spans(signed64(w as int), 2 * range),
        field matches Some(f) ==> f < range && f == signed64(w as int) / 4 % (range as int),
{
    let x: i64 = from_word(w);
    let half: i64 = 2 * (range as i64);
    if w % 4 != 0 || x < -half || x >= half {
        return None;
    }
    Some((w / 4 % range as u64) as u32)
}

/// Whether `r` is the code, or the error, that `goal` names.
pub open spec fn is_code(r: Result<Vec<u8>, Error>, goal: Result<Seq<u8>, Fault<Seq<char>>>) -> bool {
    match r {
        Ok(code) => goal == Ok::<Seq<u8>, Fault<Seq<char>>>(code@),
        Err(e) => goal == Err::<Seq<u8>, Fault<Seq<char>>>(e@),
    }
}

/// The distance from `from + ahead` to `to`, as a word.
fn distance(from: u64, to: u64, ahead: u64) -> (w: u64)
    ensures
        low32(w as int) == low32(to - from - ahead),
        signed64(w as int) == signed64(to - from - ahead),
{
    proof {
        lemma_wrap_sum(to - from, ahead as int);
        lemma_wrap_sum(to - from - ahead, 0);
    }
    difference(difference(to, from), ahead)
}

/// JMP rel32.
fn x86_jump(from: u64, to: u64) -> (code: Vec<u8>)
    ensures
        code@ == seq![0xE9u8] + le_digits(low32(to - from - 5) as nat, 4),
        code@.len() == 5,
{
    let offset: u32 = low_half(distance(from, to, 5));
    let mut code: Vec<u8> = vec![0xE9u8, 0u8, 0u8, 0u8, 0u8];
    Endian::Little.write_uint(&mut code, 1, 4, offset as u64);
    proof {
        let d = le_digits(offset as nat, 4);
        lemma_le_round_trip(offset as nat, 4);
        assert(code@ =~= seq![0xE9u8] + d);
    }
    code
}

/// Generate an unconditional jump instruction.
///
/// A target that the instruction cannot reach from `from` is an error.
pub fn generate_jump_instruction(machine: Machine, from: u64, to: u64) -> (r: Result<
    Vec<u8>,
    Error,
>)
    ensures
        is_code(r, jump(machine, from, to)),
        r is Ok <==> reachable(machine, from, to),
        r matches Ok(code) ==> code@.len() == 4 || code@.len() == 5,
{
    match machine.arch {
        Architecture::X86 => {
            if to >= 0x1_0000_0000 {
                return Err(Fault::InvalidRange { begin: from, end: to });
            }
            Ok(x86_jump(from, to))
        },
        Architecture::X86_64 => {
            let x: i64 = from_word(distance(from, to, 5));
            if x < -0x8000_0000 || x >= 0x8000_0000 {
                return Err(Fault::InvalidRange { begin: from, end: to });
            }
            Ok(x86_jump(from, to))
        },
        Architecture::Arm => match jump_field(distance(from, to, 8), 0x100_0000) {
            None => Err(Fault::InvalidRange { begin: from, end: to }),
            Some(field) => Ok(encode_insn(machine.endian, 0xEA00_0000 + field)),
        },
        Architecture::Arm64 => match jump_field(distance(from, to, 0), 0x400_0000) {
            None => Err(Fault::InvalidRange { begin: from, end: to }),
            Some(field) => Ok(encode_insn(machine.endian, 0x1400_0000 + field)),
        },
        Architecture::Mips | Architecture::Mips64 => {
            if to % 4 != 0 || to / 0x1000_0000 != sum(from, 4) / 0x1000_0000 {
                return Err(Fault::InvalidRange { begin: from, end: to });
            }
            Ok(encode_insn(machine.endian, 0x0800_0000 + (to / 4 % 0x400_0000) as u32))
        },
    }
}

proof fn lemma_insn_value(endian: Endian, insn: nat)
    requires
        insn < 0x1_0000_0000,
    ensures
        endian.value(insn_bytes(endian, insn)) == insn,
{
    reveal_with_fuel(pow256, 5);
    lemma_value_of_digits(endian, insn, 4);
    vstd::arithmetic::div_mod::lemma_small_mod(insn, pow256(4));
}

/// Where a processor of the machine goes that executes the jump `code` at `from`: an address of
/// 32 bits on x86, of 64 bits elsewhere.
pub open spec fn jump_target(machine: Machine, code: Seq<u8>, from: u64) -> int {
    let insn = machine.endian.value(code) as int;
    match machine.arch {
        Architecture::X86 => low32(rel32_target(code, from as int)) as int,
        Architecture::X86_64 => wrap64(rel32_target(code, from as int)) as int,
        Architecture::Arm => wrap64(arm_branch_target(insn, from as int)) as int,
        Architecture::Arm64 => wrap64(aarch64_branch_target(insn, from as int)) as int,
        Architecture::Mips | Architecture::Mips64 => {
            let slot = wrap64(from + 4) as int;
            slot - slot % 0x1000_0000 + 4 * (insn % 0x400_0000)
        },
    }
}

/// The address that a five-byte jump at `from` goes to.
pub open spec fn rel32_target(code: Seq<u8>, from: int) -> int {
    from + 5 + signed(le_value(code.subrange(1, 5)) as int, 0x1_0000_0000)
}

/// Going a wrapped distance from `p` ends where the distance was measured to, in an address
/// space of `m` bytes.
proof fn lemma_lands(p: int, to: int, m: int)
    requires
        0 <= to < m,
    ensures
        (p + signed(to - p, m)) % m == to,
{
    lemma_signed_sum(p, to - p, m);
    vstd::arithmetic::div_mod::lemma_small_mod(to as nat, m as nat);
}

/// The field of a branch holds its count.
proof fn lemma_branch_insn(endian: Endian, opcode: int, count: int, range: int)
    requires
        range == 0x100_0000 && opcode == 0xEA00_0000 || range == 0x400_0000 && opcode == 0x1400_0000,
        -range / 2 <= count < range / 2,
    ensures
        signed(endian.value(insn_bytes(endian, (opcode + count % range) as nat)) as int, range)
            == count,
{
    if range == 0x100_0000 {
        lemma_insn_value(endian, (0xEA00_0000 + count % 0x100_0000) as nat);
    } else {
        lemma_insn_value(endian, (0x1400_0000 + count % 0x400_0000) as nat);
    }
}

proof fn lemma_x86_lands(from: u64, to: u64)
    ensures
        rel32_target(seq![0xE9u8] + le_digits(low32(to - from - 5) as nat, 4), from as int) == from
            + 5 + signed(to - from - 5, 0x1_0000_0000),
{
    let v = low32(to - from - 5) as nat;
    lemma_le_round_trip(v, 4);
    reveal_with_fuel(pow256, 5);
    vstd::arithmetic::div_mod::lemma_small_mod(v, pow256(4));
    assert((seq![0xE9u8] + le_digits(v, 4)).subrange(1, 5) =~= le_digits(v, 4));
}

proof fn lemma_branch_lands(endian: Endian, p: int, to: u64, opcode: int, range: int)
    requires
        range == 0x100_0000 && opcode == 0xEA00_0000 || range == 0x400_0000 && opcode == 0x1400_0000,
        spans(signed64(to - p), 2 * range),
    ensures
        wrap64(
            p + 4 * signed(
                endian.value(
                    insn_bytes(endian, (opcode + signed64(to - p) / 4 % range) as nat),
                ) as int,
                range,
            ),
        ) == to,
{
    lemma_lands(p, to as int, 0x1_0000_0000_0000_0000);
    lemma_branch_insn(endian, opcode, signed64(to - p) / 4, range);
}

/// A jump is generated for exactly the addresses in reach, and lands there.
pub proof fn law_jump_lands(machine: Machine, from: u64, to: u64)
    ensures
        jump(machine, from, to) is Ok <==> reachable(machine, from, to),
        jump(machine, from, to) matches Ok(code) ==> jump_target(machine, code, from) == to,
{
    if reachable(machine, from, to) {
        match machine.arch {
            Architecture::X86 => {
                lemma_x86_lands(from, to);
                lemma_lands(from + 5, to as int, 0x1_0000_0000);
            },
            Architecture::X86_64 => {
                lemma_x86_lands(from, to);
                lemma_lands(from + 5, to as int, 0x1_0000_0000_0000_0000);
                lemma_narrow(to - from - 5);
            },
            Architecture::Arm => {
                lemma_branch_lands(machine.endian, from + 8, to, 0xEA00_0000, 0x100_0000);
            },
            Architecture::Arm64 => {
                lemma_branch_lands(machine.endian, from as int, to, 0x1400_0000, 0x400_0000);
            },
            Architecture::Mips | Architecture::Mips64 => {
                lemma_insn_value(machine.endian, (0x0800_0000 + to as int / 4 % 0x400_0000) as nat);
            },
        }
    }
}

/// A jump is generated for every address that the processor can be told to go to: each
/// displacement, or each address in the region, that its field can hold.
pub proof fn law_jump_complete(machine: Machine, from: u64, to: u64, field: int)
    requires
        match machine.arch {
            Architecture::X86 => to < 0x1_0000_0000,
            Architecture::X86_64 => -0x8000_0000 <= field < 0x8000_0000 && to == wrap64(
                from + 5 + field,
            ),
            Architecture::Arm => -0x80_0000 <= field < 0x80_0000 && to == wrap64(
                from + 8 + 4 * field,
            ),
            Architecture::Arm64 => -0x200_0000 <= field < 0x200_0000 && to == wrap64(
                from + 4 * field,
            ),
            Architecture::Mips | Architecture::Mips64 => 0 <= field < 0x400_0000 && to == wrap64(
                from + 4,
            ) - wrap64(from + 4) as int % 0x1000_0000 + 4 * field,
        },
    ensures
        jump(machine, from, to) is Ok,
{
    match machine.arch {
        Architecture::X86_64 => lemma_distance(from + 5, to, field),
        Architecture::Arm => lemma_distance(from + 8, to, 4 * field),
        Architecture::Arm64 => lemma_distance(from as int, to, 4 * field),
        _ => {},
    }
}

/// The distance to where a displacement leads is the displacement.
proof fn lemma_distance(p: int, to: u64, d: int)
    requires
        -0x8000_0000 <= d < 0x8000_0000,
        to == wrap64(p + d),
    ensures
        signed64(to - p) == d,
{
    let w = 0x1_0000_0000_0000_0000int;
    vstd::arithmetic::div_mod::lemma_fundamental_div_mod(p + d, w);
    let q = (p + d) / w;
    assert(to - p == w * (-q) + d) by (nonlinear_arith)
        requires
            to == p + d - w * q,
    ;
    vstd::arithmetic::div_mod::lemma_mod_multiples_vanish(-q, d, w);
}

/// A jump is the shortest unconditional branch of its machine that does not link: `JMP rel32` on
/// x86, `B` on ARM and AArch64, `J` on MIPS.
pub proof fn law_jump_opcode(machine: Machine, from: u64, to: u64)
    ensures
        jump(machine, from, to) matches Ok(code) ==> {
            let insn = machine.endian.value(code) as int;
            match machine.arch {
                Architecture::X86 | Architecture::X86_64 => code.len() == 5 && code[0] == 0xe9,
                Architecture::Arm => code.len() == 4 && insn / 0x100_0000 == 0xea,
                Architecture::Arm64 => code.len() == 4 && insn / 0x400_0000 == 5,
                Architecture::Mips | Architecture::Mips64 => code.len() == 4 && insn / 0x400_0000
                    == 2,
            }
        },
        jump(machine, from, to) matches Err(f) ==> f == (Fault::<Seq<char>>::InvalidRange {
            begin: from,
            end: to,
        }),
{
    if reachable(machine, from, to) {
        let a = signed64(to - from - 8) / 4 % 0x100_0000;
        let b = signed64(to - from) / 4 % 0x400_0000;
        let c = to as int / 4 % 0x400_0000;
        let e = machine.endian;
        lemma_le_round_trip(low32(to - from - 5) as nat, 4);
        lemma_value_of_digits(e, (0xEA00_0000 + a) as nat, 4);
        lemma_value_of_digits(e, (0x1400_0000 + b) as nat, 4);
        lemma_value_of_digits(e, (0x0800_0000 + c) as nat, 4);
        lemma_insn_value(e, (0xEA00_0000 + a) as nat);
        lemma_insn_value(e, (0x1400_0000 + b) as nat);
        lemma_insn_value(e, (0x0800_0000 + c) as nat);
    }
}

/// A no-operation is `nop` on x86 and AArch64, `mov r0, r0` on ARM and `sll $0, $0, 0` on MIPS.
pub proof fn law_no_operation(machine: Machine)
    ensures
        match machine.arch {
            Architecture::X86 | Architecture::X86_64 => nop(machine).len() == 1 && nop(machine)[0]
                == 0x90,
            Architecture::Arm => nop(machine).len() == 4 && machine.endian.value(nop(machine))
                == 0xe1a0_0000,
            Architecture::Arm64 => nop(machine).len() == 4 && machine.endian.value(nop(machine))
                == 0xd503_201f,
            Architecture::Mips | Architecture::Mips64 => nop(machine).len() == 4 && (forall|i: int|
                0 <= i < 4 ==> #[trigger] nop(machine)[i] == 0),
        },
{
    lemma_value_of_digits(machine.endian, 0xe1a0_0000, 4);
    lemma_value_of_digits(machine.endian, 0xd503_201f, 4);
    lemma_insn_value(machine.endian, 0xe1a0_0000);
    lemma_insn_value(machine.endian, 0xd503_201f);
}

} // verus!
