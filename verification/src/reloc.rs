//! Relocation: what each relocation type of each architecture writes, and where.
use crate::arch::{
    Architecture, R_AARCH64_ABS32, R_AARCH64_ABS64, R_AARCH64_ADD_ABS_LO12_NC,
    R_AARCH64_ADR_GOT_PAGE, R_AARCH64_ADR_PREL_PG_HI21, R_AARCH64_CALL26, R_AARCH64_JUMP26,
    R_AARCH64_LD64_GOT_LO12_NC, R_AARCH64_LDST128_ABS_LO12_NC, R_AARCH64_LDST16_ABS_LO12_NC,
    R_AARCH64_LDST32_ABS_LO12_NC, R_AARCH64_LDST64_ABS_LO12_NC, R_AARCH64_LDST8_ABS_LO12_NC,
    R_AARCH64_PREL32, R_AARCH64_PREL64, R_ARM_ABS32, R_ARM_CALL, R_ARM_GOT_PREL, R_ARM_JUMP24,
    R_ARM_MOVT_ABS, R_ARM_MOVW_ABS_NC, R_ARM_PC24, R_ARM_REL32, R_MIPS_26, R_MIPS_32, R_MIPS_64,
    R_MIPS_HI16, R_MIPS_LO16, R_MIPS_PC16, R_MIPS_PC32, R_X86_64_32, R_X86_64_32S, R_X86_64_64,
    R_X86_64_GOTPCREL, R_X86_64_GOTPCRELX, R_X86_64_PC32, R_X86_64_PC64, R_X86_64_PLT32,
    R_X86_64_REX_GOTPCRELX,
};
use crate::bytes::{overwrite, pow256, uint_at, Endian};
use crate::word::{
    absolute, difference, from_word, lemma_word_bits, lemma_wrap_sum, low32, low_half, relative,
    sign_extend, signed, signed64, sum, to_word, wrap64,
};
use vstd::prelude::*;

verus! {

/// The relocation families.
#[derive(Debug, Clone, Copy, PartialEq, Eq, Structural)]
pub enum Family {
    X86_64,
    Aarch64,
    Arm,
    Mips,
}

/// The references that need a global-offset-table slot.
#[derive(Debug, Clone, Copy, PartialEq, Eq, Structural)]
pub enum SlotUse {
    GotPcRel,
    AdrGotPage,
    Ld64GotLo12,
    ArmGotPrel,
}

/// Why a relocation cannot be applied.
#[derive(Debug, Clone, Copy, PartialEq, Eq, Structural)]
pub enum RelocError {
    /// The family has no such relocation type, or the library does not support it.
    Unsupported { family: Family, r_type: u32 },
    /// A reference through the global offset table, without a slot.
    MissingSlot { slot: SlotUse },
    /// A branch displacement that its field cannot hold.
    BranchRange { family: Family, target: i64 },
    /// A page displacement that an ADRP cannot hold.
    PageRange { displacement: i64 },
    /// A field that lies outside the bytes that are relocated.
    OutsideSection,
}

/// What a relocation writes.
#[derive(Debug, Clone, Copy, PartialEq, Eq, Structural)]
pub enum Field {
    /// The low `width` bytes of `value`.
    Bytes { width: usize, value: u64 },
    /// The bits of the 32-bit instruction that `mask` selects, taken from `bits`.
    Bits { mask: u32, bits: u32 },
}

/// `insn` with the bits that `mask` selects taken from `value`.
pub open spec fn with_bits(insn: u32, mask: u32, value: u32) -> u32 {
    (insn & !mask) | (value & mask)
}

/// `buf` after `field` is written at `off`.
pub open spec fn stored(endian: Endian, buf: Seq<u8>, off: int, field: Field) -> Result<
    Seq<u8>,
    RelocError,
> {
    match field {
        Field::Bytes { width, value } => if off + width <= buf.len() {
            Ok(overwrite(buf, off, endian.digits(value as nat, width as nat)))
        } else {
            Err(RelocError::OutsideSection)
        },
        Field::Bits { mask, bits } => if off + 4 <= buf.len() {
            Ok(overwrite(buf, off, endian.digits(
                with_bits(uint_at(endian, buf, off, 4) as u32, mask, bits) as nat,
                4,
            )))
        } else {
            Err(RelocError::OutsideSection)
        },
    }
}

/// The field of an x86-64 relocation.
#[verifier::opaque]
pub open spec fn x86_64_field(r_type: u32, s: int, a: int, p: int, got: Option<u64>) -> Result<
    Field,
    RelocError,
> {
    if r_type == R_X86_64_64 {
        Ok(Field::Bytes { width: 8, value: wrap64(s + a) })
    } else if r_type == R_X86_64_PC64 {
        Ok(Field::Bytes { width: 8, value: wrap64(s + a - p) })
    } else if r_type == R_X86_64_PC32 || r_type == R_X86_64_PLT32 {
        Ok(Field::Bytes { width: 4, value: low32(s + a - p) as u64 })
    } else if r_type == R_X86_64_32 || r_type == R_X86_64_32S {
        Ok(Field::Bytes { width: 4, value: low32(s + a) as u64 })
    } else if r_type == R_X86_64_GOTPCREL || r_type == R_X86_64_GOTPCRELX || r_type
        == R_X86_64_REX_GOTPCRELX {
        match got {
            None => Err(RelocError::MissingSlot { slot: SlotUse::GotPcRel }),
            Some(g) => Ok(Field::Bytes { width: 4, value: low32(g + a - p) as u64 }),
        }
    } else {
        Err(RelocError::Unsupported { family: Family::X86_64, r_type })
    }
}

/// A branch field that counts instructions of four bytes, for displacements of less than `reach`
/// bytes forwards and at most `reach` bytes backwards.
pub open spec fn branch_field(family: Family, x: int, reach: int, mask: u32) -> Result<
    Field,
    RelocError,
> {
    if x % 4 != 0 || !(-reach <= x < reach) {
        Err(RelocError::BranchRange { family, target: x as i64 })
    } else {
        Ok(Field::Bits { mask, bits: low32(x / 4) })
    }
}

/// The distance from the page of `p` to the page of `s + a`.
pub open spec fn page_distance(s: int, a: int, p: int) -> int {
    signed64((s + a) - (s + a) % 0x1000 - (p - p % 0x1000))
}

/// The field of an ADRP for the page displacement `x`: a signed count of pages, its two low
/// bits at bit 29 and the rest at bit 5.
pub open spec fn adrp_field(x: int) -> Result<Field, RelocError> {
    if x % 0x1000 != 0 || !(-0x1_0000_0000 <= x < 0x1_0000_0000) {
        Err(RelocError::PageRange { displacement: x as i64 })
    } else {
        let pages = (x / 0x1000) % 0x20_0000;
        Ok(
            Field::Bits {
                mask: 0x60ff_ffe0,
                bits: ((pages % 4) * 0x2000_0000 + (pages / 4) * 0x20) as u32,
            },
        )
    }
}

/// The offset-in-page field of an AArch64 instruction that counts units of `unit` bytes.
pub open spec fn page_offset_field(address: int, unit: int) -> Field {
    Field::Bits { mask: 0x003f_fc00, bits: ((address % 0x1000) / unit * 0x400) as u32 }
}

/// The bytes that a scaled AArch64 load or store moves.
pub open spec fn access_size(r_type: u32) -> int {
    if r_type == R_AARCH64_LDST8_ABS_LO12_NC {
        1
    } else if r_type == R_AARCH64_LDST16_ABS_LO12_NC {
        2
    } else if r_type == R_AARCH64_LDST32_ABS_LO12_NC {
        4
    } else if r_type == R_AARCH64_LDST64_ABS_LO12_NC {
        8
    } else {
        16
    }
}

/// The field of an AArch64 relocation.
#[verifier::opaque]
pub open spec fn aarch64_field(r_type: u32, s: int, a: int, p: int, got: Option<u64>) -> Result<
    Field,
    RelocError,
> {
    if r_type == R_AARCH64_ABS64 {
        Ok(Field::Bytes { width: 8, value: wrap64(s + a) })
    } else if r_type == R_AARCH64_ABS32 {
        Ok(Field::Bytes { width: 4, value: low32(s + a) as u64 })
    } else if r_type == R_AARCH64_PREL64 {
        Ok(Field::Bytes { width: 8, value: wrap64(s + a - p) })
    } else if r_type == R_AARCH64_PREL32 {
        Ok(Field::Bytes { width: 4, value: low32(s + a - p) as u64 })
    } else if r_type == R_AARCH64_CALL26 || r_type == R_AARCH64_JUMP26 {
        branch_field(Family::Aarch64, signed64(s + a - p), 0x800_0000, 0x03ff_ffff)
    } else if r_type == R_AARCH64_ADR_PREL_PG_HI21 {
        adrp_field(page_distance(s, a, p))
    } else if r_type == R_AARCH64_ADD_ABS_LO12_NC {
        Ok(page_offset_field(s + a, 1))
    } else if r_type == R_AARCH64_LDST8_ABS_LO12_NC || r_type == R_AARCH64_LDST16_ABS_LO12_NC
        || r_type == R_AARCH64_LDST32_ABS_LO12_NC || r_type == R_AARCH64_LDST64_ABS_LO12_NC
        || r_type == R_AARCH64_LDST128_ABS_LO12_NC {
        Ok(page_offset_field(s + a, access_size(r_type)))
    } else if r_type == R_AARCH64_ADR_GOT_PAGE {
        match got {
            None => Err(RelocError::MissingSlot { slot: SlotUse::AdrGotPage }),
            Some(g) => adrp_field(page_distance(g as int, a, p)),
        }
    } else if r_type == R_AARCH64_LD64_GOT_LO12_NC {
        match got {
            None => Err(RelocError::MissingSlot { slot: SlotUse::Ld64GotLo12 }),
            Some(g) => Ok(page_offset_field(g + a, 8)),
        }
    } else {
        Err(RelocError::Unsupported { family: Family::Aarch64, r_type })
    }
}

/// The 16-bit immediate of an ARM MOVW or MOVT: four bits at bit 16 and twelve at bit 0.
pub open spec fn mov_immediate(insn: int) -> int {
    (insn / 0x1_0000) % 16 * 0x1000 + insn % 0x1000
}

/// The field that puts `half` into an ARM MOVW or MOVT.
pub open spec fn mov_field(half: int) -> Field {
    Field::Bits { mask: 0x000f_0fff, bits: (half / 0x1000 * 0x1_0000 + half % 0x1000) as u32 }
}

/// The field of an ARM relocation whose instruction (or word) is `insn` so far: the addend is
/// stored in the field.
#[verifier::opaque]
pub open spec fn arm_field(r_type: u32, insn: int, s: int, p: int, got: Option<u64>) -> Result<
    Field,
    RelocError,
> {
    let word = signed(insn, 0x1_0000_0000);
    if r_type == R_ARM_ABS32 {
        Ok(Field::Bytes { width: 4, value: low32(s + word) as u64 })
    } else if r_type == R_ARM_REL32 {
        Ok(Field::Bytes { width: 4, value: low32(s + word - p) as u64 })
    } else if r_type == R_ARM_CALL || r_type == R_ARM_JUMP24 || r_type == R_ARM_PC24 {
        let a = 4 * signed(insn, 0x100_0000);
        branch_field(Family::Arm, signed64(s + a - p), 0x200_0000, 0x00ff_ffff)
    } else if r_type == R_ARM_MOVW_ABS_NC {
        Ok(mov_field((s + signed(mov_immediate(insn), 0x1_0000)) % 0x1_0000))
    } else if r_type == R_ARM_MOVT_ABS {
        Ok(mov_field((s + signed(mov_immediate(insn), 0x1_0000)) / 0x1_0000 % 0x1_0000))
    } else if r_type == R_ARM_GOT_PREL {
        match got {
            None => Err(RelocError::MissingSlot { slot: SlotUse::ArmGotPrel }),
            Some(g) => Ok(Field::Bytes { width: 4, value: low32(g + word - p) as u64 }),
        }
    } else {
        Err(RelocError::Unsupported { family: Family::Arm, r_type })
    }
}

/// The field of a MIPS relocation whose instruction (or word) is `insn` so far and whose
/// doubleword is `wide`. The addend is `a`, or is stored in the field where `implicit` is set.
#[verifier::opaque]
pub open spec fn mips_field(
    r_type: u32,
    insn: int,
    wide: int,
    s: int,
    a: int,
    p: int,
    implicit: bool,
    pair_lo: Option<i64>,
) -> Result<Field, RelocError> {
    if r_type == R_MIPS_32 {
        let a = if implicit {
            insn
        } else {
            a
        };
        Ok(Field::Bytes { width: 4, value: low32(s + a) as u64 })
    } else if r_type == R_MIPS_64 {
        let a = if implicit {
            wide
        } else {
            a
        };
        Ok(Field::Bytes { width: 8, value: wrap64(s + a) })
    } else if r_type == R_MIPS_26 {
        let a = if implicit {
            4 * (insn % 0x400_0000)
        } else {
            a
        };
        Ok(Field::Bits { mask: 0x03ff_ffff, bits: low32((s + a) / 4) })
    } else if r_type == R_MIPS_HI16 {
        let high = if implicit {
            insn % 0x1_0000 * 0x1_0000
        } else {
            a * 0x1_0000
        };
        let low = match pair_lo {
            None => 0,
            Some(l) => l as int,
        };
        Ok(
            Field::Bits {
                mask: 0xffff,
                bits: ((high + low + s + 0x8000) / 0x1_0000 % 0x1_0000) as u32,
            },
        )
    } else if r_type == R_MIPS_LO16 {
        let a = if implicit {
            signed(insn, 0x1_0000)
        } else {
            a
        };
        Ok(Field::Bits { mask: 0xffff, bits: ((s + a) % 0x1_0000) as u32 })
    } else if r_type == R_MIPS_PC16 {
        let a = if implicit {
            4 * signed(insn, 0x1_0000)
        } else {
            a
        };
        Ok(Field::Bits { mask: 0xffff, bits: ((s + a - p) / 4 % 0x1_0000) as u32 })
    } else if r_type == R_MIPS_PC32 {
        let a = if implicit {
            insn
        } else {
            a
        };
        Ok(Field::Bytes { width: 4, value: low32(s + a - p) as u64 })
    } else {
        Err(RelocError::Unsupported { family: Family::Mips, r_type })
    }
}

/// `buf` after a relocation at `off`, or why there is none.
///
/// `s` is the symbol's address, `a` the explicit addend, `p` the address of the field, `got` the
/// address of the symbol's table slot, `implicit` whether the addend is stored in the field, and
/// `pair_lo` the addend of the low half that belongs to a high half.
pub open spec fn relocated(
    arch: Architecture,
    endian: Endian,
    r_type: u32,
    buf: Seq<u8>,
    off: int,
    s: int,
    a: int,
    p: int,
    got: Option<u64>,
    implicit: bool,
    pair_lo: Option<i64>,
) -> Result<Seq<u8>, RelocError> {
    let insn = uint_at(endian, buf, off, 4) as int;
    let wide = uint_at(endian, buf, off, 8) as int;
    let field = match arch {
        Architecture::X86 | Architecture::X86_64 => x86_64_field(r_type, s, a, p, got),
        Architecture::Arm64 => aarch64_field(r_type, s, a, p, got),
        Architecture::Arm => if off + 4 <= buf.len() {
            arm_field(r_type, insn, s, p, got)
        } else {
            Err(RelocError::OutsideSection)
        },
        Architecture::Mips | Architecture::Mips64 => if off + 4 <= buf.len() {
            mips_field(r_type, insn, wide, s, a, p, implicit, pair_lo)
        } else {
            Err(RelocError::OutsideSection)
        },
    };
    match field {
        Err(e) => Err(e),
        Ok(f) => stored(endian, buf, off, f),
    }
}

/// Whether a call that returned `r` and left `after` did what `goal` says of `before`.
pub open spec fn outcome(
    goal: Result<Seq<u8>, RelocError>,
    before: Seq<u8>,
    after: Seq<u8>,
    r: Result<(), RelocError>,
) -> bool {
    match goal {
        Ok(b) => r is Ok && after == b,
        Err(e) => r == Err::<(), RelocError>(e) && after == before,
    }
}

/// Replace the bits selected by `mask` in the 32-bit instruction at `off` with
/// `value` (already positioned), preserving the rest of the opcode.
pub fn patch_insn(endian: Endian, buf: &mut [u8], off: usize, mask: u32, value: u32)
    requires
        off + 4 <= old(buf)@.len(),
    ensures
        Ok::<Seq<u8>, RelocError>(final(buf)@) == stored(
            endian,
            old(buf)@,
            off as int,
            Field::Bits { mask, bits: value },
        ),
{
    let insn: u64 = endian.read_uint(buf, off, 4);
    assert(insn < 0x1_0000_0000) by {
        reveal_with_fuel(pow256, 5);
    }
    let insn: u32 = insn as u32;
    let insn: u32 = (insn & !mask) | (value & mask);
    endian.write_uint(buf, off, 4, insn as u64);
}

/// Write `field` at `off`.
fn store(endian: Endian, buf: &mut [u8], off: usize, field: Field) -> (r: Result<(), RelocError>)
    requires
        field matches Field::Bytes { width, .. } ==> width <= 8,
    ensures
        outcome(stored(endian, old(buf)@, off as int, field), old(buf)@, final(buf)@, r),
{
    let width: usize = match field {
        Field::Bytes { width, .. } => width,
        Field::Bits { .. } => 4,
    };
    if buf.len() < width || off > buf.len() - width {
        return Err(RelocError::OutsideSection);
    }
    match field {
        Field::Bytes { width, value } => endian.write_uint(buf, off, width, value),
        Field::Bits { mask, bits } => patch_insn(endian, buf, off, mask, bits),
    }
    Ok(())
}

/// Apply one x86-64 relocation.
pub fn apply_x86_64(
    endian: Endian,
    r_type: u32,
    buf: &mut [u8],
    off: usize,
    s: u64,
    a: i64,
    p: u64,
    got_va: Option<u64>,
) -> (r: Result<(), RelocError>)
    ensures
        outcome(
            relocated(
                Architecture::X86_64,
                endian,
                r_type,
                old(buf)@,
                off as int,
                s as int,
                a as int,
                p as int,
                got_va,
                false,
                None,
            ),
            old(buf)@,
            final(buf)@,
            r,
        ),
{
    reveal(x86_64_field);
    let field = if r_type == R_X86_64_64 {
        Field::Bytes { width: 8, value: absolute(s, a) }
    } else if r_type == R_X86_64_PC64 {
        Field::Bytes { width: 8, value: relative(s, a, p) }
    } else if r_type == R_X86_64_PC32 || r_type == R_X86_64_PLT32 {
        Field::Bytes { width: 4, value: low_half(relative(s, a, p)) as u64 }
    } else if r_type == R_X86_64_32 || r_type == R_X86_64_32S {
        Field::Bytes { width: 4, value: low_half(absolute(s, a)) as u64 }
    } else if r_type == R_X86_64_GOTPCREL || r_type == R_X86_64_GOTPCRELX || r_type
        == R_X86_64_REX_GOTPCRELX {
        match got_va {
            None => {
                return Err(RelocError::MissingSlot { slot: SlotUse::GotPcRel });
            },
            Some(g) => Field::Bytes { width: 4, value: low_half(relative(g, a, p)) as u64 },
        }
    } else {
        return Err(RelocError::Unsupported { family: Family::X86_64, r_type });
    };
    store(endian, buf, off, field)
}

/// The branch field for the displacement that the word `w` holds.
fn branch(family: Family, w: u64, reach: i64, mask: u32) -> (r: Result<Field, RelocError>)
    requires
        0 < reach <= 0x800_0000,
    ensures
        r == branch_field(family, signed64(w as int), reach as int, mask),
{
    let x: i64 = from_word(w);
    proof {
        lemma_word_bits(x as int);
        lemma_word_bits(w as int);
    }
    if w % 4 != 0 || x < -reach || x >= reach {
        return Err(RelocError::BranchRange { family, target: x });
    }
    Ok(Field::Bits { mask, bits: low_half(w / 4) })
}

/// The distance from the page of `p` to the page of `s + a`.
fn page_delta(s: u64, a: i64, p: u64) -> (x: i64)
    ensures
        x == page_distance(s as int, a as int, p as int),
{
    let target: u64 = absolute(s, a);
    let to: u64 = target - target % 0x1000;
    let from: u64 = p - p % 0x1000;
    proof {
        let off = (s + a) % 0x1000;
        lemma_wrap_sum(s + a, -off - from);
        assert(wrap64(to - from) == wrap64(s + a - off - from));
        lemma_wrap_sum(s + a - off - from, 0);
    }
    from_word(difference(to, from))
}

/// Encode a page displacement `x` (a multiple of 4096) into an ADRP at `off`.
pub fn adrp(endian: Endian, buf: &mut [u8], off: usize, x: i64) -> (r: Result<(), RelocError>)
    ensures
        outcome(
            match adrp_field(x as int) {
                Err(e) => Err(e),
                Ok(f) => stored(endian, old(buf)@, off as int, f),
            },
            old(buf)@,
            final(buf)@,
            r,
        ),
{
    let w: u64 = to_word(x);
    proof {
        lemma_word_bits(x as int);
    }
    if w % 0x1000 != 0 || x < -0x1_0000_0000 || x >= 0x1_0000_0000 {
        return Err(RelocError::PageRange { displacement: x });
    }
    let pages: u64 = (w / 0x1000) % 0x20_0000;
    let value: u64 = (pages % 4) * 0x2000_0000 + (pages / 4) * 0x20;
    store(endian, buf, off, Field::Bits { mask: 0x60ff_ffe0, bits: value as u32 })
}

/// The offset-in-page field for `address`, in units of `unit` bytes.
fn page_offset(address: u64, unit: u64) -> (f: Field)
    requires
        unit == 1 || unit == 2 || unit == 4 || unit == 8 || unit == 16,
    ensures
        f == page_offset_field(address as int, unit as int),
{
    let low: u64 = address % 0x1000;
    let count: u64 = if unit == 1 {
        low
    } else if unit == 2 {
        low / 2
    } else if unit == 4 {
        low / 4
    } else if unit == 8 {
        low / 8
    } else {
        low / 16
    };
    Field::Bits { mask: 0x003f_fc00, bits: (count * 0x400) as u32 }
}

/// Apply one AArch64 relocation.
pub fn apply_aarch64(
    endian: Endian,
    r_type: u32,
    buf: &mut [u8],
    off: usize,
    s: u64,
    a: i64,
    p: u64,
    got_va: Option<u64>,
) -> (r: Result<(), RelocError>)
    ensures
        outcome(
            relocated(
                Architecture::Arm64,
                endian,
                r_type,
                old(buf)@,
                off as int,
                s as int,
                a as int,
                p as int,
                got_va,
                false,
                None,
            ),
            old(buf)@,
            final(buf)@,
            r,
        ),
{
    reveal(aarch64_field);
    let field = if r_type == R_AARCH64_ABS64 {
        Field::Bytes { width: 8, value: absolute(s, a) }
    } else if r_type == R_AARCH64_ABS32 {
        Field::Bytes { width: 4, value: low_half(absolute(s, a)) as u64 }
    } else if r_type == R_AARCH64_PREL64 {
        Field::Bytes { width: 8, value: relative(s, a, p) }
    } else if r_type == R_AARCH64_PREL32 {
        Field::Bytes { width: 4, value: low_half(relative(s, a, p)) as u64 }
    } else if r_type == R_AARCH64_CALL26 || r_type == R_AARCH64_JUMP26 {
        match branch(Family::Aarch64, relative(s, a, p), 0x800_0000, 0x03ff_ffff) {
            Err(e) => {
                return Err(e);
            },
            Ok(f) => f,
        }
    } else if r_type == R_AARCH64_ADR_PREL_PG_HI21 {
        return adrp(endian, buf, off, page_delta(s, a, p));
    } else if r_type == R_AARCH64_ADD_ABS_LO12_NC || r_type == R_AARCH64_LDST8_ABS_LO12_NC {
        page_offset(absolute(s, a), 1)
    } else if r_type == R_AARCH64_LDST16_ABS_LO12_NC {
        page_offset(absolute(s, a), 2)
    } else if r_type == R_AARCH64_LDST32_ABS_LO12_NC {
        page_offset(absolute(s, a), 4)
    } else if r_type == R_AARCH64_LDST64_ABS_LO12_NC {
        page_offset(absolute(s, a), 8)
    } else if r_type == R_AARCH64_LDST128_ABS_LO12_NC {
        page_offset(absolute(s, a), 16)
    } else if r_type == R_AARCH64_ADR_GOT_PAGE {
        match got_va {
            None => {
                return Err(RelocError::MissingSlot { slot: SlotUse::AdrGotPage });
            },
            Some(g) => {
                return adrp(endian, buf, off, page_delta(g, a, p));
            },
        }
    } else if r_type == R_AARCH64_LD64_GOT_LO12_NC {
        match got_va {
            None => {
                return Err(RelocError::MissingSlot { slot: SlotUse::Ld64GotLo12 });
            },
            Some(g) => page_offset(absolute(g, a), 8),
        }
    } else {
        return Err(RelocError::Unsupported { family: Family::Aarch64, r_type });
    };
    store(endian, buf, off, field)
}

/// Read the 32-bit word at `off`, where it lies inside `buf`.
fn word_at(endian: Endian, buf: &[u8], off: usize) -> (r: Option<u64>)
    ensures
        match r {
            None => off + 4 > buf@.len(),
            Some(v) => off + 4 <= buf@.len() && v as nat == uint_at(endian, buf@, off as int, 4)
                && v < 0x1_0000_0000,
        },
{
    if buf.len() < 4 || off > buf.len() - 4 {
        return None;
    }
    assert(pow256(4) == 0x1_0000_0000) by {
        reveal_with_fuel(pow256, 5);
    }
    Some(endian.read_uint(buf, off, 4))
}

/// The field that puts `half` into an ARM MOVW or MOVT.
fn mov(half: u64) -> (f: Field)
    requires
        half < 0x1_0000,
    ensures
        f == mov_field(half as int),
{
    let value: u64 = half / 0x1000 * 0x1_0000 + half % 0x1000;
    Field::Bits { mask: 0x000f_0fff, bits: value as u32 }
}

/// The field of an ARM MOVW, or with `top` set of a MOVT, that adds `s` to its immediate.
fn mov_sum(insn: u64, s: u64, top: bool) -> (f: Field)
    requires
        insn < 0x1_0000_0000,
    ensures
        f == mov_field(
            if top {
                (s + signed(mov_immediate(insn as int), 0x1_0000)) / 0x1_0000 % 0x1_0000
            } else {
                (s + signed(mov_immediate(insn as int), 0x1_0000)) % 0x1_0000
            },
        ),
{
    let imm: u64 = (insn / 0x1_0000) % 16 * 0x1000 + insn % 0x1000;
    let a: i64 = sign_extend(imm, 0x1_0000);
    let full: u64 = absolute(s, a);
    proof {
        lemma_word_bits(s + a);
    }
    if top {
        mov(full / 0x1_0000 % 0x1_0000)
    } else {
        mov(full % 0x1_0000)
    }
}

/// What an ARM relocation writes over the word `insn`.
fn arm_plan(r_type: u32, insn: u64, s: u64, p: u64, got_va: Option<u64>) -> (r: Result<
    Field,
    RelocError,
>)
    requires
        insn < 0x1_0000_0000,
    ensures
        r == arm_field(r_type, insn as int, s as int, p as int, got_va),
        r matches Ok(Field::Bytes { width, .. }) ==> width <= 8,
{
    reveal(arm_field);
    let word: i64 = sign_extend(insn, 0x1_0000_0000);
    if r_type == R_ARM_ABS32 {
        Ok(Field::Bytes { width: 4, value: low_half(absolute(s, word)) as u64 })
    } else if r_type == R_ARM_REL32 {
        Ok(Field::Bytes { width: 4, value: low_half(relative(s, word, p)) as u64 })
    } else if r_type == R_ARM_CALL || r_type == R_ARM_JUMP24 || r_type == R_ARM_PC24 {
        let low: i64 = sign_extend(insn % 0x100_0000, 0x100_0000);
        branch(Family::Arm, relative(s, 4 * low, p), 0x200_0000, 0x00ff_ffff)
    } else if r_type == R_ARM_MOVW_ABS_NC {
        Ok(mov_sum(insn, s, false))
    } else if r_type == R_ARM_MOVT_ABS {
        Ok(mov_sum(insn, s, true))
    } else if r_type == R_ARM_GOT_PREL {
        match got_va {
            None => Err(RelocError::MissingSlot { slot: SlotUse::ArmGotPrel }),
            Some(g) => Ok(
                Field::Bytes { width: 4, value: low_half(relative(g, word, p)) as u64 },
            ),
        }
    } else {
        Err(RelocError::Unsupported { family: Family::Arm, r_type })
    }
}

/// Apply one ARM relocation. ARM ELF uses the REL scheme: the addend is stored in the field.
pub fn apply_arm(
    endian: Endian,
    r_type: u32,
    buf: &mut [u8],
    off: usize,
    s: u64,
    p: u64,
    got_va: Option<u64>,
) -> (r: Result<(), RelocError>)
    ensures
        outcome(
            relocated(
                Architecture::Arm,
                endian,
                r_type,
                old(buf)@,
                off as int,
                s as int,
                0,
                p as int,
                got_va,
                true,
                None,
            ),
            old(buf)@,
            final(buf)@,
            r,
        ),
{
    let insn: u64 = match word_at(endian, buf, off) {
        None => {
            return Err(RelocError::OutsideSection);
        },
        Some(v) => v,
    };
    match arm_plan(r_type, insn, s, p, got_va) {
        Err(e) => Err(e),
        Ok(field) => store(endian, buf, off, field),
    }
}

/// The high half of `high * 65536 + low + s`, rounded so that adding the signed low half gives
/// the sum back.
fn rounded_high(high: u64, low: i64, s: u64) -> (v: u64)
    requires
        high < 0x1_0000_0000_0000,
    ensures
        v == (high * 0x1_0000 + low + s + 0x8000) / 0x1_0000 % 0x1_0000,
{
    let w: u64 = sum(sum(absolute(high * 0x1_0000, low), s), 0x8000);
    proof {
        let x = high * 0x1_0000 + low;
        lemma_wrap_sum(x, s as int);
        lemma_wrap_sum(x + s, 0x8000);
        lemma_word_bits(x + s + 0x8000);
    }
    w / 0x1_0000 % 0x1_0000
}

/// The bits that an explicit high-half addend contributes: `a * 65536` as a word.
proof fn lemma_high_addend(a: int, rest: int)
    ensures
        ((wrap64(a) as int % 0x1_0000_0000_0000) * 0x1_0000 + rest) / 0x1_0000 % 0x1_0000 == (a
            * 0x1_0000 + rest) / 0x1_0000 % 0x1_0000,
{
    let m = 0x1_0000_0000_0000int;
    let r = a % m;
    let q = a / m;
    assert(a == q * m + r) by {
        vstd::arithmetic::div_mod::lemma_fundamental_div_mod(a, m);
    }
    vstd::arithmetic::div_mod::lemma_mod_mod(a, m, 0x1_0000);
    assert((a * 0x1_0000 + rest) / 0x1_0000 == q * m + (r * 0x1_0000 + rest) / 0x1_0000);
    vstd::arithmetic::div_mod::lemma_mod_multiples_vanish(
        q * 0x1_0000_0000,
        (r * 0x1_0000 + rest) / 0x1_0000,
        0x1_0000,
    );
}

/// What a MIPS relocation writes over the word `insn` and the doubleword `wide`.
fn mips_plan(
    r_type: u32,
    insn: u64,
    wide: u64,
    s: u64,
    a: i64,
    p: u64,
    implicit: bool,
    pair_lo: Option<i64>,
) -> (r: Result<Field, RelocError>)
    requires
        insn < 0x1_0000_0000,
    ensures
        r == mips_field(
            r_type,
            insn as int,
            wide as int,
            s as int,
            a as int,
            p as int,
            implicit,
            pair_lo,
        ),
        r matches Ok(Field::Bytes { width, .. }) ==> width <= 8,
{
    reveal(mips_field);
    if r_type == R_MIPS_32 {
        let a: i64 = if implicit {
            insn as i64
        } else {
            a
        };
        Ok(Field::Bytes { width: 4, value: low_half(absolute(s, a)) as u64 })
    } else if r_type == R_MIPS_64 {
        let value: u64 = if implicit {
            sum(s, wide)
        } else {
            absolute(s, a)
        };
        Ok(Field::Bytes { width: 8, value })
    } else if r_type == R_MIPS_26 {
        let a: i64 = if implicit {
            (4 * (insn % 0x400_0000)) as i64
        } else {
            a
        };
        proof {
            lemma_word_bits(s + a);
        }
        Ok(Field::Bits { mask: 0x03ff_ffff, bits: low_half(absolute(s, a) / 4) })
    } else if r_type == R_MIPS_HI16 {
        let high: u64 = if implicit {
            insn % 0x1_0000
        } else {
            to_word(a) % 0x1_0000_0000_0000
        };
        let low: i64 = match pair_lo {
            None => 0,
            Some(l) => l,
        };
        proof {
            lemma_high_addend(a as int, low + s + 0x8000);
        }
        Ok(Field::Bits { mask: 0xffff, bits: rounded_high(high, low, s) as u32 })
    } else if r_type == R_MIPS_LO16 {
        let a: i64 = if implicit {
            sign_extend(insn % 0x1_0000, 0x1_0000)
        } else {
            a
        };
        Ok(Field::Bits { mask: 0xffff, bits: (absolute(s, a) % 0x1_0000) as u32 })
    } else if r_type == R_MIPS_PC16 {
        let a: i64 = if implicit {
            4 * sign_extend(insn % 0x1_0000, 0x1_0000)
        } else {
            a
        };
        proof {
            lemma_word_bits(s + a - p);
        }
        Ok(Field::Bits { mask: 0xffff, bits: (relative(s, a, p) / 4 % 0x1_0000) as u32 })
    } else if r_type == R_MIPS_PC32 {
        let a: i64 = if implicit {
            insn as i64
        } else {
            a
        };
        Ok(Field::Bytes { width: 4, value: low_half(relative(s, a, p)) as u64 })
    } else {
        Err(RelocError::Unsupported { family: Family::Mips, r_type })
    }
}

/// Apply one MIPS relocation. `$gp`-relative references through the global offset table are
/// not supported: an injected segment cannot satisfy them.
pub fn apply_mips(
    endian: Endian,
    r_type: u32,
    buf: &mut [u8],
    off: usize,
    s: u64,
    a: i64,
    p: u64,
    has_implicit: bool,
    pair_lo: Option<i64>,
) -> (r: Result<(), RelocError>)
    ensures
        outcome(
            relocated(
                Architecture::Mips,
                endian,
                r_type,
                old(buf)@,
                off as int,
                s as int,
                a as int,
                p as int,
                None,
                has_implicit,
                pair_lo,
            ),
            old(buf)@,
            final(buf)@,
            r,
        ),
{
    reveal(mips_field);
    let insn: u64 = match word_at(endian, buf, off) {
        None => {
            return Err(RelocError::OutsideSection);
        },
        Some(v) => v,
    };
    let wide: u64 = if r_type == R_MIPS_64 {
        if buf.len() < 8 || off > buf.len() - 8 {
            return Err(RelocError::OutsideSection);
        }
        endian.read_uint(buf, off, 8)
    } else {
        0
    };
    match mips_plan(r_type, insn, wide, s, a, p, has_implicit, pair_lo) {
        Err(e) => Err(e),
        Ok(field) => store(endian, buf, off, field),
    }
}

/// Apply one relocation, writing the resolved field into `buf` at `off`.
///
/// - `s` is the resolved symbol virtual address, `a` the explicit RELA addend
///   (0 for REL — those addends live in the instruction and are recovered here),
///   `p` the virtual address of the relocated field.
/// - `got_va` is the synthesized GOT slot's address when `needs_got` holds.
/// - `has_implicit` marks REL relocations (ARM, MIPS o32), whose addend must be
///   read back out of the field.
/// - `pair_lo` carries the paired `R_MIPS_LO16` addend for an `R_MIPS_HI16`.
pub fn apply(
    arch: Architecture,
    endian: Endian,
    r_type: u32,
    buf: &mut [u8],
    off: usize,
    s: u64,
    a: i64,
    p: u64,
    got_va: Option<u64>,
    has_implicit: bool,
    pair_lo: Option<i64>,
) -> (r: Result<(), RelocError>)
    ensures
        outcome(
            relocated(
                arch,
                endian,
                r_type,
                old(buf)@,
                off as int,
                s as int,
                a as int,
                p as int,
                got_va,
                has_implicit,
                pair_lo,
            ),
            old(buf)@,
            final(buf)@,
            r,
        ),
{
    match arch {
        Architecture::X86 | Architecture::X86_64 => apply_x86_64(
            endian,
            r_type,
            buf,
            off,
            s,
            a,
            p,
            got_va,
        ),
        Architecture::Arm64 => apply_aarch64(endian, r_type, buf, off, s, a, p, got_va),
        Architecture::Arm => apply_arm(endian, r_type, buf, off, s, p, got_va),
        Architecture::Mips | Architecture::Mips64 => apply_mips(
            endian,
            r_type,
            buf,
            off,
            s,
            a,
            p,
            has_implicit,
            pair_lo,
        ),
    }
}

} // verus!
