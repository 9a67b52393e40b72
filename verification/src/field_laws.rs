//! What each type of relocation leaves in its field, and which types there are.
use crate::arch::{
    Architecture, R_AARCH64_ABS32, R_AARCH64_ABS64, R_AARCH64_ADD_ABS_LO12_NC,
    R_AARCH64_ADR_GOT_PAGE, R_AARCH64_ADR_PREL_PG_HI21, R_AARCH64_CALL26, R_AARCH64_JUMP26,
    R_AARCH64_LD64_GOT_LO12_NC, R_AARCH64_LDST128_ABS_LO12_NC, R_AARCH64_LDST16_ABS_LO12_NC,
    R_AARCH64_LDST32_ABS_LO12_NC, R_AARCH64_LDST64_ABS_LO12_NC, R_AARCH64_LDST8_ABS_LO12_NC,
    R_AARCH64_PREL32, R_AARCH64_PREL64, R_ARM_ABS32, R_ARM_CALL, R_ARM_GOT_PREL, R_ARM_JUMP24,
    R_ARM_MOVT_ABS, R_ARM_MOVW_ABS_NC, R_ARM_PC24, R_ARM_REL32, R_MIPS_26, R_MIPS_32, R_MIPS_64,
    R_MIPS_HI16, R_MIPS_LO16, R_MIPS_PC16, R_MIPS_PC32, R_X86_64_32, R_X86_64_32S, R_X86_64_64,
    R_X86_64_GOTPCREL, R_X86_64_GOTPCRELX, R_X86_64_PC32, R_X86_64_PC64, R_X86_64_PLT32,
    R_X86_64_REX_GOTPCRELX,
};
use crate::bytes::{uint_at, Endian};
use crate::decode::{
    add_immediate, insn_at, keeps_bits, lemma_add, lemma_half, lemma_mov, lemma_stored, lemma_words,
};
use crate::reloc::{
    aarch64_field, arm_field, mips_field, mov_field, mov_immediate, relocated, stored, with_bits,
    x86_64_field, Family, Field, RelocError, SlotUse,
};
use crate::word::{low32, signed, wrap64};
use vstd::prelude::*;

verus! {

/// A field of whole bytes reads back as the number that was stored.
proof fn lemma_bytes(endian: Endian, buf: Seq<u8>, off: int, width: usize, value: u64)
    requires
        0 <= off,
        off + width <= buf.len(),
        width == 8 || width == 4 && value < 0x1_0000_0000,
    ensures
        stored(endian, buf, off, Field::Bytes { width, value }) matches Ok(b) && uint_at(
            endian,
            b,
            off,
            width as int,
        ) == value,
{
    lemma_words();
    lemma_stored(endian, buf, off, Field::Bytes { width, value });
}

/// The x86 references that are whole numbers hold the symbol's address plus the addend, whole
/// or in their low 32 bits, or the distance to it from the field.
pub proof fn law_x86_numbers(
    arch: Architecture,
    endian: Endian,
    r_type: u32,
    buf: Seq<u8>,
    off: int,
    s: int,
    a: int,
    p: int,
    got: Option<u64>,
    implicit: bool,
    pair_lo: Option<i64>,
)
    requires
        0 <= off,
        arch == Architecture::X86 || arch == Architecture::X86_64,
    ensures
        ({
            let r = relocated(arch, endian, r_type, buf, off, s, a, p, got, implicit, pair_lo);
            &&& r_type == R_X86_64_64 && off + 8 <= buf.len() ==> r is Ok && uint_at(
                endian,
                r->Ok_0,
                off,
                8,
            ) == wrap64(s + a)
            &&& r_type == R_X86_64_PC64 && off + 8 <= buf.len() ==> r is Ok && wrap64(
                p + uint_at(endian, r->Ok_0, off, 8),
            ) == wrap64(s + a)
            &&& (r_type == R_X86_64_32 || r_type == R_X86_64_32S) && off + 4 <= buf.len() ==> r is Ok
                && uint_at(endian, r->Ok_0, off, 4) == low32(s + a)
        }),
{
    reveal(x86_64_field);
    if off + 8 <= buf.len() {
        lemma_bytes(endian, buf, off, 8, wrap64(s + a));
        lemma_bytes(endian, buf, off, 8, wrap64(s + a - p));
        crate::word::lemma_wrap_sum(s + a - p, p);
    }
    if off + 4 <= buf.len() {
        lemma_bytes(endian, buf, off, 4, low32(s + a) as u64);
    }
}

/// The AArch64 references that are whole numbers hold the symbol's address plus the addend, whole
/// or in their low 32 bits, or the distance to it from the field.
pub proof fn law_aarch64_numbers(
    endian: Endian,
    r_type: u32,
    buf: Seq<u8>,
    off: int,
    s: int,
    a: int,
    p: int,
    got: Option<u64>,
    implicit: bool,
    pair_lo: Option<i64>,
)
    requires
        0 <= off,
    ensures
        ({
            let r = relocated(
                Architecture::Arm64,
                endian,
                r_type,
                buf,
                off,
                s,
                a,
                p,
                got,
                implicit,
                pair_lo,
            );
            &&& r_type == R_AARCH64_ABS64 && off + 8 <= buf.len() ==> r is Ok && uint_at(
                endian,
                r->Ok_0,
                off,
                8,
            ) == wrap64(s + a)
            &&& r_type == R_AARCH64_PREL64 && off + 8 <= buf.len() ==> r is Ok && wrap64(
                p + uint_at(endian, r->Ok_0, off, 8),
            ) == wrap64(s + a)
            &&& r_type == R_AARCH64_ABS32 && off + 4 <= buf.len() ==> r is Ok && uint_at(
                endian,
                r->Ok_0,
                off,
                4,
            ) == low32(s + a)
            &&& r_type == R_AARCH64_PREL32 && off + 4 <= buf.len() ==> r is Ok && low32(
                p + uint_at(endian, r->Ok_0, off, 4),
            ) == low32(s + a)
        }),
{
    reveal(aarch64_field);
    if off + 8 <= buf.len() {
        lemma_bytes(endian, buf, off, 8, wrap64(s + a));
        lemma_bytes(endian, buf, off, 8, wrap64(s + a - p));
        crate::word::lemma_wrap_sum(s + a - p, p);
    }
    if off + 4 <= buf.len() {
        lemma_bytes(endian, buf, off, 4, low32(s + a) as u64);
        lemma_bytes(endian, buf, off, 4, low32(s + a - p) as u64);
        lemma_back(s + a, p);
    }
}

/// Adding the base to the low 32 bits of a distance gives the low 32 bits of where it leads.
proof fn lemma_back(t: int, p: int)
    ensures
        low32(p + low32(t - p)) == low32(t),
{
    vstd::arithmetic::div_mod::lemma_add_mod_noop_right(p, t - p, 0x1_0000_0000);
}

/// A load or store behind an ADRP takes the offset in the page of the symbol's address plus the
/// addend, in units of what it moves, rounded down, and keeps its other bits.
pub proof fn law_aarch64_offsets(
    endian: Endian,
    r_type: u32,
    unit: int,
    buf: Seq<u8>,
    off: int,
    s: int,
    a: int,
    p: int,
    got: Option<u64>,
    implicit: bool,
    pair_lo: Option<i64>,
)
    requires
        0 <= off,
        off + 4 <= buf.len(),
        r_type == R_AARCH64_ADD_ABS_LO12_NC && unit == 1 || r_type == R_AARCH64_LDST8_ABS_LO12_NC
            && unit == 1 || r_type == R_AARCH64_LDST16_ABS_LO12_NC && unit == 2 || r_type
            == R_AARCH64_LDST32_ABS_LO12_NC && unit == 4 || r_type == R_AARCH64_LDST64_ABS_LO12_NC
            && unit == 8 || r_type == R_AARCH64_LDST128_ABS_LO12_NC && unit == 16,
    ensures
        relocated(
            Architecture::Arm64,
            endian,
            r_type,
            buf,
            off,
            s,
            a,
            p,
            got,
            implicit,
            pair_lo,
        ) matches Ok(b) && unit * add_immediate(insn_at(endian, b, off)) <= (s + a) % 0x1000 < unit
            * (add_immediate(insn_at(endian, b, off)) + 1) && keeps_bits(
            insn_at(endian, buf, off),
            insn_at(endian, b, off),
            0x003f_fc00,
        ),
{
    let low = ((s + a) % 0x1000) / unit;
    assert(aarch64_field(r_type, s, a, p, got) == Ok::<Field, RelocError>(
        Field::Bits { mask: 0x003f_fc00, bits: (low * 0x400) as u32 },
    )) by {
        reveal(aarch64_field);
    }
    lemma_rounded((s + a) % 0x1000, unit);
    lemma_add(endian, buf, off, low);
}

proof fn lemma_rounded(low: int, unit: int)
    requires
        0 <= low < 0x1000,
        unit == 1 || unit == 2 || unit == 4 || unit == 8 || unit == 16,
    ensures
        0 <= low / unit < 0x1000,
        unit * (low / unit) <= low < unit * (low / unit + 1),
{
    if unit == 1 {
        assert(low / 1 == low);
    } else if unit == 2 {
        assert(2 * (low / 2) <= low < 2 * (low / 2 + 1));
    } else if unit == 4 {
        assert(4 * (low / 4) <= low < 4 * (low / 4 + 1));
    } else if unit == 8 {
        assert(8 * (low / 8) <= low < 8 * (low / 8 + 1));
    } else {
        assert(16 * (low / 16) <= low < 16 * (low / 16 + 1));
    }
}

/// The ARM references that are whole numbers hold the symbol's address (or that of its table
/// slot) plus the number that the field held, or the distance to it from the field.
pub proof fn law_arm_numbers(
    endian: Endian,
    r_type: u32,
    buf: Seq<u8>,
    off: int,
    s: int,
    a: int,
    p: int,
    got: Option<u64>,
    implicit: bool,
    pair_lo: Option<i64>,
)
    requires
        0 <= off,
        off + 4 <= buf.len(),
    ensures
        ({
            let r = relocated(
                Architecture::Arm,
                endian,
                r_type,
                buf,
                off,
                s,
                a,
                p,
                got,
                implicit,
                pair_lo,
            );
            let held = insn_at(endian, buf, off);
            &&& r_type == R_ARM_ABS32 ==> r is Ok && insn_at(endian, r->Ok_0, off) == low32(s + held)
            &&& r_type == R_ARM_REL32 ==> r is Ok && low32(p + insn_at(endian, r->Ok_0, off))
                == low32(s + held)
            &&& r_type == R_ARM_GOT_PREL ==> match got {
                None => r == Err::<Seq<u8>, RelocError>(
                    RelocError::MissingSlot { slot: SlotUse::ArmGotPrel },
                ),
                Some(g) => r is Ok && low32(p + insn_at(endian, r->Ok_0, off)) == low32(g + held),
            }
        }),
{
    reveal(arm_field);
    let held = insn_at(endian, buf, off);
    let word = signed(held, 0x1_0000_0000);
    lemma_bytes(endian, buf, off, 4, low32(s + word) as u64);
    lemma_bytes(endian, buf, off, 4, low32(s + word - p) as u64);
    lemma_back(s + word, p);
    crate::word::lemma_signed_sum(s, held, 0x1_0000_0000);
    if let Some(g) = got {
        lemma_bytes(endian, buf, off, 4, low32(g + word - p) as u64);
        lemma_back(g + word, p);
        crate::word::lemma_signed_sum(g as int, held, 0x1_0000_0000);
    }
}

/// The 16-bit immediate of an ARM MOVW or MOVT: bits 16 to 19, then bits 0 to 11.
pub open spec fn mov_operand(insn: int) -> int {
    insn / 0x1_0000 % 0x10 * 0x1000 + insn % 0x1000
}

/// A MOVW takes the low half, and a MOVT the high half, of the symbol's address plus the signed
/// immediate that it held; both keep their other bits.
pub proof fn law_arm_halves(
    endian: Endian,
    r_type: u32,
    buf: Seq<u8>,
    off: int,
    s: int,
    a: int,
    p: int,
    got: Option<u64>,
    implicit: bool,
    pair_lo: Option<i64>,
)
    requires
        0 <= off,
        off + 4 <= buf.len(),
        r_type == R_ARM_MOVW_ABS_NC || r_type == R_ARM_MOVT_ABS,
    ensures
        ({
            let t = s + signed(mov_operand(insn_at(endian, buf, off)), 0x1_0000);
            relocated(
                Architecture::Arm,
                endian,
                r_type,
                buf,
                off,
                s,
                a,
                p,
                got,
                implicit,
                pair_lo,
            ) matches Ok(b) && mov_operand(insn_at(endian, b, off)) == (if r_type
                == R_ARM_MOVW_ABS_NC {
                low32(t) as int % 0x1_0000
            } else {
                low32(t) as int / 0x1_0000
            }) && keeps_bits(insn_at(endian, buf, off), insn_at(endian, b, off), 0x000f_0fff)
        }),
{
    let t = s + signed(mov_immediate(insn_at(endian, buf, off)), 0x1_0000);
    let half = if r_type == R_ARM_MOVW_ABS_NC {
        t % 0x1_0000
    } else {
        t / 0x1_0000 % 0x1_0000
    };
    assert(arm_field(r_type, insn_at(endian, buf, off), s, p, got) == Ok::<Field, RelocError>(
        mov_field(half),
    )) by {
        reveal(arm_field);
    }
    lemma_mov(endian, buf, off, half);
    lemma_two_halves(t);
}

proof fn lemma_two_halves(t: int)
    ensures
        low32(t) as int % 0x1_0000 == t % 0x1_0000,
        low32(t) as int / 0x1_0000 == t / 0x1_0000 % 0x1_0000,
{
    let q = t / 0x1_0000_0000;
    let w = t % 0x1_0000_0000;
    assert(t == q * 0x1_0000_0000 + w);
    assert(t / 0x1_0000 == q * 0x1_0000 + w / 0x1_0000);
    vstd::arithmetic::div_mod::lemma_mod_multiples_vanish(q, w / 0x1_0000, 0x1_0000);
    vstd::arithmetic::div_mod::lemma_mod_multiples_vanish(q * 0x1_0000, w, 0x1_0000);
}

/// The addend of a MIPS relocation: the explicit one, or what the field stores.
pub open spec fn mips_addend(implicit: bool, a: int, stored_addend: int) -> int {
    if implicit {
        stored_addend
    } else {
        a
    }
}

/// The MIPS references that are whole numbers hold the symbol's address plus the addend, which is
/// the explicit one or the number that the field held, or the distance to it from the field.
pub proof fn law_mips_numbers(
    arch: Architecture,
    endian: Endian,
    r_type: u32,
    buf: Seq<u8>,
    off: int,
    s: int,
    a: int,
    p: int,
    got: Option<u64>,
    implicit: bool,
    pair_lo: Option<i64>,
)
    requires
        0 <= off,
        off + 4 <= buf.len(),
        arch == Architecture::Mips || arch == Architecture::Mips64,
    ensures
        ({
            let r = relocated(arch, endian, r_type, buf, off, s, a, p, got, implicit, pair_lo);
            let t = s + mips_addend(implicit, a, insn_at(endian, buf, off));
            let wide = s + mips_addend(implicit, a, uint_at(endian, buf, off, 8) as int);
            &&& r_type == R_MIPS_32 ==> r is Ok && insn_at(endian, r->Ok_0, off) == low32(t)
            &&& r_type == R_MIPS_PC32 ==> r is Ok && low32(p + insn_at(endian, r->Ok_0, off))
                == low32(t)
            &&& r_type == R_MIPS_64 && off + 8 <= buf.len() ==> r is Ok && uint_at(
                endian,
                r->Ok_0,
                off,
                8,
            ) == wrap64(wide)
        }),
{
    reveal(mips_field);
    let t = s + mips_addend(implicit, a, insn_at(endian, buf, off));
    let wide = s + mips_addend(implicit, a, uint_at(endian, buf, off, 8) as int);
    lemma_bytes(endian, buf, off, 4, low32(t) as u64);
    lemma_bytes(endian, buf, off, 4, low32(t - p) as u64);
    lemma_back(t, p);
    if off + 8 <= buf.len() {
        lemma_bytes(endian, buf, off, 8, wrap64(wide));
    }
}

/// A relocated MIPS jump holds bits 2 to 27 of the symbol's address plus the addend, which is the
/// explicit one or the address that its field held; it keeps its opcode.
pub proof fn law_mips_jumps(
    arch: Architecture,
    endian: Endian,
    buf: Seq<u8>,
    off: int,
    s: int,
    a: int,
    p: int,
    got: Option<u64>,
    implicit: bool,
    pair_lo: Option<i64>,
)
    requires
        0 <= off,
        off + 4 <= buf.len(),
        arch == Architecture::Mips || arch == Architecture::Mips64,
    ensures
        ({
            let t = s + mips_addend(implicit, a, 4 * (insn_at(endian, buf, off) % 0x400_0000));
            relocated(
                arch,
                endian,
                R_MIPS_26,
                buf,
                off,
                s,
                a,
                p,
                got,
                implicit,
                pair_lo,
            ) matches Ok(b) && 4 * (insn_at(endian, b, off) % 0x400_0000) == t % 0x1000_0000 - t % 4
                && keeps_bits(insn_at(endian, buf, off), insn_at(endian, b, off), 0x03ff_ffff)
        }),
{
    reveal(mips_field);
    lemma_words();
    let t = s + mips_addend(implicit, a, 4 * (insn_at(endian, buf, off) % 0x400_0000));
    let bits = low32(t / 4);
    lemma_stored(endian, buf, off, Field::Bits { mask: 0x03ff_ffff, bits });
    let insn = uint_at(endian, buf, off, 4) as u32;
    let new = with_bits(insn, 0x03ff_ffff, bits);
    assert(new == (insn & !0x03ff_ffffu32) | (bits & 0x03ff_ffff));
    assert(new % 0x400_0000 == bits % 0x400_0000) by (bit_vector)
        requires
            new == (insn & !0x03ff_ffffu32) | (bits & 0x03ff_ffff),
    ;
    vstd::arithmetic::div_mod::lemma_mod_mod(t / 4, 0x400_0000, 0x40);
    assert(4 * (t / 4 % 0x400_0000) == t % 0x1000_0000 - t % 4) by {
        let q = t / 0x1000_0000;
        let w = t % 0x1000_0000;
        assert(t == q * 0x1000_0000 + w);
        assert(t / 4 == q * 0x400_0000 + w / 4);
        vstd::arithmetic::div_mod::lemma_mod_multiples_vanish(q, w / 4, 0x400_0000);
        vstd::arithmetic::div_mod::lemma_mod_multiples_vanish(q * 0x400_0000, w, 4);
    }
}

/// The high half of a MIPS address, together with the signed low half that goes with it, is the
/// symbol's address plus the addend; the instruction keeps its upper half. The addend is the high
/// half that the field held, or that of the explicit one, plus the low half of its partner.
pub proof fn law_mips_high(
    arch: Architecture,
    endian: Endian,
    buf: Seq<u8>,
    off: int,
    s: int,
    a: int,
    p: int,
    got: Option<u64>,
    implicit: bool,
    pair_lo: Option<i64>,
)
    requires
        0 <= off,
        off + 4 <= buf.len(),
        arch == Architecture::Mips || arch == Architecture::Mips64,
    ensures
        ({
            let partner = match pair_lo {
                None => 0,
                Some(l) => l as int,
            };
            let t = s + 0x1_0000 * mips_addend(implicit, a, insn_at(endian, buf, off) % 0x1_0000)
                + partner;
            relocated(
                arch,
                endian,
                R_MIPS_HI16,
                buf,
                off,
                s,
                a,
                p,
                got,
                implicit,
                pair_lo,
            ) matches Ok(b) && low32(
                0x1_0000 * (insn_at(endian, b, off) % 0x1_0000) + signed(t, 0x1_0000),
            ) == low32(t) && keeps_bits(insn_at(endian, buf, off), insn_at(endian, b, off), 0xffff)
        }),
{
    let partner = match pair_lo {
        None => 0,
        Some(l) => l as int,
    };
    let insn = insn_at(endian, buf, off);
    let wide = uint_at(endian, buf, off, 8) as int;
    let t = s + 0x1_0000 * mips_addend(implicit, a, insn % 0x1_0000) + partner;
    let h = (t + 0x8000) / 0x1_0000 % 0x1_0000;
    assert(mips_field(R_MIPS_HI16, insn, wide, s, a, p, implicit, pair_lo) == Ok::<
        Field,
        RelocError,
    >(Field::Bits { mask: 0xffff, bits: h as u32 })) by {
        reveal(mips_field);
    }
    lemma_half(endian, buf, off, h);
    crate::decode::lemma_pair_sum(t, h, t % 0x1_0000);
    assert(signed(t % 0x1_0000, 0x1_0000) == signed(t, 0x1_0000));
}

/// The low half of a MIPS address is that of the symbol's address plus the addend, which is the
/// explicit one or the signed immediate that the field held; the instruction keeps its upper
/// half.
pub proof fn law_mips_low(
    arch: Architecture,
    endian: Endian,
    buf: Seq<u8>,
    off: int,
    s: int,
    a: int,
    p: int,
    got: Option<u64>,
    implicit: bool,
    pair_lo: Option<i64>,
)
    requires
        0 <= off,
        off + 4 <= buf.len(),
        arch == Architecture::Mips || arch == Architecture::Mips64,
    ensures
        ({
            let t = s + mips_addend(implicit, a, signed(insn_at(endian, buf, off), 0x1_0000));
            relocated(
                arch,
                endian,
                R_MIPS_LO16,
                buf,
                off,
                s,
                a,
                p,
                got,
                implicit,
                pair_lo,
            ) matches Ok(b) && insn_at(endian, b, off) % 0x1_0000 == t % 0x1_0000 && keeps_bits(
                insn_at(endian, buf, off),
                insn_at(endian, b, off),
                0xffff,
            )
        }),
{
    let insn = insn_at(endian, buf, off);
    let wide = uint_at(endian, buf, off, 8) as int;
    let t = s + mips_addend(implicit, a, signed(insn, 0x1_0000));
    assert(mips_field(R_MIPS_LO16, insn, wide, s, a, p, implicit, pair_lo) == Ok::<
        Field,
        RelocError,
    >(Field::Bits { mask: 0xffff, bits: (t % 0x1_0000) as u32 })) by {
        reveal(mips_field);
    }
    lemma_half(endian, buf, off, t % 0x1_0000);
}

/// A MIPS branch whose distance is a whole number of instructions in reach leads from its field to
/// the symbol's address plus the addend, which is the explicit one or the distance that the field
/// held; it keeps its upper half.
pub proof fn law_mips_branch(
    arch: Architecture,
    endian: Endian,
    buf: Seq<u8>,
    off: int,
    s: int,
    a: int,
    p: int,
    got: Option<u64>,
    implicit: bool,
    pair_lo: Option<i64>,
)
    requires
        0 <= off,
        off + 4 <= buf.len(),
        arch == Architecture::Mips || arch == Architecture::Mips64,
    ensures
        ({
            let t = s + mips_addend(implicit, a, 4 * signed(insn_at(endian, buf, off), 0x1_0000));
            relocated(
                arch,
                endian,
                R_MIPS_PC16,
                buf,
                off,
                s,
                a,
                p,
                got,
                implicit,
                pair_lo,
            ) matches Ok(b) && ((t - p) % 4 == 0 && -0x2_0000 <= t - p < 0x2_0000 ==> p + 4 * signed(
                insn_at(endian, b, off),
                0x1_0000,
            ) == t) && insn_at(endian, b, off) % 0x1_0000 == (t - p) / 4 % 0x1_0000 && keeps_bits(
                insn_at(endian, buf, off),
                insn_at(endian, b, off),
                0xffff,
            )
        }),
{
    let insn = insn_at(endian, buf, off);
    let wide = uint_at(endian, buf, off, 8) as int;
    let t = s + mips_addend(implicit, a, 4 * signed(insn, 0x1_0000));
    let half = (t - p) / 4 % 0x1_0000;
    assert(mips_field(R_MIPS_PC16, insn, wide, s, a, p, implicit, pair_lo) == Ok::<
        Field,
        RelocError,
    >(Field::Bits { mask: 0xffff, bits: half as u32 })) by {
        reveal(mips_field);
    }
    lemma_half(endian, buf, off, half);
}

/// The relocation types that there are.
pub open spec fn supported(arch: Architecture, r_type: u32) -> bool {
    match arch {
        Architecture::X86 | Architecture::X86_64 => {
            ||| r_type == R_X86_64_64 || r_type == R_X86_64_PC32 || r_type == R_X86_64_PLT32
            ||| r_type == R_X86_64_GOTPCREL || r_type == R_X86_64_32 || r_type == R_X86_64_32S
            ||| r_type == R_X86_64_PC64 || r_type == R_X86_64_GOTPCRELX
            ||| r_type == R_X86_64_REX_GOTPCRELX
        },
        Architecture::Arm64 => {
            ||| r_type == R_AARCH64_ABS64 || r_type == R_AARCH64_ABS32
            ||| r_type == R_AARCH64_PREL64 || r_type == R_AARCH64_PREL32
            ||| r_type == R_AARCH64_ADR_PREL_PG_HI21 || r_type == R_AARCH64_ADD_ABS_LO12_NC
            ||| r_type == R_AARCH64_LDST8_ABS_LO12_NC || r_type == R_AARCH64_LDST16_ABS_LO12_NC
            ||| r_type == R_AARCH64_LDST32_ABS_LO12_NC || r_type == R_AARCH64_LDST64_ABS_LO12_NC
            ||| r_type == R_AARCH64_LDST128_ABS_LO12_NC || r_type == R_AARCH64_JUMP26
            ||| r_type == R_AARCH64_CALL26 || r_type == R_AARCH64_ADR_GOT_PAGE
            ||| r_type == R_AARCH64_LD64_GOT_LO12_NC
        },
        Architecture::Arm => {
            ||| r_type == R_ARM_PC24 || r_type == R_ARM_ABS32 || r_type == R_ARM_REL32
            ||| r_type == R_ARM_CALL || r_type == R_ARM_JUMP24 || r_type == R_ARM_MOVW_ABS_NC
            ||| r_type == R_ARM_MOVT_ABS || r_type == R_ARM_GOT_PREL
        },
        Architecture::Mips | Architecture::Mips64 => {
            ||| r_type == R_MIPS_32 || r_type == R_MIPS_26 || r_type == R_MIPS_HI16
            ||| r_type == R_MIPS_LO16 || r_type == R_MIPS_PC16 || r_type == R_MIPS_64
            ||| r_type == R_MIPS_PC32
        },
    }
}

/// The types that refer to a symbol through its slot in the global offset table.
pub open spec fn indirect(arch: Architecture, r_type: u32) -> bool {
    match arch {
        Architecture::X86 | Architecture::X86_64 => {
            ||| r_type == R_X86_64_GOTPCREL
            ||| r_type == R_X86_64_GOTPCRELX
            ||| r_type == R_X86_64_REX_GOTPCRELX
        },
        Architecture::Arm64 => {
            ||| r_type == R_AARCH64_ADR_GOT_PAGE
            ||| r_type == R_AARCH64_LD64_GOT_LO12_NC
        },
        Architecture::Arm => r_type == R_ARM_GOT_PREL,
        Architecture::Mips | Architecture::Mips64 => false,
    }
}

/// A relocation inside its section fails only for one of these reasons: its type is none that
/// there is, it goes through a table slot that its symbol does not have, or a branch or a page
/// is out of reach. Whether it fails for want of a slot depends on its type alone.
pub proof fn law_relocation_errors(
    arch: Architecture,
    endian: Endian,
    r_type: u32,
    buf: Seq<u8>,
    off: int,
    s: int,
    a: int,
    p: int,
    got: Option<u64>,
    implicit: bool,
    pair_lo: Option<i64>,
)
    requires
        0 <= off,
        off + 8 <= buf.len(),
    ensures
        ({
            let r = relocated(arch, endian, r_type, buf, off, s, a, p, got, implicit, pair_lo);
            &&& !supported(arch, r_type) <==> (r matches Err(RelocError::Unsupported { .. }))
            &&& r matches Err(RelocError::Unsupported { family, r_type: told }) ==> told == r_type
                && family == (match arch {
                Architecture::X86 | Architecture::X86_64 => Family::X86_64,
                Architecture::Arm64 => Family::Aarch64,
                Architecture::Arm => Family::Arm,
                Architecture::Mips | Architecture::Mips64 => Family::Mips,
            })
            &&& indirect(arch, r_type) && got is None <==> (r matches Err(
                RelocError::MissingSlot { .. },
            ))
            &&& r matches Err(RelocError::BranchRange { .. }) ==> (arch == Architecture::Arm64 && (
            r_type == R_AARCH64_CALL26 || r_type == R_AARCH64_JUMP26)) || (arch
                == Architecture::Arm && (r_type == R_ARM_CALL || r_type == R_ARM_JUMP24 || r_type
                == R_ARM_PC24))
            &&& r matches Err(RelocError::PageRange { .. }) ==> arch == Architecture::Arm64 && (
            r_type == R_AARCH64_ADR_PREL_PG_HI21 || r_type == R_AARCH64_ADR_GOT_PAGE)
            &&& r != Err::<Seq<u8>, RelocError>(RelocError::OutsideSection)
        }),
{
    match arch {
        Architecture::X86 | Architecture::X86_64 => {
            reveal(x86_64_field);
        },
        Architecture::Arm64 => {
            reveal(aarch64_field);
        },
        Architecture::Arm => {
            reveal(arm_field);
        },
        Architecture::Mips | Architecture::Mips64 => {
            reveal(mips_field);
        },
    }
}

} // verus!
