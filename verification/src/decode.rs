//! What a processor reads back out of relocated fields.
use crate::arch::{
    Architecture, R_AARCH64_ABS64, R_AARCH64_ADD_ABS_LO12_NC, R_AARCH64_ADR_GOT_PAGE,
    R_AARCH64_ADR_PREL_PG_HI21, R_AARCH64_CALL26, R_AARCH64_JUMP26, R_AARCH64_LD64_GOT_LO12_NC,
    R_AARCH64_LDST128_ABS_LO12_NC, R_AARCH64_LDST16_ABS_LO12_NC, R_AARCH64_LDST32_ABS_LO12_NC,
    R_AARCH64_LDST64_ABS_LO12_NC, R_AARCH64_LDST8_ABS_LO12_NC, R_AARCH64_PREL64, R_ARM_CALL,
    R_ARM_JUMP24, R_ARM_MOVT_ABS, R_ARM_MOVW_ABS_NC, R_ARM_PC24, R_MIPS_26, R_MIPS_64, R_MIPS_HI16,
    R_MIPS_LO16, R_X86_64_64, R_X86_64_GOTPCREL, R_X86_64_GOTPCRELX, R_X86_64_PC32, R_X86_64_PC64,
    R_X86_64_PLT32, R_X86_64_REX_GOTPCRELX,
};
use crate::bytes::{law_read_back, pow256, uint_at, Endian};
use crate::reloc::{
    aarch64_field, access_size, adrp_field, arm_field, mips_field, mov_field, mov_immediate,
    page_distance, page_offset_field, relocated, stored, with_bits, x86_64_field, Family, Field,
    RelocError, SlotUse,
};
use crate::word::{
    lemma_narrow, lemma_signed_sum, lemma_word_bits, low32, signed, signed64, wrap64,
};
use vstd::prelude::*;

verus! {

/// The 32-bit word at `off`.
pub open spec fn insn_at(endian: Endian, buf: Seq<u8>, off: int) -> int {
    uint_at(endian, buf, off, 4) as int
}

/// The address that an AArch64 `BL` or `B` at `p` goes to.
pub open spec fn aarch64_branch_target(insn: int, p: int) -> int {
    p + 4 * signed(insn, 0x400_0000)
}

/// The address that an ARM `BL` or `B` at `p` goes to: the program counter is two
/// instructions ahead.
pub open spec fn arm_branch_target(insn: int, p: int) -> int {
    p + 8 + 4 * signed(insn, 0x100_0000)
}

/// The page that an ADRP at `p` computes.
pub open spec fn adrp_page(insn: int, p: int) -> int {
    let pages = (insn / 0x20) % 0x8_0000 * 4 + (insn / 0x2000_0000) % 4;
    (p - p % 0x1000) + 0x1000 * signed(pages, 0x20_0000)
}

/// The twelve-bit immediate of an AArch64 `ADD`.
pub open spec fn add_immediate(insn: int) -> int {
    (insn / 0x400) % 0x1000
}

/// Whether an instruction keeps the bits outside `mask`.
pub open spec fn keeps_bits(before: int, after: int, mask: u32) -> bool {
    (after as u32) & !mask == (before as u32) & !mask
}

/// What four and eight bytes can hold.
pub proof fn lemma_words()
    ensures
        pow256(4) == 0x1_0000_0000,
        pow256(8) == 0x1_0000_0000_0000_0000,
{
    reveal_with_fuel(pow256, 9);
}

/// A stored field reads back as what was written.
pub proof fn lemma_stored(endian: Endian, buf: Seq<u8>, off: int, field: Field)
    requires
        0 <= off,
        stored(endian, buf, off, field) is Ok,
    ensures
        ({
            let b = stored(endian, buf, off, field)->Ok_0;
            match field {
                Field::Bytes { width, value } => value < pow256(width as nat) ==> uint_at(
                    endian,
                    b,
                    off,
                    width as int,
                ) == value,
                Field::Bits { mask, bits } => insn_at(endian, b, off) == with_bits(
                    uint_at(endian, buf, off, 4) as u32,
                    mask,
                    bits,
                ) && keeps_bits(insn_at(endian, buf, off), insn_at(endian, b, off), mask),
            }
        }),
        insn_at(endian, buf, off) < 0x1_0000_0000 || field is Bytes,
{
    lemma_words();
    match field {
        Field::Bytes { width, value } => {
            law_read_back(endian, buf, off, width as nat, value as nat);
            if value < pow256(width as nat) {
                vstd::arithmetic::div_mod::lemma_small_mod(value as nat, pow256(width as nat));
            }
        },
        Field::Bits { mask, bits } => {
            let old_insn = uint_at(endian, buf, off, 4) as u32;
            let insn = with_bits(old_insn, mask, bits);
            assert(((old_insn & !mask) | (bits & mask)) & !mask == old_insn & !mask)
                by (bit_vector);
            law_read_back(endian, buf, off, 4, insn as nat);
            crate::bytes::lemma_value_bound(endian, buf.subrange(off, off + 4));
        },
    }
}

/// The width of the field of a relocation.
pub open spec fn field_width(arch: Architecture, r_type: u32) -> int {
    let wide = match arch {
        Architecture::X86 | Architecture::X86_64 => r_type == R_X86_64_64 || r_type
            == R_X86_64_PC64,
        Architecture::Arm64 => r_type == R_AARCH64_ABS64 || r_type == R_AARCH64_PREL64,
        Architecture::Arm => false,
        Architecture::Mips | Architecture::Mips64 => r_type == R_MIPS_64,
    };
    if wide {
        8
    } else {
        4
    }
}

/// A relocation writes inside its field, which lies inside the section, keeps the length, and
/// changes no other byte.
pub proof fn law_relocation_frame(
    arch: Architecture,
    endian: Endian,
    r_type: u32,
    buf: Seq<u8>,
    off: int,
    s: int,
    a: int,
    p: int,
    got: Option<u64>,
    implicit: bool,
    pair_lo: Option<i64>,
)
    requires
        0 <= off,
        relocated(arch, endian, r_type, buf, off, s, a, p, got, implicit, pair_lo) is Ok,
    ensures
        ({
            let b =
                relocated(arch, endian, r_type, buf, off, s, a, p, got, implicit, pair_lo)->Ok_0;
            let width = field_width(arch, r_type);
            &&& off + width <= buf.len()
            &&& b.len() == buf.len()
            &&& forall|i: int|
                0 <= i < buf.len() && !(off <= i < off + width) ==> #[trigger] b[i] == buf[i]
        }),
{
    reveal(x86_64_field);
    reveal(aarch64_field);
    reveal(arm_field);
    reveal(mips_field);
    assert forall|v: nat, w: nat| #[trigger] endian.digits(v, w).len() == w by {
        crate::bytes::lemma_le_round_trip(v, w);
    }
}

/// An x86-64 absolute pointer reads back as `s + a`.
pub proof fn law_absolute_pointer(endian: Endian, buf: Seq<u8>, off: int, s: int, a: int, p: int)
    requires
        0 <= off,
        off + 8 <= buf.len(),
    ensures
        relocated(
            Architecture::X86_64,
            endian,
            R_X86_64_64,
            buf,
            off,
            s,
            a,
            p,
            None,
            false,
            None,
        ) matches Ok(b) && uint_at(endian, b, off, 8) == wrap64(s + a),
{
    reveal(x86_64_field);
    lemma_words();
    lemma_stored(endian, buf, off, Field::Bytes { width: 8, value: wrap64(s + a) });
}

/// A four-byte field with the distance from `p` to `t` leads from `p` to `t`: in a 32-bit address
/// space always, in a 64-bit one where the distance fits 32 bits.
proof fn lemma_rel32(endian: Endian, buf: Seq<u8>, off: int, t: int, p: int)
    requires
        0 <= off,
        off + 4 <= buf.len(),
    ensures
        stored(endian, buf, off, Field::Bytes { width: 4, value: low32(t - p) as u64 }) matches Ok(
            b,
        ) && leads(insn_at(endian, b, off), p, t),
{
    lemma_words();
    lemma_stored(endian, buf, off, Field::Bytes { width: 4, value: low32(t - p) as u64 });
    lemma_signed_sum(p, t - p, 0x1_0000_0000);
    if -0x8000_0000 <= signed64(t - p) < 0x8000_0000 {
        lemma_narrow(t - p);
        lemma_signed_sum(p, t - p, 0x1_0000_0000_0000_0000);
    }
}

/// Whether the signed 32-bit displacement `disp` leads from `p` to `t`: in a 32-bit address space
/// always, in a 64-bit one where the distance fits 32 bits.
pub open spec fn leads(disp: int, p: int, t: int) -> bool {
    let found = p + signed(disp, 0x1_0000_0000);
    &&& low32(found) == low32(t)
    &&& -0x8000_0000 <= signed64(t - p) < 0x8000_0000 ==> wrap64(found) == wrap64(t)
}

/// A PC-relative x86 reference (a call among them) leads to `s + a`.
pub proof fn law_pc_relative(
    arch: Architecture,
    endian: Endian,
    r_type: u32,
    buf: Seq<u8>,
    off: int,
    s: int,
    a: int,
    p: int,
    got: Option<u64>,
    implicit: bool,
    pair_lo: Option<i64>,
)
    requires
        0 <= off,
        off + 4 <= buf.len(),
        arch == Architecture::X86 || arch == Architecture::X86_64,
        r_type == R_X86_64_PC32 || r_type == R_X86_64_PLT32,
    ensures
        relocated(arch, endian, r_type, buf, off, s, a, p, got, implicit, pair_lo) matches Ok(b)
            && leads(insn_at(endian, b, off), p, s + a),
{
    reveal(x86_64_field);
    lemma_rel32(endian, buf, off, s + a, p);
}

/// An x86 reference through the global offset table leads to the symbol's slot plus `a`; without
/// a slot there is none.
pub proof fn law_got_relative(
    arch: Architecture,
    endian: Endian,
    r_type: u32,
    buf: Seq<u8>,
    off: int,
    s: int,
    a: int,
    p: int,
    got: Option<u64>,
    implicit: bool,
    pair_lo: Option<i64>,
)
    requires
        0 <= off,
        off + 4 <= buf.len(),
        arch == Architecture::X86 || arch == Architecture::X86_64,
        r_type == R_X86_64_GOTPCREL || r_type == R_X86_64_GOTPCRELX || r_type
            == R_X86_64_REX_GOTPCRELX,
    ensures
        ({
            let r = relocated(arch, endian, r_type, buf, off, s, a, p, got, implicit, pair_lo);
            match got {
                None => r == Err::<Seq<u8>, RelocError>(
                    RelocError::MissingSlot { slot: SlotUse::GotPcRel },
                ),
                Some(g) => r matches Ok(b) && leads(insn_at(endian, b, off), p, g + a),
            }
        }),
{
    reveal(x86_64_field);
    if let Some(g) = got {
        lemma_rel32(endian, buf, off, g + a, p);
    }
}

/// A branch field of `range` instruction counts holds the count of the displacement `x`.
proof fn lemma_branch(endian: Endian, buf: Seq<u8>, off: int, x: int, range: int)
    requires
        0 <= off,
        off + 4 <= buf.len(),
        range == 0x100_0000 || range == 0x400_0000,
        x % 4 == 0,
        -2 * range <= x < 2 * range,
    ensures
        stored(
            endian,
            buf,
            off,
            Field::Bits { mask: (range - 1) as u32, bits: low32(x / 4) },
        ) matches Ok(b) && 4 * signed(insn_at(endian, b, off), range) == x && keeps_bits(
            insn_at(endian, buf, off),
            insn_at(endian, b, off),
            (range - 1) as u32,
        ),
{
    lemma_words();
    let bits = low32(x / 4);
    let insn = uint_at(endian, buf, off, 4) as u32;
    lemma_stored(endian, buf, off, Field::Bits { mask: (range - 1) as u32, bits });
    if range == 0x400_0000 {
        let new = with_bits(insn, 0x03ff_ffff, bits);
        assert(new % 0x400_0000 == bits % 0x400_0000) by (bit_vector)
            requires
                new == (insn & !0x03ff_ffffu32) | (bits & 0x03ff_ffff),
        ;
        vstd::arithmetic::div_mod::lemma_mod_mod(x / 4, 0x400_0000, 0x40);
        assert(bits as int % 0x400_0000 == (x / 4) % 0x400_0000);
    } else {
        let new = with_bits(insn, 0x00ff_ffff, bits);
        assert(new % 0x100_0000 == bits % 0x100_0000) by (bit_vector)
            requires
                new == (insn & !0x00ff_ffffu32) | (bits & 0x00ff_ffff),
        ;
        vstd::arithmetic::div_mod::lemma_mod_mod(x / 4, 0x100_0000, 0x100);
        assert(bits as int % 0x100_0000 == (x / 4) % 0x100_0000);
    }
}

/// A relocated AArch64 `BL` or `B` goes to `s + a` and keeps its opcode. A displacement that is
/// not a whole number of instructions, or out of reach, is an error.
pub proof fn law_aarch64_branch(
    endian: Endian,
    r_type: u32,
    buf: Seq<u8>,
    off: int,
    s: int,
    a: int,
    p: int,
    got: Option<u64>,
    implicit: bool,
    pair_lo: Option<i64>,
)
    requires
        0 <= off,
        off + 4 <= buf.len(),
        r_type == R_AARCH64_CALL26 || r_type == R_AARCH64_JUMP26,
    ensures
        ({
            let r = relocated(
                Architecture::Arm64,
                endian,
                r_type,
                buf,
                off,
                s,
                a,
                p,
                got,
                implicit,
                pair_lo,
            );
            let x = signed64(s + a - p);
            match r {
                Err(e) => {
                    &&& !(x % 4 == 0 && -0x800_0000 <= x < 0x800_0000)
                    &&& e == RelocError::BranchRange { family: Family::Aarch64, target: x as i64 }
                },
                Ok(b) => {
                    &&& x % 4 == 0 && -0x800_0000 <= x < 0x800_0000
                    &&& wrap64(aarch64_branch_target(insn_at(endian, b, off), p)) == wrap64(s + a)
                    &&& keeps_bits(insn_at(endian, buf, off), insn_at(endian, b, off), 0x03ff_ffff)
                },
            }
        }),
{
    reveal(aarch64_field);
    let x = signed64(s + a - p);
    if x % 4 == 0 && -0x800_0000 <= x < 0x800_0000 {
        lemma_branch(endian, buf, off, x, 0x400_0000);
        lemma_signed_sum(p, s + a - p, 0x1_0000_0000_0000_0000);
    }
}

/// A relocated ARM `BL` or `B` goes eight bytes past `s` plus the addend that its field held (that
/// of an ordinary call is minus eight: the program counter is two instructions ahead), and keeps
/// its opcode. A displacement that is not a whole number of instructions, or out of reach, is an
/// error.
pub proof fn law_arm_branch(
    endian: Endian,
    r_type: u32,
    buf: Seq<u8>,
    off: int,
    s: int,
    a: int,
    p: int,
    got: Option<u64>,
    implicit: bool,
    pair_lo: Option<i64>,
)
    requires
        0 <= off,
        off + 4 <= buf.len(),
        r_type == R_ARM_CALL || r_type == R_ARM_JUMP24 || r_type == R_ARM_PC24,
    ensures
        ({
            let r = relocated(
                Architecture::Arm,
                endian,
                r_type,
                buf,
                off,
                s,
                a,
                p,
                got,
                implicit,
                pair_lo,
            );
            let t = s + 4 * signed(insn_at(endian, buf, off), 0x100_0000);
            let x = signed64(t - p);
            match r {
                Err(e) => {
                    &&& !(x % 4 == 0 && -0x200_0000 <= x < 0x200_0000)
                    &&& e == RelocError::BranchRange { family: Family::Arm, target: x as i64 }
                },
                Ok(b) => {
                    &&& x % 4 == 0 && -0x200_0000 <= x < 0x200_0000
                    &&& wrap64(arm_branch_target(insn_at(endian, b, off), p)) == wrap64(t + 8)
                    &&& keeps_bits(insn_at(endian, buf, off), insn_at(endian, b, off), 0x00ff_ffff)
                },
            }
        }),
{
    reveal(arm_field);
    let t = s + 4 * signed(insn_at(endian, buf, off), 0x100_0000);
    let x = signed64(t - p);
    if x % 4 == 0 && -0x200_0000 <= x < 0x200_0000 {
        lemma_branch(endian, buf, off, x, 0x100_0000);
        lemma_signed_sum(p + 8, t - p, 0x1_0000_0000_0000_0000);
    }
}

/// The bytes that one unit of the immediate of an AArch64 instruction stands for, where that
/// instruction adds the low twelve bits of an address.
pub open spec fn low_unit(r_type: u32) -> int {
    if r_type == R_AARCH64_ADD_ABS_LO12_NC {
        1
    } else {
        access_size(r_type)
    }
}

/// An ADRP and the ADD, load or store that follows it, both relocated against the same symbol
/// and addend, compute `s + a`, and keep the other bits of both instructions. A page out of the
/// reach of the ADRP is an error. Holds where the address is a multiple of what is loaded or
/// stored.
pub proof fn law_adrp_pair(
    endian: Endian,
    r_low: u32,
    first: Seq<u8>,
    second: Seq<u8>,
    off: int,
    s: int,
    a: int,
    p: int,
    got: Option<u64>,
    implicit: bool,
    pair_lo: Option<i64>,
)
    requires
        0 <= off,
        off + 4 <= first.len(),
        off + 4 <= second.len(),
        r_low == R_AARCH64_ADD_ABS_LO12_NC || r_low == R_AARCH64_LDST8_ABS_LO12_NC || r_low
            == R_AARCH64_LDST16_ABS_LO12_NC || r_low == R_AARCH64_LDST32_ABS_LO12_NC || r_low
            == R_AARCH64_LDST64_ABS_LO12_NC || r_low == R_AARCH64_LDST128_ABS_LO12_NC,
        (s + a) % low_unit(r_low) == 0,
    ensures
        ({
            let high = relocated(
                Architecture::Arm64,
                endian,
                R_AARCH64_ADR_PREL_PG_HI21,
                first,
                off,
                s,
                a,
                p,
                got,
                implicit,
                pair_lo,
            );
            let low = relocated(
                Architecture::Arm64,
                endian,
                r_low,
                second,
                off,
                s,
                a,
                p,
                got,
                implicit,
                pair_lo,
            );
            is_page_pair(endian, first, second, high, low, off, s + a, p, low_unit(r_low))
        }),
{
    lemma_page(endian, first, off, s + a, p);
    assert(aarch64_field(R_AARCH64_ADR_PREL_PG_HI21, s, a, p, got) == adrp_field(
        page_distance(s, a, p),
    )) by {
        reveal(aarch64_field);
    }
    assert(aarch64_field(r_low, s, a, p, got) == Ok::<Field, RelocError>(
        page_offset_field(s + a, low_unit(r_low)),
    )) by {
        reveal(aarch64_field);
    }
    lemma_low(endian, second, off, s + a, low_unit(r_low));
    assert(pages_away(s + a, p) == page_distance(s, a, p));
}

/// An ADRP and the load that follows it, both relocated against the same slot of the global
/// offset table, compute the address of the slot plus `a`, and keep the other bits of both
/// instructions. A page out of the reach of the ADRP is an error. Holds where the address is a
/// multiple of eight.
pub proof fn law_got_pair(
    endian: Endian,
    first: Seq<u8>,
    second: Seq<u8>,
    off: int,
    s: int,
    a: int,
    p: int,
    g: u64,
    implicit: bool,
    pair_lo: Option<i64>,
)
    requires
        0 <= off,
        off + 4 <= first.len(),
        off + 4 <= second.len(),
        (g + a) % 8 == 0,
    ensures
        ({
            let high = relocated(
                Architecture::Arm64,
                endian,
                R_AARCH64_ADR_GOT_PAGE,
                first,
                off,
                s,
                a,
                p,
                Some(g),
                implicit,
                pair_lo,
            );
            let low = relocated(
                Architecture::Arm64,
                endian,
                R_AARCH64_LD64_GOT_LO12_NC,
                second,
                off,
                s,
                a,
                p,
                Some(g),
                implicit,
                pair_lo,
            );
            is_page_pair(endian, first, second, high, low, off, g + a, p, 8)
        }),
{
    lemma_page(endian, first, off, g + a, p);
    assert(aarch64_field(R_AARCH64_ADR_GOT_PAGE, s, a, p, Some(g)) == adrp_field(
        page_distance(g as int, a, p),
    )) by {
        reveal(aarch64_field);
    }
    assert(aarch64_field(R_AARCH64_LD64_GOT_LO12_NC, s, a, p, Some(g)) == Ok::<Field, RelocError>(
        page_offset_field(g + a, 8),
    )) by {
        reveal(aarch64_field);
    }
    lemma_low(endian, second, off, g + a, 8);
    assert(pages_away(g + a, p) == page_distance(g as int, a, p));
}

/// The distance from the page of `p` to the page of `t`.
pub open spec fn pages_away(t: int, p: int) -> int {
    signed64(t - t % 0x1000 - (p - p % 0x1000))
}

/// Whether `high` and `low` are what becomes of an ADRP in `first`, executed at `p`, and of an
/// instruction in `second` that adds an immediate in units of `unit` bytes: together they give
/// the address `t`, where its page is in reach.
pub open spec fn is_page_pair(
    endian: Endian,
    first: Seq<u8>,
    second: Seq<u8>,
    high: Result<Seq<u8>, RelocError>,
    low: Result<Seq<u8>, RelocError>,
    off: int,
    t: int,
    p: int,
    unit: int,
) -> bool {
    let x = pages_away(t, p);
    &&& low matches Ok(l) && keeps_bits(
        insn_at(endian, second, off),
        insn_at(endian, l, off),
        0x003f_fc00,
    ) && match high {
        Err(e) => {
            &&& !(-0x1_0000_0000 <= x < 0x1_0000_0000)
            &&& e == RelocError::PageRange { displacement: x as i64 }
        },
        Ok(h) => {
            &&& -0x1_0000_0000 <= x < 0x1_0000_0000
            &&& keeps_bits(insn_at(endian, first, off), insn_at(endian, h, off), 0x60ff_ffe0)
            &&& wrap64(
                adrp_page(insn_at(endian, h, off), p) + unit * add_immediate(
                    insn_at(endian, l, off),
                ),
            ) == wrap64(t)
        },
    }
}

proof fn lemma_page(endian: Endian, buf: Seq<u8>, off: int, t: int, p: int)
    requires
        0 <= off,
        off + 4 <= buf.len(),
    ensures
        ({
            let x = pages_away(t, p);
            match adrp_field(x) {
                Err(e) => {
                    &&& !(-0x1_0000_0000 <= x < 0x1_0000_0000)
                    &&& e == RelocError::PageRange { displacement: x as i64 }
                },
                Ok(field) => {
                    &&& -0x1_0000_0000 <= x < 0x1_0000_0000
                    &&& stored(endian, buf, off, field) matches Ok(b) && keeps_bits(
                        insn_at(endian, buf, off),
                        insn_at(endian, b, off),
                        0x60ff_ffe0,
                    ) && wrap64(adrp_page(insn_at(endian, b, off), p) + t % 0x1000) == wrap64(t)
                },
            }
        }),
{
    let d = t - t % 0x1000 - (p - p % 0x1000);
    let x = signed64(d);
    assert(d % 0x1000 == 0);
    lemma_word_bits(d);
    assert(x % 0x1000 == 0);
    if -0x1_0000_0000 <= x < 0x1_0000_0000 {
        let pages = (x / 0x1000) % 0x20_0000;
        lemma_adrp(endian, buf, off, pages, p);
        assert(signed(pages, 0x20_0000) * 0x1000 == x);
        lemma_signed_sum(p - p % 0x1000 + t % 0x1000, d, 0x1_0000_0000_0000_0000);
    }
}

proof fn lemma_low(endian: Endian, buf: Seq<u8>, off: int, t: int, unit: int)
    requires
        0 <= off,
        off + 4 <= buf.len(),
        unit == 1 || unit == 2 || unit == 4 || unit == 8 || unit == 16,
        t % unit == 0,
    ensures
        stored(endian, buf, off, page_offset_field(t, unit)) matches Ok(b) && keeps_bits(
            insn_at(endian, buf, off),
            insn_at(endian, b, off),
            0x003f_fc00,
        ) && unit * add_immediate(insn_at(endian, b, off)) == t % 0x1000,
{
    lemma_units(t, unit);
    lemma_add(endian, buf, off, (t % 0x1000) / unit);
}

/// A multiple of `unit` has a whole number of units in its low twelve bits.
proof fn lemma_units(t: int, unit: int)
    requires
        unit == 1 || unit == 2 || unit == 4 || unit == 8 || unit == 16,
        t % unit == 0,
    ensures
        0 <= (t % 0x1000) / unit < 0x1000,
        unit * ((t % 0x1000) / unit) == t % 0x1000,
{
    let low = t % 0x1000;
    let rest = if unit == 1 {
        0x1000
    } else if unit == 2 {
        0x800
    } else if unit == 4 {
        0x400
    } else if unit == 8 {
        0x200
    } else {
        0x100int
    };
    assert(unit * rest == 0x1000) by (nonlinear_arith)
        requires
            unit == 1 && rest == 0x1000 || unit == 2 && rest == 0x800 || unit == 4 && rest == 0x400
                || unit == 8 && rest == 0x200 || unit == 16 && rest == 0x100,
    ;
    vstd::arithmetic::div_mod::lemma_mod_mod(t, unit, rest);
    vstd::arithmetic::div_mod::lemma_fundamental_div_mod(low, unit);
    let q = low / unit;
    assert(0 <= q < 0x1000) by (nonlinear_arith)
        requires
            low == unit * q,
            0 <= low < 0x1000,
            1 <= unit,
    ;
}

proof fn lemma_adrp(endian: Endian, buf: Seq<u8>, off: int, pages: int, p: int)
    requires
        0 <= off,
        off + 4 <= buf.len(),
        0 <= pages < 0x20_0000,
    ensures
        stored(
            endian,
            buf,
            off,
            Field::Bits {
                mask: 0x60ff_ffe0,
                bits: ((pages % 4) * 0x2000_0000 + (pages / 4) * 0x20) as u32,
            },
        ) matches Ok(b) && adrp_page(insn_at(endian, b, off), p) == (p - p % 0x1000) + 0x1000
            * signed(pages, 0x20_0000) && keeps_bits(
            insn_at(endian, buf, off),
            insn_at(endian, b, off),
            0x60ff_ffe0,
        ),
{
    lemma_words();
    let bits = ((pages % 4) * 0x2000_0000 + (pages / 4) * 0x20) as u32;
    lemma_stored(endian, buf, off, Field::Bits { mask: 0x60ff_ffe0, bits });
    let insn = uint_at(endian, buf, off, 4) as u32;
    let new = with_bits(insn, 0x60ff_ffe0, bits);
    assert(new == (insn & !0x60ff_ffe0u32) | (bits & 0x60ff_ffe0));
    assert((new / 0x20) % 0x8_0000 == (bits / 0x20) % 0x8_0000 && (new / 0x2000_0000) % 4 == (bits
        / 0x2000_0000) % 4) by (bit_vector)
        requires
            new == (insn & !0x60ff_ffe0u32) | (bits & 0x60ff_ffe0),
    ;
    assert((bits as int / 0x20) % 0x8_0000 == pages / 4);
    assert((bits as int / 0x2000_0000) % 4 == pages % 4);
}

/// An AArch64 immediate holds what was written, and the other bits of the instruction stay.
pub proof fn lemma_add(endian: Endian, buf: Seq<u8>, off: int, low: int)
    requires
        0 <= off,
        off + 4 <= buf.len(),
        0 <= low < 0x1000,
    ensures
        stored(
            endian,
            buf,
            off,
            Field::Bits { mask: 0x003f_fc00, bits: (low * 0x400) as u32 },
        ) matches Ok(b) && add_immediate(insn_at(endian, b, off)) == low && keeps_bits(
            insn_at(endian, buf, off),
            insn_at(endian, b, off),
            0x003f_fc00,
        ),
{
    lemma_words();
    let imm = (low * 0x400) as u32;
    lemma_stored(endian, buf, off, Field::Bits { mask: 0x003f_fc00, bits: imm });
    let insn = uint_at(endian, buf, off, 4) as u32;
    let new = with_bits(insn, 0x003f_fc00, imm);
    assert(new == (insn & !0x003f_fc00u32) | (imm & 0x003f_fc00));
    assert((new / 0x400) % 0x1000 == (imm / 0x400) % 0x1000) by (bit_vector)
        requires
            new == (insn & !0x003f_fc00u32) | (imm & 0x003f_fc00),
    ;
}

/// A MOVW and a MOVT with zero immediates, both relocated against `s`, load its low 32 bits, and
/// keep their other bits.
pub proof fn law_movw_movt(
    endian: Endian,
    first: Seq<u8>,
    second: Seq<u8>,
    off: int,
    s: int,
    p: int,
)
    requires
        0 <= off,
        off + 4 <= first.len(),
        off + 4 <= second.len(),
        mov_immediate(insn_at(endian, first, off)) == 0,
        mov_immediate(insn_at(endian, second, off)) == 0,
    ensures
        ({
            let low = relocated(
                Architecture::Arm,
                endian,
                R_ARM_MOVW_ABS_NC,
                first,
                off,
                s,
                0,
                p,
                None,
                true,
                None,
            );
            let high = relocated(
                Architecture::Arm,
                endian,
                R_ARM_MOVT_ABS,
                second,
                off,
                s,
                0,
                p,
                None,
                true,
                None,
            );
            low is Ok && high is Ok && mov_immediate(insn_at(endian, high->Ok_0, off)) * 0x1_0000
                + mov_immediate(insn_at(endian, low->Ok_0, off)) == low32(s) && keeps_bits(
                insn_at(endian, first, off),
                insn_at(endian, low->Ok_0, off),
                0x000f_0fff,
            ) && keeps_bits(
                insn_at(endian, second, off),
                insn_at(endian, high->Ok_0, off),
                0x000f_0fff,
            )
        }),
{
    lemma_relocated_mov(endian, first, off, s, p, false);
    lemma_relocated_mov(endian, second, off, s, p, true);
    lemma_halves(s);
}

/// A number's low 32 bits are its two low half-words.
proof fn lemma_halves(s: int)
    ensures
        s / 0x1_0000 % 0x1_0000 * 0x1_0000 + s % 0x1_0000 == low32(s),
{
    let q = s / 0x1_0000;
    let k = q / 0x1_0000;
    let h = q % 0x1_0000;
    let l = s % 0x1_0000;
    assert(s == k * 0x1_0000_0000 + (h * 0x1_0000 + l));
    vstd::arithmetic::div_mod::lemma_mod_multiples_vanish(k, h * 0x1_0000 + l, 0x1_0000_0000);
    vstd::arithmetic::div_mod::lemma_small_mod((h * 0x1_0000 + l) as nat, 0x1_0000_0000);
}

/// A MOVW, or with `top` set a MOVT, with a zero immediate takes a half-word of `s`.
proof fn lemma_relocated_mov(
    endian: Endian,
    buf: Seq<u8>,
    off: int,
    s: int,
    p: int,
    top: bool,
)
    requires
        0 <= off,
        off + 4 <= buf.len(),
        mov_immediate(insn_at(endian, buf, off)) == 0,
    ensures
        relocated(
            Architecture::Arm,
            endian,
            if top {
                R_ARM_MOVT_ABS
            } else {
                R_ARM_MOVW_ABS_NC
            },
            buf,
            off,
            s,
            0,
            p,
            None,
            true,
            None,
        ) matches Ok(b) && mov_immediate(insn_at(endian, b, off)) == (if top {
            s / 0x1_0000 % 0x1_0000
        } else {
            s % 0x1_0000
        }) && keeps_bits(insn_at(endian, buf, off), insn_at(endian, b, off), 0x000f_0fff),
{
    let half = if top {
        s / 0x1_0000 % 0x1_0000
    } else {
        s % 0x1_0000
    };
    let r_type = if top {
        R_ARM_MOVT_ABS
    } else {
        R_ARM_MOVW_ABS_NC
    };
    assert(arm_field(r_type, insn_at(endian, buf, off), s, p, None) == Ok::<Field, RelocError>(
        mov_field(half),
    )) by {
        reveal(arm_field);
        assert(signed(0, 0x1_0000) == 0);
    }
    lemma_mov(endian, buf, off, half);
}

/// An ARM immediate holds the half that was written, and the other bits of the instruction stay.
pub proof fn lemma_mov(endian: Endian, buf: Seq<u8>, off: int, half: int)
    requires
        0 <= off,
        off + 4 <= buf.len(),
        0 <= half < 0x1_0000,
    ensures
        stored(endian, buf, off, mov_field(half)) matches Ok(b) && mov_immediate(
            insn_at(endian, b, off),
        ) == half && keeps_bits(insn_at(endian, buf, off), insn_at(endian, b, off), 0x000f_0fff),
{
    lemma_words();
    let bits = (half / 0x1000 * 0x1_0000 + half % 0x1000) as u32;
    lemma_stored(endian, buf, off, mov_field(half));
    let insn = uint_at(endian, buf, off, 4) as u32;
    let new = with_bits(insn, 0x000f_0fff, bits);
    assert(new == (insn & !0x000f_0fffu32) | (bits & 0x000f_0fff));
    assert((new / 0x1_0000) % 16 == (bits / 0x1_0000) % 16 && new % 0x1000 == bits % 0x1000)
        by (bit_vector)
        requires
            new == (insn & !0x000f_0fffu32) | (bits & 0x000f_0fff),
    ;
}

/// A MIPS high half and its paired low half, whose stored immediates together are the addend,
/// compute `s` plus that addend, modulo 32 bits, and keep the upper half of both instructions.
#[verifier::rlimit(40)]
pub proof fn law_mips_pair(
    endian: Endian,
    first: Seq<u8>,
    second: Seq<u8>,
    off: int,
    s: int,
    p: int,
)
    requires
        0 <= off,
        off + 4 <= first.len(),
        off + 4 <= second.len(),
    ensures
        ({
            let alo = signed(insn_at(endian, second, off), 0x1_0000);
            let ahi = insn_at(endian, first, off) % 0x1_0000 * 0x1_0000;
            let high = relocated(
                Architecture::Mips,
                endian,
                R_MIPS_HI16,
                first,
                off,
                s,
                0,
                p,
                None,
                true,
                Some(alo as i64),
            );
            let low = relocated(
                Architecture::Mips,
                endian,
                R_MIPS_LO16,
                second,
                off,
                s,
                0,
                p,
                None,
                true,
                None,
            );
            high is Ok && low is Ok && low32(
                insn_at(endian, high->Ok_0, off) % 0x1_0000 * 0x1_0000 + signed(
                    insn_at(endian, low->Ok_0, off),
                    0x1_0000,
                ),
            ) == low32(ahi + alo + s) && keeps_bits(
                insn_at(endian, first, off),
                insn_at(endian, high->Ok_0, off),
                0xffff,
            ) && keeps_bits(
                insn_at(endian, second, off),
                insn_at(endian, low->Ok_0, off),
                0xffff,
            )
        }),
{
    let alo = signed(insn_at(endian, second, off), 0x1_0000);
    let ahi = insn_at(endian, first, off) % 0x1_0000 * 0x1_0000;
    let x = ahi + alo + s;
    let h = (x + 0x8000) / 0x1_0000 % 0x1_0000;
    let l = (s + alo) % 0x1_0000;
    lemma_high_half(endian, first, off, s, p, alo);
    lemma_low_half(endian, second, off, s, p);
    assert(l == x % 0x1_0000);
    lemma_pair_sum(x, h, l);
}

proof fn lemma_high_half(endian: Endian, buf: Seq<u8>, off: int, s: int, p: int, alo: int)
    requires
        0 <= off,
        off + 4 <= buf.len(),
        -0x8000 <= alo < 0x8000,
    ensures
        relocated(
            Architecture::Mips,
            endian,
            R_MIPS_HI16,
            buf,
            off,
            s,
            0,
            p,
            None,
            true,
            Some(alo as i64),
        ) matches Ok(b) && insn_at(endian, b, off) % 0x1_0000 == (insn_at(endian, buf, off)
            % 0x1_0000 * 0x1_0000 + alo + s + 0x8000) / 0x1_0000 % 0x1_0000 && keeps_bits(
            insn_at(endian, buf, off),
            insn_at(endian, b, off),
            0xffff,
        ),
{
    let insn = insn_at(endian, buf, off);
    let wide = uint_at(endian, buf, off, 8) as int;
    let h = (insn % 0x1_0000 * 0x1_0000 + alo + s + 0x8000) / 0x1_0000 % 0x1_0000;
    assert(mips_field(R_MIPS_HI16, insn, wide, s, 0, p, true, Some(alo as i64)) == Ok::<
        Field,
        RelocError,
    >(Field::Bits { mask: 0xffff, bits: h as u32 })) by {
        reveal(mips_field);
    }
    lemma_half(endian, buf, off, h);
}

proof fn lemma_low_half(endian: Endian, buf: Seq<u8>, off: int, s: int, p: int)
    requires
        0 <= off,
        off + 4 <= buf.len(),
    ensures
        relocated(
            Architecture::Mips,
            endian,
            R_MIPS_LO16,
            buf,
            off,
            s,
            0,
            p,
            None,
            true,
            None,
        ) matches Ok(b) && insn_at(endian, b, off) % 0x1_0000 == (s + signed(
            insn_at(endian, buf, off),
            0x1_0000,
        )) % 0x1_0000 && keeps_bits(insn_at(endian, buf, off), insn_at(endian, b, off), 0xffff),
{
    let insn = insn_at(endian, buf, off);
    let wide = uint_at(endian, buf, off, 8) as int;
    let l = (s + signed(insn, 0x1_0000)) % 0x1_0000;
    assert(mips_field(R_MIPS_LO16, insn, wide, s, 0, p, true, None) == Ok::<Field, RelocError>(
        Field::Bits { mask: 0xffff, bits: l as u32 },
    )) by {
        reveal(mips_field);
    }
    lemma_half(endian, buf, off, l);
}

/// A number is its rounded high half and its signed low half, modulo 32 bits.
pub proof fn lemma_pair_sum(x: int, h: int, l: int)
    requires
        h == (x + 0x8000) / 0x1_0000 % 0x1_0000,
        l == x % 0x1_0000,
    ensures
        low32(h * 0x1_0000 + signed(l, 0x1_0000)) == low32(x),
{
    let q = (x + 0x8000) / 0x1_0000;
    let k = q / 0x1_0000;
    let low = if l < 0x8000 {
        l
    } else {
        l - 0x1_0000
    };
    assert(signed(l, 0x1_0000) == low);
    let m = x / 0x1_0000;
    assert(x == m * 0x1_0000 + l);
    assert(q == if l < 0x8000 {
        m
    } else {
        m + 1
    });
    assert(q == k * 0x1_0000 + h);
    let y = h * 0x1_0000 + low;
    assert(x == k * 0x1_0000_0000 + y);
    assert(x % 0x1_0000_0000 == y % 0x1_0000_0000) by {
        vstd::arithmetic::div_mod::lemma_mod_multiples_vanish(k, y, 0x1_0000_0000);
    }
}

/// A half-word field holds the half that was written, and the upper half of the instruction stays.
pub proof fn lemma_half(endian: Endian, buf: Seq<u8>, off: int, half: int)
    requires
        0 <= off,
        off + 4 <= buf.len(),
        0 <= half < 0x1_0000,
    ensures
        stored(endian, buf, off, Field::Bits { mask: 0xffff, bits: half as u32 }) matches Ok(b)
            && insn_at(endian, b, off) % 0x1_0000 == half && keeps_bits(
            insn_at(endian, buf, off),
            insn_at(endian, b, off),
            0xffff,
        ),
{
    lemma_words();
    let bits = half as u32;
    lemma_stored(endian, buf, off, Field::Bits { mask: 0xffff, bits });
    let insn = uint_at(endian, buf, off, 4) as u32;
    let new = with_bits(insn, 0xffff, bits);
    assert(new == (insn & !0xffffu32) | (bits & 0xffff));
    assert(new % 0x1_0000 == bits % 0x1_0000) by (bit_vector)
        requires
            new == (insn & !0xffffu32) | (bits & 0xffff),
    ;
}

/// A relocated MIPS jump holds bits 2 to 27 of `s` plus the address that its field held, and
/// keeps its opcode.
pub proof fn law_mips_jump(endian: Endian, buf: Seq<u8>, off: int, s: int, p: int)
    requires
        0 <= off,
        off + 4 <= buf.len(),
    ensures
        relocated(
            Architecture::Mips,
            endian,
            R_MIPS_26,
            buf,
            off,
            s,
            0,
            p,
            None,
            true,
            None,
        ) matches Ok(b) && insn_at(endian, b, off) % 0x400_0000 == (s + 4 * (insn_at(
            endian,
            buf,
            off,
        ) % 0x400_0000)) / 4 % 0x400_0000 && keeps_bits(
            insn_at(endian, buf, off),
            insn_at(endian, b, off),
            0x03ff_ffff,
        ),
{
    reveal(mips_field);
    lemma_words();
    let x = (s + 4 * (insn_at(endian, buf, off) % 0x400_0000)) / 4;
    let bits = low32(x);
    lemma_stored(endian, buf, off, Field::Bits { mask: 0x03ff_ffff, bits });
    let insn = uint_at(endian, buf, off, 4) as u32;
    let new = with_bits(insn, 0x03ff_ffff, bits);
    assert(new == (insn & !0x03ff_ffffu32) | (bits & 0x03ff_ffff));
    assert(new % 0x400_0000 == bits % 0x400_0000) by (bit_vector)
        requires
            new == (insn & !0x03ff_ffffu32) | (bits & 0x03ff_ffff),
    ;
    vstd::arithmetic::div_mod::lemma_mod_mod(x, 0x400_0000, 0x40);
}

} // verus!
