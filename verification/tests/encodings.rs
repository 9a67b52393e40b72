use resplice::arch::{
    describe, got_slot_width, is_mips_hi16, is_mips_lo16, mips_lo16_addend, needs_got, Architecture,
    R_AARCH64_ABS32, R_AARCH64_ABS64, R_AARCH64_ADD_ABS_LO12_NC, R_AARCH64_ADR_GOT_PAGE,
    R_AARCH64_ADR_PREL_PG_HI21, R_AARCH64_CALL26, R_AARCH64_JUMP26, R_AARCH64_LD64_GOT_LO12_NC,
    R_AARCH64_LDST128_ABS_LO12_NC, R_AARCH64_LDST16_ABS_LO12_NC, R_AARCH64_LDST32_ABS_LO12_NC,
    R_AARCH64_LDST64_ABS_LO12_NC, R_AARCH64_LDST8_ABS_LO12_NC, R_AARCH64_PREL32, R_AARCH64_PREL64,
    R_ARM_ABS32, R_ARM_CALL, R_ARM_GOT_PREL, R_ARM_JUMP24, R_ARM_MOVT_ABS, R_ARM_MOVW_ABS_NC,
    R_ARM_PC24, R_ARM_REL32, R_MIPS_26, R_MIPS_32, R_MIPS_64, R_MIPS_HI16, R_MIPS_LO16,
    R_MIPS_PC16, R_MIPS_PC32, R_X86_64_32, R_X86_64_32S, R_X86_64_64, R_X86_64_GOTPCREL,
    R_X86_64_GOTPCRELX, R_X86_64_PC32, R_X86_64_PC64, R_X86_64_PLT32, R_X86_64_REX_GOTPCRELX,
};
use resplice::bytes::Endian;
use resplice::reloc::{adrp, apply, Family, RelocError, SlotUse};

/// Apply one relocation to a fresh 4-byte instruction word `base` and return
/// the resulting word (decoded in `endian`).
#[allow(clippy::too_many_arguments)]
fn insn(
    arch: Architecture,
    endian: Endian,
    r_type: u32,
    base: u32,
    s: u64,
    a: i64,
    p: u64,
    got_va: Option<u64>,
    has_implicit: bool,
    pair_lo: Option<i64>,
) -> u32 {
    let mut buf = [0u8; 4];
    endian.write_uint(&mut buf, 0, 4, base as u64);
    apply(arch, endian, r_type, &mut buf, 0, s, a, p, got_va, has_implicit, pair_lo).unwrap();
    endian.read_uint(&buf, 0, 4) as u32
}

#[test]
fn endian_roundtrip() {
    let mut b = [0u8; 8];
    Endian::Big.write_uint(&mut b, 0, 4, 0x1122_3344);
    assert_eq!(&b[..4], &[0x11, 0x22, 0x33, 0x44]);
    assert_eq!(Endian::Big.read_uint(&b, 0, 4), 0x1122_3344);
    Endian::Little.write_uint(&mut b, 0, 8, 0x1122_3344_5566_7788);
    assert_eq!(Endian::Little.read_uint(&b, 0, 8), 0x1122_3344_5566_7788);
}

#[test]
fn aarch64_encodings() {
    let a = Architecture::Arm64;
    let le = Endian::Little;
    // BL: (S - P) >> 2 into imm26.
    assert_eq!(
        insn(a, le, R_AARCH64_CALL26, 0x9400_0000, 0x2000, 0, 0x1000, None, false, None),
        0x9400_0400
    );
    // ADRP: page(S) - page(P) into imm21 (immlo/immhi).
    assert_eq!(
        insn(a, le, R_AARCH64_ADR_PREL_PG_HI21, 0x9000_0000, 0x3000, 0, 0x1000, None, false, None),
        0xd000_0000
    );
    // ADD lo12: (S) & 0xfff into imm12.
    assert_eq!(
        insn(a, le, R_AARCH64_ADD_ABS_LO12_NC, 0x9100_0000, 0x3456, 0, 0, None, false, None),
        0x9111_5800
    );
    // GOT: ADRP + LD64 addressing a synthesized slot at 0x5040.
    assert_eq!(
        insn(a, le, R_AARCH64_ADR_GOT_PAGE, 0x9000_0000, 0, 0, 0x1000, Some(0x5040), false, None),
        0x9000_0020
    );
    assert_eq!(
        insn(a, le, R_AARCH64_LD64_GOT_LO12_NC, 0xf940_0000, 0, 0, 0, Some(0x5040), false, None),
        0xf940_2000
    );
    // ABS64 writes the full pointer.
    let mut buf = [0u8; 8];
    apply(a, le, R_AARCH64_ABS64, &mut buf, 0, 0x1234, 8, 0, None, false, None).unwrap();
    assert_eq!(le.read_uint(&buf, 0, 8), 0x123c);
}

#[test]
fn arm_encodings() {
    let a = Architecture::Arm;
    let le = Endian::Little;
    // BL uses the REL scheme: addend read from the (zero) branch field.
    assert_eq!(
        insn(a, le, R_ARM_CALL, 0xeb00_0000, 0x2000, 0, 0x1000, None, true, None),
        0xeb00_0400
    );
    assert_eq!(
        insn(a, le, R_ARM_MOVW_ABS_NC, 0xe300_0000, 0x1234, 0, 0, None, true, None),
        0xe301_0234
    );
    assert_eq!(
        insn(a, le, R_ARM_MOVT_ABS, 0xe340_0000, 0x1234_5678, 0, 0, None, true, None),
        0xe341_0234
    );
}

#[test]
fn mips_encodings() {
    let a = Architecture::Mips;
    let be = Endian::Big;
    // JAL: (S) >> 2 into the 26-bit region field.
    assert_eq!(
        insn(a, be, R_MIPS_26, 0x0c00_0000, 0x0040_0128, 0, 0, None, true, None),
        0x0c10_004a
    );
    // HI16 carries the sign of the paired LO16 low half (here 0).
    assert_eq!(
        insn(a, be, R_MIPS_HI16, 0x3c01_0000, 0x0041_8000, 0, 0, None, true, Some(0)),
        0x3c01_0042
    );
    assert_eq!(
        insn(a, be, R_MIPS_LO16, 0x8c22_0000, 0x0041_8000, 0, 0, None, true, None),
        0x8c22_8000
    );
    assert_eq!(
        insn(a, be, R_MIPS_PC16, 0x1000_0000, 0x0040_0100, 0, 0x0040_0000, None, true, None),
        0x1000_0040
    );
    // Little-endian MIPS encodes the same instruction word in LE byte order.
    let mut buf = [0u8; 4];
    Endian::Little.write_uint(&mut buf, 0, 4, 0x0c00_0000);
    apply(a, Endian::Little, R_MIPS_26, &mut buf, 0, 0x0040_0128, 0, 0, None, true, None).unwrap();
    assert_eq!(buf, 0x0c10_004au32.to_le_bytes());
}

#[test]
fn mips_got_relocs_are_rejected() {
    let mut buf = [0u8; 4];
    let err = apply(
        Architecture::Mips,
        Endian::Big,
        object::elf::R_MIPS_GOT16.0,
        &mut buf,
        0,
        0x1000,
        0,
        0,
        None,
        true,
        None,
    )
    .unwrap_err();
    assert!(err.message().contains("mips relocation"));
    assert!(!needs_got(Architecture::Mips, object::elf::R_MIPS_GOT16.0));
}

#[test]
fn relocation_numbers_are_those_of_the_elf_abi() {
    let pairs = [
        (R_X86_64_64, object::elf::R_X86_64_64),
        (R_X86_64_PC32, object::elf::R_X86_64_PC32),
        (R_X86_64_PLT32, object::elf::R_X86_64_PLT32),
        (R_X86_64_GOTPCREL, object::elf::R_X86_64_GOTPCREL),
        (R_X86_64_32, object::elf::R_X86_64_32),
        (R_X86_64_32S, object::elf::R_X86_64_32S),
        (R_X86_64_PC64, object::elf::R_X86_64_PC64),
        (R_X86_64_GOTPCRELX, object::elf::R_X86_64_GOTPCRELX),
        (R_X86_64_REX_GOTPCRELX, object::elf::R_X86_64_REX_GOTPCRELX),
        (R_AARCH64_ABS64, object::elf::R_AARCH64_ABS64),
        (R_AARCH64_ABS32, object::elf::R_AARCH64_ABS32),
        (R_AARCH64_PREL64, object::elf::R_AARCH64_PREL64),
        (R_AARCH64_PREL32, object::elf::R_AARCH64_PREL32),
        (R_AARCH64_ADR_PREL_PG_HI21, object::elf::R_AARCH64_ADR_PREL_PG_HI21),
        (R_AARCH64_ADD_ABS_LO12_NC, object::elf::R_AARCH64_ADD_ABS_LO12_NC),
        (R_AARCH64_LDST8_ABS_LO12_NC, object::elf::R_AARCH64_LDST8_ABS_LO12_NC),
        (R_AARCH64_JUMP26, object::elf::R_AARCH64_JUMP26),
        (R_AARCH64_CALL26, object::elf::R_AARCH64_CALL26),
        (R_AARCH64_LDST16_ABS_LO12_NC, object::elf::R_AARCH64_LDST16_ABS_LO12_NC),
        (R_AARCH64_LDST32_ABS_LO12_NC, object::elf::R_AARCH64_LDST32_ABS_LO12_NC),
        (R_AARCH64_LDST64_ABS_LO12_NC, object::elf::R_AARCH64_LDST64_ABS_LO12_NC),
        (R_AARCH64_LDST128_ABS_LO12_NC, object::elf::R_AARCH64_LDST128_ABS_LO12_NC),
        (R_AARCH64_ADR_GOT_PAGE, object::elf::R_AARCH64_ADR_GOT_PAGE),
        (R_AARCH64_LD64_GOT_LO12_NC, object::elf::R_AARCH64_LD64_GOT_LO12_NC),
        (R_ARM_PC24, object::elf::R_ARM_PC24),
        (R_ARM_ABS32, object::elf::R_ARM_ABS32),
        (R_ARM_REL32, object::elf::R_ARM_REL32),
        (R_ARM_CALL, object::elf::R_ARM_CALL),
        (R_ARM_JUMP24, object::elf::R_ARM_JUMP24),
        (R_ARM_MOVW_ABS_NC, object::elf::R_ARM_MOVW_ABS_NC),
        (R_ARM_MOVT_ABS, object::elf::R_ARM_MOVT_ABS),
        (R_ARM_GOT_PREL, object::elf::R_ARM_GOT_PREL),
        (R_MIPS_32, object::elf::R_MIPS_32),
        (R_MIPS_26, object::elf::R_MIPS_26),
        (R_MIPS_HI16, object::elf::R_MIPS_HI16),
        (R_MIPS_LO16, object::elf::R_MIPS_LO16),
        (R_MIPS_PC16, object::elf::R_MIPS_PC16),
        (R_MIPS_64, object::elf::R_MIPS_64),
    ];
    for (ours, theirs) in pairs {
        assert_eq!(ours, theirs.0);
    }
    assert_eq!(R_MIPS_PC32, 248);
}

fn field(r_type: u32, width: usize, s: u64, a: i64, p: u64, got: Option<u64>, arch: Architecture) -> u64 {
    let le = Endian::Little;
    let mut buf = [0u8; 8];
    apply(arch, le, r_type, &mut buf, 0, s, a, p, got, false, None).unwrap();
    le.read_uint(&buf, 0, width)
}

#[test]
fn x86_64_fields() {
    let x = Architecture::X86_64;
    assert_eq!(field(R_X86_64_64, 8, 0x1234, -4, 0, None, x), 0x1230);
    assert_eq!(field(R_X86_64_PC64, 8, 0x1000, 0, 0x2000, None, x), 0xffff_ffff_ffff_f000);
    assert_eq!(field(R_X86_64_PC32, 4, 0x403000, -4, 0x401001, None, x), 0x1ffb);
    assert_eq!(field(R_X86_64_PLT32, 4, 0x1000, -4, 0x2000, None, x), 0xffff_effc);
    assert_eq!(field(R_X86_64_32, 4, 0x1_2345_6789, 0, 0, None, x), 0x2345_6789);
    assert_eq!(field(R_X86_64_32S, 4, 0xffff_ffff_8000_0000, 0, 0, None, x), 0x8000_0000);
    assert_eq!(field(R_X86_64_GOTPCREL, 4, 0, -4, 0x1000, Some(0x3000), x), 0x1ffc);
    assert_eq!(field(R_X86_64_GOTPCRELX, 4, 0, 0, 0x1000, Some(0x3000), Architecture::X86), 0x2000);
    assert_eq!(field(R_X86_64_REX_GOTPCRELX, 4, 0, 0, 0x3000, Some(0x1000), x), 0xffff_e000);
}

#[test]
fn aarch64_more_fields() {
    let a = Architecture::Arm64;
    assert_eq!(field(R_AARCH64_ABS32, 4, 0x1_0000_0010, 1, 0, None, a), 0x11);
    assert_eq!(field(R_AARCH64_PREL64, 8, 0x10, 0, 0x20, None, a), 0xffff_ffff_ffff_fff0);
    assert_eq!(field(R_AARCH64_PREL32, 4, 0x10, 0, 0x20, None, a), 0xffff_fff0);
    let le = Endian::Little;
    // Scaled offsets: 0x5678 & 0xfff == 0x678, divided by the access size.
    let cases = [
        (R_AARCH64_LDST8_ABS_LO12_NC, 0x678u32),
        (R_AARCH64_LDST16_ABS_LO12_NC, 0x33c),
        (R_AARCH64_LDST32_ABS_LO12_NC, 0x19e),
        (R_AARCH64_LDST64_ABS_LO12_NC, 0xcf),
        (R_AARCH64_LDST128_ABS_LO12_NC, 0x67),
    ];
    for (r_type, imm) in cases {
        assert_eq!(insn(a, le, r_type, 0x3900_0000, 0x5678, 0, 0, None, false, None), 0x3900_0000 | imm << 10);
    }
    // A backward jump keeps its opcode.
    assert_eq!(
        insn(a, le, R_AARCH64_JUMP26, 0x1400_0000, 0x1000, 0, 0x2000, None, false, None),
        0x17ff_fc00
    );
}

#[test]
fn arm_more_fields() {
    let a = Architecture::Arm;
    let le = Endian::Little;
    assert_eq!(insn(a, le, R_ARM_ABS32, 0xffff_fffc, 0x1000, 0, 0, None, true, None), 0xffc);
    assert_eq!(insn(a, le, R_ARM_REL32, 0, 0x1000, 0, 0x1010, None, true, None), 0xffff_fff0);
    assert_eq!(insn(a, le, R_ARM_GOT_PREL, 4, 0, 0, 0x1000, Some(0x2000), true, None), 0x1004);
    // The usual stored addend of minus eight makes the branch land on the symbol.
    assert_eq!(insn(a, le, R_ARM_JUMP24, 0xeaff_fffe, 0x2000, 0, 0x1000, None, true, None), 0xea00_03fe);
    assert_eq!(insn(a, le, R_ARM_PC24, 0xea00_0000, 0x1000, 0, 0x2000, None, true, None), 0xeaff_fc00);
    // MOVW and MOVT together load the address.
    let low = insn(a, le, R_ARM_MOVW_ABS_NC, 0xe300_0000, 0x89ab_cdef, 0, 0, None, true, None);
    let high = insn(a, le, R_ARM_MOVT_ABS, 0xe340_0000, 0x89ab_cdef, 0, 0, None, true, None);
    let imm = |i: u32| (i >> 4 & 0xf000) | (i & 0xfff);
    assert_eq!(imm(high) << 16 | imm(low), 0x89ab_cdef);
}

#[test]
fn mips_more_fields() {
    let m = Architecture::Mips;
    let be = Endian::Big;
    assert_eq!(insn(m, be, R_MIPS_32, 0x10, 0x1000, 0, 0, None, true, None), 0x1010);
    assert_eq!(insn(m, be, R_MIPS_32, 0x10, 0x1000, 4, 0, None, false, None), 0x1004);
    assert_eq!(insn(m, be, R_MIPS_PC32, 8, 0x1000, 0, 0x800, None, true, None), 0x808);
    // Explicit addends.
    assert_eq!(insn(m, be, R_MIPS_HI16, 0x3c01_0000, 0x8000, 1, 0, None, false, None), 0x3c01_0002);
    assert_eq!(insn(m, be, R_MIPS_LO16, 0x8c22_1234, 0x10, 0x20, 0, None, false, None), 0x8c22_0030);
    // The pair reconstructs symbol plus addend: 0x12344 + 0x3ffff000 with a negative low half.
    let alo = -4096i64;
    let high = insn(m, be, R_MIPS_HI16, 0x3c01_4000, 0x1_2344, 0, 0, None, true, Some(alo));
    let low = insn(m, be, R_MIPS_LO16, 0x8c22_f000, 0x1_2344, 0, 0, None, true, None);
    let sum = ((high & 0xffff) << 16).wrapping_add((low & 0xffff) as u16 as i16 as i32 as u32);
    assert_eq!(sum, 0x4000_0000u32.wrapping_sub(4096).wrapping_add(0x1_2344));
    // The doubleword takes its stored addend.
    let mut buf = [0u8; 8];
    be.write_uint(&mut buf, 0, 8, 0x10);
    apply(Architecture::Mips64, be, R_MIPS_64, &mut buf, 0, 0x2000, 0, 0, None, true, None).unwrap();
    assert_eq!(be.read_uint(&buf, 0, 8), 0x2010);
}

#[test]
fn relocations_that_cannot_be_applied() {
    let le = Endian::Little;
    let mut buf = [0u8; 4];
    let run = |arch, r_type, buf: &mut [u8], off, s, p| {
        apply(arch, le, r_type, buf, off, s, 0, p, None, false, None).unwrap_err()
    };
    let e = run(Architecture::X86_64, 0xffff, &mut buf, 0, 0, 0);
    assert_eq!(e, RelocError::Unsupported { family: Family::X86_64, r_type: 0xffff });
    assert_eq!(e.message(), "unsupported x86-64 relocation type 65535");
    let e = run(Architecture::Arm64, 1, &mut buf, 0, 0, 0);
    assert_eq!(e.message(), "unsupported aarch64 relocation type 1");
    let e = run(Architecture::Arm, 200, &mut buf, 0, 0, 0);
    assert_eq!(e.message(), "unsupported arm relocation type 200");
    let e = run(Architecture::X86_64, R_X86_64_GOTPCREL, &mut buf, 0, 0, 0);
    assert_eq!(e, RelocError::MissingSlot { slot: SlotUse::GotPcRel });
    assert_eq!(e.message(), "missing GOT slot for GOTPCREL");
    let e = run(Architecture::Arm64, R_AARCH64_ADR_GOT_PAGE, &mut buf, 0, 0, 0);
    assert_eq!(e.message(), "missing GOT slot for ADR_GOT_PAGE");
    let e = run(Architecture::Arm64, R_AARCH64_LD64_GOT_LO12_NC, &mut buf, 0, 0, 0);
    assert_eq!(e.message(), "missing GOT slot for LD64_GOT_LO12");
    let e = run(Architecture::Arm, R_ARM_GOT_PREL, &mut buf, 0, 0, 0);
    assert_eq!(e.message(), "missing GOT slot for R_ARM_GOT_PREL");
    // 128 MiB is just out of reach of a BL, and a misaligned target always is.
    let e = run(Architecture::Arm64, R_AARCH64_CALL26, &mut buf, 0, 0x800_0000, 0);
    assert_eq!(e, RelocError::BranchRange { family: Family::Aarch64, target: 0x800_0000 });
    assert_eq!(e.message(), "aarch64 branch target 0x8000000 out of range");
    let e = run(Architecture::Arm64, R_AARCH64_CALL26, &mut buf, 0, 0, 2);
    assert_eq!(e.message(), "aarch64 branch target 0xfffffffffffffffe out of range");
    let e = run(Architecture::Arm, R_ARM_CALL, &mut buf, 0, 0x200_0000, 0);
    assert_eq!(e.message(), "arm branch target 0x2000000 out of range");
    let e = run(Architecture::Arm64, R_AARCH64_ADR_PREL_PG_HI21, &mut buf, 0, 0x1_0000_0000, 0);
    assert_eq!(e, RelocError::PageRange { displacement: 0x1_0000_0000 });
    assert_eq!(e.message(), "aarch64 ADRP displacement 0x100000000 out of range");
    // Fields outside the buffer, of every family.
    for (arch, r_type) in [
        (Architecture::X86_64, R_X86_64_64),
        (Architecture::Arm64, R_AARCH64_ABS64),
        (Architecture::Arm, R_ARM_ABS32),
        (Architecture::Mips, R_MIPS_64),
    ] {
        let e = run(arch, r_type, &mut buf, 2, 0, 0);
        assert_eq!(e, RelocError::OutsideSection);
    }
    // Nothing was written by any of them.
    assert_eq!(buf, [0; 4]);
    assert_eq!(RelocError::OutsideSection.message(), "relocated field lies outside its section");
}

#[test]
fn adrp_refuses_what_is_no_page_distance() {
    let mut buf = [0u8; 4];
    assert_eq!(
        adrp(Endian::Little, &mut buf, 0, 0x123),
        Err(RelocError::PageRange { displacement: 0x123 })
    );
    adrp(Endian::Little, &mut buf, 0, -0x1000).unwrap();
    assert_eq!(Endian::Little.read_uint(&buf, 0, 4), 0x60ff_ffe0);
}

#[test]
fn relocations_touch_their_field_only() {
    let mut buf = [0xaau8; 12];
    apply(
        Architecture::X86_64,
        Endian::Little,
        R_X86_64_PC32,
        &mut buf,
        4,
        0x2000,
        -4,
        0x1000,
        None,
        false,
        None,
    )
    .unwrap();
    assert_eq!(buf, [0xaa, 0xaa, 0xaa, 0xaa, 0xfc, 0x0f, 0, 0, 0xaa, 0xaa, 0xaa, 0xaa]);
}

#[test]
fn relocated_references_lead_to_their_targets() {
    let le = Endian::Little;
    let x = Architecture::X86_64;
    let lead = |disp: u64, p: u64| p.wrapping_add(disp as u32 as i32 as u64);
    for r_type in [R_X86_64_PC32, R_X86_64_PLT32] {
        let disp = field(r_type, 4, 0x1000, -4, 0x7000_0000, None, x);
        assert_eq!(lead(disp, 0x7000_0000), 0xffc);
    }
    for r_type in [R_X86_64_GOTPCREL, R_X86_64_GOTPCRELX, R_X86_64_REX_GOTPCRELX] {
        let disp = field(r_type, 4, 0, -4, 0x5000, Some(0x3000), x);
        assert_eq!(lead(disp, 0x5000), 0x2ffc);
    }
    let a64 = Architecture::Arm64;
    let target = |i: u32, p: u64| p.wrapping_add(((i << 6) as i32 >> 4) as u64);
    for (r_type, opcode) in [(R_AARCH64_CALL26, 0x9400_0000u32), (R_AARCH64_JUMP26, 0x1400_0000)] {
        let i = insn(a64, le, r_type, opcode, 0x1000, 8, 0x10_0000, None, false, None);
        assert_eq!(i >> 26, opcode >> 26);
        assert_eq!(target(i, 0x10_0000), 0x1008);
    }
    let arm = Architecture::Arm;
    let target = |i: u32, p: u64| p.wrapping_add(8).wrapping_add(((i << 8) as i32 >> 6) as u64);
    for r_type in [R_ARM_CALL, R_ARM_JUMP24, R_ARM_PC24] {
        let i = insn(arm, le, r_type, 0xebff_fffe, 0x1000, 0, 0x10_0000, None, true, None);
        assert_eq!(i >> 24, 0xeb);
        assert_eq!(target(i, 0x10_0000), 0x1000);
    }
    // An ADRP and what adds the low bits, with the other bits of both kept.
    let page = |i: u32, p: u64| {
        let pages = (i >> 5 & 0x7_ffff) << 2 | i >> 29 & 3;
        (p & !0xfff).wrapping_add((((pages << 11) as i32 >> 11) as i64 as u64) << 12)
    };
    let (s, p) = (0x1234_5670u64, 0x40_0abcu64);
    let high =
        insn(a64, le, R_AARCH64_ADR_PREL_PG_HI21, 0x9000_0003, s, 0, p, None, false, None);
    assert_eq!(high & !0x60ff_ffe0, 0x9000_0003);
    let lows = [
        (R_AARCH64_ADD_ABS_LO12_NC, 1u64),
        (R_AARCH64_LDST8_ABS_LO12_NC, 1),
        (R_AARCH64_LDST16_ABS_LO12_NC, 2),
        (R_AARCH64_LDST32_ABS_LO12_NC, 4),
        (R_AARCH64_LDST64_ABS_LO12_NC, 8),
        (R_AARCH64_LDST128_ABS_LO12_NC, 16),
    ];
    for (r_type, unit) in lows {
        let low = insn(a64, le, r_type, 0x9100_0063, s, 0, p + 4, None, false, None);
        assert_eq!(low & !0x003f_fc00, 0x9100_0063);
        assert_eq!(page(high, p) + unit * (low >> 10 & 0xfff) as u64, s);
    }
    let g = Some(0x20_1238);
    let high = insn(a64, le, R_AARCH64_ADR_GOT_PAGE, 0x9000_0003, 0, 0, p, g, false, None);
    let low = insn(a64, le, R_AARCH64_LD64_GOT_LO12_NC, 0xf940_0063, 0, 0, p, g, false, None);
    assert_eq!(page(high, p) + 8 * (low >> 10 & 0xfff) as u64, 0x20_1238);
}

#[test]
fn facts_about_architectures() {
    assert_eq!(got_slot_width(true), 8);
    assert_eq!(got_slot_width(false), 4);
    assert!(needs_got(Architecture::X86, R_X86_64_GOTPCREL));
    assert!(!needs_got(Architecture::X86_64, R_X86_64_PC32));
    assert!(needs_got(Architecture::Arm64, R_AARCH64_LD64_GOT_LO12_NC));
    assert!(needs_got(Architecture::Arm, R_ARM_GOT_PREL));
    assert!(is_mips_hi16(Architecture::Mips, R_MIPS_HI16));
    assert!(!is_mips_hi16(Architecture::Arm, R_MIPS_HI16));
    assert!(is_mips_lo16(Architecture::Mips64, R_MIPS_LO16));
    assert!(!is_mips_lo16(Architecture::Mips64, R_MIPS_HI16));
    assert_eq!(mips_lo16_addend(Endian::Big, &[0x8c, 0x22, 0xff, 0xfc], 0), -4);
    assert_eq!(mips_lo16_addend(Endian::Little, &[0, 0x34, 0x12, 0, 0], 1), 0x1234);
    assert!(Architecture::Mips64.is_64());
    assert!(!Architecture::Arm.is_64());
    assert_eq!(describe(Architecture::X86_64, Endian::Little, true), "x86-64 (LE, 64-bit)");
    assert_eq!(describe(Architecture::Mips, Endian::Big, false), "mips (BE, 32-bit)");
}

#[test]
fn integers_in_buffers() {
    let mut b = [0u8; 6];
    Endian::Little.write_uint(&mut b, 1, 2, 0x1_abcd);
    assert_eq!(b, [0, 0xcd, 0xab, 0, 0, 0]);
    // A write at one place leaves a field elsewhere alone.
    Endian::Big.write_uint(&mut b, 3, 2, 0x1234);
    assert_eq!(Endian::Little.read_uint(&b, 1, 2), 0xabcd);
    assert_eq!(Endian::Big.read_uint(&b, 3, 2), 0x1234);
    assert_eq!(Endian::Big.read_uint(&b, 0, 1), 0);
}
