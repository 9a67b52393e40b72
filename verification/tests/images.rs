use goblin::elf::header as elf_header;
use goblin::mach::cputype;
use goblin::pe::header as pe_header;
use resplice::arch::Architecture;
use resplice::binary::{base_above, Binary};
use resplice::bytes::Endian;
use resplice::error::{Fault, Machine};
use resplice::image::{
    detect, identify, max_vaddr, read_segments, translate, BinaryFormat, ImageOf, Segment,
};
use resplice::jump::{generate_jump_instruction, get_nop_instruction};
use resplice::macho::entry_is_outside;

fn segment(p_type: u32, p_offset: u64, p_vaddr: u64, p_filesz: u64, p_memsz: u64) -> Segment {
    Segment { p_type, p_offset, p_vaddr, p_filesz, p_memsz }
}

fn machine(arch: Architecture, endian: Endian, is_64: bool) -> Machine {
    Machine { arch, endian, is_64 }
}

#[test]
fn machines_of_elf_images() {
    let elf = |e_machine: u16, is_64: bool, little_endian: bool| {
        identify(&ImageOf::Elf { machine: e_machine, is_64, little_endian, segments: vec![] })
    };
    let cases = [
        (elf_header::EM_386, false, Architecture::X86),
        (elf_header::EM_X86_64, true, Architecture::X86_64),
        (elf_header::EM_ARM, false, Architecture::Arm),
        (elf_header::EM_AARCH64, true, Architecture::Arm64),
        (elf_header::EM_MIPS, false, Architecture::Mips),
        (elf_header::EM_MIPS, true, Architecture::Mips64),
    ];
    for (e_machine, is_64, arch) in cases {
        for (little, endian) in [(true, Endian::Little), (false, Endian::Big)] {
            let expected = (BinaryFormat::Elf, machine(arch, endian, is_64));
            assert_eq!(elf(e_machine, is_64, little), Some(expected));
        }
    }
    // The class is that of the file, whatever the architecture.
    let expected = (BinaryFormat::Elf, machine(Architecture::X86_64, Endian::Little, false));
    assert_eq!(elf(elf_header::EM_X86_64, false, true), Some(expected));
    assert_eq!(elf(elf_header::EM_RISCV, true, true), None);
}

#[test]
fn machines_of_other_images() {
    let le = |format, arch, is_64| Some((format, machine(arch, Endian::Little, is_64)));
    let pe = |machine: u16| identify(&ImageOf::Pe { machine });
    let f = BinaryFormat::Pe;
    assert_eq!(pe(pe_header::COFF_MACHINE_X86), le(f, Architecture::X86, false));
    assert_eq!(pe(pe_header::COFF_MACHINE_X86_64), le(f, Architecture::X86_64, true));
    assert_eq!(pe(pe_header::COFF_MACHINE_ARM), le(f, Architecture::Arm, false));
    assert_eq!(pe(pe_header::COFF_MACHINE_ARM64), le(f, Architecture::Arm64, true));
    assert_eq!(pe(pe_header::COFF_MACHINE_RISCV64), None);
    let mach = |cputype: u32| identify(&ImageOf::Mach { cputype });
    let f = BinaryFormat::MachO;
    assert_eq!(mach(cputype::CPU_TYPE_X86), le(f, Architecture::X86, false));
    assert_eq!(mach(cputype::CPU_TYPE_X86_64), le(f, Architecture::X86_64, true));
    assert_eq!(mach(cputype::CPU_TYPE_ARM), le(f, Architecture::Arm, false));
    assert_eq!(mach(cputype::CPU_TYPE_ARM64), le(f, Architecture::Arm64, true));
    assert_eq!(mach(cputype::CPU_TYPE_POWERPC), None);
    assert_eq!(identify(&ImageOf::MachFat), le(f, Architecture::X86_64, true));
    assert_eq!(identify(&ImageOf::Other), None);
}

/// A Mach-O header without load commands.
fn macho(magic: u32, cpu: u32) -> Vec<u8> {
    let mut d = vec![0u8; 32];
    d[..4].copy_from_slice(&magic.to_le_bytes());
    d[4..8].copy_from_slice(&cpu.to_le_bytes());
    d[12] = 2;
    d
}

/// A Mach-O image with a text segment and an entry point; `wide` selects the 64-bit class.
fn with_entry(e: Endian, wide: bool, vmaddr: u64, fileoff: u64, entryoff: u64) -> Vec<u8> {
    let mut d = vec![0u8; 256];
    e.write_uint(&mut d, 0, 4, if wide { 0xfeed_facf } else { 0xfeed_face });
    e.write_uint(&mut d, 4, 4, cputype::CPU_TYPE_ARM64 as u64);
    e.write_uint(&mut d, 12, 4, 2);
    e.write_uint(&mut d, 16, 4, 2);
    let (at, size, cmd, word) = if wide { (32, 72, 0x19, 8) } else { (28, 56, 1, 4) };
    e.write_uint(&mut d, 20, 4, size as u64 + 24);
    e.write_uint(&mut d, at, 4, cmd);
    e.write_uint(&mut d, at + 4, 4, size as u64);
    d[at + 8..at + 14].copy_from_slice(b"__TEXT");
    e.write_uint(&mut d, at + 24, word, vmaddr);
    e.write_uint(&mut d, at + 24 + 2 * word, word, fileoff);
    e.write_uint(&mut d, at + size, 4, 0x8000_0028);
    e.write_uint(&mut d, at + size + 4, 4, 24);
    e.write_uint(&mut d, at + size + 8, 8, entryoff);
    d
}

#[test]
fn entry_points_outside_the_address_space_are_refused() {
    for e in [Endian::Little, Endian::Big] {
        for wide in [true, false] {
            assert!(detect(&with_entry(e, wide, 0x1000, 0, 0x10)).is_ok());
            assert!(detect(&with_entry(e, wide, 1, 1, u64::MAX)).is_ok());
            for (vmaddr, fileoff, entryoff) in [(0, 1, 0), (0x1000, 0, u64::MAX - 0xfff)] {
                let image = with_entry(e, wide, vmaddr, fileoff, entryoff);
                assert!(entry_is_outside(&image));
                let err = detect(&image).unwrap_err();
                assert!(matches!(err, Fault::Image { .. }));
                assert!(err.message().contains("entry point outside the address space"));
            }
        }
    }
    // The first of each kind counts.
    let e = Endian::Little;
    let mut twice = with_entry(e, true, 0x1000, 0, 0x10);
    let commands = with_entry(e, true, 0, 1, 0);
    twice[128..224].copy_from_slice(&commands[32..128]);
    e.write_uint(&mut twice, 16, 4, 4);
    e.write_uint(&mut twice, 20, 4, 192);
    assert!(!entry_is_outside(&twice));
    assert!(detect(&twice).is_ok());
    // Another segment's name, a command that runs past the end, and too many commands.
    let mut other = with_entry(e, true, 0, 1, 0);
    other[46] = b'X';
    assert!(!entry_is_outside(&other));
    assert!(matches!(detect(&other), Err(Fault::Image { .. })));
    let mut long = with_entry(e, true, 0, 1, 0);
    e.write_uint(&mut long, 108, 4, 0x1000);
    assert!(!entry_is_outside(&long));
    let mut many = with_entry(e, true, 0, 1, 0);
    e.write_uint(&mut many, 20, 4, 8);
    assert!(!entry_is_outside(&many));
    assert!(matches!(detect(&many), Err(Fault::Image { .. })));
}

/// A universal binary with one architecture.
fn universal() -> Vec<u8> {
    let mut d = vec![0u8; 4096];
    d[..4].copy_from_slice(&0xcafe_babeu32.to_be_bytes());
    d[4..8].copy_from_slice(&1u32.to_be_bytes());
    d[8..12].copy_from_slice(&cputype::CPU_TYPE_ARM64.to_be_bytes());
    d[16..20].copy_from_slice(&1024u32.to_be_bytes());
    d[20..24].copy_from_slice(&32u32.to_be_bytes());
    d[1024..1056].copy_from_slice(&macho(0xfeed_facf, cputype::CPU_TYPE_ARM64));
    d
}

#[test]
fn images_are_detected_from_their_bytes() {
    let (format, m) = detect(&macho(0xfeed_facf, cputype::CPU_TYPE_ARM64)).unwrap();
    assert_eq!(format, BinaryFormat::MachO);
    assert_eq!(m, machine(Architecture::Arm64, Endian::Little, true));
    let (format, m) = detect(&universal()).unwrap();
    assert_eq!(format, BinaryFormat::MachO);
    assert_eq!(m, machine(Architecture::X86_64, Endian::Little, true));
    let bin = Binary::load(macho(0xfeed_face, cputype::CPU_TYPE_ARM)).unwrap();
    assert_eq!(bin.architecture(), Architecture::Arm);
    assert!(!bin.is_64());
    assert_eq!(bin.endian(), Endian::Little);
    // An archive is no image that can be patched.
    let member = b"a/              0           0     0     644     2         `\nxy";
    let archive = [&b"!<arch>\n"[..], member].concat();
    let e = Binary::load(archive).err().unwrap();
    assert_eq!(e.message(), "Unsupported binary format");
    let unsupported = detect(&macho(0xfeed_facf, cputype::CPU_TYPE_POWERPC64));
    assert!(matches!(unsupported, Err(Fault::UnsupportedFormat)));
    assert!(matches!(Binary::detect_format(&universal()), Ok(BinaryFormat::MachO)));
    // Cut off inside the header.
    assert!(matches!(detect(&[0x7f, b'E', b'L', b'F', 2, 1, 1, 0]), Err(Fault::Image { .. })));
}

const VA: u64 = 0x400000;

/// A big-endian 32-bit MIPS executable with one `PT_LOAD` of 0x80 bytes in the file and 0x200
/// in memory.
fn mips_elf() -> Vec<u8> {
    let e = Endian::Big;
    let mut d = vec![0u8; 0x100];
    d[..7].copy_from_slice(&[0x7f, b'E', b'L', b'F', 1, 2, 1]);
    e.write_uint(&mut d, 0x10, 2, 2);
    e.write_uint(&mut d, 0x12, 2, 8);
    e.write_uint(&mut d, 0x14, 4, 1);
    e.write_uint(&mut d, 0x1c, 4, 0x34);
    e.write_uint(&mut d, 0x28, 2, 0x34);
    e.write_uint(&mut d, 0x2a, 2, 32);
    e.write_uint(&mut d, 0x2c, 2, 1);
    for (at, value) in [(0, 1), (4, 0x80), (8, VA), (12, VA), (16, 0x80), (20, 0x200), (24, 5)] {
        e.write_uint(&mut d, 0x34 + at, 4, value);
    }
    d
}

#[test]
fn segments_come_from_the_program_headers() {
    let segments = read_segments(&mips_elf()).unwrap();
    assert_eq!(segments, [segment(1, 0x80, VA, 0x80, 0x200)]);
    let bin = Binary::load(mips_elf()).unwrap();
    assert_eq!(bin.architecture(), Architecture::Mips);
    assert_eq!(bin.endian(), Endian::Big);
    assert_eq!(bin.va_to_offset(VA + 0x7f).unwrap(), 0xff);
    assert!(matches!(bin.va_to_offset(VA + 0x80), Err(Fault::Unmapped { .. })));
    assert_eq!(bin.injected_base().unwrap(), VA + 0x2000);
    assert!(matches!(read_segments(&universal()), Err(Fault::NotElf)));
    assert!(matches!(read_segments(b"??"), Err(Fault::Image { .. })));
}

#[test]
fn addresses_are_translated_by_the_first_segment_that_maps_them() {
    let list = [
        segment(4, 0x900, 0x1000, 0x1000, 0x1000),
        segment(1, 0x100, 0x1000, 0x200, 0x400),
        segment(1, 0x700, 0x1100, 0x200, 0x200),
    ];
    assert_eq!(translate(&list, 0x1000).unwrap(), 0x100);
    assert_eq!(translate(&list, 0x11ff).unwrap(), 0x2ff);
    assert_eq!(translate(&list, 0x1200).unwrap(), 0x800);
    let e = translate(&list, 0x1300).unwrap_err();
    assert_eq!(e.message(), "virtual address 0x1300 is not mapped by any PT_LOAD segment");
    assert!(translate(&[], 0).is_err());
    assert!(matches!(
        translate(&[segment(1, u64::MAX, 0, 16, 16)], 1),
        Err(Fault::AddressOverflow)
    ));
}

#[test]
fn the_segment_goes_one_page_above_the_image() {
    assert_eq!(max_vaddr(&[]), Some(0));
    assert_eq!(base_above(&[]), Some(0x1000));
    let list = [segment(1, 0, 0x1000, 0, 0x10), segment(4, 0, 0x9000, 0, 1), segment(1, 0, 0x800, 0, 0x900)];
    assert_eq!(max_vaddr(&list), Some(0x1100));
    assert_eq!(base_above(&list), Some(0x3000));
    assert_eq!(base_above(&[segment(1, 0, 0x1000, 0, 0x1000)]), Some(0x3000));
    assert_eq!(max_vaddr(&[segment(1, 0, u64::MAX, 0, 1)]), None);
    assert_eq!(base_above(&[segment(1, 0, u64::MAX - 0x1fff, 0, 0x1000)]), None);
    assert_eq!(
        base_above(&[segment(1, 0, u64::MAX - 0x2fff, 0, 0x1000)]),
        Some(u64::MAX - 0xfff)
    );
}

/// A 64-bit ELF image that imports `puts` and `exit` through its PLT at 0x401000.
fn importing() -> Vec<u8> {
    let e = Endian::Little;
    let mut d = vec![0u8; 0x800];
    d[..7].copy_from_slice(&[0x7f, b'E', b'L', b'F', 2, 1, 1]);
    let w = |d: &mut Vec<u8>, at: usize, width: usize, v: u64| e.write_uint(d, at, width, v);
    w(&mut d, 0x10, 2, 3);
    w(&mut d, 0x12, 2, 0x3e);
    w(&mut d, 0x14, 4, 1);
    w(&mut d, 0x20, 8, 0x40);
    w(&mut d, 0x28, 8, 0x600);
    w(&mut d, 0x34, 2, 64);
    w(&mut d, 0x36, 2, 56);
    w(&mut d, 0x38, 2, 2);
    w(&mut d, 0x3a, 2, 64);
    w(&mut d, 0x3c, 2, 3);
    w(&mut d, 0x3e, 2, 2);
    let load = [(1u64, 0u64, 0u64, 0x800u64), (2, 0x200, 0x200, 0x90)];
    for (i, (p_type, off, vaddr, size)) in load.into_iter().enumerate() {
        let at = 0x40 + i * 56;
        w(&mut d, at, 4, p_type);
        w(&mut d, at + 4, 4, 5);
        w(&mut d, at + 8, 8, off);
        w(&mut d, at + 16, 8, vaddr);
        w(&mut d, at + 24, 8, vaddr);
        w(&mut d, at + 32, 8, size);
        w(&mut d, at + 40, 8, size);
        w(&mut d, at + 48, 8, 8);
    }
    // The dynamic array: string table, symbol table, PLT relocations.
    let dynamic = [(5, 0x300), (10, 0x20), (6, 0x340), (11, 24), (23, 0x400), (2, 48), (20, 7)];
    for (i, (tag, value)) in dynamic.into_iter().enumerate() {
        w(&mut d, 0x200 + 16 * i, 8, tag);
        w(&mut d, 0x208 + 16 * i, 8, value);
    }
    d[0x300..0x313].copy_from_slice(b"\0puts\0exit\0defined\0");
    // Symbols 1 (puts) and 2 (exit) are undefined, symbol 3 is defined at 0x1234.
    for (i, (name, section, value)) in [(1, 0, 0), (6, 0, 0), (11, 1, 0x1234)].into_iter().enumerate() {
        let at = 0x340 + 24 * (i + 1);
        w(&mut d, at, 4, name);
        w(&mut d, at + 4, 1, 0x12);
        w(&mut d, at + 6, 2, section);
        w(&mut d, at + 8, 8, value);
    }
    // The second PLT entry is for `puts`; the third one is for the symbol defined here.
    for (i, symbol) in [2u64, 1, 3].into_iter().enumerate() {
        w(&mut d, 0x400 + 24 * i, 8, 0x700);
        w(&mut d, 0x408 + 24 * i, 8, (symbol << 32) | 7);
    }
    w(&mut d, 0x200 + 16 * 5 + 8, 8, 72);
    // Section headers: null, `.plt`, `.shstrtab`.
    d[0x500..0x511].copy_from_slice(b"\0.plt\0.shstrtab\0\0");
    let sections = [(0u64, 0u64, 0u64, 0u64, 0u64), (1, 1, 0x401000, 0, 0), (6, 3, 0, 0x500, 0x10)];
    for (i, (name, sh_type, addr, off, size)) in sections.into_iter().enumerate() {
        let at = 0x600 + 64 * i;
        w(&mut d, at, 4, name);
        w(&mut d, at + 4, 4, sh_type);
        w(&mut d, at + 16, 8, addr);
        w(&mut d, at + 24, 8, off);
        w(&mut d, at + 32, 8, size);
    }
    d
}

#[test]
fn imports_resolve_to_their_stubs() {
    let bin = Binary::load(importing()).unwrap();
    assert_eq!(bin.resolve_target_symbol("exit").unwrap(), Some(0x401000 + 16));
    assert_eq!(bin.resolve_target_symbol("puts").unwrap(), Some(0x401000 + 32));
    assert_eq!(bin.resolve_target_symbol("defined").unwrap(), Some(0x1234));
    assert_eq!(bin.resolve_target_symbol("nothing").unwrap(), None);
}

#[test]
fn jumps_of_every_architecture() {
    let jump = |arch, endian, from, to| {
        generate_jump_instruction(machine(arch, endian, false), from, to)
            .map(|code| code.to_vec())
            .map_err(|e| e.message())
    };
    let (le, be) = (Endian::Little, Endian::Big);
    assert_eq!(
        jump(Architecture::X86, be, 0x1000, 0x1005).unwrap(),
        [0xe9, 0, 0, 0, 0]
    );
    assert_eq!(jump(Architecture::X86_64, le, 0x1005, 0x1000).unwrap(), [0xe9, 0xf6, 0xff, 0xff, 0xff]);
    assert_eq!(jump(Architecture::Arm, le, 0x1000, 0x1008).unwrap(), 0xea00_0000u32.to_le_bytes());
    assert_eq!(jump(Architecture::Arm, be, 0x1008, 0x1000).unwrap(), 0xeaff_fffcu32.to_be_bytes());
    assert_eq!(jump(Architecture::Arm64, le, 0x1000, 0x1010).unwrap(), 0x1400_0004u32.to_le_bytes());
    assert_eq!(jump(Architecture::Arm64, le, 0x1010, 0x1000).unwrap(), 0x17ff_fffcu32.to_le_bytes());
    assert_eq!(jump(Architecture::Mips, be, 0, 0x0040_0010).unwrap(), 0x0810_0004u32.to_be_bytes());
    assert_eq!(jump(Architecture::Mips64, le, 0, 0x0040_0010).unwrap(), 0x0810_0004u32.to_le_bytes());
    let bin = Binary::new(vec![], BinaryFormat::Elf, Architecture::Arm64, true, le);
    assert_eq!(bin.jump_bytes(0x1000, 0x1010).unwrap(), 0x1400_0004u32.to_le_bytes());
    assert!(matches!(
        bin.jump_bytes(0, 0x1000_0000),
        Err(Fault::InvalidRange { begin: 0, end: 0x1000_0000 })
    ));
    // The furthest branches, and the ones just beyond.
    assert!(jump(Architecture::Arm, le, 0, 8 + 4 * 0x7f_ffff).is_ok());
    assert_eq!(
        jump(Architecture::Arm, le, 0, 8 + 4 * 0x80_0000).unwrap_err(),
        "Invalid address range: 0x0 to 0x2000008"
    );
    assert!(jump(Architecture::Arm, le, 4 * 0x80_0000, 8).is_ok());
    assert!(jump(Architecture::Arm, le, 4 * 0x80_0000 + 4, 8).is_err());
    assert!(jump(Architecture::Arm64, le, 0, 4 * 0x1ff_ffff).is_ok());
    assert!(jump(Architecture::Arm64, le, 0, 4 * 0x200_0000).is_err());
    assert!(jump(Architecture::Arm64, le, 4 * 0x200_0000, 0).is_ok());
    assert!(jump(Architecture::Arm64, le, 4 * 0x200_0000 + 4, 0).is_err());
}

#[test]
fn jumps_that_cannot_land_are_refused() {
    let le = Endian::Little;
    // The count of instructions is a multiple of 2^32.
    let bin = Binary::new(vec![], BinaryFormat::Elf, Architecture::Arm64, true, le);
    assert!(matches!(
        bin.jump_bytes(0, 0x4_0000_0000),
        Err(Fault::InvalidRange { begin: 0, end: 0x4_0000_0000 })
    ));
    let jump = |arch, from, to| generate_jump_instruction(machine(arch, le, false), from, to);
    // No whole number of instructions.
    assert!(jump(Architecture::Arm64, 0, 0x1002).is_err());
    assert!(jump(Architecture::Arm, 0, 0x100a).is_err());
    assert!(jump(Architecture::Mips, 0, 0x1001).is_err());
    // Two gigabytes in either direction.
    assert!(jump(Architecture::X86_64, 0, 5 + 0x7fff_ffff).is_ok());
    assert!(jump(Architecture::X86_64, 0, 5 + 0x8000_0000).is_err());
    assert!(jump(Architecture::X86_64, 0x8000_0000, 5).is_ok());
    assert!(jump(Architecture::X86_64, 0x8000_0001, 5).is_err());
    // Around the end of the address space.
    assert_eq!(jump(Architecture::X86_64, u64::MAX - 4, 0x10).unwrap(), [0xe9, 0x10, 0, 0, 0]);
    assert_eq!(
        jump(Architecture::Arm64, u64::MAX - 3, 0).unwrap(),
        0x1400_0001u32.to_le_bytes()
    );
    // A 32-bit address space is all in reach, and nothing else is.
    assert_eq!(
        jump(Architecture::X86, 0, 0xffff_0005).unwrap(),
        [0xe9, 0, 0, 0xff, 0xff]
    );
    assert!(jump(Architecture::X86, 0xffff_0000, 0x1_0000_0000).is_err());
    // The region of the delay slot, not that of the jump.
    assert!(jump(Architecture::Mips, 0, 0x0fff_fffc).is_ok());
    assert!(jump(Architecture::Mips, 0, 0x1000_0000).is_err());
    assert!(jump(Architecture::Mips64, 0x0fff_fffc, 0x1000_0000).is_ok());
    assert!(jump(Architecture::Mips64, 0x0fff_fffc, 0x0fff_0000).is_err());
}

#[test]
fn regions_are_filled_with_the_machine_s_own_nop() {
    let nop = |arch, endian| get_nop_instruction(machine(arch, endian, false));
    assert_eq!(nop(Architecture::X86, Endian::Little), [0x90]);
    assert_eq!(nop(Architecture::Arm, Endian::Little), [0, 0, 0xa0, 0xe1]);
    assert_eq!(nop(Architecture::Arm, Endian::Big), [0xe1, 0xa0, 0, 0]);
    assert_eq!(nop(Architecture::Arm64, Endian::Little), [0x1f, 0x20, 0x03, 0xd5]);
    assert_eq!(nop(Architecture::Mips64, Endian::Big), [0, 0, 0, 0]);
    // The last instruction is cut where the region ends.
    let mut bin =
        Binary::new(vec![0xcc; 12], BinaryFormat::Elf, Architecture::Arm64, true, Endian::Little);
    bin.patch_bytes(1, 8, &[7, 8]).unwrap();
    assert_eq!(
        bin.data(),
        [0xcc, 7, 8, 0x1f, 0x20, 0x03, 0xd5, 0x1f, 0x20, 0xcc, 0xcc, 0xcc]
    );
}

#[test]
fn patches_that_do_not_fit() {
    let bytes = vec![0xcc; 16];
    let mut bin =
        Binary::new(bytes.clone(), BinaryFormat::Elf, Architecture::X86, false, Endian::Little);
    let e = bin.patch_bytes(0, 1, &[1, 2]).unwrap_err();
    assert!(matches!(e, Fault::TooLarge { code_len: 2, region_len: 1 }));
    let e = bin.patch_bytes(10, 7, &[1]).unwrap_err();
    assert_eq!(e.message(), "patch region 0xa..0x11 is outside the binary");
    assert!(bin.patch_bytes(usize::MAX, 1, &[]).is_err());
    assert!(bin.apply_jump_patch(12, 16, 0).is_err());
    assert!(bin.apply_jump_patch(u64::MAX, 16, 0).is_err());
    assert!(bin.apply_direct_patch(u64::MAX - 1, u64::MAX, &[1]).is_err());
    assert_eq!(bin.data(), &bytes[..]);
    bin.apply_jump_patch(11, 16, 0x10).unwrap();
    assert_eq!(bin.data()[11..], [0xe9, 0, 0, 0, 0]);
}

#[test]
fn injected_bytes_are_mapped_at_the_default_base() {
    // The table of this 32-bit file starts right behind its header of 52 bytes.
    let mut bin = Binary::load(mips_elf()).unwrap();
    let base = bin.injected_base().unwrap();
    assert_eq!(base, 0x402000);
    let blob = [9u8, 8, 7, 6, 5];
    let mapped: Vec<usize> = (0..0x80).map(|i| bin.va_to_offset(VA + i).unwrap()).collect();
    bin.inject_segment(base, &blob).unwrap();
    for (k, byte) in blob.iter().enumerate() {
        let offset = bin.va_to_offset(base + k as u64).unwrap();
        assert_eq!(offset, 0x1000 + k);
        assert_eq!(bin.data()[offset], *byte);
    }
    for (i, offset) in mapped.into_iter().enumerate() {
        assert_eq!(bin.va_to_offset(VA + i as u64).unwrap(), offset);
    }
    assert!(bin.va_to_offset(base + 5).is_err());
}
