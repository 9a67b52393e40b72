use resplice::arch::Architecture;
use resplice::binary::Binary;
use resplice::bytes::Endian;
use resplice::error::Fault;
use resplice::image::BinaryFormat;

/// Write a program header at `po` in the class-appropriate layout.
#[allow(clippy::too_many_arguments)]
fn write_phdr(
    d: &mut [u8],
    po: usize,
    is_64: bool,
    endian: Endian,
    p_type: u64,
    p_off: u64,
    p_vaddr: u64,
    p_filesz: u64,
    p_flags: u64,
) {
    endian.write_uint(d, po, 4, p_type);
    if is_64 {
        endian.write_uint(d, po + 4, 4, p_flags);
        endian.write_uint(d, po + 8, 8, p_off);
        endian.write_uint(d, po + 16, 8, p_vaddr);
        endian.write_uint(d, po + 24, 8, p_vaddr);
        endian.write_uint(d, po + 32, 8, p_filesz);
        endian.write_uint(d, po + 40, 8, p_filesz);
        endian.write_uint(d, po + 48, 8, 0x1000);
    } else {
        endian.write_uint(d, po + 4, 4, p_off);
        endian.write_uint(d, po + 8, 4, p_vaddr);
        endian.write_uint(d, po + 12, 4, p_vaddr);
        endian.write_uint(d, po + 16, 4, p_filesz);
        endian.write_uint(d, po + 20, 4, p_filesz);
        endian.write_uint(d, po + 24, 4, p_flags);
        endian.write_uint(d, po + 28, 4, 0x1000);
    }
}

/// A `Binary` whose bytes carry an ELF header of the given class/endianness
/// plus a PT_LOAD and a PT_NOTE, ready for `inject_segment`.
fn craft_injectable(is_64: bool, endian: Endian, arch: Architecture) -> Binary {
    let mut d = vec![0u8; 0x400];
    d[..4].copy_from_slice(&[0x7f, b'E', b'L', b'F']);
    d[4] = if is_64 { 2 } else { 1 };
    d[5] = match endian {
        Endian::Little => 1,
        Endian::Big => 2,
    };
    d[6] = 1;
    let (phoff_off, phentsize_off, phnum_off, phentsize, phoff) = if is_64 {
        (0x20usize, 0x36, 0x38, 56usize, 0x40u64)
    } else {
        (0x1c, 0x2a, 0x2c, 32, 0x34)
    };
    let word = if is_64 { 8 } else { 4 };
    endian.write_uint(&mut d, phoff_off, word, phoff);
    endian.write_uint(&mut d, phentsize_off, 2, phentsize as u64);
    endian.write_uint(&mut d, phnum_off, 2, 2);
    let po = phoff as usize;
    write_phdr(&mut d, po, is_64, endian, 1, 0, 0x400000, 0x400, 5);
    write_phdr(&mut d, po + phentsize, is_64, endian, 4, 0x100, 0x400100, 0x20, 4);
    Binary::new(d, BinaryFormat::Elf, arch, is_64, endian)
}

#[test]
fn test_inject_segment_all_classes_and_endians() {
    let cases = [
        (true, Endian::Little, Architecture::X86_64),
        (true, Endian::Big, Architecture::Mips64),
        (false, Endian::Little, Architecture::Arm),
        (false, Endian::Big, Architecture::Mips),
    ];
    for (is_64, endian, arch) in cases {
        let mut bin = craft_injectable(is_64, endian, arch);
        let base = 0x600000u64;
        let payload = [0xde, 0xad, 0xbe, 0xef, 0x01, 0x02, 0x03];
        bin.inject_segment(base, &payload).unwrap();

        let (phoff_off, phentsize, phnum_off) = if is_64 {
            (0x20usize, 56usize, 0x38usize)
        } else {
            (0x1c, 32, 0x2c)
        };
        let word = if is_64 { 8 } else { 4 };
        let (voff, ooff, szoff, floff) = if is_64 {
            (16usize, 8usize, 32usize, 4usize)
        } else {
            (8, 4, 16, 24)
        };
        let phoff = endian.read_uint(bin.data(), phoff_off, word) as usize;
        let phnum = endian.read_uint(bin.data(), phnum_off, 2) as usize;

        let mut found = false;
        let mut has_note = false;
        for i in 0..phnum {
            let po = phoff + i * phentsize;
            let ptype = endian.read_uint(bin.data(), po, 4);
            if ptype == 4 {
                has_note = true;
            }
            let pvaddr = endian.read_uint(bin.data(), po + voff, word);
            if ptype == 1 && pvaddr == base {
                found = true;
                let poff = endian.read_uint(bin.data(), po + ooff, word) as usize;
                let filesz = endian.read_uint(bin.data(), po + szoff, word) as usize;
                let flags = endian.read_uint(bin.data(), po + floff, 4);
                assert_eq!(filesz, payload.len(), "{arch:?}");
                assert_eq!(flags, 5, "R|X flags for {arch:?}");
                assert_eq!(&bin.data()[poff..poff + payload.len()], &payload, "{arch:?}");
            }
        }
        assert!(found, "no injected PT_LOAD for {arch:?}");
        assert!(!has_note, "PT_NOTE should be consumed for {arch:?}");
    }
}

/// A `Binary` like `craft_injectable`, but with no PT_NOTE — the shape of an
/// ELF whose linker never emitted one. There is deliberately a large gap between the end of the
/// program-header table and the first PT_LOAD's file offset, mirroring
/// the padding real toolchains leave before the first page-aligned
/// segment.
fn craft_injectable_no_note(is_64: bool, endian: Endian, arch: Architecture) -> Binary {
    let mut d = vec![0u8; 0x2000];
    d[..4].copy_from_slice(&[0x7f, b'E', b'L', b'F']);
    d[4] = if is_64 { 2 } else { 1 };
    d[5] = match endian {
        Endian::Little => 1,
        Endian::Big => 2,
    };
    d[6] = 1;
    let (phoff_off, phentsize_off, phnum_off, phentsize, phoff) = if is_64 {
        (0x20usize, 0x36, 0x38, 56usize, 0x40u64)
    } else {
        (0x1c, 0x2a, 0x2c, 32, 0x34)
    };
    let word = if is_64 { 8 } else { 4 };
    endian.write_uint(&mut d, phoff_off, word, phoff);
    endian.write_uint(&mut d, phentsize_off, 2, phentsize as u64);
    endian.write_uint(&mut d, phnum_off, 2, 2);
    let po = phoff as usize;
    // Two PT_LOADs, first content starting well past the phdr table —
    // plenty of unclaimed padding to grow into.
    write_phdr(&mut d, po, is_64, endian, 1, 0x1000, 0x400000, 0x400, 5);
    write_phdr(&mut d, po + phentsize, is_64, endian, 1, 0x1400, 0x500000, 0x400, 6);
    Binary::new(d, BinaryFormat::Elf, arch, is_64, endian)
}

#[test]
fn test_inject_segment_grows_phdr_table_without_note() {
    // Regression test: targets with no PT_NOTE must still be injectable
    // by growing the program-header table into its own padding, rather
    // than failing outright.
    let cases = [
        (true, Endian::Little, Architecture::X86_64),
        (false, Endian::Big, Architecture::Mips),
    ];
    for (is_64, endian, arch) in cases {
        let mut bin = craft_injectable_no_note(is_64, endian, arch);
        let base = 0x600000u64;
        let payload = [0xde, 0xad, 0xbe, 0xef, 0x01, 0x02, 0x03];
        bin.inject_segment(base, &payload).unwrap();

        let (phoff_off, phentsize, phnum_off) = if is_64 {
            (0x20usize, 56usize, 0x38usize)
        } else {
            (0x1c, 32, 0x2c)
        };
        let word = if is_64 { 8 } else { 4 };
        let (voff, ooff, szoff, floff) = if is_64 {
            (16usize, 8usize, 32usize, 4usize)
        } else {
            (8, 4, 16, 24)
        };
        let phoff = endian.read_uint(bin.data(), phoff_off, word) as usize;
        let phnum = endian.read_uint(bin.data(), phnum_off, 2) as usize;
        assert_eq!(phnum, 3, "table should have grown by one entry for {arch:?}");

        let mut found = false;
        for i in 0..phnum {
            let po = phoff + i * phentsize;
            let ptype = endian.read_uint(bin.data(), po, 4);
            let pvaddr = endian.read_uint(bin.data(), po + voff, word);
            if ptype == 1 && pvaddr == base {
                found = true;
                let poff = endian.read_uint(bin.data(), po + ooff, word) as usize;
                let filesz = endian.read_uint(bin.data(), po + szoff, word) as usize;
                let flags = endian.read_uint(bin.data(), po + floff, 4);
                assert_eq!(filesz, payload.len(), "{arch:?}");
                assert_eq!(flags, 5, "R|X flags for {arch:?}");
                assert_eq!(&bin.data()[poff..poff + payload.len()], &payload, "{arch:?}");
            }
        }
        assert!(found, "no injected PT_LOAD for {arch:?}");
    }
}

/// A 64-bit little-endian file of `len` bytes with one PT_LOAD that claims `p_off`.
fn one_load(len: usize, p_off: u64) -> Vec<u8> {
    let endian = Endian::Little;
    let mut d = vec![0u8; len];
    d[..4].copy_from_slice(&[0x7f, b'E', b'L', b'F']);
    d[4] = 2;
    d[5] = 1;
    d[6] = 1;
    endian.write_uint(&mut d, 0x20, 8, 0x40);
    endian.write_uint(&mut d, 0x36, 2, 56);
    endian.write_uint(&mut d, 0x38, 2, 1);
    write_phdr(&mut d, 0x40, true, endian, 1, p_off, 0x400000, 0x40, 5);
    d
}

fn x86_64(d: Vec<u8>) -> Binary {
    Binary::new(d, BinaryFormat::Elf, Architecture::X86_64, true, Endian::Little)
}

#[test]
fn test_inject_segment_no_note_no_room_errors() {
    // When there's no PT_NOTE *and* no padding to grow into, injection
    // must fail with a clear error instead of corrupting the file.
    let endian = Endian::Little;
    let mut d = vec![0u8; 0x100];
    d[..4].copy_from_slice(&[0x7f, b'E', b'L', b'F']);
    d[4] = 2;
    d[5] = 1;
    d[6] = 1;
    let (phoff_off, phentsize_off, phnum_off, phentsize, phoff) =
        (0x20usize, 0x36, 0x38, 56usize, 0x40u64);
    endian.write_uint(&mut d, phoff_off, 8, phoff);
    endian.write_uint(&mut d, phentsize_off, 2, phentsize as u64);
    endian.write_uint(&mut d, phnum_off, 2, 1);
    // A single PT_LOAD whose file offset sits immediately after the
    // table's one entry — zero padding available.
    let po = phoff as usize;
    write_phdr(&mut d, po, true, endian, 1, po as u64 + phentsize as u64, 0x400000, 0x40, 5);
    let mut bin = Binary::new(d, BinaryFormat::Elf, Architecture::X86_64, true, endian);
    let err = bin.inject_segment(0x600000, &[0xde, 0xad]).unwrap_err();
    let msg = err.message();
    assert!(msg.contains("no PT_NOTE") && msg.contains("padding"), "{msg}");
}

#[test]
fn injection_pads_to_a_page_and_keeps_the_rest() {
    let mut bin = craft_injectable(true, Endian::Little, Architecture::X86_64);
    let before = bin.data().to_vec();
    bin.inject_segment(0x600000, &[1, 2, 3]).unwrap();
    let after = bin.data();
    assert_eq!(after.len(), 0x1003);
    assert!(after[0x400..0x1000].iter().all(|&b| b == 0));
    assert_eq!(&after[0x1000..], &[1, 2, 3]);
    // Only the converted header (the second one) differs.
    let slot = 0x40 + 56..0x40 + 2 * 56;
    for i in 0..before.len() {
        if !slot.contains(&i) {
            assert_eq!(before[i], after[i], "byte {i:#x}");
        }
    }
    // Address and offset agree modulo the page.
    let e = Endian::Little;
    let off = e.read_uint(after, slot.start + 8, 8);
    let vaddr = e.read_uint(after, slot.start + 16, 8);
    assert_eq!(off, 0x1000);
    assert_eq!(vaddr % 0x1000, off % 0x1000);
    assert_eq!(e.read_uint(after, slot.start + 48, 8), 0x1000);
}

/// A file that ends inside the second of the two program headers it announces.
fn cut_table() -> Vec<u8> {
    let mut d = one_load(0x2000, 0x1000);
    Endian::Little.write_uint(&mut d, 0x38, 2, 2);
    d.truncate(0x79);
    d
}

#[test]
fn refused_injections_leave_the_file_alone() {
    let cases: Vec<(Vec<u8>, u64, &str)> = vec![
        (one_load(0x2000, 0x1000), 0x600001, "injected base 0x600001 is not page-aligned"),
        (vec![0; 100], 0x600000, "segment injection requires an ELF target"),
        (vec![0x7f, b'E', b'L', b'F'], 0x600000, "segment injection requires an ELF target"),
        (
            one_load(0x100, 0),
            0x600000,
            "no PT_NOTE segment to convert, and no room to grow the program-header table \
             (next file content starts at 0xffffffffffffffff, table ends at 0x78)",
        ),
        (
            one_load(0x100, 0x70),
            0x600000,
            "no PT_NOTE segment to convert, and no room to grow the program-header table \
             (next file content starts at 0x70, table ends at 0x78)",
        ),
        (
            one_load(0x100, 0x80),
            0x600000,
            "no PT_NOTE segment to convert, and insufficient padding to add a new program header \
             (8 bytes available, 56 needed)",
        ),
        (
            cut_table(),
            0x600000,
            "program-header table runs past the end of the file",
        ),
    ];
    for (data, base, expected) in cases {
        let mut bin = x86_64(data.clone());
        let err = bin.inject_segment(base, &[1]).unwrap_err();
        assert_eq!(err.message(), expected);
        assert_eq!(bin.data(), &data[..]);
    }
    // Headers of another size.
    let mut d = one_load(0x2000, 0x1000);
    Endian::Little.write_uint(&mut d, 0x36, 2, 32);
    let err = x86_64(d).inject_segment(0x600000, &[1]).unwrap_err();
    assert!(matches!(err, Fault::EntrySize { size: 32 }));
    assert_eq!(err.message(), "unexpected program-header entry size 32");
    // Class, byte order and format must be those of the binary.
    let d = one_load(0x2000, 0x1000);
    let mut bin = Binary::new(d.clone(), BinaryFormat::Elf, Architecture::X86, false, Endian::Little);
    assert!(matches!(bin.inject_segment(0, &[1]), Err(Fault::NotInjectable)));
    let mut bin = Binary::new(d.clone(), BinaryFormat::Elf, Architecture::X86_64, true, Endian::Big);
    assert!(matches!(bin.inject_segment(0, &[1]), Err(Fault::NotInjectable)));
    let mut bin = Binary::new(d, BinaryFormat::Pe, Architecture::X86_64, true, Endian::Little);
    assert!(matches!(bin.inject_segment(0, &[1]), Err(Fault::NotInjectable)));
}

#[test]
fn the_section_headers_bound_the_padding_too() {
    let mut d = one_load(0x2000, 0x1000);
    Endian::Little.write_uint(&mut d, 0x28, 8, 0x90);
    let err = x86_64(d).inject_segment(0x600000, &[1]).unwrap_err();
    assert!(matches!(err, Fault::NoPadding { gap: 0x18, needed: 56 }));
}

#[test]
fn a_full_table_cannot_grow() {
    let endian = Endian::Little;
    let end = 0x40 + 0xffff * 56;
    let mut d = vec![0u8; end + 0x1000];
    d[..4].copy_from_slice(&[0x7f, b'E', b'L', b'F']);
    d[4] = 2;
    d[5] = 1;
    d[6] = 1;
    endian.write_uint(&mut d, 0x20, 8, 0x40);
    endian.write_uint(&mut d, 0x36, 2, 56);
    endian.write_uint(&mut d, 0x38, 2, 0xffff);
    endian.write_uint(&mut d, 0x28, 8, end as u64 + 0x800);
    let err = x86_64(d).inject_segment(0x600000, &[1]).unwrap_err();
    assert!(matches!(err, Fault::TooManyHeaders));
    assert_eq!(err.message(), "program header count overflow");
}

#[test]
fn what_a_class_cannot_express_is_refused() {
    let mut bin = craft_injectable(false, Endian::Little, Architecture::Arm);
    let before = bin.data().to_vec();
    assert!(matches!(
        bin.inject_segment(0x1_0000_0000, &[1, 2]),
        Err(Fault::AddressOverflow)
    ));
    assert_eq!(bin.data(), &before[..]);
    bin.inject_segment(0xffff_f000, &[1, 2]).unwrap();
    let e = Endian::Little;
    // Both addresses of the converted header.
    assert_eq!(e.read_uint(bin.data(), 0x34 + 32 + 8, 4), 0xffff_f000);
    assert_eq!(e.read_uint(bin.data(), 0x34 + 32 + 12, 4), 0xffff_f000);
    let mut bin = craft_injectable(true, Endian::Little, Architecture::X86_64);
    bin.inject_segment(0x1_0000_0000, &[1, 2]).unwrap();
    assert_eq!(e.read_uint(bin.data(), 0x40 + 56 + 16, 8), 0x1_0000_0000);
    assert_eq!(e.read_uint(bin.data(), 0x40 + 56 + 24, 8), 0x1_0000_0000);
}

#[test]
fn the_table_grows_inside_the_file_only() {
    let e = Endian::Little;
    // The only claimed offset lies behind the end of the file.
    for (len, gap) in [(0x1000, 0), (0x1000 + 55, 55), (0x1000 + 56, 56)] {
        let mut d = one_load(len, 0);
        e.write_uint(&mut d, 0x20, 8, 0x1000 - 56);
        write_phdr(&mut d, 0x1000 - 56, true, e, 1, 0x5000, 0x400000, 0x40, 5);
        let mut bin = x86_64(d.clone());
        let r = bin.inject_segment(0x600000, &[7; 60]);
        if gap < 56 {
            assert!(matches!(r, Err(Fault::NoPadding { gap: g, needed: 56 }) if g == gap));
            assert_eq!(bin.data(), &d[..]);
        } else {
            r.unwrap();
            assert_eq!(e.read_uint(bin.data(), 0x38, 2), 2);
            assert_eq!(e.read_uint(bin.data(), 0x1000 + 16, 8), 0x600000);
            assert_eq!(&bin.data()[0x2000..], &[7; 60]);
        }
    }
    // A table without headers in front of the ELF header's end, and one that holds the count.
    for (start, count) in [(0, 0), (63, 0), (57, 1), (1, 2)] {
        let mut d = one_load(0x2000, 0);
        d[0x40..0x78].fill(0);
        e.write_uint(&mut d, 0x28, 8, 0x1000);
        e.write_uint(&mut d, 0x20, 8, start);
        e.write_uint(&mut d, 0x38, 2, count);
        let mut bin = x86_64(d.clone());
        assert!(bin.inject_segment(0x600000, &[7]).is_err());
        assert_eq!(bin.data(), &d[..]);
    }
    // The first byte behind the ELF header is free.
    let mut d = one_load(0x2000, 0);
    d[0x40..0x78].fill(0);
    e.write_uint(&mut d, 0x28, 8, 0x1000);
    e.write_uint(&mut d, 0x38, 2, 0);
    let mut bin = x86_64(d);
    bin.inject_segment(0x600000, &[7]).unwrap();
    assert_eq!(e.read_uint(bin.data(), 0x38, 2), 1);
    assert_eq!(e.read_uint(bin.data(), 0x40 + 16, 8), 0x600000);
}
