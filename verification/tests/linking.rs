use goblin::elf::program_header::{PT_LOAD, PT_NOTE};
use object::write::{Object, Relocation, Symbol, SymbolSection as WSection};
use object::{
    Architecture as ObjArch, BinaryFormat as ObjFormat, Endianness, RelocationEncoding, RelocationFlags,
    RelocationKind, SectionKind, SymbolFlags, SymbolKind, SymbolScope,
};
use resplice::arch::Architecture;
use resplice::binary::Binary;
use resplice::bytes::Endian;
use resplice::error::Fault;
use resplice::image::BinaryFormat;
use resplice::link::{Applied, Patch};
use resplice::rlib::{install, link_rlib, read_splices_from_rlib, write_patches};

const TARGET_BASE: u64 = 0x400000;
const SPLICE_VA: u64 = 0x401000;
const FILE_LEN: usize = 0x2000;
/// Deterministic base for the injected segment given the crafted target
/// (max PT_LOAD vaddr 0x402000, aligned up + one page gap).
const INJECT_BASE: u64 = 0x403000;

/// Build a minimal but goblin-parseable ELF64 executable with one R+X
/// `PT_LOAD` mapping the whole file at `0x400000` and one `PT_NOTE` (for
/// `inject_segment` to convert). The splice region lives at `SPLICE_VA`.
fn crafted_target() -> Vec<u8> {
    let mut d = vec![0u8; FILE_LEN];
    d[..4].copy_from_slice(&[0x7f, b'E', b'L', b'F']);
    d[4] = 2; // ELFCLASS64
    d[5] = 1; // ELFDATA2LSB
    d[6] = 1; // EV_CURRENT
    let w16 = |d: &mut [u8], at: usize, v: u16| d[at..at + 2].copy_from_slice(&v.to_le_bytes());
    let w32 = |d: &mut [u8], at: usize, v: u32| d[at..at + 4].copy_from_slice(&v.to_le_bytes());
    let w64 = |d: &mut [u8], at: usize, v: u64| d[at..at + 8].copy_from_slice(&v.to_le_bytes());
    w16(&mut d, 0x10, 2); // e_type = ET_EXEC
    w16(&mut d, 0x12, 0x3e); // e_machine = EM_X86_64
    w32(&mut d, 0x14, 1); // e_version
    w64(&mut d, 0x18, SPLICE_VA); // e_entry
    w64(&mut d, 0x20, 64); // e_phoff
    w16(&mut d, 0x34, 64); // e_ehsize
    w16(&mut d, 0x36, 56); // e_phentsize
    w16(&mut d, 0x38, 2); // e_phnum

    // PT_LOAD covering the whole file at 0x400000 (R+X).
    let ph = 64;
    w32(&mut d, ph, 1); // PT_LOAD
    w32(&mut d, ph + 4, 5); // R|X
    w64(&mut d, ph + 8, 0); // p_offset
    w64(&mut d, ph + 16, TARGET_BASE); // p_vaddr
    w64(&mut d, ph + 24, TARGET_BASE); // p_paddr
    w64(&mut d, ph + 32, FILE_LEN as u64); // p_filesz
    w64(&mut d, ph + 40, FILE_LEN as u64); // p_memsz
    w64(&mut d, ph + 48, 0x1000); // p_align

    // PT_NOTE (contents irrelevant; only the phdr slot matters).
    let ph = 64 + 56;
    w32(&mut d, ph, 4); // PT_NOTE
    w32(&mut d, ph + 4, 4); // R
    w64(&mut d, ph + 8, 0x100); // p_offset
    w64(&mut d, ph + 16, TARGET_BASE + 0x100);
    w64(&mut d, ph + 24, TARGET_BASE + 0x100);
    w64(&mut d, ph + 32, 0x20);
    w64(&mut d, ph + 40, 0x20);
    w64(&mut d, ph + 48, 4);

    // Original bytes at the splice site (int3 fill) so we can see them change.
    for b in &mut d[0x1000..0x1000 + 0x20] {
        *b = 0xcc;
    }
    d
}

fn load(bytes: &[u8]) -> Binary {
    Binary::load(bytes.to_vec()).unwrap()
}

/// Wrap object bytes in a minimal GNU `ar` archive.
fn ar_wrap(name: &str, data: &[u8]) -> Vec<u8> {
    let mut out = Vec::from(&b"!<arch>\n"[..]);
    let mut header = format!("{:<16}", format!("{name}/"));
    header.push_str(&format!("{:<12}{:<6}{:<6}{:<8}{:<10}`\n", 0, 0, 0, "644", data.len()));
    assert_eq!(header.len(), 60);
    out.extend_from_slice(header.as_bytes());
    out.extend_from_slice(data);
    if data.len() % 2 == 1 {
        out.push(b'\n');
    }
    out
}

#[test]
fn test_read_splices_from_rlib() {
    let mut obj = Object::new(ObjFormat::Elf, ObjArch::X86_64, Endianness::Little);
    let code = [0xb8, 0x2a, 0x00, 0x00, 0x00, 0xc3]; // mov eax, 42; ret
    let sec = obj.add_section(Vec::new(), b".rspl.a.b".to_vec(), SectionKind::Text);
    obj.append_section_data(sec, &code, 1);
    let obj_bytes = obj.write().unwrap();

    let archive = ar_wrap("splice.o", &obj_bytes);
    let splices = read_splices_from_rlib(&archive).unwrap();

    assert_eq!(splices.len(), 1);
    assert_eq!(splices[0].begin, 0xa);
    assert_eq!(splices[0].end, 0xb);
    assert_eq!(splices[0].code, code);
}

#[test]
fn test_va_to_offset() {
    let bin = load(&crafted_target());
    assert_eq!(bin.va_to_offset(SPLICE_VA).unwrap(), 0x1000);
    assert_eq!(bin.va_to_offset(TARGET_BASE).unwrap(), 0);
    assert!(bin.va_to_offset(0x500000).is_err());
    assert_eq!(bin.injected_base().unwrap(), INJECT_BASE);
}

#[test]
fn test_inject_segment_converts_note() {
    let mut bin = load(&crafted_target());
    let base = bin.injected_base().unwrap();
    let payload = [0xde, 0xad, 0xbe, 0xef, 0x11, 0x22];
    bin.inject_segment(base, &payload).unwrap();

    let elf = goblin::elf::Elf::parse(bin.data()).unwrap();
    // The PT_NOTE was consumed; a PT_LOAD now maps our payload at `base`.
    assert!(!elf.program_headers.iter().any(|ph| ph.p_type == PT_NOTE));
    let seg = elf
        .program_headers
        .iter()
        .find(|ph| ph.p_type == PT_LOAD && ph.p_vaddr == base)
        .expect("injected PT_LOAD");
    assert_eq!(seg.p_filesz, payload.len() as u64);
    let off = seg.p_offset as usize;
    assert_eq!(&bin.data()[off..off + payload.len()], &payload);
}

const HELPER_CODE: [u8; 6] = [0xb8, 0x2a, 0x00, 0x00, 0x00, 0xc3]; // mov eax,42; ret
// A 13-byte splice: call rel32 (operand@1); lea rax,[rip+d32] (operand@8); ret.
const SPLICE_CODE: [u8; 13] = [
    0xe8, 0, 0, 0, 0, // call helper
    0x48, 0x8d, 0x05, 0, 0, 0, 0, // lea rax, [rip + TABLE]
    0xc3, // ret
];

fn table_data() -> [u8; 16] {
    std::array::from_fn(|i| (i as u8) + 1)
}

/// Build an rlib with a splice covering `[SPLICE_VA, splice_end)` that calls
/// a `helper` (PLT32, section symbol) and reads a `TABLE` (PC32, data
/// symbol). Both referenced sections must be pulled in and injected.
fn build_rlib(splice_end: u64) -> Vec<u8> {
    let mut obj = Object::new(ObjFormat::Elf, ObjArch::X86_64, Endianness::Little);

    let helper_sec = obj.add_section(vec![], b".text.helper".to_vec(), SectionKind::Text);
    obj.append_section_data(helper_sec, &HELPER_CODE, 1);
    let helper_sym = obj.section_symbol(helper_sec);

    let table = table_data();
    let rodata = obj.add_section(vec![], b".rodata.table".to_vec(), SectionKind::ReadOnlyData);
    obj.append_section_data(rodata, &table, 1);
    let table_sym = obj.add_symbol(Symbol {
        name: b"TABLE".to_vec(),
        value: 0,
        size: table.len() as u64,
        kind: SymbolKind::Data,
        scope: SymbolScope::Compilation,
        weak: false,
        section: WSection::Section(rodata),
        flags: SymbolFlags::None,
    });

    let name = format!(".rspl.{SPLICE_VA:x}.{splice_end:x}").into_bytes();
    let rspl = obj.add_section(vec![], name, SectionKind::Text);
    obj.append_section_data(rspl, &SPLICE_CODE, 16);
    for (offset, symbol, r_type) in [
        (1, helper_sym, object::elf::R_X86_64_PLT32),
        (8, table_sym, object::elf::R_X86_64_PC32),
    ] {
        obj.add_relocation(
            rspl,
            Relocation { offset, symbol, addend: -4, flags: RelocationFlags::Elf { r_type } },
        )
        .unwrap();
    }

    ar_wrap("splice.o", &obj.write().unwrap())
}

fn run_link(rlib: &[u8]) -> (Binary, Vec<Applied>) {
    let mut bin = load(&crafted_target());
    let applied = link_rlib(&mut bin, rlib).unwrap();
    (bin, applied)
}

/// Read the resolved call/lea targets out of a copy of `SPLICE_CODE` at file
/// offset `code_off` (whose site is at virtual address `site_va`) and assert
/// they point at the injected helper code and table data.
fn assert_refs_resolved(bin: &Binary, code_off: usize, site_va: u64) {
    let d = bin.data();
    assert_eq!(d[code_off], 0xe8, "call opcode");
    assert_eq!(d[code_off + 5], 0x48, "lea opcode");

    let d1 = i32::from_le_bytes(d[code_off + 1..code_off + 5].try_into().unwrap());
    let helper_va = (site_va as i64 + 1 + 4 + d1 as i64) as u64;
    let d2 = i32::from_le_bytes(d[code_off + 8..code_off + 12].try_into().unwrap());
    let table_va = (site_va as i64 + 8 + 4 + d2 as i64) as u64;

    assert!(helper_va >= INJECT_BASE, "helper not in injected segment");
    assert!(table_va >= INJECT_BASE, "table not in injected segment");
    let hoff = bin.va_to_offset(helper_va).unwrap();
    assert_eq!(&bin.data()[hoff..hoff + HELPER_CODE.len()], &HELPER_CODE);
    let toff = bin.va_to_offset(table_va).unwrap();
    assert_eq!(&bin.data()[toff..toff + table_data().len()], &table_data());
}

#[test]
fn test_link_rlib_resolves_call_and_data_refs() {
    // Region (0x20) comfortably holds the 13-byte splice: patched directly.
    let (bin, applied) = run_link(&build_rlib(SPLICE_VA + 0x20));

    assert_eq!(applied.len(), 1);
    assert!(!applied[0].trampoline);
    assert_eq!((applied[0].begin, applied[0].end), (SPLICE_VA, SPLICE_VA + 0x20));

    // Patched directly at file offset 0x1000 (VA 0x401000).
    assert_refs_resolved(&bin, 0x1000, SPLICE_VA);
}

#[test]
fn test_link_rlib_trampolines_oversized_splice() {
    // Region is only 8 bytes — smaller than the 13-byte splice — so the code
    // is relocated into the injected segment and reached via a jump.
    let (bin, applied) = run_link(&build_rlib(SPLICE_VA + 8));

    assert_eq!(applied.len(), 1);
    assert!(applied[0].trampoline);
    assert_eq!((applied[0].begin, applied[0].end), (SPLICE_VA, SPLICE_VA + 8));

    let d = bin.data();
    // A `jmp rel32` sits at the splice site, with the rest NOP-filled.
    assert_eq!(d[0x1000], 0xe9, "jmp opcode");
    assert_eq!(&d[0x1005..0x1008], &[0x90, 0x90, 0x90], "NOP fill");

    // The jump lands on the relocated code inside the injected segment.
    let disp = i32::from_le_bytes(d[0x1001..0x1005].try_into().unwrap());
    let dest = (SPLICE_VA as i64 + 5 + disp as i64) as u64;
    assert!(dest >= INJECT_BASE, "trampoline target not in injected segment");

    // The relocated splice's own references are resolved at its new home.
    let code_off = bin.va_to_offset(dest).unwrap();
    assert_refs_resolved(&bin, code_off, dest);
}

/// The crafted x86-64 target with its `e_machine` field changed to
/// `EM_AARCH64` (183), so `Binary::load` classifies it as aarch64.
fn crafted_target_aarch64() -> Vec<u8> {
    let mut d = crafted_target();
    d[0x12] = 183;
    d[0x13] = 0;
    d
}

/// AArch64 helper (`movz w0,#42; ret`) and splice
/// (`bl helper; adrp x0,TABLE; add x0,x0,:lo12:TABLE; ret`).
const A64_HELPER: [u8; 8] = [0x40, 0x05, 0x80, 0x52, 0xc0, 0x03, 0x5f, 0xd6];
const A64_SPLICE: [u8; 16] = [
    0x00, 0x00, 0x00, 0x94, // bl   helper
    0x00, 0x00, 0x00, 0x90, // adrp x0, TABLE page
    0x00, 0x00, 0x00, 0x91, // add  x0, x0, :lo12:TABLE
    0xc0, 0x03, 0x5f, 0xd6, // ret
];

fn build_rlib_aarch64(splice_end: u64) -> Vec<u8> {
    let mut obj = Object::new(ObjFormat::Elf, ObjArch::Aarch64, Endianness::Little);

    let helper_sec = obj.add_section(vec![], b".text.helper".to_vec(), SectionKind::Text);
    obj.append_section_data(helper_sec, &A64_HELPER, 4);
    let helper_sym = obj.section_symbol(helper_sec);

    let table = table_data();
    let rodata = obj.add_section(vec![], b".rodata.table".to_vec(), SectionKind::ReadOnlyData);
    obj.append_section_data(rodata, &table, 4);
    let table_sym = obj.add_symbol(Symbol {
        name: b"TABLE".to_vec(),
        value: 0,
        size: table.len() as u64,
        kind: SymbolKind::Data,
        scope: SymbolScope::Compilation,
        weak: false,
        section: WSection::Section(rodata),
        flags: SymbolFlags::None,
    });

    let name = format!(".rspl.{SPLICE_VA:x}.{splice_end:x}").into_bytes();
    let rspl = obj.add_section(vec![], name, SectionKind::Text);
    obj.append_section_data(rspl, &A64_SPLICE, 16);
    for (offset, symbol, r_type) in [
        (0, helper_sym, object::elf::R_AARCH64_CALL26),
        (4, table_sym, object::elf::R_AARCH64_ADR_PREL_PG_HI21),
        (8, table_sym, object::elf::R_AARCH64_ADD_ABS_LO12_NC),
    ] {
        obj.add_relocation(
            rspl,
            Relocation { offset, symbol, addend: 0, flags: RelocationFlags::Elf { r_type } },
        )
        .unwrap();
    }
    ar_wrap("splice.o", &obj.write().unwrap())
}

#[test]
fn test_link_rlib_aarch64_resolves_refs() {
    let mut bin = load(&crafted_target_aarch64());
    let applied = link_rlib(&mut bin, &build_rlib_aarch64(SPLICE_VA + 0x20)).unwrap();

    assert_eq!(applied.len(), 1);
    assert!(!applied[0].trampoline);

    let d = bin.data();
    let off = 0x1000; // SPLICE_VA

    // BL: sign-extended imm26 * 4 gives the helper's displacement.
    let bl = u32::from_le_bytes(d[off..off + 4].try_into().unwrap());
    assert_eq!(bl & 0xfc00_0000, 0x9400_0000, "BL opcode");
    let imm26 = (((bl & 0x03ff_ffff) as i32) << 6) >> 6;
    let helper_va = (SPLICE_VA as i64 + imm26 as i64 * 4) as u64;
    assert!(helper_va >= INJECT_BASE, "helper not injected");
    let hoff = bin.va_to_offset(helper_va).unwrap();
    assert_eq!(&bin.data()[hoff..hoff + A64_HELPER.len()], &A64_HELPER);

    // ADRP page + ADD lo12 reconstruct the TABLE address.
    let adrp = u32::from_le_bytes(d[off + 4..off + 8].try_into().unwrap());
    let immlo = ((adrp >> 29) & 0x3) as i64;
    let immhi = ((adrp >> 5) & 0x7ffff) as i64;
    let mut pageimm = (immhi << 2) | immlo;
    if pageimm & (1 << 20) != 0 {
        pageimm -= 1 << 21;
    }
    let page = ((SPLICE_VA + 4) & !0xfff) as i64 + pageimm * 0x1000;
    let add = u32::from_le_bytes(d[off + 8..off + 12].try_into().unwrap());
    let lo12 = ((add >> 10) & 0xfff) as i64;
    let table_va = (page + lo12) as u64;
    assert!(table_va >= INJECT_BASE, "table not injected");
    let toff = bin.va_to_offset(table_va).unwrap();
    assert_eq!(&bin.data()[toff..toff + table_data().len()], &table_data());
}

#[test]
fn test_link_rlib_arch_mismatch_errors() {
    // An aarch64 rlib spliced into an x86-64 target must be rejected.
    let mut bin = load(&crafted_target()); // x86-64
    let err = link_rlib(&mut bin, &build_rlib_aarch64(SPLICE_VA + 0x20)).unwrap_err();

    let msg = err.message();
    assert!(msg.contains("aarch64"), "message was {msg:?}");
    assert!(msg.contains("x86-64"), "message was {msg:?}");
}

/// An archive of several members.
fn ar_of(members: &[(&str, &[u8])]) -> Vec<u8> {
    let mut out = Vec::from(&b"!<arch>\n"[..]);
    for (name, data) in members {
        out.extend_from_slice(&ar_wrap(name, data)[8..]);
    }
    out
}

/// An object with the splice `code` at `[begin, end)`, and the bytes `table` that it points at.
fn pointing(arch: ObjArch, begin: u64, end: u64, table: &[u8], kind: SectionKind) -> Vec<u8> {
    let mut obj = Object::new(ObjFormat::Elf, arch, Endianness::Little);
    let data = obj.add_section(vec![], b".rodata.t".to_vec(), kind);
    obj.append_section_data(data, table, 8);
    let symbol = obj.section_symbol(data);
    let name = format!(".rspl.{begin:x}.{end:x}").into_bytes();
    let rspl = obj.add_section(vec![], name, SectionKind::Text);
    obj.append_section_data(rspl, &[0; 8], 1);
    let flags = RelocationFlags::Elf { r_type: object::elf::R_X86_64_64 };
    obj.add_relocation(rspl, Relocation { offset: 0, symbol, addend: 0, flags }).unwrap();
    obj.write().unwrap()
}

fn pointer_at(bin: &Binary, off: usize) -> u64 {
    u64::from_le_bytes(bin.data()[off..off + 8].try_into().unwrap())
}

#[test]
fn members_share_one_segment() {
    let x = ObjArch::X86_64;
    let ro = SectionKind::ReadOnlyData;
    let one = pointing(x, SPLICE_VA, SPLICE_VA + 8, &[1, 2, 3], ro);
    let two = pointing(x, SPLICE_VA + 16, SPLICE_VA + 24, &[4, 5], ro);
    let rlib = ar_of(&[("lib.rmeta", b"rust metadata"), ("one.o", &one), ("two.o", &two)]);
    let (bin, applied) = run_link(&rlib);
    assert_eq!(applied.len(), 2);
    assert_eq!(applied[0].begin, SPLICE_VA);
    assert_eq!(applied[1].begin, SPLICE_VA + 16);
    assert_eq!(applied[1].code_len, 8);
    assert_eq!(pointer_at(&bin, 0x1000), INJECT_BASE);
    assert_eq!(pointer_at(&bin, 0x1010), INJECT_BASE + 8);
    assert_eq!(bin.data()[0x2000..], [1, 2, 3, 0, 0, 0, 0, 0, 4, 5]);
    // What no patch covers stays.
    assert_eq!(bin.data()[0x1008..0x1010], [0xcc; 8]);
}

#[test]
fn the_segment_goes_where_it_is_told() {
    let mut bin = load(&crafted_target());
    bin.set_injected_base(Some(0x7000_0000));
    assert_eq!(bin.injected_base().unwrap(), 0x7000_0000);
    let object = pointing(
        ObjArch::X86_64,
        SPLICE_VA,
        SPLICE_VA + 8,
        &[9],
        SectionKind::ReadOnlyData,
    );
    link_rlib(&mut bin, &ar_wrap("a.o", &object)).unwrap();
    assert_eq!(pointer_at(&bin, 0x1000), 0x7000_0000);
    assert_eq!(bin.va_to_offset(0x7000_0000).unwrap(), 0x2000);
    // What was mapped before is mapped as before, and nothing behind the segment is.
    assert_eq!(bin.va_to_offset(SPLICE_VA).unwrap(), 0x1000);
    assert_eq!(bin.va_to_offset(TARGET_BASE + 0x1fff).unwrap(), 0x1fff);
    assert!(bin.va_to_offset(0x7000_0001).is_err());
    let mut bin = load(&crafted_target());
    bin.set_injected_base(Some(0x7000_0001));
    let e = link_rlib(&mut bin, &ar_wrap("a.o", &object)).unwrap_err();
    assert!(matches!(e, Fault::MisalignedBase { base: 0x7000_0001 }));
    assert_eq!(bin.data(), &crafted_target()[..]);
    bin.set_injected_base(None);
    assert_eq!(bin.injected_base().unwrap(), INJECT_BASE);
}

#[test]
fn nothing_to_splice_changes_nothing() {
    let mut obj = Object::new(ObjFormat::Elf, ObjArch::Aarch64, Endianness::Little);
    let text = obj.add_section(vec![], b".text".to_vec(), SectionKind::Text);
    obj.append_section_data(text, &[1, 2, 3, 4], 4);
    // The object is for another machine, but has no splices.
    let (bin, applied) = run_link(&ar_wrap("a.o", &obj.write().unwrap()));
    assert!(applied.is_empty());
    assert_eq!(bin.data(), &crafted_target()[..]);
}

#[test]
fn refused_rlibs_leave_the_target_alone() {
    let ro = SectionKind::ReadOnlyData;
    let writable = pointing(ObjArch::X86_64, SPLICE_VA, SPLICE_VA + 8, &[1], SectionKind::Data);
    let outside = pointing(ObjArch::X86_64, SPLICE_VA, SPLICE_VA - 8, &[1], ro);
    let mut other = Object::new(ObjFormat::Elf, ObjArch::Riscv64, Endianness::Little);
    other.add_section(vec![], b".rspl.1.2".to_vec(), SectionKind::Text);
    let mut macho = Object::new(ObjFormat::MachO, ObjArch::X86_64, Endianness::Little);
    let rspl = macho.add_section(b"__TEXT".to_vec(), b".rspl.1.9".to_vec(), SectionKind::Text);
    macho.append_section_data(rspl, &[0; 8], 1);
    let symbol = macho.section_symbol(rspl);
    let flags = RelocationFlags::Generic {
        kind: RelocationKind::Absolute,
        encoding: RelocationEncoding::Generic,
        size: 64,
    };
    macho.add_relocation(rspl, Relocation { offset: 0, symbol, addend: 0, flags }).unwrap();
    let mut cut = ar_wrap("a.o", &writable);
    cut.truncate(100);
    let cases: Vec<(Vec<u8>, &str)> = vec![
        (b"no archive".to_vec(), "failed to parse rlib archive"),
        (cut, "failed to read"),
        (ar_wrap("a.o", &writable), "splice references writable section \".rodata.t\""),
        (ar_wrap("a.o", &outside), "Invalid address range: 0x401000 to 0x400ff8"),
        (ar_wrap("a.o", &other.write().unwrap()), "rlib has unsupported architecture Riscv64"),
        (ar_wrap("a.o", &macho.write().unwrap()), "non-ELF relocation in .rspl.1.9"),
    ];
    for (rlib, expected) in cases {
        let mut bin = load(&crafted_target());
        let e = link_rlib(&mut bin, &rlib).unwrap_err();
        assert!(e.message().starts_with(expected), "{} / {expected}", e.message());
        assert_eq!(bin.data(), &crafted_target()[..]);
    }
    // Unlike the message, the report ends with the cause.
    let e = read_splices_from_rlib(b"no archive").unwrap_err();
    assert_eq!(e.message(), "failed to parse rlib archive");
    assert!(e.report().starts_with("failed to parse rlib archive: "));
    assert!(e.report().len() > "failed to parse rlib archive: ".len());
}

#[test]
fn targets_other_than_elf_are_refused() {
    let mut macho = vec![0u8; 32];
    macho[..4].copy_from_slice(&0xfeed_facfu32.to_le_bytes());
    macho[4..8].copy_from_slice(&0x0100_0007u32.to_le_bytes());
    macho[12] = 2;
    let mut bin = load(&macho);
    assert_eq!(bin.format(), BinaryFormat::MachO);
    let e = link_rlib(&mut bin, &build_rlib(SPLICE_VA + 0x20)).unwrap_err();
    assert_eq!(e.message(), "relocation-aware splicing is only supported for ELF targets");
    assert!(matches!(bin.va_to_offset(0), Err(Fault::NotElf)));
    assert!(matches!(bin.resolve_target_symbol("f"), Err(Fault::NotElf)));
    let bin = Binary::new(
        vec![0; 3],
        BinaryFormat::Elf,
        Architecture::X86,
        false,
        Endian::Little,
    );
    assert!(matches!(bin.injected_base(), Err(Fault::Image { .. })));
}

#[test]
fn splices_are_read_in_order_with_their_errors() {
    let mut obj = Object::new(ObjFormat::Elf, ObjArch::X86_64, Endianness::Little);
    for (name, code) in [(".rspl.10.20", [1u8, 2]), (".text", [3, 4]), (".rspl.30.40", [5, 6])] {
        let id = obj.add_section(vec![], name.as_bytes().to_vec(), SectionKind::Text);
        obj.append_section_data(id, &code, 1);
    }
    let bytes = obj.write().unwrap();
    let splices = read_splices_from_rlib(&ar_of(&[("x", b"y"), ("a.o", &bytes)])).unwrap();
    let seen: Vec<(u64, u64, Vec<u8>)> =
        splices.iter().map(|s| (s.begin, s.end, s.code.clone())).collect();
    assert_eq!(seen, [(0x10, 0x20, vec![1, 2]), (0x30, 0x40, vec![5, 6])]);
    let mut obj = Object::new(ObjFormat::Elf, ObjArch::X86_64, Endianness::Little);
    obj.add_section(vec![], b".rspl.10".to_vec(), SectionKind::Text);
    let e = read_splices_from_rlib(&ar_wrap("a.o", &obj.write().unwrap())).unwrap_err();
    assert!(matches!(e, Fault::MalformedName { .. }));
}

#[test]
fn undefined_symbols_of_the_target_are_called() {
    // The target itself is an object file with one defined function.
    let mut target = Object::new(ObjFormat::Elf, ObjArch::X86_64, Endianness::Little);
    let text = target.add_section(vec![], b".text".to_vec(), SectionKind::Text);
    target.append_section_data(text, &[0xc3; 32], 16);
    let symbol = |name: &[u8], value, section| Symbol {
        name: name.to_vec(),
        value,
        size: 1,
        kind: SymbolKind::Text,
        scope: SymbolScope::Linkage,
        weak: false,
        section,
        flags: SymbolFlags::None,
    };
    target.add_symbol(symbol(b"helper", 0x10, WSection::Section(text)));
    target.add_symbol(symbol(b"missing", 0, WSection::Undefined));
    let target = load(&target.write().unwrap());
    assert_eq!(target.resolve_target_symbol("helper").unwrap(), Some(0x10));
    assert_eq!(target.resolve_target_symbol("missing").unwrap(), None);
    assert_eq!(target.resolve_target_symbol("other").unwrap(), None);
    // An rlib that calls a function which the target does not have.
    let mut obj = Object::new(ObjFormat::Elf, ObjArch::X86_64, Endianness::Little);
    let name = format!(".rspl.{SPLICE_VA:x}.{:x}", SPLICE_VA + 16).into_bytes();
    let rspl = obj.add_section(vec![], name, SectionKind::Text);
    obj.append_section_data(rspl, &[0xe8, 0, 0, 0, 0], 1);
    let puts = obj.add_symbol(symbol(b"puts", 0, WSection::Undefined));
    let flags = RelocationFlags::Elf { r_type: object::elf::R_X86_64_PLT32 };
    obj.add_relocation(rspl, Relocation { offset: 1, symbol: puts, addend: -4, flags }).unwrap();
    let mut bin = load(&crafted_target());
    let e = link_rlib(&mut bin, &ar_wrap("a.o", &obj.write().unwrap())).unwrap_err();
    assert_eq!(e.message(), "unresolved external symbol \"puts\"");
}

#[test]
fn patches_are_written_up_to_the_first_that_fails() {
    let patch = |begin: u64, end: u64, code: &[u8]| Patch {
        begin,
        end,
        code: code.to_vec(),
        trampoline: false,
    };
    let mut bin = load(&crafted_target());
    let applied =
        write_patches(&mut bin, &vec![patch(SPLICE_VA, SPLICE_VA + 4, &[1, 2])]).unwrap();
    assert_eq!(applied.len(), 1);
    assert_eq!((applied[0].begin, applied[0].end), (SPLICE_VA, SPLICE_VA + 4));
    assert_eq!(applied[0].code_len, 2);
    assert_eq!(bin.data()[0x1000..0x1005], [1, 2, 0x90, 0x90, 0xcc]);
    let list = vec![patch(SPLICE_VA, SPLICE_VA + 1, &[7]), patch(0x10, 0x20, &[8])];
    let e = write_patches(&mut bin, &list).unwrap_err();
    assert_eq!(e.message(), "virtual address 0x10 is not mapped by any PT_LOAD segment");
    assert_eq!(bin.data()[0x1000], 7);
    let e = write_patches(&mut bin, &vec![patch(SPLICE_VA, SPLICE_VA - 1, &[])]).unwrap_err();
    assert!(matches!(e, Fault::InvalidRange { .. }));
    let e = write_patches(&mut bin, &vec![patch(SPLICE_VA, SPLICE_VA + 0x10000, &[])]).unwrap_err();
    assert_eq!(e.message(), "patch region 0x1000..0x11000 is outside the binary");
    let e = write_patches(&mut bin, &vec![patch(SPLICE_VA, SPLICE_VA + 1, &[1, 2])]).unwrap_err();
    assert_eq!(e.message(), "replacement (2 bytes) larger than region (1 bytes)");
    // Without a segment to inject only the patches are written.
    let mut bin = load(&crafted_target());
    install(&mut bin, 1, &vec![], &vec![patch(SPLICE_VA, SPLICE_VA + 1, &[6])]).unwrap();
    assert_eq!(bin.data().len(), FILE_LEN);
    assert_eq!(bin.data()[0x1000], 6);
    install(&mut bin, INJECT_BASE, &vec![5; 3], &vec![]).unwrap();
    assert_eq!(bin.data()[FILE_LEN..], [5; 3]);
}
