use resplice::arch::{
    Architecture, R_ARM_CALL, R_MIPS_HI16, R_MIPS_LO16, R_X86_64_64, R_X86_64_GOTPCREL,
    R_X86_64_PC32, R_X86_64_PLT32,
};
use resplice::bytes::Endian;
use resplice::closure::{collect, find_splices};
use resplice::error::{Error, Fault, Machine};
use resplice::image::{SectionEntry, SymbolEntry, SymbolTables};
use resplice::link::{link_object, Externals, Patch};
use resplice::model::{ObjectModel, Rel, Sec, SymInfo};
use resplice::object_file::{
    build_model, verify_arch, Identity, Kind, RawObject, RawRel, RawSection, RawSymbol, RawTarget,
};
use resplice::plan::pad_to;
use resplice::reloc::{Family, RelocError};
use std::collections::HashMap;

const BASE: u64 = 0x500000;
const BEGIN: u64 = 0x401000;
const X86_64: Machine =
    Machine { arch: Architecture::X86_64, endian: Endian::Little, is_64: true };

fn sec(name: &str, bytes: &[u8], relocs: Vec<Rel>) -> Sec {
    Sec {
        name: name.to_string(),
        align: 1,
        writable: false,
        bytes: bytes.to_vec(),
        relocs,
        splice: None,
    }
}

fn splice(begin: u64, end: u64, bytes: &[u8], relocs: Vec<Rel>) -> Sec {
    Sec { splice: Some((begin, end)), ..sec(&format!(".rspl.{begin:x}.{end:x}"), bytes, relocs) }
}

fn rel(offset: u64, r_type: u32, sym: usize, addend: i64) -> Rel {
    Rel { offset, r_type, sym, addend, has_implicit: false }
}

fn in_section(name: &str, section: usize, value: u64) -> SymInfo {
    SymInfo { name: name.to_string(), section: Some(section), value, undefined: false }
}

fn absolute(name: &str, value: u64) -> SymInfo {
    SymInfo { name: name.to_string(), section: None, value, undefined: false }
}

fn undefined(name: &str) -> SymInfo {
    SymInfo { name: name.to_string(), section: None, value: 0, undefined: true }
}

fn object(secs: Vec<(usize, Sec)>, syms: Vec<(usize, SymInfo)>) -> ObjectModel {
    let mut obj = ObjectModel::new();
    for (i, s) in secs {
        obj.add_section(i, s);
    }
    for (i, s) in syms {
        obj.add_symbol(i, s);
    }
    obj
}

fn link(obj: &ObjectModel, machine: Machine) -> Result<(Vec<u8>, Vec<Patch>), Error> {
    link_object(obj, machine, &Externals::NotElf, BASE, Vec::new(), Vec::new())
}

fn refused(obj: &ObjectModel, machine: Machine) -> Error {
    link(obj, machine).unwrap_err()
}

fn entry(name: &str, section: usize, value: u64) -> SymbolEntry<String> {
    SymbolEntry(Some(name.to_string()), section, value)
}

#[test]
fn a_splice_without_references_is_patched_as_it_is() {
    let obj = object(vec![(3, splice(BEGIN, BEGIN + 4, &[1, 2, 3], vec![]))], vec![]);
    let (blob, patches) = link(&obj, X86_64).unwrap();
    assert!(blob.is_empty());
    assert_eq!(patches.len(), 1);
    assert_eq!((patches[0].begin, patches[0].end), (BEGIN, BEGIN + 4));
    assert_eq!(patches[0].code, [1, 2, 3]);
    assert!(!patches[0].trampoline);
}

#[test]
fn sections_are_aligned_behind_the_segment_so_far() {
    let mut data = sec(".rodata", &[7, 8], vec![]);
    data.align = 16;
    let obj = object(
        vec![(1, splice(BEGIN, BEGIN + 8, &[0; 8], vec![rel(0, R_X86_64_64, 9, 1)])), (2, data)],
        vec![(9, in_section("T", 2, 1))],
    );
    let earlier = Patch { begin: 1, end: 2, code: vec![5], trampoline: false };
    let (blob, patches) =
        link_object(&obj, X86_64, &Externals::NotElf, BASE, vec![1, 2, 3], vec![earlier]).unwrap();
    let mut expected = vec![1, 2, 3];
    expected.resize(16, 0);
    expected.extend([7, 8]);
    assert_eq!(blob, expected);
    assert_eq!(patches.len(), 2);
    assert_eq!(patches[0].code, [5]);
    // Section address + symbol value + addend.
    assert_eq!(patches[1].code, (BASE + 16 + 1 + 1).to_le_bytes());
}

#[test]
fn table_slots_hold_addresses_and_are_shared() {
    let relocs = vec![
        rel(3, R_X86_64_GOTPCREL, 5, -4),
        rel(10, R_X86_64_GOTPCREL, 5, -4),
        rel(17, R_X86_64_GOTPCREL, 6, -4),
    ];
    let obj = object(
        vec![(1, splice(BEGIN, BEGIN + 32, &[0; 24], relocs))],
        vec![(5, absolute("A", 0x1122334455667788)), (6, absolute("B", 0x99))],
    );
    let (blob, patches) = link(&obj, X86_64).unwrap();
    assert_eq!(blob.len(), 16);
    assert_eq!(blob[..8], 0x1122334455667788u64.to_le_bytes());
    assert_eq!(blob[8..], 0x99u64.to_le_bytes());
    let at = |off: usize| {
        let code = &patches[0].code;
        i32::from_le_bytes(code[off..off + 4].try_into().unwrap()) as i64
            + (BEGIN as i64 + off as i64 + 4)
    };
    assert_eq!(at(3), BASE as i64);
    assert_eq!(at(10), BASE as i64);
    assert_eq!(at(17), BASE as i64 + 8);
}

#[test]
fn references_between_injected_sections() {
    // The splice calls section 2, which points back at the splice and at itself.
    let obj = object(
        vec![
            (1, splice(BEGIN, BEGIN + 8, &[0xe8, 0, 0, 0, 0], vec![rel(1, R_X86_64_PLT32, 20, -4)])),
            (
                2,
                sec(
                    ".text.f",
                    &[0; 16],
                    vec![rel(0, R_X86_64_64, 10, 0), rel(8, R_X86_64_PC32, 20, 0)],
                ),
            ),
        ],
        vec![(10, in_section("s", 1, 0)), (20, in_section("f", 2, 0))],
    );
    let (blob, patches) = link(&obj, X86_64).unwrap();
    assert_eq!(blob[..8], BEGIN.to_le_bytes());
    assert_eq!(blob[8..12], (-8i32).to_le_bytes());
    let disp = (BASE as i64 - 4 - (BEGIN as i64 + 1)) as i32;
    assert_eq!(patches[0].code[1..], disp.to_le_bytes());
}

#[test]
fn oversized_splices_are_reached_by_a_jump() {
    let obj = object(
        vec![(1, splice(BEGIN, BEGIN + 5, &[0x90; 9], vec![rel(1, R_X86_64_64, 2, 0)]))],
        vec![(2, in_section("self", 1, 3))],
    );
    let (blob, patches) = link(&obj, X86_64).unwrap();
    assert_eq!(blob.len(), 9);
    assert_eq!(blob[1..], (BASE + 3).to_le_bytes());
    assert!(patches[0].trampoline);
    let mut jump = vec![0xe9];
    jump.extend(((BASE - BEGIN - 5) as i32).to_le_bytes());
    assert_eq!(patches[0].code, jump);
    // One byte less has no room for the jump.
    let obj = object(vec![(1, splice(BEGIN, BEGIN + 4, &[0x90; 9], vec![]))], vec![]);
    let e = refused(&obj, X86_64);
    assert!(matches!(e, Fault::SmallRegion { begin: BEGIN, jump_len: 5, .. }));
    assert_eq!(
        e.message(),
        "region 0x401000..0x401004 is too small for a 5-byte trampoline jump"
    );
    // Out of an ARM branch's reach.
    let arm = Machine { arch: Architecture::Arm, endian: Endian::Little, is_64: false };
    let obj = object(vec![(1, splice(0x8000_0000, 0x8000_0004, &[0; 8], vec![]))], vec![]);
    assert_eq!(refused(&obj, arm).message(), "Invalid address range: 0x80000000 to 0x500000");
    // Out of the reach of a 32-bit displacement.
    let far = 0x1_8000_0000;
    let obj = object(vec![(1, splice(far, far + 5, &[0; 8], vec![]))], vec![]);
    assert_eq!(refused(&obj, X86_64).message(), "Invalid address range: 0x180000000 to 0x500000");
}

#[test]
fn writable_sections_are_refused() {
    let mut data = sec(".data.x", &[0; 4], vec![]);
    data.writable = true;
    let obj = object(
        vec![(1, splice(BEGIN, BEGIN + 8, &[0; 8], vec![rel(0, R_X86_64_64, 2, 0)])), (4, data)],
        vec![(2, in_section("X", 4, 0))],
    );
    assert_eq!(
        refused(&obj, X86_64).message(),
        "splice references writable section \".data.x\"; injecting writable data \
         (mutable statics/.bss) is not yet supported"
    );
}

#[test]
fn undefined_symbols_bind_to_the_target() {
    let obj = object(
        vec![(1, splice(BEGIN, BEGIN + 8, &[0; 8], vec![rel(0, R_X86_64_64, 2, 0)]))],
        vec![(2, undefined("puts"))],
    );
    let tables = |symbols| {
        Externals::Tables(SymbolTables { symbols, dynamic: vec![], sections: vec![], plt: vec![] })
    };
    let found = tables(vec![entry("gets", 1, 5), entry("puts", 1, 0x400500)]);
    let (_, patches) = link_object(&obj, X86_64, &found, BASE, vec![], vec![]).unwrap();
    assert_eq!(patches[0].code, 0x400500u64.to_le_bytes());
    let run = |externals| link_object(&obj, X86_64, &externals, BASE, vec![], vec![]).unwrap_err();
    assert_eq!(run(tables(vec![])).message(), "unresolved external symbol \"puts\"");
    assert!(matches!(run(Externals::NotElf), Fault::NotElf));
    assert_eq!(run(Externals::Unreadable("broken".to_string())).message(), "broken");
}

#[test]
fn imports_are_found_in_the_procedure_linkage_table() {
    let tables = SymbolTables {
        symbols: vec![entry("undefined", 0, 7), entry("zero", 1, 0), entry("both", 1, 0x10)],
        dynamic: vec![entry("", 0, 0), entry("both", 2, 0x20), entry("puts", 0, 0)],
        sections: vec![
            SectionEntry(None, 1),
            SectionEntry(Some(".plt".to_string()), 0x1000),
            SectionEntry(Some(".plt".to_string()), 0x2000),
        ],
        plt: vec![1, 9, 2],
    };
    let find = |arch, name| resplice::image::find_symbol(&tables, arch, name);
    assert_eq!(find(Architecture::X86_64, "both"), Some(0x10));
    assert_eq!(find(Architecture::X86_64, "undefined"), None);
    assert_eq!(find(Architecture::X86_64, "zero"), None);
    assert_eq!(find(Architecture::X86, "puts"), Some(0x1000 + 16 + 2 * 16));
    assert_eq!(find(Architecture::Arm64, "puts"), Some(0x1000 + 32 + 2 * 16));
    assert_eq!(find(Architecture::Arm, "puts"), Some(0x1000 + 20 + 2 * 12));
    assert_eq!(find(Architecture::Mips, "puts"), Some(0x1000 + 32 + 2 * 16));
}

#[test]
fn objects_that_cannot_be_linked() {
    let one = |r| object(vec![(1, splice(BEGIN, BEGIN + 8, &[0; 8], vec![r]))], vec![
        (2, in_section("far", 77, 0)),
        (3, absolute("abs", 1)),
    ]);
    let e = refused(&one(rel(0, R_X86_64_64, 2, 0)), X86_64);
    assert!(matches!(e, Fault::UnknownSection { index: 77 }));
    assert_eq!(e.message(), "reference to unknown section 77");
    let e = refused(&one(rel(0, R_X86_64_64, 4, 0)), X86_64);
    assert_eq!(e.message(), "relocation references unknown symbol 4");
    let e = refused(&one(rel(0, 0xff, 3, 0)), X86_64);
    assert_eq!(e.message(), "relocation against \"abs\" in \".rspl.401000.401008\"");
    assert_eq!(
        e.report(),
        "relocation against \"abs\" in \".rspl.401000.401008\": \
         unsupported x86-64 relocation type 255"
    );
    let e = refused(&one(rel(1, R_X86_64_64, 3, 0)), X86_64);
    assert!(matches!(e, Fault::Relocation { why: RelocError::OutsideSection, .. }));
    let e = refused(&one(rel(u64::MAX, R_X86_64_64, 3, 0)), X86_64);
    assert!(matches!(e, Fault::Relocation { why: RelocError::OutsideSection, .. }));
    let arm = Machine { arch: Architecture::Arm, endian: Endian::Little, is_64: false };
    let mut far = rel(0, R_ARM_CALL, 3, 0);
    far.has_implicit = true;
    let e = refused(&one(far), arm);
    assert!(matches!(
        e,
        Fault::Relocation { why: RelocError::BranchRange { family: Family::Arm, .. }, .. }
    ));
    let obj = object(vec![(1, splice(8, 4, &[], vec![]))], vec![]);
    assert_eq!(refused(&obj, X86_64).message(), "Invalid address range: 0x8 to 0x4");
    // No room behind the highest address.
    let obj = object(vec![(1, splice(BEGIN, BEGIN + 5, &[0; 6], vec![]))], vec![]);
    let e = link_object(&obj, X86_64, &Externals::NotElf, u64::MAX, vec![0], vec![]).unwrap_err();
    assert!(matches!(e, Fault::AddressOverflow));
}

#[test]
fn the_halves_of_a_mips_address_fit_together() {
    let mips = Machine { arch: Architecture::Mips, endian: Endian::Big, is_64: false };
    // lui a0, 0; addiu a0, a0, -4: the low half is negative.
    let code = [0x3c, 0x04, 0, 0, 0x24, 0x84, 0xff, 0xfc];
    let half = |offset, r_type| Rel { offset, r_type, sym: 2, addend: 0, has_implicit: true };
    let obj = object(
        vec![(1, splice(0x1000, 0x1008, &code, vec![half(0, R_MIPS_HI16), half(4, R_MIPS_LO16)]))],
        vec![(2, absolute("x", 0x12348000))],
    );
    let (_, patches) = link(&obj, mips).unwrap();
    let high = u16::from_be_bytes(patches[0].code[2..4].try_into().unwrap());
    let low = u16::from_be_bytes(patches[0].code[6..8].try_into().unwrap()) as i16;
    assert_eq!(((high as i64) << 16) + low as i64, 0x12348000 - 4);
    assert_eq!((high, low), (0x1234, 0x7ffc));
    // A partner that does not fit in its section is refused.
    let obj = object(
        vec![(1, splice(0x1000, 0x1008, &code, vec![half(0, R_MIPS_HI16), half(6, R_MIPS_LO16)]))],
        vec![(2, absolute("x", 0x12348000))],
    );
    let e = refused(&obj, mips);
    assert!(matches!(e, Fault::Relocation { why: RelocError::OutsideSection, .. }));
}

#[test]
fn everything_that_a_splice_reaches_is_collected_once() {
    let refs = |syms: &[usize]| {
        syms.iter().map(|&s| rel(0, R_X86_64_64, s, 0)).collect::<Vec<Rel>>()
    };
    let obj = object(
        vec![
            (9, sec("unused", &[], refs(&[1]))),
            (1, splice(0, 8, &[0; 8], refs(&[2, 3, 2]))),
            (2, sec("b", &[], refs(&[4, 1]))),
            (3, sec("c", &[], refs(&[5, 3, 60]))),
            (4, sec("d", &[], refs(&[5]))),
            (5, sec("e", &[], refs(&[]))),
            (6, splice(8, 16, &[], refs(&[70]))),
        ],
        vec![
            (1, in_section("a", 1, 0)),
            (2, in_section("b", 2, 0)),
            (3, in_section("c", 3, 0)),
            (4, in_section("d", 4, 0)),
            (5, in_section("e", 5, 0)),
            (60, undefined("extern")),
        ],
    );
    assert_eq!(find_splices(&obj), [1, 6]);
    assert_eq!(collect(&obj).unwrap(), [1, 6, 2, 3, 5, 4]);
}

#[test]
fn replaced_sections_keep_their_place() {
    let mut obj = ObjectModel::new();
    obj.add_section(4, sec("a", &[1], vec![]));
    obj.add_section(2, sec("b", &[2], vec![]));
    obj.add_section(4, sec("c", &[3], vec![]));
    assert_eq!(obj.indices(), [4, 2]);
    assert_eq!(obj.section(4).unwrap().name, "c");
    assert!(obj.section(3).is_none());
    assert!(obj.symbol(0).is_none());
    obj.add_symbol(0, absolute("x", 6));
    assert_eq!(obj.symbol(0).unwrap().value, 6);
}

#[test]
fn padding_reaches_a_multiple() {
    for (len, align, expected) in [(0, 8, 0), (1, 8, 8), (8, 8, 8), (9, 8, 16), (5, 1, 5)] {
        let mut blob = vec![0xff; len];
        pad_to(&mut blob, align);
        assert_eq!(blob.len(), expected);
        assert!(blob[..len].iter().all(|&b| b == 0xff));
        assert!(blob[len..].iter().all(|&b| b == 0));
    }
}

fn raw_section(name: Option<&str>, kind: Kind, data: Result<Vec<u8>, String>) -> RawSection<Vec<u8>, String> {
    RawSection { index: 1, name: name.map(str::to_string), align: 0, kind, data }
}

fn raw_rel(r_type: Option<u32>, target: RawTarget<String>) -> RawRel<String> {
    RawRel { offset: 4, r_type, target, addend: 6, has_implicit: true }
}

#[test]
fn models_of_what_was_read() {
    let raw = RawObject {
        sections: vec![raw_section(Some(".rspl.10.20"), Kind::Other, Ok(vec![1, 2]))],
        relocs: vec![vec![raw_rel(Some(7), RawTarget::Symbol(3))]],
        symbols: HashMap::from([(
            3,
            Ok(RawSymbol { name: None, section: Some(1), value: 8, undefined: false }),
        )]),
    };
    let obj = build_model(&raw).unwrap();
    let s = obj.section(1).unwrap();
    assert_eq!(s.splice, Some((0x10, 0x20)));
    assert_eq!(s.bytes, [1, 2]);
    assert_eq!(s.align, 1);
    assert!(!s.writable);
    let expected = Rel { offset: 4, r_type: 7, sym: 3, addend: 6, has_implicit: true };
    assert_eq!(s.relocs, [expected]);
    let y = obj.symbol(3).unwrap();
    assert_eq!((y.name.as_str(), y.section, y.value, y.undefined), ("", Some(1), 8, false));
    for kind in [Kind::Data, Kind::UninitializedData] {
        let raw = RawObject {
            sections: vec![raw_section(None, kind, Err("unreadable".to_string()))],
            relocs: vec![vec![]],
            symbols: HashMap::new(),
        };
        let obj = build_model(&raw).unwrap();
        let s = obj.section(1).unwrap();
        assert!(s.writable);
        assert!(s.bytes.is_empty());
        assert_eq!(s.name, "");
    }
}

#[test]
fn relocations_that_cannot_be_read() {
    let build = |r, symbols| {
        let raw = RawObject {
            sections: vec![raw_section(Some(".text"), Kind::Other, Ok(vec![]))],
            relocs: vec![vec![r]],
            symbols,
        };
        build_model(&raw).err().unwrap().message()
    };
    assert_eq!(
        build(raw_rel(None, RawTarget::Symbol(1)), HashMap::new()),
        "non-ELF relocation in .text"
    );
    assert_eq!(
        build(raw_rel(Some(1), RawTarget::Other("Absolute".to_string())), HashMap::new()),
        "unsupported relocation target Absolute in .text"
    );
    assert_eq!(
        build(
            raw_rel(Some(1), RawTarget::Symbol(12)),
            HashMap::from([(12, Err("Invalid index".to_string()))])
        ),
        "bad symbol index 12 in .text: Invalid index"
    );
}

#[test]
fn the_machine_must_match_in_every_respect() {
    let id = |arch, endian, is_64| Identity::<String> { arch, endian, is_64 };
    assert!(verify_arch(&id(Ok(Architecture::X86_64), Endian::Little, true), X86_64).is_ok());
    for other in [
        id(Ok(Architecture::Arm64), Endian::Little, true),
        id(Ok(Architecture::X86_64), Endian::Big, true),
        id(Ok(Architecture::X86_64), Endian::Little, false),
    ] {
        assert!(matches!(verify_arch(&other, X86_64), Err(Fault::Mismatch { .. })));
    }
    let e = verify_arch(&id(Ok(Architecture::Mips), Endian::Big, false), X86_64).unwrap_err();
    assert_eq!(
        e.message(),
        "rlib is mips (BE, 32-bit) but target is x86-64 (LE, 64-bit)"
    );
    let e = verify_arch(&id(Err("Riscv64".to_string()), Endian::Little, true), X86_64).unwrap_err();
    assert_eq!(e.message(), "rlib has unsupported architecture Riscv64");
}
