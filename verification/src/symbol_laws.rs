//! What looking a name or an address up in the target finds.
use crate::arch::Architecture;
use crate::binary::mapped;
use crate::bytes::Endian;
use crate::elf::{class_of, elf_ident, order_of, segments_of};
use crate::error::{Fault, Machine};
use crate::image::{
    defined, detection, elf_segments, file_offset, identity, import_index, law_top, lookup, reading, section_address,
    target_symbol, target_tables, top, translation, BinaryFormat, ImageOf, ImageView, SectionEntry, Segment, SymbolEntry, TablesView,
};
use vstd::prelude::*;

verus! {

/// Whether a symbol entry is a definition of `name`: in some section, with a value.
pub open spec fn defines(e: SymbolEntry<Seq<char>>, name: Seq<char>) -> bool {
    e.0 == Some(name) && e.1 != 0 && e.2 != 0
}

/// Whether the `k`-th entry is the first definition of `name`.
pub open spec fn first_definition(
    entries: Seq<SymbolEntry<Seq<char>>>,
    name: Seq<char>,
    k: int,
) -> bool {
    &&& 0 <= k < entries.len()
    &&& defines(entries[k], name)
    &&& forall|j: int| 0 <= j < k ==> !defines(#[trigger] entries[j], name)
}

/// Whether no entry is a definition of `name`.
pub open spec fn undefined_in(entries: Seq<SymbolEntry<Seq<char>>>, name: Seq<char>) -> bool {
    forall|j: int| 0 <= j < entries.len() ==> !defines(#[trigger] entries[j], name)
}

/// Whether the `k`-th section is the first one called `name`.
pub open spec fn first_section(
    sections: Seq<SectionEntry<Seq<char>>>,
    name: Seq<char>,
    k: int,
) -> bool {
    &&& 0 <= k < sections.len()
    &&& sections[k].0 == Some(name)
    &&& forall|j: int| 0 <= j < k ==> (#[trigger] sections[j]).0 != Some(name)
}

/// Whether the PLT import of the symbol `sym` is that of `name`.
pub open spec fn imports(
    dynamic: Seq<SymbolEntry<Seq<char>>>,
    sym: usize,
    name: Seq<char>,
) -> bool {
    sym < dynamic.len() && dynamic[sym as int].0 == Some(name)
}

/// Whether the `i`-th PLT import is the first one of `name`.
pub open spec fn first_import(tables: TablesView, name: Seq<char>, i: int) -> bool {
    &&& 0 <= i < tables.plt.len()
    &&& imports(tables.dynamic, tables.plt[i], name)
    &&& forall|j: int| 0 <= j < i ==> !imports(tables.dynamic, #[trigger] tables.plt[j], name)
}

proof fn lemma_defined(entries: Seq<SymbolEntry<Seq<char>>>, name: Seq<char>, k: int)
    requires
        first_definition(entries, name, k),
    ensures
        defined(entries, name) == Some(entries[k].2),
    decreases k,
{
    if k > 0 {
        assert(!defines(entries[0], name));
        let rest = entries.drop_first();
        assert forall|j: int| 0 <= j < k - 1 implies !defines(#[trigger] rest[j], name) by {
            assert(rest[j] == entries[j + 1]);
        }
        lemma_defined(rest, name, k - 1);
    }
}

proof fn lemma_undefined(entries: Seq<SymbolEntry<Seq<char>>>, name: Seq<char>)
    requires
        undefined_in(entries, name),
    ensures
        defined(entries, name) is None,
    decreases entries.len(),
{
    if entries.len() > 0 {
        assert(!defines(entries[0], name));
        let rest = entries.drop_first();
        assert forall|j: int| 0 <= j < rest.len() implies !defines(#[trigger] rest[j], name) by {
            assert(rest[j] == entries[j + 1]);
        }
        lemma_undefined(rest, name);
    }
}

proof fn lemma_section(sections: Seq<SectionEntry<Seq<char>>>, name: Seq<char>, k: int)
    requires
        first_section(sections, name, k),
    ensures
        section_address(sections, name) == Some(sections[k].1),
    decreases k,
{
    if k > 0 {
        let rest = sections.drop_first();
        assert(sections[0].0 != Some(name));
        assert forall|j: int| 0 <= j < k - 1 implies (#[trigger] rest[j]).0 != Some(name) by {
            assert(rest[j] == sections[j + 1]);
        }
        lemma_section(rest, name, k - 1);
    }
}

proof fn lemma_no_section(sections: Seq<SectionEntry<Seq<char>>>, name: Seq<char>)
    requires
        forall|j: int| 0 <= j < sections.len() ==> (#[trigger] sections[j]).0 != Some(name),
    ensures
        section_address(sections, name) is None,
    decreases sections.len(),
{
    if sections.len() > 0 {
        let rest = sections.drop_first();
        assert(sections[0].0 != Some(name));
        assert forall|j: int| 0 <= j < rest.len() implies (#[trigger] rest[j]).0 != Some(name) by {
            assert(rest[j] == sections[j + 1]);
        }
        lemma_no_section(rest, name);
    }
}

proof fn lemma_import(
    plt: Seq<usize>,
    dynamic: Seq<SymbolEntry<Seq<char>>>,
    name: Seq<char>,
    at: nat,
    i: int,
)
    requires
        0 <= i < plt.len(),
        imports(dynamic, plt[i], name),
        forall|j: int| 0 <= j < i ==> !imports(dynamic, #[trigger] plt[j], name),
    ensures
        import_index(plt, dynamic, name, at) == Some((at + i) as nat),
    decreases i,
{
    if i > 0 {
        let rest = plt.drop_first();
        assert(!imports(dynamic, plt[0], name));
        assert forall|j: int| 0 <= j < i - 1 implies !imports(dynamic, #[trigger] rest[j], name) by {
            assert(rest[j] == plt[j + 1]);
        }
        lemma_import(rest, dynamic, name, at + 1, i - 1);
    }
}

proof fn lemma_no_import(
    plt: Seq<usize>,
    dynamic: Seq<SymbolEntry<Seq<char>>>,
    name: Seq<char>,
    at: nat,
)
    requires
        forall|j: int| 0 <= j < plt.len() ==> !imports(dynamic, #[trigger] plt[j], name),
    ensures
        import_index(plt, dynamic, name, at) is None,
    decreases plt.len(),
{
    if plt.len() > 0 {
        let rest = plt.drop_first();
        assert(!imports(dynamic, plt[0], name));
        assert forall|j: int| 0 <= j < rest.len() implies !imports(
            dynamic,
            #[trigger] rest[j],
            name,
        ) by {
            assert(rest[j] == plt[j + 1]);
        }
        lemma_no_import(rest, dynamic, name, at + 1);
    }
}

/// A name that `.symtab` defines has the value of its first definition there, whatever else the
/// target holds.
pub proof fn law_symbol_table_first(
    tables: TablesView,
    arch: Architecture,
    name: Seq<char>,
    k: int,
)
    requires
        first_definition(tables.symbols, name, k),
    ensures
        lookup(tables, arch, name) == Some(tables.symbols[k].2),
{
    lemma_defined(tables.symbols, name, k);
}

/// A name that `.symtab` does not define has the value of its first definition in `.dynsym`.
pub proof fn law_dynamic_symbols_next(
    tables: TablesView,
    arch: Architecture,
    name: Seq<char>,
    k: int,
)
    requires
        undefined_in(tables.symbols, name),
        first_definition(tables.dynamic, name, k),
    ensures
        lookup(tables, arch, name) == Some(tables.dynamic[k].2),
{
    lemma_undefined(tables.symbols, name);
    lemma_defined(tables.dynamic, name, k);
}

/// A name that neither table defines has the address of its stub: the `.plt` section starts with
/// a header, behind which the stubs stand one after the other in the order of the imports.
pub proof fn law_import_stub(
    tables: TablesView,
    arch: Architecture,
    name: Seq<char>,
    k: int,
    i: int,
)
    requires
        undefined_in(tables.symbols, name),
        undefined_in(tables.dynamic, name),
        first_section(tables.sections, ".plt"@, k),
        first_import(tables, name, i),
    ensures
        lookup(tables, arch, name) is Some,
        lookup(tables, arch, name)->0 as int == (tables.sections[k].1 + (match arch {
            Architecture::X86 | Architecture::X86_64 => 16 + 16 * i,
            Architecture::Arm64 => 32 + 16 * i,
            Architecture::Arm => 20 + 12 * i,
            Architecture::Mips | Architecture::Mips64 => 32 + 16 * i,
        })) % 0x1_0000_0000_0000_0000,
{
    lemma_undefined(tables.symbols, name);
    lemma_undefined(tables.dynamic, name);
    lemma_section(tables.sections, ".plt"@, k);
    lemma_import(tables.plt, tables.dynamic, name, 0, i);
}

/// How far behind the start of `.plt` the stub of an import lies does not depend on where `.plt`
/// is.
pub proof fn law_stubs_move_together(
    one: TablesView,
    other: TablesView,
    arch: Architecture,
    name: Seq<char>,
    k: int,
    m: int,
    i: int,
)
    requires
        undefined_in(one.symbols, name),
        undefined_in(other.symbols, name),
        undefined_in(one.dynamic, name),
        one.dynamic == other.dynamic,
        one.plt == other.plt,
        first_section(one.sections, ".plt"@, k),
        first_section(other.sections, ".plt"@, m),
        first_import(one, name, i),
    ensures
        lookup(one, arch, name) is Some,
        lookup(other, arch, name) is Some,
        (lookup(one, arch, name)->0 - one.sections[k].1) % 0x1_0000_0000_0000_0000 == (lookup(
            other,
            arch,
            name,
        )->0 - other.sections[m].1) % 0x1_0000_0000_0000_0000,
{
    assert(first_import(other, name, i));
    law_import_stub(one, arch, name, k, i);
    law_import_stub(other, arch, name, m, i);
    let w = 0x1_0000_0000_0000_0000int;
    let d = match arch {
        Architecture::X86 | Architecture::X86_64 => 16 + 16 * i,
        Architecture::Arm64 => 32 + 16 * i,
        Architecture::Arm => 20 + 12 * i,
        Architecture::Mips | Architecture::Mips64 => 32 + 16 * i,
    };
    let b = one.sections[k].1 as int;
    let c = other.sections[m].1 as int;
    vstd::arithmetic::div_mod::lemma_add_mod_noop_right(-b, b + d, w);
    vstd::arithmetic::div_mod::lemma_add_mod_noop_right(-c, c + d, w);
}

/// A name that the target neither defines nor imports, or imports without a `.plt` section, has
/// no address.
pub proof fn law_unknown_name(tables: TablesView, arch: Architecture, name: Seq<char>)
    requires
        undefined_in(tables.symbols, name),
        undefined_in(tables.dynamic, name),
        (forall|j: int|
            0 <= j < tables.sections.len() ==> (#[trigger] tables.sections[j]).0 != Some(".plt"@))
            || (forall|j: int|
            0 <= j < tables.plt.len() ==> !imports(tables.dynamic, #[trigger] tables.plt[j], name)),
    ensures
        lookup(tables, arch, name) is None,
{
    lemma_undefined(tables.symbols, name);
    lemma_undefined(tables.dynamic, name);
    if forall|j: int|
        0 <= j < tables.sections.len() ==> (#[trigger] tables.sections[j]).0 != Some(".plt"@) {
        lemma_no_section(tables.sections, ".plt"@);
    } else {
        lemma_no_import(tables.plt, tables.dynamic, name, 0);
    }
}

/// Whether the segment is loaded and the file holds its byte at `va`.
pub open spec fn backs(segment: Segment, va: int) -> bool {
    segment.p_type == 1 && segment.p_vaddr <= va && va - segment.p_vaddr < segment.p_filesz
}

proof fn lemma_file_offset(segments: Seq<Segment>, va: int, k: int)
    requires
        0 <= k < segments.len(),
        backs(segments[k], va),
        forall|j: int| 0 <= j < k ==> !backs(#[trigger] segments[j], va),
    ensures
        file_offset(segments, va) == Some(segments[k].p_offset + va - segments[k].p_vaddr),
    decreases k,
{
    if k > 0 {
        let rest = segments.drop_first();
        assert(!backs(segments[0], va));
        assert forall|j: int| 0 <= j < k - 1 implies !backs(#[trigger] rest[j], va) by {
            assert(rest[j] == segments[j + 1]);
        }
        lemma_file_offset(rest, va, k - 1);
    }
}

proof fn lemma_no_offset(segments: Seq<Segment>, va: int)
    requires
        forall|j: int| 0 <= j < segments.len() ==> !backs(#[trigger] segments[j], va),
    ensures
        file_offset(segments, va) is None,
    decreases segments.len(),
{
    if segments.len() > 0 {
        let rest = segments.drop_first();
        assert(!backs(segments[0], va));
        assert forall|j: int| 0 <= j < rest.len() implies !backs(#[trigger] rest[j], va) by {
            assert(rest[j] == segments[j + 1]);
        }
        lemma_no_offset(rest, va);
    }
}

/// An address is as far behind the start of the first loaded segment that holds it in the file as
/// its offset is behind that of the segment.
pub proof fn law_translated(segments: Seq<Segment>, va: u64, k: int)
    requires
        0 <= k < segments.len(),
        backs(segments[k], va as int),
        forall|j: int| 0 <= j < k ==> !backs(#[trigger] segments[j], va as int),
    ensures
        match translation(segments, va) {
            Ok(off) => off - segments[k].p_offset == va - segments[k].p_vaddr,
            Err(f) => f == Fault::<Seq<char>>::AddressOverflow && segments[k].p_offset + va
                - segments[k].p_vaddr > usize::MAX,
        },
{
    lemma_file_offset(segments, va as int, k);
}

/// An address that no loaded segment holds in the file has no offset.
pub proof fn law_untranslated(segments: Seq<Segment>, va: u64)
    requires
        forall|j: int| 0 <= j < segments.len() ==> !backs(#[trigger] segments[j], va as int),
    ensures
        translation(segments, va) == Err::<usize, Fault<Seq<char>>>(Fault::Unmapped { va }),
{
    lemma_no_offset(segments, va as int);
}

/// The top is the least address that no loaded segment reaches above in memory.
pub proof fn law_memory_top(segments: Seq<Segment>)
    ensures
        forall|i: int|
            0 <= i < segments.len() && (#[trigger] segments[i]).p_type == 1 ==> segments[i].p_vaddr
                + segments[i].p_memsz <= top(segments),
        top(segments) == 0 || exists|i: int|
            0 <= i < segments.len() && (#[trigger] segments[i]).p_type == 1 && segments[i].p_vaddr
                + segments[i].p_memsz == top(segments),
{
    law_top(segments);
}

/// An image is recognised by its machine number, and an ELF image keeps the class and the byte
/// order that it announces.
pub proof fn law_recognised(image: ImageView)
    ensures
        image matches ImageOf::Elf { machine, is_64, little_endian, .. } ==> {
            let endian = if little_endian {
                Endian::Little
            } else {
                Endian::Big
            };
            identity(image) == if machine == 3 {
                Some((BinaryFormat::Elf, Machine { arch: Architecture::X86, endian, is_64 }))
            } else if machine == 62 {
                Some((BinaryFormat::Elf, Machine { arch: Architecture::X86_64, endian, is_64 }))
            } else if machine == 40 {
                Some((BinaryFormat::Elf, Machine { arch: Architecture::Arm, endian, is_64 }))
            } else if machine == 183 {
                Some((BinaryFormat::Elf, Machine { arch: Architecture::Arm64, endian, is_64 }))
            } else if machine == 8 && is_64 {
                Some((BinaryFormat::Elf, Machine { arch: Architecture::Mips64, endian, is_64 }))
            } else if machine == 8 {
                Some((BinaryFormat::Elf, Machine { arch: Architecture::Mips, endian, is_64 }))
            } else {
                None
            }
        },
        image matches ImageOf::Pe { machine } ==> (identity(image) is Some <==> machine == 0x14c
            || machine == 0x8664 || machine == 0x1c0 || machine == 0xaa64),
        image matches ImageOf::Mach { cputype } ==> (identity(image) is Some <==> cputype == 7
            || cputype == 12 || cputype == 0x0100_0007 || cputype == 0x0100_000c),
        identity(image) matches Some((format, m)) ==> {
            &&& (format == BinaryFormat::Elf <==> image is Elf)
            &&& (format == BinaryFormat::Pe <==> image is Pe)
            &&& (!(image is Elf) ==> m.endian == Endian::Little && (m.is_64 <==> m.arch
                == Architecture::X86_64 || m.arch == Architecture::Arm64))
            &&& (image matches ImageOf::Pe { machine } ==> (m.arch == Architecture::X86 <==> machine
                == 0x14c) && (m.arch == Architecture::X86_64 <==> machine == 0x8664) && (m.arch
                == Architecture::Arm <==> machine == 0x1c0))
            &&& (image matches ImageOf::Mach { cputype } ==> (m.arch == Architecture::X86 <==> cputype
                == 7) && (m.arch == Architecture::X86_64 <==> cputype == 0x0100_0007) && (m.arch
                == Architecture::Arm <==> cputype == 12))
            &&& (image is MachFat ==> m.arch == Architecture::X86_64)
        },
{
}

/// An image that cannot be read is told with the reader's own cause, and one that is read but not
/// recognised as unsupported.
pub proof fn law_detected(data: Seq<u8>)
    ensures
        match reading(data) {
            Err(cause) => detection(data) == Err::<(BinaryFormat, Machine), Fault<Seq<char>>>(
                Fault::Image { cause },
            ) && elf_segments(data) == Err::<Seq<Segment>, Fault<Seq<char>>>(Fault::Image { cause }),
            Ok(image) => {
                &&& identity(image) matches Some(found) ==> detection(data) == Ok::<
                    (BinaryFormat, Machine),
                    Fault<Seq<char>>,
                >(found)
                &&& identity(image) is None ==> detection(data) == Err::<
                    (BinaryFormat, Machine),
                    Fault<Seq<char>>,
                >(Fault::UnsupportedFormat)
                &&& !(image is Elf) ==> elf_segments(data) == Err::<Seq<Segment>, Fault<Seq<char>>>(
                    Fault::NotElf,
                )
            },
        },
{
}

/// The first bytes of an ELF file say its byte order and its class.
pub proof fn law_announced(data: Seq<u8>, endian: Endian, is_64: bool)
    requires
        data.len() >= 6,
        data[0] == 0x7f && data[1] == 0x45 && data[2] == 0x4c && data[3] == 0x46,
        data[4] == (if is_64 {
            2u8
        } else {
            1u8
        }),
        data[5] == (match endian {
            Endian::Little => 1u8,
            Endian::Big => 2u8,
        }),
    ensures
        elf_ident(data, endian, is_64),
        order_of(data) == endian,
        class_of(data) == is_64,
{
}

/// A symbol is looked up in the tables of the target, for its architecture, where the target is
/// an ELF image.
pub proof fn law_target_symbol(data: Seq<u8>, arch: Architecture, name: Seq<char>)
    ensures
        match elf_segments(data) {
            Err(f) => target_symbol(data, arch, name) == Err::<Option<u64>, Fault<Seq<char>>>(f),
            Ok(_) => target_symbol(data, arch, name) == Ok::<Option<u64>, Fault<Seq<char>>>(
                lookup(target_tables(data)->Ok_0, arch, name),
            ),
        },
{
}

/// An address of an image is translated through the segments that its program headers describe.
pub proof fn law_mapped(data: Seq<u8>, va: u64)
    ensures
        match elf_segments(data) {
            Ok(segments) => segments == segments_of(data) && mapped(data, va) == translation(
                segments,
                va,
            ),
            Err(f) => mapped(data, va) == Err::<usize, Fault<Seq<char>>>(f),
        },
{
}

} // verus!
