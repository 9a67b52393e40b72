//! What the target image says of itself: its machine, its loadable segments and its symbols.
use crate::arch::Architecture;
use crate::bytes::{uint_at, Endian};
use crate::elf::{class_of, elf_ident, order_of, segments_of, table_inside};
use crate::error::{agrees, Error, Fault, Machine};
use crate::macho::{entry_is_outside, entry_overflows};
use crate::text::text_view;
use crate::word::wrap64;
use goblin::elf::{Elf, ProgramHeader, SectionHeader, Sym};
use goblin::mach::Mach;
use goblin::strtab::Strtab;
use goblin::Object;
use vstd::prelude::*;

verus! {

/// Supported binary formats
#[derive(Debug, Clone, Copy, PartialEq, Eq, Structural)]
pub enum BinaryFormat {
    Elf,
    Pe,
    MachO,
}

/// A program header, as far as mapping addresses needs it.
#[derive(Debug, Clone, Copy, PartialEq, Eq, Structural)]
pub struct Segment {
    pub p_type: u32,
    pub p_offset: u64,
    pub p_vaddr: u64,
    pub p_filesz: u64,
    pub p_memsz: u64,
}

/// A parsed image; `S` is the type of the list of segments.
#[derive(Debug)]
pub enum ImageOf<S> {
    Elf { machine: u16, is_64: bool, little_endian: bool, segments: S },
    Pe { machine: u16 },
    Mach { cputype: u32 },
    MachFat,
    Other,
}

pub type Image = ImageOf<Vec<Segment>>;

pub type ImageView = ImageOf<Seq<Segment>>;

impl View for ImageOf<Vec<Segment>> {
    type V = ImageView;

    open spec fn view(&self) -> ImageView {
        match *self {
            ImageOf::Elf { machine, is_64, little_endian, segments } => ImageOf::Elf {
                machine,
                is_64,
                little_endian,
                segments: segments@,
            },
            ImageOf::Pe { machine } => ImageOf::Pe { machine },
            ImageOf::Mach { cputype } => ImageOf::Mach { cputype },
            ImageOf::MachFat => ImageOf::MachFat,
            ImageOf::Other => ImageOf::Other,
        }
    }
}

/// What an image is. Of an ELF image the bytes themselves say the rest.
pub enum ImageKind {
    Elf,
    Pe { machine: u16 },
    Mach { cputype: u32 },
    MachFat,
    Other,
}

/// What `goblin::Object::parse` takes `data` for, or the text of its error.
pub uninterp spec fn image_of(data: Seq<u8>) -> Result<ImageKind, Seq<char>>;

/// The image that the bytes `data` of that kind are: an ELF image is what its header holds at its
/// fixed places, and the program headers that it announces.
pub open spec fn image_in(data: Seq<u8>, kind: ImageKind) -> ImageView {
    match kind {
        ImageKind::Elf => ImageOf::Elf {
            machine: uint_at(order_of(data), data, 0x12, 2) as u16,
            is_64: class_of(data),
            little_endian: order_of(data) == Endian::Little,
            segments: segments_of(data),
        },
        ImageKind::Pe { machine } => ImageOf::Pe { machine },
        ImageKind::Mach { cputype } => ImageOf::Mach { cputype },
        ImageKind::MachFat => ImageOf::MachFat,
        ImageKind::Other => ImageOf::Other,
    }
}

/// Whether `r` is the image that `data` is of the named kind, or the named error.
pub open spec fn is_image(
    r: Result<Image, String>,
    named: Result<ImageKind, Seq<char>>,
    data: Seq<u8>,
) -> bool {
    match r {
        Ok(i) => named matches Ok(kind) && i@ == image_in(data, kind),
        Err(e) => named == Err::<ImageKind, Seq<char>>(e@),
    }
}

/// Whether an image that is taken for an ELF image starts as one does, and holds all of its
/// program headers.
pub open spec fn is_whole(image: ImageView, data: Seq<u8>) -> bool {
    image is Elf ==> elf_ident(data, order_of(data), class_of(data)) && table_inside(data)
}

/// `goblin::Object::parse`: what it takes the bytes for, and its error, are a function of the
/// bytes alone. Of an ELF image the machine, the class, the byte order and the program headers
/// are kept, of a PE or Mach-O image the machine; an error is kept as its text. What is kept of
/// an ELF image is what the ELF header holds at its fixed places, and the program headers in
/// their order, all of which lie inside the file. It computes the address of a Mach-O entry point
/// without a test for overflow, so an image is left out where that address lies outside the
/// address space.
#[verifier::external_body]
fn parse_image(data: &[u8]) -> (r: Result<Image, String>)
    requires
        !entry_overflows(data@),
    ensures
        is_image(r, image_of(data@), data@),
        r matches Ok(image) ==> is_whole(image@, data@),
{
    let segment = |h: &ProgramHeader| Segment {
        p_type: h.p_type, p_offset: h.p_offset, p_vaddr: h.p_vaddr, p_filesz: h.p_filesz, p_memsz: h.p_memsz,
    };
    Ok(match Object::parse(data).map_err(|e| e.to_string())? {
        Object::Elf(elf) => ImageOf::Elf {
            machine: elf.header.e_machine,
            is_64: elf.is_64,
            little_endian: elf.little_endian,
            segments: elf.program_headers.iter().map(segment).collect(),
        },
        Object::PE(pe) => ImageOf::Pe { machine: pe.header.coff_header.machine },
        Object::Mach(Mach::Binary(m)) => ImageOf::Mach { cputype: m.header.cputype },
        Object::Mach(Mach::Fat(_)) => ImageOf::MachFat,
        _ => ImageOf::Other,
    })
}

/// What reading the image `data` answers: a Mach-O image without a usable entry point is
/// refused, any other is parsed.
pub open spec fn reading(data: Seq<u8>) -> Result<ImageView, Seq<char>> {
    if entry_overflows(data) {
        Err("entry point outside the address space"@)
    } else {
        match image_of(data) {
            Err(e) => Err(e),
            Ok(kind) => Ok(image_in(data, kind)),
        }
    }
}

/// Parse the image `data`.
fn read_image(data: &[u8]) -> (r: Result<Image, String>)
    ensures
        match r {
            Ok(i) => reading(data@) == Ok::<ImageView, Seq<char>>(i@),
            Err(e) => reading(data@) == Err::<ImageView, Seq<char>>(e@),
        },
        r matches Ok(image) ==> is_whole(image@, data@),
{
    if entry_is_outside(data) {
        return Err("entry point outside the address space".to_owned());
    }
    parse_image(data)
}

/// A symbol of the target: its name, the index of the section that defines it (0 where none
/// does), and its value. `N` is the type of names.
#[derive(Debug)]
pub struct SymbolEntry<N>(pub Option<N>, pub usize, pub u64);

/// A section of the target: its name and its address.
#[derive(Debug)]
pub struct SectionEntry<N>(pub Option<N>, pub u64);

/// The symbol tables of the target.
#[derive(Debug)]
pub struct SymbolTables {
    /// `.symtab`
    pub symbols: Vec<SymbolEntry<String>>,
    /// `.dynsym`
    pub dynamic: Vec<SymbolEntry<String>>,
    pub sections: Vec<SectionEntry<String>>,
    /// For each import through the PLT, the index of its symbol in `.dynsym`.
    pub plt: Vec<usize>,
}

/// The model of the symbol tables.
pub struct TablesView {
    pub symbols: Seq<SymbolEntry<Seq<char>>>,
    pub dynamic: Seq<SymbolEntry<Seq<char>>>,
    pub sections: Seq<SectionEntry<Seq<char>>>,
    pub plt: Seq<usize>,
}

impl View for SymbolEntry<String> {
    type V = SymbolEntry<Seq<char>>;

    open spec fn view(&self) -> SymbolEntry<Seq<char>> {
        SymbolEntry(text_view(self.0), self.1, self.2)
    }
}

impl View for SectionEntry<String> {
    type V = SectionEntry<Seq<char>>;

    open spec fn view(&self) -> SectionEntry<Seq<char>> {
        SectionEntry(text_view(self.0), self.1)
    }
}

/// The views of a list of symbols.
pub open spec fn symbols_view(entries: Seq<SymbolEntry<String>>) -> Seq<SymbolEntry<Seq<char>>> {
    entries.map_values(|e: SymbolEntry<String>| e@)
}

/// The views of a list of sections.
pub open spec fn sections_view(entries: Seq<SectionEntry<String>>) -> Seq<
    SectionEntry<Seq<char>>,
> {
    entries.map_values(|e: SectionEntry<String>| e@)
}

impl View for SymbolTables {
    type V = TablesView;

    open spec fn view(&self) -> TablesView {
        TablesView {
            symbols: symbols_view(self.symbols@),
            dynamic: symbols_view(self.dynamic@),
            sections: sections_view(self.sections@),
            plt: self.plt@,
        }
    }
}

/// The symbol tables that `goblin::elf::Elf::parse` finds in `data`, where it succeeds.
pub uninterp spec fn tables_of(data: Seq<u8>) -> Option<TablesView>;

/// `goblin::elf::Elf::parse`: its result is a function of the bytes alone. Kept of it are both
/// symbol tables with their names, the sections with their names and addresses, and the symbols
/// of the PLT relocations; which error it fails with is not kept. It does not fail on what
/// `goblin::Object::parse`, which calls it, takes for an ELF image.
#[verifier::external_body]
fn parse_tables(data: &[u8]) -> (r: Option<SymbolTables>)
    ensures
        match r {
            None => tables_of(data@) is None,
            Some(t) => tables_of(data@) == Some(t@),
        },
        image_of(data@) matches Ok(ImageKind::Elf) ==> r is Some,
{
    let elf = Elf::parse(data).ok()?;
    let entry = |names: &Strtab, s: Sym| SymbolEntry(
        names.get_at(s.st_name).map(str::to_owned),
        s.st_shndx,
        s.st_value,
    );
    let section = |h: &SectionHeader|
        SectionEntry(elf.shdr_strtab.get_at(h.sh_name).map(str::to_owned), h.sh_addr);
    Some(SymbolTables {
        symbols: elf.syms.iter().map(|s| entry(&elf.strtab, s)).collect(),
        dynamic: elf.dynsyms.iter().map(|s| entry(&elf.dynstrtab, s)).collect(),
        sections: elf.section_headers.iter().map(section).collect(),
        plt: elf.pltrelocs.iter().map(|r| r.r_sym).collect(),
    })
}

pub const PT_LOAD: u32 = 1;

pub const PT_NOTE: u32 = 4;

pub const EM_386: u16 = 3;

pub const EM_MIPS: u16 = 8;

pub const EM_ARM: u16 = 40;

pub const EM_X86_64: u16 = 62;

pub const EM_AARCH64: u16 = 183;

pub const COFF_MACHINE_X86: u16 = 0x14c;

pub const COFF_MACHINE_ARM: u16 = 0x1c0;

pub const COFF_MACHINE_X86_64: u16 = 0x8664;

pub const COFF_MACHINE_ARM64: u16 = 0xaa64;

pub const CPU_TYPE_X86: u32 = 7;

pub const CPU_TYPE_ARM: u32 = 12;

pub const CPU_TYPE_X86_64: u32 = 0x0100_0007;

pub const CPU_TYPE_ARM64: u32 = 0x0100_000c;

/// The architecture of an ELF machine number; that of MIPS depends on the class.
pub open spec fn elf_architecture(machine: u16, is_64: bool) -> Option<Architecture> {
    if machine == EM_386 {
        Some(Architecture::X86)
    } else if machine == EM_X86_64 {
        Some(Architecture::X86_64)
    } else if machine == EM_ARM {
        Some(Architecture::Arm)
    } else if machine == EM_AARCH64 {
        Some(Architecture::Arm64)
    } else if machine == EM_MIPS {
        if is_64 {
            Some(Architecture::Mips64)
        } else {
            Some(Architecture::Mips)
        }
    } else {
        None
    }
}

/// The architecture of a PE machine number.
pub open spec fn pe_architecture(machine: u16) -> Option<Architecture> {
    if machine == COFF_MACHINE_X86 {
        Some(Architecture::X86)
    } else if machine == COFF_MACHINE_X86_64 {
        Some(Architecture::X86_64)
    } else if machine == COFF_MACHINE_ARM {
        Some(Architecture::Arm)
    } else if machine == COFF_MACHINE_ARM64 {
        Some(Architecture::Arm64)
    } else {
        None
    }
}

/// The architecture of a Mach-O CPU type.
pub open spec fn mach_architecture(cputype: u32) -> Option<Architecture> {
    if cputype == CPU_TYPE_X86 {
        Some(Architecture::X86)
    } else if cputype == CPU_TYPE_X86_64 {
        Some(Architecture::X86_64)
    } else if cputype == CPU_TYPE_ARM {
        Some(Architecture::Arm)
    } else if cputype == CPU_TYPE_ARM64 {
        Some(Architecture::Arm64)
    } else {
        None
    }
}

/// The format and the machine of an image, where both are supported. A fat Mach-O image counts
/// as x86-64.
pub open spec fn identity(image: ImageView) -> Option<(BinaryFormat, Machine)> {
    match image {
        ImageOf::Elf { machine, is_64, little_endian, .. } => match elf_architecture(
            machine,
            is_64,
        ) {
            None => None,
            Some(arch) => {
                let endian = if little_endian {
                    Endian::Little
                } else {
                    Endian::Big
                };
                Some((BinaryFormat::Elf, Machine { arch, endian, is_64 }))
            },
        },
        ImageOf::Pe { machine } => match pe_architecture(machine) {
            None => None,
            Some(arch) => Some(
                (
                    BinaryFormat::Pe,
                    Machine { arch, endian: Endian::Little, is_64: arch.spec_is_64() },
                ),
            ),
        },
        ImageOf::Mach { cputype } => match mach_architecture(cputype) {
            None => None,
            Some(arch) => Some(
                (
                    BinaryFormat::MachO,
                    Machine { arch, endian: Endian::Little, is_64: arch.spec_is_64() },
                ),
            ),
        },
        ImageOf::MachFat => Some(
            (
                BinaryFormat::MachO,
                Machine { arch: Architecture::X86_64, endian: Endian::Little, is_64: true },
            ),
        ),
        ImageOf::Other => None,
    }
}

/// The format and the machine of an image, where both are supported.
pub fn identify(image: &Image) -> (r: Option<(BinaryFormat, Machine)>)
    ensures
        r == identity(image@),
{
    match image {
        ImageOf::Elf { machine, is_64, little_endian, .. } => {
            let machine: u16 = *machine;
            let is_64: bool = *is_64;
            let arch = if machine == EM_386 {
                Architecture::X86
            } else if machine == EM_X86_64 {
                Architecture::X86_64
            } else if machine == EM_ARM {
                Architecture::Arm
            } else if machine == EM_AARCH64 {
                Architecture::Arm64
            } else if machine == EM_MIPS {
                if is_64 {
                    Architecture::Mips64
                } else {
                    Architecture::Mips
                }
            } else {
                return None;
            };
            let endian = if *little_endian {
                Endian::Little
            } else {
                Endian::Big
            };
            Some((BinaryFormat::Elf, Machine { arch, endian, is_64 }))
        },
        ImageOf::Pe { machine } => {
            let machine: u16 = *machine;
            let arch = if machine == COFF_MACHINE_X86 {
                Architecture::X86
            } else if machine == COFF_MACHINE_X86_64 {
                Architecture::X86_64
            } else if machine == COFF_MACHINE_ARM {
                Architecture::Arm
            } else if machine == COFF_MACHINE_ARM64 {
                Architecture::Arm64
            } else {
                return None;
            };
            Some((BinaryFormat::Pe, Machine { arch, endian: Endian::Little, is_64: arch.is_64() }))
        },
        ImageOf::Mach { cputype } => {
            let cputype: u32 = *cputype;
            let arch = if cputype == CPU_TYPE_X86 {
                Architecture::X86
            } else if cputype == CPU_TYPE_X86_64 {
                Architecture::X86_64
            } else if cputype == CPU_TYPE_ARM {
                Architecture::Arm
            } else if cputype == CPU_TYPE_ARM64 {
                Architecture::Arm64
            } else {
                return None;
            };
            Some(
                (BinaryFormat::MachO, Machine { arch, endian: Endian::Little, is_64: arch.is_64() }),
            )
        },
        ImageOf::MachFat => Some(
            (
                BinaryFormat::MachO,
                Machine { arch: Architecture::X86_64, endian: Endian::Little, is_64: true },
            ),
        ),
        ImageOf::Other => None,
    }
}

/// What detection answers for the bytes `data`.
pub open spec fn detection(data: Seq<u8>) -> Result<(BinaryFormat, Machine), Fault<Seq<char>>> {
    match reading(data) {
        Err(cause) => Err(Fault::Image { cause }),
        Ok(image) => match identity(image) {
            None => Err(Fault::UnsupportedFormat),
            Some(found) => Ok(found),
        },
    }
}

/// Detect the format and the machine of the image `data`. The class and the byte order of an ELF
/// image are those that its first bytes announce.
pub fn detect(data: &[u8]) -> (r: Result<(BinaryFormat, Machine), Error>)
    ensures
        agrees(r, detection(data@)),
        r matches Ok((BinaryFormat::Elf, m)) ==> elf_ident(data@, m.endian, m.is_64),
{
    match read_image(data) {
        Err(cause) => Err(Fault::Image { cause }),
        Ok(image) => match identify(&image) {
            None => Err(Fault::UnsupportedFormat),
            Some(found) => Ok(found),
        },
    }
}

/// The segments that the program headers of the ELF image `data` describe. (What holds only part of
/// its program headers is not read as an ELF image.)
pub open spec fn elf_segments(data: Seq<u8>) -> Result<Seq<Segment>, Fault<Seq<char>>> {
    match reading(data) {
        Err(cause) => Err(Fault::Image { cause }),
        Ok(ImageOf::Elf { segments, .. }) if table_inside(data) => Ok(segments),
        Ok(_) => Err(Fault::NotElf),
    }
}

/// The segments that the program headers of the ELF image `data` describe (an error for other
/// formats): those in the table that its header announces.
pub fn read_segments(data: &[u8]) -> (r: Result<Vec<Segment>, Error>)
    ensures
        match r {
            Ok(s) => elf_segments(data@) == Ok::<Seq<Segment>, Fault<Seq<char>>>(s@),
            Err(e) => elf_segments(data@) == Err::<Seq<Segment>, Fault<Seq<char>>>(e@),
        },
        r matches Ok(s) ==> s@ == segments_of(data@) && table_inside(data@),
{
    match read_image(data) {
        Err(cause) => Err(Fault::Image { cause }),
        Ok(ImageOf::Elf { segments, .. }) => Ok(segments),
        Ok(_) => Err(Fault::NotElf),
    }
}

/// Whether the file holds the bytes of `va` through this segment.
pub open spec fn holds(segment: Segment, va: int) -> bool {
    segment.p_type == PT_LOAD && segment.p_vaddr <= va < segment.p_vaddr + segment.p_filesz
}

/// The file offset that the first segment holding `va` gives it.
pub open spec fn file_offset(segments: Seq<Segment>, va: int) -> Option<int>
    decreases segments.len(),
{
    if segments.len() == 0 {
        None
    } else if holds(segments[0], va) {
        Some(segments[0].p_offset + (va - segments[0].p_vaddr))
    } else {
        file_offset(segments.drop_first(), va)
    }
}

/// What translating `va` through `segments` answers.
pub open spec fn translation(segments: Seq<Segment>, va: u64) -> Result<usize, Fault<Seq<char>>> {
    match file_offset(segments, va as int) {
        None => Err(Fault::Unmapped { va }),
        Some(off) => if off <= usize::MAX {
            Ok(off as usize)
        } else {
            Err(Fault::AddressOverflow)
        },
    }
}

/// Translate a virtual address to a file offset through the first segment that holds it.
pub fn translate(segments: &[Segment], va: u64) -> (r: Result<usize, Error>)
    ensures
        agrees(r, translation(segments@, va)),
{
    let ghost goal = file_offset(segments@, va as int);
    let mut i: usize = 0;
    assert(segments@.skip(0) =~= segments@);
    while i < segments.len()
        invariant
            i <= segments@.len(),
            goal == file_offset(segments@, va as int),
            goal == file_offset(segments@.skip(i as int), va as int),
        decreases segments@.len() - i,
    {
        let s = segments[i];
        assert(segments@.skip(i as int)[0] == s);
        assert(segments@.skip(i as int).drop_first() =~= segments@.skip(i + 1));
        if s.p_type == PT_LOAD && va >= s.p_vaddr && va - s.p_vaddr < s.p_filesz {
            let wide: u128 = s.p_offset as u128 + (va - s.p_vaddr) as u128;
            if wide > usize::MAX as u128 {
                return Err(Fault::AddressOverflow);
            }
            return Ok(wide as usize);
        }
        i = i + 1;
    }
    Err(Fault::Unmapped { va })
}

/// The end of a segment in memory, 0 where it is not loaded.
pub open spec fn memory_end(segment: Segment) -> int {
    if segment.p_type == PT_LOAD {
        segment.p_vaddr + segment.p_memsz
    } else {
        0
    }
}

/// The highest end of a loaded segment, 0 where there is none.
pub open spec fn top(segments: Seq<Segment>) -> int
    decreases segments.len(),
{
    if segments.len() == 0 {
        0
    } else if top(segments.drop_last()) >= memory_end(segments.last()) {
        top(segments.drop_last())
    } else {
        memory_end(segments.last())
    }
}

/// The highest virtual address occupied by any loadable segment, where 64 bits can hold it.
pub fn max_vaddr(segments: &[Segment]) -> (r: Option<u64>)
    ensures
        match r {
            None => top(segments@) > u64::MAX,
            Some(t) => top(segments@) == t,
        },
{
    let mut best: u128 = 0;
    let mut i: usize = 0;
    while i < segments.len()
        invariant
            i <= segments@.len(),
            best == top(segments@.take(i as int)),
            best <= 2 * u64::MAX as u128,
        decreases segments@.len() - i,
    {
        let s = segments[i];
        assert(segments@.take(i + 1).drop_last() =~= segments@.take(i as int));
        if s.p_type == PT_LOAD {
            let end: u128 = s.p_vaddr as u128 + s.p_memsz as u128;
            if end > best {
                best = end;
            }
        }
        i = i + 1;
    }
    assert(segments@.take(i as int) =~= segments@);
    if best > u64::MAX as u128 {
        None
    } else {
        Some(best as u64)
    }
}

/// No loaded segment reaches above the top, and the top is reached unless it is zero.
pub proof fn law_top(segments: Seq<Segment>)
    ensures
        forall|i: int|
            0 <= i < segments.len() ==> memory_end(#[trigger] segments[i]) <= top(segments),
        top(segments) == 0 || exists|i: int|
            0 <= i < segments.len() && memory_end(#[trigger] segments[i]) == top(segments),
    decreases segments.len(),
{
    if segments.len() > 0 {
        let init = segments.drop_last();
        law_top(init);
        assert forall|i: int| 0 <= i < segments.len() implies memory_end(#[trigger] segments[i])
            <= top(segments) by {
            if i < init.len() {
                assert(init[i] == segments[i]);
            }
        }
        if top(segments) != 0 {
            if top(init) >= memory_end(segments.last()) {
                let i = choose|i: int| 0 <= i < init.len() && memory_end(#[trigger] init[i]) == top(init);
                assert(segments[i] == init[i]);
            } else {
                assert(segments[segments.len() - 1] == segments.last());
            }
        }
    }
}

/// The value of the first symbol of that name that its table defines (with a non-zero value).
pub open spec fn defined(entries: Seq<SymbolEntry<Seq<char>>>, name: Seq<char>) -> Option<u64>
    decreases entries.len(),
{
    if entries.len() == 0 {
        None
    } else if entries[0].1 != 0 && entries[0].2 != 0 && entries[0].0 == Some(name) {
        Some(entries[0].2)
    } else {
        defined(entries.drop_first(), name)
    }
}

/// The address of the first section of that name.
pub open spec fn section_address(
    sections: Seq<SectionEntry<Seq<char>>>,
    name: Seq<char>,
) -> Option<u64>
    decreases sections.len(),
{
    if sections.len() == 0 {
        None
    } else if sections[0].0 == Some(name) {
        Some(sections[0].1)
    } else {
        section_address(sections.drop_first(), name)
    }
}

/// The position, counted from `at`, of the first PLT import whose symbol has that name.
pub open spec fn import_index(
    plt: Seq<usize>,
    dynamic: Seq<SymbolEntry<Seq<char>>>,
    name: Seq<char>,
    at: nat,
) -> Option<nat>
    decreases plt.len(),
{
    if plt.len() == 0 {
        None
    } else if plt[0] < dynamic.len() && dynamic[plt[0] as int].0 == Some(name) {
        Some(at)
    } else {
        import_index(plt.drop_first(), dynamic, name, at + 1)
    }
}

/// The size of the PLT's header.
pub open spec fn plt_header(arch: Architecture) -> nat {
    match arch {
        Architecture::X86 | Architecture::X86_64 => 16,
        Architecture::Arm64 => 32,
        Architecture::Arm => 20,
        Architecture::Mips | Architecture::Mips64 => 32,
    }
}

/// The size of a PLT entry.
pub open spec fn plt_entry(arch: Architecture) -> nat {
    match arch {
        Architecture::Arm => 12,
        _ => 16,
    }
}

/// The address that the target gives a symbol: that of a definition (with a non-zero value) in
/// `.symtab`, else of one in `.dynsym`, else of the PLT entry of an import.
pub open spec fn lookup(tables: TablesView, arch: Architecture, name: Seq<char>) -> Option<u64> {
    match defined(tables.symbols, name) {
        Some(v) => Some(v),
        None => match defined(tables.dynamic, name) {
            Some(v) => Some(v),
            None => match section_address(tables.sections, ".plt"@) {
                None => None,
                Some(base) => match import_index(tables.plt, tables.dynamic, name, 0) {
                    None => None,
                    Some(i) => Some(wrap64(base + plt_header(arch) + i * plt_entry(arch))),
                },
            },
        },
    }
}

/// Whether an optional name is `name`.
fn is_named(entry: &Option<String>, name: &String) -> (r: bool)
    ensures
        r == (text_view(*entry) == Some(name@)),
{
    match entry {
        None => false,
        Some(n) => *n == *name,
    }
}

fn find_defined(entries: &Vec<SymbolEntry<String>>, name: &String) -> (r: Option<u64>)
    ensures
        r == defined(symbols_view(entries@), name@),
{
    let ghost all = symbols_view(entries@);
    let mut i: usize = 0;
    assert(all.skip(0) =~= all);
    while i < entries.len()
        invariant
            i <= entries@.len(),
            all == symbols_view(entries@),
            defined(all, name@) == defined(all.skip(i as int), name@),
        decreases entries@.len() - i,
    {
        let e = &entries[i];
        assert(all.skip(i as int)[0] == e@);
        assert(all.skip(i as int).drop_first() =~= all.skip(i + 1));
        if e.1 != 0 && e.2 != 0 && is_named(&e.0, name) {
            return Some(e.2);
        }
        i = i + 1;
    }
    None
}

fn find_section(entries: &Vec<SectionEntry<String>>, name: &String) -> (r: Option<u64>)
    ensures
        r == section_address(sections_view(entries@), name@),
{
    let ghost all = sections_view(entries@);
    let mut i: usize = 0;
    assert(all.skip(0) =~= all);
    while i < entries.len()
        invariant
            i <= entries@.len(),
            all == sections_view(entries@),
            section_address(all, name@) == section_address(all.skip(i as int), name@),
        decreases entries@.len() - i,
    {
        let e = &entries[i];
        assert(all.skip(i as int)[0] == e@);
        assert(all.skip(i as int).drop_first() =~= all.skip(i + 1));
        if is_named(&e.0, name) {
            return Some(e.1);
        }
        i = i + 1;
    }
    None
}

fn find_import(plt: &Vec<usize>, dynamic: &Vec<SymbolEntry<String>>, name: &String) -> (r: Option<
    usize,
>)
    ensures
        match r {
            None => import_index(plt@, symbols_view(dynamic@), name@, 0) is None,
            Some(i) => import_index(plt@, symbols_view(dynamic@), name@, 0) == Some(i as nat),
        },
{
    let ghost all = symbols_view(dynamic@);
    let mut i: usize = 0;
    assert(plt@.skip(0) =~= plt@);
    while i < plt.len()
        invariant
            i <= plt@.len(),
            all == symbols_view(dynamic@),
            import_index(plt@, all, name@, 0) == import_index(
                plt@.skip(i as int),
                all,
                name@,
                i as nat,
            ),
        decreases plt@.len() - i,
    {
        assert(plt@.skip(i as int).drop_first() =~= plt@.skip(i + 1));
        let sym: usize = plt[i];
        if sym < dynamic.len() {
            assert(all[sym as int] == dynamic@[sym as int]@);
            if is_named(&dynamic[sym].0, name) {
                return Some(i);
            }
        }
        i = i + 1;
    }
    None
}

/// Look a symbol name up among the target's own symbols and imports. A symbol with the value
/// zero does not count as defined.
///
/// The i-th PLT import maps to the stub at `base + header + i * entry`, whose sizes are
/// architecture-specific. (MIPS classically uses `.MIPS.stubs` rather than a `.plt` of this
/// shape; its import binding is best-effort.)
pub fn find_symbol(tables: &SymbolTables, arch: Architecture, name: &str) -> (r: Option<u64>)
    ensures
        r == lookup(tables@, arch, name@),
{
    let wanted = name.to_owned();
    if let Some(v) = find_defined(&tables.symbols, &wanted) {
        return Some(v);
    }
    if let Some(v) = find_defined(&tables.dynamic, &wanted) {
        return Some(v);
    }
    let (header, entry): (u64, u64) = match arch {
        Architecture::X86 | Architecture::X86_64 => (16, 16),
        Architecture::Arm64 => (32, 16),
        Architecture::Arm => (20, 12),
        Architecture::Mips | Architecture::Mips64 => (32, 16),
    };
    match find_section(&tables.sections, &".plt".to_owned()) {
        None => None,
        Some(base) => match find_import(&tables.plt, &tables.dynamic, &wanted) {
            None => None,
            Some(i) => {
                assert(0 <= i * entry <= i * 16) by (nonlinear_arith)
                    requires
                        0 <= entry <= 16,
                        0 <= i,
                ;
                let wide: u128 = base as u128 + header as u128 + i as u128 * entry as u128;
                assert(entry == plt_entry(arch));
                assert(wide == base + plt_header(arch) + i * plt_entry(arch));
                Some((wide % 0x1_0000_0000_0000_0000) as u64)
            },
        },
    }
}

/// What resolving `name` in the image `data` answers.
pub open spec fn target_symbol(data: Seq<u8>, arch: Architecture, name: Seq<char>) -> Result<
    Option<u64>,
    Fault<Seq<char>>,
> {
    match target_tables(data) {
        Err(e) => Err(e),
        Ok(tables) => Ok(lookup(tables, arch, name)),
    }
}

/// The symbol tables of the ELF image `data`.
pub open spec fn target_tables(data: Seq<u8>) -> Result<TablesView, Fault<Seq<char>>> {
    match elf_segments(data) {
        Err(e) => Err(e),
        Ok(_) => Ok(tables_of(data)->Some_0),
    }
}

/// The symbol tables of the ELF image `data` (an error for other formats).
pub fn read_tables(data: &[u8]) -> (r: Result<SymbolTables, Error>)
    ensures
        match r {
            Ok(t) => target_tables(data@) == Ok::<TablesView, Fault<Seq<char>>>(t@),
            Err(e) => target_tables(data@) == Err::<TablesView, Fault<Seq<char>>>(e@),
        },
{
    if let Err(e) = read_segments(data) {
        return Err(e);
    }
    match parse_tables(data) {
        None => Err(Fault::NotElf),
        Some(tables) => Ok(tables),
    }
}

} // verus!
