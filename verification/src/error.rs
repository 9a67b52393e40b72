//! What can go wrong, and how it is told.
use crate::arch::{describe, description, Architecture};
use crate::bytes::Endian;
use crate::reloc::{Family, RelocError, SlotUse};
use crate::text::{dec_text, hex_text, push_number, IntError};
use crate::word::{to_word, wrap64};
use vstd::prelude::*;

verus! {

/// An architecture, a byte order and a pointer width.
#[derive(Debug, Clone, Copy, PartialEq, Eq, Structural)]
pub struct Machine {
    pub arch: Architecture,
    pub endian: Endian,
    pub is_64: bool,
}

/// What can go wrong. `N` is the type of names and texts.
#[derive(Debug)]
pub enum Fault<N> {
    /// What the image parser says.
    Image { cause: N },
    /// Not one of the supported formats and machines.
    UnsupportedFormat,
    /// A range that does not hold what goes there.
    InvalidRange { begin: u64, end: u64 },
    /// Code longer than the region it replaces.
    TooLarge { code_len: usize, region_len: usize },
    /// A region that does not lie inside the file.
    OutsideBinary { begin: u64, end: u64 },
    /// Only ELF images have the tables that linking needs.
    NotElf,
    /// No loadable segment holds the address in the file.
    Unmapped { va: u64 },
    /// An address or an offset that its type cannot hold.
    AddressOverflow,
    /// A segment can only start on a page.
    MisalignedBase { base: u64 },
    /// The header is not that of an ELF file of the expected class and byte order.
    NotInjectable,
    /// Program headers of an unknown layout.
    EntrySize { size: u64 },
    /// Nothing to convert, and file content right behind the table (or none to bound it).
    NoRoom { first_claimed: u64, table_end: u64 },
    /// Nothing to convert, and too little room behind the table.
    NoPadding { gap: u64, needed: u64 },
    /// The header count is at its limit.
    TooManyHeaders,
    /// The program-header table runs past the end of the file.
    TruncatedHeaders,
    /// A splice section name without a second address.
    MalformedName { name: N },
    /// A splice section name whose first address is no hexadecimal number.
    InvalidBegin { name: N, reason: IntError },
    /// A splice section name whose second address is no hexadecimal number.
    InvalidEnd { name: N, reason: IntError },
    /// The rlib is no archive.
    Archive { cause: N },
    /// An archive member header is broken.
    Member { cause: N },
    /// An archive member has no data.
    MemberData { cause: N },
    /// A splice section has no readable data.
    SectionData { name: N, cause: N },
    /// An object for a machine that the library does not know.
    UnsupportedArchitecture { name: N },
    /// An object for another machine than the target's.
    Mismatch { object: Machine, target: Machine },
    /// A relocation that does not come from an ELF object.
    NonElfRelocation { section: N },
    /// A relocation against something other than a symbol.
    RelocationTarget { target_text: N, section: N },
    /// A relocation against a symbol that cannot be read.
    BadSymbol { symbol: usize, section: N, cause: N },
    /// Data that must be writable cannot be injected.
    WritableSection { name: N },
    /// A symbol in a section that the object does not have.
    UnknownSection { index: usize },
    /// A relocation against a symbol that was not read.
    UnknownSymbol { symbol: usize },
    /// A symbol in a section without an address.
    UnlaidSection { name: N },
    /// A symbol that neither the object nor the target defines.
    Unresolved { name: N },
    /// A relocation that cannot be applied.
    Relocation { symbol_name: N, section: N, why: RelocError },
    /// A region that cannot even hold a jump.
    SmallRegion { begin: u64, end: u64, jump_len: usize },
}

/// The error of every fallible operation.
pub type Error = Fault<String>;

impl View for Fault<String> {
    type V = Fault<Seq<char>>;

    open spec fn view(&self) -> Fault<Seq<char>> {
        match *self {
            Fault::Image { cause } => Fault::Image { cause: cause@ },
            Fault::UnsupportedFormat  => Fault::UnsupportedFormat ,
            Fault::InvalidRange { begin, end } => Fault::InvalidRange { begin, end },
            Fault::TooLarge { code_len, region_len } => Fault::TooLarge { code_len, region_len },
            Fault::OutsideBinary { begin, end } => Fault::OutsideBinary { begin, end },
            Fault::NotElf  => Fault::NotElf ,
            Fault::Unmapped { va } => Fault::Unmapped { va },
            Fault::AddressOverflow  => Fault::AddressOverflow ,
            Fault::MisalignedBase { base } => Fault::MisalignedBase { base },
            Fault::NotInjectable  => Fault::NotInjectable ,
            Fault::EntrySize { size } => Fault::EntrySize { size },
            Fault::NoRoom { first_claimed, table_end } => Fault::NoRoom { first_claimed, table_end },
            Fault::NoPadding { gap, needed } => Fault::NoPadding { gap, needed },
            Fault::TooManyHeaders  => Fault::TooManyHeaders ,
            Fault::TruncatedHeaders  => Fault::TruncatedHeaders ,
            Fault::MalformedName { name } => Fault::MalformedName { name: name@ },
            Fault::InvalidBegin { name, reason } => Fault::InvalidBegin { name: name@, reason },
            Fault::InvalidEnd { name, reason } => Fault::InvalidEnd { name: name@, reason },
            Fault::Archive { cause } => Fault::Archive { cause: cause@ },
            Fault::Member { cause } => Fault::Member { cause: cause@ },
            Fault::MemberData { cause } => Fault::MemberData { cause: cause@ },
            Fault::SectionData { name, cause } => Fault::SectionData { name: name@, cause: cause@ },
            Fault::UnsupportedArchitecture { name } => Fault::UnsupportedArchitecture { name: name@ },
            Fault::Mismatch { object, target } => Fault::Mismatch { object, target },
            Fault::NonElfRelocation { section } => Fault::NonElfRelocation { section: section@ },
            Fault::RelocationTarget { target_text, section } => Fault::RelocationTarget { target_text: target_text@, section: section@ },
            Fault::BadSymbol { symbol, section, cause } => Fault::BadSymbol { symbol, section: section@, cause: cause@ },
            Fault::WritableSection { name } => Fault::WritableSection { name: name@ },
            Fault::UnknownSection { index } => Fault::UnknownSection { index },
            Fault::UnknownSymbol { symbol } => Fault::UnknownSymbol { symbol },
            Fault::UnlaidSection { name } => Fault::UnlaidSection { name: name@ },
            Fault::Unresolved { name } => Fault::Unresolved { name: name@ },
            Fault::Relocation { symbol_name, section, why } => Fault::Relocation { symbol_name: symbol_name@, section: section@, why },
            Fault::SmallRegion { begin, end, jump_len } => Fault::SmallRegion { begin, end, jump_len },
        }
    }
}

/// Whether `r` is the result `goal`, with its error taken by its view.
pub open spec fn agrees<T>(r: Result<T, Error>, goal: Result<T, Fault<Seq<char>>>) -> bool {
    match r {
        Ok(v) => goal == Ok::<T, Fault<Seq<char>>>(v),
        Err(e) => goal == Err::<T, Fault<Seq<char>>>(e@),
    }
}

/// How Rust's `Debug` shows the text `s`: between quotes, with escapes.
pub uninterp spec fn debug_text(s: Seq<char>) -> Seq<char>;

/// `<str as Debug>::fmt`, through `format!`. The result is named, not spelled out.
#[verifier::external_body]
pub(crate) fn quoted(s: &str) -> (r: String)
    ensures
        r@ == debug_text(s@),
{
    format!("{:?}", s)
}

/// `n` in hexadecimal with its prefix.
pub open spec fn hex_literal(n: nat) -> Seq<char> {
    "0x"@ + hex_text(n)
}

pub fn push_hex(out: &mut String, n: u64)
    ensures
        final(out)@ == old(out)@ + hex_literal(n as nat),
{
    out.append("0x");
    push_number(out, n, 16);
    assert(out@ =~= old(out)@ + hex_literal(n as nat));
}

/// How a failure to read a number is told.
pub open spec fn int_error_text(e: IntError) -> Seq<char> {
    match e {
        IntError::Empty => "cannot parse integer from empty string"@,
        IntError::InvalidDigit => "invalid digit found in string"@,
        IntError::TooLarge => "number too large to fit in target type"@,
    }
}

impl IntError {
    /// How this failure is told.
    pub fn message(self) -> (r: String)
        ensures
            r@ == int_error_text(self),
    {
        let t = match self {
            IntError::Empty => "cannot parse integer from empty string",
            IntError::InvalidDigit => "invalid digit found in string",
            IntError::TooLarge => "number too large to fit in target type",
        };
        t.to_owned()
    }
}

/// What a relocation family is called.
pub open spec fn family_name(family: Family) -> Seq<char> {
    match family {
        Family::X86_64 => "x86-64"@,
        Family::Aarch64 => "aarch64"@,
        Family::Arm => "arm"@,
        Family::Mips => "mips"@,
    }
}

/// What a reference through the global offset table is called.
pub open spec fn slot_name(slot: SlotUse) -> Seq<char> {
    match slot {
        SlotUse::GotPcRel => "GOTPCREL"@,
        SlotUse::AdrGotPage => "ADR_GOT_PAGE"@,
        SlotUse::Ld64GotLo12 => "LD64_GOT_LO12"@,
        SlotUse::ArmGotPrel => "R_ARM_GOT_PREL"@,
    }
}

/// How a failure to relocate is told.
pub open spec fn reloc_error_text(e: RelocError) -> Seq<char> {
    match e {
        RelocError::Unsupported { family, r_type } => {
            let t = "unsupported "@ + family_name(family) + " relocation type "@ + dec_text(
                r_type as nat,
            );
            if family == Family::Mips {
                t + " (note: $gp-relative GOT relocations that bind new symbols are not supported by segment injection)"@
            } else {
                t
            }
        },
        RelocError::MissingSlot { slot } => "missing GOT slot for "@ + slot_name(slot),
        RelocError::BranchRange { family, target } => family_name(family) + " branch target "@
            + hex_literal(wrap64(target as int) as nat) + " out of range"@,
        RelocError::PageRange { displacement } => "aarch64 ADRP displacement "@ + hex_literal(
            wrap64(displacement as int) as nat,
        ) + " out of range"@,
        RelocError::OutsideSection => "relocated field lies outside its section"@,
    }
}

fn name_of_family(family: Family) -> (r: &'static str)
    ensures
        r@ == family_name(family),
{
    match family {
        Family::X86_64 => "x86-64",
        Family::Aarch64 => "aarch64",
        Family::Arm => "arm",
        Family::Mips => "mips",
    }
}

impl RelocError {
    /// How this failure is told.
    pub fn message(self) -> (r: String)
        ensures
            r@ == reloc_error_text(self),
    {
        let mut t = String::new();
        match self {
            RelocError::Unsupported { family, r_type } => {
                t.append("unsupported ");
                t.append(name_of_family(family));
                t.append(" relocation type ");
                push_number(&mut t, r_type as u64, 10);
                if family == Family::Mips {
                    t.append(
                        " (note: $gp-relative GOT relocations that bind new symbols are not supported by segment injection)",
                    );
                }
            },
            RelocError::MissingSlot { slot } => {
                t.append("missing GOT slot for ");
                t.append(
                    match slot {
                        SlotUse::GotPcRel => "GOTPCREL",
                        SlotUse::AdrGotPage => "ADR_GOT_PAGE",
                        SlotUse::Ld64GotLo12 => "LD64_GOT_LO12",
                        SlotUse::ArmGotPrel => "R_ARM_GOT_PREL",
                    },
                );
            },
            RelocError::BranchRange { family, target } => {
                t.append(name_of_family(family));
                t.append(" branch target ");
                push_hex(&mut t, to_word(target));
                t.append(" out of range");
            },
            RelocError::PageRange { displacement } => {
                t.append("aarch64 ADRP displacement ");
                push_hex(&mut t, to_word(displacement));
                t.append(" out of range");
            },
            RelocError::OutsideSection => {
                t.append("relocated field lies outside its section");
            },
        }
        assert(t@ =~= reloc_error_text(self));
        t
    }
}

/// How an error is told, without its cause.
pub open spec fn fault_text(e: Fault<Seq<char>>) -> Seq<char> {
    match e {
        Fault::Image { cause } => cause,
        Fault::UnsupportedFormat => "Unsupported binary format"@,
        Fault::InvalidRange { begin, end } => "Invalid address range: "@ + hex_literal(begin as nat) + " to "@ + hex_literal(end as nat),
        Fault::TooLarge { code_len, region_len } => "replacement ("@ + dec_text(code_len as nat) + " bytes) larger than region ("@ + dec_text(region_len as nat) + " bytes)"@,
        Fault::OutsideBinary { begin, end } => "patch region "@ + hex_literal(begin as nat) + ".."@ + hex_literal(end as nat) + " is outside the binary"@,
        Fault::NotElf => "relocation-aware splicing is only supported for ELF targets"@,
        Fault::Unmapped { va } => "virtual address "@ + hex_literal(va as nat) + " is not mapped by any PT_LOAD segment"@,
        Fault::AddressOverflow => "address arithmetic out of range"@,
        Fault::MisalignedBase { base } => "injected base "@ + hex_literal(base as nat) + " is not page-aligned"@,
        Fault::NotInjectable => "segment injection requires an ELF target"@,
        Fault::EntrySize { size } => "unexpected program-header entry size "@ + dec_text(size as nat),
        Fault::NoRoom { first_claimed, table_end } => "no PT_NOTE segment to convert, and no room to grow the program-header table (next file content starts at "@ + hex_literal(first_claimed as nat) + ", table ends at "@ + hex_literal(table_end as nat) + ")"@,
        Fault::NoPadding { gap, needed } => "no PT_NOTE segment to convert, and insufficient padding to add a new program header ("@ + dec_text(gap as nat) + " bytes available, "@ + dec_text(needed as nat) + " needed)"@,
        Fault::TooManyHeaders => "program header count overflow"@,
        Fault::TruncatedHeaders => "program-header table runs past the end of the file"@,
        Fault::MalformedName { name } => "malformed splice section name: "@ + debug_text(name),
        Fault::InvalidBegin { name, .. } => "invalid begin address in section "@ + debug_text(name),
        Fault::InvalidEnd { name, .. } => "invalid end address in section "@ + debug_text(name),
        Fault::Archive { .. } => "failed to parse rlib archive"@,
        Fault::Member { .. } => "failed to read archive member"@,
        Fault::MemberData { .. } => "failed to read member data"@,
        Fault::SectionData { name, .. } => "failed to read data of section "@ + debug_text(name),
        Fault::UnsupportedArchitecture { name } => "rlib has unsupported architecture "@ + name,
        Fault::Mismatch { object, target } => "rlib is "@ + description(object.arch, object.endian, object.is_64) + " but target is "@ + description(target.arch, target.endian, target.is_64),
        Fault::NonElfRelocation { section } => "non-ELF relocation in "@ + section,
        Fault::RelocationTarget { target_text, section } => "unsupported relocation target "@ + target_text + " in "@ + section,
        Fault::BadSymbol { symbol, section, cause } => "bad symbol index "@ + dec_text(symbol as nat) + " in "@ + section + ": "@ + cause,
        Fault::WritableSection { name } => "splice references writable section "@ + debug_text(name) + "; injecting writable data (mutable statics/.bss) is not yet supported"@,
        Fault::UnknownSection { index } => "reference to unknown section "@ + dec_text(index as nat),
        Fault::UnknownSymbol { symbol } => "relocation references unknown symbol "@ + dec_text(symbol as nat),
        Fault::UnlaidSection { name } => "symbol "@ + debug_text(name) + " in un-laid-out section"@,
        Fault::Unresolved { name } => "unresolved external symbol "@ + debug_text(name),
        Fault::Relocation { symbol_name, section, .. } => "relocation against "@ + debug_text(symbol_name) + " in "@ + debug_text(section),
        Fault::SmallRegion { begin, end, jump_len } => "region "@ + hex_literal(begin as nat) + ".."@ + hex_literal(end as nat) + " is too small for a "@ + dec_text(jump_len as nat) + "-byte trampoline jump"@,
    }
}

/// The cause that an error carries, as text.
pub open spec fn fault_cause(e: Fault<Seq<char>>) -> Option<Seq<char>> {
    match e {
        Fault::InvalidBegin { reason, .. } => Some(int_error_text(reason)),
        Fault::InvalidEnd { reason, .. } => Some(int_error_text(reason)),
        Fault::Archive { cause } => Some(cause),
        Fault::Member { cause } => Some(cause),
        Fault::MemberData { cause } => Some(cause),
        Fault::SectionData { cause, .. } => Some(cause),
        Fault::Relocation { why, .. } => Some(reloc_error_text(why)),
        _ => None,
    }
}

/// How an error is told together with its cause.
pub open spec fn report_text(e: Fault<Seq<char>>) -> Seq<char> {
    match fault_cause(e) {
        None => fault_text(e),
        Some(c) => fault_text(e) + ": "@ + c,
    }
}

impl Fault<String> {
    /// How this error is told, without its cause.
    #[verifier::rlimit(40)]
    pub fn message(&self) -> (r: String)
        ensures
            r@ == fault_text(self@),
    {
        let mut t = String::new();
        match self {
            Fault::Image { cause } => {
                t.append(cause.as_str());
                assert(t@ =~= fault_text(self@));
            },
            Fault::UnsupportedFormat => {
                t.append("Unsupported binary format");
                assert(t@ =~= fault_text(self@));
            },
            Fault::InvalidRange { begin, end } => {
                t.append("Invalid address range: ");
                push_hex(&mut t, *begin);
                t.append(" to ");
                push_hex(&mut t, *end);
                assert(t@ =~= fault_text(self@));
            },
            Fault::TooLarge { code_len, region_len } => {
                t.append("replacement (");
                push_number(&mut t, *code_len as u64, 10);
                t.append(" bytes) larger than region (");
                push_number(&mut t, *region_len as u64, 10);
                t.append(" bytes)");
                assert(t@ =~= fault_text(self@));
            },
            Fault::OutsideBinary { begin, end } => {
                t.append("patch region ");
                push_hex(&mut t, *begin);
                t.append("..");
                push_hex(&mut t, *end);
                t.append(" is outside the binary");
                assert(t@ =~= fault_text(self@));
            },
            Fault::NotElf => {
                t.append("relocation-aware splicing is only supported for ELF targets");
                assert(t@ =~= fault_text(self@));
            },
            Fault::Unmapped { va } => {
                t.append("virtual address ");
                push_hex(&mut t, *va);
                t.append(" is not mapped by any PT_LOAD segment");
                assert(t@ =~= fault_text(self@));
            },
            Fault::AddressOverflow => {
                t.append("address arithmetic out of range");
                assert(t@ =~= fault_text(self@));
            },
            Fault::MisalignedBase { base } => {
                t.append("injected base ");
                push_hex(&mut t, *base);
                t.append(" is not page-aligned");
                assert(t@ =~= fault_text(self@));
            },
            Fault::NotInjectable => {
                t.append("segment injection requires an ELF target");
                assert(t@ =~= fault_text(self@));
            },
            Fault::EntrySize { size } => {
                t.append("unexpected program-header entry size ");
                push_number(&mut t, *size as u64, 10);
                assert(t@ =~= fault_text(self@));
            },
            Fault::NoRoom { first_claimed, table_end } => {
                t.append("no PT_NOTE segment to convert, and no room to grow the program-header table (next file content starts at ");
                push_hex(&mut t, *first_claimed);
                t.append(", table ends at ");
                push_hex(&mut t, *table_end);
                t.append(")");
                assert(t@ =~= fault_text(self@));
            },
            Fault::NoPadding { gap, needed } => {
                t.append("no PT_NOTE segment to convert, and insufficient padding to add a new program header (");
                push_number(&mut t, *gap as u64, 10);
                t.append(" bytes available, ");
                push_number(&mut t, *needed as u64, 10);
                t.append(" needed)");
                assert(t@ =~= fault_text(self@));
            },
            Fault::TooManyHeaders => {
                t.append("program header count overflow");
                assert(t@ =~= fault_text(self@));
            },
            Fault::TruncatedHeaders => {
                t.append("program-header table runs past the end of the file");
                assert(t@ =~= fault_text(self@));
            },
            Fault::MalformedName { name } => {
                t.append("malformed splice section name: ");
                t.append(quoted(name.as_str()).as_str());
                assert(t@ =~= fault_text(self@));
            },
            Fault::InvalidBegin { name, .. } => {
                t.append("invalid begin address in section ");
                t.append(quoted(name.as_str()).as_str());
                assert(t@ =~= fault_text(self@));
            },
            Fault::InvalidEnd { name, .. } => {
                t.append("invalid end address in section ");
                t.append(quoted(name.as_str()).as_str());
                assert(t@ =~= fault_text(self@));
            },
            Fault::Archive { .. } => {
                t.append("failed to parse rlib archive");
                assert(t@ =~= fault_text(self@));
            },
            Fault::Member { .. } => {
                t.append("failed to read archive member");
                assert(t@ =~= fault_text(self@));
            },
            Fault::MemberData { .. } => {
                t.append("failed to read member data");
                assert(t@ =~= fault_text(self@));
            },
            Fault::SectionData { name, .. } => {
                t.append("failed to read data of section ");
                t.append(quoted(name.as_str()).as_str());
                assert(t@ =~= fault_text(self@));
            },
            Fault::UnsupportedArchitecture { name } => {
                t.append("rlib has unsupported architecture ");
                t.append(name.as_str());
                assert(t@ =~= fault_text(self@));
            },
            Fault::Mismatch { object, target } => {
                t.append("rlib is ");
                t.append(describe(object.arch, object.endian, object.is_64).as_str());
                t.append(" but target is ");
                t.append(describe(target.arch, target.endian, target.is_64).as_str());
                assert(t@ =~= fault_text(self@));
            },
            Fault::NonElfRelocation { section } => {
                t.append("non-ELF relocation in ");
                t.append(section.as_str());
                assert(t@ =~= fault_text(self@));
            },
            Fault::RelocationTarget { target_text, section } => {
                t.append("unsupported relocation target ");
                t.append(target_text.as_str());
                t.append(" in ");
                t.append(section.as_str());
                assert(t@ =~= fault_text(self@));
            },
            Fault::BadSymbol { symbol, section, cause } => {
                t.append("bad symbol index ");
                push_number(&mut t, *symbol as u64, 10);
                t.append(" in ");
                t.append(section.as_str());
                t.append(": ");
                t.append(cause.as_str());
                assert(t@ =~= fault_text(self@));
            },
            Fault::WritableSection { name } => {
                t.append("splice references writable section ");
                t.append(quoted(name.as_str()).as_str());
                t.append("; injecting writable data (mutable statics/.bss) is not yet supported");
                assert(t@ =~= fault_text(self@));
            },
            Fault::UnknownSection { index } => {
                t.append("reference to unknown section ");
                push_number(&mut t, *index as u64, 10);
                assert(t@ =~= fault_text(self@));
            },
            Fault::UnknownSymbol { symbol } => {
                t.append("relocation references unknown symbol ");
                push_number(&mut t, *symbol as u64, 10);
                assert(t@ =~= fault_text(self@));
            },
            Fault::UnlaidSection { name } => {
                t.append("symbol ");
                t.append(quoted(name.as_str()).as_str());
                t.append(" in un-laid-out section");
                assert(t@ =~= fault_text(self@));
            },
            Fault::Unresolved { name } => {
                t.append("unresolved external symbol ");
                t.append(quoted(name.as_str()).as_str());
                assert(t@ =~= fault_text(self@));
            },
            Fault::Relocation { symbol_name, section, .. } => {
                t.append("relocation against ");
                t.append(quoted(symbol_name.as_str()).as_str());
                t.append(" in ");
                t.append(quoted(section.as_str()).as_str());
                assert(t@ =~= fault_text(self@));
            },
            Fault::SmallRegion { begin, end, jump_len } => {
                t.append("region ");
                push_hex(&mut t, *begin);
                t.append("..");
                push_hex(&mut t, *end);
                t.append(" is too small for a ");
                push_number(&mut t, *jump_len as u64, 10);
                t.append("-byte trampoline jump");
                assert(t@ =~= fault_text(self@));
            },
        }
        t
    }

    /// How this error is told together with its cause.
    pub fn report(&self) -> (r: String)
        ensures
            r@ == report_text(self@),
    {
        let mut t = self.message();
        match self {
            Fault::InvalidBegin { reason, .. } => {
                t.append(": ");
                t.append(reason.message().as_str());
            },
            Fault::InvalidEnd { reason, .. } => {
                t.append(": ");
                t.append(reason.message().as_str());
            },
            Fault::Archive { cause } => {
                t.append(": ");
                t.append(cause.as_str());
            },
            Fault::Member { cause } => {
                t.append(": ");
                t.append(cause.as_str());
            },
            Fault::MemberData { cause } => {
                t.append(": ");
                t.append(cause.as_str());
            },
            Fault::SectionData { cause, .. } => {
                t.append(": ");
                t.append(cause.as_str());
            },
            Fault::Relocation { why, .. } => {
                t.append(": ");
                t.append(why.message().as_str());
            },
            _ => {},
        }
        assert(t@ =~= report_text(self@));
        t
    }
}

} // verus!
