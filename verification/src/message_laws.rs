//! What messages tell: the numbers and the names of what they are about, in their order.
use crate::arch::{description, Architecture};
use crate::bytes::Endian;
use crate::cli::applied_text;
use crate::error::{
    debug_text, fault_cause, fault_text, hex_literal, int_error_text, reloc_error_text, report_text,
    Fault,
};
use crate::link::Applied;
use crate::text::{dec_text, radix_text};
use vstd::prelude::*;

verus! {

/// Whether `text` holds `x`.
pub open spec fn tells(text: Seq<char>, x: Seq<char>) -> bool {
    exists|a: Seq<char>, b: Seq<char>| text == #[trigger] (a + x + b)
}

/// Whether `text` holds `x`, and `y` behind it.
pub open spec fn tells_both(text: Seq<char>, x: Seq<char>, y: Seq<char>) -> bool {
    exists|a: Seq<char>, b: Seq<char>, c: Seq<char>| text == #[trigger] (a + x + b + y + c)
}

/// Whether `text` holds `x`, `y` behind it, and `z` behind both.
pub open spec fn tells_three(text: Seq<char>, x: Seq<char>, y: Seq<char>, z: Seq<char>) -> bool {
    exists|a: Seq<char>, b: Seq<char>, c: Seq<char>, d: Seq<char>|
        text == #[trigger] (a + x + b + y + c + z + d)
}

/// `n` in hexadecimal behind `0x`.
pub open spec fn hex(n: u64) -> Seq<char> {
    seq!['0', 'x'] + radix_text(n as nat, 16)
}

/// `n` in decimal.
pub open spec fn dec(n: u64) -> Seq<char> {
    radix_text(n as nat, 10)
}

proof fn lemma_tells(text: Seq<char>, a: Seq<char>, x: Seq<char>, b: Seq<char>)
    requires
        text =~= a + x + b,
    ensures
        tells(text, x),
{
}

proof fn lemma_tells_both(
    text: Seq<char>,
    a: Seq<char>,
    x: Seq<char>,
    b: Seq<char>,
    y: Seq<char>,
    c: Seq<char>,
)
    requires
        text =~= a + x + b + y + c,
    ensures
        tells_both(text, x, y),
{
}

proof fn lemma_tells_three(
    text: Seq<char>,
    a: Seq<char>,
    x: Seq<char>,
    b: Seq<char>,
    y: Seq<char>,
    c: Seq<char>,
    z: Seq<char>,
    d: Seq<char>,
)
    requires
        text =~= a + x + b + y + c + z + d,
    ensures
        tells_three(text, x, y, z),
{
}

proof fn lemma_hex(n: u64)
    ensures
        hex_literal(n as nat) == hex(n),
        dec_text(n as nat) == dec(n),
{
    reveal_strlit("0x");
    assert("0x"@ =~= seq!['0', 'x']);
}

/// A message about a range or an address tells it in hexadecimal, beginning first, and one about
/// sizes tells what there is before what there should be.
pub proof fn law_numbers_told(e: Fault<Seq<char>>)
    ensures
        match e {
            Fault::InvalidRange { begin, end } => tells_both(fault_text(e), hex(begin), hex(end)),
            Fault::OutsideBinary { begin, end } => tells_both(fault_text(e), hex(begin), hex(end)),
            Fault::TooLarge { code_len, region_len } => tells_both(
                fault_text(e),
                dec(code_len as u64),
                dec(region_len as u64),
            ),
            Fault::Unmapped { va } => tells(fault_text(e), hex(va)),
            Fault::MisalignedBase { base } => tells(fault_text(e), hex(base)),
            Fault::EntrySize { size } => tells(fault_text(e), dec(size)),
            Fault::NoRoom { first_claimed, table_end } => tells_both(
                fault_text(e),
                hex(first_claimed),
                hex(table_end),
            ),
            Fault::NoPadding { gap, needed } => tells_both(fault_text(e), dec(gap), dec(needed)),
            Fault::UnknownSection { index } => tells(fault_text(e), dec(index as u64)),
            Fault::UnknownSymbol { symbol } => tells(fault_text(e), dec(symbol as u64)),
            Fault::SmallRegion { begin, end, jump_len } => tells_three(
                fault_text(e),
                hex(begin),
                hex(end),
                dec(jump_len as u64),
            ),
            _ => true,
        },
{
    let t = fault_text(e);
    let none = Seq::<char>::empty();
    match e {
        Fault::InvalidRange { begin, end } => {
            lemma_hex(begin);
            lemma_hex(end);
            lemma_tells_both(t, "Invalid address range: "@, hex(begin), " to "@, hex(end), none);
        },
        Fault::OutsideBinary { begin, end } => {
            lemma_hex(begin);
            lemma_hex(end);
            lemma_tells_both(
                t,
                "patch region "@,
                hex(begin),
                ".."@,
                hex(end),
                " is outside the binary"@,
            );
        },
        Fault::TooLarge { code_len, region_len } => {
            lemma_hex(code_len as u64);
            lemma_hex(region_len as u64);
            lemma_tells_both(
                t,
                "replacement ("@,
                dec(code_len as u64),
                " bytes) larger than region ("@,
                dec(region_len as u64),
                " bytes)"@,
            );
        },
        Fault::Unmapped { va } => {
            lemma_hex(va);
            lemma_tells(
                t,
                "virtual address "@,
                hex(va),
                " is not mapped by any PT_LOAD segment"@,
            );
        },
        Fault::MisalignedBase { base } => {
            lemma_hex(base);
            lemma_tells(t, "injected base "@, hex(base), " is not page-aligned"@);
        },
        Fault::EntrySize { size } => {
            lemma_hex(size);
            lemma_tells(t, "unexpected program-header entry size "@, dec(size), none);
        },
        Fault::NoRoom { first_claimed, table_end } => {
            lemma_hex(first_claimed);
            lemma_hex(table_end);
            lemma_tells_both(
                t,
                "no PT_NOTE segment to convert, and no room to grow the program-header table (next file content starts at "@,
                hex(first_claimed),
                ", table ends at "@,
                hex(table_end),
                ")"@,
            );
        },
        Fault::NoPadding { gap, needed } => {
            lemma_hex(gap);
            lemma_hex(needed);
            lemma_tells_both(
                t,
                "no PT_NOTE segment to convert, and insufficient padding to add a new program header ("@,
                dec(gap),
                " bytes available, "@,
                dec(needed),
                " needed)"@,
            );
        },
        Fault::UnknownSection { index } => {
            lemma_hex(index as u64);
            lemma_tells(t, "reference to unknown section "@, dec(index as u64), none);
        },
        Fault::UnknownSymbol { symbol } => {
            lemma_hex(symbol as u64);
            lemma_tells(t, "relocation references unknown symbol "@, dec(symbol as u64), none);
        },
        Fault::SmallRegion { begin, end, jump_len } => {
            lemma_hex(begin);
            lemma_hex(end);
            lemma_hex(jump_len as u64);
            lemma_tells_three(
                t,
                "region "@,
                hex(begin),
                ".."@,
                hex(end),
                " is too small for a "@,
                dec(jump_len as u64),
                "-byte trampoline jump"@,
            );
        },
        _ => {},
    }
}

/// A message about a section, a symbol or a machine tells its name, what is at fault first.
pub proof fn law_names_told(e: Fault<Seq<char>>)
    ensures
        match e {
            Fault::MalformedName { name } => tells(fault_text(e), debug_text(name)),
            Fault::InvalidBegin { name, .. } => tells(fault_text(e), debug_text(name)),
            Fault::InvalidEnd { name, .. } => tells(fault_text(e), debug_text(name)),
            Fault::SectionData { name, .. } => tells(fault_text(e), debug_text(name)),
            Fault::UnsupportedArchitecture { name } => tells(fault_text(e), name),
            Fault::Mismatch { object, target } => tells_both(
                fault_text(e),
                description(object.arch, object.endian, object.is_64),
                description(target.arch, target.endian, target.is_64),
            ),
            Fault::NonElfRelocation { section } => tells(fault_text(e), section),
            Fault::RelocationTarget { target_text, section } => tells_both(
                fault_text(e),
                target_text,
                section,
            ),
            Fault::BadSymbol { symbol, section, cause } => tells_three(
                fault_text(e),
                dec(symbol as u64),
                section,
                cause,
            ),
            Fault::WritableSection { name } => tells(fault_text(e), debug_text(name)),
            Fault::UnlaidSection { name } => tells(fault_text(e), debug_text(name)),
            Fault::Unresolved { name } => tells(fault_text(e), debug_text(name)),
            Fault::Relocation { symbol_name, section, .. } => tells_both(
                fault_text(e),
                debug_text(symbol_name),
                debug_text(section),
            ),
            Fault::Image { cause } => fault_text(e) == cause,
            _ => true,
        },
{
    let t = fault_text(e);
    let none = Seq::<char>::empty();
    match e {
        Fault::MalformedName { name } => lemma_tells(
            t,
            "malformed splice section name: "@,
            debug_text(name),
            none,
        ),
        Fault::InvalidBegin { name, .. } => lemma_tells(
            t,
            "invalid begin address in section "@,
            debug_text(name),
            none,
        ),
        Fault::InvalidEnd { name, .. } => lemma_tells(
            t,
            "invalid end address in section "@,
            debug_text(name),
            none,
        ),
        Fault::SectionData { name, .. } => lemma_tells(
            t,
            "failed to read data of section "@,
            debug_text(name),
            none,
        ),
        Fault::UnsupportedArchitecture { name } => lemma_tells(
            t,
            "rlib has unsupported architecture "@,
            name,
            none,
        ),
        Fault::Mismatch { object, target } => lemma_tells_both(
            t,
            "rlib is "@,
            description(object.arch, object.endian, object.is_64),
            " but target is "@,
            description(target.arch, target.endian, target.is_64),
            none,
        ),
        Fault::NonElfRelocation { section } => lemma_tells(
            t,
            "non-ELF relocation in "@,
            section,
            none,
        ),
        Fault::RelocationTarget { target_text, section } => lemma_tells_both(
            t,
            "unsupported relocation target "@,
            target_text,
            " in "@,
            section,
            none,
        ),
        Fault::BadSymbol { symbol, section, cause } => {
            lemma_hex(symbol as u64);
            lemma_tells_three(
                t,
                "bad symbol index "@,
                dec(symbol as u64),
                " in "@,
                section,
                ": "@,
                cause,
                none,
            );
        },
        Fault::WritableSection { name } => lemma_tells(
            t,
            "splice references writable section "@,
            debug_text(name),
            "; injecting writable data (mutable statics/.bss) is not yet supported"@,
        ),
        Fault::UnlaidSection { name } => lemma_tells(
            t,
            "symbol "@,
            debug_text(name),
            " in un-laid-out section"@,
        ),
        Fault::Unresolved { name } => lemma_tells(
            t,
            "unresolved external symbol "@,
            debug_text(name),
            none,
        ),
        Fault::Relocation { symbol_name, section, .. } => lemma_tells_both(
            t,
            "relocation against "@,
            debug_text(symbol_name),
            " in "@,
            debug_text(section),
            none,
        ),
        _ => {},
    }
}

/// A report is the message, and behind it the cause where there is one: what kept a number from
/// being read or a relocation from being applied, or what the archive or the section reader said.
pub proof fn law_causes_told(e: Fault<Seq<char>>)
    ensures
        match e {
            Fault::InvalidBegin { reason, .. } => report_text(e) == fault_text(e) + ": "@
                + int_error_text(reason),
            Fault::InvalidEnd { reason, .. } => report_text(e) == fault_text(e) + ": "@
                + int_error_text(reason),
            Fault::Archive { cause } => report_text(e) == fault_text(e) + ": "@ + cause,
            Fault::Member { cause } => report_text(e) == fault_text(e) + ": "@ + cause,
            Fault::MemberData { cause } => report_text(e) == fault_text(e) + ": "@ + cause,
            Fault::SectionData { cause, .. } => report_text(e) == fault_text(e) + ": "@ + cause,
            Fault::Relocation { why, .. } => report_text(e) == fault_text(e) + ": "@
                + reloc_error_text(why),
            _ => fault_cause(e) is None && report_text(e) == fault_text(e),
        },
{
}

/// The line of a splice that was applied tells its range, then the length of its code.
pub proof fn law_line_told(a: Applied)
    ensures
        tells_three(applied_text(a), hex(a.begin), hex(a.end), dec(a.code_len as u64)),
{
    lemma_hex(a.begin);
    lemma_hex(a.end);
    lemma_hex(a.code_len as u64);
    lemma_tells_three(
        applied_text(a),
        "  "@,
        hex(a.begin),
        ".."@,
        hex(a.end),
        " <- "@,
        dec(a.code_len as u64),
        if a.trampoline {
            " bytes"@ + " (trampoline to injected segment)"@
        } else {
            " bytes"@
        },
    );
}

/// The description of a machine tells its architecture, its byte order and its class.
pub proof fn law_machine_told(arch: Architecture, endian: Endian, is_64: bool)
    ensures
        tells_three(
            description(arch, endian, is_64),
            match arch {
                Architecture::X86 => "x86"@,
                Architecture::X86_64 => "x86-64"@,
                Architecture::Arm => "arm"@,
                Architecture::Arm64 => "aarch64"@,
                Architecture::Mips => "mips"@,
                Architecture::Mips64 => "mips64"@,
            },
            match endian {
                Endian::Little => "LE"@,
                Endian::Big => "BE"@,
            },
            if is_64 {
                "64-bit"@
            } else {
                "32-bit"@
            },
        ),
{
    let a = match arch {
        Architecture::X86 => "x86"@,
        Architecture::X86_64 => "x86-64"@,
        Architecture::Arm => "arm"@,
        Architecture::Arm64 => "aarch64"@,
        Architecture::Mips => "mips"@,
        Architecture::Mips64 => "mips64"@,
    };
    let e = match endian {
        Endian::Little => "LE"@,
        Endian::Big => "BE"@,
    };
    let c = if is_64 {
        "64-bit"@
    } else {
        "32-bit"@
    };
    lemma_tells_three(
        description(arch, endian, is_64),
        Seq::empty(),
        a,
        " ("@,
        e,
        ", "@,
        c,
        ")"@,
    );
}

} // verus!
