//! Target architectures: what they are called, and the facts about their relocations that
//! keep the linker architecture-agnostic.
use crate::bytes::{uint_at, Endian};
use crate::word::{sign_extend, signed};
use vstd::prelude::*;

verus! {

/// Supported CPU architectures
#[derive(Debug, Clone, Copy, PartialEq, Eq, Structural)]
pub enum Architecture {
    X86,
    X86_64,
    Arm,
    Arm64,
    Mips,
    Mips64,
}

impl Architecture {
    /// The architectures with 64-bit pointers.
    pub open spec fn spec_is_64(self) -> bool {
        self == Architecture::X86_64 || self == Architecture::Arm64 || self == Architecture::Mips64
    }

    /// Whether this architecture uses 64-bit pointers.
    pub fn is_64(self) -> (r: bool)
        ensures
            r == self.spec_is_64(),
    {
        matches!(self, Architecture::X86_64 | Architecture::Arm64 | Architecture::Mips64)
    }

    /// The two MIPS architectures.
    pub open spec fn is_mips(self) -> bool {
        self == Architecture::Mips || self == Architecture::Mips64
    }
}

pub const R_X86_64_64: u32 = 1;

pub const R_X86_64_PC32: u32 = 2;

pub const R_X86_64_PLT32: u32 = 4;

pub const R_X86_64_GOTPCREL: u32 = 9;

pub const R_X86_64_32: u32 = 10;

pub const R_X86_64_32S: u32 = 11;

pub const R_X86_64_PC64: u32 = 24;

pub const R_X86_64_GOTPCRELX: u32 = 41;

pub const R_X86_64_REX_GOTPCRELX: u32 = 42;

pub const R_AARCH64_ABS64: u32 = 257;

pub const R_AARCH64_ABS32: u32 = 258;

pub const R_AARCH64_PREL64: u32 = 260;

pub const R_AARCH64_PREL32: u32 = 261;

pub const R_AARCH64_ADR_PREL_PG_HI21: u32 = 275;

pub const R_AARCH64_ADD_ABS_LO12_NC: u32 = 277;

pub const R_AARCH64_LDST8_ABS_LO12_NC: u32 = 278;

pub const R_AARCH64_JUMP26: u32 = 282;

pub const R_AARCH64_CALL26: u32 = 283;

pub const R_AARCH64_LDST16_ABS_LO12_NC: u32 = 284;

pub const R_AARCH64_LDST32_ABS_LO12_NC: u32 = 285;

pub const R_AARCH64_LDST64_ABS_LO12_NC: u32 = 286;

pub const R_AARCH64_LDST128_ABS_LO12_NC: u32 = 299;

pub const R_AARCH64_ADR_GOT_PAGE: u32 = 311;

pub const R_AARCH64_LD64_GOT_LO12_NC: u32 = 312;

pub const R_ARM_PC24: u32 = 1;

pub const R_ARM_ABS32: u32 = 2;

pub const R_ARM_REL32: u32 = 3;

pub const R_ARM_CALL: u32 = 28;

pub const R_ARM_JUMP24: u32 = 29;

pub const R_ARM_MOVW_ABS_NC: u32 = 43;

pub const R_ARM_MOVT_ABS: u32 = 44;

pub const R_ARM_GOT_PREL: u32 = 96;

pub const R_MIPS_32: u32 = 2;

pub const R_MIPS_26: u32 = 4;

pub const R_MIPS_HI16: u32 = 5;

pub const R_MIPS_LO16: u32 = 6;

pub const R_MIPS_PC16: u32 = 10;

pub const R_MIPS_64: u32 = 18;

pub const R_MIPS_PC32: u32 = 248;

/// Bytes in a pointer of the given class.
pub open spec fn pointer_width(is_64: bool) -> nat {
    if is_64 {
        8
    } else {
        4
    }
}

/// GOT-slot width for a target of the given pointer size.
pub fn got_slot_width(is_64: bool) -> (w: usize)
    ensures
        w == pointer_width(is_64),
{
    if is_64 {
        8
    } else {
        4
    }
}

/// The relocation types that go through a global-offset-table slot. Those of MIPS are relative
/// to `$gp` into the target's own table, which an injected segment cannot satisfy.
pub open spec fn uses_got(arch: Architecture, r_type: u32) -> bool {
    match arch {
        Architecture::X86 | Architecture::X86_64 => r_type == R_X86_64_GOTPCREL || r_type
            == R_X86_64_GOTPCRELX || r_type == R_X86_64_REX_GOTPCRELX,
        Architecture::Arm64 => r_type == R_AARCH64_ADR_GOT_PAGE || r_type
            == R_AARCH64_LD64_GOT_LO12_NC,
        Architecture::Arm => r_type == R_ARM_GOT_PREL,
        Architecture::Mips | Architecture::Mips64 => false,
    }
}

/// Whether a relocation of this type is resolved through a synthesized GOT slot
/// holding the symbol's address (so the driver knows to allocate one).
pub fn needs_got(arch: Architecture, r_type: u32) -> (r: bool)
    ensures
        r == uses_got(arch, r_type),
{
    match arch {
        Architecture::X86 | Architecture::X86_64 => r_type == R_X86_64_GOTPCREL || r_type
            == R_X86_64_GOTPCRELX || r_type == R_X86_64_REX_GOTPCRELX,
        Architecture::Arm64 => r_type == R_AARCH64_ADR_GOT_PAGE || r_type
            == R_AARCH64_LD64_GOT_LO12_NC,
        Architecture::Arm => r_type == R_ARM_GOT_PREL,
        Architecture::Mips | Architecture::Mips64 => false,
    }
}

/// True for `R_MIPS_HI16`, whose resolved value depends on the low half from a
/// paired `R_MIPS_LO16` (only under the REL scheme, where the addend is stored
/// in the instruction rather than carried explicitly).
pub fn is_mips_hi16(arch: Architecture, r_type: u32) -> (r: bool)
    ensures
        r == (arch.is_mips() && r_type == R_MIPS_HI16),
{
    matches!(arch, Architecture::Mips | Architecture::Mips64) && r_type == R_MIPS_HI16
}

/// True for `R_MIPS_LO16`, the partner of an `R_MIPS_HI16`.
pub fn is_mips_lo16(arch: Architecture, r_type: u32) -> (r: bool)
    ensures
        r == (arch.is_mips() && r_type == R_MIPS_LO16),
{
    matches!(arch, Architecture::Mips | Architecture::Mips64) && r_type == R_MIPS_LO16
}

/// The signed low half-word of the 32-bit instruction at `off`.
pub open spec fn low_half_addend(endian: Endian, buf: Seq<u8>, off: int) -> int {
    signed(uint_at(endian, buf, off, 4) as int, 0x1_0000)
}

/// Sign-extend a 16-bit MIPS instruction immediate stored at `off` (the low
/// half-word of the 32-bit instruction) into an addend.
pub fn mips_lo16_addend(endian: Endian, buf: &[u8], off: usize) -> (a: i64)
    requires
        off + 4 <= buf@.len(),
    ensures
        a == low_half_addend(endian, buf@, off as int),
{
    let insn: u64 = endian.read_uint(buf, off, 4);
    sign_extend(insn % 0x1_0000, 0x1_0000)
}

/// The name of an architecture, its byte order and its class, for messages.
pub open spec fn description(arch: Architecture, endian: Endian, is_64: bool) -> Seq<char> {
    let a = match arch {
        Architecture::X86 => "x86"@,
        Architecture::X86_64 => "x86-64"@,
        Architecture::Arm => "arm"@,
        Architecture::Arm64 => "aarch64"@,
        Architecture::Mips => "mips"@,
        Architecture::Mips64 => "mips64"@,
    };
    let e = match endian {
        Endian::Little => "LE"@,
        Endian::Big => "BE"@,
    };
    let c = if is_64 {
        "64-bit"@
    } else {
        "32-bit"@
    };
    a + " ("@ + e + ", "@ + c + ")"@
}

/// The name of an architecture, its byte order and its class, for telling the user
/// that an rlib member does not match the target it is being spliced into.
pub fn describe(arch: Architecture, endian: Endian, is_64: bool) -> (r: String)
    ensures
        r@ == description(arch, endian, is_64),
{
    let a = match arch {
        Architecture::X86 => "x86",
        Architecture::X86_64 => "x86-64",
        Architecture::Arm => "arm",
        Architecture::Arm64 => "aarch64",
        Architecture::Mips => "mips",
        Architecture::Mips64 => "mips64",
    };
    let e = match endian {
        Endian::Little => "LE",
        Endian::Big => "BE",
    };
    let c = if is_64 {
        "64-bit"
    } else {
        "32-bit"
    };
    let mut r = a.to_owned();
    r.append(" (");
    r.append(e);
    r.append(", ");
    r.append(c);
    r.append(")");
    r
}

} // verus!
