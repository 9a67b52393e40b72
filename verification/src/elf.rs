//! The parts of the ELF format that the library reads and writes itself.
use crate::bytes::{uint_at, Endian};
use crate::image::Segment;
use vstd::prelude::*;

verus! {

/// Where the ELF header and the program headers of a class keep things.
#[derive(Debug, Clone, Copy, PartialEq, Eq, Structural)]
pub struct Layout {
    /// The size of the ELF header.
    pub size: usize,
    /// `e_phoff`, the offset of the program-header table.
    pub phoff: usize,
    /// `e_phentsize`, the size of a program header.
    pub phentsize: usize,
    /// `e_phnum`, the number of program headers.
    pub phnum: usize,
    /// `e_shoff`, the offset of the section-header table.
    pub shoff: usize,
    /// The size that program headers must have.
    pub entry: usize,
    /// `p_offset`, inside a program header.
    pub p_offset: usize,
    /// The width of an offset or an address.
    pub word: usize,
}

/// The layout of the 64-bit and of the 32-bit class.
pub open spec fn layout(is_64: bool) -> Layout {
    if is_64 {
        Layout {
            size: 64,
            phoff: 0x20,
            phentsize: 0x36,
            phnum: 0x38,
            shoff: 0x28,
            entry: 56,
            p_offset: 8,
            word: 8,
        }
    } else {
        Layout {
            size: 52,
            phoff: 0x1c,
            phentsize: 0x2a,
            phnum: 0x2c,
            shoff: 0x20,
            entry: 32,
            p_offset: 4,
            word: 4,
        }
    }
}

/// The layout of the 64-bit or of the 32-bit class.
pub fn layout_of(is_64: bool) -> (l: Layout)
    ensures
        l == layout(is_64),
{
    if is_64 {
        Layout {
            size: 64,
            phoff: 0x20,
            phentsize: 0x36,
            phnum: 0x38,
            shoff: 0x28,
            entry: 56,
            p_offset: 8,
            word: 8,
        }
    } else {
        Layout {
            size: 52,
            phoff: 0x1c,
            phentsize: 0x2a,
            phnum: 0x2c,
            shoff: 0x20,
            entry: 32,
            p_offset: 4,
            word: 4,
        }
    }
}

/// Whether `data` starts as an ELF file of that byte order and class does.
pub open spec fn elf_ident(data: Seq<u8>, endian: Endian, is_64: bool) -> bool {
    &&& data.len() >= 6
    &&& data[0] == 0x7f && data[1] == 0x45 && data[2] == 0x4c && data[3] == 0x46
    &&& data[4] == (if is_64 {
        2u8
    } else {
        1u8
    })
    &&& data[5] == (match endian {
        Endian::Little => 1u8,
        Endian::Big => 2u8,
    })
}

/// The byte order that an ELF file announces.
pub open spec fn order_of(data: Seq<u8>) -> Endian {
    if data[5] == 1 {
        Endian::Little
    } else {
        Endian::Big
    }
}

/// The class that an ELF file announces: whether it is a 64-bit file.
pub open spec fn class_of(data: Seq<u8>) -> bool {
    data[4] == 2
}

/// The fields of a program header.
pub struct Header {
    pub p_type: nat,
    pub p_flags: nat,
    pub p_offset: nat,
    pub p_vaddr: nat,
    pub p_paddr: nat,
    pub p_filesz: nat,
    pub p_memsz: nat,
    pub p_align: nat,
}

/// The program header at `at`.
pub open spec fn header_at(e: Endian, is_64: bool, data: Seq<u8>, at: int) -> Header {
    if is_64 {
        Header {
            p_type: uint_at(e, data, at, 4),
            p_flags: uint_at(e, data, at + 4, 4),
            p_offset: uint_at(e, data, at + 8, 8),
            p_vaddr: uint_at(e, data, at + 16, 8),
            p_paddr: uint_at(e, data, at + 24, 8),
            p_filesz: uint_at(e, data, at + 32, 8),
            p_memsz: uint_at(e, data, at + 40, 8),
            p_align: uint_at(e, data, at + 48, 8),
        }
    } else {
        Header {
            p_type: uint_at(e, data, at, 4),
            p_offset: uint_at(e, data, at + 4, 4),
            p_vaddr: uint_at(e, data, at + 8, 4),
            p_paddr: uint_at(e, data, at + 12, 4),
            p_filesz: uint_at(e, data, at + 16, 4),
            p_memsz: uint_at(e, data, at + 20, 4),
            p_flags: uint_at(e, data, at + 24, 4),
            p_align: uint_at(e, data, at + 28, 4),
        }
    }
}

/// The segment that the program header at `at` describes.
pub open spec fn segment_at(e: Endian, is_64: bool, data: Seq<u8>, at: int) -> Segment {
    let h = header_at(e, is_64, data, at);
    Segment {
        p_type: h.p_type as u32,
        p_offset: h.p_offset as u64,
        p_vaddr: h.p_vaddr as u64,
        p_filesz: h.p_filesz as u64,
        p_memsz: h.p_memsz as u64,
    }
}

/// Where the ELF file `data` says that its program-header table starts, as an index into memory.
pub open spec fn table_start(data: Seq<u8>) -> int {
    let l = layout(class_of(data));
    uint_at(order_of(data), data, l.phoff as int, l.word as int) as usize as int
}

/// How many program headers the ELF file `data` says that it has.
pub open spec fn table_count(data: Seq<u8>) -> nat {
    uint_at(order_of(data), data, layout(class_of(data)).phnum as int, 2)
}

/// Whether the program-header table of the ELF file `data` lies inside it.
pub open spec fn table_inside(data: Seq<u8>) -> bool {
    table_count(data) > 0 ==> table_start(data) + table_count(data) * layout(class_of(data)).entry
        <= data.len()
}

/// The segments that the program headers of the ELF file `data` describe, in their order.
pub open spec fn segments_of(data: Seq<u8>) -> Seq<Segment> {
    let l = layout(class_of(data));
    Seq::new(
        table_count(data),
        |i: int| segment_at(order_of(data), class_of(data), data, table_start(data) + i * l.entry),
    )
}

} // verus!
