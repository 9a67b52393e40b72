//! What holds of the program header that maps an injected segment, and of where it goes.
use crate::binary::{
    law_injected_base, law_round_up, lemma_top_nonnegative, placement, round_up,
};
use crate::bytes::{lemma_value_bound, pow256, uint_at};
use crate::elf::{elf_ident, header_at, Header};
use crate::error::{Fault, Machine};
use crate::image::{elf_segments, top, BinaryFormat, Segment};
use crate::inject::{injected, law_injected_header, slot, table, Slot, Table};
use crate::symbol_laws::law_memory_top;
use vstd::prelude::*;

verus! {

/// The size of a program header.
pub open spec fn header_size(is_64: bool) -> int {
    if is_64 {
        56
    } else {
        32
    }
}

/// The number that the ELF header keeps at `wide` in a 64-bit file and at `narrow` in a 32-bit
/// file, in a word of that class.
pub open spec fn word_at(machine: Machine, data: Seq<u8>, wide: int, narrow: int) -> int {
    if machine.is_64 {
        uint_at(machine.endian, data, wide, 8) as int
    } else {
        uint_at(machine.endian, data, narrow, 4) as int
    }
}

/// `e_phoff`, where the program headers start.
pub open spec fn headers_start(machine: Machine, data: Seq<u8>) -> int {
    word_at(machine, data, 0x20, 0x1c)
}

/// `e_shoff`, where the section headers start.
pub open spec fn sections_start(machine: Machine, data: Seq<u8>) -> int {
    word_at(machine, data, 0x28, 0x20)
}

/// `e_phnum`, how many program headers there are.
pub open spec fn headers_count(machine: Machine, data: Seq<u8>) -> int {
    uint_at(
        machine.endian,
        data,
        if machine.is_64 {
            0x38
        } else {
            0x2c
        },
        2,
    ) as int
}

/// `e_phentsize`, how large a program header is said to be.
pub open spec fn announced_size(machine: Machine, data: Seq<u8>) -> int {
    uint_at(
        machine.endian,
        data,
        if machine.is_64 {
            0x36
        } else {
            0x2a
        },
        2,
    ) as int
}

/// Where the `i`-th program header is.
pub open spec fn header_place(machine: Machine, data: Seq<u8>, i: int) -> int {
    headers_start(machine, data) + i * header_size(machine.is_64)
}

/// The `i`-th program header.
pub open spec fn header_of(machine: Machine, data: Seq<u8>, i: int) -> Header {
    header_at(machine.endian, machine.is_64, data, header_place(machine, data, i))
}

proof fn lemma_table(machine: Machine, data: Seq<u8>)
    ensures
        ({
            let t = table(data, machine);
            &&& t.endian == machine.endian
            &&& t.start == headers_start(machine, data)
            &&& t.count == headers_count(machine, data)
            &&& t.layout.entry == header_size(machine.is_64)
            &&& forall|i: int| #[trigger] t.at(i) == header_place(machine, data, i)
        }),
{
    let t = table(data, machine);
    assert forall|i: int| #[trigger] t.at(i) == header_place(machine, data, i) by {
        assert(t.layout.entry == header_size(machine.is_64));
    }
}

/// What the search for the least claimed offset finds: no header claims less, and some header
/// claims it unless it is what the search started with.
proof fn lemma_claimed(t: Table, machine: Machine, data: Seq<u8>, i: int, least: u64)
    requires
        t == table(data, machine),
        0 <= i,
        t.claimed(data, i, least) is Ok,
    ensures
        ({
            let found = t.claimed(data, i, least)->Ok_0;
            &&& found <= least
            &&& forall|j: int|
                i <= j < t.count && 0 < (#[trigger] header_of(machine, data, j)).p_offset ==> found
                    <= header_of(machine, data, j).p_offset
            &&& found == least || exists|j: int|
                i <= j < t.count && (#[trigger] header_of(machine, data, j)).p_offset == found
        }),
    decreases t.count - i,
{
    lemma_table(machine, data);
    if i < t.count {
        let off = header_of(machine, data, i).p_offset;
        assert(t.at(i) == header_place(machine, data, i));
        let next = if 0 < off < least {
            off as u64
        } else {
            least
        };
        assert(t.claimed(data, i, least) == t.claimed(data, i + 1, next));
        lemma_claimed(t, machine, data, i + 1, next);
        let found = t.claimed(data, i, least)->Ok_0;
        assert forall|j: int|
            i <= j < t.count && 0 < (#[trigger] header_of(machine, data, j)).p_offset implies found
            <= header_of(machine, data, j).p_offset by {
            if j > i {
                assert(i + 1 <= j);
            }
        }
        if found != least && found == next {
            assert(header_of(machine, data, i).p_offset == found);
        }
    }
}

/// The search for the least claimed offset reads the headers to their end.
proof fn lemma_claims_read(t: Table, data: Seq<u8>, i: int, least: u64)
    requires
        0 <= i,
        0 <= t.layout.entry,
        t.layout.p_offset + t.layout.word <= t.layout.entry,
        t.at(t.count) <= data.len(),
    ensures
        t.claimed(data, i, least) is Ok,
    decreases t.count - i,
{
    if i < t.count {
        assert((i + 1) * t.layout.entry <= t.count * t.layout.entry && (i + 1) * t.layout.entry == i
            * t.layout.entry + t.layout.entry) by (nonlinear_arith)
            requires
                i + 1 <= t.count,
                0 <= t.layout.entry,
        ;
        let p_offset = uint_at(
            t.endian,
            data,
            t.at(i) + t.layout.p_offset,
            t.layout.word as int,
        );
        lemma_claims_read(
            t,
            data,
            i + 1,
            if 0 < p_offset < least {
                p_offset as u64
            } else {
                least
            },
        );
    }
}

/// The search for the least claimed offset fails only where a header runs past the end of the
/// file.
proof fn lemma_claims_fail(t: Table, data: Seq<u8>, i: int, least: u64)
    ensures
        t.claimed(data, i, least) matches Err(f) ==> f == Fault::<Seq<char>>::TruncatedHeaders,
    decreases t.count - i,
{
    if i < t.count {
        let p_offset = uint_at(
            t.endian,
            data,
            t.at(i) + t.layout.p_offset,
            t.layout.word as int,
        );
        lemma_claims_fail(
            t,
            data,
            i + 1,
            if 0 < p_offset < least {
                p_offset as u64
            } else {
                least
            },
        );
    }
}

/// What the search for a note finds: the first header that is one.
proof fn lemma_note_found(t: Table, machine: Machine, data: Seq<u8>, i: int)
    requires
        t == table(data, machine),
        0 <= i,
    ensures
        match t.note(data, i) {
            Ok(Some(at)) => exists|k: int|
                i <= k < t.count && at == #[trigger] header_place(machine, data, k) && header_of(
                    machine,
                    data,
                    k,
                ).p_type == 4 && (forall|j: int|
                    i <= j < k ==> (#[trigger] header_of(machine, data, j)).p_type != 4),
            Ok(None) => forall|j: int|
                i <= j < t.count ==> (#[trigger] header_of(machine, data, j)).p_type != 4,
            Err(f) => f == Fault::<Seq<char>>::TruncatedHeaders,
        },
    decreases t.count - i,
{
    lemma_table(machine, data);
    if i < t.count {
        assert(t.at(i) == header_place(machine, data, i));
        lemma_note_found(t, machine, data, i + 1);
        if t.at(i) + 4 <= data.len() {
            if header_of(machine, data, i).p_type == 4 {
                assert(t.note(data, i) == Ok::<Option<int>, Fault<Seq<char>>>(Some(t.at(i))));
            } else {
                match t.note(data, i + 1) {
                    Ok(Some(at)) => {
                        let k = choose|k: int|
                            i + 1 <= k < t.count && at == #[trigger] header_place(machine, data, k)
                                && header_of(machine, data, k).p_type == 4 && (forall|j: int|
                                i + 1 <= j < k ==> (#[trigger] header_of(machine, data, j)).p_type
                                    != 4);
                        assert(at == header_place(machine, data, k));
                        assert forall|j: int| i <= j < k implies (#[trigger] header_of(
                            machine,
                            data,
                            j,
                        )).p_type != 4 by {
                            if j > i {
                                assert(i + 1 <= j);
                            }
                        }
                    },
                    Ok(None) => {
                        assert forall|j: int| i <= j < t.count implies (#[trigger] header_of(
                            machine,
                            data,
                            j,
                        )).p_type != 4 by {
                            if j > i {
                                assert(i + 1 <= j);
                            }
                        }
                    },
                    Err(_) => {},
                }
            }
        }
    }
}

/// The search for a note stops at the first one, or at the end of the headers.
proof fn lemma_notes_read(t: Table, machine: Machine, data: Seq<u8>, i: int, k: int)
    requires
        t == table(data, machine),
        0 <= i <= k <= t.count,
        header_place(machine, data, k) + (if k < t.count {
            4int
        } else {
            0
        }) <= data.len(),
        forall|j: int| i <= j < k ==> (#[trigger] header_of(machine, data, j)).p_type != 4,
        k < t.count ==> header_of(machine, data, k).p_type == 4,
    ensures
        t.note(data, i) == Ok::<Option<int>, Fault<Seq<char>>>(
            if k < t.count {
                Some(header_place(machine, data, k))
            } else {
                None
            },
        ),
    decreases k - i,
{
    lemma_table(machine, data);
    assert(t.at(i) == header_place(machine, data, i));
    assert(t.at(k) == header_place(machine, data, k));
    if i < k {
        let e = t.layout.entry as int;
        assert((i + 1) * e <= k * e && (i + 1) * e == i * e + e) by (nonlinear_arith)
            requires
                i + 1 <= k,
                0 <= e,
        ;
        assert(header_of(machine, data, i).p_type != 4);
        lemma_notes_read(t, machine, data, i + 1, k);
    }
}

/// A slot that the table grows into is the one right behind its headers. It lies inside the file,
/// behind the ELF header and below everything that a program header or the section-header table
/// claims there, something is claimed that bounds it, and no header is a note that could be
/// converted instead.
pub proof fn law_unclaimed(data: Seq<u8>, machine: Machine)
    requires
        slot(data, machine) is Ok,
        slot(data, machine)->Ok_0.grows,
    ensures
        ({
            let at = slot(data, machine)->Ok_0.at;
            let end = at + header_size(machine.is_64);
            let count = headers_count(machine, data);
            &&& at == header_place(machine, data, count)
            &&& end <= data.len()
            &&& headers_start(machine, data) >= (if machine.is_64 {
                0x3aint
            } else {
                0x2e
            })
            &&& at >= (if machine.is_64 {
                64int
            } else {
                52
            })
            &&& forall|i: int|
                0 <= i < count && (#[trigger] header_of(machine, data, i)).p_offset != 0 ==> end
                    <= header_of(machine, data, i).p_offset
            &&& sections_start(machine, data) != 0 ==> end <= sections_start(machine, data)
            &&& sections_start(machine, data) != 0 || exists|i: int|
                0 <= i < count && (#[trigger] header_of(machine, data, i)).p_offset != 0
            &&& forall|i: int|
                0 <= i < count ==> (#[trigger] header_of(machine, data, i)).p_type != 4
        }),
{
    let t = table(data, machine);
    lemma_table(machine, data);
    lemma_note_found(t, machine, data, 0);
    lemma_claimed(t, machine, data, 0, u64::MAX);
    lemma_positive(t, machine, data, 0, u64::MAX);
    assert(t.at(t.count) == header_place(machine, data, t.count));
}

/// Without a note, and with room for one more header behind the table, below everything that is
/// claimed in the file, the table grows.
pub proof fn law_room_is_used(data: Seq<u8>, machine: Machine)
    requires
        ({
            let count = headers_count(machine, data);
            let at = header_place(machine, data, count);
            let end = at + header_size(machine.is_64);
            &&& announced_size(machine, data) == header_size(machine.is_64)
            &&& count < 0xffff
            &&& end <= data.len()
            &&& headers_start(machine, data) >= (if machine.is_64 {
                0x3aint
            } else {
                0x2e
            })
            &&& at >= (if machine.is_64 {
                64int
            } else {
                52
            })
            &&& forall|i: int|
                0 <= i < count ==> (#[trigger] header_of(machine, data, i)).p_type != 4
            &&& forall|i: int|
                0 <= i < count && (#[trigger] header_of(machine, data, i)).p_offset != 0 ==> end
                    <= header_of(machine, data, i).p_offset
            &&& sections_start(machine, data) != 0 ==> end <= sections_start(machine, data)
            &&& 0 < sections_start(machine, data) < u64::MAX || exists|i: int|
                0 <= i < count && 0 < (#[trigger] header_of(machine, data, i)).p_offset < u64::MAX
        }),
    ensures
        slot(data, machine) == Ok::<Slot, Fault<Seq<char>>>(
            Slot {
                at: header_place(machine, data, headers_count(machine, data)),
                grows: true,
            },
        ),
{
    let t = table(data, machine);
    lemma_table(machine, data);
    assert(t.at(t.count) == header_place(machine, data, t.count));
    assert(0 <= t.count * t.layout.entry) by (nonlinear_arith)
        requires
            0 <= t.count,
            0 <= t.layout.entry,
    ;
    lemma_notes_read(t, machine, data, 0, t.count);
    lemma_claims_read(t, data, 0, u64::MAX);
    lemma_claimed(t, machine, data, 0, u64::MAX);
    let least = t.claimed(data, 0, u64::MAX)->Ok_0;
    if least < u64::MAX {
        let j = choose|j: int|
            0 <= j < t.count && (#[trigger] header_of(machine, data, j)).p_offset == least;
        lemma_positive(t, machine, data, 0, u64::MAX);
        assert(header_of(machine, data, j).p_offset != 0);
    }
}

/// The least claimed offset is not zero.
proof fn lemma_positive(t: Table, machine: Machine, data: Seq<u8>, i: int, least: u64)
    requires
        t == table(data, machine),
        0 < least,
        t.claimed(data, i, least) is Ok,
    ensures
        t.claimed(data, i, least)->Ok_0 > 0,
    decreases t.count - i,
{
    if i < t.count {
        let p_offset = uint_at(
            t.endian,
            data,
            t.at(i) + t.layout.p_offset,
            t.layout.word as int,
        );
        lemma_positive(
            t,
            machine,
            data,
            i + 1,
            if 0 < p_offset < least {
                p_offset as u64
            } else {
                least
            },
        );
    }
}

/// Where there is a note, the first one is the slot, and the table stays as large as it is.
pub proof fn law_first_note(data: Seq<u8>, machine: Machine, k: int)
    requires
        announced_size(machine, data) == header_size(machine.is_64),
        0 <= k < headers_count(machine, data),
        header_place(machine, data, k) + 4 <= data.len(),
        header_of(machine, data, k).p_type == 4,
        forall|j: int| 0 <= j < k ==> (#[trigger] header_of(machine, data, j)).p_type != 4,
    ensures
        slot(data, machine) == Ok::<Slot, Fault<Seq<char>>>(
            Slot { at: header_place(machine, data, k), grows: false },
        ),
{
    lemma_table(machine, data);
    lemma_notes_read(table(data, machine), machine, data, 0, k);
}

/// The new header maps the blob, readable and executable, from the first page of the file behind
/// its old content to `base`.
pub proof fn law_loaded(
    data: Seq<u8>,
    format: BinaryFormat,
    machine: Machine,
    base: u64,
    blob: Seq<u8>,
)
    requires
        injected(data, format, machine, base, blob) is Ok,
    ensures
        ({
            let after = injected(data, format, machine, base, blob)->Ok_0;
            let h = header_at(machine.endian, machine.is_64, after, slot(data, machine)->Ok_0.at);
            &&& h.p_type == 1
            &&& h.p_flags == 5
            &&& h.p_offset % 0x1000 == 0
            &&& data.len() <= h.p_offset < data.len() + 0x1000
            &&& h.p_vaddr == base && h.p_paddr == base
            &&& h.p_filesz == blob.len() && h.p_memsz == blob.len()
            &&& h.p_align == 0x1000
            &&& base % 0x1000 == 0
        }),
{
    law_injected_header(data, format, machine, base, blob);
    law_round_up(data.len() as int, 0x1000);
}

/// An injection succeeds wherever there is a slot, `base` starts a page, the file is an ELF file
/// of the machine's class and byte order, and its headers can express where the segment lies.
pub proof fn law_injection_succeeds(data: Seq<u8>, machine: Machine, base: u64, blob: Seq<u8>)
    requires
        base % 0x1000 == 0,
        data.len() >= 64,
        elf_ident(data, machine.endian, machine.is_64),
        slot(data, machine) is Ok,
        slot(data, machine)->Ok_0.at + header_size(machine.is_64) <= data.len(),
        data.len() + 0xfff + blob.len() <= usize::MAX,
        machine.is_64 || base < 0x1_0000_0000 && data.len() + 0xfff < 0x1_0000_0000 && blob.len()
            < 0x1_0000_0000,
    ensures
        injected(data, BinaryFormat::Elf, machine, base, blob) is Ok,
{
    law_round_up(data.len() as int, 0x1000);
}

/// Where nothing else is asked for, the segment starts on a page that begins at least one page
/// and less than two pages above the highest end of a loaded segment in memory. Where something is
/// asked for, that is where it goes.
pub proof fn law_default_place(data: Seq<u8>, segments: Seq<Segment>, asked: u64)
    requires
        elf_segments(data) == Ok::<Seq<Segment>, Fault<Seq<char>>>(segments),
    ensures
        placement(data, Some(asked)) == Ok::<u64, Fault<Seq<char>>>(asked),
        placement(data, None) matches Ok(base) ==> {
            &&& base % 0x1000 == 0
            &&& base >= 0x1000
            &&& forall|i: int|
                0 <= i < segments.len() && (#[trigger] segments[i]).p_type == 1
                    ==> segments[i].p_vaddr + segments[i].p_memsz + 0x1000 <= base
            &&& base == 0x1000 || exists|i: int|
                0 <= i < segments.len() && (#[trigger] segments[i]).p_type == 1 && base
                    < segments[i].p_vaddr + segments[i].p_memsz + 0x2000
        },
        placement(data, None) matches Err(f) ==> f == Fault::<Seq<char>>::AddressOverflow
            && exists|i: int|
            0 <= i < segments.len() && (#[trigger] segments[i]).p_type == 1 && segments[i].p_vaddr
                + segments[i].p_memsz + 0x2000 > u64::MAX,
{
    law_memory_top(segments);
    law_injected_base(segments);
    if top(segments) > 0 {
        law_round_up(top(segments), 0x1000);
        let i = choose|i: int|
            0 <= i < segments.len() && (#[trigger] segments[i]).p_type == 1 && segments[i].p_vaddr
                + segments[i].p_memsz == top(segments);
        assert(segments[i].p_type == 1);
    } else {
        lemma_top_nonnegative(segments);
        assert(round_up(0, 0x1000) == 0);
    }
}

/// Where the headers lie inside the file, the search for a note reads all that it needs.
proof fn lemma_notes_inside(t: Table, machine: Machine, data: Seq<u8>, i: int)
    requires
        t == table(data, machine),
        0 <= i,
        header_place(machine, data, t.count) <= data.len(),
    ensures
        t.note(data, i) is Ok,
    decreases t.count - i,
{
    lemma_table(machine, data);
    if i < t.count {
        let e = t.layout.entry as int;
        assert((i + 1) * e <= t.count * e && (i + 1) * e == i * e + e) by (nonlinear_arith)
            requires
                i + 1 <= t.count,
                0 <= e,
        ;
        assert(t.at(i) == header_place(machine, data, i));
        lemma_notes_inside(t, machine, data, i + 1);
    }
}

/// There is no slot only where
/// - the headers are not of the size that they must have,
/// - the table runs past the end of the file,
/// - something in the file is claimed inside the table, or nothing is claimed that would bound it,
/// - there is less room than a header behind the table,
/// - or the count of headers is at its limit.
pub proof fn law_no_slot(data: Seq<u8>, machine: Machine, f: Fault<Seq<char>>)
    requires
        data.len() >= 64,
        slot(data, machine) == Err::<Slot, Fault<Seq<char>>>(f),
    ensures
        ({
            let count = headers_count(machine, data);
            let end = header_place(machine, data, count);
            match f {
                Fault::EntrySize { size } => announced_size(machine, data) == size && size
                    != header_size(machine.is_64),
                Fault::TruncatedHeaders => end > data.len(),
                Fault::NoRoom { first_claimed, table_end } => {
                    &&& first_claimed == u64::MAX || first_claimed < end
                    &&& first_claimed == u64::MAX || sections_start(machine, data) == first_claimed
                        || exists|i: int|
                        0 <= i < count && (#[trigger] header_of(machine, data, i)).p_offset
                            == first_claimed
                    &&& end <= u64::MAX ==> table_end == end
                },
                Fault::NoPadding { gap, needed } => needed == header_size(machine.is_64) && gap
                    < needed,
                Fault::TooManyHeaders => count >= 0xffff,
                _ => false,
            }
        }),
{
    let t = table(data, machine);
    lemma_table(machine, data);
    assert(t.at(t.count) == header_place(machine, data, t.count));
    assert(pow256(2) == 0x1_0000) by {
        reveal_with_fuel(pow256, 3);
    }
    lemma_value_bound(
        machine.endian,
        data.subrange(t.layout.phentsize as int, t.layout.phentsize + 2),
    );
    if header_place(machine, data, t.count) <= data.len() {
        lemma_notes_inside(t, machine, data, 0);
        lemma_claims_read(t, data, 0, u64::MAX);
    }
    lemma_note_found(t, machine, data, 0);
    lemma_claims_fail(t, data, 0, u64::MAX);
    if t.claimed(data, 0, u64::MAX) is Ok {
        lemma_claimed(t, machine, data, 0, u64::MAX);
    }
}

/// An injection is refused only where `base` does not start a page, the file is no ELF file of the
/// machine's class and byte order, there is no slot, or its headers cannot express where the
/// segment lies.
pub proof fn law_injection_refused(
    data: Seq<u8>,
    format: BinaryFormat,
    machine: Machine,
    base: u64,
    blob: Seq<u8>,
    f: Fault<Seq<char>>,
)
    requires
        injected(data, format, machine, base, blob) == Err::<Seq<u8>, Fault<Seq<char>>>(f),
    ensures
        ({
            ||| f == (Fault::<Seq<char>>::MisalignedBase { base }) && base % 0x1000 != 0
            ||| f == Fault::<Seq<char>>::NotInjectable && (format != BinaryFormat::Elf || data.len()
                < 64 || !elf_ident(data, machine.endian, machine.is_64))
            ||| slot(data, machine) == Err::<Slot, Fault<Seq<char>>>(f)
            ||| f == Fault::<Seq<char>>::AddressOverflow && (data.len() + 0xfff + blob.len()
                > usize::MAX || !machine.is_64 && (base >= 0x1_0000_0000 || data.len() + 0xfff
                >= 0x1_0000_0000 || blob.len() >= 0x1_0000_0000))
            ||| f == Fault::<Seq<char>>::TruncatedHeaders && slot(data, machine) is Ok && slot(
                data,
                machine,
            )->Ok_0.at + header_size(machine.is_64) > data.len()
        }),
{
    law_round_up(data.len() as int, 0x1000);
}

} // verus!
