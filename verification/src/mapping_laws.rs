//! What a binary maps after a segment was injected into it.
use crate::binary::{above, law_injected_base, law_round_up, mapped, placement, round_up, PAGE};
use crate::bytes::{uint_at, Endian};
use crate::elf::{
    class_of, elf_ident, header_at, layout, order_of, segment_at, segments_of, table_count,
    table_inside, table_start,
};
use crate::error::{Fault, Machine};
use crate::image::{
    elf_segments, file_offset, holds, memory_end, BinaryFormat, Segment, PT_LOAD, PT_NOTE,
};
use crate::inject::{
    injected, law_injected_content, law_injected_header, law_note_is_converted, law_table_grows,
    lemma_slot, slot, table, Slot, Table,
};
use vstd::prelude::*;

verus! {

/// The position in the table of the note header that is found.
proof fn lemma_note_position(t: Table, data: Seq<u8>, i: int) -> (j: int)
    requires
        t.note(data, i) is Ok,
        t.note(data, i)->Ok_0 is Some,
    ensures
        i <= j < t.count,
        t.note(data, i)->Ok_0 == Some(t.at(j)),
    decreases t.count - i,
{
    if t.note(data, i) == t.note(data, i + 1) && t.note(data, i)->Ok_0 != Some(t.at(i)) {
        lemma_note_position(t, data, i + 1)
    } else {
        i
    }
}

/// The position in the table of the slot for the injected segment.
proof fn lemma_slot_position(data: Seq<u8>, machine: Machine) -> (j: int)
    requires
        slot(data, machine) is Ok,
    ensures
        0 <= j,
        slot(data, machine)->Ok_0.at == table(data, machine).at(j),
        slot(data, machine)->Ok_0.grows ==> j == table(data, machine).count,
        !slot(data, machine)->Ok_0.grows ==> j < table(data, machine).count,
{
    let t = table(data, machine);
    if slot(data, machine)->Ok_0.grows {
        t.count
    } else {
        lemma_note_position(t, data, 0)
    }
}

/// Files with the same bytes there have the same program header there.
proof fn lemma_same_header(e: Endian, is_64: bool, a: Seq<u8>, b: Seq<u8>, at: int)
    requires
        0 <= at,
        at + layout(is_64).entry <= a.len(),
        at + layout(is_64).entry <= b.len(),
        forall|i: int| at <= i < at + layout(is_64).entry ==> a[i] == b[i],
    ensures
        header_at(e, is_64, a, at) == header_at(e, is_64, b, at),
{
    assert forall|k: int, w: int| 0 <= k && 0 <= w && k + w <= layout(is_64).entry implies #[trigger] uint_at(
        e,
        a,
        at + k,
        w,
    ) == uint_at(e, b, at + k, w) by {
        assert(a.subrange(at + k, at + k + w) =~= b.subrange(at + k, at + k + w));
    }
    assert(uint_at(e, a, at + 0, 4) == uint_at(e, b, at + 0, 4));
}

/// Where only one segment holds an address, that segment maps it.
proof fn lemma_only_holder(segments: Seq<Segment>, j: int, va: int)
    requires
        0 <= j < segments.len(),
        holds(segments[j], va),
        forall|i: int| 0 <= i < segments.len() && i != j ==> !holds(#[trigger] segments[i], va),
    ensures
        file_offset(segments, va) == Some(segments[j].p_offset + (va - segments[j].p_vaddr)),
    decreases segments.len(),
{
    if j > 0 {
        let rest = segments.drop_first();
        assert(!holds(segments[0], va));
        assert(rest[j - 1] == segments[j]);
        assert forall|i: int| 0 <= i < rest.len() && i != j - 1 implies !holds(
            #[trigger] rest[i],
            va,
        ) by {
            assert(rest[i] == segments[i + 1]);
        }
        lemma_only_holder(rest, j - 1, va);
    }
}

/// Distinct positions of a table do not overlap.
proof fn lemma_positions(t: Table, i: int, j: int)
    requires
        t.layout.entry > 0,
        i != j,
    ensures
        t.at(i) + t.layout.entry <= t.at(j) || t.at(j) + t.layout.entry <= t.at(i),
{
    let n = t.layout.entry as int;
    if i < j {
        assert((i + 1) * n <= j * n && (i + 1) * n == i * n + n) by (nonlinear_arith)
            requires
                i + 1 <= j,
                n > 0,
        ;
    } else {
        assert((j + 1) * n <= i * n && (j + 1) * n == j * n + n) by (nonlinear_arith)
            requires
                j + 1 <= i,
                n > 0,
        ;
    }
}

/// Whether `file` has every byte of `data` outside the slot and, where the table grows, the header
/// count.
spec fn keeps(data: Seq<u8>, file: Seq<u8>, machine: Machine, s: Slot) -> bool {
    let l = layout(machine.is_64);
    &&& data.len() <= file.len()
    &&& forall|i: int|
        0 <= i < data.len() && !(s.at <= i < s.at + l.entry) && !(s.grows && l.phnum <= i < l.phnum
            + 2) ==> #[trigger] file[i] == data[i]
}

/// A slot behind the fields that say where the table is leaves it there, and leaves its count
/// unless the table grows.
proof fn lemma_table_kept(data: Seq<u8>, file: Seq<u8>, machine: Machine, s: Slot)
    requires
        data.len() >= 64,
        elf_ident(data, machine.endian, machine.is_64),
        keeps(data, file, machine, s),
        s.at >= layout(machine.is_64).phnum + 2,
    ensures
        order_of(data) == machine.endian && class_of(data) == machine.is_64,
        order_of(file) == machine.endian && class_of(file) == machine.is_64,
        table(file, machine).start == table(data, machine).start,
        !s.grows ==> table(file, machine).count == table(data, machine).count,
{
    let l = layout(machine.is_64);
    assert(file[4] == data[4] && file[5] == data[5]);
    assert(file.subrange(l.phoff as int, l.phoff + l.word) =~= data.subrange(
        l.phoff as int,
        l.phoff + l.word,
    ));
    if !s.grows {
        assert(file.subrange(l.phnum as int, l.phnum + 2) =~= data.subrange(
            l.phnum as int,
            l.phnum + 2,
        ));
    }
}

/// Whether the note that an injection converts, where it converts one, lies behind the fields of
/// the ELF header that say where the program headers are.
pub open spec fn note_is_behind(data: Seq<u8>, machine: Machine) -> bool {
    let s = slot(data, machine)->Ok_0;
    s.grows || s.at >= layout(machine.is_64).phnum + 2
}

/// The header at another position than the slot is kept.
proof fn lemma_segment_kept(
    data: Seq<u8>,
    file: Seq<u8>,
    machine: Machine,
    s: Slot,
    i: int,
    j: int,
)
    requires
        keeps(data, file, machine, s),
        s.grows ==> table(data, machine).start >= layout(machine.is_64).phnum + 2,
        0 <= table(data, machine).start,
        0 <= i,
        i != j,
        s.at == table(data, machine).at(j),
        table(data, machine).at(i) + layout(machine.is_64).entry <= data.len(),
    ensures
        ({
            let at = table(data, machine).at(i);
            segment_at(machine.endian, machine.is_64, file, at) == segment_at(
                machine.endian,
                machine.is_64,
                data,
                at,
            )
        }),
{
    let t = table(data, machine);
    let l = layout(machine.is_64);
    assert(i * l.entry >= 0) by (nonlinear_arith)
        requires
            i >= 0,
            l.entry >= 0,
    ;
    lemma_positions(t, i, j);
    lemma_same_header(machine.endian, machine.is_64, file, data, t.at(i));
}

/// The header in the slot describes the new segment.
proof fn lemma_new_segment(
    data: Seq<u8>,
    format: BinaryFormat,
    machine: Machine,
    base: u64,
    blob: Seq<u8>,
)
    requires
        injected(data, format, machine, base, blob) is Ok,
    ensures
        segment_at(
            machine.endian,
            machine.is_64,
            injected(data, format, machine, base, blob)->Ok_0,
            slot(data, machine)->Ok_0.at,
        ) == (Segment {
            p_type: PT_LOAD,
            p_offset: round_up(data.len() as int, PAGE as int) as u64,
            p_vaddr: base,
            p_filesz: blob.len() as u64,
            p_memsz: blob.len() as u64,
        }),
{
    law_injected_header(data, format, machine, base, blob);
}

/// An injection keeps every byte outside the slot and the count, and leaves the table where it is,
/// one header longer where it grows.
proof fn lemma_file_kept(
    data: Seq<u8>,
    format: BinaryFormat,
    machine: Machine,
    base: u64,
    blob: Seq<u8>,
)
    requires
        injected(data, format, machine, base, blob) is Ok,
        note_is_behind(data, machine),
    ensures
        ({
            let file = injected(data, format, machine, base, blob)->Ok_0;
            let s = slot(data, machine)->Ok_0;
            &&& keeps(data, file, machine, s)
            &&& order_of(data) == machine.endian && class_of(data) == machine.is_64
            &&& order_of(file) == machine.endian && class_of(file) == machine.is_64
            &&& table(file, machine).start == table(data, machine).start
            &&& table(file, machine).count == table(data, machine).count + if s.grows {
                1int
            } else {
                0int
            }
            &&& table(data, machine).start <= s.at
            &&& s.at + layout(machine.is_64).entry <= file.len() <= usize::MAX
        }),
{
    let file = injected(data, format, machine, base, blob)->Ok_0;
    let s = slot(data, machine)->Ok_0;
    let l = layout(machine.is_64);
    let j = lemma_slot_position(data, machine);
    lemma_slot(data, machine);
    law_round_up(data.len() as int, PAGE as int);
    law_injected_content(data, format, machine, base, blob);
    assert(j * l.entry >= 0) by (nonlinear_arith)
        requires
            j >= 0,
            l.entry >= 0,
    ;
    assert(keeps(data, file, machine, s));
    lemma_table_kept(data, file, machine, s);
    if s.grows {
        law_table_grows(data, format, machine, base, blob);
    }
}

/// The table that a file announces is the one that an injection finds, where memory can hold it.
proof fn lemma_same_table(data: Seq<u8>, machine: Machine)
    requires
        order_of(data) == machine.endian,
        class_of(data) == machine.is_64,
        table(data, machine).start <= usize::MAX,
    ensures
        table_start(data) == table(data, machine).start,
        table_count(data) == table(data, machine).count,
        forall|i: int|
            0 <= i < table_count(data) ==> #[trigger] segments_of(data)[i] == segment_at(
                machine.endian,
                machine.is_64,
                data,
                table(data, machine).at(i),
            ),
{
}

/// The segments of a file after an injection: those that were there, but for one that now maps
/// the blob. It takes the place of a note, or stands behind the others. All headers lie inside
/// the new file.
///
/// Holds where a note that is converted lies behind the fields of the ELF header that say where
/// the program headers are.
#[verifier::rlimit(40)]
pub proof fn law_injected_segments(
    data: Seq<u8>,
    format: BinaryFormat,
    machine: Machine,
    base: u64,
    blob: Seq<u8>,
) -> (j: int)
    requires
        injected(data, format, machine, base, blob) is Ok,
        table_inside(data),
        note_is_behind(data, machine),
    ensures
        ({
            let file = injected(data, format, machine, base, blob)->Ok_0;
            let s = slot(data, machine)->Ok_0;
            let before = segments_of(data);
            let after = segments_of(file);
            &&& table_inside(file)
            &&& 0 <= j < after.len()
            &&& s.grows ==> j == before.len() && after.len() == before.len() + 1
            &&& !s.grows ==> after.len() == before.len()
            &&& after[j] == (Segment {
                p_type: PT_LOAD,
                p_offset: round_up(data.len() as int, PAGE as int) as u64,
                p_vaddr: base,
                p_filesz: blob.len() as u64,
                p_memsz: blob.len() as u64,
            })
            &&& j < before.len() ==> before[j].p_type == PT_NOTE
            &&& forall|i: int| 0 <= i < before.len() && i != j ==> #[trigger] after[i] == before[i]
        }),
{
    let file = injected(data, format, machine, base, blob)->Ok_0;
    let s = slot(data, machine)->Ok_0;
    let t = table(data, machine);
    let l = layout(machine.is_64);
    let before = segments_of(data);
    let after = segments_of(file);
    let j = lemma_slot_position(data, machine);
    lemma_slot(data, machine);
    lemma_file_kept(data, format, machine, base, blob);
    lemma_same_table(data, machine);
    lemma_same_table(file, machine);
    lemma_new_segment(data, format, machine, base, blob);
    if !s.grows {
        law_note_is_converted(data, machine);
    } else {
        assert((t.count + 1) * l.entry == t.count * l.entry + l.entry) by (nonlinear_arith);
    }
    assert forall|i: int| 0 <= i < before.len() && i != j implies #[trigger] after[i]
        == before[i] by {
        assert((i + 1) * l.entry <= t.count * l.entry && (i + 1) * l.entry == i * l.entry + l.entry)
            by (nonlinear_arith)
            requires
                i + 1 <= t.count,
                l.entry >= 0,
        ;
        lemma_segment_kept(data, file, machine, s, i, j);
    }
    j
}

/// What is injected is read back: after an injection, an address inside the new segment that no
/// segment held before leads to the byte of the blob that was put there.
///
/// Holds where a note that is converted lies behind the fields of the ELF header that say where
/// the program headers are.
#[verifier::rlimit(60)]
pub proof fn law_injected_maps(
    data: Seq<u8>,
    format: BinaryFormat,
    machine: Machine,
    base: u64,
    blob: Seq<u8>,
    k: int,
)
    requires
        injected(data, format, machine, base, blob) is Ok,
        table_inside(data),
        note_is_behind(data, machine),
        0 <= k < blob.len(),
        forall|i: int|
            0 <= i < segments_of(data).len() ==> !holds(#[trigger] segments_of(data)[i], base + k),
    ensures
        ({
            let file = injected(data, format, machine, base, blob)->Ok_0;
            let at = round_up(data.len() as int, PAGE as int) + k;
            &&& file_offset(segments_of(file), base + k) == Some(at)
            &&& at < file.len() <= usize::MAX
            &&& file[at] == blob[k]
        }),
{
    let file = injected(data, format, machine, base, blob)->Ok_0;
    let j = law_injected_segments(data, format, machine, base, blob);
    lemma_blob_byte(data, format, machine, base, blob, k);
    lemma_newly_held(segments_of(data), segments_of(file), j, base + k);
}

/// Where all headers lie inside the old file, the blob stands in the new one.
proof fn lemma_blob_byte(
    data: Seq<u8>,
    format: BinaryFormat,
    machine: Machine,
    base: u64,
    blob: Seq<u8>,
    k: int,
)
    requires
        injected(data, format, machine, base, blob) is Ok,
        table_inside(data),
        note_is_behind(data, machine),
        0 <= k < blob.len(),
    ensures
        ({
            let file = injected(data, format, machine, base, blob)->Ok_0;
            let off = round_up(data.len() as int, PAGE as int);
            &&& 0 <= off
            &&& off + blob.len() == file.len() <= usize::MAX
            &&& file[off + k] == blob[k]
        }),
{
    let s = slot(data, machine)->Ok_0;
    let l = layout(machine.is_64);
    let t = table(data, machine);
    let j = lemma_slot_position(data, machine);
    lemma_slot(data, machine);
    lemma_file_kept(data, format, machine, base, blob);
    lemma_same_table(data, machine);
    assert(s.at + l.entry <= data.len()) by {
        if !s.grows {
            assert((j + 1) * l.entry <= t.count * l.entry && (j + 1) * l.entry == j * l.entry
                + l.entry) by (nonlinear_arith)
                requires
                    j + 1 <= t.count,
                    l.entry >= 0,
            ;
        }
    }
    law_round_up(data.len() as int, PAGE as int);
    law_injected_content(data, format, machine, base, blob);
}

/// Where a segment at one position is the only new one, it maps what no other held.
proof fn lemma_newly_held(before: Seq<Segment>, after: Seq<Segment>, j: int, va: int)
    requires
        0 <= j < after.len(),
        after.len() == before.len() || after.len() == before.len() + 1 && j == before.len(),
        holds(after[j], va),
        forall|i: int| 0 <= i < before.len() && i != j ==> #[trigger] after[i] == before[i],
        forall|i: int| 0 <= i < before.len() ==> !holds(#[trigger] before[i], va),
    ensures
        file_offset(after, va) == Some(after[j].p_offset + (va - after[j].p_vaddr)),
{
    assert forall|i: int| 0 <= i < after.len() && i != j implies !holds(#[trigger] after[i], va) by {
        assert(after[i] == before[i]);
    }
    lemma_only_holder(after, j, va);
}

/// Lists that differ at one position only, or by one more segment, map an address in the same way
/// where the segments there do not hold it.
proof fn lemma_same_offset(before: Seq<Segment>, after: Seq<Segment>, j: int, va: int)
    requires
        0 <= j < after.len(),
        after.len() == before.len() || after.len() == before.len() + 1 && j == before.len(),
        !holds(after[j], va),
        j < before.len() ==> !holds(before[j], va),
        forall|i: int| 0 <= i < before.len() && i != j ==> #[trigger] after[i] == before[i],
    ensures
        file_offset(after, va) == file_offset(before, va),
    decreases after.len(),
{
    let rest = after.drop_first();
    if j > 0 {
        let old = before.drop_first();
        assert(after[0] == before[0]);
        assert(rest[j - 1] == after[j]);
        assert forall|i: int| 0 <= i < old.len() && i != j - 1 implies #[trigger] rest[i]
            == old[i] by {
            assert(rest[i] == after[i + 1] && old[i] == before[i + 1]);
        }
        if j < before.len() {
            assert(old[j - 1] == before[j]);
        }
        lemma_same_offset(old, rest, j - 1, va);
    } else if before.len() > 0 {
        assert(rest =~= before.drop_first()) by {
            assert forall|i: int| 0 <= i < rest.len() implies rest[i] == before.drop_first()[i] by {
                assert(after[i + 1] == before[i + 1]);
            }
        }
    }
}

/// An injection leaves every address outside the new segment mapped as it was.
///
/// Holds where a note that is converted lies behind the fields of the ELF header that say where
/// the program headers are.
pub proof fn law_injection_keeps_mappings(
    data: Seq<u8>,
    format: BinaryFormat,
    machine: Machine,
    base: u64,
    blob: Seq<u8>,
    va: int,
)
    requires
        injected(data, format, machine, base, blob) is Ok,
        table_inside(data),
        note_is_behind(data, machine),
        !(base <= va < base + blob.len()),
    ensures
        ({
            let file = injected(data, format, machine, base, blob)->Ok_0;
            file_offset(segments_of(file), va) == file_offset(segments_of(data), va)
        }),
{
    let file = injected(data, format, machine, base, blob)->Ok_0;
    let j = law_injected_segments(data, format, machine, base, blob);
    lemma_same_offset(segments_of(data), segments_of(file), j, va);
}

/// Whether no loaded segment claims more bytes in the file than in memory.
pub open spec fn sizes_agree(segments: Seq<Segment>) -> bool {
    forall|i: int|
        0 <= i < segments.len() && (#[trigger] segments[i]).p_type == PT_LOAD
            ==> segments[i].p_filesz <= segments[i].p_memsz
}

/// At the default place of the injected segment and above no segment holds anything, unless one
/// claims more bytes in the file than in memory.
pub proof fn law_default_base_is_free(segments: Seq<Segment>, va: int)
    requires
        sizes_agree(segments),
        va >= above(segments),
    ensures
        forall|i: int| 0 <= i < segments.len() ==> !holds(#[trigger] segments[i], va),
{
    law_injected_base(segments);
    assert forall|i: int| 0 <= i < segments.len() implies !holds(#[trigger] segments[i], va) by {
        assert(memory_end(segments[i]) + PAGE <= above(segments));
    }
}

/// An address that is mapped is held by a segment.
proof fn lemma_holder(segments: Seq<Segment>, va: int)
    requires
        file_offset(segments, va) is Some,
    ensures
        exists|i: int| 0 <= i < segments.len() && holds(#[trigger] segments[i], va),
    decreases segments.len(),
{
    if !holds(segments[0], va) {
        let rest = segments.drop_first();
        lemma_holder(rest, va);
        let i = choose|i: int| 0 <= i < rest.len() && holds(#[trigger] rest[i], va);
        assert(segments[i + 1] == rest[i]);
    }
}

/// What is injected at the default place is mapped there: wherever the new file is still read as
/// an ELF image, each address of the new segment leads to the byte of the blob that was put there.
///
/// Holds where no loaded segment claims more bytes in the file than in memory, and a note that is
/// converted lies behind the fields of the ELF header that say where the program headers are.
pub proof fn law_default_injection(
    data: Seq<u8>,
    format: BinaryFormat,
    machine: Machine,
    base: u64,
    blob: Seq<u8>,
    k: int,
)
    requires
        placement(data, None) == Ok::<u64, Fault<Seq<char>>>(base),
        injected(data, format, machine, base, blob) is Ok,
        sizes_agree(segments_of(data)),
        note_is_behind(data, machine),
        0 <= k < blob.len(),
        base + k <= u64::MAX,
    ensures
        ({
            let file = injected(data, format, machine, base, blob)->Ok_0;
            let at = round_up(data.len() as int, PAGE as int) + k;
            &&& mapped(file, (base + k) as u64) == match elf_segments(file) {
                Err(f) => Err(f),
                Ok(_) => Ok::<usize, Fault<Seq<char>>>(at as usize),
            }
            &&& at < file.len() <= usize::MAX
            &&& file[at] == blob[k]
        }),
{
    lemma_read(data);
    lemma_read(injected(data, format, machine, base, blob)->Ok_0);
    law_default_base_is_free(segments_of(data), base + k);
    law_injected_maps(data, format, machine, base, blob, k);
}

/// After an injection at the default place, every address that was mapped before keeps its file
/// offset, wherever the new file is still read as an ELF image.
///
/// Holds where no loaded segment claims more bytes in the file than in memory, and a note that is
/// converted lies behind the fields of the ELF header that say where the program headers are.
pub proof fn law_default_injection_keeps(
    data: Seq<u8>,
    format: BinaryFormat,
    machine: Machine,
    base: u64,
    blob: Seq<u8>,
    va: u64,
)
    requires
        placement(data, None) == Ok::<u64, Fault<Seq<char>>>(base),
        injected(data, format, machine, base, blob) is Ok,
        sizes_agree(segments_of(data)),
        note_is_behind(data, machine),
        mapped(data, va) is Ok,
    ensures
        ({
            let file = injected(data, format, machine, base, blob)->Ok_0;
            mapped(file, va) == match elf_segments(file) {
                Err(f) => Err(f),
                Ok(_) => mapped(data, va),
            }
        }),
{
    lemma_read(data);
    lemma_read(injected(data, format, machine, base, blob)->Ok_0);
    lemma_holder(segments_of(data), va as int);
    if va >= base {
        law_default_base_is_free(segments_of(data), va as int);
    }
    law_injection_keeps_mappings(data, format, machine, base, blob, va as int);
}

/// The segments that are read of a file are those that its bytes describe.
proof fn lemma_read(data: Seq<u8>)
    ensures
        elf_segments(data) matches Ok(segments) ==> segments == segments_of(data) && table_inside(
            data,
        ),
{
}

} // verus!
