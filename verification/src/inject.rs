//! Injection of a segment: a program header to map it with, and its bytes at the end of the file.
use crate::binary::{law_round_up, round_up, saturated, PAGE};
use crate::bytes::{copy_at, lemma_value_of_digits, overwrite, pow256, push_uint, uint_at, Endian};
use crate::elf::{elf_ident, header_at, layout, layout_of, Header, Layout};
use crate::error::{agrees, Error, Fault, Machine};
use crate::image::{BinaryFormat, PT_LOAD, PT_NOTE};
use vstd::prelude::*;

verus! {

/// Whether `data` is an ELF file of that class and byte order, with room for a header.
pub open spec fn injectable(data: Seq<u8>, format: BinaryFormat, machine: Machine) -> bool {
    &&& format == BinaryFormat::Elf
    &&& data.len() >= 64
    &&& elf_ident(data, machine.endian, machine.is_64)
}

/// A program-header table: where it starts, and how many headers of which layout it has.
pub struct Table {
    pub endian: Endian,
    pub layout: Layout,
    pub start: int,
    pub count: int,
}

impl Table {
    /// The offset of the `i`-th header.
    pub open spec fn at(self, i: int) -> int {
        self.start + i * self.layout.entry
    }

    /// The offset of the first note header from the `i`-th on.
    pub open spec fn note(self, data: Seq<u8>, i: int) -> Result<Option<int>, Fault<Seq<char>>>
        decreases self.count - i,
    {
        if i >= self.count {
            Ok(None)
        } else if self.at(i) + 4 > data.len() {
            Err(Fault::TruncatedHeaders)
        } else if uint_at(self.endian, data, self.at(i), 4) == PT_NOTE {
            Ok(Some(self.at(i)))
        } else {
            self.note(data, i + 1)
        }
    }

    /// The least of `least` and the non-zero file offsets that the headers from the `i`-th on
    /// claim.
    pub open spec fn claimed(self, data: Seq<u8>, i: int, least: u64) -> Result<
        u64,
        Fault<Seq<char>>,
    >
        decreases self.count - i,
    {
        if i >= self.count {
            Ok(least)
        } else if self.at(i) + self.layout.p_offset + self.layout.word > data.len() {
            Err(Fault::TruncatedHeaders)
        } else {
            let p_offset = uint_at(
                self.endian,
                data,
                self.at(i) + self.layout.p_offset,
                self.layout.word as int,
            );
            self.claimed(
                data,
                i + 1,
                if 0 < p_offset < least {
                    p_offset as u64
                } else {
                    least
                },
            )
        }
    }
}

/// The program-header table that the ELF header announces.
pub open spec fn table(data: Seq<u8>, machine: Machine) -> Table {
    let l = layout(machine.is_64);
    Table {
        endian: machine.endian,
        layout: l,
        start: uint_at(machine.endian, data, l.phoff as int, l.word as int) as int,
        count: uint_at(machine.endian, data, l.phnum as int, 2) as int,
    }
}

/// Where the header of the injected segment goes, and whether the table grows for it.
pub struct Slot {
    pub at: int,
    pub grows: bool,
}

/// The unclaimed bytes of the file behind the table, where `first` is the least offset that a
/// segment or the section-header table claims. There are none where the ELF header reaches behind
/// the table, or where the header count, which is to change, lies inside the table.
pub open spec fn padding_behind(data: Seq<u8>, t: Table, first: u64) -> int {
    let end = t.at(t.count);
    let bound = if first < data.len() {
        first as int
    } else {
        data.len() as int
    };
    if end < t.layout.size || t.start < t.layout.phnum + 2 || bound < end {
        0
    } else {
        bound - end
    }
}

/// The slot behind the table, in the padding up to whatever a segment or the section-header
/// table claims first, or up to the end of the file.
pub open spec fn padding_slot(data: Seq<u8>, machine: Machine) -> Result<Slot, Fault<Seq<char>>> {
    let t = table(data, machine);
    match t.claimed(data, 0, u64::MAX) {
        Err(f) => Err(f),
        Ok(least) => {
            let shoff = uint_at(machine.endian, data, t.layout.shoff as int, t.layout.word as int);
            let first = if 0 < shoff < least {
                shoff as u64
            } else {
                least
            };
            let end = t.at(t.count);
            let gap = padding_behind(data, t, first);
            if first == u64::MAX || first < end {
                Err(Fault::NoRoom { first_claimed: first, table_end: saturated(end) })
            } else if gap < t.layout.entry {
                Err(Fault::NoPadding { gap: gap as u64, needed: t.layout.entry as u64 })
            } else if t.count + 1 > 0xffff {
                Err(Fault::TooManyHeaders)
            } else {
                Ok(Slot { at: end, grows: true })
            }
        },
    }
}

/// The slot for the injected segment: the first note header, else one behind the table.
pub open spec fn slot(data: Seq<u8>, machine: Machine) -> Result<Slot, Fault<Seq<char>>> {
    let t = table(data, machine);
    let size = uint_at(machine.endian, data, t.layout.phentsize as int, 2);
    if size != t.layout.entry {
        Err(Fault::EntrySize { size: size as u64 })
    } else {
        match t.note(data, 0) {
            Err(f) => Err(f),
            Ok(Some(at)) => Ok(Slot { at, grows: false }),
            Ok(None) => padding_slot(data, machine),
        }
    }
}

/// A readable and executable `PT_LOAD` header that maps `len` bytes at `file_off` to `base`.
pub open spec fn load_header(machine: Machine, file_off: nat, base: nat, len: nat) -> Seq<u8> {
    let e = machine.endian;
    if machine.is_64 {
        e.digits(PT_LOAD as nat, 4) + e.digits(5, 4) + e.digits(file_off, 8) + e.digits(base, 8)
            + e.digits(base, 8) + e.digits(len, 8) + e.digits(len, 8) + e.digits(PAGE as nat, 8)
    } else {
        e.digits(PT_LOAD as nat, 4) + e.digits(file_off, 4) + e.digits(base, 4) + e.digits(base, 4)
            + e.digits(len, 4) + e.digits(len, 4) + e.digits(5, 4) + e.digits(PAGE as nat, 4)
    }
}

/// The file with its header count raised, padded to a page and followed by the blob.
pub open spec fn extended(data: Seq<u8>, machine: Machine, grows: bool, blob: Seq<u8>) -> Seq<u8> {
    let t = table(data, machine);
    let counted = if grows {
        overwrite(
            data,
            t.layout.phnum as int,
            machine.endian.digits((t.count + 1) as nat, 2),
        )
    } else {
        data
    };
    let pad = round_up(data.len() as int, PAGE as int) - data.len();
    counted + Seq::new(pad as nat, |i: int| 0u8) + blob
}

/// Whether the headers of the machine's class can hold the number `v`.
pub open spec fn expressible(machine: Machine, v: int) -> bool {
    machine.is_64 || v < 0x1_0000_0000
}

/// The file after the injection of `blob` at the address `base`.
pub open spec fn injected(
    data: Seq<u8>,
    format: BinaryFormat,
    machine: Machine,
    base: u64,
    blob: Seq<u8>,
) -> Result<Seq<u8>, Fault<Seq<char>>> {
    if base % PAGE != 0 {
        Err(Fault::MisalignedBase { base })
    } else if !injectable(data, format, machine) {
        Err(Fault::NotInjectable)
    } else {
        match slot(data, machine) {
            Err(f) => Err(f),
            Ok(s) => {
                let file_off = round_up(data.len() as int, PAGE as int);
                let entry = layout(machine.is_64).entry;
                if file_off + blob.len() > usize::MAX || !expressible(machine, base as int)
                    || !expressible(machine, file_off) || !expressible(
                    machine,
                    blob.len() as int,
                ) {
                    Err(Fault::AddressOverflow)
                } else if s.at + entry > file_off + blob.len() {
                    Err(Fault::TruncatedHeaders)
                } else {
                    Ok(
                        overwrite(
                            extended(data, machine, s.grows, blob),
                            s.at,
                            load_header(machine, file_off as nat, base as nat, blob.len()),
                        ),
                    )
                }
            },
        }
    }
}

/// Whether `r` is the offset, or the error, that `goal` names.
spec fn is_offset(
    r: Result<Option<usize>, Error>,
    goal: Result<Option<int>, Fault<Seq<char>>>,
) -> bool {
    match r {
        Ok(None) => goal == Ok::<Option<int>, Fault<Seq<char>>>(None),
        Ok(Some(at)) => goal == Ok::<Option<int>, Fault<Seq<char>>>(Some(at as int)),
        Err(e) => goal == Err::<Option<int>, Fault<Seq<char>>>(e@),
    }
}

/// The offset of the `i`-th header, where `len` more bytes from its field at `skip` on lie
/// inside the file.
fn entry_at(data: &[u8], start: u64, entry: usize, i: u64, skip: usize, len: usize) -> (r: Option<
    usize,
>)
    requires
        entry <= 56,
        skip <= 56,
        len <= 8,
        i <= 0xffff,
    ensures
        match r {
            None => start + i * entry + skip + len > data@.len(),
            Some(at) => at == start + i * entry && at + skip + len <= data@.len(),
        },
{
    assert(0 <= i * entry <= 0xffff * 56) by (nonlinear_arith)
        requires
            0 <= i <= 0xffff,
            0 <= entry <= 56,
    ;
    let at: u128 = start as u128 + i as u128 * entry as u128;
    assert(data.len() <= usize::MAX);
    if at + skip as u128 + len as u128 > data.len() as u128 {
        return None;
    }
    Some(at as usize)
}

/// The offset of the first note header.
fn find_note(data: &[u8], endian: Endian, l: Layout, start: u64, count: u64) -> (r: Result<
    Option<usize>,
    Error,
>)
    requires
        l.entry <= 56,
        count <= 0xffff,
    ensures
        is_offset(
            r,
            (Table { endian, layout: l, start: start as int, count: count as int }).note(data@, 0),
        ),
{
    let ghost t = Table { endian, layout: l, start: start as int, count: count as int };
    let mut i: u64 = 0;
    while i < count
        invariant
            i <= count <= 0xffff,
            l.entry <= 56,
            t == (Table { endian, layout: l, start: start as int, count: count as int }),
            t.note(data@, 0) == t.note(data@, i as int),
        decreases count - i,
    {
        match entry_at(data, start, l.entry, i, 0, 4) {
            None => {
                return Err(Fault::TruncatedHeaders);
            },
            Some(at) => {
                if endian.read_uint(data, at, 4) == PT_NOTE as u64 {
                    return Ok(Some(at));
                }
            },
        }
        i = i + 1;
    }
    Ok(None)
}

/// The least non-zero file offset that a header claims.
fn least_claimed(data: &[u8], endian: Endian, l: Layout, start: u64, count: u64) -> (r: Result<
    u64,
    Error,
>)
    requires
        l.entry <= 56,
        l.p_offset <= 8,
        l.word <= 8,
        count <= 0xffff,
    ensures
        agrees(
            r,
            (Table { endian, layout: l, start: start as int, count: count as int }).claimed(
                data@,
                0,
                u64::MAX,
            ),
        ),
{
    let ghost t = Table { endian, layout: l, start: start as int, count: count as int };
    let mut least: u64 = u64::MAX;
    let mut i: u64 = 0;
    assert(data.len() <= usize::MAX);
    while i < count
        invariant
            i <= count <= 0xffff,
            data@.len() <= usize::MAX,
            l.entry <= 56,
            l.p_offset <= 8,
            l.word <= 8,
            t == (Table { endian, layout: l, start: start as int, count: count as int }),
            t.claimed(data@, 0, u64::MAX) == t.claimed(data@, i as int, least),
        decreases count - i,
    {
        match entry_at(data, start, l.entry, i, l.p_offset, l.word) {
            None => {
                return Err(Fault::TruncatedHeaders);
            },
            Some(at) => {
                let p_offset: u64 = endian.read_uint(data, at + l.p_offset, l.word);
                if 0 < p_offset && p_offset < least {
                    least = p_offset;
                }
            },
        }
        i = i + 1;
    }
    Ok(least)
}

/// Where the header of the injected segment goes, and whether the table grows for it.
fn find_slot(data: &[u8], machine: Machine) -> (r: Result<(u64, bool), Error>)
    requires
        data@.len() >= 64,
    ensures
        match slot(data@, machine) {
            Err(f) => r matches Err(e) && e@ == f,
            Ok(s) => r == Ok::<(u64, bool), Error>((s.at as u64, s.grows)) && 0 <= s.at <= u64::MAX,
        },
{
    let l = layout_of(machine.is_64);
    let endian = machine.endian;
    let start: u64 = endian.read_uint(data, l.phoff, l.word);
    let size: u64 = endian.read_uint(data, l.phentsize, 2);
    let count: u64 = endian.read_uint(data, l.phnum, 2);
    assert(pow256(2) == 0x1_0000) by {
        reveal_with_fuel(pow256, 3);
    }
    if size != l.entry as u64 {
        return Err(Fault::EntrySize { size });
    }
    let ghost t = table(data@, machine);
    match find_note(data, endian, l, start, count) {
        Err(e) => {
            return Err(e);
        },
        Ok(Some(at)) => {
            return Ok((at as u64, false));
        },
        Ok(None) => {},
    }
    let least: u64 = match least_claimed(data, endian, l, start, count) {
        Err(e) => {
            return Err(e);
        },
        Ok(least) => least,
    };
    let shoff: u64 = endian.read_uint(data, l.shoff, l.word);
    let first: u64 = if 0 < shoff && shoff < least {
        shoff
    } else {
        least
    };
    assert(0 <= count * l.entry <= 0xffff * 56) by (nonlinear_arith)
        requires
            0 <= count <= 0xffff,
            0 <= l.entry <= 56,
    ;
    let end: u128 = start as u128 + count as u128 * l.entry as u128;
    assert(end == t.at(t.count));
    if first == u64::MAX || (first as u128) < end {
        let table_end: u64 = if end > u64::MAX as u128 {
            u64::MAX
        } else {
            end as u64
        };
        return Err(Fault::NoRoom { first_claimed: first, table_end });
    }
    let end: u64 = end as u64;
    assert(data.len() <= usize::MAX);
    let len: u64 = data.len() as u64;
    let bound: u64 = if first < len {
        first
    } else {
        len
    };
    let gap: u64 = if end < l.size as u64 || start < l.phnum as u64 + 2 || bound < end {
        0
    } else {
        bound - end
    };
    if gap < l.entry as u64 {
        return Err(Fault::NoPadding { gap, needed: l.entry as u64 });
    }
    if count + 1 > 0xffff {
        return Err(Fault::TooManyHeaders);
    }
    Ok((end, true))
}

/// A readable and executable `PT_LOAD` header that maps `len` bytes at `file_off` to `base`.
/// The 32- and 64-bit layouts differ in field order and width (`p_flags` comes second in
/// ELF64 and second to last in ELF32).
fn header_bytes(machine: Machine, file_off: u64, base: u64, len: u64) -> (h: Vec<u8>)
    ensures
        h@ == load_header(machine, file_off as nat, base as nat, len as nat),
        h@.len() == layout(machine.is_64).entry,
{
    let e = machine.endian;
    proof {
        lemma_header_len(machine, file_off as nat, base as nat, len as nat);
    }
    let mut h: Vec<u8> = Vec::new();
    if machine.is_64 {
        push_uint(e, &mut h, 4, PT_LOAD as u64);
        push_uint(e, &mut h, 4, 5);
        push_uint(e, &mut h, 8, file_off);
        push_uint(e, &mut h, 8, base);
        push_uint(e, &mut h, 8, base);
        push_uint(e, &mut h, 8, len);
        push_uint(e, &mut h, 8, len);
        push_uint(e, &mut h, 8, PAGE);
    } else {
        push_uint(e, &mut h, 4, PT_LOAD as u64);
        push_uint(e, &mut h, 4, file_off);
        push_uint(e, &mut h, 4, base);
        push_uint(e, &mut h, 4, base);
        push_uint(e, &mut h, 4, len);
        push_uint(e, &mut h, 4, len);
        push_uint(e, &mut h, 4, 5);
        push_uint(e, &mut h, 4, PAGE);
    }
    assert(h@ =~= load_header(machine, file_off as nat, base as nat, len as nat));
    h
}

proof fn lemma_header_len(machine: Machine, file_off: nat, base: nat, len: nat)
    ensures
        load_header(machine, file_off, base, len).len() == layout(machine.is_64).entry,
        forall|v: nat, w: nat| #[trigger] machine.endian.digits(v, w).len() == w,
{
    assert forall|v: nat, w: nat| #[trigger] machine.endian.digits(v, w).len() == w by {
        lemma_value_of_digits(machine.endian, v, w);
    }
}

/// Inject `blob` into the file `data` as a segment at `base`.
///
/// An existing `PT_NOTE` program header is converted into a `PT_LOAD`, so that the
/// program-header table need not be moved. Many statically-linked targets carry no `PT_NOTE`;
/// for them the table grows by one entry into the padding between itself and whatever comes
/// first after it in the file. It stays inside bytes of the file that nothing claims, and is
/// refused where there are too few. An address, a file offset or a length that the class of the file
/// cannot express is an error. On an error the file is left as it was.
pub fn inject(
    data: &mut Vec<u8>,
    format: BinaryFormat,
    machine: Machine,
    base: u64,
    blob: &[u8],
) -> (r: Result<(), Error>)
    ensures
        match injected(old(data)@, format, machine, base, blob@) {
            Ok(d) => r is Ok && final(data)@ == d,
            Err(f) => r matches Err(e) && e@ == f && final(data)@ == old(data)@,
        },
{
    if base % PAGE != 0 {
        return Err(Fault::MisalignedBase { base });
    }
    let class: u8 = if machine.is_64 {
        2
    } else {
        1
    };
    let order: u8 = match machine.endian {
        Endian::Little => 1,
        Endian::Big => 2,
    };
    if format != BinaryFormat::Elf || data.len() < 64 || data[0] != 0x7f || data[1] != 0x45
        || data[2] != 0x4c || data[3] != 0x46 || data[4] != class || data[5] != order {
        return Err(Fault::NotInjectable);
    }
    let (at, grows): (u64, bool) = match find_slot(data, machine) {
        Err(e) => {
            return Err(e);
        },
        Ok(s) => s,
    };
    let ghost before = data@;
    let ghost t = table(before, machine);
    let l = layout_of(machine.is_64);
    let len: usize = data.len();
    proof {
        law_round_up(len as int, PAGE as int);
    }
    let file_off: u128 = (len as u128 + 0xfff) / 0x1000 * 0x1000;
    let end: u128 = file_off + blob.len() as u128;
    if end > usize::MAX as u128 {
        return Err(Fault::AddressOverflow);
    }
    if !machine.is_64 && (base >= 0x1_0000_0000 || file_off >= 0x1_0000_0000 || blob.len() as u64
        >= 0x1_0000_0000) {
        return Err(Fault::AddressOverflow);
    }
    if at as u128 + l.entry as u128 > end {
        return Err(Fault::TruncatedHeaders);
    }
    if grows {
        let count: u64 = machine.endian.read_uint(data, l.phnum, 2);
        assert(pow256(2) == 0x1_0000) by {
            reveal_with_fuel(pow256, 3);
        }
        machine.endian.write_uint(data, l.phnum, 2, count + 1);
    }
    let ghost counted = data@;
    proof {
        lemma_value_of_digits(machine.endian, (t.count + 1) as nat, 2);
        assert(counted.len() == before.len());
    }
    data.resize(file_off as usize, 0);
    data.extend_from_slice(blob);
    assert(data@ =~= extended(before, machine, grows, blob@));
    let header = header_bytes(machine, file_off as u64, base, blob.len() as u64);
    copy_at(data, at as usize, &header);
    Ok(())
}

proof fn lemma_field(endian: Endian, buf: Seq<u8>, at: int, h: Seq<u8>, k: int, w: nat, v: nat)
    requires
        0 <= at,
        at + h.len() <= buf.len(),
        0 <= k,
        k + w <= h.len(),
        h.subrange(k, k + w) == endian.digits(v, w),
        v < pow256(w),
    ensures
        uint_at(endian, overwrite(buf, at, h), at + k, w as int) == v,
{
    lemma_value_of_digits(endian, v, w);
    vstd::arithmetic::div_mod::lemma_small_mod(v, pow256(w));
    assert(overwrite(buf, at, h).subrange(at + k, at + k + w) =~= h.subrange(k, k + w));
}

proof fn lemma_written_header(
    machine: Machine,
    buf: Seq<u8>,
    at: int,
    file_off: nat,
    base: nat,
    len: nat,
)
    requires
        0 <= at,
        at + layout(machine.is_64).entry <= buf.len(),
        file_off < pow256(layout(machine.is_64).word as nat),
        base < pow256(layout(machine.is_64).word as nat),
        len < pow256(layout(machine.is_64).word as nat),
    ensures
        header_at(
            machine.endian,
            machine.is_64,
            overwrite(buf, at, load_header(machine, file_off, base, len)),
            at,
        ) == (Header {
            p_type: PT_LOAD as nat,
            p_flags: 5,
            p_offset: file_off,
            p_vaddr: base,
            p_paddr: base,
            p_filesz: len,
            p_memsz: len,
            p_align: PAGE as nat,
        }),
{
    let e = machine.endian;
    let h = load_header(machine, file_off, base, len);
    lemma_header_len(machine, file_off, base, len);
    assert(pow256(4) == 0x1_0000_0000 && pow256(8) == 0x1_0000_0000_0000_0000) by {
        reveal_with_fuel(pow256, 9);
    }
    assert(h.subrange(0, 4) =~= e.digits(PT_LOAD as nat, 4));
    lemma_field(e, buf, at, h, 0, 4, PT_LOAD as nat);
    if machine.is_64 {
        assert(h.subrange(4, 8) =~= e.digits(5, 4));
        assert(h.subrange(8, 16) =~= e.digits(file_off, 8));
        assert(h.subrange(16, 24) =~= e.digits(base, 8));
        assert(h.subrange(24, 32) =~= e.digits(base, 8));
        assert(h.subrange(32, 40) =~= e.digits(len, 8));
        assert(h.subrange(40, 48) =~= e.digits(len, 8));
        assert(h.subrange(48, 56) =~= e.digits(PAGE as nat, 8));
        lemma_field(e, buf, at, h, 4, 4, 5);
        lemma_field(e, buf, at, h, 8, 8, file_off);
        lemma_field(e, buf, at, h, 16, 8, base);
        lemma_field(e, buf, at, h, 24, 8, base);
        lemma_field(e, buf, at, h, 32, 8, len);
        lemma_field(e, buf, at, h, 40, 8, len);
        lemma_field(e, buf, at, h, 48, 8, PAGE as nat);
    } else {
        assert(h.subrange(4, 8) =~= e.digits(file_off, 4));
        assert(h.subrange(8, 12) =~= e.digits(base, 4));
        assert(h.subrange(12, 16) =~= e.digits(base, 4));
        assert(h.subrange(16, 20) =~= e.digits(len, 4));
        assert(h.subrange(20, 24) =~= e.digits(len, 4));
        assert(h.subrange(24, 28) =~= e.digits(5, 4));
        assert(h.subrange(28, 32) =~= e.digits(PAGE as nat, 4));
        lemma_field(e, buf, at, h, 4, 4, file_off);
        lemma_field(e, buf, at, h, 8, 4, base);
        lemma_field(e, buf, at, h, 12, 4, base);
        lemma_field(e, buf, at, h, 16, 4, len);
        lemma_field(e, buf, at, h, 20, 4, len);
        lemma_field(e, buf, at, h, 24, 4, 5);
        lemma_field(e, buf, at, h, 28, 4, PAGE as nat);
    }
}

/// An injection leaves a header that maps the blob, readable and executable, from a page-aligned
/// file offset to `base`, so that address and offset agree modulo the page.
pub proof fn law_injected_header(
    data: Seq<u8>,
    format: BinaryFormat,
    machine: Machine,
    base: u64,
    blob: Seq<u8>,
)
    requires
        injected(data, format, machine, base, blob) is Ok,
    ensures
        ({
            let after = injected(data, format, machine, base, blob)->Ok_0;
            let h = header_at(machine.endian, machine.is_64, after, slot(data, machine)->Ok_0.at);
            &&& h == (Header {
                p_type: PT_LOAD as nat,
                p_flags: 5,
                p_offset: round_up(data.len() as int, PAGE as int) as nat,
                p_vaddr: base as nat,
                p_paddr: base as nat,
                p_filesz: blob.len(),
                p_memsz: blob.len(),
                p_align: PAGE as nat,
            })
            &&& h.p_vaddr % h.p_align == h.p_offset % h.p_align
        }),
{
    let file_off = round_up(data.len() as int, PAGE as int);
    let s = slot(data, machine)->Ok_0;
    law_round_up(data.len() as int, PAGE as int);
    lemma_slot(data, machine);
    assert(pow256(4) == 0x1_0000_0000 && pow256(8) == 0x1_0000_0000_0000_0000) by {
        reveal_with_fuel(pow256, 9);
    }
    lemma_extended_len(data, machine, s.grows, blob);
    lemma_written_header(
        machine,
        extended(data, machine, s.grows, blob),
        s.at,
        file_off as nat,
        base as nat,
        blob.len(),
    );
}

proof fn lemma_extended_len(data: Seq<u8>, machine: Machine, grows: bool, blob: Seq<u8>)
    requires
        data.len() >= 64,
    ensures
        extended(data, machine, grows, blob).len() == round_up(data.len() as int, PAGE as int)
            + blob.len(),
{
    law_round_up(data.len() as int, PAGE as int);
    lemma_value_of_digits(machine.endian, (table(data, machine).count + 1) as nat, 2);
}

/// A slot lies at or behind the start of the table; one that the table grows into lies inside the
/// file, behind the ELF header.
pub proof fn lemma_slot(data: Seq<u8>, machine: Machine)
    ensures
        slot(data, machine) matches Ok(s) ==> 0 <= s.at && (s.grows ==> {
            let l = layout(machine.is_64);
            &&& table(data, machine).start >= l.phnum + 2
            &&& s.at >= l.size
            &&& s.at + l.entry <= data.len()
        }),
{
    let t = table(data, machine);
    lemma_note(t, data, 0);
    assert(t.count * t.layout.entry >= 0) by (nonlinear_arith)
        requires
            t.count >= 0,
            t.layout.entry >= 0,
    ;
}

proof fn lemma_note(t: Table, data: Seq<u8>, i: int)
    requires
        0 <= i,
        0 <= t.start,
    ensures
        t.note(data, i) matches Ok(Some(at)) ==> 0 <= at && at + 4 <= data.len() && uint_at(
            t.endian,
            data,
            at,
            4,
        ) == PT_NOTE,
    decreases t.count - i,
{
    assert(i * t.layout.entry >= 0) by (nonlinear_arith)
        requires
            i >= 0,
            t.layout.entry >= 0,
    ;
    if i < t.count {
        lemma_note(t, data, i + 1);
    }
}

/// An injection pads the old file with zeroes to a page and appends the blob. Outside the slot it
/// changes no other byte of the old file than, where the table grows, the header count: where a
/// note is converted the count stays what it was.
#[verifier::rlimit(60)]
pub proof fn law_injected_content(
    data: Seq<u8>,
    format: BinaryFormat,
    machine: Machine,
    base: u64,
    blob: Seq<u8>,
)
    requires
        injected(data, format, machine, base, blob) is Ok,
    ensures
        ({
            let after = injected(data, format, machine, base, blob)->Ok_0;
            let s = slot(data, machine)->Ok_0;
            let l = layout(machine.is_64);
            let file_off = round_up(data.len() as int, PAGE as int);
            &&& after.len() == file_off + blob.len()
            &&& forall|i: int|
                0 <= i < data.len() && !(s.at <= i < s.at + l.entry) && !(s.grows && l.phnum <= i
                    < l.phnum + 2) ==> #[trigger] after[i] == data[i]
            &&& forall|i: int|
                data.len() <= i < file_off && !(s.at <= i < s.at + l.entry)
                    ==> #[trigger] after[i] == 0
            &&& forall|i: int|
                file_off <= i < after.len() && !(s.at <= i < s.at + l.entry)
                    ==> #[trigger] after[i] == blob[i - file_off]
            &&& s.at + l.entry <= file_off ==> after.subrange(file_off, file_off + blob.len())
                == blob
            &&& !s.grows && (s.at + l.entry <= l.phnum || l.phnum + 2 <= s.at) ==> table(
                after,
                machine,
            ).count == table(data, machine).count
        }),
{
    let s = slot(data, machine)->Ok_0;
    let l = layout(machine.is_64);
    let file_off = round_up(data.len() as int, PAGE as int);
    law_round_up(data.len() as int, PAGE as int);
    lemma_slot(data, machine);
    lemma_extended_len(data, machine, s.grows, blob);
    lemma_header_len(machine, file_off as nat, base as nat, blob.len());
    lemma_value_of_digits(machine.endian, (table(data, machine).count + 1) as nat, 2);
    let after = injected(data, format, machine, base, blob)->Ok_0;
    if s.at + l.entry <= file_off {
        assert(after.subrange(file_off, file_off + blob.len()) =~= blob);
    }
    if !s.grows && (s.at + l.entry <= l.phnum || l.phnum + 2 <= s.at) {
        assert(after.subrange(l.phnum as int, l.phnum + 2) =~= data.subrange(
            l.phnum as int,
            l.phnum + 2,
        ));
    }
}

/// Without a note header the table grows by one: the header count is one higher after the
/// injection, and the new header stands behind the others, in bytes of the old file that were
/// behind its ELF header.
pub proof fn law_table_grows(
    data: Seq<u8>,
    format: BinaryFormat,
    machine: Machine,
    base: u64,
    blob: Seq<u8>,
)
    requires
        injected(data, format, machine, base, blob) is Ok,
        slot(data, machine)->Ok_0.grows,
    ensures
        table(injected(data, format, machine, base, blob)->Ok_0, machine).count == table(
            data,
            machine,
        ).count + 1,
        slot(data, machine)->Ok_0.at == table(data, machine).at(table(data, machine).count),
        layout(machine.is_64).size <= slot(data, machine)->Ok_0.at,
        slot(data, machine)->Ok_0.at + layout(machine.is_64).entry <= data.len(),
{
    lemma_slot(data, machine);
    let s = slot(data, machine)->Ok_0;
    let l = layout(machine.is_64);
    let t = table(data, machine);
    let file_off = round_up(data.len() as int, PAGE as int);
    law_round_up(data.len() as int, PAGE as int);
    lemma_extended_len(data, machine, s.grows, blob);
    lemma_header_len(machine, file_off as nat, base as nat, blob.len());
    assert(pow256(2) == 0x1_0000) by {
        reveal_with_fuel(pow256, 3);
    }
    let count = (t.count + 1) as nat;
    lemma_value_of_digits(machine.endian, count, 2);
    vstd::arithmetic::div_mod::lemma_small_mod(count, pow256(2));
    let after = injected(data, format, machine, base, blob)->Ok_0;
    assert(after.subrange(l.phnum as int, l.phnum + 2) =~= machine.endian.digits(count, 2));
}

/// With a note header the first one is converted: it was a note before the injection.
pub proof fn law_note_is_converted(data: Seq<u8>, machine: Machine)
    requires
        slot(data, machine) is Ok,
        !slot(data, machine)->Ok_0.grows,
    ensures
        uint_at(machine.endian, data, slot(data, machine)->Ok_0.at, 4) == PT_NOTE,
{
    lemma_note(table(data, machine), data, 0);
}

} // verus!
