//! A binary file that can be patched.
use crate::arch::Architecture;
use crate::bytes::{copy_at, overwrite, Endian};
use crate::elf::elf_ident;
use crate::error::{agrees, Error, Fault, Machine};
use crate::image::{
    detect, detection, elf_segments, find_symbol, law_top, max_vaddr, memory_end, read_segments, read_tables,
    target_symbol, top, translate, translation, BinaryFormat, Segment,
};
use crate::inject::{inject, injected};
use crate::jump::{
    generate_jump_instruction, get_nop_instruction, is_code, jump, jump_target, law_jump_lands,
    law_jump_opcode, nop, reachable,
};
use vstd::prelude::*;

verus! {

/// Page size used for laying out the injected segment.
pub const PAGE: u64 = 0x1000;

/// The least multiple of `align` that is not below `x`.
pub open spec fn round_up(x: int, align: int) -> int {
    (x + align - 1) / align * align
}

/// Round `x` up to the next multiple of `align` (a power of two).
pub fn align_up(x: u64, align: u64) -> (r: u64)
    requires
        align > 0,
        x + align - 1 <= u64::MAX,
    ensures
        r == round_up(x as int, align as int),
        x <= r < x + align,
        r as int % align as int == 0,
{
    proof {
        law_round_up(x as int, align as int);
    }
    (x + (align - 1)) / align * align
}

/// Rounding up gives the multiple of `align` in `[x, x + align)`.
pub proof fn law_round_up(x: int, align: int)
    requires
        align > 0,
        x >= 0,
    ensures
        x <= round_up(x, align) < x + align,
        round_up(x, align) % align == 0,
        x % align == 0 ==> round_up(x, align) == x,
{
    let q = (x + align - 1) / align;
    assert(x <= q * align < x + align && (q * align) % align == 0) by (nonlinear_arith)
        requires
            align > 0,
            x >= 0,
            q == (x + align - 1) / align,
    ;
    if x % align == 0 {
        assert(q * align == x) by (nonlinear_arith)
            requires
                align > 0,
                x >= 0,
                x % align == 0,
                q == (x + align - 1) / align,
        ;
    }
}

/// `n`, or the largest 64-bit number where it is smaller.
pub open spec fn saturated(n: int) -> u64 {
    if n <= u64::MAX {
        n as u64
    } else {
        u64::MAX
    }
}

/// A binary file that can be patched.
pub struct Binary {
    data: Vec<u8>,
    format: BinaryFormat,
    arch: Architecture,
    is_64: bool,
    endian: Endian,
    base: Option<u64>,
}

/// The model of a binary: its bytes, what they are, and where the injected segment is to go
/// (one page past the image where nothing else was asked for).
pub struct BinaryView {
    pub data: Seq<u8>,
    pub format: BinaryFormat,
    pub machine: Machine,
    pub base: Option<u64>,
}

impl View for Binary {
    type V = BinaryView;

    closed spec fn view(&self) -> BinaryView {
        BinaryView {
            data: self.data@,
            format: self.format,
            machine: Machine { arch: self.arch, endian: self.endian, is_64: self.is_64 },
            base: self.base,
        }
    }
}

/// `n` bytes of no-operations: the instruction repeated, the last one cut off where it must be.
pub open spec fn nop_fill(machine: Machine, n: int) -> Seq<u8> {
    Seq::new(n as nat, |i: int| nop(machine)[i % nop(machine).len() as int])
}

/// What replaces a region of `region_len` bytes: the code, then no-operations.
pub open spec fn replacement(machine: Machine, region_len: int, code: Seq<u8>) -> Seq<u8> {
    code + nop_fill(machine, region_len - code.len())
}

/// The bytes of a binary after a region was replaced.
pub open spec fn patched(
    machine: Machine,
    data: Seq<u8>,
    offset: int,
    region_len: int,
    code: Seq<u8>,
) -> Result<Seq<u8>, Fault<Seq<char>>> {
    if code.len() > region_len {
        Err(Fault::TooLarge { code_len: code.len() as usize, region_len: region_len as usize })
    } else if offset + region_len > data.len() {
        Err(
            Fault::OutsideBinary {
                begin: saturated(offset),
                end: saturated(offset + region_len),
            },
        )
    } else {
        Ok(overwrite(data, offset, replacement(machine, region_len, code)))
    }
}

/// The bytes of a binary after the range from `begin` to `end` of the file was replaced.
pub open spec fn directly_patched(
    machine: Machine,
    data: Seq<u8>,
    begin: u64,
    end: u64,
    code: Seq<u8>,
) -> Result<Seq<u8>, Fault<Seq<char>>> {
    if code.len() > end - begin {
        Err(Fault::InvalidRange { begin, end })
    } else {
        patched(machine, data, begin as int, end - begin, code)
    }
}

/// The bytes of a binary after a jump to `target` was written at `begin`.
pub open spec fn jump_patched(machine: Machine, data: Seq<u8>, begin: u64, target: u64) -> Result<
    Seq<u8>,
    Fault<Seq<char>>,
> {
    match jump(machine, begin, target) {
        Err(f) => Err(f),
        Ok(code) => if begin + code.len() > data.len() {
            Err(Fault::InvalidRange { begin, end: saturated(begin + code.len()) })
        } else {
            Ok(overwrite(data, begin as int, code))
        },
    }
}

/// Whether a call on a binary that returned `r` did to its bytes what `goal` says, and left the
/// rest of the binary, and on an error its bytes, alone.
pub open spec fn rewrote(
    before: BinaryView,
    after: BinaryView,
    r: Result<(), Error>,
    goal: Result<Seq<u8>, Fault<Seq<char>>>,
) -> bool {
    match goal {
        Ok(data) => r is Ok && after == (BinaryView { data, ..before }),
        Err(f) => r matches Err(e) && e@ == f && after == before,
    }
}

impl Binary {
    /// A binary of the given bytes, format and machine.
    pub fn new(
        data: Vec<u8>,
        format: BinaryFormat,
        arch: Architecture,
        is_64: bool,
        endian: Endian,
    ) -> (b: Self)
        ensures
            b@ == (BinaryView {
                data: data@,
                format,
                machine: Machine { arch, endian, is_64 },
                base: None,
            }),
    {
        Binary { data, format, arch, is_64, endian, base: None }
    }

    /// The machine code is for.
    fn machine(&self) -> (m: Machine)
        ensures
            m == self@.machine,
    {
        Machine { arch: self.arch, endian: self.endian, is_64: self.is_64 }
    }

    /// Load a binary from the bytes of its file.
    pub fn load(data: Vec<u8>) -> (r: Result<Self, Error>)
        ensures
            match detection(data@) {
                Ok((format, machine)) => r matches Ok(b) && b@ == (BinaryView {
                    data: data@,
                    format,
                    machine,
                    base: None,
                }),
                Err(f) => r matches Err(e) && e@ == f,
            },
            r matches Ok(b) ==> (b@.format == BinaryFormat::Elf ==> elf_ident(
                data@,
                b@.machine.endian,
                b@.machine.is_64,
            )),
    {
        match Self::detect_format_and_arch(&data) {
            Err(e) => Err(e),
            Ok((format, arch, is_64, endian)) => Ok(
                Binary { data, format, arch, is_64, endian, base: None },
            ),
        }
    }

    /// Detect the binary format, architecture, pointer width, and byte order.
    pub fn detect_format_and_arch(data: &[u8]) -> (r: Result<
        (BinaryFormat, Architecture, bool, Endian),
        Error,
    >)
        ensures
            match detection(data@) {
                Ok((format, machine)) => r matches Ok(f) && f == (
                    format,
                    machine.arch,
                    machine.is_64,
                    machine.endian,
                ),
                Err(f) => r matches Err(e) && e@ == f,
            },
            r matches Ok((BinaryFormat::Elf, _, is_64, endian)) ==> elf_ident(data@, endian, is_64),
    {
        match detect(data) {
            Err(e) => Err(e),
            Ok((format, machine)) => Ok((format, machine.arch, machine.is_64, machine.endian)),
        }
    }

    /// Detect just the binary format.
    pub fn detect_format(data: &[u8]) -> (r: Result<BinaryFormat, Error>)
        ensures
            match detection(data@) {
                Ok((format, _)) => r == Ok::<BinaryFormat, Error>(format),
                Err(f) => r matches Err(e) && e@ == f,
            },
    {
        match detect(data) {
            Err(e) => Err(e),
            Ok((format, _)) => Ok(format),
        }
    }

    /// Apply a splice by directly patching the binary.
    ///
    /// `begin`/`end` are **file offsets** into the raw binary image; this is the
    /// low-level primitive. Callers working in virtual-address space translate
    /// via [`Binary::va_to_offset`] first.
    pub fn apply_direct_patch(&mut self, begin: u64, end: u64, code: &[u8]) -> (r: Result<
        (),
        Error,
    >)
        requires
            begin <= end,
        ensures
            rewrote(
                old(self)@,
                final(self)@,
                r,
                directly_patched(old(self)@.machine, old(self)@.data, begin, end, code@),
            ),
    {
        if code.len() as u64 > end - begin {
            return Err(Fault::InvalidRange { begin, end });
        }
        let len: u64 = self.data.len() as u64;
        if end > len {
            return Err(Fault::OutsideBinary { begin, end });
        }
        self.patch_bytes(begin as usize, (end - begin) as usize, code)
    }

    /// Write `code` at file offset `offset`, filling any trailing space up to
    /// `region_len` with NOP instructions. `code` must not be longer than
    /// `region_len`.
    pub fn patch_bytes(&mut self, offset: usize, region_len: usize, code: &[u8]) -> (r: Result<
        (),
        Error,
    >)
        ensures
            rewrote(
                old(self)@,
                final(self)@,
                r,
                patched(
                    old(self)@.machine,
                    old(self)@.data,
                    offset as int,
                    region_len as int,
                    code@,
                ),
            ),
    {
        if code.len() > region_len {
            return Err(Fault::TooLarge { code_len: code.len(), region_len });
        }
        if region_len > self.data.len() || offset > self.data.len() - region_len {
            let end: u128 = offset as u128 + region_len as u128;
            let end: u64 = if end > u64::MAX as u128 {
                u64::MAX
            } else {
                end as u64
            };
            return Err(Fault::OutsideBinary { begin: offset as u64, end });
        }
        let fill = get_nop_instruction(self.machine());
        let ghost m = self@.machine;
        let ghost before = self.data@;
        let ghost full = replacement(m, region_len as int, code@);
        assert(self.data.len() <= usize::MAX);
        let mut i: usize = 0;
        while i < region_len
            invariant
                i <= region_len,
                code@.len() <= region_len,
                offset + region_len <= self.data@.len() <= usize::MAX,
                fill@ == nop(m),
                fill@.len() == 1 || fill@.len() == 4,
                full == replacement(m, region_len as int, code@),
                self.data@.len() == before.len(),
                forall|j: int|
                    0 <= j < before.len() ==> self.data@[j] == (if offset <= j < offset + i {
                        full[j - offset]
                    } else {
                        before[j]
                    }),
                self@ == (BinaryView { data: self.data@, ..old(self)@ }),
            decreases region_len - i,
        {
            let b: u8 = if i < code.len() {
                code[i]
            } else {
                fill[(i - code.len()) % fill.len()]
            };
            assert(b == full[i as int]);
            self.data.set(offset + i, b);
            i = i + 1;
        }
        assert(self.data@ =~= overwrite(before, offset as int, full));
        Ok(())
    }

    /// Machine code for an unconditional jump from `from_va` to `to_va`, for the
    /// current architecture. Used to build trampolines for oversized splices.
    /// An error where the instruction cannot reach `to_va`.
    pub fn jump_bytes(&self, from_va: u64, to_va: u64) -> (r: Result<Vec<u8>, Error>)
        ensures
            is_code(r, jump(self@.machine, from_va, to_va)),
            r is Ok <==> reachable(self@.machine, from_va, to_va),
    {
        generate_jump_instruction(self.machine(), from_va, to_va)
    }

    /// Apply a splice using an unconditional jump
    pub fn apply_jump_patch(&mut self, begin: u64, _end: u64, target: u64) -> (r: Result<
        (),
        Error,
    >)
        ensures
            rewrote(
                old(self)@,
                final(self)@,
                r,
                jump_patched(old(self)@.machine, old(self)@.data, begin, target),
            ),
    {
        let code = match generate_jump_instruction(self.machine(), begin, target) {
            Err(e) => {
                return Err(e);
            },
            Ok(code) => code,
        };
        let len: u64 = code.len() as u64;
        if len > self.data.len() as u64 || begin > self.data.len() as u64 - len {
            let end: u64 = if begin > u64::MAX - len {
                u64::MAX
            } else {
                begin + len
            };
            return Err(Fault::InvalidRange { begin, end });
        }
        let start: usize = begin as usize;
        copy_at(&mut self.data, start, &code);
        Ok(())
    }

    /// Get a reference to the binary data
    pub fn data(&self) -> (d: &[u8])
        ensures
            d@ == self@.data,
    {
        self.data.as_slice()
    }

    /// Get the binary format
    pub fn format(&self) -> (f: BinaryFormat)
        ensures
            f == self@.format,
    {
        self.format
    }

    /// Get the architecture
    pub fn architecture(&self) -> (a: Architecture)
        ensures
            a == self@.machine.arch,
    {
        self.arch
    }

    /// Whether the target uses 64-bit pointers.
    pub fn is_64(&self) -> (b: bool)
        ensures
            b == self@.machine.is_64,
    {
        self.is_64
    }

    /// The target's byte order.
    pub fn endian(&self) -> (e: Endian)
        ensures
            e == self@.machine.endian,
    {
        self.endian
    }

    /// Place the injected segment at a given address (page-aligned and known to be free), or
    /// with `None` one page past the image.
    pub fn set_injected_base(&mut self, base: Option<u64>)
        ensures
            final(self)@ == (BinaryView { base, ..old(self)@ }),
    {
        self.base = base;
    }

    /// Translate a virtual address to a file offset using the program headers.
    pub fn va_to_offset(&self, va: u64) -> (r: Result<usize, Error>)
        ensures
            agrees(r, mapped(self@.data, va)),
    {
        match read_segments(&self.data) {
            Err(e) => Err(e),
            Ok(segments) => translate(&segments, va),
        }
    }

    /// The base virtual address the injected segment will be mapped at:
    /// the one that was asked for, else one page above the target's current image, page-aligned.
    pub fn injected_base(&self) -> (r: Result<u64, Error>)
        ensures
            agrees(r, placement(self@.data, self@.base)),
    {
        if let Some(base) = self.base {
            return Ok(base);
        }
        match read_segments(&self.data) {
            Err(e) => Err(e),
            Ok(segments) => match base_above(&segments) {
                None => Err(Fault::AddressOverflow),
                Some(base) => Ok(base),
            },
        }
    }

    /// Inject `blob` as a new read+execute segment mapped at virtual address
    /// `base`, by converting an existing `PT_NOTE` program header into a
    /// `PT_LOAD` (so the program-header table itself need not be relocated), or else by growing
    /// the table into the padding behind it.
    ///
    /// `base` must be page-aligned; the file is padded to a page boundary before
    /// the blob is appended so the loader's `p_vaddr ≡ p_offset (mod p_align)`
    /// requirement holds.
    pub fn inject_segment(&mut self, base: u64, blob: &[u8]) -> (r: Result<(), Error>)
        ensures
            rewrote(
                old(self)@,
                final(self)@,
                r,
                injected(old(self)@.data, old(self)@.format, old(self)@.machine, base, blob@),
            ),
    {
        let machine = self.machine();
        inject(&mut self.data, self.format, machine, base, blob)
    }

    /// Resolve a symbol name against the target binary's own symbols.
    ///
    /// Tries, in order: a defined symbol in `.symtab`, a defined symbol in
    /// `.dynsym`, then a function the target imports through its PLT (the stub's
    /// address). A symbol with the value zero does not count as defined. Returns
    /// `None` if the target provides no such symbol.
    pub fn resolve_target_symbol(&self, name: &str) -> (r: Result<Option<u64>, Error>)
        ensures
            agrees(r, target_symbol(self@.data, self@.machine.arch, name@)),
    {
        match read_tables(&self.data) {
            Err(e) => Err(e),
            Ok(tables) => Ok(find_symbol(&tables, self.arch, name)),
        }
    }
}

/// The file offset of `va` in the image `data`.
pub open spec fn mapped(data: Seq<u8>, va: u64) -> Result<usize, Fault<Seq<char>>> {
    match elf_segments(data) {
        Err(f) => Err(f),
        Ok(segments) => translation(segments, va),
    }
}

/// One page above the image with these segments.
pub open spec fn above(segments: Seq<Segment>) -> int {
    round_up(top(segments), PAGE as int) + PAGE
}

/// Where the injected segment goes.
pub open spec fn placement(data: Seq<u8>, base: Option<u64>) -> Result<u64, Fault<Seq<char>>> {
    match base {
        Some(b) => Ok(b),
        None => match elf_segments(data) {
            Err(f) => Err(f),
            Ok(segments) => if above(segments) <= u64::MAX {
                Ok(above(segments) as u64)
            } else {
                Err(Fault::AddressOverflow)
            },
        },
    }
}

/// One page above the image with these segments, where 64 bits can hold it.
pub fn base_above(segments: &[Segment]) -> (r: Option<u64>)
    ensures
        match r {
            None => above(segments@) > u64::MAX,
            Some(b) => above(segments@) == b,
        },
{
    match max_vaddr(segments) {
        None => {
            proof {
                law_round_up(top(segments@), PAGE as int);
            }
            None
        },
        Some(t) => {
            proof {
                law_round_up(t as int, PAGE as int);
            }
            if t > 0xffff_ffff_ffff_e000 {
                return None;
            }
            Some(align_up(t, PAGE) + PAGE)
        },
    }
}

/// The default place of the injected segment starts on a page and leaves at least one page
/// between it and the end of every loaded segment.
pub proof fn law_injected_base(segments: Seq<Segment>)
    ensures
        above(segments) % PAGE as int == 0,
        forall|i: int|
            0 <= i < segments.len() ==> memory_end(#[trigger] segments[i]) + PAGE <= above(
                segments,
            ),
{
    law_top(segments);
    lemma_top_nonnegative(segments);
    law_round_up(top(segments), PAGE as int);
}

/// The top is not negative.
pub proof fn lemma_top_nonnegative(segments: Seq<Segment>)
    ensures
        top(segments) >= 0,
    decreases segments.len(),
{
    if segments.len() > 0 {
        lemma_top_nonnegative(segments.drop_last());
    }
}

/// A patch writes its code, then whole or cut-off no-operations up to the end of the region, and
/// changes nothing else.
pub proof fn law_patch(
    machine: Machine,
    data: Seq<u8>,
    offset: int,
    region_len: int,
    code: Seq<u8>,
)
    requires
        0 <= offset,
        patched(machine, data, offset, region_len, code) is Ok,
    ensures
        ({
            let after = patched(machine, data, offset, region_len, code)->Ok_0;
            &&& after.len() == data.len()
            &&& after.subrange(offset, offset + code.len()) == code
            &&& forall|i: int|
                offset + code.len() <= i < offset + region_len ==> #[trigger] after[i] == nop(
                    machine,
                )[(i - offset - code.len()) % nop(machine).len() as int]
            &&& forall|i: int|
                0 <= i < data.len() && !(offset <= i < offset + region_len)
                    ==> #[trigger] after[i] == data[i]
        }),
{
    let after = patched(machine, data, offset, region_len, code)->Ok_0;
    assert(after.subrange(offset, offset + code.len()) =~= code);
}

/// Of two patches one after the other, the later one stands whole, and the earlier one stands
/// wherever the later one did not write: disjoint patches both stand whole.
pub proof fn law_two_patches(
    machine: Machine,
    data: Seq<u8>,
    first: int,
    first_len: int,
    first_code: Seq<u8>,
    second: int,
    second_len: int,
    second_code: Seq<u8>,
)
    requires
        0 <= first,
        0 <= second,
        patched(machine, data, first, first_len, first_code) is Ok,
        patched(
            machine,
            patched(machine, data, first, first_len, first_code)->Ok_0,
            second,
            second_len,
            second_code,
        ) is Ok,
    ensures
        ({
            let between = patched(machine, data, first, first_len, first_code)->Ok_0;
            let after = patched(machine, between, second, second_len, second_code)->Ok_0;
            &&& after.subrange(second, second + second_len) == replacement(
                machine,
                second_len,
                second_code,
            )
            &&& forall|i: int|
                first <= i < first + first_len && !(second <= i < second + second_len)
                    ==> #[trigger] after[i] == replacement(machine, first_len, first_code)[i
                    - first]
            &&& first + first_len <= second || second + second_len <= first ==> after.subrange(
                first,
                first + first_len,
            ) == replacement(machine, first_len, first_code)
        }),
{
    let between = patched(machine, data, first, first_len, first_code)->Ok_0;
    let after = patched(machine, between, second, second_len, second_code)->Ok_0;
    let r1 = replacement(machine, first_len, first_code);
    assert(after.subrange(second, second + second_len) =~= replacement(
        machine,
        second_len,
        second_code,
    ));
    if first + first_len <= second || second + second_len <= first {
        assert(after.subrange(first, first + first_len) =~= r1);
    }
}

/// A patch is written exactly where its code fits the region and the region lies inside the file;
/// code that does not fit is told of first.
pub proof fn law_patch_refused(
    machine: Machine,
    data: Seq<u8>,
    offset: int,
    region_len: int,
    code: Seq<u8>,
)
    requires
        0 <= offset <= u64::MAX,
        0 <= region_len,
        offset + region_len <= u64::MAX,
        region_len <= usize::MAX,
        code.len() <= usize::MAX,
    ensures
        match patched(machine, data, offset, region_len, code) {
            Ok(_) => code.len() <= region_len && offset + region_len <= data.len(),
            Err(Fault::TooLarge { code_len, region_len: len }) => code.len() > region_len && code_len
                == code.len() && len == region_len,
            Err(Fault::OutsideBinary { begin, end }) => code.len() <= region_len && offset
                + region_len > data.len() && begin == offset && end == offset + region_len,
            Err(_) => false,
        },
{
}

/// Replacing a range of the file puts the code where the range begins, then no-operations up to
/// its end, and changes nothing else. It is refused exactly where the code is longer than the
/// range, or else where the range ends behind the file.
pub proof fn law_direct_patch(machine: Machine, data: Seq<u8>, begin: u64, end: u64, code: Seq<u8>)
    requires
        begin <= end,
    ensures
        match directly_patched(machine, data, begin, end, code) {
            Ok(after) => {
                &&& code.len() <= end - begin
                &&& end <= data.len()
                &&& after.len() == data.len()
                &&& after.subrange(begin as int, begin + code.len()) == code
                &&& forall|i: int|
                    begin + code.len() <= i < end ==> #[trigger] after[i] == nop(machine)[(i - begin
                        - code.len()) % nop(machine).len() as int]
                &&& forall|i: int|
                    0 <= i < data.len() && !(begin <= i < end) ==> #[trigger] after[i] == data[i]
            },
            Err(Fault::InvalidRange { begin: b, end: e }) => code.len() > end - begin && b == begin
                && e == end,
            Err(Fault::OutsideBinary { begin: b, end: e }) => code.len() <= end - begin && end
                > data.len() && b == begin && e == end,
            Err(_) => false,
        },
{
    if directly_patched(machine, data, begin, end, code) is Ok {
        law_patch(machine, data, begin as int, end - begin, code);
    }
}

/// A jump written into the file goes from where it is written to its target, and changes no byte
/// but its own. It is refused exactly where the target is out of reach, or the jump would end
/// behind the file.
pub proof fn law_jump_patch(machine: Machine, data: Seq<u8>, begin: u64, target: u64)
    ensures
        ({
            let len = if machine.arch == Architecture::X86 || machine.arch == Architecture::X86_64 {
                5
            } else {
                4int
            };
            match jump_patched(machine, data, begin, target) {
                Ok(after) => {
                    &&& begin + len <= data.len()
                    &&& after.len() == data.len()
                    &&& jump_target(machine, after.subrange(begin as int, begin + len), begin)
                        == target
                    &&& forall|i: int|
                        0 <= i < data.len() && !(begin <= i < begin + len) ==> #[trigger] after[i]
                            == data[i]
                },
                Err(f) => f is InvalidRange && (!reachable(machine, begin, target) || begin + len
                    > data.len()),
            }
        }),
{
    law_jump_lands(machine, begin, target);
    law_jump_opcode(machine, begin, target);
    if let Ok(code) = jump(machine, begin, target) {
        if begin + code.len() <= data.len() {
            let after = overwrite(data, begin as int, code);
            assert(after.subrange(begin as int, begin + code.len()) =~= code);
        }
    }
}

} // verus!
