//! Splices out of an rlib: reading them, and linking them into a target binary.
use crate::binary::{mapped, patched, placement, rewrote, Binary, BinaryView};
use crate::error::{Error, Fault, Machine};
use crate::image::{target_tables, TablesView};
use crate::inject::injected;
use crate::link::{
    is_output, link_object, patches_view, read_externals, Applied, Externals, LinkView, Output, Patch,
    PatchView,
};
use crate::object_file::{
    arch_check, archive_members, build_model, identity_of, members_of, members_view, object_identity,
    object_sections, raw_of, raw_sections_view, read_object, sections_of, verify_arch, Member,
    RawSection,
};
use crate::section_name::{is_splice_name, is_splice_section, named_range, parse_splice_section};
use vstd::prelude::*;

verus! {

/// A single replacement extracted from an rlib.
///
/// `code` is the machine code emitted for the spliced function; `begin` and
/// `end` are the target address range it should overwrite in the original
/// binary.
#[derive(Debug, Clone)]
pub struct Splice {
    pub begin: u64,
    pub end: u64,
    pub code: Vec<u8>,
}

/// The model of a splice.
pub struct SpliceView {
    pub begin: u64,
    pub end: u64,
    pub code: Seq<u8>,
}

impl View for Splice {
    type V = SpliceView;

    open spec fn view(&self) -> SpliceView {
        SpliceView { begin: self.begin, end: self.end, code: self.code@ }
    }
}

/// The views of a list of splices.
pub open spec fn splices_view(splices: Seq<Splice>) -> Seq<SpliceView> {
    splices.map_values(|s: Splice| s@)
}

/// The splices `found` with those of the sections `sections`: each section whose name holds a
/// range gives one, with its bytes as the code.
pub open spec fn section_splices(
    sections: Seq<RawSection<Seq<u8>, Seq<char>>>,
    found: Seq<SpliceView>,
) -> Result<Seq<SpliceView>, Fault<Seq<char>>>
    decreases sections.len(),
{
    if sections.len() == 0 {
        Ok(found)
    } else {
        let rest = sections.drop_first();
        match sections[0].name {
            None => section_splices(rest, found),
            Some(name) => match named_range(name) {
                None => section_splices(rest, found),
                Some(Err(f)) => Err(f),
                Some(Ok((begin, end))) => match sections[0].data {
                    Err(cause) => Err(Fault::SectionData { name, cause }),
                    Ok(code) => section_splices(
                        rest,
                        found.push(SpliceView { begin, end, code }),
                    ),
                },
            },
        }
    }
}

/// The splices `found` with those of the archive members `members`. A member that is no object
/// file has no sections.
pub open spec fn member_splices(
    members: Seq<Member<Seq<u8>, Seq<char>>>,
    found: Seq<SpliceView>,
) -> Result<Seq<SpliceView>, Fault<Seq<char>>>
    decreases members.len(),
{
    if members.len() == 0 {
        Ok(found)
    } else {
        match members[0] {
            Member::BadHeader(cause) => Err(Fault::Member { cause }),
            Member::BadData(cause) => Err(Fault::MemberData { cause }),
            Member::Data(data) => match section_splices(sections_of(data), found) {
                Err(f) => Err(f),
                Ok(more) => member_splices(members.drop_first(), more),
            },
        }
    }
}

/// The splices of the rlib `data`.
pub open spec fn rlib_splices(data: Seq<u8>) -> Result<Seq<SpliceView>, Fault<Seq<char>>> {
    match members_of(data) {
        Err(cause) => Err(Fault::Archive { cause }),
        Ok(members) => member_splices(members, Seq::empty()),
    }
}

/// Whether `r` holds the splices, or is the error, that `goal` names.
pub open spec fn is_splices(
    r: Result<Vec<Splice>, Error>,
    goal: Result<Seq<SpliceView>, Fault<Seq<char>>>,
) -> bool {
    match r {
        Ok(v) => goal == Ok::<Seq<SpliceView>, Fault<Seq<char>>>(splices_view(v@)),
        Err(e) => goal == Err::<Seq<SpliceView>, Fault<Seq<char>>>(e@),
    }
}

/// Add the splices of the sections of one object to those `start` already found.
pub fn read_sections(sections: &Vec<RawSection<Vec<u8>, String>>, start: Vec<Splice>) -> (r: Result<
    Vec<Splice>,
    Error,
>)
    ensures
        is_splices(r, section_splices(raw_sections_view(sections@), splices_view(start@))),
{
    let ghost all = raw_sections_view(sections@);
    let ghost goal = section_splices(all, splices_view(start@));
    let mut found = start;
    let mut i: usize = 0;
    assert(all.skip(0) =~= all);
    while i < sections.len()
        invariant
            i <= sections@.len(),
            all == raw_sections_view(sections@),
            goal == section_splices(all, splices_view(start@)),
            goal == section_splices(all.skip(i as int), splices_view(found@)),
        decreases sections@.len() - i,
    {
        let section = &sections[i];
        assert(all.skip(i as int)[0] == section@);
        assert(all.skip(i as int).drop_first() =~= all.skip(i + 1));
        if let Some(name) = &section.name {
            match parse_splice_section(name.as_str()) {
                None => {},
                Some(Err(e)) => {
                    return Err(e);
                },
                Some(Ok((begin, end))) => match &section.data {
                    Err(cause) => {
                        return Err(
                            Fault::SectionData { name: name.clone(), cause: cause.clone() },
                        );
                    },
                    Ok(bytes) => {
                        let code = bytes.clone();
                        assert(code@ =~= bytes@);
                        let ghost before = found@;
                        let splice = Splice { begin, end, code };
                        let ghost view = splice@;
                        found.push(splice);
                        assert(splices_view(found@) =~= splices_view(before).push(view));
                    },
                },
            }
        }
        i = i + 1;
    }
    Ok(found)
}

/// Read all splices from the bytes of an rlib.
///
/// An rlib is an `ar` archive of relocatable object files. Each `#[Splice]`
/// function lives in its own `.rspl.<begin>.<end>` section, so we walk every
/// object member's sections, decode the range from the section name, and take
/// the section bytes as the replacement code.
pub fn read_splices_from_rlib(data: &[u8]) -> (r: Result<Vec<Splice>, Error>)
    ensures
        is_splices(r, rlib_splices(data@)),
{
    let members = match archive_members(data) {
        Err(cause) => {
            return Err(Fault::Archive { cause });
        },
        Ok(members) => members,
    };
    let ghost all = members_view(members@);
    let ghost goal = rlib_splices(data@);
    let mut found: Vec<Splice> = Vec::new();
    let mut i: usize = 0;
    assert(all.skip(0) =~= all);
    assert(splices_view(found@) =~= Seq::<SpliceView>::empty());
    while i < members.len()
        invariant
            i <= members@.len(),
            all == members_view(members@),
            goal == rlib_splices(data@),
            goal == member_splices(all.skip(i as int), splices_view(found@)),
        decreases members@.len() - i,
    {
        assert(all.skip(i as int)[0] == members@[i as int]@);
        assert(all.skip(i as int).drop_first() =~= all.skip(i + 1));
        match &members[i] {
            Member::BadHeader(cause) => {
                return Err(Fault::Member { cause: cause.clone() });
            },
            Member::BadData(cause) => {
                return Err(Fault::MemberData { cause: cause.clone() });
            },
            Member::Data(bytes) => {
                let sections = object_sections(bytes);
                match read_sections(&sections, found) {
                    Err(e) => {
                        return Err(e);
                    },
                    Ok(more) => {
                        found = more;
                    },
                }
            },
        }
        i = i + 1;
    }
    Ok(found)
}

/// Whether one of the sections is named like a splice.
pub open spec fn has_splice(sections: Seq<RawSection<Seq<u8>, Seq<char>>>) -> bool {
    exists|k: int|
        0 <= k < sections.len() && ((#[trigger] sections[k]).name matches Some(name)
            && is_splice_name(name))
}

/// Whether one of the sections is named like a splice.
pub fn any_splice(sections: &Vec<RawSection<Vec<u8>, String>>) -> (r: bool)
    ensures
        r == has_splice(raw_sections_view(sections@)),
{
    let ghost all = raw_sections_view(sections@);
    let mut i: usize = 0;
    while i < sections.len()
        invariant
            i <= sections@.len(),
            all == raw_sections_view(sections@),
            forall|k: int|
                0 <= k < i ==> !((#[trigger] all[k]).name matches Some(name) && is_splice_name(
                    name,
                )),
        decreases sections@.len() - i,
    {
        assert(all[i as int] == sections@[i as int]@);
        if let Some(name) = &sections[i].name {
            if is_splice_section(name.as_str()) {
                return true;
            }
        }
        i = i + 1;
    }
    false
}

/// What linking the members of an rlib depends on besides them.
pub struct TargetView {
    pub machine: Machine,
    pub externals: Result<TablesView, Fault<Seq<char>>>,
    pub base: u64,
}

impl TargetView {
    /// The output after the archive member `data` was linked. A member that is no object file, or
    /// has no splices, is skipped.
    pub open spec fn member_linked(self, data: Seq<u8>, out: Output) -> Result<
        Output,
        Fault<Seq<char>>,
    > {
        match identity_of(data) {
            None => Ok(out),
            Some(identity) => if !has_splice(sections_of(data)) {
                Ok(out)
            } else {
                match arch_check(identity, self.machine) {
                    Some(f) => Err(f),
                    None => match raw_of(data).modelled() {
                        Err(f) => Err(f),
                        Ok(obj) => (LinkView {
                            obj,
                            machine: self.machine,
                            externals: self.externals,
                            base: self.base,
                        }).linked(out),
                    },
                }
            },
        }
    }

    /// The output after the members of an archive were linked.
    pub open spec fn members_linked(
        self,
        members: Seq<Member<Seq<u8>, Seq<char>>>,
        out: Output,
    ) -> Result<Output, Fault<Seq<char>>>
        decreases members.len(),
    {
        if members.len() == 0 {
            Ok(out)
        } else {
            match members[0] {
                Member::BadHeader(cause) => Err(Fault::Member { cause }),
                Member::BadData(cause) => Err(Fault::MemberData { cause }),
                Member::Data(data) => match self.member_linked(data, out) {
                    Err(f) => Err(f),
                    Ok(next) => self.members_linked(members.drop_first(), next),
                },
            }
        }
    }
}

/// Link one archive member.
fn link_member(
    data: &[u8],
    machine: Machine,
    externals: &Externals,
    base: u64,
    blob: Vec<u8>,
    patches: Vec<Patch>,
) -> (r: Result<(Vec<u8>, Vec<Patch>), Error>)
    ensures
        is_output(
            r,
            (TargetView { machine, externals: externals@, base }).member_linked(
                data@,
                Output { blob: blob@, patches: patches_view(patches@) },
            ),
        ),
{
    let identity = match object_identity(data) {
        None => {
            return Ok((blob, patches));
        },
        Some(identity) => identity,
    };
    let raw = read_object(data);
    if !any_splice(&raw.sections) {
        return Ok((blob, patches));
    }
    match verify_arch(&identity, machine) {
        Err(e) => {
            return Err(e);
        },
        Ok(()) => {},
    }
    assert(raw@.relocs.len() == raw@.sections.len());
    match build_model(&raw) {
        Err(e) => Err(e),
        Ok(obj) => link_object(&obj, machine, externals, base, blob, patches),
    }
}

/// Link the members of an archive, in their order, into one segment and one list of patches.
fn link_members(
    members: &Vec<Member<Vec<u8>, String>>,
    machine: Machine,
    externals: &Externals,
    base: u64,
) -> (r: Result<(Vec<u8>, Vec<Patch>), Error>)
    ensures
        is_output(
            r,
            (TargetView { machine, externals: externals@, base }).members_linked(
                members_view(members@),
                Output { blob: Seq::empty(), patches: Seq::empty() },
            ),
        ),
{
    let ghost t = TargetView { machine, externals: externals@, base };
    let ghost all = members_view(members@);
    let ghost start = Output { blob: Seq::empty(), patches: Seq::empty() };
    let ghost goal = t.members_linked(all, start);
    let mut blob: Vec<u8> = Vec::new();
    let mut patches: Vec<Patch> = Vec::new();
    let mut i: usize = 0;
    assert(all.skip(0) =~= all);
    assert(blob@ =~= Seq::<u8>::empty());
    assert(patches_view(patches@) =~= Seq::<PatchView>::empty());
    while i < members.len()
        invariant
            i <= members@.len(),
            t == (TargetView { machine, externals: externals@, base }),
            start == (Output { blob: Seq::empty(), patches: Seq::empty() }),
            all == members_view(members@),
            goal == t.members_linked(all, start),
            goal == t.members_linked(
                all.skip(i as int),
                Output { blob: blob@, patches: patches_view(patches@) },
            ),
        decreases members@.len() - i,
    {
        assert(all.skip(i as int)[0] == members@[i as int]@);
        assert(all.skip(i as int).drop_first() =~= all.skip(i + 1));
        match &members[i] {
            Member::BadHeader(cause) => {
                return Err(Fault::Member { cause: cause.clone() });
            },
            Member::BadData(cause) => {
                return Err(Fault::MemberData { cause: cause.clone() });
            },
            Member::Data(bytes) => {
                match link_member(bytes, machine, externals, base, blob, patches) {
                    Err(e) => {
                        return Err(e);
                    },
                    Ok((b, p)) => {
                        blob = b;
                        patches = p;
                    },
                }
            },
        }
        i = i + 1;
    }
    Ok((blob, patches))
}

/// The bytes of a binary after a patch was written at its address.
pub open spec fn patch_written(machine: Machine, data: Seq<u8>, patch: PatchView) -> Result<
    Seq<u8>,
    Fault<Seq<char>>,
> {
    match mapped(data, patch.begin) {
        Err(f) => Err(f),
        Ok(offset) => if patch.end < patch.begin {
            Err(Fault::InvalidRange { begin: patch.begin, end: patch.end })
        } else {
            patched(machine, data, offset as int, patch.end - patch.begin, patch.code)
        },
    }
}

/// What is reported of a patch that was written.
pub open spec fn applied_of(patch: PatchView) -> Applied {
    Applied {
        begin: patch.begin,
        end: patch.end,
        code_len: patch.code.len() as usize,
        trampoline: patch.trampoline,
    }
}

/// The bytes of a binary after the patches were written one after the other, up to the first
/// that fails, and what is reported of them.
pub open spec fn patches_written(
    machine: Machine,
    data: Seq<u8>,
    patches: Seq<PatchView>,
    done: Seq<Applied>,
) -> (Seq<u8>, Result<Seq<Applied>, Fault<Seq<char>>>)
    decreases patches.len(),
{
    if patches.len() == 0 {
        (data, Ok(done))
    } else {
        match patch_written(machine, data, patches[0]) {
            Err(f) => (data, Err(f)),
            Ok(next) => patches_written(
                machine,
                next,
                patches.drop_first(),
                done.push(applied_of(patches[0])),
            ),
        }
    }
}

/// The segment and the patches that linking `rlib` into a binary makes.
pub open spec fn rlib_output(rlib: Seq<u8>, binary: BinaryView) -> Result<Output, Fault<Seq<char>>> {
    match members_of(rlib) {
        Err(cause) => Err(Fault::Archive { cause }),
        Ok(members) => match placement(binary.data, binary.base) {
            Err(f) => Err(f),
            Ok(base) => (TargetView {
                machine: binary.machine,
                externals: target_tables(binary.data),
                base,
            }).members_linked(members, Output { blob: Seq::empty(), patches: Seq::empty() }),
        },
    }
}

/// The bytes of a binary after a segment (where it is not empty) was injected at `base` and the
/// patches were written, and what is reported of them.
pub open spec fn installed(binary: BinaryView, base: u64, out: Output) -> (
    Seq<u8>,
    Result<Seq<Applied>, Fault<Seq<char>>>,
) {
    if out.blob.len() == 0 {
        patches_written(binary.machine, binary.data, out.patches, Seq::empty())
    } else {
        match injected(binary.data, binary.format, binary.machine, base, out.blob) {
            Err(f) => (binary.data, Err(f)),
            Ok(data) => patches_written(binary.machine, data, out.patches, Seq::empty()),
        }
    }
}

/// The bytes of a binary after `rlib` was linked into it, and what is reported of its splices.
pub open spec fn rlib_linked(rlib: Seq<u8>, binary: BinaryView) -> (
    Seq<u8>,
    Result<Seq<Applied>, Fault<Seq<char>>>,
) {
    match rlib_output(rlib, binary) {
        Err(f) => (binary.data, Err(f)),
        Ok(out) => installed(binary, placement(binary.data, binary.base)->Ok_0, out),
    }
}

/// Whether a call that returned `r` and left `after` did to the binary what `goal` says.
pub open spec fn linked_as(
    before: BinaryView,
    after: BinaryView,
    r: Result<Vec<Applied>, Error>,
    goal: (Seq<u8>, Result<Seq<Applied>, Fault<Seq<char>>>),
) -> bool {
    &&& after == (BinaryView { data: goal.0, ..before })
    &&& match r {
        Ok(v) => goal.1 == Ok::<Seq<Applied>, Fault<Seq<char>>>(v@),
        Err(e) => goal.1 == Err::<Seq<Applied>, Fault<Seq<char>>>(e@),
    }
}

/// Write one patch at its address.
pub fn write_patch(binary: &mut Binary, patch: &Patch) -> (r: Result<(), Error>)
    ensures
        rewrote(
            old(binary)@,
            final(binary)@,
            r,
            patch_written(old(binary)@.machine, old(binary)@.data, patch@),
        ),
{
    let offset: usize = match binary.va_to_offset(patch.begin) {
        Err(e) => {
            return Err(e);
        },
        Ok(offset) => offset,
    };
    if patch.end < patch.begin {
        return Err(Fault::InvalidRange { begin: patch.begin, end: patch.end });
    }
    let region: u64 = patch.end - patch.begin;
    if region > usize::MAX as u64 {
        let len: usize = binary.data().len();
        assert(len <= usize::MAX);
        let end: u128 = offset as u128 + region as u128;
        let end: u64 = if end > u64::MAX as u128 {
            u64::MAX
        } else {
            end as u64
        };
        assert(patch.code.len() <= usize::MAX);
        return Err(Fault::OutsideBinary { begin: offset as u64, end });
    }
    binary.patch_bytes(offset, region as usize, &patch.code)
}

/// Write the patches one after the other, up to the first that fails.
pub fn write_patches(binary: &mut Binary, patches: &Vec<Patch>) -> (r: Result<Vec<Applied>, Error>)
    ensures
        linked_as(
            old(binary)@,
            final(binary)@,
            r,
            patches_written(
                old(binary)@.machine,
                old(binary)@.data,
                patches_view(patches@),
                Seq::empty(),
            ),
        ),
{
    let ghost all = patches_view(patches@);
    let ghost m = binary@.machine;
    let ghost goal = patches_written(m, binary@.data, all, Seq::empty());
    let mut applied: Vec<Applied> = Vec::new();
    let mut i: usize = 0;
    assert(all.skip(0) =~= all);
    assert(applied@ =~= Seq::<Applied>::empty());
    while i < patches.len()
        invariant
            i <= patches@.len(),
            all == patches_view(patches@),
            m == old(binary)@.machine,
            binary@ == (BinaryView { data: binary@.data, ..old(binary)@ }),
            goal == patches_written(m, old(binary)@.data, all, Seq::empty()),
            goal == patches_written(m, binary@.data, all.skip(i as int), applied@),
        decreases patches@.len() - i,
    {
        let patch = &patches[i];
        assert(all.skip(i as int)[0] == patch@);
        assert(all.skip(i as int).drop_first() =~= all.skip(i + 1));
        match write_patch(binary, patch) {
            Err(e) => {
                return Err(e);
            },
            Ok(()) => {},
        }
        applied.push(
            Applied {
                begin: patch.begin,
                end: patch.end,
                code_len: patch.code.len(),
                trampoline: patch.trampoline,
            },
        );
        i = i + 1;
    }
    Ok(applied)
}

/// Inject the segment (where it is not empty) and patch each splice into place.
pub fn install(binary: &mut Binary, base: u64, blob: &Vec<u8>, patches: &Vec<Patch>) -> (r: Result<
    Vec<Applied>,
    Error,
>)
    ensures
        linked_as(
            old(binary)@,
            final(binary)@,
            r,
            installed(
                old(binary)@,
                base,
                Output { blob: blob@, patches: patches_view(patches@) },
            ),
        ),
{
    if blob.len() > 0 {
        match binary.inject_segment(base, blob) {
            Err(e) => {
                return Err(e);
            },
            Ok(()) => {},
        }
    }
    write_patches(binary, patches)
}

/// Take the bytes of an rlib, resolve every splice's relocations against `binary` (and
/// the sections the splices reference), inject the referenced code/data as a new
/// segment, and patch each splice into place.
pub fn link_rlib(binary: &mut Binary, rlib: &[u8]) -> (r: Result<Vec<Applied>, Error>)
    ensures
        linked_as(old(binary)@, final(binary)@, r, rlib_linked(rlib@, old(binary)@)),
{
    let members = match archive_members(rlib) {
        Err(cause) => {
            return Err(Fault::Archive { cause });
        },
        Ok(members) => members,
    };
    // All injected sections across all object members share a single segment, so
    // `base + blob.len()` is always the next free virtual address.
    let base: u64 = match binary.injected_base() {
        Err(e) => {
            return Err(e);
        },
        Ok(base) => base,
    };
    let externals = read_externals(binary.data());
    let machine = Machine {
        arch: binary.architecture(),
        endian: binary.endian(),
        is_64: binary.is_64(),
    };
    match link_members(&members, machine, &externals, base) {
        Err(e) => Err(e),
        Ok((blob, patches)) => install(binary, base, &blob, &patches),
    }
}

} // verus!
