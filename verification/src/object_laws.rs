//! What is read of an object file, and what of an archive becomes a splice or is linked.
use crate::arch::Architecture;
use crate::binary::{placement, BinaryView};
use crate::error::{Fault, Machine};
use crate::image::target_tables;
use crate::link::{Applied, LinkView, Output};
use crate::model::{ObjView, Rel, SymView};
use crate::object_file::{
    arch_check, identity_of, members_of, raw_of, referenced, relocations_of, sections_of,
    symbol_of, Building, Identity, Kind, Member, RawRel, RawSection, RawTarget, RawView,
};
use crate::rlib::{
    has_splice, installed, member_splices, rlib_linked, rlib_output, rlib_splices, section_splices,
    SpliceView, TargetView,
};
use crate::section_name::named_range;
use vstd::prelude::*;

verus! {

/// The text, or the empty text where it cannot be read.
pub open spec fn readable(text: Option<Seq<char>>) -> Seq<char> {
    if text is Some {
        text->0
    } else {
        Seq::empty()
    }
}

/// Whether `rel` is the relocation `raw` as it was read, against a symbol of the object.
pub open spec fn same_rel(raw: RawRel<Seq<char>>, rel: Rel, obj: ObjView) -> bool {
    &&& raw.offset == rel.offset
    &&& raw.r_type == Some(rel.r_type)
    &&& raw.target == RawTarget::<Seq<char>>::Symbol(rel.sym)
    &&& raw.addend == rel.addend
    &&& raw.has_implicit == rel.has_implicit
    &&& obj.syms.dom().contains(rel.sym)
}

impl RawView {
    /// Whether the object has the `k`-th section as it was read.
    pub open spec fn section_read(self, k: int, obj: ObjView) -> bool {
        let raw = self.sections[k];
        let sec = obj.secs[raw.index];
        &&& obj.secs.dom().contains(raw.index)
        &&& sec.name == readable(raw.name)
        &&& sec.align >= 1
        &&& raw.align >= 1 ==> sec.align == raw.align
        &&& raw.align == 0 ==> sec.align == 1
        &&& (sec.writable <==> raw.kind == Kind::Data || raw.kind == Kind::UninitializedData)
        &&& match raw.data {
            Ok(bytes) => sec.bytes == bytes,
            Err(_) => sec.bytes.len() == 0,
        }
        &&& match named_range(sec.name) {
            Some(Ok(range)) => sec.splice == Some(range),
            _ => sec.splice is None,
        }
        &&& sec.relocs.len() == self.relocs[k].len()
        &&& forall|j: int|
            0 <= j < sec.relocs.len() ==> same_rel(
                self.relocs[k][j],
                #[trigger] sec.relocs[j],
                obj,
            )
    }

    /// Whether every symbol of the object is as it was read.
    pub open spec fn symbols_read(self, obj: ObjView) -> bool {
        forall|s: usize| #[trigger]
            obj.syms.dom().contains(s) ==> self.symbols.dom().contains(s) && (
            self.symbols[s] matches Ok(raw) && obj.syms[s] == (SymView {
                name: readable(raw.name),
                section: raw.section,
                value: raw.value,
                undefined: raw.undefined,
            }))
    }

    /// Whether no two sections have the same index.
    pub open spec fn distinct(self) -> bool {
        forall|a: int, b: int|
            0 <= a < b < self.sections.len() ==> (#[trigger] self.sections[a]).index != (
            #[trigger] self.sections[b]).index
    }

    /// Whether the object has the first `n` sections as they were read, and no other.
    spec fn read_up_to(self, n: int, obj: ObjView) -> bool {
        &&& self.symbols_read(obj)
        &&& obj.indices.len() == n
        &&& forall|k: int| 0 <= k < n ==> #[trigger] obj.indices[k] == self.sections[k].index
        &&& forall|k: int| 0 <= k < n ==> #[trigger] self.section_read(k, obj)
        &&& forall|i: usize| #[trigger]
            obj.secs.dom().contains(i) ==> exists|k: int|
                0 <= k < n && (#[trigger] self.sections[k]).index == i
    }
}

/// Reading relocations adds one for each, and symbols, and changes nothing else.
proof fn lemma_rels_read(
    raw: RawView,
    section: Seq<char>,
    raws: Seq<RawRel<Seq<char>>>,
    b: Building,
)
    requires
        raw.symbols_read(b.obj),
        raw.rels_added(section, raws, b) is Ok,
    ensures
        ({
            let end = raw.rels_added(section, raws, b)->Ok_0;
            &&& raw.symbols_read(end.obj)
            &&& end.obj.secs == b.obj.secs
            &&& end.obj.indices == b.obj.indices
            &&& forall|s: usize| #[trigger]
                b.obj.syms.dom().contains(s) ==> end.obj.syms.dom().contains(s)
            &&& end.rels.len() == b.rels.len() + raws.len()
            &&& end.rels.take(b.rels.len() as int) == b.rels
            &&& forall|j: int|
                b.rels.len() <= j < end.rels.len() ==> same_rel(
                    raws[j - b.rels.len()],
                    #[trigger] end.rels[j],
                    end.obj,
                )
        }),
    decreases raws.len(),
{
    if raws.len() == 0 {
        assert(b.rels.take(b.rels.len() as int) =~= b.rels);
    } else {
        let rest = raws.drop_first();
        let next = raw.rel_added(section, raws[0], b)->Ok_0;
        let end = raw.rels_added(section, raws, b)->Ok_0;
        assert forall|s: usize| #[trigger] next.obj.syms.dom().contains(s) implies raw.symbols.dom().contains(
            s,
        ) && (raw.symbols[s] matches Ok(r) && next.obj.syms[s] == (SymView {
            name: readable(r.name),
            section: r.section,
            value: r.value,
            undefined: r.undefined,
        })) by {
            assert(b.obj.syms.dom().contains(s) || s == raws[0].target->Symbol_0);
        }
        lemma_rels_read(raw, section, rest, next);
        assert forall|s: usize| #[trigger] b.obj.syms.dom().contains(
            s,
        ) implies end.obj.syms.dom().contains(s) by {
            assert(next.obj.syms.dom().contains(s));
        }
        assert(end.rels.take(b.rels.len() as int) =~= end.rels.take(
            next.rels.len() as int,
        ).take(b.rels.len() as int));
        assert(next.rels.take(b.rels.len() as int) =~= b.rels);
        assert forall|j: int| b.rels.len() <= j < end.rels.len() implies same_rel(
            raws[j - b.rels.len()],
            #[trigger] end.rels[j],
            end.obj,
        ) by {
            if j == b.rels.len() {
                assert(end.rels.take(next.rels.len() as int)[j] == next.rels[j]);
                assert(next.obj.syms.dom().contains(next.rels[j].sym));
            } else {
                assert(rest[j - next.rels.len()] == raws[j - b.rels.len()]);
            }
        }
    }
}

#[verifier::rlimit(40)]
proof fn lemma_section_read(raw: RawView, n: int, obj: ObjView)
    requires
        raw.distinct(),
        0 <= n < raw.sections.len(),
        raw.read_up_to(n, obj),
        raw.section_added(n, obj) is Ok,
    ensures
        raw.read_up_to(n + 1, raw.section_added(n, obj)->Ok_0),
{
    let next = raw.section_added(n, obj)->Ok_0;
    let r = raw.sections[n];
    let name = readable(r.name);
    let start = Building { obj, rels: Seq::empty() };
    lemma_rels_read(raw, name, raw.relocs[n], start);
    let b = raw.rels_added(name, raw.relocs[n], start)->Ok_0;
    assert(!obj.secs.dom().contains(r.index)) by {
        if obj.secs.dom().contains(r.index) {
            let k = choose|k: int| 0 <= k < n && (#[trigger] raw.sections[k]).index == r.index;
            assert(raw.sections[k].index != raw.sections[n].index);
        }
    }
    assert(next.indices =~= obj.indices.push(r.index));
    assert(raw.section_read(n, next)) by {
        let sec = next.secs[r.index];
        assert forall|j: int| 0 <= j < sec.relocs.len() implies same_rel(
            raw.relocs[n][j],
            #[trigger] sec.relocs[j],
            next,
        ) by {
            assert(same_rel(raw.relocs[n][j - start.rels.len()], b.rels[j], b.obj));
        }
    }
    assert forall|k: int| 0 <= k < n + 1 implies #[trigger] raw.section_read(k, next) by {
        if k < n {
            assert(raw.section_read(k, obj));
            assert(raw.sections[k].index != raw.sections[n].index);
            let sec = obj.secs[raw.sections[k].index];
            assert(next.secs[raw.sections[k].index] == sec);
            assert forall|j: int| 0 <= j < sec.relocs.len() implies same_rel(
                raw.relocs[k][j],
                #[trigger] sec.relocs[j],
                next,
            ) by {
                assert(same_rel(raw.relocs[k][j], sec.relocs[j], obj));
            }
        }
    }
    assert forall|i: usize| #[trigger] next.secs.dom().contains(i) implies exists|k: int|
        0 <= k < n + 1 && (#[trigger] raw.sections[k]).index == i by {
        if i == r.index {
            assert(raw.sections[n].index == i);
        } else {
            assert(obj.secs.dom().contains(i));
            let k = choose|k: int| 0 <= k < n && (#[trigger] raw.sections[k]).index == i;
            assert(raw.sections[k].index == i);
        }
    }
}

proof fn lemma_sections_read(raw: RawView, n: int, obj: ObjView)
    requires
        raw.distinct(),
        0 <= n <= raw.sections.len(),
        raw.read_up_to(n, obj),
        raw.sections_added(n, obj) is Ok,
    ensures
        raw.read_up_to(raw.sections.len() as int, raw.sections_added(n, obj)->Ok_0),
    decreases raw.sections.len() - n,
{
    if n < raw.sections.len() {
        lemma_section_read(raw, n, obj);
        lemma_sections_read(raw, n + 1, raw.section_added(n, obj)->Ok_0);
    }
}

/// An object that is read has every section, in their order, with its name, its bytes, its
/// alignment, the range in its name and all of its relocations, and every symbol that one of them
/// is against. Only data sections count as writable.
pub proof fn law_modelled(raw: RawView, obj: ObjView)
    requires
        raw.distinct(),
        raw.modelled() == Ok::<ObjView, Fault<Seq<char>>>(obj),
    ensures
        raw.symbols_read(obj),
        obj.indices.len() == raw.sections.len(),
        forall|k: int|
            0 <= k < raw.sections.len() ==> #[trigger] obj.indices[k] == raw.sections[k].index,
        forall|k: int| 0 <= k < raw.sections.len() ==> #[trigger] raw.section_read(k, obj),
{
    lemma_sections_read(raw, 0, ObjView::empty());
}

/// Whether `f` tells why the relocation cannot be used: it is not that of an ELF object, or it is
/// not against a symbol, or the symbol cannot be read.
pub open spec fn unusable(raw: RawView, k: int, j: int, f: Fault<Seq<char>>) -> bool {
    let rel = raw.relocs[k][j];
    let name = readable(raw.sections[k].name);
    match f {
        Fault::NonElfRelocation { section } => section == name && rel.r_type is None,
        Fault::RelocationTarget { target_text, section } => section == name && rel.target
            == RawTarget::Other(target_text),
        Fault::BadSymbol { symbol, section, cause } => section == name && rel.target
            == RawTarget::<Seq<char>>::Symbol(symbol) && raw.symbols.dom().contains(symbol) && (
        raw.symbols[symbol] matches Err(e) && e == cause),
        Fault::UnknownSymbol { symbol } => rel.target == RawTarget::<Seq<char>>::Symbol(symbol)
            && !raw.symbols.dom().contains(symbol),
        _ => false,
    }
}

proof fn lemma_rels_refused(
    raw: RawView,
    k: int,
    from: int,
    b: Building,
    f: Fault<Seq<char>>,
) -> (j: int)
    requires
        0 <= from <= raw.relocs[k].len(),
        raw.rels_added(readable(raw.sections[k].name), raw.relocs[k].skip(from), b) == Err::<
            Building,
            Fault<Seq<char>>,
        >(f),
    ensures
        0 <= j < raw.relocs[k].len(),
        unusable(raw, k, j, f),
    decreases raw.relocs[k].len() - from,
{
    let raws = raw.relocs[k].skip(from);
    assert(raws.len() > 0);
    assert(raws[0] == raw.relocs[k][from]);
    assert(raws.drop_first() =~= raw.relocs[k].skip(from + 1));
    match raw.rel_added(readable(raw.sections[k].name), raws[0], b) {
        Err(_) => from,
        Ok(next) => lemma_rels_refused(raw, k, from + 1, next, f),
    }
}

/// An object is refused only for a relocation that cannot be used.
pub proof fn law_model_refused(raw: RawView, n: int, obj: ObjView, f: Fault<Seq<char>>) -> (r: (
    int,
    int,
))
    requires
        0 <= n,
        raw.sections_added(n, obj) == Err::<ObjView, Fault<Seq<char>>>(f),
    ensures
        n <= r.0 < raw.sections.len(),
        0 <= r.1 < raw.relocs[r.0].len(),
        unusable(raw, r.0, r.1, f),
    decreases raw.sections.len() - n,
{
    let start = Building { obj, rels: Seq::empty() };
    assert(raw.relocs[n].skip(0) =~= raw.relocs[n]);
    match raw.section_added(n, obj) {
        Err(_) => {
            let j = lemma_rels_refused(raw, n, 0, start, f);
            (n, j)
        },
        Ok(next) => law_model_refused(raw, n + 1, next, f),
    }
}

/// One section more adds one splice, behind the others, where its name holds a range: with that
/// range, and the bytes of the section as its code. Any other section adds none.
pub proof fn law_section_behind(
    sections: Seq<RawSection<Seq<u8>, Seq<char>>>,
    last: RawSection<Seq<u8>, Seq<char>>,
    found: Seq<SpliceView>,
)
    ensures
        section_splices(sections.push(last), found) == match section_splices(sections, found) {
            Err(f) => Err(f),
            Ok(v) => if last.name is None {
                Ok(v)
            } else {
                let name = last.name->0;
                match (named_range(name), last.data) {
                    (None, _) => Ok(v),
                    (Some(Err(f)), _) => Err(f),
                    (Some(Ok(_)), Err(cause)) => Err(Fault::SectionData { name, cause }),
                    (Some(Ok((begin, end))), Ok(code)) => Ok(
                        v.push(SpliceView { begin, end, code }),
                    ),
                }
            },
        },
    decreases sections.len(),
{
    let all = sections.push(last);
    if sections.len() == 0 {
        assert(all.drop_first() =~= sections);
        assert(section_splices(all.drop_first(), found) == Ok::<
            Seq<SpliceView>,
            Fault<Seq<char>>,
        >(found));
        if let (Some(name), Ok(code)) = (last.name, last.data) {
            if let Some(Ok((begin, end))) = named_range(name) {
                let more = found.push(SpliceView { begin, end, code });
                assert(section_splices(all.drop_first(), more) == Ok::<
                    Seq<SpliceView>,
                    Fault<Seq<char>>,
                >(more));
            }
        }
    } else {
        assert(all[0] == sections[0]);
        assert(all.drop_first() =~= sections.drop_first().push(last));
        let rest = sections.drop_first();
        law_section_behind(rest, last, found);
        if let (Some(name), Ok(code)) = (sections[0].name, sections[0].data) {
            if let Some(Ok((begin, end))) = named_range(name) {
                law_section_behind(rest, last, found.push(SpliceView { begin, end, code }));
            }
        }
    }
}

/// One archive member more adds the splices of its sections, behind the others; a broken member
/// is refused.
pub proof fn law_member_behind(
    members: Seq<Member<Seq<u8>, Seq<char>>>,
    last: Member<Seq<u8>, Seq<char>>,
    found: Seq<SpliceView>,
)
    ensures
        member_splices(members.push(last), found) == match member_splices(members, found) {
            Err(f) => Err(f),
            Ok(v) => match last {
                Member::Data(data) => section_splices(sections_of(data), v),
                Member::BadHeader(cause) => Err(Fault::Member { cause }),
                Member::BadData(cause) => Err(Fault::MemberData { cause }),
            },
        },
    decreases members.len(),
{
    let all = members.push(last);
    if members.len() == 0 {
        assert(all.drop_first() =~= members);
        if let Member::Data(data) = last {
            if let Ok(v) = section_splices(sections_of(data), found) {
                assert(member_splices(all.drop_first(), v) == Ok::<
                    Seq<SpliceView>,
                    Fault<Seq<char>>,
                >(v));
            }
        }
    } else {
        assert(all[0] == members[0]);
        assert(all.drop_first() =~= members.drop_first().push(last));
        if let Member::Data(data) = members[0] {
            if let Ok(v) = section_splices(sections_of(data), found) {
                law_member_behind(members.drop_first(), last, v);
            }
        }
    }
}

/// One archive member more is linked into what the others left.
pub proof fn law_linked_behind(
    t: TargetView,
    members: Seq<Member<Seq<u8>, Seq<char>>>,
    last: Member<Seq<u8>, Seq<char>>,
    out: Output,
)
    ensures
        t.members_linked(members.push(last), out) == match t.members_linked(members, out) {
            Err(f) => Err(f),
            Ok(next) => match last {
                Member::Data(data) => t.member_linked(data, next),
                Member::BadHeader(cause) => Err(Fault::Member { cause }),
                Member::BadData(cause) => Err(Fault::MemberData { cause }),
            },
        },
    decreases members.len(),
{
    let all = members.push(last);
    if members.len() == 0 {
        assert(all.drop_first() =~= members);
        if let Member::Data(data) = last {
            if let Ok(next) = t.member_linked(data, out) {
                assert(t.members_linked(all.drop_first(), next) == Ok::<Output, Fault<Seq<char>>>(
                    next,
                ));
            }
        }
    } else {
        assert(all[0] == members[0]);
        assert(all.drop_first() =~= members.drop_first().push(last));
        if let Member::Data(data) = members[0] {
            if let Ok(next) = t.member_linked(data, out) {
                law_linked_behind(t, members.drop_first(), last, next);
            }
        }
    }
}

/// An object may be linked into a target exactly where architecture, byte order and pointer
/// width agree. What disagrees is told.
pub proof fn law_gate(identity: Identity<Seq<char>>, machine: Machine)
    ensures
        arch_check(identity, machine) is None <==> identity.arch == Ok::<Architecture, Seq<char>>(
            machine.arch,
        ) && identity.endian == machine.endian && identity.is_64 == machine.is_64,
        arch_check(identity, machine) matches Some(f) ==> match identity.arch {
            Err(name) => f == (Fault::UnsupportedArchitecture { name }),
            Ok(arch) => f matches Fault::Mismatch { object, target } && target == machine
                && object.arch == arch && object.endian == identity.endian && object.is_64
                == identity.is_64,
        },
{
}

/// A member that is no object file, or in which no section name starts with `.rspl.`, changes
/// nothing. Any other member is linked as the object that is read of it, for the target.
pub proof fn law_member(t: TargetView, data: Seq<u8>, out: Output)
    ensures
        (identity_of(data) is None || (forall|k: int|
            0 <= k < sections_of(data).len() && (#[trigger] sections_of(data)[k]).name is Some
                ==> named_range(sections_of(data)[k].name->0) is None)) ==> t.member_linked(
            data,
            out,
        ) == Ok::<Output, Fault<Seq<char>>>(out),
        (identity_of(data) is Some && (exists|k: int|
            0 <= k < sections_of(data).len() && (#[trigger] sections_of(data)[k]).name is Some
                && named_range(sections_of(data)[k].name->0) is Some)) ==> match arch_check(
            identity_of(data)->0,
            t.machine,
        ) {
            Some(f) => t.member_linked(data, out) == Err::<Output, Fault<Seq<char>>>(f),
            None => match raw_of(data).modelled() {
                Err(f) => t.member_linked(data, out) == Err::<Output, Fault<Seq<char>>>(f),
                Ok(obj) => t.member_linked(data, out) == (LinkView {
                    obj,
                    machine: t.machine,
                    externals: t.externals,
                    base: t.base,
                }).linked(out),
            },
        },
{
    let sections = sections_of(data);
    assert(has_splice(sections) <==> exists|k: int|
        0 <= k < sections.len() && (#[trigger] sections[k]).name is Some && named_range(
            sections[k].name->0,
        ) is Some);
}

/// An rlib is linked member by member, starting from nothing, against the symbols of the target,
/// for a segment at the address that was asked for, else at the default one; and what comes of it
/// is installed at that same address. What is no archive is refused.
pub proof fn law_rlib(rlib: Seq<u8>, binary: BinaryView)
    ensures
        members_of(rlib) matches Err(cause) ==> {
            &&& rlib_output(rlib, binary) == Err::<Output, Fault<Seq<char>>>(
                Fault::Archive { cause },
            )
            &&& rlib_splices(rlib) == Err::<Seq<SpliceView>, Fault<Seq<char>>>(
                Fault::Archive { cause },
            )
        },
        members_of(rlib) matches Ok(members) ==> {
            let base = if binary.base is Some {
                Ok(binary.base->0)
            } else {
                placement(binary.data, None)
            };
            &&& rlib_splices(rlib) == member_splices(members, Seq::empty())
            &&& base matches Err(f) ==> rlib_output(rlib, binary) == Err::<Output, Fault<Seq<char>>>(f)
            &&& base matches Ok(b) ==> {
                let out = (TargetView {
                    machine: binary.machine,
                    externals: target_tables(binary.data),
                    base: b,
                }).members_linked(members, Output { blob: Seq::empty(), patches: Seq::empty() });
                &&& rlib_output(rlib, binary) == out
                &&& out matches Ok(o) ==> rlib_linked(rlib, binary) == installed(binary, b, o)
            }
        },
        rlib_output(rlib, binary) matches Err(f) ==> rlib_linked(rlib, binary).1 == Err::<
            Seq<Applied>,
            Fault<Seq<char>>,
        >(f),
{
}

/// Each section of an object file is read with the relocations at its own position, and of the
/// symbols exactly those that a relocation is against.
pub proof fn law_raw_object(data: Seq<u8>, k: int, s: usize)
    ensures
        raw_of(data).sections == sections_of(data),
        raw_of(data).relocs.len() == sections_of(data).len(),
        0 <= k < sections_of(data).len() ==> raw_of(data).relocs[k] == relocations_of(data, k),
        raw_of(data).symbols.dom().contains(s) <==> exists|n: int, j: int|
            0 <= n < sections_of(data).len() && 0 <= j < relocations_of(data, n).len() && (
            #[trigger] relocations_of(data, n)[j]).target == RawTarget::<Seq<char>>::Symbol(s),
        raw_of(data).symbols.dom().contains(s) ==> raw_of(data).symbols[s] == symbol_of(data, s),
{
    let raw = raw_of(data);
    if raw.symbols.dom().contains(s) {
        let (n, j) = choose|n: int, j: int|
            0 <= n < raw.relocs.len() && 0 <= j < raw.relocs[n].len() && (
            #[trigger] raw.relocs[n][j]).target == RawTarget::<Seq<char>>::Symbol(s);
        assert(relocations_of(data, n)[j] == raw.relocs[n][j]);
    }
    if exists|n: int, j: int|
        0 <= n < sections_of(data).len() && 0 <= j < relocations_of(data, n).len() && (
        #[trigger] relocations_of(data, n)[j]).target == RawTarget::<Seq<char>>::Symbol(s) {
        let (n, j) = choose|n: int, j: int|
            0 <= n < sections_of(data).len() && 0 <= j < relocations_of(data, n).len() && (
            #[trigger] relocations_of(data, n)[j]).target == RawTarget::<Seq<char>>::Symbol(s);
        assert(raw.relocs[n][j] == relocations_of(data, n)[j]);
        assert(referenced(raw.relocs, s));
    }
}

} // verus!
