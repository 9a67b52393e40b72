//! Relocatable objects and the archives that hold them, as they are read from bytes.
use crate::arch::Architecture;
use crate::bytes::Endian;
use crate::error::{Error, Fault, Machine};
use crate::model::{ObjView, ObjectModel, Rel, Sec, SecView, SymInfo, SymView};
use crate::section_name::{named_range, splice_range};
use crate::text::text_view;
use object::read::archive::{ArchiveFile, ArchiveMember};
use object::{
    File, Object, ObjectSection, ObjectSymbol, Relocation, RelocationFlags, RelocationTarget,
    SectionKind, SymbolIndex,
};
use std::collections::HashMap;
use vstd::prelude::*;

verus! {

broadcast use vstd::std_specs::hash::group_hash_axioms;

/// A member of an archive: its bytes, or why its header or its bytes cannot be read. `B` is the
/// type of bytes, `N` that of texts.
#[derive(Debug)]
pub enum Member<B, N> {
    Data(B),
    BadHeader(N),
    BadData(N),
}

impl View for Member<Vec<u8>, String> {
    type V = Member<Seq<u8>, Seq<char>>;

    open spec fn view(&self) -> Member<Seq<u8>, Seq<char>> {
        match self {
            Member::Data(b) => Member::Data(b@),
            Member::BadHeader(e) => Member::BadHeader(e@),
            Member::BadData(e) => Member::BadData(e@),
        }
    }
}

/// The views of a list of members.
pub open spec fn members_view(members: Seq<Member<Vec<u8>, String>>) -> Seq<
    Member<Seq<u8>, Seq<char>>,
> {
    members.map_values(|m: Member<Vec<u8>, String>| m@)
}

/// The members that `object::read::archive::ArchiveFile` finds in `data`, or the text of its
/// error.
pub uninterp spec fn members_of(data: Seq<u8>) -> Result<
    Seq<Member<Seq<u8>, Seq<char>>>,
    Seq<char>,
>;

/// `object::read::archive::ArchiveFile::parse` and its members, in their order: the result is a
/// function of the bytes alone. Errors are kept as their text.
#[verifier::external_body]
pub(crate) fn archive_members(data: &[u8]) -> (r: Result<Vec<Member<Vec<u8>, String>>, String>)
    ensures
        match r {
            Ok(m) => members_of(data@) == Ok::<Seq<Member<Seq<u8>, Seq<char>>>, Seq<char>>(
                members_view(m@),
            ),
            Err(e) => members_of(data@) == Err::<Seq<Member<Seq<u8>, Seq<char>>>, Seq<char>>(e@),
        },
{
    let archive = ArchiveFile::parse(data).map_err(|e| e.to_string())?;
    let bytes = |m: ArchiveMember| match m.data(data) {
        Ok(bytes) => Member::Data(bytes.to_vec()),
        Err(e) => Member::BadData(e.to_string()),
    };
    Ok(archive.members().map(|m| match m {
        Ok(m) => bytes(m),
        Err(e) => Member::BadHeader(e.to_string()),
    }).collect())
}

/// What an object file is for: its architecture, or the name of one that the library does not
/// know, its byte order and its class.
#[derive(Debug)]
pub struct Identity<N> {
    pub arch: Result<Architecture, N>,
    pub endian: Endian,
    pub is_64: bool,
}

impl View for Identity<String> {
    type V = Identity<Seq<char>>;

    open spec fn view(&self) -> Identity<Seq<char>> {
        Identity {
            arch: match self.arch {
                Ok(a) => Ok(a),
                Err(e) => Err(e@),
            },
            endian: self.endian,
            is_64: self.is_64,
        }
    }
}

/// What `object::File::parse` says that `data` is for; `None` where it is no object file.
pub uninterp spec fn identity_of(data: Seq<u8>) -> Option<Identity<Seq<char>>>;

/// `object::File::parse`, then `architecture`, `endianness` and `is_64`: the result is a function
/// of the bytes alone. An architecture that the library does not know is kept as its name.
#[verifier::external_body]
pub(crate) fn object_identity(data: &[u8]) -> (r: Option<Identity<String>>)
    ensures
        match r {
            None => identity_of(data@) is None,
            Some(i) => identity_of(data@) == Some(i@),
        },
{
    let file = File::parse(data).ok()?;
    let arch = match file.architecture() {
        object::Architecture::I386 => Ok(Architecture::X86),
        object::Architecture::X86_64 => Ok(Architecture::X86_64),
        object::Architecture::Arm => Ok(Architecture::Arm),
        object::Architecture::Aarch64 => Ok(Architecture::Arm64),
        object::Architecture::Mips => Ok(Architecture::Mips),
        object::Architecture::Mips64 => Ok(Architecture::Mips64),
        other => Err(format!("{other:?}")),
    };
    let endian = match file.endianness() {
        object::Endianness::Little => Endian::Little,
        object::Endianness::Big => Endian::Big,
    };
    Some(Identity { arch, endian, is_64: file.is_64() })
}

/// The kinds of sections that matter here.
#[derive(Debug, Clone, Copy, PartialEq, Eq, Structural)]
pub enum Kind {
    /// Initialized writable data.
    Data,
    /// Uninitialized writable data.
    UninitializedData,
    /// Anything else.
    Other,
}

/// A section as it is read. Its name may be unreadable, and so may its bytes.
#[derive(Debug)]
pub struct RawSection<B, N> {
    pub index: usize,
    pub name: Option<N>,
    pub align: u64,
    pub kind: Kind,
    pub data: Result<B, N>,
}

impl View for RawSection<Vec<u8>, String> {
    type V = RawSection<Seq<u8>, Seq<char>>;

    open spec fn view(&self) -> RawSection<Seq<u8>, Seq<char>> {
        RawSection {
            index: self.index,
            name: text_view(self.name),
            align: self.align,
            kind: self.kind,
            data: match self.data {
                Ok(b) => Ok(b@),
                Err(e) => Err(e@),
            },
        }
    }
}

/// The views of a list of sections.
pub open spec fn raw_sections_view(sections: Seq<RawSection<Vec<u8>, String>>) -> Seq<
    RawSection<Seq<u8>, Seq<char>>,
> {
    sections.map_values(|s: RawSection<Vec<u8>, String>| s@)
}

/// The sections that `object::File` finds in `data`; none where it is no object file.
pub uninterp spec fn sections_of(data: Seq<u8>) -> Seq<RawSection<Seq<u8>, Seq<char>>>;

/// `object::File::parse`, then its `sections` in their order: the result is a function of the
/// bytes alone. The error of unreadable bytes is kept as its text. What is no object file has no
/// sections.
#[verifier::external_body]
pub(crate) fn object_sections(data: &[u8]) -> (r: Vec<RawSection<Vec<u8>, String>>)
    ensures
        raw_sections_view(r@) == sections_of(data@),
        identity_of(data@) is None ==> r@.len() == 0,
{
    let Ok(file) = File::parse(data) else { return Vec::new() };
    file.sections().map(|s| RawSection {
        index: s.index().0,
        name: s.name().ok().map(str::to_owned),
        align: s.align(),
        kind: match s.kind() {
            SectionKind::Data => Kind::Data,
            SectionKind::UninitializedData => Kind::UninitializedData,
            _ => Kind::Other,
        },
        data: s.data().map(|d| d.to_vec()).map_err(|e| e.to_string()),
    }).collect()
}

/// What a relocation is against: a symbol, or something else, kept as its `Debug` text.
#[derive(Debug)]
pub enum RawTarget<N> {
    Symbol(usize),
    Other(N),
}

/// A relocation as it is read. `r_type` is `None` where it does not come from an ELF object.
#[derive(Debug)]
pub struct RawRel<N> {
    pub offset: u64,
    pub r_type: Option<u32>,
    pub target: RawTarget<N>,
    pub addend: i64,
    pub has_implicit: bool,
}

impl View for RawRel<String> {
    type V = RawRel<Seq<char>>;

    open spec fn view(&self) -> RawRel<Seq<char>> {
        RawRel {
            offset: self.offset,
            r_type: self.r_type,
            target: match self.target {
                RawTarget::Symbol(i) => RawTarget::Symbol(i),
                RawTarget::Other(t) => RawTarget::Other(t@),
            },
            addend: self.addend,
            has_implicit: self.has_implicit,
        }
    }
}

/// The views of a list of relocations.
pub open spec fn raw_rels_view(rels: Seq<RawRel<String>>) -> Seq<RawRel<Seq<char>>> {
    rels.map_values(|r: RawRel<String>| r@)
}

/// The relocations that `object::File` finds for the section at `position` in `data`; none where
/// there is no such section.
pub uninterp spec fn relocations_of(data: Seq<u8>, position: int) -> Seq<RawRel<Seq<char>>>;

/// `object::File::parse`, then the `relocations` of the section at `position`, in their order:
/// the result is a function of the bytes and the position alone.
#[verifier::external_body]
fn object_relocations(data: &[u8], position: usize) -> (r: Vec<RawRel<String>>)
    ensures
        raw_rels_view(r@) == relocations_of(data@, position as int),
{
    let Ok(file) = File::parse(data) else { return Vec::new() };
    let Some(section) = file.sections().nth(position) else { return Vec::new() };
    section.relocations().map(|(offset, r): (u64, Relocation)| RawRel {
        offset,
        r_type: match r.flags() { RelocationFlags::Elf { r_type } => Some(r_type.0), _ => None },
        target: match r.target() {
            RelocationTarget::Symbol(i) => RawTarget::Symbol(i.0),
            other => RawTarget::Other(format!("{other:?}")),
        },
        addend: r.addend(),
        has_implicit: r.has_implicit_addend(),
    }).collect()
}

/// A symbol as it is read. Its name may be unreadable.
#[derive(Debug)]
pub struct RawSymbol<N> {
    pub name: Option<N>,
    pub section: Option<usize>,
    pub value: u64,
    pub undefined: bool,
}

/// A symbol, or the text of the error that reading it gave.
pub type SymbolResult = Result<RawSymbol<String>, String>;

/// The model of a symbol, or of the error that reading it gave.
pub type SymbolResultView = Result<RawSymbol<Seq<char>>, Seq<char>>;

/// The view of a symbol that was read.
pub open spec fn symbol_view(s: SymbolResult) -> SymbolResultView {
    match s {
        Ok(s) => Ok(
            RawSymbol {
                name: text_view(s.name),
                section: s.section,
                value: s.value,
                undefined: s.undefined,
            },
        ),
        Err(e) => Err(e@),
    }
}

/// The symbol that `object::File` finds under `index` in `data`, or the text of its error.
pub uninterp spec fn symbol_of(data: Seq<u8>, index: usize) -> SymbolResultView;

/// `object::File::parse`, then `symbol_by_index`: the result is a function of the bytes and the
/// index alone. An error is kept as its text.
#[verifier::external_body]
fn object_symbol(data: &[u8], index: usize) -> (r: SymbolResult)
    ensures
        symbol_view(r) == symbol_of(data@, index),
{
    let file = File::parse(data).map_err(|e| e.to_string())?;
    let symbol = file.symbol_by_index(SymbolIndex(index)).map_err(|e| e.to_string())?;
    Ok(RawSymbol {
        name: symbol.name().ok().map(str::to_owned),
        section: symbol.section_index().map(|i| i.0),
        value: symbol.address(),
        undefined: symbol.is_undefined(),
    })
}

/// All that is read of an object: its sections, the relocations of each, and the symbols that
/// the relocations are against.
pub struct RawObject {
    pub sections: Vec<RawSection<Vec<u8>, String>>,
    pub relocs: Vec<Vec<RawRel<String>>>,
    pub symbols: HashMap<usize, SymbolResult>,
}

/// The model of what is read of an object.
pub struct RawView {
    pub sections: Seq<RawSection<Seq<u8>, Seq<char>>>,
    pub relocs: Seq<Seq<RawRel<Seq<char>>>>,
    pub symbols: Map<usize, SymbolResultView>,
}

impl View for RawObject {
    type V = RawView;

    open spec fn view(&self) -> RawView {
        RawView {
            sections: raw_sections_view(self.sections@),
            relocs: self.relocs@.map_values(|r: Vec<RawRel<String>>| raw_rels_view(r@)),
            symbols: self.symbols@.map_values(|s: SymbolResult| symbol_view(s)),
        }
    }
}

/// Whether one of the relocations is against symbol `s`.
pub open spec fn referenced(relocs: Seq<Seq<RawRel<Seq<char>>>>, s: usize) -> bool {
    exists|k: int, j: int|
        0 <= k < relocs.len() && 0 <= j < relocs[k].len() && (#[trigger] relocs[k][j]).target
            == RawTarget::<Seq<char>>::Symbol(s)
}

/// What is read of the object file `data`.
pub open spec fn raw_of(data: Seq<u8>) -> RawView {
    let sections = sections_of(data);
    let relocs = Seq::new(sections.len(), |k: int| relocations_of(data, k));
    RawView {
        sections,
        relocs,
        symbols: Map::new(|s: usize| referenced(relocs, s), |s: usize| symbol_of(data, s)),
    }
}

/// Read the symbols that the relocations `rels` are against.
fn read_symbols(data: &[u8], rels: &Vec<RawRel<String>>, symbols: &mut HashMap<usize, SymbolResult>)
    ensures
        forall|s: usize| #[trigger]
            final(symbols)@.dom().contains(s) <==> old(symbols)@.dom().contains(s) || exists|j: int|
                0 <= j < rels@.len() && (#[trigger] rels@[j])@.target == RawTarget::<
                    Seq<char>,
                >::Symbol(s),
        forall|s: usize| #[trigger]
            final(symbols)@.dom().contains(s) ==> (old(symbols)@.dom().contains(s)
                && final(symbols)@[s] == old(symbols)@[s]) || symbol_view(final(symbols)@[s])
                == symbol_of(data@, s),
{
    let mut j: usize = 0;
    while j < rels.len()
        invariant
            j <= rels@.len(),
            forall|s: usize| #[trigger]
                symbols@.dom().contains(s) <==> old(symbols)@.dom().contains(s) || exists|i: int|
                    0 <= i < j && (#[trigger] rels@[i])@.target == RawTarget::<Seq<char>>::Symbol(
                        s,
                    ),
            forall|s: usize| #[trigger]
                symbols@.dom().contains(s) ==> (old(symbols)@.dom().contains(s) && symbols@[s]
                    == old(symbols)@[s]) || symbol_view(symbols@[s]) == symbol_of(data@, s),
        decreases rels@.len() - j,
    {
        let ghost before = symbols@;
        match rels[j].target {
            RawTarget::Other(_) => {
                assert(rels@[j as int]@.target is Other);
            },
            RawTarget::Symbol(sym) => {
                assert(rels@[j as int]@.target == RawTarget::<Seq<char>>::Symbol(sym));
                if !symbols.contains_key(&sym) {
                    symbols.insert(sym, object_symbol(data, sym));
                }
            },
        }
        j = j + 1;
    }
}

/// Read all that linking needs of the object file `data`.
pub fn read_object(data: &[u8]) -> (r: RawObject)
    ensures
        r@ == raw_of(data@),
{
    let sections = object_sections(data);
    let mut relocs: Vec<Vec<RawRel<String>>> = Vec::new();
    let mut symbols: HashMap<usize, SymbolResult> = HashMap::new();
    let ghost goal = raw_of(data@);
    let mut k: usize = 0;
    while k < sections.len()
        invariant
            k <= sections@.len(),
            k == relocs@.len(),
            goal == raw_of(data@),
            raw_sections_view(sections@) == sections_of(data@),
            forall|i: int|
                0 <= i < k ==> raw_rels_view((#[trigger] relocs@[i])@) == goal.relocs[i],
            forall|s: usize| #[trigger]
                symbols@.dom().contains(s) <==> referenced(goal.relocs.take(k as int), s),
            forall|s: usize| #[trigger]
                symbols@.dom().contains(s) ==> symbol_view(symbols@[s]) == symbol_of(data@, s),
        decreases sections@.len() - k,
    {
        let rels = object_relocations(data, k);
        let ghost before = symbols@;
        assert(raw_rels_view(rels@) == goal.relocs[k as int]);
        read_symbols(data, &rels, &mut symbols);
        proof {
            let init = goal.relocs.take(k as int);
            let next = goal.relocs.take(k + 1);
            assert forall|s: usize| #[trigger] symbols@.dom().contains(s) <==> referenced(
                next,
                s,
            ) by {
                if symbols@.dom().contains(s) {
                    if before.dom().contains(s) {
                        let (a, b) = choose|a: int, b: int|
                            0 <= a < init.len() && 0 <= b < init[a].len()
                                && (#[trigger] init[a][b]).target == RawTarget::<
                                Seq<char>,
                            >::Symbol(s);
                        assert(next[a][b].target == RawTarget::<Seq<char>>::Symbol(s));
                    } else {
                        let b = choose|b: int|
                            0 <= b < rels@.len() && (#[trigger] rels@[b])@.target == RawTarget::<
                                Seq<char>,
                            >::Symbol(s);
                        assert(next[k as int][b] == rels@[b]@);
                        assert(next[k as int][b].target == RawTarget::<Seq<char>>::Symbol(s));
                    }
                }
                if referenced(next, s) {
                    let (a, b) = choose|a: int, b: int|
                        0 <= a < next.len() && 0 <= b < next[a].len()
                            && (#[trigger] next[a][b]).target == RawTarget::<Seq<char>>::Symbol(
                            s,
                        );
                    if a < k {
                        assert(init[a][b].target == RawTarget::<Seq<char>>::Symbol(s));
                        assert(before.dom().contains(s));
                    } else {
                        assert(next[a][b] == rels@[b]@);
                        assert(rels@[b]@.target == RawTarget::<Seq<char>>::Symbol(s));
                    }
                }
            }
        }
        relocs.push(rels);
        k = k + 1;
    }
    let r = RawObject { sections, relocs, symbols };
    proof {
        assert(goal.relocs.take(k as int) =~= goal.relocs);
        assert(r@.relocs =~= goal.relocs);
        assert(r@.symbols =~= goal.symbols);
    }
    r
}

/// A text, or the empty text where there is none.
pub open spec fn text_or_empty(text: Option<Seq<char>>) -> Seq<char> {
    match text {
        None => Seq::empty(),
        Some(t) => t,
    }
}

fn or_empty(text: &Option<String>) -> (r: String)
    ensures
        r@ == text_or_empty(text_view(*text)),
{
    match text {
        None => {
            let r = String::new();
            assert(r@ =~= Seq::<char>::empty());
            r
        },
        Some(t) => t.clone(),
    }
}

/// The range of a splice section, `None` for any other name and for a malformed one.
pub open spec fn range_of(name: Seq<char>) -> Option<(u64, u64)> {
    match named_range(name) {
        Some(Ok(range)) => Some(range),
        _ => None,
    }
}

/// The object so far, and the relocations of the section that is being added to it.
pub struct Building {
    pub obj: ObjView,
    pub rels: Seq<Rel>,
}

impl RawView {
    /// The object and the relocations with one relocation more: it must come from an ELF object
    /// and be against a symbol that can be read.
    pub open spec fn rel_added(self, section: Seq<char>, rel: RawRel<Seq<char>>, b: Building) -> Result<
        Building,
        Fault<Seq<char>>,
    > {
        match (rel.r_type, rel.target) {
            (None, _) => Err(Fault::NonElfRelocation { section }),
            (Some(_), RawTarget::Other(target_text)) => Err(
                Fault::RelocationTarget { target_text, section },
            ),
            (Some(r_type), RawTarget::Symbol(sym)) => {
                let rels = b.rels.push(
                    Rel {
                        offset: rel.offset,
                        r_type,
                        sym,
                        addend: rel.addend,
                        has_implicit: rel.has_implicit,
                    },
                );
                if b.obj.syms.dom().contains(sym) {
                    Ok(Building { rels, ..b })
                } else if !self.symbols.dom().contains(sym) {
                    Err(Fault::UnknownSymbol { symbol: sym })
                } else {
                    match self.symbols[sym] {
                        Err(cause) => Err(Fault::BadSymbol { symbol: sym, section, cause }),
                        Ok(s) => Ok(
                            Building {
                                obj: b.obj.with_symbol(
                                    sym,
                                    SymView {
                                        name: text_or_empty(s.name),
                                        section: s.section,
                                        value: s.value,
                                        undefined: s.undefined,
                                    },
                                ),
                                rels,
                            },
                        ),
                    }
                }
            },
        }
    }

    /// The object and the relocations with the relocations `raws` more.
    pub open spec fn rels_added(
        self,
        section: Seq<char>,
        raws: Seq<RawRel<Seq<char>>>,
        b: Building,
    ) -> Result<Building, Fault<Seq<char>>>
        decreases raws.len(),
    {
        if raws.len() == 0 {
            Ok(b)
        } else {
            match self.rel_added(section, raws[0], b) {
                Err(f) => Err(f),
                Ok(next) => self.rels_added(section, raws.drop_first(), next),
            }
        }
    }

    /// The object with the section at `k` more. Unreadable names and bytes count as empty, and
    /// an alignment is at least one.
    pub open spec fn section_added(self, k: int, obj: ObjView) -> Result<ObjView, Fault<Seq<char>>> {
        let raw = self.sections[k];
        let name = text_or_empty(raw.name);
        match self.rels_added(name, self.relocs[k], Building { obj, rels: Seq::empty() }) {
            Err(f) => Err(f),
            Ok(b) => Ok(
                b.obj.with_section(
                    raw.index,
                    SecView {
                        name,
                        align: if raw.align == 0 {
                            1
                        } else {
                            raw.align
                        },
                        writable: raw.kind != Kind::Other,
                        bytes: match raw.data {
                            Ok(bytes) => bytes,
                            Err(_) => Seq::empty(),
                        },
                        relocs: b.rels,
                        splice: range_of(name),
                    },
                ),
            ),
        }
    }

    /// The object with the sections from `k` on more.
    pub open spec fn sections_added(self, k: int, obj: ObjView) -> Result<ObjView, Fault<Seq<char>>>
        decreases self.sections.len() - k,
    {
        if k >= self.sections.len() {
            Ok(obj)
        } else {
            match self.section_added(k, obj) {
                Err(f) => Err(f),
                Ok(next) => self.sections_added(k + 1, next),
            }
        }
    }

    /// The object that was read.
    pub open spec fn modelled(self) -> Result<ObjView, Fault<Seq<char>>> {
        self.sections_added(0, ObjView::empty())
    }
}

/// Add the relocations `raws` of a section to the object.
fn add_rels(raw: &RawObject, section: &String, raws: &Vec<RawRel<String>>, obj: &mut ObjectModel) -> (r:
    Result<Vec<Rel>, Error>)
    requires
        old(obj)@.well_formed(),
    ensures
        final(obj)@.well_formed(),
        match raw@.rels_added(
            section@,
            raw_rels_view(raws@),
            Building { obj: old(obj)@, rels: Seq::empty() },
        ) {
            Ok(b) => r matches Ok(rels) && rels@ == b.rels && final(obj)@ == b.obj,
            Err(f) => r matches Err(e) && e@ == f,
        },
{
    let ghost all = raw_rels_view(raws@);
    let ghost goal = raw@.rels_added(
        section@,
        all,
        Building { obj: obj@, rels: Seq::empty() },
    );
    let mut rels: Vec<Rel> = Vec::new();
    let mut i: usize = 0;
    assert(all.skip(0) =~= all);
    assert(rels@ =~= Seq::<Rel>::empty());
    while i < raws.len()
        invariant
            i <= raws@.len(),
            all == raw_rels_view(raws@),
            obj@.well_formed(),
            goal == raw@.rels_added(
                section@,
                all,
                Building { obj: old(obj)@, rels: Seq::empty() },
            ),
            goal == raw@.rels_added(
                section@,
                all.skip(i as int),
                Building { obj: obj@, rels: rels@ },
            ),
        decreases raws@.len() - i,
    {
        let one = &raws[i];
        assert(all.skip(i as int)[0] == one@);
        assert(all.skip(i as int).drop_first() =~= all.skip(i + 1));
        let r_type: u32 = match one.r_type {
            None => {
                return Err(Fault::NonElfRelocation { section: section.clone() });
            },
            Some(r_type) => r_type,
        };
        let sym: usize = match &one.target {
            RawTarget::Other(t) => {
                return Err(
                    Fault::RelocationTarget { target_text: t.clone(), section: section.clone() },
                );
            },
            RawTarget::Symbol(sym) => *sym,
        };
        rels.push(
            Rel {
                offset: one.offset,
                r_type,
                sym,
                addend: one.addend,
                has_implicit: one.has_implicit,
            },
        );
        if obj.symbol(sym).is_none() {
            match raw.symbols.get(&sym) {
                None => {
                    return Err(Fault::UnknownSymbol { symbol: sym });
                },
                Some(Err(cause)) => {
                    return Err(
                        Fault::BadSymbol {
                            symbol: sym,
                            section: section.clone(),
                            cause: cause.clone(),
                        },
                    );
                },
                Some(Ok(s)) => {
                    let info = SymInfo {
                        name: or_empty(&s.name),
                        section: s.section,
                        value: s.value,
                        undefined: s.undefined,
                    };
                    obj.add_symbol(sym, info);
                },
            }
        }
        i = i + 1;
    }
    Ok(rels)
}

/// Build the object that linking works on from what was read.
pub fn build_model(raw: &RawObject) -> (r: Result<ObjectModel, Error>)
    requires
        raw.relocs@.len() == raw.sections@.len(),
    ensures
        match raw@.modelled() {
            Ok(obj) => r matches Ok(m) && m@ == obj && m@.well_formed(),
            Err(f) => r matches Err(e) && e@ == f,
        },
{
    let ghost goal = raw@.modelled();
    let mut obj = ObjectModel::new();
    let mut k: usize = 0;
    while k < raw.sections.len()
        invariant
            k <= raw.sections@.len(),
            raw.relocs@.len() == raw.sections@.len(),
            obj@.well_formed(),
            goal == raw@.modelled(),
            goal == raw@.sections_added(k as int, obj@),
        decreases raw.sections@.len() - k,
    {
        let section = &raw.sections[k];
        assert(raw@.sections[k as int] == section@);
        assert(raw@.relocs[k as int] == raw_rels_view(raw.relocs@[k as int]@));
        let ghost before = obj@;
        let name = or_empty(&section.name);
        let relocs = match add_rels(raw, &name, &raw.relocs[k], &mut obj) {
            Err(e) => {
                return Err(e);
            },
            Ok(relocs) => relocs,
        };
        let bytes: Vec<u8> = match &section.data {
            Ok(bytes) => bytes.clone(),
            Err(_) => Vec::new(),
        };
        assert(bytes@ =~= (match section@.data {
            Ok(bytes) => bytes,
            Err(_) => Seq::empty(),
        }));
        let sec = Sec {
            splice: splice_range(name.as_str()),
            name,
            align: if section.align == 0 {
                1
            } else {
                section.align
            },
            writable: section.kind != Kind::Other,
            bytes,
            relocs,
        };
        obj.add_section(section.index, sec);
        k = k + 1;
    }
    Ok(obj)
}

/// Whether an object for `identity` may be linked into a target for `machine`: only where
/// architecture, byte order and pointer width agree.
pub open spec fn arch_check(identity: Identity<Seq<char>>, machine: Machine) -> Option<
    Fault<Seq<char>>,
> {
    match identity.arch {
        Err(name) => Some(Fault::UnsupportedArchitecture { name }),
        Ok(arch) => {
            let object = Machine { arch, endian: identity.endian, is_64: identity.is_64 };
            if object == machine {
                None
            } else {
                Some(Fault::Mismatch { object, target: machine })
            }
        },
    }
}

/// Verify that an rlib object member targets the same architecture, byte order,
/// and pointer width as the binary being patched. Splicing wrong-arch machine
/// code in would silently corrupt the target, so this is a hard gate.
pub fn verify_arch(identity: &Identity<String>, machine: Machine) -> (r: Result<(), Error>)
    ensures
        match arch_check(identity@, machine) {
            None => r is Ok,
            Some(f) => r matches Err(e) && e@ == f,
        },
        r is Ok <==> identity.arch == Ok::<Architecture, String>(machine.arch) && identity.endian
            == machine.endian && identity.is_64 == machine.is_64,
{
    match &identity.arch {
        Err(name) => Err(Fault::UnsupportedArchitecture { name: name.clone() }),
        Ok(arch) => {
            let object = Machine { arch: *arch, endian: identity.endian, is_64: identity.is_64 };
            if object == machine {
                Ok(())
            } else {
                Err(Fault::Mismatch { object, target: machine })
            }
        },
    }
}

} // verus!
