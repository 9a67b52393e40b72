//! Turn the splices of a relocatable object into patches for a target binary.
//!
//! A splice is emitted into a `.rspl.<begin>.<end>` section, but its machine code is rarely
//! self-contained: it may call a helper, read a `static`, or call a libc function. Those
//! references appear as relocations against symbols living in other sections (or in the target
//! binary). This module acts as a small static linker for that job: it collects the sections
//! that the splices need, lays them out in a fresh region, synthesizes table slots for indirect
//! references, resolves every relocation, and makes a patch of each splice.
use crate::arch::{
    got_slot_width, is_mips_hi16, is_mips_lo16, low_half_addend, mips_lo16_addend, pointer_width,
    Architecture, R_MIPS_HI16, R_MIPS_LO16,
};
use crate::bytes::{lemma_value_of_digits, overwrite, Endian};
use crate::closure::{collect, find_splices, law_included, lemma_roots};
use crate::decode::law_relocation_frame;
use crate::error::{agrees, Error, Fault, Machine};
use crate::image::{find_symbol, lookup, read_tables, target_tables, SymbolTables, TablesView};
use crate::jump::{generate_jump_instruction, jump};
use crate::model::{ObjView, ObjectModel, Rel, Sec, SecView};
use crate::plan::{
    all_placed, all_slotted, is_plan, lemma_all_placed, lemma_all_slotted, place_all, slot_all, Plan,
    PlanView,
};
use crate::reloc::{aarch64_field, apply, relocated, x86_64_field, RelocError};
use crate::word::{sum, wrap64};
use std::collections::HashMap;
use vstd::prelude::*;

verus! {

broadcast use vstd::std_specs::hash::group_hash_axioms;

/// A splice that has been applied to the target, for reporting.
#[derive(Debug)]
pub struct Applied {
    pub begin: u64,
    pub end: u64,
    pub code_len: usize,
    /// True when the replacement did not fit in `[begin, end)` and was placed in
    /// the injected segment, with a jump written at `begin` to reach it.
    pub trampoline: bool,
}

/// One patch to write into the target: `code` at `[begin, end)`, NOP-filled.
#[derive(Debug)]
pub struct Patch {
    pub begin: u64,
    pub end: u64,
    pub code: Vec<u8>,
    pub trampoline: bool,
}

/// The model of a patch.
pub struct PatchView {
    pub begin: u64,
    pub end: u64,
    pub code: Seq<u8>,
    pub trampoline: bool,
}

impl View for Patch {
    type V = PatchView;

    open spec fn view(&self) -> PatchView {
        PatchView {
            begin: self.begin,
            end: self.end,
            code: self.code@,
            trampoline: self.trampoline,
        }
    }
}

/// The views of a list of patches.
pub open spec fn patches_view(patches: Seq<Patch>) -> Seq<PatchView> {
    patches.map_values(|p: Patch| p@)
}

/// What the target says of its symbols.
#[derive(Debug)]
pub enum Externals {
    Tables(SymbolTables),
    /// The image cannot be parsed, for this reason.
    Unreadable(String),
    /// The image has no ELF symbol tables.
    NotElf,
}

impl View for Externals {
    type V = Result<TablesView, Fault<Seq<char>>>;

    open spec fn view(&self) -> Result<TablesView, Fault<Seq<char>>> {
        match self {
            Externals::Tables(t) => Ok(t@),
            Externals::Unreadable(cause) => Err(Fault::Image { cause: cause@ }),
            Externals::NotElf => Err(Fault::NotElf),
        }
    }
}

/// Read the symbol tables of the image `data`.
pub fn read_externals(data: &[u8]) -> (r: Externals)
    ensures
        r@ == target_tables(data@),
{
    match read_tables(data) {
        Ok(tables) => Externals::Tables(tables),
        Err(Fault::Image { cause }) => Externals::Unreadable(cause),
        Err(_) => Externals::NotElf,
    }
}

/// What linking an object depends on: the object, the target's machine and symbols, and the
/// address of the injected segment.
pub struct Linker<'a> {
    pub obj: &'a ObjectModel,
    pub machine: Machine,
    pub externals: &'a Externals,
    pub base: u64,
}

/// The model of what linking an object depends on.
pub struct LinkView {
    pub obj: ObjView,
    pub machine: Machine,
    pub externals: Result<TablesView, Fault<Seq<char>>>,
    pub base: u64,
}

impl<'a> View for Linker<'a> {
    type V = LinkView;

    open spec fn view(&self) -> LinkView {
        LinkView {
            obj: self.obj@,
            machine: self.machine,
            externals: self.externals@,
            base: self.base,
        }
    }
}

/// Whether the code of a section fits the range that it replaces.
pub open spec fn fits(sec: SecView) -> bool {
    sec.splice matches Some((begin, end)) && begin <= end && sec.bytes.len() <= end - begin
}

/// The first range among the splices of `list` that ends before it begins.
pub open spec fn bad_range(obj: ObjView, list: Seq<usize>) -> Option<(u64, u64)>
    decreases list.len(),
{
    if list.len() == 0 {
        None
    } else {
        match obj.secs[list[0]].splice {
            Some((begin, end)) if end < begin => Some((begin, end)),
            _ => bad_range(obj, list.drop_first()),
        }
    }
}

/// The splices of `list` that do not fit their range.
pub open spec fn oversized(obj: ObjView, list: Seq<usize>) -> Seq<usize>
    decreases list.len(),
{
    if list.len() == 0 {
        Seq::empty()
    } else {
        let rest = oversized(obj, list.drop_last());
        if fits(obj.secs[list.last()]) {
            rest
        } else {
            rest.push(list.last())
        }
    }
}

/// The addresses of the splices of `list` that fit their range: where it begins.
pub open spec fn pinned(obj: ObjView, list: Seq<usize>) -> Map<usize, u64>
    decreases list.len(),
{
    if list.len() == 0 {
        Map::empty()
    } else {
        let rest = pinned(obj, list.drop_last());
        match obj.secs[list.last()].splice {
            Some((begin, _)) if fits(obj.secs[list.last()]) => rest.insert(list.last(), begin),
            _ => rest,
        }
    }
}

/// The first relocation of a low half against a symbol.
pub open spec fn first_low(arch: Architecture, rels: Seq<Rel>, sym: usize) -> Option<Rel>
    decreases rels.len(),
{
    if rels.len() == 0 {
        None
    } else if arch.is_mips() && rels[0].r_type == R_MIPS_LO16 && rels[0].sym == sym {
        Some(rels[0])
    } else {
        first_low(arch, rels.drop_first(), sym)
    }
}

/// The addend of the low half that belongs to a relocation, read from the unrelocated section:
/// there is one only for a MIPS high half whose addend is stored in the field.
pub open spec fn pair_low(machine: Machine, sec: SecView, rel: Rel) -> Result<
    Option<i64>,
    RelocError,
> {
    if machine.arch.is_mips() && rel.r_type == R_MIPS_HI16 && rel.has_implicit {
        match first_low(machine.arch, sec.relocs, rel.sym) {
            None => Ok(None),
            Some(low) => if low.offset + 4 <= sec.bytes.len() {
                Ok(Some(low_half_addend(machine.endian, sec.bytes, low.offset as int) as i64))
            } else {
                Err(RelocError::OutsideSection)
            },
        }
    } else {
        Ok(None)
    }
}

/// The segment and the patches made so far.
pub struct Output {
    pub blob: Seq<u8>,
    pub patches: Seq<PatchView>,
}

impl LinkView {
    /// The final address of a symbol: inside its section, where the target has it, or absolute.
    pub open spec fn resolved(self, va: Map<usize, u64>, sym: usize) -> Result<
        u64,
        Fault<Seq<char>>,
    > {
        if !self.obj.syms.dom().contains(sym) {
            Err(Fault::UnknownSymbol { symbol: sym })
        } else {
            let s = self.obj.syms[sym];
            match s.section {
                Some(j) => if va.dom().contains(j) {
                    Ok(wrap64(va[j] + s.value))
                } else {
                    Err(Fault::UnlaidSection { name: s.name })
                },
                None => if s.undefined {
                    match self.externals {
                        Err(f) => Err(f),
                        Ok(tables) => match lookup(tables, self.machine.arch, s.name) {
                            None => Err(Fault::Unresolved { name: s.name }),
                            Some(v) => Ok(v),
                        },
                    }
                } else {
                    Ok(s.value)
                },
            }
        }
    }

    /// The plan with the address of a symbol in its table slot.
    pub open spec fn filled(self, sym: usize, plan: PlanView) -> Result<PlanView, Fault<Seq<char>>> {
        match self.resolved(plan.va, sym) {
            Err(f) => Err(f),
            Ok(s) => Ok(
                PlanView {
                    blob: overwrite(
                        plan.blob,
                        plan.got[sym].1,
                        self.machine.endian.digits(s as nat, pointer_width(self.machine.is_64)),
                    ),
                    ..plan
                },
            ),
        }
    }

    /// The plan with the addresses of the symbols `syms` in their table slots.
    pub open spec fn all_filled(self, syms: Seq<usize>, plan: PlanView) -> Result<
        PlanView,
        Fault<Seq<char>>,
    >
        decreases syms.len(),
    {
        if syms.len() == 0 {
            Ok(plan)
        } else {
            match self.filled(syms[0], plan) {
                Err(f) => Err(f),
                Ok(next) => self.all_filled(syms.drop_first(), next),
            }
        }
    }

    /// The buffer `buf` of a section at `site` after one of its relocations.
    pub open spec fn rel_applied(
        self,
        plan: PlanView,
        sec: SecView,
        site: u64,
        rel: Rel,
        buf: Seq<u8>,
    ) -> Result<Seq<u8>, Fault<Seq<char>>> {
        match self.resolved(plan.va, rel.sym) {
            Err(f) => Err(f),
            Ok(s) => {
                let a = if rel.has_implicit {
                    0
                } else {
                    rel.addend as int
                };
                let got = if plan.got.dom().contains(rel.sym) {
                    Some(plan.got[rel.sym].0)
                } else {
                    None
                };
                let result = match pair_low(self.machine, sec, rel) {
                    Err(why) => Err(why),
                    Ok(pair) => relocated(
                        self.machine.arch,
                        self.machine.endian,
                        rel.r_type,
                        buf,
                        rel.offset as int,
                        s as int,
                        a,
                        wrap64(site + rel.offset) as int,
                        got,
                        rel.has_implicit,
                        pair,
                    ),
                };
                match result {
                    Err(why) => Err(
                        Fault::Relocation {
                            symbol_name: self.obj.syms[rel.sym].name,
                            section: sec.name,
                            why,
                        },
                    ),
                    Ok(b) => Ok(b),
                }
            },
        }
    }

    /// The buffer `buf` of a section at `site` after the relocations `rels`.
    pub open spec fn rels_applied(
        self,
        plan: PlanView,
        sec: SecView,
        site: u64,
        rels: Seq<Rel>,
        buf: Seq<u8>,
    ) -> Result<Seq<u8>, Fault<Seq<char>>>
        decreases rels.len(),
    {
        if rels.len() == 0 {
            Ok(buf)
        } else {
            match self.rel_applied(plan, sec, site, rels[0], buf) {
                Err(f) => Err(f),
                Ok(b) => self.rels_applied(plan, sec, site, rels.drop_first(), b),
            }
        }
    }

    /// The output after the relocations of section `i`: a splice that fits becomes a patch, any
    /// other section is relocated in place inside the segment.
    pub open spec fn section_applied(self, plan: PlanView, i: usize, out: Output) -> Result<
        Output,
        Fault<Seq<char>>,
    > {
        let sec = self.obj.secs[i];
        let site = plan.va[i];
        if fits(sec) {
            let (begin, end) = sec.splice->0;
            match self.rels_applied(plan, sec, site, sec.relocs, sec.bytes) {
                Err(f) => Err(f),
                Ok(code) => Ok(
                    Output {
                        patches: out.patches.push(
                            PatchView { begin, end, code, trampoline: false },
                        ),
                        ..out
                    },
                ),
            }
        } else {
            let at = plan.off[i];
            match self.rels_applied(plan, sec, site, sec.relocs, out.blob.skip(at)) {
                Err(f) => Err(f),
                Ok(tail) => Ok(Output { blob: out.blob.take(at) + tail, ..out }),
            }
        }
    }

    /// The output after the relocations of the sections of `list`.
    pub open spec fn all_applied(self, plan: PlanView, list: Seq<usize>, out: Output) -> Result<
        Output,
        Fault<Seq<char>>,
    >
        decreases list.len(),
    {
        if list.len() == 0 {
            Ok(out)
        } else {
            match self.section_applied(plan, list[0], out) {
                Err(f) => Err(f),
                Ok(next) => self.all_applied(plan, list.drop_first(), next),
            }
        }
    }

    /// The output with a jump patch for an oversized splice: from where its range begins to its
    /// code in the segment.
    pub open spec fn bridged(self, plan: PlanView, i: usize, out: Output) -> Result<
        Output,
        Fault<Seq<char>>,
    > {
        let (begin, end) = self.obj.secs[i].splice->0;
        match jump(self.machine, begin, plan.va[i]) {
            Err(f) => Err(f),
            Ok(code) => if code.len() > end - begin {
                Err(Fault::SmallRegion { begin, end, jump_len: code.len() as usize })
            } else {
                Ok(
                    Output {
                        patches: out.patches.push(
                            PatchView { begin, end, code, trampoline: true },
                        ),
                        ..out
                    },
                )
            },
        }
    }

    /// The output with jump patches for the oversized splices of `list`.
    pub open spec fn all_bridged(self, plan: PlanView, list: Seq<usize>, out: Output) -> Result<
        Output,
        Fault<Seq<char>>,
    >
        decreases list.len(),
    {
        if list.len() == 0 {
            Ok(out)
        } else {
            match self.bridged(plan, list[0], out) {
                Err(f) => Err(f),
                Ok(next) => self.all_bridged(plan, list.drop_first(), next),
            }
        }
    }

    /// The layout of an object behind `blob`: the needed sections, then the oversized splices,
    /// then the table slots, filled with addresses.
    pub open spec fn laid_out(self, found: Seq<usize>, blob: Seq<u8>) -> Result<
        PlanView,
        Fault<Seq<char>>,
    > {
        let splices = self.obj.splices();
        let list = found.skip(splices.len() as int) + oversized(self.obj, splices);
        let start = PlanView {
            blob,
            va: pinned(self.obj, splices),
            off: Map::empty(),
            got: Map::empty(),
            got_order: Seq::empty(),
        };
        match all_placed(self.obj, list, self.base, start) {
            Err(f) => Err(f),
            Ok(plan) => match all_slotted(self.obj, found, self.machine, self.base, plan) {
                Err(f) => Err(f),
                Ok(plan) => self.all_filled(plan.got_order, plan),
            },
        }
    }

    /// The output after an object was linked.
    pub open spec fn linked(self, out: Output) -> Result<Output, Fault<Seq<char>>> {
        let splices = self.obj.splices();
        match self.obj.included() {
            Err(f) => Err(f),
            Ok(found) => match bad_range(self.obj, splices) {
                Some((begin, end)) => Err(Fault::InvalidRange { begin, end }),
                None => match self.laid_out(found, out.blob) {
                    Err(f) => Err(f),
                    Ok(plan) => match self.all_applied(
                        plan,
                        found,
                        Output { blob: plan.blob, ..out },
                    ) {
                        Err(f) => Err(f),
                        Ok(next) => self.all_bridged(plan, oversized(self.obj, splices), next),
                    },
                },
            },
        }
    }
}

/// A relocation outside its buffer is refused in the same way wherever it lies.
proof fn lemma_far(
    arch: Architecture,
    endian: Endian,
    r_type: u32,
    buf: Seq<u8>,
    off: int,
    other: int,
    s: int,
    a: int,
    p: int,
    got: Option<u64>,
    implicit: bool,
    pair_lo: Option<i64>,
)
    requires
        off >= buf.len(),
        other >= buf.len(),
    ensures
        relocated(arch, endian, r_type, buf, off, s, a, p, got, implicit, pair_lo) == relocated(
            arch,
            endian,
            r_type,
            buf,
            other,
            s,
            a,
            p,
            got,
            implicit,
            pair_lo,
        ),
{
    reveal(x86_64_field);
    reveal(aarch64_field);
}

/// The paired `R_MIPS_LO16` addend for an `R_MIPS_HI16`, read from the original
/// section bytes (the low half of the first matching-symbol LO16 instruction).
fn find_pair_lo(machine: Machine, sec: &Sec, rel: Rel) -> (r: Result<Option<i64>, RelocError>)
    ensures
        r == pair_low(machine, sec@, rel),
{
    if !is_mips_hi16(machine.arch, rel.r_type) || !rel.has_implicit {
        return Ok(None);
    }
    let ghost goal = first_low(machine.arch, sec.relocs@, rel.sym);
    let mut i: usize = 0;
    assert(sec.relocs@.skip(0) =~= sec.relocs@);
    while i < sec.relocs.len()
        invariant
            i <= sec.relocs@.len(),
            goal == first_low(machine.arch, sec.relocs@, rel.sym),
            goal == first_low(machine.arch, sec.relocs@.skip(i as int), rel.sym),
            machine.arch.is_mips() && rel.r_type == R_MIPS_HI16 && rel.has_implicit,
        decreases sec.relocs@.len() - i,
    {
        let low = sec.relocs[i];
        assert(sec.relocs@.skip(i as int)[0] == low);
        assert(sec.relocs@.skip(i as int).drop_first() =~= sec.relocs@.skip(i + 1));
        if is_mips_lo16(machine.arch, low.r_type) && low.sym == rel.sym {
            let len: u64 = sec.bytes.len() as u64;
            if len < 4 || low.offset > len - 4 {
                return Err(RelocError::OutsideSection);
            }
            return Ok(Some(mips_lo16_addend(machine.endian, &sec.bytes, low.offset as usize)));
        }
        i = i + 1;
    }
    Ok(None)
}

impl<'a> Linker<'a> {
    /// Resolve a symbol index to its final virtual address.
    fn resolve(&self, va: &HashMap<usize, u64>, sym: usize) -> (r: Result<u64, Error>)
        ensures
            agrees(r, self@.resolved(va@, sym)),
    {
        let s = match self.obj.symbol(sym) {
            None => {
                return Err(Fault::UnknownSymbol { symbol: sym });
            },
            Some(s) => s,
        };
        match s.section {
            Some(j) => match va.get(&j) {
                None => Err(Fault::UnlaidSection { name: s.name.clone() }),
                Some(start) => Ok(sum(*start, s.value)),
            },
            None => if s.undefined {
                match self.externals {
                    Externals::Unreadable(cause) => Err(Fault::Image { cause: cause.clone() }),
                    Externals::NotElf => Err(Fault::NotElf),
                    Externals::Tables(tables) => match find_symbol(
                        tables,
                        self.machine.arch,
                        s.name.as_str(),
                    ) {
                        None => Err(Fault::Unresolved { name: s.name.clone() }),
                        Some(v) => Ok(v),
                    },
                }
            } else {
                Ok(s.value)
            },
        }
    }

    /// Fill each synthesized table slot with its resolved symbol address.
    fn fill_all(&self, start: Plan) -> (r: Result<Plan, Error>)
        requires
            start@.well_formed(pointer_width(self.machine.is_64)),
        ensures
            is_plan(r, self@.all_filled(start@.got_order, start@)),
            r matches Ok(plan) ==> plan@.well_formed(pointer_width(self.machine.is_64))
                && plan@.va == start@.va && plan@.off == start@.off,
    {
        let ghost goal = self@.all_filled(start@.got_order, start@);
        let mut plan = start;
        let width: usize = got_slot_width(self.machine.is_64);
        let mut i: usize = 0;
        assert(plan.got_order@.skip(0) =~= plan.got_order@);
        while i < plan.got_order.len()
            invariant
                i <= plan.got_order@.len(),
                width == pointer_width(self.machine.is_64),
                width == 4 || width == 8,
                plan@.well_formed(width as nat),
                plan@.got_order == start@.got_order,
                plan@.va == start@.va,
                plan@.off == start@.off,
                goal == self@.all_filled(start@.got_order, start@),
                goal == self@.all_filled(plan@.got_order.skip(i as int), plan@),
            decreases plan.got_order@.len() - i,
        {
            let sym: usize = plan.got_order[i];
            assert(plan.got_order@.skip(i as int)[0] == sym);
            assert(plan.got_order@.skip(i as int).drop_first() =~= plan.got_order@.skip(i + 1));
            assert(plan@.got.dom().contains(plan@.got_order[i as int]));
            let s: u64 = match self.resolve(&plan.va, sym) {
                Err(e) => {
                    return Err(e);
                },
                Ok(s) => s,
            };
            let ghost before = plan@;
            if let Some(slot) = plan.got.get(&sym) {
                let at: usize = slot.1;
                self.machine.endian.write_uint(&mut plan.blob, at, width, s);
                proof {
                    let next = self@.filled(sym, before)->Ok_0;
                    lemma_value_of_digits(self.machine.endian, s as nat, width as nat);
                    assert(plan@.blob == next.blob);
                    assert(plan@ == next);
                }
            }
            i = i + 1;
        }
        Ok(plan)
    }

    /// Apply one relocation of a section at `site` to its buffer.
    fn apply_rel(&self, plan: &Plan, sec: &Sec, site: u64, rel: Rel, buf: &mut Vec<u8>) -> (r:
        Result<(), Error>)
        ensures
            match self@.rel_applied(plan@, sec@, site, rel, old(buf)@) {
                Ok(b) => r is Ok && final(buf)@ == b,
                Err(f) => r matches Err(e) && e@ == f,
            },
    {
        let s: u64 = match self.resolve(&plan.va, rel.sym) {
            Err(e) => {
                return Err(e);
            },
            Ok(s) => s,
        };
        let p: u64 = sum(site, rel.offset);
        let a: i64 = if rel.has_implicit {
            0
        } else {
            rel.addend
        };
        let got_va: Option<u64> = match plan.got.get(&rel.sym) {
            None => None,
            Some(slot) => Some(slot.0),
        };
        let off: usize = if rel.offset > usize::MAX as u64 {
            usize::MAX
        } else {
            rel.offset as usize
        };
        assert(buf.len() <= usize::MAX);
        let result = match find_pair_lo(self.machine, sec, rel) {
            Err(why) => Err(why),
            Ok(pair) => {
                proof {
                    if rel.offset > usize::MAX {
                        lemma_far(
                            self.machine.arch,
                            self.machine.endian,
                            rel.r_type,
                            buf@,
                            off as int,
                            rel.offset as int,
                            s as int,
                            a as int,
                            p as int,
                            got_va,
                            rel.has_implicit,
                            pair,
                        );
                    }
                }
                apply(
                    self.machine.arch,
                    self.machine.endian,
                    rel.r_type,
                    buf,
                    off,
                    s,
                    a,
                    p,
                    got_va,
                    rel.has_implicit,
                    pair,
                )
            },
        };
        match result {
            Ok(()) => Ok(()),
            Err(why) => {
                let symbol_name = match self.obj.symbol(rel.sym) {
                    None => String::new(),
                    Some(s) => s.name.clone(),
                };
                Err(Fault::Relocation { symbol_name, section: sec.name.clone(), why })
            },
        }
    }

    /// Apply the relocations of a section at `site` to its buffer.
    fn apply_rels(&self, plan: &Plan, sec: &Sec, site: u64, buf: &mut Vec<u8>) -> (r: Result<
        (),
        Error,
    >)
        ensures
            match self@.rels_applied(plan@, sec@, site, sec@.relocs, old(buf)@) {
                Ok(b) => r is Ok && final(buf)@ == b,
                Err(f) => r matches Err(e) && e@ == f,
            },
    {
        let ghost goal = self@.rels_applied(plan@, sec@, site, sec@.relocs, buf@);
        let mut i: usize = 0;
        assert(sec.relocs@.skip(0) =~= sec.relocs@);
        while i < sec.relocs.len()
            invariant
                i <= sec.relocs@.len(),
                goal == self@.rels_applied(plan@, sec@, site, sec@.relocs, old(buf)@),
                goal == self@.rels_applied(plan@, sec@, site, sec.relocs@.skip(i as int), buf@),
            decreases sec.relocs@.len() - i,
        {
            let rel = sec.relocs[i];
            assert(sec.relocs@.skip(i as int)[0] == rel);
            assert(sec.relocs@.skip(i as int).drop_first() =~= sec.relocs@.skip(i + 1));
            match self.apply_rel(plan, sec, site, rel, buf) {
                Err(e) => {
                    return Err(e);
                },
                Ok(()) => {},
            }
            i = i + 1;
        }
        Ok(())
    }
}

/// The oversized splices of `list` are those that do not fit.
pub proof fn lemma_oversized(obj: ObjView, list: Seq<usize>)
    ensures
        forall|i: usize| #[trigger]
            oversized(obj, list).contains(i) <==> list.contains(i) && !fits(obj.secs[i]),
    decreases list.len(),
{
    if list.len() > 0 {
        let init = list.drop_last();
        let last = list.last();
        lemma_oversized(obj, init);
        let before = oversized(obj, init);
        let after = oversized(obj, list);
        assert forall|i: usize| #[trigger] after.contains(i) <==> list.contains(i) && !fits(
            obj.secs[i],
        ) by {
            lemma_contains_last(list, i);
            if !fits(obj.secs[last]) {
                assert(after.drop_last() =~= before);
                lemma_contains_last(after, i);
            }
            assert(before.contains(i) <==> init.contains(i) && !fits(obj.secs[i]));
        }
    }
}

/// A list holds its last item and what the rest of it holds.
proof fn lemma_contains_last(list: Seq<usize>, i: usize)
    requires
        list.len() > 0,
    ensures
        list.contains(i) <==> i == list.last() || list.drop_last().contains(i),
{
    let init = list.drop_last();
    if list.contains(i) && i != list.last() {
        let k = choose|k: int| 0 <= k < list.len() && list[k] == i;
        assert(init[k] == i);
    }
    if init.contains(i) {
        let k = choose|k: int| 0 <= k < init.len() && init[k] == i;
        assert(list[k] == i);
    }
    assert(list[list.len() - 1] == list.last());
}

/// The pinned splices of `list` are those that fit.
proof fn lemma_pinned(obj: ObjView, list: Seq<usize>)
    ensures
        forall|i: usize| #[trigger]
            pinned(obj, list).dom().contains(i) <==> list.contains(i) && fits(obj.secs[i]),
    decreases list.len(),
{
    if list.len() > 0 {
        let init = list.drop_last();
        lemma_pinned(obj, init);
        assert forall|i: usize| #[trigger]
            pinned(obj, list).dom().contains(i) <==> list.contains(i) && fits(obj.secs[i]) by {
            lemma_contains_last(list, i);
            assert(pinned(obj, init).dom().contains(i) <==> init.contains(i) && fits(obj.secs[i]));
        }
    }
}

/// No range of `list` ends before it begins where none is found to.
pub proof fn lemma_good_ranges(obj: ObjView, list: Seq<usize>)
    requires
        bad_range(obj, list) is None,
    ensures
        forall|k: int|
            0 <= k < list.len() ==> (obj.secs[#[trigger] list[k]].splice matches Some((begin, end))
                ==> begin <= end),
    decreases list.len(),
{
    if list.len() > 0 {
        let rest = list.drop_first();
        lemma_good_ranges(obj, rest);
        assert forall|k: int| 0 <= k < list.len() implies (
        obj.secs[#[trigger] list[k]].splice matches Some((begin, end)) ==> begin <= end) by {
            if k > 0 {
                assert(rest[k - 1] == list[k]);
            }
        }
    }
}

/// Whether the code of a section fits the range that it replaces.
fn fits_range(sec: &Sec) -> (r: bool)
    ensures
        r == fits(sec@),
{
    match sec.splice {
        None => false,
        Some((begin, end)) => begin <= end && sec.bytes.len() as u64 <= end - begin,
    }
}

/// Refuse ranges that end before they begin.
fn check_ranges(obj: &ObjectModel, splices: &Vec<usize>) -> (r: Result<(), Error>)
    requires
        forall|k: int| 0 <= k < splices@.len() ==> obj@.secs.dom().contains(#[trigger] splices@[k]),
    ensures
        match bad_range(obj@, splices@) {
            None => r is Ok,
            Some((begin, end)) => r matches Err(e) && e@ == (Fault::<Seq<char>>::InvalidRange {
                begin,
                end,
            }),
        },
{
    let ghost goal = bad_range(obj@, splices@);
    let mut i: usize = 0;
    assert(splices@.skip(0) =~= splices@);
    while i < splices.len()
        invariant
            i <= splices@.len(),
            forall|k: int|
                0 <= k < splices@.len() ==> obj@.secs.dom().contains(#[trigger] splices@[k]),
            goal == bad_range(obj@, splices@),
            goal == bad_range(obj@, splices@.skip(i as int)),
        decreases splices@.len() - i,
    {
        let index: usize = splices[i];
        assert(splices@.skip(i as int)[0] == index);
        assert(splices@.skip(i as int).drop_first() =~= splices@.skip(i + 1));
        assert(obj@.secs.dom().contains(splices@[i as int]));
        if let Some(sec) = obj.section(index) {
            if let Some((begin, end)) = sec.splice {
                if end < begin {
                    return Err(Fault::InvalidRange { begin, end });
                }
            }
        }
        i = i + 1;
    }
    Ok(())
}

/// A splice whose code fits its `[begin, end)` region is pinned there; the others are listed.
fn pin_splices(obj: &ObjectModel, splices: &Vec<usize>) -> (r: (HashMap<usize, u64>, Vec<usize>))
    requires
        forall|k: int| 0 <= k < splices@.len() ==> obj@.secs.dom().contains(#[trigger] splices@[k]),
    ensures
        r.0@ == pinned(obj@, splices@),
        r.1@ == oversized(obj@, splices@),
{
    let mut va: HashMap<usize, u64> = HashMap::new();
    let mut over: Vec<usize> = Vec::new();
    let mut i: usize = 0;
    while i < splices.len()
        invariant
            i <= splices@.len(),
            forall|k: int|
                0 <= k < splices@.len() ==> obj@.secs.dom().contains(#[trigger] splices@[k]),
            va@ == pinned(obj@, splices@.take(i as int)),
            over@ == oversized(obj@, splices@.take(i as int)),
        decreases splices@.len() - i,
    {
        let index: usize = splices[i];
        assert(splices@.take(i + 1).drop_last() =~= splices@.take(i as int));
        assert(obj@.secs.dom().contains(splices@[i as int]));
        if let Some(sec) = obj.section(index) {
            match sec.splice {
                Some((begin, _)) if fits_range(sec) => {
                    va.insert(index, begin);
                },
                _ => {
                    over.push(index);
                },
            }
        }
        i = i + 1;
    }
    assert(splices@.take(i as int) =~= splices@);
    (va, over)
}

impl LinkView {
    /// Whether every section of `list` has the place that relocating it needs.
    pub open spec fn ready(self, plan: PlanView, list: Seq<usize>, blob_len: nat) -> bool {
        forall|k: int|
            0 <= k < list.len() ==> {
                &&& self.obj.secs.dom().contains(#[trigger] list[k])
                &&& plan.va.dom().contains(list[k])
                &&& !fits(self.obj.secs[list[k]]) ==> plan.off.dom().contains(list[k]) && 0
                    <= plan.off[list[k]] <= blob_len
            }
    }
}

/// Relocating keeps the length of a buffer.
pub proof fn lemma_rels_len(
    ctx: LinkView,
    plan: PlanView,
    sec: SecView,
    site: u64,
    rels: Seq<Rel>,
    buf: Seq<u8>,
)
    ensures
        ctx.rels_applied(plan, sec, site, rels, buf) matches Ok(b) ==> b.len() == buf.len(),
    decreases rels.len(),
{
    if rels.len() > 0 {
        let rel = rels[0];
        if let Ok(b) = ctx.rel_applied(plan, sec, site, rel, buf) {
            let s = ctx.resolved(plan.va, rel.sym)->Ok_0;
            let a = if rel.has_implicit {
                0
            } else {
                rel.addend as int
            };
            let got = if plan.got.dom().contains(rel.sym) {
                Some(plan.got[rel.sym].0)
            } else {
                None
            };
            law_relocation_frame(
                ctx.machine.arch,
                ctx.machine.endian,
                rel.r_type,
                buf,
                rel.offset as int,
                s as int,
                a,
                wrap64(site + rel.offset) as int,
                got,
                rel.has_implicit,
                pair_low(ctx.machine, sec, rel)->Ok_0,
            );
            lemma_rels_len(ctx, plan, sec, site, rels.drop_first(), b);
        }
    }
}

/// Whether `r` is the output, or the error, that `goal` names.
pub open spec fn is_output(
    r: Result<(Vec<u8>, Vec<Patch>), Error>,
    goal: Result<Output, Fault<Seq<char>>>,
) -> bool {
    match r {
        Ok((blob, patches)) => goal == Ok::<Output, Fault<Seq<char>>>(
            Output { blob: blob@, patches: patches_view(patches@) },
        ),
        Err(e) => goal == Err::<Output, Fault<Seq<char>>>(e@),
    }
}

impl<'a> Linker<'a> {
    /// Apply the relocations of every section of `list`. A splice that fits is
    /// relocated into a private buffer and becomes a patch;
    /// everything else (referenced sections, oversized splices) is relocated in
    /// place inside the injected blob.
    fn apply_all(
        &self,
        plan: &Plan,
        list: &Vec<usize>,
        start_blob: Vec<u8>,
        start_patches: Vec<Patch>,
    ) -> (r: Result<(Vec<u8>, Vec<Patch>), Error>)
        requires
            self@.ready(plan@, list@, start_blob@.len()),
        ensures
            is_output(
                r,
                self@.all_applied(
                    plan@,
                    list@,
                    Output { blob: start_blob@, patches: patches_view(start_patches@) },
                ),
            ),
    {
        let ghost start = Output { blob: start_blob@, patches: patches_view(start_patches@) };
        let ghost goal = self@.all_applied(plan@, list@, start);
        let mut blob = start_blob;
        let mut patches = start_patches;
        let mut i: usize = 0;
        assert(list@.skip(0) =~= list@);
        while i < list.len()
            invariant
                i <= list@.len(),
                start == (Output { blob: start_blob@, patches: patches_view(start_patches@) }),
                blob@.len() == start_blob@.len(),
                self@.ready(plan@, list@, start_blob@.len()),
                goal == self@.all_applied(plan@, list@, start),
                goal == self@.all_applied(
                    plan@,
                    list@.skip(i as int),
                    Output { blob: blob@, patches: patches_view(patches@) },
                ),
            decreases list@.len() - i,
        {
            let index: usize = list[i];
            let ghost before = Output { blob: blob@, patches: patches_view(patches@) };
            assert(list@.skip(i as int)[0] == index);
            assert(list@.skip(i as int).drop_first() =~= list@.skip(i + 1));
            assert(self@.obj.secs.dom().contains(list@[i as int]));
            if let (Some(sec), Some(site)) = (self.obj.section(index), plan.va.get(&index)) {
                let site: u64 = *site;
                match sec.splice {
                    Some((begin, end)) if fits_range(sec) => {
                        let mut code = sec.bytes.clone();
                        assert(code@ =~= sec@.bytes);
                        match self.apply_rels(plan, sec, site, &mut code) {
                            Err(e) => {
                                return Err(e);
                            },
                            Ok(()) => {},
                        }
                        let ghost old_patches = patches@;
                        let patch = Patch { begin, end, code, trampoline: false };
                        let ghost view = patch@;
                        patches.push(patch);
                        assert(patches_view(patches@) =~= patches_view(old_patches).push(view));
                        assert(self@.section_applied(plan@, index, before) == Ok::<
                            Output,
                            Fault<Seq<char>>,
                        >(Output { blob: blob@, patches: patches_view(patches@) }));
                    },
                    _ => {
                        if let Some(at) = plan.off.get(&index) {
                            let at: usize = *at;
                            assert(plan@.off[index] == at);
                            let mut tail = blob.split_off(at);
                            assert(tail@ =~= before.blob.skip(at as int));
                            proof {
                                lemma_rels_len(self@, plan@, sec@, site, sec@.relocs, tail@);
                            }
                            match self.apply_rels(plan, sec, site, &mut tail) {
                                Err(e) => {
                                    return Err(e);
                                },
                                Ok(()) => {},
                            }
                            let ghost new_tail = tail@;
                            blob.append(&mut tail);
                            assert(blob@ =~= before.blob.take(at as int) + new_tail);
                            assert(self@.section_applied(plan@, index, before) == Ok::<
                                Output,
                                Fault<Seq<char>>,
                            >(Output { blob: blob@, patches: patches_view(patches@) }));
                        }
                    },
                }
            }
            i = i + 1;
        }
        Ok((blob, patches))
    }

    /// Emit a trampoline for each oversized splice of `list`: an unconditional jump from
    /// `begin` to the relocated code now living in the injected segment.
    fn bridge_all(
        &self,
        plan: &Plan,
        list: &Vec<usize>,
        blob: Vec<u8>,
        start_patches: Vec<Patch>,
    ) -> (r: Result<(Vec<u8>, Vec<Patch>), Error>)
        requires
            self@.ready(plan@, list@, blob@.len()),
            forall|k: int|
                0 <= k < list@.len() ==> (self@.obj.secs[#[trigger] list@[k]].splice matches Some(
                    (begin, end),
                ) && begin <= end),
        ensures
            is_output(
                r,
                self@.all_bridged(
                    plan@,
                    list@,
                    Output { blob: blob@, patches: patches_view(start_patches@) },
                ),
            ),
    {
        let ghost start = Output { blob: blob@, patches: patches_view(start_patches@) };
        let ghost goal = self@.all_bridged(plan@, list@, start);
        let mut patches = start_patches;
        let mut i: usize = 0;
        assert(list@.skip(0) =~= list@);
        while i < list.len()
            invariant
                i <= list@.len(),
                start == (Output { blob: blob@, patches: patches_view(start_patches@) }),
                self@.ready(plan@, list@, blob@.len()),
                forall|k: int|
                    0 <= k < list@.len() ==> (self@.obj.secs[#[trigger] list@[k]].splice matches Some(
                        (begin, end),
                    ) && begin <= end),
                goal == self@.all_bridged(plan@, list@, start),
                goal == self@.all_bridged(
                    plan@,
                    list@.skip(i as int),
                    Output { blob: blob@, patches: patches_view(patches@) },
                ),
            decreases list@.len() - i,
        {
            let index: usize = list[i];
            assert(list@.skip(i as int)[0] == index);
            assert(list@.skip(i as int).drop_first() =~= list@.skip(i + 1));
            assert(self@.obj.secs.dom().contains(list@[i as int]));
            if let (Some(sec), Some(dest)) = (self.obj.section(index), plan.va.get(&index)) {
                if let Some((begin, end)) = sec.splice {
                    let code = match generate_jump_instruction(self.machine, begin, *dest) {
                        Err(e) => {
                            return Err(e);
                        },
                        Ok(code) => code,
                    };
                    if code.len() as u64 > end - begin {
                        return Err(Fault::SmallRegion { begin, end, jump_len: code.len() });
                    }
                    let ghost old_patches = patches@;
                    let patch = Patch { begin, end, code, trampoline: true };
                    let ghost view = patch@;
                    patches.push(patch);
                    assert(patches_view(patches@) =~= patches_view(old_patches).push(view));
                }
            }
            i = i + 1;
        }
        Ok((blob, patches))
    }
}

/// Every needed section has the place that relocating it needs once the layout is done.
pub proof fn lemma_ready(ctx: LinkView, found: Seq<usize>, plan: PlanView, placed: PlanView)
    requires
        ctx.obj.well_formed(),
        ctx.obj.included() == Ok::<Seq<usize>, Fault<Seq<char>>>(found),
        plan.va == placed.va,
        plan.off == placed.off,
        plan.well_formed(pointer_width(ctx.machine.is_64)),
        ({
            let splices = ctx.obj.splices();
            let list = found.skip(splices.len() as int) + oversized(ctx.obj, splices);
            forall|i: usize| #[trigger]
                placed.va.dom().contains(i) <==> pinned(ctx.obj, splices).dom().contains(i)
                    || list.contains(i)
        }),
        ({
            let splices = ctx.obj.splices();
            let list = found.skip(splices.len() as int) + oversized(ctx.obj, splices);
            forall|i: usize| #[trigger] placed.off.dom().contains(i) <==> list.contains(i)
        }),
    ensures
        ctx.ready(plan, found, plan.blob.len()),
        ctx.ready(plan, oversized(ctx.obj, ctx.obj.splices()), plan.blob.len()),
{
    let obj = ctx.obj;
    let splices = obj.splices();
    let order = found.skip(splices.len() as int);
    let over = oversized(obj, splices);
    let list = order + over;
    law_included(obj);
    lemma_roots(obj);
    lemma_oversized(obj, splices);
    lemma_pinned(obj, splices);
    assert forall|i: usize| over.contains(i) implies list.contains(i) by {
        let k = choose|k: int| 0 <= k < over.len() && over[k] == i;
        assert(list[order.len() + k] == i);
    }
    assert forall|k: int| 0 <= k < found.len() implies {
        &&& obj.secs.dom().contains(#[trigger] found[k])
        &&& plan.va.dom().contains(found[k])
        &&& !fits(obj.secs[found[k]]) ==> plan.off.dom().contains(found[k]) && 0
            <= plan.off[found[k]] <= plan.blob.len()
    } by {
        let i = found[k];
        assert(found.contains(i));
        if k >= splices.len() {
            assert(order[k - splices.len()] == i);
            assert(list[k - splices.len()] == i);
            assert(list.contains(i));
        } else {
            assert(found.take(splices.len() as int)[k] == i);
            assert(splices[k] == i);
            assert(splices.contains(i));
            if fits(obj.secs[i]) {
                assert(pinned(obj, splices).dom().contains(i));
            } else {
                assert(over.contains(i));
            }
        }
        assert(placed.va.dom().contains(i));
        if !fits(obj.secs[i]) {
            assert(list.contains(i));
            assert(placed.off.dom().contains(i));
        }
    }
    assert forall|k: int| 0 <= k < over.len() implies {
        &&& obj.secs.dom().contains(#[trigger] over[k])
        &&& plan.va.dom().contains(over[k])
        &&& !fits(obj.secs[over[k]]) ==> plan.off.dom().contains(over[k]) && 0
            <= plan.off[over[k]] <= plan.blob.len()
    } by {
        let i = over[k];
        assert(over.contains(i));
        assert(splices.contains(i));
        assert(list.contains(i));
        assert(placed.va.dom().contains(i));
        assert(placed.off.dom().contains(i));
    }
}

/// Link one object into the shared injected blob and patch list: what the splices need is
/// appended to `blob`, and a patch for each splice to `patches`.
pub fn link_object(
    obj: &ObjectModel,
    machine: Machine,
    externals: &Externals,
    base: u64,
    blob: Vec<u8>,
    patches: Vec<Patch>,
) -> (r: Result<(Vec<u8>, Vec<Patch>), Error>)
    requires
        obj@.well_formed(),
    ensures
        is_output(
            r,
            (LinkView { obj: obj@, machine, externals: externals@, base }).linked(
                Output { blob: blob@, patches: patches_view(patches@) },
            ),
        ),
{
    let linker = Linker { obj, machine, externals, base };
    let ghost ctx = linker@;
    let found = match collect(obj) {
        Err(e) => {
            return Err(e);
        },
        Ok(found) => found,
    };
    let splices = find_splices(obj);
    proof {
        law_included(obj@);
        lemma_roots(obj@);
        lemma_oversized(obj@, splices@);
        assert forall|k: int| 0 <= k < splices@.len() implies obj@.secs.dom().contains(
            #[trigger] splices@[k],
        ) by {}
        assert forall|k: int| 0 <= k < found@.len() implies obj@.secs.dom().contains(
            #[trigger] found@[k],
        ) by {
            assert(found@.contains(found@[k]));
        }
    }
    match check_ranges(obj, &splices) {
        Err(e) => {
            return Err(e);
        },
        Ok(()) => {},
    }
    let (va, over) = pin_splices(obj, &splices);
    let mut list: Vec<usize> = Vec::new();
    let mut i: usize = splices.len();
    assert(list@ =~= found@.subrange(splices@.len() as int, splices@.len() as int));
    while i < found.len()
        invariant
            splices@.len() <= i <= found@.len(),
            list@ == found@.subrange(splices@.len() as int, i as int),
        decreases found@.len() - i,
    {
        list.push(found[i]);
        assert(list@ =~= found@.subrange(splices@.len() as int, i + 1));
        i = i + 1;
    }
    let ghost order = list@;
    assert(order =~= found@.skip(splices@.len() as int));
    let mut k: usize = 0;
    assert(order + over@.take(0) =~= order);
    while k < over.len()
        invariant
            k <= over@.len(),
            list@ == order + over@.take(k as int),
        decreases over@.len() - k,
    {
        list.push(over[k]);
        assert(list@ =~= order + over@.take(k + 1));
        k = k + 1;
    }
    assert(over@.take(k as int) =~= over@);
    proof {
        assert forall|k: int| 0 <= k < list@.len() implies obj@.secs.dom().contains(
            #[trigger] list@[k],
        ) by {
            if k < order.len() {
                assert(list@[k] == found@[k + splices@.len()]);
            } else {
                assert(over@.contains(over@[k - order.len()]));
                assert(splices@.contains(list@[k]));
            }
        }
    }
    let start = Plan {
        blob,
        va,
        off: HashMap::new(),
        got: HashMap::new(),
        got_order: Vec::new(),
    };
    proof {
        assert(start@.off =~= Map::<usize, int>::empty());
        assert(start@.got =~= Map::<usize, (u64, int)>::empty());
        assert(start@.got_order =~= Seq::<usize>::empty());
        lemma_all_placed(obj@, list@, base, start@, pointer_width(machine.is_64));
    }
    let plan = match place_all(obj, &list, base, start) {
        Err(e) => {
            return Err(e);
        },
        Ok(plan) => plan,
    };
    let ghost placed = plan@;
    proof {
        lemma_all_slotted(obj@, found@, machine, base, plan@);
    }
    let plan = match slot_all(obj, &found, machine, base, plan) {
        Err(e) => {
            return Err(e);
        },
        Ok(plan) => plan,
    };
    let plan = match linker.fill_all(plan) {
        Err(e) => {
            return Err(e);
        },
        Ok(plan) => plan,
    };
    proof {
        lemma_ready(ctx, found@, plan@, placed);
        lemma_good_ranges(obj@, splices@);
        lemma_all_applied_len(
            ctx,
            plan@,
            found@,
            Output { blob: plan@.blob, patches: patches_view(patches@) },
        );
        assert forall|k: int| 0 <= k < over@.len() implies (
        obj@.secs[#[trigger] over@[k]].splice matches Some((begin, end)) && begin <= end) by {
            assert(over@.contains(over@[k]));
            assert(splices@.contains(over@[k]));
            let m = choose|m: int| 0 <= m < splices@.len() && splices@[m] == over@[k];
            assert(splices@[m] == over@[k]);
        }
    }
    let start_blob = plan.blob.clone();
    assert(start_blob@ =~= plan@.blob);
    match linker.apply_all(&plan, &found, start_blob, patches) {
        Err(e) => Err(e),
        Ok((blob, patches)) => linker.bridge_all(&plan, &over, blob, patches),
    }
}

/// Relocating keeps the length of the blob.
proof fn lemma_all_applied_len(ctx: LinkView, plan: PlanView, list: Seq<usize>, out: Output)
    requires
        ctx.ready(plan, list, out.blob.len()),
    ensures
        ctx.all_applied(plan, list, out) matches Ok(end) ==> end.blob.len() == out.blob.len(),
    decreases list.len(),
{
    if list.len() > 0 {
        let i = list[0];
        let sec = ctx.obj.secs[i];
        assert(ctx.obj.secs.dom().contains(list[0]));
        if let Ok(next) = ctx.section_applied(plan, i, out) {
            if !fits(sec) {
                lemma_rels_len(
                    ctx,
                    plan,
                    sec,
                    plan.va[i],
                    sec.relocs,
                    out.blob.skip(plan.off[i]),
                );
            }
            let rest = list.drop_first();
            assert forall|k: int| 0 <= k < rest.len() implies {
                &&& ctx.obj.secs.dom().contains(#[trigger] rest[k])
                &&& plan.va.dom().contains(rest[k])
                &&& !fits(ctx.obj.secs[rest[k]]) ==> plan.off.dom().contains(rest[k]) && 0
                    <= plan.off[rest[k]] <= out.blob.len()
            } by {
                assert(rest[k] == list[k + 1]);
            }
            lemma_all_applied_len(ctx, plan, rest, next);
        }
    }
}

} // verus!
