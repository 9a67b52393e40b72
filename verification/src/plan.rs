//! Layout of the injected segment: where each section and each table slot goes.
use crate::arch::{got_slot_width, needs_got, pointer_width, uses_got};
use crate::binary::{law_round_up, round_up};
use crate::error::{Error, Fault, Machine};
use crate::model::{ObjView, ObjectModel, Rel, SecView};
use std::collections::HashMap;
use vstd::prelude::*;

verus! {

broadcast use vstd::std_specs::hash::group_hash_axioms;

/// `blob` followed by zeroes up to a multiple of `align`.
pub open spec fn padded(blob: Seq<u8>, align: int) -> Seq<u8> {
    blob + Seq::new((round_up(blob.len() as int, align) - blob.len()) as nat, |i: int| 0u8)
}

/// Pad `blob` with zeroes so its length is a multiple of `align`.
pub fn pad_to(blob: &mut Vec<u8>, align: u64)
    requires
        align > 0,
        round_up(old(blob)@.len() as int, align as int) <= usize::MAX,
    ensures
        final(blob)@ == padded(old(blob)@, align as int),
        final(blob)@.len() == round_up(old(blob)@.len() as int, align as int),
{
    let ghost before = blob@;
    proof {
        law_round_up(before.len() as int, align as int);
    }
    let len: usize = padded_len(blob.len(), align);
    blob.resize(len, 0);
    assert(blob@ =~= padded(before, align as int));
}

/// `len` rounded up to a multiple of `align`.
fn padded_len(len: usize, align: u64) -> (r: usize)
    requires
        align > 0,
        round_up(len as int, align as int) <= usize::MAX,
    ensures
        r == round_up(len as int, align as int),
{
    proof {
        law_round_up(len as int, align as int);
    }
    wide_padded_len(len, align) as usize
}

/// `len` rounded up to a multiple of `align`, without overflow.
fn wide_padded_len(len: usize, align: u64) -> (r: u128)
    requires
        align > 0,
    ensures
        r == round_up(len as int, align as int),
        r < len + align,
{
    proof {
        law_round_up(len as int, align as int);
    }
    let sum: u128 = len as u128 + (align - 1) as u128;
    assert(sum / align as u128 * align as u128 <= sum) by (nonlinear_arith)
        requires
            align > 0,
            sum >= 0,
    ;
    sum / align as u128 * align as u128
}

/// Where the parts of the injected segment go.
pub struct PlanView {
    /// The bytes of the segment so far.
    pub blob: Seq<u8>,
    /// The address of each section that has one.
    pub va: Map<usize, u64>,
    /// The offset in the blob of each section that lies there.
    pub off: Map<usize, int>,
    /// The address and the offset in the blob of each symbol's table slot.
    pub got: Map<usize, (u64, int)>,
    /// The symbols with a table slot, in the order of the slots.
    pub got_order: Seq<usize>,
}

/// Where the parts of the injected segment go.
pub struct Plan {
    pub blob: Vec<u8>,
    pub va: HashMap<usize, u64>,
    pub off: HashMap<usize, usize>,
    pub got: HashMap<usize, (u64, usize)>,
    pub got_order: Vec<usize>,
}

impl View for Plan {
    type V = PlanView;

    open spec fn view(&self) -> PlanView {
        PlanView {
            blob: self.blob@,
            va: self.va@,
            off: self.off@.map_values(|o: usize| o as int),
            got: self.got@.map_values(|s: (u64, usize)| (s.0, s.1 as int)),
            got_order: self.got_order@,
        }
    }
}

impl PlanView {
    /// Every part lies inside the blob, and the slots are those of the symbols listed.
    pub open spec fn well_formed(self, width: nat) -> bool {
        &&& forall|i: usize| #[trigger]
            self.off.dom().contains(i) ==> 0 <= self.off[i] <= self.blob.len()
        &&& forall|s: usize| #[trigger]
            self.got.dom().contains(s) ==> 0 <= self.got[s].1 && self.got[s].1 + width
                <= self.blob.len()
        &&& forall|k: int|
            0 <= k < self.got_order.len() ==> self.got.dom().contains(#[trigger] self.got_order[k])
        &&& forall|i: usize| #[trigger] self.off.dom().contains(i) ==> self.va.dom().contains(i)
    }
}

/// The alignment of a section: at least one.
pub open spec fn sec_align(sec: SecView) -> u64 {
    if sec.align == 0 {
        1
    } else {
        sec.align
    }
}

/// The plan with a section placed at the end of the blob.
pub open spec fn placed(sec: SecView, index: usize, base: u64, plan: PlanView) -> Result<
    PlanView,
    Fault<Seq<char>>,
> {
    let start = round_up(plan.blob.len() as int, sec_align(sec) as int);
    if sec.writable {
        Err(Fault::WritableSection { name: sec.name })
    } else if start + sec.bytes.len() > usize::MAX || base + start > u64::MAX {
        Err(Fault::AddressOverflow)
    } else {
        Ok(
            PlanView {
                blob: padded(plan.blob, sec_align(sec) as int) + sec.bytes,
                va: plan.va.insert(index, (base + start) as u64),
                off: plan.off.insert(index, start),
                ..plan
            },
        )
    }
}

/// The plan with the sections of `list` placed one after the other.
pub open spec fn all_placed(obj: ObjView, list: Seq<usize>, base: u64, plan: PlanView) -> Result<
    PlanView,
    Fault<Seq<char>>,
>
    decreases list.len(),
{
    if list.len() == 0 {
        Ok(plan)
    } else {
        match placed(obj.secs[list[0]], list[0], base, plan) {
            Err(f) => Err(f),
            Ok(next) => all_placed(obj, list.drop_first(), base, next),
        }
    }
}

/// The plan with a zeroed table slot for the symbol of a relocation, where its type needs one
/// and the symbol has none yet.
pub open spec fn slotted(rel: Rel, machine: Machine, base: u64, plan: PlanView) -> Result<
    PlanView,
    Fault<Seq<char>>,
> {
    let width = pointer_width(machine.is_64);
    let start = round_up(plan.blob.len() as int, width as int);
    if !uses_got(machine.arch, rel.r_type) || plan.got.dom().contains(rel.sym) {
        Ok(plan)
    } else if start + width > usize::MAX || base + start > u64::MAX {
        Err(Fault::AddressOverflow)
    } else {
        Ok(
            PlanView {
                blob: padded(plan.blob, width as int) + Seq::new(width, |i: int| 0u8),
                got: plan.got.insert(rel.sym, ((base + start) as u64, start)),
                got_order: plan.got_order.push(rel.sym),
                ..plan
            },
        )
    }
}

/// The plan with table slots for the relocations `rels`.
pub open spec fn rels_slotted(rels: Seq<Rel>, machine: Machine, base: u64, plan: PlanView) -> Result<
    PlanView,
    Fault<Seq<char>>,
>
    decreases rels.len(),
{
    if rels.len() == 0 {
        Ok(plan)
    } else {
        match slotted(rels[0], machine, base, plan) {
            Err(f) => Err(f),
            Ok(next) => rels_slotted(rels.drop_first(), machine, base, next),
        }
    }
}

/// The plan with table slots for the relocations of the sections of `list`.
pub open spec fn all_slotted(
    obj: ObjView,
    list: Seq<usize>,
    machine: Machine,
    base: u64,
    plan: PlanView,
) -> Result<PlanView, Fault<Seq<char>>>
    decreases list.len(),
{
    if list.len() == 0 {
        Ok(plan)
    } else {
        match rels_slotted(obj.secs[list[0]].relocs, machine, base, plan) {
            Err(f) => Err(f),
            Ok(next) => all_slotted(obj, list.drop_first(), machine, base, next),
        }
    }
}

/// Whether `r` is the plan, or the error, that `goal` names.
pub open spec fn is_plan(r: Result<Plan, Error>, goal: Result<PlanView, Fault<Seq<char>>>) -> bool {
    match r {
        Ok(p) => goal == Ok::<PlanView, Fault<Seq<char>>>(p@),
        Err(e) => goal == Err::<PlanView, Fault<Seq<char>>>(e@),
    }
}

/// Placing a section keeps a plan well formed, keeps every place already given, and gives the
/// section one.
pub proof fn lemma_placed(sec: SecView, index: usize, base: u64, plan: PlanView, width: nat)
    requires
        plan.well_formed(width),
    ensures
        placed(sec, index, base, plan) matches Ok(next) ==> {
            &&& next.well_formed(width)
            &&& next.va.dom() == plan.va.dom().insert(index)
            &&& next.off.dom() == plan.off.dom().insert(index)
        },
{
    law_round_up(plan.blob.len() as int, sec_align(sec) as int);
}

/// Placing sections keeps a plan well formed and gives each of them a place.
pub proof fn lemma_all_placed(
    obj: ObjView,
    list: Seq<usize>,
    base: u64,
    plan: PlanView,
    width: nat,
)
    requires
        plan.well_formed(width),
    ensures
        all_placed(obj, list, base, plan) matches Ok(end) ==> {
            &&& end.well_formed(width)
            &&& forall|i: usize| #[trigger]
                end.va.dom().contains(i) <==> plan.va.dom().contains(i) || list.contains(i)
            &&& forall|i: usize| #[trigger]
                end.off.dom().contains(i) <==> plan.off.dom().contains(i) || list.contains(i)
        },
    decreases list.len(),
{
    if list.len() > 0 {
        let sec = obj.secs[list[0]];
        let rest = list.drop_first();
        lemma_placed(sec, list[0], base, plan, width);
        if let Ok(next) = placed(sec, list[0], base, plan) {
            lemma_all_placed(obj, rest, base, next, width);
            assert forall|i: usize| list.contains(i) <==> i == list[0] || rest.contains(i) by {
                if list.contains(i) {
                    let k = choose|k: int| 0 <= k < list.len() && list[k] == i;
                    if k > 0 {
                        assert(rest[k - 1] == i);
                    }
                }
                if rest.contains(i) {
                    let k = choose|k: int| 0 <= k < rest.len() && rest[k] == i;
                    assert(list[k + 1] == i);
                }
            }
        }
    }
}

/// Adding a slot keeps a plan well formed and the places of sections.
pub proof fn lemma_slotted(rel: Rel, machine: Machine, base: u64, plan: PlanView)
    requires
        plan.well_formed(pointer_width(machine.is_64)),
    ensures
        slotted(rel, machine, base, plan) matches Ok(next) ==> {
            &&& next.well_formed(pointer_width(machine.is_64))
            &&& next.va == plan.va
            &&& next.off == plan.off
        },
{
    let width = pointer_width(machine.is_64);
    law_round_up(plan.blob.len() as int, width as int);
    if let Ok(next) = slotted(rel, machine, base, plan) {
        assert forall|k: int| 0 <= k < next.got_order.len() implies next.got.dom().contains(
            #[trigger] next.got_order[k],
        ) by {
            if k < plan.got_order.len() {
                assert(plan.got.dom().contains(plan.got_order[k]));
            }
        }
    }
}

/// Adding slots keeps a plan well formed and the places of sections.
pub proof fn lemma_rels_slotted(rels: Seq<Rel>, machine: Machine, base: u64, plan: PlanView)
    requires
        plan.well_formed(pointer_width(machine.is_64)),
    ensures
        rels_slotted(rels, machine, base, plan) matches Ok(next) ==> {
            &&& next.well_formed(pointer_width(machine.is_64))
            &&& next.va == plan.va
            &&& next.off == plan.off
        },
    decreases rels.len(),
{
    if rels.len() > 0 {
        lemma_slotted(rels[0], machine, base, plan);
        if let Ok(next) = slotted(rels[0], machine, base, plan) {
            lemma_rels_slotted(rels.drop_first(), machine, base, next);
        }
    }
}

/// Adding slots keeps a plan well formed and the places of sections.
pub proof fn lemma_all_slotted(
    obj: ObjView,
    list: Seq<usize>,
    machine: Machine,
    base: u64,
    plan: PlanView,
)
    requires
        plan.well_formed(pointer_width(machine.is_64)),
    ensures
        all_slotted(obj, list, machine, base, plan) matches Ok(next) ==> {
            &&& next.well_formed(pointer_width(machine.is_64))
            &&& next.va == plan.va
            &&& next.off == plan.off
        },
    decreases list.len(),
{
    if list.len() > 0 {
        let rels = obj.secs[list[0]].relocs;
        lemma_rels_slotted(rels, machine, base, plan);
        if let Ok(next) = rels_slotted(rels, machine, base, plan) {
            lemma_all_slotted(obj, list.drop_first(), machine, base, next);
        }
    }
}

/// Place the sections of `list` one after the other at the end of the blob.
pub fn place_all(obj: &ObjectModel, list: &Vec<usize>, base: u64, start: Plan) -> (r: Result<
    Plan,
    Error,
>)
    requires
        forall|k: int| 0 <= k < list@.len() ==> obj@.secs.dom().contains(#[trigger] list@[k]),
    ensures
        is_plan(r, all_placed(obj@, list@, base, start@)),
{
    let ghost goal = all_placed(obj@, list@, base, start@);
    let mut plan = start;
    let mut i: usize = 0;
    assert(list@.skip(0) =~= list@);
    while i < list.len()
        invariant
            i <= list@.len(),
            forall|k: int| 0 <= k < list@.len() ==> obj@.secs.dom().contains(#[trigger] list@[k]),
            goal == all_placed(obj@, list@, base, start@),
            goal == all_placed(obj@, list@.skip(i as int), base, plan@),
        decreases list@.len() - i,
    {
        let index: usize = list[i];
        assert(list@.skip(i as int)[0] == index);
        assert(list@.skip(i as int).drop_first() =~= list@.skip(i + 1));
        assert(obj@.secs.dom().contains(list@[i as int]));
        if let Some(sec) = obj.section(index) {
            if sec.writable {
                return Err(Fault::WritableSection { name: sec.name.clone() });
            }
            let align: u64 = if sec.align == 0 {
                1
            } else {
                sec.align
            };
            let at: u128 = wide_padded_len(plan.blob.len(), align);
            if at + sec.bytes.len() as u128 > usize::MAX as u128 || base as u128 + at
                > u64::MAX as u128 {
                return Err(Fault::AddressOverflow);
            }
            let ghost before = plan@;
            pad_to(&mut plan.blob, align);
            plan.blob.extend_from_slice(&sec.bytes);
            plan.va.insert(index, (base as u128 + at) as u64);
            plan.off.insert(index, at as usize);
            proof {
                let next = placed(sec@, index, base, before)->Ok_0;
                assert(plan@.blob =~= next.blob);
                assert(plan@.off =~= next.off);
                assert(plan@.va =~= next.va);
                assert(plan@ == next);
            }
        }
        i = i + 1;
    }
    Ok(plan)
}

/// Synthesize a pointer-sized table slot per symbol that a relocation among `rels` refers to
/// through the global offset table.
fn slot_rels(rels: &Vec<Rel>, machine: Machine, base: u64, start: Plan) -> (r: Result<Plan, Error>)
    ensures
        is_plan(r, rels_slotted(rels@, machine, base, start@)),
{
    let ghost goal = rels_slotted(rels@, machine, base, start@);
    let mut plan = start;
    let width: usize = got_slot_width(machine.is_64);
    let mut i: usize = 0;
    assert(rels@.skip(0) =~= rels@);
    while i < rels.len()
        invariant
            i <= rels@.len(),
            width == pointer_width(machine.is_64),
            width == 4 || width == 8,
            goal == rels_slotted(rels@, machine, base, start@),
            goal == rels_slotted(rels@.skip(i as int), machine, base, plan@),
        decreases rels@.len() - i,
    {
        let rel = rels[i];
        assert(rels@.skip(i as int)[0] == rel);
        assert(rels@.skip(i as int).drop_first() =~= rels@.skip(i + 1));
        if needs_got(machine.arch, rel.r_type) && !plan.got.contains_key(&rel.sym) {
            let at: u128 = wide_padded_len(plan.blob.len(), width as u64);
            if at + width as u128 > usize::MAX as u128 || base as u128 + at
                > u64::MAX as u128 {
                return Err(Fault::AddressOverflow);
            }
            let ghost before = plan@;
            pad_to(&mut plan.blob, width as u64);
            plan.blob.resize(at as usize + width, 0);
            plan.got.insert(rel.sym, ((base as u128 + at) as u64, at as usize));
            plan.got_order.push(rel.sym);
            proof {
                let next = slotted(rel, machine, base, before)->Ok_0;
                assert(plan@.blob =~= next.blob);
                assert(plan@.got =~= next.got);
                assert(plan@ == next);
            }
        }
        i = i + 1;
    }
    Ok(plan)
}

/// Synthesize the table slots that the sections of `list` need.
pub fn slot_all(
    obj: &ObjectModel,
    list: &Vec<usize>,
    machine: Machine,
    base: u64,
    start: Plan,
) -> (r: Result<Plan, Error>)
    requires
        forall|k: int| 0 <= k < list@.len() ==> obj@.secs.dom().contains(#[trigger] list@[k]),
    ensures
        is_plan(r, all_slotted(obj@, list@, machine, base, start@)),
{
    let ghost goal = all_slotted(obj@, list@, machine, base, start@);
    let mut plan = start;
    let mut i: usize = 0;
    assert(list@.skip(0) =~= list@);
    while i < list.len()
        invariant
            i <= list@.len(),
            forall|k: int| 0 <= k < list@.len() ==> obj@.secs.dom().contains(#[trigger] list@[k]),
            goal == all_slotted(obj@, list@, machine, base, start@),
            goal == all_slotted(obj@, list@.skip(i as int), machine, base, plan@),
        decreases list@.len() - i,
    {
        let index: usize = list[i];
        assert(list@.skip(i as int)[0] == index);
        assert(list@.skip(i as int).drop_first() =~= list@.skip(i + 1));
        assert(obj@.secs.dom().contains(list@[i as int]));
        if let Some(sec) = obj.section(index) {
            match slot_rels(&sec.relocs, machine, base, plan) {
                Err(e) => {
                    return Err(e);
                },
                Ok(next) => {
                    plan = next;
                },
            }
        }
        i = i + 1;
    }
    Ok(plan)
}

} // verus!
