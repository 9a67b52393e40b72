//! What holds of the layout of every linked object.
use crate::arch::pointer_width;
use crate::binary::{law_round_up, round_up};
use crate::bytes::{law_read_back, law_write_elsewhere, lemma_value_of_digits, pow256, uint_at};
use crate::error::Machine;
use crate::link::{oversized, pinned, LinkView};
use crate::model::{ObjView, Rel};
use crate::plan::{
    all_placed, all_slotted, lemma_all_placed, lemma_all_slotted, placed, rels_slotted, sec_align,
    slotted, PlanView,
};
use vstd::prelude::*;

verus! {

/// Whether two regions have no byte in common.
pub open spec fn apart(a: int, a_len: int, b: int, b_len: int) -> bool {
    a + a_len <= b || b + b_len <= a
}

impl PlanView {
    /// Whether section `i` lies behind the first `start` bytes of the blob and inside it, at its
    /// alignment, at the address that goes with its offset, with its own bytes there.
    pub open spec fn section_ok(self, obj: ObjView, base: u64, start: int, i: usize) -> bool {
        let sec = obj.secs[i];
        &&& start <= self.off[i]
        &&& self.off[i] + sec.bytes.len() <= self.blob.len()
        &&& self.va.dom().contains(i)
        &&& self.va[i] == base + self.off[i]
        &&& self.off[i] % sec_align(sec) as int == 0
        &&& self.blob.subrange(self.off[i], self.off[i] + sec.bytes.len()) == sec.bytes
    }

    /// Whether the slot of symbol `s` lies behind the first `start` bytes of the blob and inside
    /// it, at a multiple of its width, at the address that goes with its offset.
    pub open spec fn slot_ok(self, base: u64, start: int, width: int, s: usize) -> bool {
        &&& start <= self.got[s].1
        &&& self.got[s].1 + width <= self.blob.len()
        &&& self.got[s].0 == base + self.got[s].1
        &&& self.got[s].1 % width == 0
    }

    /// Whether the layout behind `before` is in order: what was there is kept, every section and
    /// every slot has its place, and no two of them overlap.
    pub open spec fn tidy(self, obj: ObjView, base: u64, before: Seq<u8>, width: int) -> bool {
        &&& before.len() <= self.blob.len()
        &&& self.blob.take(before.len() as int) == before
        &&& forall|i: usize| #[trigger]
            self.off.dom().contains(i) ==> self.section_ok(obj, base, before.len() as int, i)
        &&& forall|s: usize| #[trigger]
            self.got.dom().contains(s) ==> self.slot_ok(base, before.len() as int, width, s)
        &&& forall|i: usize, j: usize| #[trigger]
            self.off.dom().contains(i) && #[trigger] self.off.dom().contains(j) && i != j ==> apart(
                self.off[i],
                obj.secs[i].bytes.len() as int,
                self.off[j],
                obj.secs[j].bytes.len() as int,
            )
        &&& forall|i: usize, s: usize| #[trigger]
            self.off.dom().contains(i) && #[trigger] self.got.dom().contains(s) ==> apart(
                self.off[i],
                obj.secs[i].bytes.len() as int,
                self.got[s].1,
                width,
            )
        &&& forall|s: usize, t: usize| #[trigger]
            self.got.dom().contains(s) && #[trigger] self.got.dom().contains(t) && s != t ==> apart(
                self.got[s].1,
                width,
                self.got[t].1,
                width,
            )
    }
}

/// Growing the blob keeps a layout in order.
proof fn lemma_grown(
    plan: PlanView,
    grown: PlanView,
    obj: ObjView,
    base: u64,
    before: Seq<u8>,
    width: int,
)
    requires
        plan.tidy(obj, base, before, width),
        grown.off == plan.off,
        grown.va == plan.va,
        grown.got == plan.got,
        plan.blob.len() <= grown.blob.len(),
        grown.blob.take(plan.blob.len() as int) == plan.blob,
    ensures
        grown.tidy(obj, base, before, width),
{
    assert(grown.blob.take(before.len() as int) =~= plan.blob.take(before.len() as int)) by {
        assert forall|k: int| 0 <= k < before.len() implies grown.blob[k] == plan.blob[k] by {
            assert(grown.blob.take(plan.blob.len() as int)[k] == grown.blob[k]);
        }
    }
    assert forall|i: usize| #[trigger] grown.off.dom().contains(i) implies grown.section_ok(
        obj,
        base,
        before.len() as int,
        i,
    ) by {
        let at = plan.off[i];
        let len = obj.secs[i].bytes.len();
        assert(plan.off.dom().contains(i));
        assert(grown.blob.subrange(at, at + len) =~= plan.blob.subrange(at, at + len)) by {
            assert forall|k: int| at <= k < at + len implies grown.blob[k] == plan.blob[k] by {
                assert(grown.blob.take(plan.blob.len() as int)[k] == grown.blob[k]);
            }
        }
    }
    assert forall|s: usize| #[trigger] grown.got.dom().contains(s) implies grown.slot_ok(
        base,
        before.len() as int,
        width,
        s,
    ) by {
        assert(plan.got.dom().contains(s));
    }
}

proof fn lemma_placed_tidy(
    obj: ObjView,
    index: usize,
    base: u64,
    plan: PlanView,
    before: Seq<u8>,
    width: int,
)
    requires
        plan.tidy(obj, base, before, width),
        placed(obj.secs[index], index, base, plan) is Ok,
    ensures
        placed(obj.secs[index], index, base, plan)->Ok_0.tidy(obj, base, before, width),
{
    let sec = obj.secs[index];
    let next = placed(sec, index, base, plan)->Ok_0;
    let at = round_up(plan.blob.len() as int, sec_align(sec) as int);
    law_round_up(plan.blob.len() as int, sec_align(sec) as int);
    let grown = PlanView { blob: next.blob, ..plan };
    assert(grown.blob.take(plan.blob.len() as int) =~= plan.blob);
    lemma_grown(plan, grown, obj, base, before, width);
    assert(next.blob.subrange(at, at + sec.bytes.len()) =~= sec.bytes);
    assert forall|i: usize| #[trigger] next.off.dom().contains(i) implies next.section_ok(
        obj,
        base,
        before.len() as int,
        i,
    ) by {
        if i != index {
            assert(grown.off.dom().contains(i));
            assert(grown.section_ok(obj, base, before.len() as int, i));
        }
    }
    assert forall|s: usize| #[trigger] next.got.dom().contains(s) implies next.slot_ok(
        base,
        before.len() as int,
        width,
        s,
    ) by {
        assert(grown.got.dom().contains(s));
    }
    assert forall|i: usize, j: usize| #[trigger]
        next.off.dom().contains(i) && #[trigger] next.off.dom().contains(j) && i != j implies apart(
        next.off[i],
        obj.secs[i].bytes.len() as int,
        next.off[j],
        obj.secs[j].bytes.len() as int,
    ) by {
        if i != index {
            assert(plan.off.dom().contains(i));
            assert(plan.section_ok(obj, base, before.len() as int, i));
        }
        if j != index {
            assert(plan.off.dom().contains(j));
            assert(plan.section_ok(obj, base, before.len() as int, j));
        }
    }
    assert forall|i: usize, s: usize| #[trigger]
        next.off.dom().contains(i) && #[trigger] next.got.dom().contains(s) implies apart(
        next.off[i],
        obj.secs[i].bytes.len() as int,
        next.got[s].1,
        width,
    ) by {
        assert(plan.got.dom().contains(s));
        assert(plan.slot_ok(base, before.len() as int, width, s));
        if i != index {
            assert(plan.off.dom().contains(i));
        }
    }
}

proof fn lemma_all_placed_tidy(
    obj: ObjView,
    list: Seq<usize>,
    base: u64,
    plan: PlanView,
    before: Seq<u8>,
    width: int,
)
    requires
        plan.tidy(obj, base, before, width),
        all_placed(obj, list, base, plan) is Ok,
    ensures
        all_placed(obj, list, base, plan)->Ok_0.tidy(obj, base, before, width),
    decreases list.len(),
{
    if list.len() > 0 {
        lemma_placed_tidy(obj, list[0], base, plan, before, width);
        let next = placed(obj.secs[list[0]], list[0], base, plan)->Ok_0;
        lemma_all_placed_tidy(obj, list.drop_first(), base, next, before, width);
    }
}

proof fn lemma_slotted_tidy(
    rel: Rel,
    machine: Machine,
    obj: ObjView,
    base: u64,
    plan: PlanView,
    before: Seq<u8>,
)
    requires
        plan.tidy(obj, base, before, pointer_width(machine.is_64) as int),
        slotted(rel, machine, base, plan) is Ok,
    ensures
        slotted(rel, machine, base, plan)->Ok_0.tidy(
            obj,
            base,
            before,
            pointer_width(machine.is_64) as int,
        ),
{
    let width = pointer_width(machine.is_64) as int;
    let next = slotted(rel, machine, base, plan)->Ok_0;
    let at = round_up(plan.blob.len() as int, width);
    law_round_up(plan.blob.len() as int, width);
    if next != plan {
        let grown = PlanView { blob: next.blob, ..plan };
        assert(grown.blob.take(plan.blob.len() as int) =~= plan.blob);
        lemma_grown(plan, grown, obj, base, before, width);
        assert forall|i: usize| #[trigger] next.off.dom().contains(i) implies next.section_ok(
            obj,
            base,
            before.len() as int,
            i,
        ) by {
            assert(grown.off.dom().contains(i));
        }
        assert forall|s: usize| #[trigger] next.got.dom().contains(s) implies next.slot_ok(
            base,
            before.len() as int,
            width,
            s,
        ) by {
            if s != rel.sym {
                assert(grown.got.dom().contains(s));
            }
        }
        assert forall|i: usize, s: usize| #[trigger]
            next.off.dom().contains(i) && #[trigger] next.got.dom().contains(s) implies apart(
            next.off[i],
            obj.secs[i].bytes.len() as int,
            next.got[s].1,
            width,
        ) by {
            assert(plan.off.dom().contains(i));
            assert(plan.section_ok(obj, base, before.len() as int, i));
            if s != rel.sym {
                assert(plan.got.dom().contains(s));
            }
        }
        assert forall|s: usize, t: usize| #[trigger]
            next.got.dom().contains(s) && #[trigger] next.got.dom().contains(t) && s
                != t implies apart(next.got[s].1, width, next.got[t].1, width) by {
            if s != rel.sym {
                assert(plan.got.dom().contains(s));
                assert(plan.slot_ok(base, before.len() as int, width, s));
            }
            if t != rel.sym {
                assert(plan.got.dom().contains(t));
                assert(plan.slot_ok(base, before.len() as int, width, t));
            }
        }
    }
}

proof fn lemma_rels_slotted_tidy(
    rels: Seq<Rel>,
    machine: Machine,
    obj: ObjView,
    base: u64,
    plan: PlanView,
    before: Seq<u8>,
)
    requires
        plan.tidy(obj, base, before, pointer_width(machine.is_64) as int),
        rels_slotted(rels, machine, base, plan) is Ok,
    ensures
        rels_slotted(rels, machine, base, plan)->Ok_0.tidy(
            obj,
            base,
            before,
            pointer_width(machine.is_64) as int,
        ),
    decreases rels.len(),
{
    if rels.len() > 0 {
        lemma_slotted_tidy(rels[0], machine, obj, base, plan, before);
        let next = slotted(rels[0], machine, base, plan)->Ok_0;
        lemma_rels_slotted_tidy(rels.drop_first(), machine, obj, base, next, before);
    }
}

proof fn lemma_all_slotted_tidy(
    obj: ObjView,
    list: Seq<usize>,
    machine: Machine,
    base: u64,
    plan: PlanView,
    before: Seq<u8>,
)
    requires
        plan.tidy(obj, base, before, pointer_width(machine.is_64) as int),
        all_slotted(obj, list, machine, base, plan) is Ok,
    ensures
        all_slotted(obj, list, machine, base, plan)->Ok_0.tidy(
            obj,
            base,
            before,
            pointer_width(machine.is_64) as int,
        ),
    decreases list.len(),
{
    if list.len() > 0 {
        let rels = obj.secs[list[0]].relocs;
        lemma_rels_slotted_tidy(rels, machine, obj, base, plan, before);
        let next = rels_slotted(rels, machine, base, plan)->Ok_0;
        lemma_all_slotted_tidy(obj, list.drop_first(), machine, base, next, before);
    }
}

impl PlanView {
    /// Whether the symbols with a slot are those listed.
    pub open spec fn listed(self) -> bool {
        forall|s: usize| #[trigger] self.got.dom().contains(s) <==> self.got_order.contains(s)
    }
}

proof fn lemma_slotted_listed(rel: Rel, machine: Machine, base: u64, plan: PlanView)
    requires
        plan.listed(),
        slotted(rel, machine, base, plan) is Ok,
    ensures
        slotted(rel, machine, base, plan)->Ok_0.listed(),
{
    let next = slotted(rel, machine, base, plan)->Ok_0;
    if next != plan {
        assert forall|s: usize| #[trigger] next.got.dom().contains(s) <==> next.got_order.contains(
            s,
        ) by {
            if s == rel.sym {
                assert(next.got_order[plan.got_order.len() as int] == s);
            } else {
                if plan.got_order.contains(s) {
                    let k = choose|k: int|
                        0 <= k < plan.got_order.len() && plan.got_order[k] == s;
                    assert(next.got_order[k] == s);
                }
                if next.got_order.contains(s) {
                    let k = choose|k: int|
                        0 <= k < next.got_order.len() && next.got_order[k] == s;
                    assert(plan.got_order[k] == s);
                }
                assert(plan.got.dom().contains(s) <==> plan.got_order.contains(s));
            }
        }
    }
}

proof fn lemma_rels_slotted_listed(rels: Seq<Rel>, machine: Machine, base: u64, plan: PlanView)
    requires
        plan.listed(),
        rels_slotted(rels, machine, base, plan) is Ok,
    ensures
        rels_slotted(rels, machine, base, plan)->Ok_0.listed(),
    decreases rels.len(),
{
    if rels.len() > 0 {
        lemma_slotted_listed(rels[0], machine, base, plan);
        let next = slotted(rels[0], machine, base, plan)->Ok_0;
        lemma_rels_slotted_listed(rels.drop_first(), machine, base, next);
    }
}

proof fn lemma_all_slotted_listed(
    obj: ObjView,
    list: Seq<usize>,
    machine: Machine,
    base: u64,
    plan: PlanView,
)
    requires
        plan.listed(),
        all_slotted(obj, list, machine, base, plan) is Ok,
    ensures
        all_slotted(obj, list, machine, base, plan)->Ok_0.listed(),
    decreases list.len(),
{
    if list.len() > 0 {
        let rels = obj.secs[list[0]].relocs;
        lemma_rels_slotted_listed(rels, machine, base, plan);
        let next = rels_slotted(rels, machine, base, plan)->Ok_0;
        lemma_all_slotted_listed(obj, list.drop_first(), machine, base, next);
    }
}

/// What the slot of a symbol holds.
pub open spec fn slot_value(ctx: LinkView, plan: PlanView, s: usize) -> nat {
    uint_at(
        ctx.machine.endian,
        plan.blob,
        plan.got[s].1,
        pointer_width(ctx.machine.is_64) as int,
    )
}

/// Filling a slot puts the address of its symbol there and disturbs nothing else.
proof fn lemma_filled(ctx: LinkView, sym: usize, plan: PlanView, before: Seq<u8>)
    requires
        plan.tidy(ctx.obj, ctx.base, before, pointer_width(ctx.machine.is_64) as int),
        plan.got.dom().contains(sym),
        ctx.filled(sym, plan) is Ok,
    ensures
        ({
            let next = ctx.filled(sym, plan)->Ok_0;
            let width = pointer_width(ctx.machine.is_64);
            &&& next.tidy(ctx.obj, ctx.base, before, width as int)
            &&& slot_value(ctx, next, sym) == ctx.resolved(plan.va, sym)->Ok_0 as nat % pow256(
                width,
            )
            &&& forall|s: usize| #[trigger]
                plan.got.dom().contains(s) && s != sym ==> slot_value(ctx, next, s) == slot_value(
                    ctx,
                    plan,
                    s,
                )
        }),
{
    let width = pointer_width(ctx.machine.is_64);
    let e = ctx.machine.endian;
    let next = ctx.filled(sym, plan)->Ok_0;
    let v = ctx.resolved(plan.va, sym)->Ok_0 as nat;
    let at = plan.got[sym].1;
    let d = e.digits(v, width);
    lemma_value_of_digits(e, v, width);
    assert(plan.slot_ok(ctx.base, before.len() as int, width as int, sym));
    law_read_back(e, plan.blob, at, width, v);
    assert(next.blob.len() == plan.blob.len());
    assert(forall|k: int|
        0 <= k < plan.blob.len() && !(at <= k < at + width) ==> #[trigger] next.blob[k]
            == plan.blob[k]);
    assert(next.blob.take(before.len() as int) =~= before) by {
        assert forall|k: int| 0 <= k < before.len() implies next.blob[k] == before[k] by {
            assert(plan.blob.take(before.len() as int)[k] == plan.blob[k]);
        }
    }
    assert forall|i: usize| #[trigger] next.off.dom().contains(i) implies next.section_ok(
        ctx.obj,
        ctx.base,
        before.len() as int,
        i,
    ) by {
        let start = plan.off[i];
        let len = ctx.obj.secs[i].bytes.len();
        assert(plan.off.dom().contains(i));
        assert(plan.section_ok(ctx.obj, ctx.base, before.len() as int, i));
        assert(apart(start, len as int, at, width as int));
        assert(next.blob.subrange(start, start + len) =~= plan.blob.subrange(start, start + len));
    }
    assert forall|s: usize| #[trigger] next.got.dom().contains(s) implies next.slot_ok(
        ctx.base,
        before.len() as int,
        width as int,
        s,
    ) by {
        assert(plan.got.dom().contains(s));
    }
    assert forall|s: usize| #[trigger] plan.got.dom().contains(s) && s != sym implies slot_value(
        ctx,
        next,
        s,
    ) == slot_value(ctx, plan, s) by {
        assert(plan.slot_ok(ctx.base, before.len() as int, width as int, s));
        assert(apart(plan.got[s].1, width as int, at, width as int));
        law_write_elsewhere(e, plan.blob, at, d, plan.got[s].1, width as int);
    }
}

proof fn lemma_all_filled(ctx: LinkView, syms: Seq<usize>, plan: PlanView, before: Seq<u8>)
    requires
        plan.tidy(ctx.obj, ctx.base, before, pointer_width(ctx.machine.is_64) as int),
        forall|k: int| 0 <= k < syms.len() ==> plan.got.dom().contains(#[trigger] syms[k]),
        ctx.all_filled(syms, plan) is Ok,
    ensures
        ({
            let end = ctx.all_filled(syms, plan)->Ok_0;
            let width = pointer_width(ctx.machine.is_64);
            &&& end.tidy(ctx.obj, ctx.base, before, width as int)
            &&& end.va == plan.va
            &&& end.off == plan.off
            &&& end.got == plan.got
            &&& end.got_order == plan.got_order
            &&& forall|s: usize| #[trigger]
                plan.got.dom().contains(s) ==> if syms.contains(s) {
                    ctx.resolved(plan.va, s) is Ok && slot_value(ctx, end, s) == ctx.resolved(
                        plan.va,
                        s,
                    )->Ok_0 as nat % pow256(width)
                } else {
                    slot_value(ctx, end, s) == slot_value(ctx, plan, s)
                }
        }),
    decreases syms.len(),
{
    if syms.len() > 0 {
        let sym = syms[0];
        let rest = syms.drop_first();
        lemma_filled(ctx, sym, plan, before);
        let next = ctx.filled(sym, plan)->Ok_0;
        assert forall|k: int| 0 <= k < rest.len() implies next.got.dom().contains(
            #[trigger] rest[k],
        ) by {
            assert(rest[k] == syms[k + 1]);
        }
        lemma_all_filled(ctx, rest, next, before);
        let end = ctx.all_filled(syms, plan)->Ok_0;
        assert forall|s: usize| #[trigger] plan.got.dom().contains(s) implies if syms.contains(s) {
            ctx.resolved(plan.va, s) is Ok && slot_value(ctx, end, s) == ctx.resolved(
                plan.va,
                s,
            )->Ok_0 as nat % pow256(pointer_width(ctx.machine.is_64))
        } else {
            slot_value(ctx, end, s) == slot_value(ctx, plan, s)
        } by {
            assert(next.got.dom().contains(s));
            if syms.contains(s) && s != sym {
                let k = choose|k: int| 0 <= k < syms.len() && syms[k] == s;
                assert(rest[k - 1] == s);
            }
            if rest.contains(s) {
                let k = choose|k: int| 0 <= k < rest.len() && rest[k] == s;
                assert(syms[k + 1] == s);
            }
            if s == sym {
                assert(syms[0] == s);
            }
        }
    }
}

impl LinkView {
    /// The sections that go into the segment, in their order.
    pub open spec fn placing_order(self, found: Seq<usize>) -> Seq<usize> {
        let splices = self.obj.splices();
        found.skip(splices.len() as int) + oversized(self.obj, splices)
    }

    /// The plan before any section is placed.
    pub open spec fn start(self, blob: Seq<u8>) -> PlanView {
        PlanView {
            blob,
            va: pinned(self.obj, self.obj.splices()),
            off: Map::empty(),
            got: Map::empty(),
            got_order: Seq::empty(),
        }
    }
}

/// Addresses are given when sections are placed, and slots when they are made: filling the slots
/// changes neither.
pub proof fn lemma_stages(ctx: LinkView, found: Seq<usize>, blob: Seq<u8>)
    requires
        ctx.laid_out(found, blob) is Ok,
    ensures
        ({
            let plan = ctx.laid_out(found, blob)->Ok_0;
            let start = ctx.start(blob);
            let placed = all_placed(ctx.obj, ctx.placing_order(found), ctx.base, start);
            let slotted = all_slotted(ctx.obj, found, ctx.machine, ctx.base, placed->Ok_0);
            &&& placed is Ok
            &&& slotted is Ok
            &&& plan.va == placed->Ok_0.va
            &&& plan.off == placed->Ok_0.off
            &&& placed->Ok_0.got == Map::<usize, (u64, int)>::empty()
            &&& plan.got == slotted->Ok_0.got
        }),
{
    let obj = ctx.obj;
    let width = pointer_width(ctx.machine.is_64);
    let list = ctx.placing_order(found);
    let start = ctx.start(blob);
    assert(start.blob.take(blob.len() as int) =~= blob);
    lemma_all_placed(obj, list, ctx.base, start, width);
    lemma_all_placed_tidy(obj, list, ctx.base, start, blob, width as int);
    lemma_all_placed_slots(obj, list, ctx.base, start);
    let first = all_placed(obj, list, ctx.base, start)->Ok_0;
    assert(first.listed());
    lemma_all_slotted(obj, found, ctx.machine, ctx.base, first);
    lemma_all_slotted_tidy(obj, found, ctx.machine, ctx.base, first, blob);
    lemma_all_slotted_listed(obj, found, ctx.machine, ctx.base, first);
    let second = all_slotted(obj, found, ctx.machine, ctx.base, first)->Ok_0;
    assert forall|k: int| 0 <= k < second.got_order.len() implies second.got.dom().contains(
        #[trigger] second.got_order[k],
    ) by {
        assert(second.got_order.contains(second.got_order[k]));
    }
    lemma_all_filled(ctx, second.got_order, second, blob);
}

/// The places of sections after the layout are those that placing them gave, and all of them
/// are inside the blob.
pub proof fn lemma_laid_out(ctx: LinkView, found: Seq<usize>, blob: Seq<u8>)
    requires
        ctx.laid_out(found, blob) is Ok,
    ensures
        ({
            let plan = ctx.laid_out(found, blob)->Ok_0;
            let splices = ctx.obj.splices();
            let list = found.skip(splices.len() as int) + oversized(ctx.obj, splices);
            &&& plan.well_formed(pointer_width(ctx.machine.is_64))
            &&& forall|i: usize| #[trigger]
                plan.va.dom().contains(i) <==> pinned(ctx.obj, splices).dom().contains(i)
                    || list.contains(i)
            &&& forall|i: usize| #[trigger] plan.off.dom().contains(i) <==> list.contains(i)
        }),
{
    let obj = ctx.obj;
    let width = pointer_width(ctx.machine.is_64);
    let splices = obj.splices();
    let list = found.skip(splices.len() as int) + oversized(obj, splices);
    let start = PlanView {
        blob,
        va: pinned(obj, splices),
        off: Map::empty(),
        got: Map::empty(),
        got_order: Seq::empty(),
    };
    assert(start.blob.take(blob.len() as int) =~= blob);
    lemma_all_placed(obj, list, ctx.base, start, width);
    lemma_all_placed_tidy(obj, list, ctx.base, start, blob, width as int);
    lemma_all_placed_slots(obj, list, ctx.base, start);
    let first = all_placed(obj, list, ctx.base, start)->Ok_0;
    assert(first.listed());
    lemma_all_slotted(obj, found, ctx.machine, ctx.base, first);
    lemma_all_slotted_tidy(obj, found, ctx.machine, ctx.base, first, blob);
    lemma_all_slotted_listed(obj, found, ctx.machine, ctx.base, first);
    let second = all_slotted(obj, found, ctx.machine, ctx.base, first)->Ok_0;
    assert forall|k: int| 0 <= k < second.got_order.len() implies second.got.dom().contains(
        #[trigger] second.got_order[k],
    ) by {
        assert(second.got_order.contains(second.got_order[k]));
    }
    lemma_all_filled(ctx, second.got_order, second, blob);
    let plan = ctx.laid_out(found, blob)->Ok_0;
    assert forall|i: usize| #[trigger] plan.off.dom().contains(i) implies 0 <= plan.off[i]
        <= plan.blob.len() by {
        assert(plan.section_ok(obj, ctx.base, blob.len() as int, i));
    }
    assert forall|s: usize| #[trigger] plan.got.dom().contains(s) implies 0 <= plan.got[s].1
        && plan.got[s].1 + width <= plan.blob.len() by {
        assert(plan.slot_ok(ctx.base, blob.len() as int, width as int, s));
    }
}

/// The layout of every object is in order: what was in the segment before is kept; every needed
/// section and every oversized splice has its bytes at an aligned offset behind it, at the
/// address that goes with the offset; every table slot holds the address of its symbol; and no
/// two of them overlap.
pub proof fn law_layout(ctx: LinkView, found: Seq<usize>, blob: Seq<u8>)
    requires
        ctx.laid_out(found, blob) is Ok,
    ensures
        ({
            let plan = ctx.laid_out(found, blob)->Ok_0;
            let width = pointer_width(ctx.machine.is_64);
            &&& plan.tidy(ctx.obj, ctx.base, blob, width as int)
            &&& forall|s: usize| #[trigger]
                plan.got.dom().contains(s) ==> ctx.resolved(plan.va, s) is Ok && slot_value(
                    ctx,
                    plan,
                    s,
                ) == ctx.resolved(plan.va, s)->Ok_0 as nat % pow256(width)
        }),
{
    let obj = ctx.obj;
    let width = pointer_width(ctx.machine.is_64) as int;
    let splices = obj.splices();
    let list = found.skip(splices.len() as int) + oversized(obj, splices);
    let start = PlanView {
        blob,
        va: pinned(obj, splices),
        off: Map::empty(),
        got: Map::empty(),
        got_order: Seq::empty(),
    };
    assert(start.blob.take(blob.len() as int) =~= blob);
    assert(start.tidy(obj, ctx.base, blob, width));
    lemma_all_placed_tidy(obj, list, ctx.base, start, blob, width);
    let first = all_placed(obj, list, ctx.base, start)->Ok_0;
    lemma_all_placed_slots(obj, list, ctx.base, start);
    assert(first.listed());
    lemma_all_slotted_tidy(obj, found, ctx.machine, ctx.base, first, blob);
    lemma_all_slotted_listed(obj, found, ctx.machine, ctx.base, first);
    let second = all_slotted(obj, found, ctx.machine, ctx.base, first)->Ok_0;
    assert forall|k: int| 0 <= k < second.got_order.len() implies second.got.dom().contains(
        #[trigger] second.got_order[k],
    ) by {
        assert(second.got_order.contains(second.got_order[k]));
    }
    lemma_all_filled(ctx, second.got_order, second, blob);
}

/// Placing sections makes no table slots.
pub proof fn lemma_all_placed_slots(obj: ObjView, list: Seq<usize>, base: u64, plan: PlanView)
    requires
        all_placed(obj, list, base, plan) is Ok,
    ensures
        all_placed(obj, list, base, plan)->Ok_0.got == plan.got,
        all_placed(obj, list, base, plan)->Ok_0.got_order == plan.got_order,
    decreases list.len(),
{
    if list.len() > 0 {
        let next = placed(obj.secs[list[0]], list[0], base, plan)->Ok_0;
        lemma_all_placed_slots(obj, list.drop_first(), base, next);
    }
}

} // verus!
