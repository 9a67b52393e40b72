//! Where linking puts things, and what it resolves references to.
use crate::arch::{pointer_width, uses_got};
use crate::binary::{law_round_up, round_up};
use crate::bytes::{pow256, uint_at};
use crate::closure::{law_included, lemma_roots};
use crate::error::{Fault, Machine};
use crate::field_laws::indirect;
use crate::jump::{jump_target, law_jump_lands};
use crate::layout_laws::{law_layout, lemma_laid_out, lemma_stages};
use crate::link::{fits, lemma_oversized, oversized, pinned, LinkView, Output};
use crate::link_laws::{law_linked, patch_order};
use crate::model::{ObjView, Rel};
use crate::plan::{
    all_placed, all_slotted, placed, rels_slotted, sec_align, slotted, PlanView,
};
use crate::reloc::{aarch64_field, arm_field, mips_field, relocated, x86_64_field, RelocError};
use vstd::prelude::*;

verus! {

/// A splice of the list that fits its range is pinned to where its own range begins.
proof fn lemma_pinned_begin(obj: ObjView, list: Seq<usize>, i: usize, begin: u64, end: u64)
    requires
        list.contains(i),
        obj.secs[i].splice == Some((begin, end)),
        fits(obj.secs[i]),
    ensures
        pinned(obj, list).dom().contains(i),
        pinned(obj, list)[i] == begin,
    decreases list.len(),
{
    let init = list.drop_last();
    if list.last() != i {
        let k = choose|k: int| 0 <= k < list.len() && list[k] == i;
        assert(init[k] == i);
        lemma_pinned_begin(obj, init, i, begin, end);
    }
}

/// Placing other sections keeps the address of section `i`.
proof fn lemma_address_kept(obj: ObjView, list: Seq<usize>, base: u64, plan: PlanView, i: usize)
    requires
        !list.contains(i),
        plan.va.dom().contains(i),
        all_placed(obj, list, base, plan) is Ok,
    ensures
        all_placed(obj, list, base, plan)->Ok_0.va.dom().contains(i),
        all_placed(obj, list, base, plan)->Ok_0.va[i] == plan.va[i],
    decreases list.len(),
{
    if list.len() > 0 {
        let rest = list.drop_first();
        let next = placed(obj.secs[list[0]], list[0], base, plan)->Ok_0;
        assert(list.contains(list[0]));
        if rest.contains(i) {
            let k = choose|k: int| 0 <= k < rest.len() && rest[k] == i;
            assert(list[k + 1] == i);
        }
        lemma_address_kept(obj, rest, base, next, i);
    }
}

/// Replacement code that fits its range stays there: its address is where its own range begins,
/// and it takes no room in the segment.
pub proof fn law_pinned(
    ctx: LinkView,
    found: Seq<usize>,
    blob: Seq<u8>,
    i: usize,
    begin: u64,
    end: u64,
)
    requires
        ctx.obj.well_formed(),
        ctx.obj.included() == Ok::<Seq<usize>, Fault<Seq<char>>>(found),
        ctx.laid_out(found, blob) is Ok,
        ctx.obj.secs.dom().contains(i),
        ctx.obj.secs[i].splice == Some((begin, end)),
        begin <= end,
        ctx.obj.secs[i].bytes.len() <= end - begin,
    ensures
        ({
            let plan = ctx.laid_out(found, blob)->Ok_0;
            &&& plan.va.dom().contains(i)
            &&& plan.va[i] == begin
            &&& !plan.off.dom().contains(i)
        }),
{
    let obj = ctx.obj;
    let splices = obj.splices();
    let needed = found.skip(splices.len() as int);
    let over = oversized(obj, splices);
    let list = needed + over;
    law_included(obj);
    lemma_roots(obj);
    assert(splices.contains(i));
    lemma_oversized(obj, splices);
    lemma_pinned_begin(obj, splices, i, begin, end);
    lemma_laid_out(ctx, found, blob);
    if list.contains(i) {
        let k = choose|k: int| 0 <= k < list.len() && list[k] == i;
        if k < needed.len() {
            let m = choose|m: int| 0 <= m < splices.len() && splices[m] == i;
            assert(found.take(splices.len() as int)[m] == found[m]);
            assert(found[splices.len() + k] == found[m]);
        } else {
            assert(over[k - needed.len()] == i);
            assert(over.contains(i));
        }
    }
    let start = ctx.start(blob);
    lemma_stages(ctx, found, blob);
    lemma_address_kept(obj, list, ctx.base, start, i);
}

/// Every other section that a splice needs, and every replacement code that is too long for its
/// range, lies in the segment behind what was there, at the address that goes with its offset.
pub proof fn law_placed(ctx: LinkView, found: Seq<usize>, blob: Seq<u8>, i: usize)
    requires
        ctx.obj.well_formed(),
        ctx.obj.included() == Ok::<Seq<usize>, Fault<Seq<char>>>(found),
        ctx.laid_out(found, blob) is Ok,
        ctx.obj.reaches(i),
        !(ctx.obj.secs[i].splice matches Some((begin, end)) && begin <= end
            && ctx.obj.secs[i].bytes.len() <= end - begin),
    ensures
        ({
            let plan = ctx.laid_out(found, blob)->Ok_0;
            let sec = ctx.obj.secs[i];
            &&& plan.off.dom().contains(i)
            &&& plan.va.dom().contains(i)
            &&& plan.va[i] == ctx.base + plan.off[i]
            &&& blob.len() <= plan.off[i]
            &&& plan.off[i] + sec.bytes.len() <= plan.blob.len()
            &&& sec.align > 0 ==> plan.off[i] % sec.align as int == 0
            &&& plan.blob.subrange(plan.off[i], plan.off[i] + sec.bytes.len()) == sec.bytes
        }),
{
    let obj = ctx.obj;
    let splices = obj.splices();
    let needed = found.skip(splices.len() as int);
    let over = oversized(obj, splices);
    let list = needed + over;
    let plan = ctx.laid_out(found, blob)->Ok_0;
    law_included(obj);
    lemma_roots(obj);
    lemma_oversized(obj, splices);
    lemma_laid_out(ctx, found, blob);
    law_layout(ctx, found, blob);
    assert(found.contains(i));
    let k = choose|k: int| 0 <= k < found.len() && found[k] == i;
    if k < splices.len() {
        assert(found.take(splices.len() as int)[k] == i);
        assert(splices.contains(i));
        assert(over.contains(i));
        let m = choose|m: int| 0 <= m < over.len() && over[m] == i;
        assert(list[needed.len() + m] == i);
    } else {
        assert(needed[k - splices.len()] == i);
        assert(list[k - splices.len()] == i);
    }
    assert(list.contains(i));
    assert(plan.off.dom().contains(i));
    assert(plan.section_ok(obj, ctx.base, blob.len() as int, i));
}

/// Linking patches replacement code that fits its range over that range, relocated as code that
/// runs from where the range begins.
pub proof fn law_patched_in_place(ctx: LinkView, out: Output, i: usize, begin: u64, end: u64)
    requires
        ctx.obj.well_formed(),
        ctx.linked(out) is Ok,
        ctx.obj.secs.dom().contains(i),
        ctx.obj.secs[i].splice == Some((begin, end)),
        begin <= end,
        ctx.obj.secs[i].bytes.len() <= end - begin,
    ensures
        ({
            let plan = ctx.laid_out(ctx.obj.included()->Ok_0, out.blob)->Ok_0;
            let patches = ctx.linked(out)->Ok_0.patches;
            let sec = ctx.obj.secs[i];
            exists|k: int|
                out.patches.len() <= k < patches.len() && (#[trigger] patches[k]).begin == begin
                    && patches[k].end == end && !patches[k].trampoline && ctx.rels_applied(
                    plan,
                    sec,
                    begin,
                    sec.relocs,
                    sec.bytes,
                ) == Ok::<Seq<u8>, Fault<Seq<char>>>(patches[k].code)
        }),
{
    let obj = ctx.obj;
    let found = obj.included()->Ok_0;
    let plan = ctx.laid_out(found, out.blob)->Ok_0;
    let patches = ctx.linked(out)->Ok_0.patches;
    let order = patch_order(obj);
    law_linked(ctx, out);
    law_pinned(ctx, found, out.blob, i, begin, end);
    lemma_roots(obj);
    assert(obj.splices().contains(i));
    let k = choose|k: int| 0 <= k < order.len() && order[k] == i;
    let p = patches.skip(out.patches.len() as int)[k];
    assert(ctx.is_patch_of(plan, order[k], p));
    assert(patches[out.patches.len() + k] == p);
}

/// Linking patches a jump over the range of replacement code that is too long for it.
pub proof fn law_bridged(ctx: LinkView, out: Output, i: usize, begin: u64, end: u64)
    requires
        ctx.obj.well_formed(),
        ctx.linked(out) is Ok,
        ctx.obj.secs.dom().contains(i),
        ctx.obj.secs[i].splice == Some((begin, end)),
        ctx.obj.secs[i].bytes.len() > end - begin,
    ensures
        ({
            let plan = ctx.laid_out(ctx.obj.included()->Ok_0, out.blob)->Ok_0;
            let patches = ctx.linked(out)->Ok_0.patches;
            &&& plan.off.dom().contains(i)
            &&& ctx.base + plan.off[i] <= u64::MAX
            &&& exists|k: int|
                out.patches.len() <= k < patches.len() && (#[trigger] patches[k]).begin == begin
                    && patches[k].end == end && patches[k].trampoline && jump_target(
                    ctx.machine,
                    patches[k].code,
                    begin,
                ) == ctx.base + plan.off[i]
        }),
{
    let obj = ctx.obj;
    let found = obj.included()->Ok_0;
    let plan = ctx.laid_out(found, out.blob)->Ok_0;
    let patches = ctx.linked(out)->Ok_0.patches;
    let order = patch_order(obj);
    law_linked(ctx, out);
    law_included(obj);
    lemma_roots(obj);
    assert(obj.splices().contains(i));
    let m = choose|m: int| 0 <= m < obj.splices().len() && obj.splices()[m] == i;
    assert(found.take(obj.splices().len() as int)[m] == found[m]);
    assert(found.contains(i));
    law_placed(ctx, found, out.blob, i);
    let k = choose|k: int| 0 <= k < order.len() && order[k] == i;
    let p = patches.skip(out.patches.len() as int)[k];
    assert(ctx.is_patch_of(plan, order[k], p));
    assert(patches[out.patches.len() + k] == p);
    law_jump_lands(ctx.machine, begin, plan.va[i]);
}

/// A section is placed at the first multiple of its alignment behind the blob, with zeroes
/// between, wherever it need not be writable and its address and its end can be expressed.
pub proof fn law_packed(obj: ObjView, index: usize, base: u64, plan: PlanView, at: int)
    requires
        ({
            let sec = obj.secs[index];
            let align = if sec.align == 0 {
                1
            } else {
                sec.align as int
            };
            &&& at % align == 0
            &&& plan.blob.len() <= at < plan.blob.len() + align
            &&& at + sec.bytes.len() <= usize::MAX
            &&& base + at <= u64::MAX
        }),
    ensures
        match placed(obj.secs[index], index, base, plan) {
            Ok(next) => {
                &&& !obj.secs[index].writable
                &&& next.off == plan.off.insert(index, at)
                &&& next.va == plan.va.insert(index, (base + at) as u64)
                &&& next.blob.len() == at + obj.secs[index].bytes.len()
                &&& next.blob.take(plan.blob.len() as int) == plan.blob
                &&& forall|k: int| plan.blob.len() <= k < at ==> #[trigger] next.blob[k] == 0
                &&& next.blob.skip(at) == obj.secs[index].bytes
            },
            Err(f) => obj.secs[index].writable && f == (Fault::WritableSection {
                name: obj.secs[index].name,
            }),
        },
{
    let sec = obj.secs[index];
    let align = if sec.align == 0 {
        1
    } else {
        sec.align as int
    };
    lemma_round_up_is(plan.blob.len() as int, align, at);
    if let Ok(next) = placed(sec, index, base, plan) {
        assert(next.blob.take(plan.blob.len() as int) =~= plan.blob);
        assert(next.blob.skip(at) =~= sec.bytes);
    }
}

/// There is one multiple of `align` in `[x, x + align)`.
proof fn lemma_round_up_is(x: int, align: int, at: int)
    requires
        align > 0,
        x >= 0,
        at % align == 0,
        x <= at < x + align,
    ensures
        round_up(x, align) == at,
{
    law_round_up(x, align);
    let r = round_up(x, align);
    vstd::arithmetic::div_mod::lemma_fundamental_div_mod(r, align);
    vstd::arithmetic::div_mod::lemma_fundamental_div_mod(at, align);
    let p = r / align;
    let q = at / align;
    assert(p == q) by (nonlinear_arith)
        requires
            align > 0,
            r == align * p,
            at == align * q,
            x <= r < x + align,
            x <= at < x + align,
    ;
}

/// A slot is made for an indirect reference, and none is given up.
proof fn lemma_rels_slots(rels: Seq<Rel>, machine: Machine, base: u64, plan: PlanView)
    requires
        rels_slotted(rels, machine, base, plan) is Ok,
    ensures
        ({
            let end = rels_slotted(rels, machine, base, plan)->Ok_0;
            &&& forall|s: usize| #[trigger] plan.got.dom().contains(s) ==> end.got.dom().contains(s)
            &&& forall|k: int|
                0 <= k < rels.len() && uses_got(machine.arch, (#[trigger] rels[k]).r_type)
                    ==> end.got.dom().contains(rels[k].sym)
            &&& forall|s: usize| #[trigger]
                end.got.dom().contains(s) ==> plan.got.dom().contains(s) || exists|k: int|
                    0 <= k < rels.len() && uses_got(machine.arch, (#[trigger] rels[k]).r_type)
                        && rels[k].sym == s
        }),
    decreases rels.len(),
{
    if rels.len() > 0 {
        let next = slotted(rels[0], machine, base, plan)->Ok_0;
        let rest = rels.drop_first();
        lemma_rels_slots(rest, machine, base, next);
        let end = rels_slotted(rels, machine, base, plan)->Ok_0;
        assert forall|s: usize| #[trigger] plan.got.dom().contains(s) implies end.got.dom().contains(
            s,
        ) by {
            assert(next.got.dom().contains(s));
        }
        assert forall|k: int|
            0 <= k < rels.len() && uses_got(
                machine.arch,
                (#[trigger] rels[k]).r_type,
            ) implies end.got.dom().contains(rels[k].sym) by {
            if k == 0 {
                assert(next.got.dom().contains(rels[0].sym));
            } else {
                assert(rest[k - 1] == rels[k]);
            }
        }
        assert forall|s: usize| #[trigger] end.got.dom().contains(s) implies plan.got.dom().contains(
            s,
        ) || exists|k: int|
            0 <= k < rels.len() && uses_got(machine.arch, (#[trigger] rels[k]).r_type)
                && rels[k].sym == s by {
            if next.got.dom().contains(s) {
                if !plan.got.dom().contains(s) {
                    assert(uses_got(machine.arch, rels[0].r_type) && rels[0].sym == s);
                }
            } else {
                let k = choose|k: int|
                    0 <= k < rest.len() && uses_got(machine.arch, (#[trigger] rest[k]).r_type)
                        && rest[k].sym == s;
                assert(rels[k + 1] == rest[k]);
            }
        }
    }
}

/// Every indirect reference of the sections of `list` has a slot, and only those have one.
pub proof fn lemma_all_slots(
    obj: ObjView,
    list: Seq<usize>,
    machine: Machine,
    base: u64,
    plan: PlanView,
)
    requires
        all_slotted(obj, list, machine, base, plan) is Ok,
    ensures
        ({
            let end = all_slotted(obj, list, machine, base, plan)->Ok_0;
            &&& forall|s: usize| #[trigger] plan.got.dom().contains(s) ==> end.got.dom().contains(s)
            &&& forall|n: int, k: int|
                0 <= n < list.len() && 0 <= k < obj.secs[list[n]].relocs.len() && uses_got(
                    machine.arch,
                    (#[trigger] obj.secs[list[n]].relocs[k]).r_type,
                ) ==> end.got.dom().contains(obj.secs[list[n]].relocs[k].sym)
            &&& forall|s: usize| #[trigger]
                end.got.dom().contains(s) ==> plan.got.dom().contains(s) || exists|n: int, k: int|
                    0 <= n < list.len() && 0 <= k < obj.secs[list[n]].relocs.len() && uses_got(
                        machine.arch,
                        (#[trigger] obj.secs[list[n]].relocs[k]).r_type,
                    ) && obj.secs[list[n]].relocs[k].sym == s
        }),
    decreases list.len(),
{
    if list.len() > 0 {
        let rels = obj.secs[list[0]].relocs;
        let next = rels_slotted(rels, machine, base, plan)->Ok_0;
        let rest = list.drop_first();
        lemma_rels_slots(rels, machine, base, plan);
        lemma_all_slots(obj, rest, machine, base, next);
        let end = all_slotted(obj, list, machine, base, plan)->Ok_0;
        assert forall|s: usize| #[trigger] plan.got.dom().contains(s) implies end.got.dom().contains(
            s,
        ) by {
            assert(next.got.dom().contains(s));
        }
        assert forall|n: int, k: int|
            0 <= n < list.len() && 0 <= k < obj.secs[list[n]].relocs.len() && uses_got(
                machine.arch,
                (#[trigger] obj.secs[list[n]].relocs[k]).r_type,
            ) implies end.got.dom().contains(obj.secs[list[n]].relocs[k].sym) by {
            if n == 0 {
                assert(next.got.dom().contains(rels[k].sym));
            } else {
                assert(rest[n - 1] == list[n]);
                assert(uses_got(machine.arch, obj.secs[rest[n - 1]].relocs[k].r_type));
            }
        }
        assert forall|s: usize| #[trigger] end.got.dom().contains(s) implies plan.got.dom().contains(
            s,
        ) || exists|n: int, k: int|
            0 <= n < list.len() && 0 <= k < obj.secs[list[n]].relocs.len() && uses_got(
                machine.arch,
                (#[trigger] obj.secs[list[n]].relocs[k]).r_type,
            ) && obj.secs[list[n]].relocs[k].sym == s by {
            if next.got.dom().contains(s) {
                if !plan.got.dom().contains(s) {
                    let k = choose|k: int|
                        0 <= k < rels.len() && uses_got(machine.arch, (#[trigger] rels[k]).r_type)
                            && rels[k].sym == s;
                    assert(obj.secs[list[0]].relocs[k] == rels[k]);
                }
            } else {
                let (n, k) = choose|n: int, k: int|
                    0 <= n < rest.len() && 0 <= k < obj.secs[rest[n]].relocs.len() && uses_got(
                        machine.arch,
                        (#[trigger] obj.secs[rest[n]].relocs[k]).r_type,
                    ) && obj.secs[rest[n]].relocs[k].sym == s;
                assert(list[n + 1] == rest[n]);
                assert(obj.secs[list[n + 1]].relocs[k] == obj.secs[rest[n]].relocs[k]);
            }
        }
    }
}

/// Whether a relocation of this type on this machine cannot be applied for want of a table slot.
pub open spec fn lacks_slot(r: Result<Seq<u8>, RelocError>) -> bool {
    r matches Err(RelocError::MissingSlot { .. })
}

/// What a relocation type does without a slot, it does anywhere; with one, it never lacks one.
pub proof fn lemma_lacks_slot(
    machine: Machine,
    r_type: u32,
    buf: Seq<u8>,
    off: int,
    s: int,
    a: int,
    p: int,
    got: Option<u64>,
    implicit: bool,
    pair_lo: Option<i64>,
)
    ensures
        lacks_slot(
            relocated(
                machine.arch,
                machine.endian,
                r_type,
                buf,
                off,
                s,
                a,
                p,
                got,
                implicit,
                pair_lo,
            ),
        ) ==> got is None && uses_got(machine.arch, r_type),
{
    reveal(x86_64_field);
    reveal(aarch64_field);
    reveal(arm_field);
    reveal(mips_field);
}

/// Every relocation of a needed section that cannot be applied without a table slot finds one
/// for its symbol, which holds the address of the symbol. No other symbol has one.
pub proof fn law_slots(ctx: LinkView, found: Seq<usize>, blob: Seq<u8>)
    requires
        ctx.laid_out(found, blob) is Ok,
    ensures
        ({
            let plan = ctx.laid_out(found, blob)->Ok_0;
            let m = ctx.machine;
            &&& forall|
                n: int,
                k: int,
                buf: Seq<u8>,
                off: int,
                s: int,
                a: int,
                p: int,
                implicit: bool,
                pair: Option<i64>,
            |
                0 <= n < found.len() && 0 <= k < ctx.obj.secs[found[n]].relocs.len() && lacks_slot(
                    #[trigger] relocated(
                        m.arch,
                        m.endian,
                        ctx.obj.secs[found[n]].relocs[k].r_type,
                        buf,
                        off,
                        s,
                        a,
                        p,
                        None,
                        implicit,
                        pair,
                    ),
                ) ==> plan.got.dom().contains(ctx.obj.secs[found[n]].relocs[k].sym)
            &&& forall|sym: usize| #[trigger]
                plan.got.dom().contains(sym) ==> {
                    let width = if m.is_64 {
                        8
                    } else {
                        4int
                    };
                    &&& ctx.resolved(plan.va, sym) is Ok
                    &&& plan.got[sym].0 == ctx.base + plan.got[sym].1
                    &&& blob.len() <= plan.got[sym].1
                    &&& plan.got[sym].1 % width == 0
                    &&& uint_at(m.endian, plan.blob, plan.got[sym].1, width) == ctx.resolved(
                        plan.va,
                        sym,
                    )->Ok_0 as int % (if m.is_64 {
                        0x1_0000_0000_0000_0000
                    } else {
                        0x1_0000_0000int
                    })
                }
            &&& forall|sym: usize| #[trigger]
                plan.got.dom().contains(sym) ==> exists|n: int, k: int|
                    0 <= n < found.len() && 0 <= k < ctx.obj.secs[found[n]].relocs.len() && indirect(
                        m.arch,
                        (#[trigger] ctx.obj.secs[found[n]].relocs[k]).r_type,
                    ) && ctx.obj.secs[found[n]].relocs[k].sym == sym
        }),
{
    let obj = ctx.obj;
    let m = ctx.machine;
    let plan = ctx.laid_out(found, blob)->Ok_0;
    let list = ctx.placing_order(found);
    let first = all_placed(obj, list, ctx.base, ctx.start(blob))->Ok_0;
    lemma_stages(ctx, found, blob);
    lemma_all_slots(obj, found, m, ctx.base, first);
    law_layout(ctx, found, blob);
    assert(pow256(4) == 0x1_0000_0000 && pow256(8) == 0x1_0000_0000_0000_0000) by {
        reveal_with_fuel(pow256, 9);
    }
    assert forall|sym: usize| #[trigger] plan.got.dom().contains(sym) implies exists|n: int, k: int|
        0 <= n < found.len() && 0 <= k < obj.secs[found[n]].relocs.len() && indirect(
            m.arch,
            (#[trigger] obj.secs[found[n]].relocs[k]).r_type,
        ) && obj.secs[found[n]].relocs[k].sym == sym by {
        let (n, k) = choose|n: int, k: int|
            0 <= n < found.len() && 0 <= k < obj.secs[found[n]].relocs.len() && uses_got(
                m.arch,
                (#[trigger] obj.secs[found[n]].relocs[k]).r_type,
            ) && obj.secs[found[n]].relocs[k].sym == sym;
        assert(indirect(m.arch, obj.secs[found[n]].relocs[k].r_type));
    }
    assert forall|sym: usize| #[trigger] plan.got.dom().contains(sym) implies plan.slot_ok(
        ctx.base,
        blob.len() as int,
        pointer_width(m.is_64) as int,
        sym,
    ) by {}
    assert forall|
        n: int,
        k: int,
        buf: Seq<u8>,
        off: int,
        s: int,
        a: int,
        p: int,
        implicit: bool,
        pair: Option<i64>,
    |
        0 <= n < found.len() && 0 <= k < obj.secs[found[n]].relocs.len() && lacks_slot(
            #[trigger] relocated(
                m.arch,
                m.endian,
                obj.secs[found[n]].relocs[k].r_type,
                buf,
                off,
                s,
                a,
                p,
                None,
                implicit,
                pair,
            ),
        ) implies plan.got.dom().contains(obj.secs[found[n]].relocs[k].sym) by {
        lemma_lacks_slot(
            m,
            obj.secs[found[n]].relocs[k].r_type,
            buf,
            off,
            s,
            a,
            p,
            None,
            implicit,
            pair,
        );
        assert(uses_got(m.arch, obj.secs[found[n]].relocs[k].r_type));
    }
}

proof fn lemma_none_writable(obj: ObjView, list: Seq<usize>, base: u64, plan: PlanView, k: int)
    requires
        all_placed(obj, list, base, plan) is Ok,
        0 <= k < list.len(),
    ensures
        !obj.secs[list[k]].writable,
    decreases list.len(),
{
    if k > 0 {
        let rest = list.drop_first();
        let next = placed(obj.secs[list[0]], list[0], base, plan)->Ok_0;
        assert(rest[k - 1] == list[k]);
        lemma_none_writable(obj, rest, base, next, k - 1);
    }
}

/// No section that must be writable is injected: linking succeeds only where every needed section
/// but replacement code that stays in its range is read-only.
pub proof fn law_none_writable(ctx: LinkView, found: Seq<usize>, blob: Seq<u8>, i: usize)
    requires
        ctx.obj.well_formed(),
        ctx.obj.included() == Ok::<Seq<usize>, Fault<Seq<char>>>(found),
        ctx.laid_out(found, blob) is Ok,
        ctx.obj.reaches(i),
        !(ctx.obj.secs[i].splice matches Some((begin, end)) && begin <= end
            && ctx.obj.secs[i].bytes.len() <= end - begin),
    ensures
        !ctx.obj.secs[i].writable,
{
    law_placed(ctx, found, blob, i);
    lemma_laid_out(ctx, found, blob);
    lemma_stages(ctx, found, blob);
    let list = ctx.placing_order(found);
    assert(list.contains(i));
    let k = choose|k: int| 0 <= k < list.len() && list[k] == i;
    lemma_none_writable(ctx.obj, list, ctx.base, ctx.start(blob), k);
}

/// A table slot is made at the first multiple of the pointer width behind the blob, zeroed, for an
/// indirect reference whose symbol has none; nothing is made for any other relocation.
pub proof fn law_slot_packed(rel: Rel, machine: Machine, base: u64, plan: PlanView, at: int)
    requires
        ({
            let width = if machine.is_64 {
                8
            } else {
                4int
            };
            &&& at % width == 0
            &&& plan.blob.len() <= at < plan.blob.len() + width
            &&& at + width <= usize::MAX
            &&& base + at <= u64::MAX
        }),
    ensures
        slotted(rel, machine, base, plan) is Ok,
        ({
            let next = slotted(rel, machine, base, plan)->Ok_0;
            let width = if machine.is_64 {
                8
            } else {
                4int
            };
            if indirect(machine.arch, rel.r_type) && !plan.got.dom().contains(rel.sym) {
                &&& next.got == plan.got.insert(rel.sym, ((base + at) as u64, at))
                &&& next.got_order == plan.got_order.push(rel.sym)
                &&& next.blob.len() == at + width
                &&& next.blob.take(plan.blob.len() as int) == plan.blob
                &&& forall|k: int|
                    plan.blob.len() <= k < at + width ==> #[trigger] next.blob[k] == 0
                &&& next.va == plan.va
                &&& next.off == plan.off
            } else {
                next == plan
            }
        }),
{
    let width = if machine.is_64 {
        8
    } else {
        4int
    };
    lemma_round_up_is(plan.blob.len() as int, width, at);
    assert(uses_got(machine.arch, rel.r_type) == indirect(machine.arch, rel.r_type));
    let next = slotted(rel, machine, base, plan)->Ok_0;
    if next != plan {
        assert(next.blob.take(plan.blob.len() as int) =~= plan.blob);
    }
}

/// Placing sections makes the blob no shorter, and moves no other section.
proof fn lemma_offset_kept(obj: ObjView, list: Seq<usize>, base: u64, plan: PlanView, i: usize)
    requires
        !list.contains(i),
        all_placed(obj, list, base, plan) is Ok,
    ensures
        all_placed(obj, list, base, plan)->Ok_0.off[i] == plan.off[i],
        all_placed(obj, list, base, plan)->Ok_0.blob.len() >= plan.blob.len(),
    decreases list.len(),
{
    if list.len() > 0 {
        let rest = list.drop_first();
        let sec = obj.secs[list[0]];
        let next = placed(sec, list[0], base, plan)->Ok_0;
        assert(list.contains(list[0]));
        law_round_up(plan.blob.len() as int, sec_align(sec) as int);
        if rest.contains(i) {
            let k = choose|k: int| 0 <= k < rest.len() && rest[k] == i;
            assert(list[k + 1] == i);
        }
        lemma_offset_kept(obj, rest, base, next, i);
    }
}

/// Each section is placed behind what was there, and inside what is there in the end.
proof fn lemma_behind(obj: ObjView, list: Seq<usize>, base: u64, plan: PlanView, k: int)
    requires
        list.no_duplicates(),
        0 <= k < list.len(),
        all_placed(obj, list, base, plan) is Ok,
    ensures
        ({
            let end = all_placed(obj, list, base, plan)->Ok_0;
            &&& plan.blob.len() <= end.off[list[k]]
            &&& end.off[list[k]] + obj.secs[list[k]].bytes.len() <= end.blob.len()
        }),
    decreases list.len(),
{
    let rest = list.drop_first();
    let sec = obj.secs[list[0]];
    let next = placed(sec, list[0], base, plan)->Ok_0;
    law_round_up(plan.blob.len() as int, sec_align(sec) as int);
    assert(rest.no_duplicates()) by {
        assert forall|a: int, b: int|
            0 <= a < rest.len() && 0 <= b < rest.len() && a != b implies rest[a] != rest[b] by {
            assert(rest[a] == list[a + 1] && rest[b] == list[b + 1]);
        }
    }
    if k == 0 {
        assert(!rest.contains(list[0])) by {
            if rest.contains(list[0]) {
                let j = choose|j: int| 0 <= j < rest.len() && rest[j] == list[0];
                assert(list[j + 1] == list[0]);
            }
        }
        lemma_offset_kept(obj, rest, base, next, list[0]);
    } else {
        assert(rest[k - 1] == list[k]);
        lemma_behind(obj, rest, base, next, k - 1);
    }
}

/// Sections are placed one behind the other, in the order of the list.
proof fn lemma_in_order(
    obj: ObjView,
    list: Seq<usize>,
    base: u64,
    plan: PlanView,
    a: int,
    b: int,
)
    requires
        list.no_duplicates(),
        0 <= a < b < list.len(),
        all_placed(obj, list, base, plan) is Ok,
    ensures
        ({
            let end = all_placed(obj, list, base, plan)->Ok_0;
            end.off[list[a]] + obj.secs[list[a]].bytes.len() <= end.off[list[b]]
        }),
    decreases list.len(),
{
    let rest = list.drop_first();
    let next = placed(obj.secs[list[0]], list[0], base, plan)->Ok_0;
    assert(rest.no_duplicates()) by {
        assert forall|x: int, y: int|
            0 <= x < rest.len() && 0 <= y < rest.len() && x != y implies rest[x] != rest[y] by {
            assert(rest[x] == list[x + 1] && rest[y] == list[y + 1]);
        }
    }
    assert(rest[b - 1] == list[b]);
    if a == 0 {
        assert(!rest.contains(list[0])) by {
            if rest.contains(list[0]) {
                let j = choose|j: int| 0 <= j < rest.len() && rest[j] == list[0];
                assert(list[j + 1] == list[0]);
            }
        }
        law_round_up(plan.blob.len() as int, sec_align(obj.secs[list[0]]) as int);
        lemma_offset_kept(obj, rest, base, next, list[0]);
        lemma_behind(obj, rest, base, next, b - 1);
    } else {
        assert(rest[a - 1] == list[a]);
        lemma_in_order(obj, rest, base, next, a - 1, b - 1);
    }
}

proof fn lemma_oversized_distinct(obj: ObjView, list: Seq<usize>)
    requires
        list.no_duplicates(),
    ensures
        oversized(obj, list).no_duplicates(),
    decreases list.len(),
{
    if list.len() > 0 {
        let init = list.drop_last();
        assert(init.no_duplicates()) by {
            assert forall|x: int, y: int|
                0 <= x < init.len() && 0 <= y < init.len() && x != y implies init[x] != init[y] by {
                assert(init[x] == list[x] && init[y] == list[y]);
            }
        }
        lemma_oversized_distinct(obj, init);
        lemma_oversized(obj, init);
        let before = oversized(obj, init);
        if !fits(obj.secs[list.last()]) {
            assert(!before.contains(list.last())) by {
                if before.contains(list.last()) {
                    let k = choose|k: int| 0 <= k < init.len() && init[k] == list.last();
                    assert(list[k] == list[list.len() - 1]);
                }
            }
        }
    }
}

/// In the segment the needed sections come first, in the order in which they were found; the
/// replacement code that is too long for its range comes behind all of them.
pub proof fn law_order(ctx: LinkView, found: Seq<usize>, blob: Seq<u8>, k: int, i: usize)
    requires
        ctx.obj.well_formed(),
        ctx.obj.included() == Ok::<Seq<usize>, Fault<Seq<char>>>(found),
        ctx.laid_out(found, blob) is Ok,
        ctx.obj.splices().len() <= k < found.len(),
        ctx.obj.secs.dom().contains(i),
        (exists|m: int| k < m < found.len() && #[trigger] found[m] == i) || (
        ctx.obj.secs[i].splice matches Some((begin, end)) && !(begin <= end
            && ctx.obj.secs[i].bytes.len() <= end - begin)),
    ensures
        ({
            let plan = ctx.laid_out(found, blob)->Ok_0;
            plan.off[found[k]] + ctx.obj.secs[found[k]].bytes.len() <= plan.off[i]
        }),
{
    let obj = ctx.obj;
    let splices = obj.splices();
    let needed = found.skip(splices.len() as int);
    let over = oversized(obj, splices);
    let list = ctx.placing_order(found);
    law_included(obj);
    lemma_roots(obj);
    lemma_oversized(obj, splices);
    lemma_oversized_distinct(obj, splices);
    lemma_stages(ctx, found, blob);
    assert(list.no_duplicates()) by {
        assert forall|x: int, y: int|
            0 <= x < list.len() && 0 <= y < list.len() && x < y implies list[x] != list[y] by {
            if y < needed.len() {
                assert(list[x] == found[splices.len() + x] && list[y] == found[splices.len() + y]);
            } else if x >= needed.len() {
                assert(list[x] == over[x - needed.len()] && list[y] == over[y - needed.len()]);
            } else {
                assert(over.contains(over[y - needed.len()]));
                let m = choose|m: int| 0 <= m < splices.len() && splices[m] == list[y];
                assert(found.take(splices.len() as int)[m] == found[m]);
                assert(list[x] == found[splices.len() + x]);
            }
        }
    }
    let a = k - splices.len();
    assert(list[a] == found[k]);
    let b = if exists|m: int| k < m < found.len() && #[trigger] found[m] == i {
        let m = choose|m: int| k < m < found.len() && #[trigger] found[m] == i;
        m - splices.len()
    } else {
        assert(splices.contains(i));
        assert(over.contains(i));
        let m = choose|m: int| 0 <= m < over.len() && over[m] == i;
        needed.len() + m
    };
    assert(list[b] == i);
    lemma_in_order(obj, list, ctx.base, ctx.start(blob), a, b);
}

} // verus!
