//! What holds of every linked object, and of every rlib that is linked into a binary.
use crate::binary::{law_patch, law_round_up, mapped, replacement, round_up, BinaryView, PAGE};
use crate::closure::{law_included, lemma_roots};
use crate::elf::layout;
use crate::error::{Fault, Machine};
use crate::inject::{injected, law_injected_content, slot};
use crate::jump::jump;
use crate::layout_laws::{apart, law_layout, lemma_laid_out};
use crate::link::{
    fits, lemma_good_ranges, lemma_oversized, lemma_ready, lemma_rels_len, oversized, Applied, LinkView,
    Output, PatchView,
};
use crate::model::ObjView;
use crate::object_file::{arch_check, identity_of, members_of, sections_of, Member};
use crate::plan::PlanView;
use crate::rlib::{
    applied_of, has_splice, installed, patch_written, patches_written, rlib_linked, rlib_output,
    TargetView,
};
use vstd::prelude::*;

verus! {

impl LinkView {
    /// Whether `p` is the patch of splice `i`: its relocated code where that fits the range of the
    /// splice, else a jump to where the code lies in the segment. Either fits the range.
    pub open spec fn is_patch_of(self, plan: PlanView, i: usize, p: PatchView) -> bool {
        let sec = self.obj.secs[i];
        &&& sec.splice == Some((p.begin, p.end))
        &&& p.begin <= p.end
        &&& p.code.len() <= p.end - p.begin
        &&& if fits(sec) {
            !p.trampoline && self.rels_applied(plan, sec, plan.va[i], sec.relocs, sec.bytes) == Ok::<
                Seq<u8>,
                Fault<Seq<char>>,
            >(p.code)
        } else {
            p.trampoline && jump(self.machine, p.begin, plan.va[i]) == Ok::<
                Seq<u8>,
                Fault<Seq<char>>,
            >(p.code)
        }
    }

    /// Whether `patches` are the patches of the splices of `list`, one for each.
    pub open spec fn are_patches_of(
        self,
        plan: PlanView,
        list: Seq<usize>,
        patches: Seq<PatchView>,
    ) -> bool {
        patches.len() == list.len() && forall|k: int|
            0 <= k < list.len() ==> self.is_patch_of(plan, #[trigger] list[k], patches[k])
    }
}

/// The sections of `list` that fit their range, in their order.
pub open spec fn fitting(obj: ObjView, list: Seq<usize>) -> Seq<usize>
    decreases list.len(),
{
    if list.len() == 0 {
        Seq::empty()
    } else if fits(obj.secs[list[0]]) {
        seq![list[0]] + fitting(obj, list.drop_first())
    } else {
        fitting(obj, list.drop_first())
    }
}

/// Relocating makes one patch of each section that fits its range, and leaves the blob before
/// the first of the others alone.
proof fn lemma_applied(ctx: LinkView, plan: PlanView, list: Seq<usize>, out: Output, keep: int)
    requires
        ctx.ready(plan, list, out.blob.len()),
        0 <= keep <= out.blob.len(),
        forall|k: int|
            0 <= k < list.len() && !fits(ctx.obj.secs[#[trigger] list[k]]) ==> plan.off[list[k]]
                >= keep,
        ctx.all_applied(plan, list, out) is Ok,
    ensures
        ({
            let end = ctx.all_applied(plan, list, out)->Ok_0;
            &&& end.blob.len() == out.blob.len()
            &&& end.blob.take(keep) == out.blob.take(keep)
            &&& end.patches.len() >= out.patches.len()
            &&& end.patches.take(out.patches.len() as int) == out.patches
            &&& ctx.are_patches_of(
                plan,
                fitting(ctx.obj, list),
                end.patches.skip(out.patches.len() as int),
            )
        }),
    decreases list.len(),
{
    let end = ctx.all_applied(plan, list, out)->Ok_0;
    if list.len() == 0 {
        assert(out.patches.take(out.patches.len() as int) =~= out.patches);
    } else {
        let i = list[0];
        let sec = ctx.obj.secs[i];
        let rest = list.drop_first();
        let next = ctx.section_applied(plan, i, out)->Ok_0;
        assert(ctx.obj.secs.dom().contains(list[0]));
        if fits(sec) {
            lemma_rels_len(ctx, plan, sec, plan.va[i], sec.relocs, sec.bytes);
        } else {
            lemma_rels_len(ctx, plan, sec, plan.va[i], sec.relocs, out.blob.skip(plan.off[i]));
            assert(next.blob.take(keep) =~= out.blob.take(keep));
        }
        assert forall|k: int| 0 <= k < rest.len() implies {
            &&& ctx.obj.secs.dom().contains(#[trigger] rest[k])
            &&& plan.va.dom().contains(rest[k])
            &&& !fits(ctx.obj.secs[rest[k]]) ==> plan.off.dom().contains(rest[k]) && 0
                <= plan.off[rest[k]] <= next.blob.len()
        } by {
            assert(rest[k] == list[k + 1]);
        }
        assert forall|k: int|
            0 <= k < rest.len() && !fits(ctx.obj.secs[#[trigger] rest[k]]) implies plan.off[rest[k]]
            >= keep by {
            assert(rest[k] == list[k + 1]);
        }
        lemma_applied(ctx, plan, rest, next, keep);
        let tail = end.patches.skip(next.patches.len() as int);
        let all = end.patches.skip(out.patches.len() as int);
        let more = fitting(ctx.obj, rest);
        assert(end.patches.take(out.patches.len() as int) =~= end.patches.take(
            next.patches.len() as int,
        ).take(out.patches.len() as int));
        assert(next.patches.take(out.patches.len() as int) =~= out.patches);
        if fits(sec) {
            let p = next.patches.last();
            assert(end.patches.take(next.patches.len() as int)[out.patches.len() as int] == p);
            assert(all =~= seq![p] + tail);
            assert(ctx.is_patch_of(plan, i, p));
            let whole = fitting(ctx.obj, list);
            assert forall|k: int| 0 <= k < whole.len() implies ctx.is_patch_of(
                plan,
                #[trigger] whole[k],
                all[k],
            ) by {
                if k > 0 {
                    assert(whole[k] == more[k - 1]);
                    assert(all[k] == tail[k - 1]);
                }
            }
        } else {
            assert(all =~= tail);
        }
    }
}

/// Bridging makes one jump patch of each oversized splice.
proof fn lemma_bridged(ctx: LinkView, plan: PlanView, list: Seq<usize>, out: Output)
    requires
        forall|k: int|
            0 <= k < list.len() ==> (ctx.obj.secs[#[trigger] list[k]].splice matches Some(
                (begin, end),
            ) && begin <= end) && !fits(ctx.obj.secs[list[k]]),
        ctx.all_bridged(plan, list, out) is Ok,
    ensures
        ({
            let end = ctx.all_bridged(plan, list, out)->Ok_0;
            &&& end.blob == out.blob
            &&& end.patches.len() >= out.patches.len()
            &&& end.patches.take(out.patches.len() as int) == out.patches
            &&& ctx.are_patches_of(plan, list, end.patches.skip(out.patches.len() as int))
        }),
    decreases list.len(),
{
    let end = ctx.all_bridged(plan, list, out)->Ok_0;
    if list.len() == 0 {
        assert(out.patches.take(out.patches.len() as int) =~= out.patches);
    } else {
        let i = list[0];
        let rest = list.drop_first();
        let next = ctx.bridged(plan, i, out)->Ok_0;
        assert(ctx.obj.secs[list[0]].splice is Some);
        assert forall|k: int| 0 <= k < rest.len() implies (
        ctx.obj.secs[#[trigger] rest[k]].splice matches Some((begin, end)) && begin <= end) && !fits(
            ctx.obj.secs[rest[k]],
        ) by {
            assert(rest[k] == list[k + 1]);
        }
        lemma_bridged(ctx, plan, rest, next);
        let tail = end.patches.skip(next.patches.len() as int);
        let all = end.patches.skip(out.patches.len() as int);
        let p = next.patches.last();
        assert(end.patches.take(out.patches.len() as int) =~= end.patches.take(
            next.patches.len() as int,
        ).take(out.patches.len() as int));
        assert(next.patches.take(out.patches.len() as int) =~= out.patches);
        assert(end.patches.take(next.patches.len() as int)[out.patches.len() as int] == p);
        assert(all =~= seq![p] + tail);
        assert(ctx.is_patch_of(plan, i, p));
        assert forall|k: int| 0 <= k < list.len() implies ctx.is_patch_of(
            plan,
            #[trigger] list[k],
            all[k],
        ) by {
            if k > 0 {
                assert(rest[k - 1] == list[k]);
                assert(all[k] == tail[k - 1]);
            }
        }
    }
}

proof fn lemma_fitting_concat(obj: ObjView, a: Seq<usize>, b: Seq<usize>)
    ensures
        fitting(obj, a + b) == fitting(obj, a) + fitting(obj, b),
    decreases a.len(),
{
    if a.len() == 0 {
        assert(a + b =~= b);
        assert(fitting(obj, a) + fitting(obj, b) =~= fitting(obj, b));
    } else {
        assert((a + b).drop_first() =~= a.drop_first() + b);
        lemma_fitting_concat(obj, a.drop_first(), b);
        assert(fitting(obj, a + b) =~= fitting(obj, a) + fitting(obj, b));
    }
}

proof fn lemma_fitting_none(obj: ObjView, list: Seq<usize>)
    requires
        forall|k: int| 0 <= k < list.len() ==> !fits(obj.secs[#[trigger] list[k]]),
    ensures
        fitting(obj, list).len() == 0,
    decreases list.len(),
{
    if list.len() > 0 {
        let rest = list.drop_first();
        assert forall|k: int| 0 <= k < rest.len() implies !fits(obj.secs[#[trigger] rest[k]]) by {
            assert(rest[k] == list[k + 1]);
        }
        assert(!fits(obj.secs[list[0]]));
        lemma_fitting_none(obj, rest);
    }
}

/// Every section of `list` either fits its range or is oversized.
proof fn lemma_fitting(obj: ObjView, list: Seq<usize>)
    ensures
        fitting(obj, list).len() + oversized(obj, list).len() == list.len(),
        forall|i: usize| #[trigger]
            fitting(obj, list).contains(i) <==> list.contains(i) && fits(obj.secs[i]),
    decreases list.len(),
{
    if list.len() > 0 {
        let init = list.drop_last();
        let last = list.last();
        lemma_fitting(obj, init);
        lemma_fitting_concat(obj, init, seq![last]);
        assert(init + seq![last] =~= list);
        let one = seq![last];
        assert(one.drop_first() =~= Seq::<usize>::empty());
        assert(fitting(obj, one.drop_first()) =~= Seq::<usize>::empty());
        let before = fitting(obj, init);
        let after = fitting(obj, list);
        if fits(obj.secs[last]) {
            assert(after =~= before.push(last));
        } else {
            assert(after =~= before);
        }
        assert forall|i: usize| #[trigger] after.contains(i) <==> list.contains(i) && fits(
            obj.secs[i],
        ) by {
            assert(before.contains(i) <==> init.contains(i) && fits(obj.secs[i]));
            if list.contains(i) && i != last {
                let k = choose|k: int| 0 <= k < list.len() && list[k] == i;
                assert(init[k] == i);
            }
            if init.contains(i) {
                let k = choose|k: int| 0 <= k < init.len() && init[k] == i;
                assert(list[k] == i);
            }
            assert(list[list.len() - 1] == last);
            if before.contains(i) {
                let k = choose|k: int| 0 <= k < before.len() && before[k] == i;
                assert(after[k] == i);
            }
            if after.contains(i) && i != last {
                let k = choose|k: int| 0 <= k < after.len() && after[k] == i;
                assert(before[k] == i);
            }
            if i == last && fits(obj.secs[last]) {
                assert(after[before.len() as int] == last);
            }
        }
    }
}

/// The splices of an object, those that fit their range first.
pub open spec fn patch_order(obj: ObjView) -> Seq<usize> {
    fitting(obj, obj.splices()) + oversized(obj, obj.splices())
}

/// Linking an object makes one patch of each of its splices, behind the patches made before:
/// its relocated code where that fits the range, else a jump to its code. Every patch fits its
/// range. What the segment held before is kept.
#[verifier::rlimit(40)]
pub proof fn law_linked(ctx: LinkView, out: Output)
    requires
        ctx.obj.well_formed(),
        ctx.linked(out) is Ok,
    ensures
        ({
            let end = ctx.linked(out)->Ok_0;
            let plan = ctx.laid_out(ctx.obj.included()->Ok_0, out.blob)->Ok_0;
            let order = patch_order(ctx.obj);
            &&& out.blob.len() <= end.blob.len()
            &&& end.blob.take(out.blob.len() as int) == out.blob
            &&& out.patches.len() <= end.patches.len()
            &&& end.patches.take(out.patches.len() as int) == out.patches
            &&& ctx.are_patches_of(plan, order, end.patches.skip(out.patches.len() as int))
            &&& order.len() == ctx.obj.splices().len()
            &&& forall|i: usize| #[trigger]
                ctx.obj.splices().contains(i) <==> order.contains(i)
        }),
{
    let obj = ctx.obj;
    let splices = obj.splices();
    let over = oversized(obj, splices);
    let found = obj.included()->Ok_0;
    let rest = found.skip(splices.len() as int);
    let plan = ctx.laid_out(found, out.blob)->Ok_0;
    let start = Output { blob: plan.blob, ..out };
    let mid = ctx.all_applied(plan, found, start)->Ok_0;
    let end = ctx.linked(out)->Ok_0;
    law_included(obj);
    lemma_roots(obj);
    lemma_oversized(obj, splices);
    lemma_good_ranges(obj, splices);
    lemma_laid_out(ctx, found, out.blob);
    law_layout(ctx, found, out.blob);
    lemma_ready(ctx, found, plan, plan);
    assert forall|k: int|
        0 <= k < found.len() && !fits(obj.secs[#[trigger] found[k]]) implies plan.off[found[k]]
        >= out.blob.len() by {
        let i = found[k];
        assert(plan.off.dom().contains(i));
        assert(plan.section_ok(obj, ctx.base, out.blob.len() as int, i));
    }
    lemma_applied(ctx, plan, found, start, out.blob.len() as int);
    assert(found =~= splices + rest) by {
        assert(found.take(splices.len() as int) + rest =~= found);
    }
    lemma_fitting_concat(obj, splices, rest);
    assert forall|k: int| 0 <= k < rest.len() implies !fits(obj.secs[#[trigger] rest[k]]) by {
        let i = rest[k];
        assert(found[k + splices.len()] == i);
        assert(found.contains(i));
        if fits(obj.secs[i]) {
            assert(splices.contains(i));
            let m = choose|m: int| 0 <= m < splices.len() && splices[m] == i;
            assert(found.take(splices.len() as int)[m] == found[m]);
            assert(found[m] == found[k + splices.len()]);
        }
    }
    lemma_fitting_none(obj, rest);
    let fit = fitting(obj, splices);
    assert(fitting(obj, found) =~= fit);
    assert forall|k: int| 0 <= k < over.len() implies (obj.secs[#[trigger] over[k]].splice matches Some(
        (begin, end),
    ) && begin <= end) && !fits(obj.secs[over[k]]) by {
        assert(over.contains(over[k]));
        assert(splices.contains(over[k]));
        let m = choose|m: int| 0 <= m < splices.len() && splices[m] == over[k];
        assert(splices[m] == over[k]);
    }
    lemma_bridged(ctx, plan, over, mid);
    let order = patch_order(obj);
    let n = out.patches.len() as int;
    assert(end.patches.take(n) =~= end.patches.take(mid.patches.len() as int).take(n));
    let new = end.patches.skip(n);
    assert forall|k: int| 0 <= k < order.len() implies ctx.is_patch_of(
        plan,
        #[trigger] order[k],
        new[k],
    ) by {
        if k < fit.len() {
            assert(order[k] == fit[k]);
            assert(new[k] == end.patches.take(mid.patches.len() as int)[n + k]);
            assert(new[k] == mid.patches.skip(n)[k]);
        } else {
            assert(order[k] == over[k - fit.len()]);
            assert(new[k] == end.patches.skip(mid.patches.len() as int)[k - fit.len()]);
        }
    }
    lemma_fitting(obj, splices);
    assert forall|i: usize| #[trigger] splices.contains(i) <==> order.contains(i) by {
        if splices.contains(i) {
            if fits(obj.secs[i]) {
                assert(fit.contains(i));
                let k = choose|k: int| 0 <= k < fit.len() && fit[k] == i;
                assert(order[k] == i);
            } else {
                assert(over.contains(i));
                let k = choose|k: int| 0 <= k < over.len() && over[k] == i;
                assert(order[fit.len() + k] == i);
            }
        }
        if order.contains(i) {
            let k = choose|k: int| 0 <= k < order.len() && order[k] == i;
            if k < fit.len() {
                assert(fit[k] == i);
                assert(fit.contains(i));
            } else {
                assert(over[k - fit.len()] == i);
                assert(over.contains(i));
            }
        }
    }
}

/// A member that cannot be linked makes the whole rlib fail.
proof fn lemma_member_refused(
    t: TargetView,
    members: Seq<Member<Seq<u8>, Seq<char>>>,
    out: Output,
    k: int,
    data: Seq<u8>,
)
    requires
        0 <= k < members.len(),
        members[k] == Member::<Seq<u8>, Seq<char>>::Data(data),
        identity_of(data) is Some,
        has_splice(sections_of(data)),
        arch_check(identity_of(data)->0, t.machine) is Some,
    ensures
        t.members_linked(members, out) is Err,
    decreases k,
{
    if k > 0 {
        if let Member::Data(first) = members[0] {
            if let Ok(next) = t.member_linked(first, out) {
                let rest = members.drop_first();
                assert(rest[k - 1] == members[k]);
                lemma_member_refused(t, rest, next, k - 1, data);
            }
        }
    }
}

/// An rlib with splices for another machine than the target's is refused, and the target is left
/// as it was.
pub proof fn law_wrong_machine(
    rlib: Seq<u8>,
    binary: BinaryView,
    members: Seq<Member<Seq<u8>, Seq<char>>>,
    k: int,
    data: Seq<u8>,
)
    requires
        members_of(rlib) == Ok::<Seq<Member<Seq<u8>, Seq<char>>>, Seq<char>>(members),
        0 <= k < members.len(),
        members[k] == Member::<Seq<u8>, Seq<char>>::Data(data),
        identity_of(data) is Some,
        has_splice(sections_of(data)),
        arch_check(identity_of(data)->0, binary.machine) is Some,
    ensures
        rlib_linked(rlib, binary).1 is Err,
        rlib_linked(rlib, binary).0 == binary.data,
{
    let base = crate::binary::placement(binary.data, binary.base);
    if base is Ok {
        let t = TargetView {
            machine: binary.machine,
            externals: crate::image::target_tables(binary.data),
            base: base->Ok_0,
        };
        lemma_member_refused(
            t,
            members,
            Output { blob: Seq::empty(), patches: Seq::empty() },
            k,
            data,
        );
    }
}

/// Where linking the members fails, the target is left as it was: nothing is written before all
/// of them are linked.
pub proof fn law_refused(rlib: Seq<u8>, binary: BinaryView)
    requires
        rlib_output(rlib, binary) is Err,
    ensures
        rlib_linked(rlib, binary).1 is Err,
        rlib_linked(rlib, binary).0 == binary.data,
{
}

/// The file offsets at which the patches are written, one after the other.
pub open spec fn patch_offsets(machine: Machine, data: Seq<u8>, patches: Seq<PatchView>) -> Seq<int>
    decreases patches.len(),
{
    if patches.len() == 0 {
        Seq::empty()
    } else {
        let rest = match patch_written(machine, data, patches[0]) {
            Err(_) => Seq::empty(),
            Ok(next) => patch_offsets(machine, next, patches.drop_first()),
        };
        seq![mapped(data, patches[0].begin)->Ok_0 as int] + rest
    }
}

/// Whether a patch of `patches` other than the first `from` overlaps the region of `len` bytes at
/// `at`.
pub open spec fn overlapped(
    patches: Seq<PatchView>,
    offsets: Seq<int>,
    from: int,
    at: int,
    len: int,
) -> bool {
    exists|m: int|
        from <= m < patches.len() && !apart(
            at,
            len,
            #[trigger] offsets[m],
            patches[m].end - patches[m].begin,
        )
}

/// Whether the code of a patch, and no-operations up to the end of its range, stand at `at`.
pub open spec fn stands(machine: Machine, data: Seq<u8>, at: int, p: PatchView) -> bool {
    let len = p.end - p.begin;
    &&& 0 <= at
    &&& 0 <= len
    &&& at + len <= data.len()
    &&& data.subrange(at, at + len) == replacement(machine, len, p.code)
}

/// Patches that are all written leave, each at its offset, the code and no-operations up to the
/// end of the range, unless a later patch overlaps it. Outside their regions no byte changes.
pub proof fn law_patches_written(
    machine: Machine,
    data: Seq<u8>,
    patches: Seq<PatchView>,
    done: Seq<Applied>,
)
    requires
        patches_written(machine, data, patches, done).1 is Ok,
    ensures
        ({
            let after = patches_written(machine, data, patches, done).0;
            let offsets = patch_offsets(machine, data, patches);
            &&& after.len() == data.len()
            &&& offsets.len() == patches.len()
            &&& forall|k: int|
                0 <= k < patches.len() && !overlapped(
                    patches,
                    offsets,
                    k + 1,
                    offsets[k],
                    patches[k].end - patches[k].begin,
                ) ==> stands(machine, after, offsets[k], #[trigger] patches[k])
            &&& forall|at: int|
                0 <= at < data.len() && !overlapped(patches, offsets, 0, at, 1)
                    ==> #[trigger] after[at] == data[at]
        }),
    decreases patches.len(),
{
    let after = patches_written(machine, data, patches, done).0;
    let offsets = patch_offsets(machine, data, patches);
    if patches.len() > 0 {
        let p = patches[0];
        let at = mapped(data, p.begin)->Ok_0 as int;
        let len = p.end - p.begin;
        let next = patch_written(machine, data, p)->Ok_0;
        let rest = patches.drop_first();
        let more = patch_offsets(machine, next, rest);
        law_patch(machine, data, at, len, p.code);
        law_patches_written(machine, next, rest, done.push(applied_of(p)));
        assert forall|k: int| 0 <= k < rest.len() implies offsets[k + 1] == more[k] && patches[k + 1]
            == #[trigger] rest[k] by {}
        let r = replacement(machine, len, p.code);
        assert(next.subrange(at, at + len) =~= r);
        assert forall|k: int|
            0 <= k < patches.len() && !overlapped(
                patches,
                offsets,
                k + 1,
                offsets[k],
                patches[k].end - patches[k].begin,
            ) implies stands(machine, after, offsets[k], #[trigger] patches[k]) by {
            if k > 0 {
                let q = rest[k - 1];
                let q_len = q.end - q.begin;
                assert(q == patches[k]);
                assert(!overlapped(rest, more, k, more[k - 1], q_len)) by {
                    if overlapped(rest, more, k, more[k - 1], q_len) {
                        let m = choose|m: int|
                            k <= m < rest.len() && !apart(
                                more[k - 1],
                                q_len,
                                #[trigger] more[m],
                                rest[m].end - rest[m].begin,
                            );
                        assert(offsets[m + 1] == more[m]);
                    }
                }
                assert(stands(machine, after, more[k - 1], q));
            } else {
                assert forall|x: int| at <= x < at + len implies #[trigger] after[x] == next[x] by {
                    assert(!overlapped(rest, more, 0, x, 1)) by {
                        if overlapped(rest, more, 0, x, 1) {
                            let m = choose|m: int|
                                0 <= m < rest.len() && !apart(
                                    x,
                                    1,
                                    #[trigger] more[m],
                                    rest[m].end - rest[m].begin,
                                );
                            assert(offsets[m + 1] == more[m]);
                        }
                    }
                }
                assert(after.subrange(at, at + len) =~= r);
            }
        }
        assert(after.len() == data.len());
        assert(offsets.len() == patches.len());
        assert forall|x: int|
            0 <= x < data.len() && !overlapped(patches, offsets, 0, x, 1) implies #[trigger] after[x]
            == data[x] by {
            assert(apart(x, 1, offsets[0], patches[0].end - patches[0].begin));
            assert(!overlapped(rest, more, 0, x, 1)) by {
                if overlapped(rest, more, 0, x, 1) {
                    let m = choose|m: int|
                        0 <= m < rest.len() && !apart(
                            x,
                            1,
                            #[trigger] more[m],
                            rest[m].end - rest[m].begin,
                        );
                    assert(offsets[m + 1] == more[m]);
                }
            }
        }
    }
}

/// Installing puts the segment into the file, on the page behind the old bytes: it stands there
/// wherever neither its own header nor a patch overlaps it.
pub proof fn law_installed_segment(binary: BinaryView, base: u64, out: Output, k: int)
    requires
        installed(binary, base, out).1 is Ok,
        0 <= k < out.blob.len(),
        ({
            let file = injected(
                binary.data,
                binary.format,
                binary.machine,
                base,
                out.blob,
            )->Ok_0;
            let at = round_up(binary.data.len() as int, PAGE as int) + k;
            let s = slot(binary.data, binary.machine)->Ok_0;
            &&& !(s.at <= at < s.at + layout(binary.machine.is_64).entry)
            &&& !overlapped(
                out.patches,
                patch_offsets(binary.machine, file, out.patches),
                0,
                at,
                1,
            )
        }),
    ensures
        ({
            let after = installed(binary, base, out).0;
            let at = round_up(binary.data.len() as int, PAGE as int);
            &&& after.len() == at + out.blob.len()
            &&& after[at + k] == out.blob[k]
        }),
{
    let file = injected(binary.data, binary.format, binary.machine, base, out.blob)->Ok_0;
    let at = round_up(binary.data.len() as int, PAGE as int);
    law_injected_content(binary.data, binary.format, binary.machine, base, out.blob);
    law_patches_written(binary.machine, file, out.patches, Seq::empty());
    assert(file[at + k] == out.blob[k]);
    law_round_up(binary.data.len() as int, PAGE as int);
}

/// What is reported of an rlib that was linked is what was written: one entry for each patch, in
/// their order.
pub proof fn law_reported(
    machine: Machine,
    data: Seq<u8>,
    patches: Seq<PatchView>,
    done: Seq<Applied>,
)
    requires
        patches_written(machine, data, patches, done).1 is Ok,
    ensures
        ({
            let report = patches_written(machine, data, patches, done).1->Ok_0;
            &&& report.len() == done.len() + patches.len()
            &&& report.take(done.len() as int) == done
            &&& forall|k: int|
                0 <= k < patches.len() ==> report[done.len() + k] == applied_of(
                    #[trigger] patches[k],
                )
        }),
    decreases patches.len(),
{
    if patches.len() == 0 {
        assert(done.take(done.len() as int) =~= done);
    } else {
        let next = patch_written(machine, data, patches[0])->Ok_0;
        let rest = patches.drop_first();
        let more = done.push(applied_of(patches[0]));
        law_reported(machine, next, rest, more);
        let report = patches_written(machine, data, patches, done).1->Ok_0;
        assert(report.take(done.len() as int) =~= report.take(more.len() as int).take(
            done.len() as int,
        ));
        assert(more.take(done.len() as int) =~= done);
        assert(report.take(more.len() as int)[done.len() as int] == applied_of(patches[0]));
        assert forall|k: int| 0 <= k < patches.len() implies report[done.len() + k] == applied_of(
            #[trigger] patches[k],
        ) by {
            if k > 0 {
                assert(rest[k - 1] == patches[k]);
            }
        }
    }
}

/// What is reported of a patch is its range, the length of its code and whether it is a jump.
pub proof fn law_report_entry(p: PatchView)
    requires
        p.code.len() <= usize::MAX,
    ensures
        applied_of(p).begin == p.begin,
        applied_of(p).end == p.end,
        applied_of(p).code_len == p.code.len(),
        applied_of(p).trampoline == p.trampoline,
{
}

/// A patch is written wherever its address is mapped into the file, its range does not end before
/// it begins, its code fits the range, and the range lies inside the file.
pub proof fn law_patch_succeeds(machine: Machine, data: Seq<u8>, p: PatchView)
    requires
        mapped(data, p.begin) is Ok,
        p.begin <= p.end,
        p.code.len() <= p.end - p.begin,
        mapped(data, p.begin)->Ok_0 + (p.end - p.begin) <= data.len(),
    ensures
        patch_written(machine, data, p) is Ok,
        patch_written(machine, data, p)->Ok_0.subrange(
            mapped(data, p.begin)->Ok_0 as int,
            mapped(data, p.begin)->Ok_0 + p.code.len(),
        ) == p.code,
{
    law_patch(machine, data, mapped(data, p.begin)->Ok_0 as int, p.end - p.begin, p.code);
}

/// Without anything to inject the file keeps its length: only patches are written.
pub proof fn law_nothing_injected(binary: BinaryView, base: u64, out: Output)
    requires
        out.blob.len() == 0,
        installed(binary, base, out).1 is Ok,
    ensures
        installed(binary, base, out).0.len() == binary.data.len(),
        installed(binary, base, out).0 == patches_written(
            binary.machine,
            binary.data,
            out.patches,
            Seq::empty(),
        ).0,
{
    law_patches_written(binary.machine, binary.data, out.patches, Seq::empty());
}

/// One patch more is written behind the others; where one fails, those before it stay written and
/// those behind it are left out.
pub proof fn law_patch_behind(
    machine: Machine,
    data: Seq<u8>,
    patches: Seq<PatchView>,
    last: PatchView,
    done: Seq<Applied>,
)
    ensures
        ({
            let (d, r) = patches_written(machine, data, patches, done);
            patches_written(machine, data, patches.push(last), done) == match r {
                Err(f) => (d, Err(f)),
                Ok(v) => match patch_written(machine, d, last) {
                    Err(f) => (d, Err(f)),
                    Ok(after) => (
                        after,
                        Ok(
                            v.push(
                                Applied {
                                    begin: last.begin,
                                    end: last.end,
                                    code_len: last.code.len() as usize,
                                    trampoline: last.trampoline,
                                },
                            ),
                        ),
                    ),
                },
            }
        }),
    decreases patches.len(),
{
    let all = patches.push(last);
    if patches.len() == 0 {
        assert(all.drop_first() =~= patches);
        if let Ok(after) = patch_written(machine, data, last) {
            let more = done.push(applied_of(last));
            assert(patches_written(machine, after, all.drop_first(), more) == (
                after,
                Ok::<Seq<Applied>, Fault<Seq<char>>>(more),
            ));
        }
    } else {
        assert(all[0] == patches[0]);
        assert(all.drop_first() =~= patches.drop_first().push(last));
        if let Ok(after) = patch_written(machine, data, patches[0]) {
            law_patch_behind(
                machine,
                after,
                patches.drop_first(),
                last,
                done.push(applied_of(patches[0])),
            );
        }
    }
}

/// A segment that cannot be injected leaves the file as it was, and no patch is written.
pub proof fn law_not_installed(binary: BinaryView, base: u64, out: Output, f: Fault<Seq<char>>)
    requires
        out.blob.len() > 0,
        injected(binary.data, binary.format, binary.machine, base, out.blob) == Err::<
            Seq<u8>,
            Fault<Seq<char>>,
        >(f),
    ensures
        installed(binary, base, out).0 == binary.data,
        installed(binary, base, out).1 == Err::<Seq<Applied>, Fault<Seq<char>>>(f),
{
}

} // verus!
