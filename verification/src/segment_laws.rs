//! What stands in the injected segment once an object is linked.
use crate::arch::{pointer_width, Architecture};
use crate::bytes::{overwrite, pow256, uint_at, Endian};
use crate::closure::law_included;
use crate::error::Fault;
use crate::jump::{jump_target, law_jump_lands};
use crate::layout_laws::{apart, law_layout, lemma_laid_out};
use crate::link::{
    fits, lemma_ready, lemma_rels_len, oversized, pair_low, LinkView, Output, PatchView,
};
use crate::model::{Rel, SecView};
use crate::plan::PlanView;
use crate::reloc::{aarch64_field, arm_field, mips_field, relocated, x86_64_field, RelocError};
use crate::word::wrap64;
use vstd::prelude::*;

verus! {

/// A relocation that succeeds in a buffer does the same there when more bytes follow.
proof fn lemma_relocated_extends(
    arch: Architecture,
    endian: Endian,
    r_type: u32,
    buf: Seq<u8>,
    tail: Seq<u8>,
    off: int,
    s: int,
    a: int,
    p: int,
    got: Option<u64>,
    implicit: bool,
    pair_lo: Option<i64>,
)
    requires
        0 <= off,
        relocated(arch, endian, r_type, buf, off, s, a, p, got, implicit, pair_lo) is Ok,
    ensures
        relocated(arch, endian, r_type, buf + tail, off, s, a, p, got, implicit, pair_lo) == Ok::<
            Seq<u8>,
            RelocError,
        >(
            relocated(arch, endian, r_type, buf, off, s, a, p, got, implicit, pair_lo)->Ok_0 + tail,
        ),
{
    let whole = buf + tail;
    let before = relocated(arch, endian, r_type, buf, off, s, a, p, got, implicit, pair_lo)->Ok_0;
    let after = relocated(arch, endian, r_type, whole, off, s, a, p, got, implicit, pair_lo);
    reveal(x86_64_field);
    reveal(aarch64_field);
    reveal(arm_field);
    reveal(mips_field);
    assert forall|v: nat, w: nat| #[trigger] endian.digits(v, w).len() == w by {
        crate::bytes::lemma_le_round_trip(v, w);
    }
    if off + 4 <= buf.len() {
        assert(whole.subrange(off, off + 4) =~= buf.subrange(off, off + 4));
    }
    if off + 8 <= buf.len() {
        assert(whole.subrange(off, off + 8) =~= buf.subrange(off, off + 8));
    }
    assert(after is Ok);
    assert(after->Ok_0 =~= before + tail);
}

/// Relocations that succeed in a buffer do the same there when more bytes follow.
proof fn lemma_rels_extend(
    ctx: LinkView,
    plan: PlanView,
    sec: SecView,
    site: u64,
    rels: Seq<Rel>,
    buf: Seq<u8>,
    tail: Seq<u8>,
)
    requires
        ctx.rels_applied(plan, sec, site, rels, buf) is Ok,
    ensures
        ctx.rels_applied(plan, sec, site, rels, buf + tail) == Ok::<Seq<u8>, Fault<Seq<char>>>(
            ctx.rels_applied(plan, sec, site, rels, buf)->Ok_0 + tail,
        ),
    decreases rels.len(),
{
    if rels.len() > 0 {
        let rel = rels[0];
        let next = ctx.rel_applied(plan, sec, site, rel, buf)->Ok_0;
        let got = if plan.got.dom().contains(rel.sym) {
            Some(plan.got[rel.sym].0)
        } else {
            None
        };
        lemma_relocated_extends(
            ctx.machine.arch,
            ctx.machine.endian,
            rel.r_type,
            buf,
            tail,
            rel.offset as int,
            ctx.resolved(plan.va, rel.sym)->Ok_0 as int,
            if rel.has_implicit {
                0
            } else {
                rel.addend as int
            },
            wrap64(site + rel.offset) as int,
            got,
            rel.has_implicit,
            pair_low(ctx.machine, sec, rel)->Ok_0,
        );
        lemma_rels_extend(ctx, plan, sec, site, rels.drop_first(), next, tail);
    }
}

impl LinkView {
    /// The bytes of section `i` after its relocations.
    pub open spec fn final_bytes(self, plan: PlanView, i: usize) -> Result<
        Seq<u8>,
        Fault<Seq<char>>,
    > {
        let sec = self.obj.secs[i];
        self.rels_applied(plan, sec, plan.va[i], sec.relocs, sec.bytes)
    }

    /// Whether section `i` has a place in `blob`, with its own bytes there.
    spec fn holds(self, plan: PlanView, blob: Seq<u8>, i: usize) -> bool {
        let len = self.obj.secs[i].bytes.len();
        &&& 0 <= plan.off[i]
        &&& plan.off[i] + len <= blob.len()
        &&& blob.subrange(plan.off[i], plan.off[i] + len) == self.obj.secs[i].bytes
    }

    /// Whether section `i` is relocated inside the segment, in the way that `final_bytes` says.
    pub open spec fn contained(self, plan: PlanView, i: usize) -> bool {
        self.final_bytes(plan, i) is Ok
    }

    /// Whether the regions of two sections have no byte in common.
    spec fn disjoint(self, plan: PlanView, i: usize, j: usize) -> bool {
        apart(
            plan.off[i],
            self.obj.secs[i].bytes.len() as int,
            plan.off[j],
            self.obj.secs[j].bytes.len() as int,
        )
    }

    /// Whether the sections of `list` that lie in the segment stand in `blob`, unrelocated, none
    /// over another, with their relocations inside them.
    spec fn waiting(self, plan: PlanView, list: Seq<usize>, blob: Seq<u8>) -> bool {
        &&& list.no_duplicates()
        &&& forall|k: int|
            0 <= k < list.len() && !fits(self.obj.secs[#[trigger] list[k]]) ==> self.holds(
                plan,
                blob,
                list[k],
            ) && self.contained(plan, list[k])
        &&& forall|k: int, m: int|
            0 <= k < m < list.len() && !fits(self.obj.secs[#[trigger] list[k]]) && !fits(
                self.obj.secs[#[trigger] list[m]],
            ) ==> self.disjoint(plan, list[k], list[m])
    }
}

/// Relocating a section in the segment puts its final bytes in its place.
proof fn lemma_in_place(ctx: LinkView, plan: PlanView, i: usize, out: Output)
    requires
        !fits(ctx.obj.secs[i]),
        ctx.holds(plan, out.blob, i),
        ctx.contained(plan, i),
    ensures
        ctx.final_bytes(plan, i)->Ok_0.len() == ctx.obj.secs[i].bytes.len(),
        ctx.section_applied(plan, i, out) == Ok::<Output, Fault<Seq<char>>>(
            Output {
                blob: overwrite(out.blob, plan.off[i], ctx.final_bytes(plan, i)->Ok_0),
                ..out
            },
        ),
{
    let sec = ctx.obj.secs[i];
    let at = plan.off[i];
    let end = at + sec.bytes.len();
    let tail = out.blob.skip(end);
    assert(out.blob.skip(at) =~= sec.bytes + tail) by {
        assert(out.blob.skip(at) =~= out.blob.subrange(at, end) + tail);
    }
    lemma_rels_extend(ctx, plan, sec, plan.va[i], sec.relocs, sec.bytes, tail);
    lemma_rels_len(ctx, plan, sec, plan.va[i], sec.relocs, sec.bytes);
    let fresh = ctx.final_bytes(plan, i)->Ok_0;
    assert(out.blob.take(at) + (fresh + tail) =~= overwrite(out.blob, at, fresh));
}

/// What waits behind the first section still waits after that one is relocated.
proof fn lemma_waiting(ctx: LinkView, plan: PlanView, list: Seq<usize>, out: Output)
    requires
        list.len() > 0,
        ctx.waiting(plan, list, out.blob),
        ctx.section_applied(plan, list[0], out) is Ok,
    ensures
        ctx.section_applied(plan, list[0], out)->Ok_0.blob.len() == out.blob.len(),
        ctx.waiting(
            plan,
            list.drop_first(),
            ctx.section_applied(plan, list[0], out)->Ok_0.blob,
        ),
{
    let first = list[0];
    let rest = list.drop_first();
    let next = ctx.section_applied(plan, first, out)->Ok_0;
    if !fits(ctx.obj.secs[first]) {
        lemma_in_place(ctx, plan, first, out);
    }
    assert forall|k: int|
        0 <= k < rest.len() && !fits(ctx.obj.secs[#[trigger] rest[k]]) implies ctx.holds(
        plan,
        next.blob,
        rest[k],
    ) && ctx.contained(plan, rest[k]) by {
        let i = rest[k];
        assert(i == list[k + 1]);
        let at = plan.off[i];
        let end = at + ctx.obj.secs[i].bytes.len();
        if !fits(ctx.obj.secs[first]) {
            assert(ctx.disjoint(plan, list[0], list[k + 1]));
            assert(next.blob.subrange(at, end) =~= out.blob.subrange(at, end));
        }
    }
    assert forall|k: int, m: int|
        0 <= k < m < rest.len() && !fits(ctx.obj.secs[#[trigger] rest[k]]) && !fits(
            ctx.obj.secs[#[trigger] rest[m]],
        ) implies ctx.disjoint(plan, rest[k], rest[m]) by {
        assert(rest[k] == list[k + 1] && rest[m] == list[m + 1]);
    }
    assert forall|k: int, m: int| 0 <= k < rest.len() && 0 <= m < rest.len() && k != m implies rest[k]
        != rest[m] by {
        assert(rest[k] == list[k + 1] && rest[m] == list[m + 1]);
    }
}

/// A region that no section of `list` in the segment overlaps is left alone.
proof fn lemma_untouched(
    ctx: LinkView,
    plan: PlanView,
    list: Seq<usize>,
    out: Output,
    at: int,
    len: int,
)
    requires
        ctx.waiting(plan, list, out.blob),
        ctx.all_applied(plan, list, out) is Ok,
        0 <= at,
        0 <= len,
        at + len <= out.blob.len(),
        forall|k: int|
            0 <= k < list.len() && !fits(ctx.obj.secs[#[trigger] list[k]]) ==> apart(
                plan.off[list[k]],
                ctx.obj.secs[list[k]].bytes.len() as int,
                at,
                len,
            ),
    ensures
        ctx.all_applied(plan, list, out)->Ok_0.blob.len() == out.blob.len(),
        ctx.all_applied(plan, list, out)->Ok_0.blob.subrange(at, at + len) == out.blob.subrange(
            at,
            at + len,
        ),
    decreases list.len(),
{
    if list.len() > 0 {
        let rest = list.drop_first();
        let next = ctx.section_applied(plan, list[0], out)->Ok_0;
        lemma_waiting(ctx, plan, list, out);
        if !fits(ctx.obj.secs[list[0]]) {
            lemma_in_place(ctx, plan, list[0], out);
            assert(next.blob.subrange(at, at + len) =~= out.blob.subrange(at, at + len));
        }
        assert forall|k: int|
            0 <= k < rest.len() && !fits(ctx.obj.secs[#[trigger] rest[k]]) implies apart(
            plan.off[rest[k]],
            ctx.obj.secs[rest[k]].bytes.len() as int,
            at,
            len,
        ) by {
            assert(rest[k] == list[k + 1]);
        }
        lemma_untouched(ctx, plan, rest, next, at, len);
    }
}

/// Every section of `list` in the segment has its final bytes there in the end.
proof fn lemma_all_in_place(ctx: LinkView, plan: PlanView, list: Seq<usize>, out: Output, n: int)
    requires
        ctx.waiting(plan, list, out.blob),
        ctx.all_applied(plan, list, out) is Ok,
        0 <= n < list.len(),
        !fits(ctx.obj.secs[list[n]]),
    ensures
        ({
            let at = plan.off[list[n]];
            let end = at + ctx.obj.secs[list[n]].bytes.len();
            Ok::<Seq<u8>, Fault<Seq<char>>>(
                ctx.all_applied(plan, list, out)->Ok_0.blob.subrange(at, end),
            ) == ctx.final_bytes(plan, list[n])
        }),
    decreases list.len(),
{
    let rest = list.drop_first();
    let i = list[n];
    let next = ctx.section_applied(plan, list[0], out)->Ok_0;
    lemma_waiting(ctx, plan, list, out);
    if n == 0 {
        let at = plan.off[i];
        let len = ctx.obj.secs[i].bytes.len() as int;
        lemma_in_place(ctx, plan, i, out);
        assert(next.blob.subrange(at, at + len) =~= ctx.final_bytes(plan, i)->Ok_0);
        assert forall|k: int|
            0 <= k < rest.len() && !fits(ctx.obj.secs[#[trigger] rest[k]]) implies apart(
            plan.off[rest[k]],
            ctx.obj.secs[rest[k]].bytes.len() as int,
            at,
            len,
        ) by {
            assert(rest[k] == list[k + 1]);
            assert(ctx.disjoint(plan, list[0], list[k + 1]));
        }
        lemma_untouched(ctx, plan, rest, next, at, len);
    } else {
        assert(rest[n - 1] == i);
        lemma_all_in_place(ctx, plan, rest, next, n - 1);
    }
}

/// Jump patches leave the segment alone.
proof fn lemma_bridges_keep(ctx: LinkView, plan: PlanView, list: Seq<usize>, out: Output)
    requires
        ctx.all_bridged(plan, list, out) is Ok,
    ensures
        ctx.all_bridged(plan, list, out)->Ok_0.blob == out.blob,
    decreases list.len(),
{
    if list.len() > 0 {
        let next = ctx.bridged(plan, list[0], out)->Ok_0;
        lemma_bridges_keep(ctx, plan, list.drop_first(), next);
    }
}

/// The needed sections wait in the segment once the layout is done.
proof fn lemma_found_waiting(ctx: LinkView, found: Seq<usize>, blob: Seq<u8>)
    requires
        ctx.obj.well_formed(),
        ctx.obj.included() == Ok::<Seq<usize>, Fault<Seq<char>>>(found),
        ctx.laid_out(found, blob) is Ok,
        forall|k: int|
            0 <= k < found.len() && !fits(ctx.obj.secs[#[trigger] found[k]]) ==> ctx.contained(
                ctx.laid_out(found, blob)->Ok_0,
                found[k],
            ),
    ensures
        ctx.waiting(ctx.laid_out(found, blob)->Ok_0, found, ctx.laid_out(found, blob)->Ok_0.blob),
        forall|k: int|
            0 <= k < found.len() && !fits(ctx.obj.secs[#[trigger] found[k]]) ==> ctx.laid_out(
                found,
                blob,
            )->Ok_0.off.dom().contains(found[k]),
{
    let plan = ctx.laid_out(found, blob)->Ok_0;
    law_included(ctx.obj);
    lemma_laid_out(ctx, found, blob);
    law_layout(ctx, found, blob);
    lemma_ready(ctx, found, plan, plan);
    assert forall|k: int| 0 <= k < found.len() && !fits(ctx.obj.secs[#[trigger] found[k]]) implies {
        &&& plan.off.dom().contains(found[k])
        &&& ctx.holds(plan, plan.blob, found[k])
        &&& ctx.contained(plan, found[k])
    } by {
        assert(plan.off.dom().contains(found[k]));
        assert(plan.section_ok(ctx.obj, ctx.base, blob.len() as int, found[k]));
    }
    assert forall|k: int, m: int|
        0 <= k < m < found.len() && !fits(ctx.obj.secs[#[trigger] found[k]]) && !fits(
            ctx.obj.secs[#[trigger] found[m]],
        ) implies ctx.disjoint(plan, found[k], found[m]) by {
        assert(plan.off.dom().contains(found[k]));
        assert(plan.off.dom().contains(found[m]));
        assert(found[k] != found[m]);
    }
}

/// In the segment that linking leaves, every section that a splice needs, and every splice that
/// is too large for its range, stands relocated at the place that the layout gave it, and every
/// table slot holds the address of its symbol. The relocations of each must lie inside it.
pub proof fn law_segment(ctx: LinkView, out: Output)
    requires
        ctx.obj.well_formed(),
        ctx.linked(out) is Ok,
        ({
            let found = ctx.obj.included()->Ok_0;
            let plan = ctx.laid_out(found, out.blob)->Ok_0;
            forall|k: int|
                0 <= k < found.len() && !fits(ctx.obj.secs[#[trigger] found[k]]) ==> ctx.contained(
                    plan,
                    found[k],
                )
        }),
    ensures
        ({
            let found = ctx.obj.included()->Ok_0;
            let plan = ctx.laid_out(found, out.blob)->Ok_0;
            let blob = ctx.linked(out)->Ok_0.blob;
            let width = pointer_width(ctx.machine.is_64);
            &&& forall|k: int|
                0 <= k < found.len() && !fits(ctx.obj.secs[#[trigger] found[k]]) ==> Ok::<
                    Seq<u8>,
                    Fault<Seq<char>>,
                >(
                    blob.subrange(
                        plan.off[found[k]],
                        plan.off[found[k]] + ctx.obj.secs[found[k]].bytes.len(),
                    ),
                ) == ctx.final_bytes(plan, found[k])
            &&& forall|s: usize| #[trigger]
                plan.got.dom().contains(s) ==> ctx.resolved(plan.va, s) is Ok && uint_at(
                    ctx.machine.endian,
                    blob,
                    plan.got[s].1,
                    width as int,
                ) == ctx.resolved(plan.va, s)->Ok_0 as nat % pow256(width)
        }),
{
    let obj = ctx.obj;
    let found = obj.included()->Ok_0;
    let plan = ctx.laid_out(found, out.blob)->Ok_0;
    let start = Output { blob: plan.blob, ..out };
    let mid = ctx.all_applied(plan, found, start)->Ok_0;
    let blob = ctx.linked(out)->Ok_0.blob;
    let width = pointer_width(ctx.machine.is_64) as int;
    lemma_found_waiting(ctx, found, out.blob);
    law_layout(ctx, found, out.blob);
    lemma_bridges_keep(ctx, plan, oversized(obj, obj.splices()), mid);
    assert(blob == mid.blob);
    assert forall|k: int| 0 <= k < found.len() && !fits(obj.secs[#[trigger] found[k]]) implies Ok::<
        Seq<u8>,
        Fault<Seq<char>>,
    >(blob.subrange(plan.off[found[k]], plan.off[found[k]] + obj.secs[found[k]].bytes.len()))
        == ctx.final_bytes(plan, found[k]) by {
        lemma_all_in_place(ctx, plan, found, start, k);
    }
    assert forall|s: usize| #[trigger] plan.got.dom().contains(s) implies ctx.resolved(plan.va, s) is Ok
        && uint_at(ctx.machine.endian, blob, plan.got[s].1, width) == ctx.resolved(
        plan.va,
        s,
    )->Ok_0 as nat % pow256(width as nat) by {
        let at = plan.got[s].1;
        assert(plan.slot_ok(ctx.base, out.blob.len() as int, width, s));
        assert forall|k: int|
            0 <= k < found.len() && !fits(obj.secs[#[trigger] found[k]]) implies apart(
            plan.off[found[k]],
            obj.secs[found[k]].bytes.len() as int,
            at,
            width,
        ) by {
            assert(plan.off.dom().contains(found[k]));
        }
        lemma_untouched(ctx, plan, found, start, at, width);
    }
}

/// The jump of a splice that is too large for its range lands on the relocated code of the
/// splice, behind what the segment held before.
pub proof fn law_trampoline(ctx: LinkView, out: Output, i: usize, p: PatchView)
    requires
        ctx.obj.well_formed(),
        ctx.linked(out) is Ok,
        ({
            let found = ctx.obj.included()->Ok_0;
            let plan = ctx.laid_out(found, out.blob)->Ok_0;
            &&& forall|k: int|
                0 <= k < found.len() && !fits(ctx.obj.secs[#[trigger] found[k]]) ==> ctx.contained(
                    plan,
                    found[k],
                )
            &&& ctx.is_patch_of(plan, i, p)
        }),
        ctx.obj.splices().contains(i),
        p.trampoline,
    ensures
        ({
            let plan = ctx.laid_out(ctx.obj.included()->Ok_0, out.blob)->Ok_0;
            let blob = ctx.linked(out)->Ok_0.blob;
            let at = plan.off[i];
            &&& jump_target(ctx.machine, p.code, p.begin) == ctx.base + at
            &&& out.blob.len() <= at
            &&& Ok::<Seq<u8>, Fault<Seq<char>>>(
                blob.subrange(at, at + ctx.obj.secs[i].bytes.len()),
            ) == ctx.final_bytes(plan, i)
        }),
{
    let found = ctx.obj.included()->Ok_0;
    let splices = ctx.obj.splices();
    let plan = ctx.laid_out(found, out.blob)->Ok_0;
    law_segment(ctx, out);
    law_included(ctx.obj);
    law_layout(ctx, found, out.blob);
    lemma_found_waiting(ctx, found, out.blob);
    let m = choose|m: int| 0 <= m < splices.len() && splices[m] == i;
    assert(found.take(splices.len() as int)[m] == found[m]);
    assert(found[m] == i);
    assert(plan.off.dom().contains(i));
    assert(plan.section_ok(ctx.obj, ctx.base, out.blob.len() as int, i));
    law_jump_lands(ctx.machine, p.begin, plan.va[i]);
}

} // verus!
