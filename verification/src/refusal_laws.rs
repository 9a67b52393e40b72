//! Linking is refused only for a cause in the object, the target, or the room there is.
use crate::arch::{pointer_width, uses_got};
use crate::bind_laws::{lemma_all_slots, lemma_lacks_slot};
use crate::binary::law_round_up;
use crate::closure::{law_included, lemma_reaches_on, lemma_roots};
use crate::error::{Fault, Machine};
use crate::field_laws::{indirect, supported};
use crate::image::lookup;
use crate::jump::{jump, law_jump_opcode};
use crate::layout_laws::{lemma_all_placed_slots, lemma_laid_out, lemma_stages};
use crate::link::{
    bad_range, fits, lemma_good_ranges, lemma_oversized, lemma_ready, oversized, pair_low, LinkView, Output,
};
use crate::model::{ObjView, Rel, SecView};
use crate::plan::{
    all_placed, all_slotted, lemma_all_placed, lemma_all_slotted, placed, rels_slotted, sec_align,
    slotted, PlanView,
};
use crate::reloc::{aarch64_field, arm_field, mips_field, relocated, x86_64_field, RelocError};
use crate::word::wrap64;
use vstd::prelude::*;

verus! {

/// Room for the sections of `list`, each with padding up to its alignment.
pub open spec fn room(obj: ObjView, list: Seq<usize>) -> int
    decreases list.len(),
{
    if list.len() == 0 {
        0
    } else {
        let sec = obj.secs[list[0]];
        sec.bytes.len() + (if sec.align == 0 {
            1
        } else {
            sec.align as int
        }) + room(obj, list.drop_first())
    }
}

/// How many relocations the sections of `list` have.
pub open spec fn references(obj: ObjView, list: Seq<usize>) -> int
    decreases list.len(),
{
    if list.len() == 0 {
        0
    } else {
        obj.secs[list[0]].relocs.len() + references(obj, list.drop_first())
    }
}

impl LinkView {
    /// Whether `size` bytes of segment have no addresses, or no place in memory.
    pub open spec fn too_large(self, size: int) -> bool {
        size > usize::MAX || self.base + size > u64::MAX
    }

    /// Whether a needed section refers to symbol `sym`.
    pub open spec fn mentions(self, sym: usize) -> bool {
        exists|i: usize, k: int|
            self.obj.reaches(i) && 0 <= k < self.obj.secs[i].relocs.len() && (
            #[trigger] self.obj.secs[i].relocs[k]).sym == sym
    }

    /// Whether `f` tells why a symbol has no address: it was not read, or it is left to a target
    /// whose symbols cannot be read or that does not have it.
    pub open spec fn unresolvable(self, sym: usize, f: Fault<Seq<char>>) -> bool {
        if !self.obj.syms.dom().contains(sym) {
            f == (Fault::<Seq<char>>::UnknownSymbol { symbol: sym })
        } else {
            let s = self.obj.syms[sym];
            &&& s.section is None
            &&& s.undefined
            &&& match self.externals {
                Err(g) => f == g,
                Ok(tables) => f == (Fault::Unresolved { name: s.name }) && lookup(
                    tables,
                    self.machine.arch,
                    s.name,
                ) is None,
            }
        }
    }

    /// Whether `f` tells why the `k`-th relocation of section `i` cannot be applied. It is never
    /// for want of a table slot, and of an unknown type only where the type is none that there is.
    pub open spec fn inapplicable(self, i: usize, k: int, f: Fault<Seq<char>>) -> bool {
        let rel = self.obj.secs[i].relocs[k];
        f matches Fault::Relocation { symbol_name, section, why } && section
            == self.obj.secs[i].name && symbol_name == self.obj.syms[rel.sym].name && !(why matches RelocError::MissingSlot { .. })
            && (why matches RelocError::Unsupported { r_type, .. } ==> r_type == rel.r_type
            && !supported(self.machine.arch, r_type))
    }

    /// Whether `f` tells why no jump can be written over the range of splice `i`, whose code does
    /// not fit it and lies at `to`: it does not reach so far, or does not fit either.
    pub open spec fn unbridgeable(self, i: usize, to: u64, f: Fault<Seq<char>>) -> bool {
        self.obj.secs[i].splice matches Some((begin, end)) && self.obj.secs[i].bytes.len() > end
            - begin && match jump(self.machine, begin, to) {
            Err(g) => f == g,
            Ok(code) => code.len() > end - begin && f == (Fault::<Seq<char>>::SmallRegion {
                begin,
                end,
                jump_len: code.len() as usize,
            }),
        }
    }
}

proof fn lemma_bad_range(obj: ObjView, list: Seq<usize>)
    ensures
        bad_range(obj, list) matches Some((begin, end)) ==> end < begin && exists|k: int|
            0 <= k < list.len() && obj.secs[#[trigger] list[k]].splice == Some((begin, end)),
    decreases list.len(),
{
    if list.len() > 0 {
        let rest = list.drop_first();
        lemma_bad_range(obj, rest);
        if let Some((begin, end)) = bad_range(obj, list) {
            if obj.secs[list[0]].splice == Some((begin, end)) && end < begin {
            } else {
                let k = choose|k: int|
                    0 <= k < rest.len() && obj.secs[#[trigger] rest[k]].splice == Some(
                        (begin, end),
                    );
                assert(list[k + 1] == rest[k]);
            }
        }
    }
}

proof fn lemma_room(obj: ObjView, list: Seq<usize>)
    ensures
        room(obj, list) >= 0,
        references(obj, list) >= 0,
    decreases list.len(),
{
    if list.len() > 0 {
        lemma_room(obj, list.drop_first());
    }
}

proof fn lemma_placing(ctx: LinkView, list: Seq<usize>, plan: PlanView)
    ensures
        match all_placed(ctx.obj, list, ctx.base, plan) {
            Ok(end) => end.blob.len() <= plan.blob.len() + room(ctx.obj, list),
            Err(f) => (f == Fault::<Seq<char>>::AddressOverflow && ctx.too_large(
                plan.blob.len() + room(ctx.obj, list),
            )) || exists|k: int|
                0 <= k < list.len() && ctx.obj.secs[#[trigger] list[k]].writable && f == (
                Fault::WritableSection { name: ctx.obj.secs[list[k]].name }),
        },
    decreases list.len(),
{
    lemma_room(ctx.obj, list);
    if list.len() > 0 {
        let sec = ctx.obj.secs[list[0]];
        let rest = list.drop_first();
        lemma_room(ctx.obj, rest);
        law_round_up(plan.blob.len() as int, sec_align(sec) as int);
        match placed(sec, list[0], ctx.base, plan) {
            Err(f) => {
                if sec.writable {
                    assert(ctx.obj.secs[list[0]].writable);
                }
            },
            Ok(next) => {
                lemma_placing(ctx, rest, next);
                if let Err(f) = all_placed(ctx.obj, rest, ctx.base, next) {
                    if f != Fault::<Seq<char>>::AddressOverflow {
                        let k = choose|k: int|
                            0 <= k < rest.len() && ctx.obj.secs[#[trigger] rest[k]].writable && f
                                == (Fault::WritableSection { name: ctx.obj.secs[rest[k]].name });
                        assert(list[k + 1] == rest[k]);
                    }
                }
            },
        }
    }
}

proof fn lemma_slotting_rels(ctx: LinkView, rels: Seq<Rel>, plan: PlanView)
    ensures
        match rels_slotted(rels, ctx.machine, ctx.base, plan) {
            Ok(end) => end.blob.len() <= plan.blob.len() + 16 * rels.len(),
            Err(f) => f == Fault::<Seq<char>>::AddressOverflow && ctx.too_large(
                plan.blob.len() as int + 16 * rels.len(),
            ),
        },
    decreases rels.len(),
{
    if rels.len() > 0 {
        law_round_up(plan.blob.len() as int, pointer_width(ctx.machine.is_64) as int);
        if let Ok(next) = slotted(rels[0], ctx.machine, ctx.base, plan) {
            lemma_slotting_rels(ctx, rels.drop_first(), next);
        }
    }
}

proof fn lemma_slotting(ctx: LinkView, list: Seq<usize>, plan: PlanView)
    ensures
        match all_slotted(ctx.obj, list, ctx.machine, ctx.base, plan) {
            Ok(end) => true,
            Err(f) => f == Fault::<Seq<char>>::AddressOverflow && ctx.too_large(
                plan.blob.len() + 16 * references(ctx.obj, list),
            ),
        },
    decreases list.len(),
{
    if list.len() > 0 {
        let rels = ctx.obj.secs[list[0]].relocs;
        let rest = list.drop_first();
        lemma_room(ctx.obj, rest);
        lemma_slotting_rels(ctx, rels, plan);
        if let Ok(next) = rels_slotted(rels, ctx.machine, ctx.base, plan) {
            lemma_slotting(ctx, rest, next);
        }
    }
}

proof fn lemma_filling(ctx: LinkView, syms: Seq<usize>, plan: PlanView)
    ensures
        ctx.all_filled(syms, plan) matches Err(f) ==> exists|k: int|
            0 <= k < syms.len() && ctx.resolved(plan.va, #[trigger] syms[k]) == Err::<
                u64,
                Fault<Seq<char>>,
            >(f),
    decreases syms.len(),
{
    if syms.len() > 0 {
        let rest = syms.drop_first();
        match ctx.filled(syms[0], plan) {
            Err(f) => {
                assert(ctx.resolved(plan.va, syms[0]) == Err::<u64, Fault<Seq<char>>>(f));
            },
            Ok(next) => {
                lemma_filling(ctx, rest, next);
                if let Err(f) = ctx.all_filled(rest, next) {
                    let k = choose|k: int|
                        0 <= k < rest.len() && ctx.resolved(next.va, #[trigger] rest[k]) == Err::<
                            u64,
                            Fault<Seq<char>>,
                        >(f);
                    assert(syms[k + 1] == rest[k]);
                }
            },
        }
    }
}

/// A symbol that a needed section refers to is never missing for want of a place for its section.
proof fn lemma_resolving(
    ctx: LinkView,
    found: Seq<usize>,
    va: Map<usize, u64>,
    sym: usize,
    f: Fault<Seq<char>>,
)
    requires
        ctx.obj.well_formed(),
        ctx.obj.included() == Ok::<Seq<usize>, Fault<Seq<char>>>(found),
        forall|k: int| 0 <= k < found.len() ==> va.dom().contains(#[trigger] found[k]),
        ctx.mentions(sym),
        ctx.resolved(va, sym) == Err::<u64, Fault<Seq<char>>>(f),
    ensures
        ctx.unresolvable(sym, f),
{
    law_included(ctx.obj);
    if ctx.obj.syms.dom().contains(sym) {
        if let Some(j) = ctx.obj.syms[sym].section {
            let (i, k) = choose|i: usize, k: int|
                ctx.obj.reaches(i) && 0 <= k < ctx.obj.secs[i].relocs.len() && (
                #[trigger] ctx.obj.secs[i].relocs[k]).sym == sym;
            assert(found.contains(i));
            assert(ctx.obj.section_of(ctx.obj.secs[i].relocs[k].sym) == Some(j));
            assert(ctx.obj.refers(i, j));
            lemma_reaches_on(ctx.obj, i, j);
            assert(found.contains(j));
            let n = choose|n: int| 0 <= n < found.len() && found[n] == j;
            assert(va.dom().contains(found[n]));
        }
    }
}

/// Why a relocation is refused as of an unknown type.
proof fn lemma_unsupported(
    machine: Machine,
    r_type: u32,
    buf: Seq<u8>,
    off: int,
    s: int,
    a: int,
    p: int,
    got: Option<u64>,
    implicit: bool,
    pair_lo: Option<i64>,
)
    ensures
        relocated(
            machine.arch,
            machine.endian,
            r_type,
            buf,
            off,
            s,
            a,
            p,
            got,
            implicit,
            pair_lo,
        ) matches Err(RelocError::Unsupported { r_type: told, .. }) ==> told == r_type && !supported(
            machine.arch,
            r_type,
        ),
{
    reveal(x86_64_field);
    reveal(aarch64_field);
    reveal(arm_field);
    reveal(mips_field);
}

proof fn lemma_applying_one(
    ctx: LinkView,
    plan: PlanView,
    i: usize,
    k: int,
    site: u64,
    buf: Seq<u8>,
    f: Fault<Seq<char>>,
)
    requires
        0 <= k < ctx.obj.secs[i].relocs.len(),
        uses_got(ctx.machine.arch, ctx.obj.secs[i].relocs[k].r_type) ==> plan.got.dom().contains(
            ctx.obj.secs[i].relocs[k].sym,
        ),
        ctx.rel_applied(plan, ctx.obj.secs[i], site, ctx.obj.secs[i].relocs[k], buf) == Err::<
            Seq<u8>,
            Fault<Seq<char>>,
        >(f),
    ensures
        ctx.inapplicable(i, k, f) || ctx.resolved(plan.va, ctx.obj.secs[i].relocs[k].sym) == Err::<
            u64,
            Fault<Seq<char>>,
        >(f),
{
    let sec = ctx.obj.secs[i];
    let rel = sec.relocs[k];
    if let Ok(s) = ctx.resolved(plan.va, rel.sym) {
        let a = if rel.has_implicit {
            0
        } else {
            rel.addend as int
        };
        let got = if plan.got.dom().contains(rel.sym) {
            Some(plan.got[rel.sym].0)
        } else {
            None
        };
        if let Ok(pair) = pair_low(ctx.machine, sec, rel) {
            let p = wrap64(site + rel.offset) as int;
            lemma_lacks_slot(
                ctx.machine,
                rel.r_type,
                buf,
                rel.offset as int,
                s as int,
                a,
                p,
                got,
                rel.has_implicit,
                pair,
            );
            lemma_unsupported(
                ctx.machine,
                rel.r_type,
                buf,
                rel.offset as int,
                s as int,
                a,
                p,
                got,
                rel.has_implicit,
                pair,
            );
        }
    }
}

proof fn lemma_applying_rels(
    ctx: LinkView,
    plan: PlanView,
    i: usize,
    from: int,
    site: u64,
    buf: Seq<u8>,
    f: Fault<Seq<char>>,
) -> (k: int)
    requires
        0 <= from <= ctx.obj.secs[i].relocs.len(),
        forall|k: int|
            0 <= k < ctx.obj.secs[i].relocs.len() && uses_got(
                ctx.machine.arch,
                (#[trigger] ctx.obj.secs[i].relocs[k]).r_type,
            ) ==> plan.got.dom().contains(ctx.obj.secs[i].relocs[k].sym),
        ctx.rels_applied(
            plan,
            ctx.obj.secs[i],
            site,
            ctx.obj.secs[i].relocs.skip(from),
            buf,
        ) == Err::<Seq<u8>, Fault<Seq<char>>>(f),
    ensures
        0 <= k < ctx.obj.secs[i].relocs.len(),
        ctx.inapplicable(i, k, f) || ctx.resolved(plan.va, ctx.obj.secs[i].relocs[k].sym) == Err::<
            u64,
            Fault<Seq<char>>,
        >(f),
    decreases ctx.obj.secs[i].relocs.len() - from,
{
    let sec = ctx.obj.secs[i];
    let rels = sec.relocs.skip(from);
    assert(rels.len() > 0);
    assert(rels[0] == sec.relocs[from]);
    assert(rels.drop_first() =~= sec.relocs.skip(from + 1));
    match ctx.rel_applied(plan, sec, site, sec.relocs[from], buf) {
        Err(g) => {
            lemma_applying_one(ctx, plan, i, from, site, buf, g);
            from
        },
        Ok(next) => lemma_applying_rels(ctx, plan, i, from + 1, site, next, f),
    }
}

proof fn lemma_applying(
    ctx: LinkView,
    plan: PlanView,
    list: Seq<usize>,
    out: Output,
    f: Fault<Seq<char>>,
) -> (r: (int, int))
    requires
        forall|n: int, k: int|
            0 <= n < list.len() && 0 <= k < ctx.obj.secs[list[n]].relocs.len() && uses_got(
                ctx.machine.arch,
                (#[trigger] ctx.obj.secs[list[n]].relocs[k]).r_type,
            ) ==> plan.got.dom().contains(ctx.obj.secs[list[n]].relocs[k].sym),
        ctx.all_applied(plan, list, out) == Err::<Output, Fault<Seq<char>>>(f),
    ensures
        0 <= r.0 < list.len(),
        0 <= r.1 < ctx.obj.secs[list[r.0]].relocs.len(),
        ctx.inapplicable(list[r.0], r.1, f) || ctx.resolved(
            plan.va,
            ctx.obj.secs[list[r.0]].relocs[r.1].sym,
        ) == Err::<u64, Fault<Seq<char>>>(f),
    decreases list.len(),
{
    assert(list.len() > 0);
    let i = list[0];
    let sec = ctx.obj.secs[i];
    let site = plan.va[i];
    assert(sec.relocs.skip(0) =~= sec.relocs);
    match ctx.section_applied(plan, i, out) {
        Err(g) => {
            let buf = if fits(sec) {
                sec.bytes
            } else {
                out.blob.skip(plan.off[i])
            };
            let k = lemma_applying_rels(ctx, plan, i, 0, site, buf, g);
            (0, k)
        },
        Ok(next) => {
            let rest = list.drop_first();
            assert forall|n: int, k: int|
                0 <= n < rest.len() && 0 <= k < ctx.obj.secs[rest[n]].relocs.len() && uses_got(
                    ctx.machine.arch,
                    (#[trigger] ctx.obj.secs[rest[n]].relocs[k]).r_type,
                ) implies plan.got.dom().contains(ctx.obj.secs[rest[n]].relocs[k].sym) by {
                assert(rest[n] == list[n + 1]);
                assert(uses_got(ctx.machine.arch, ctx.obj.secs[list[n + 1]].relocs[k].r_type));
            }
            let (n, k) = lemma_applying(ctx, plan, rest, next, f);
            assert(rest[n] == list[n + 1]);
            (n + 1, k)
        },
    }
}

proof fn lemma_bridging(
    ctx: LinkView,
    plan: PlanView,
    list: Seq<usize>,
    out: Output,
    f: Fault<Seq<char>>,
) -> (n: int)
    requires
        forall|k: int|
            0 <= k < list.len() ==> (ctx.obj.secs[#[trigger] list[k]].splice matches Some(
                (begin, end),
            ) && ctx.obj.secs[list[k]].bytes.len() > end - begin),
        ctx.all_bridged(plan, list, out) == Err::<Output, Fault<Seq<char>>>(f),
    ensures
        0 <= n < list.len(),
        ctx.unbridgeable(list[n], plan.va[list[n]], f),
    decreases list.len(),
{
    assert(list.len() > 0);
    assert(ctx.obj.secs[list[0]].splice is Some);
    match ctx.bridged(plan, list[0], out) {
        Err(_) => 0,
        Ok(next) => {
            let rest = list.drop_first();
            assert forall|k: int| 0 <= k < rest.len() implies (
            ctx.obj.secs[#[trigger] rest[k]].splice matches Some((begin, end))
                && ctx.obj.secs[rest[k]].bytes.len() > end - begin) by {
                assert(rest[k] == list[k + 1]);
            }
            let n = lemma_bridging(ctx, plan, rest, next, f);
            n + 1
        },
    }
}

/// Laying an object out is refused only for a section that must be writable, for want of room, or
/// for a symbol without an address.
proof fn lemma_layout_refused(ctx: LinkView, found: Seq<usize>, blob: Seq<u8>, f: Fault<Seq<char>>)
    requires
        ctx.obj.well_formed(),
        ctx.obj.included() == Ok::<Seq<usize>, Fault<Seq<char>>>(found),
        ctx.laid_out(found, blob) == Err::<PlanView, Fault<Seq<char>>>(f),
    ensures
        ({
            ||| exists|i: usize| #[trigger]
                ctx.obj.reaches(i) && ctx.obj.secs[i].writable && f == (Fault::WritableSection {
                    name: ctx.obj.secs[i].name,
                })
            ||| f == Fault::<Seq<char>>::AddressOverflow && ctx.too_large(
                blob.len() + room(ctx.obj, ctx.placing_order(found)) + 16 * references(
                    ctx.obj,
                    found,
                ),
            )
            ||| exists|sym: usize| ctx.mentions(sym) && #[trigger] ctx.unresolvable(sym, f)
        }),
{
    let obj = ctx.obj;
    let splices = obj.splices();
    let needed = found.skip(splices.len() as int);
    let over = oversized(obj, splices);
    let list = ctx.placing_order(found);
    let start = ctx.start(blob);
    let width = pointer_width(ctx.machine.is_64);
    law_included(obj);
    lemma_roots(obj);
    lemma_oversized(obj, splices);
    lemma_room(obj, list);
    lemma_room(obj, found);
    lemma_placing(ctx, list, start);
    match all_placed(obj, list, ctx.base, start) {
        Err(_) => {
            if f != Fault::<Seq<char>>::AddressOverflow {
                let k = choose|k: int|
                    0 <= k < list.len() && obj.secs[#[trigger] list[k]].writable && f == (
                    Fault::WritableSection { name: obj.secs[list[k]].name });
                let i = list[k];
                assert(obj.reaches(i)) by {
                    if k < needed.len() {
                        assert(found[splices.len() + k] == i);
                        assert(found.contains(i));
                    } else {
                        assert(over[k - needed.len()] == i);
                        assert(over.contains(i));
                        let m = choose|m: int| 0 <= m < splices.len() && splices[m] == i;
                        assert(found.take(splices.len() as int)[m] == found[m]);
                        assert(found.contains(i));
                    }
                }
            }
        },
        Ok(first) => {
            lemma_slotting(ctx, found, first);
            if let Ok(second) = all_slotted(obj, found, ctx.machine, ctx.base, first) {
                lemma_all_placed(obj, list, ctx.base, start, width);
                lemma_all_slotted(obj, found, ctx.machine, ctx.base, first);
                lemma_all_slots(obj, found, ctx.machine, ctx.base, first);
                lemma_all_placed_slots(obj, list, ctx.base, start);
                lemma_filling(ctx, second.got_order, second);
                let k = choose|k: int|
                    0 <= k < second.got_order.len() && ctx.resolved(
                        second.va,
                        #[trigger] second.got_order[k],
                    ) == Err::<u64, Fault<Seq<char>>>(f);
                let sym = second.got_order[k];
                assert(second.got.dom().contains(second.got_order[k]));
                let (n, r) = choose|n: int, r: int|
                    0 <= n < found.len() && 0 <= r < obj.secs[found[n]].relocs.len() && uses_got(
                        ctx.machine.arch,
                        (#[trigger] obj.secs[found[n]].relocs[r]).r_type,
                    ) && obj.secs[found[n]].relocs[r].sym == sym;
                assert(found.contains(found[n]));
                assert(obj.reaches(found[n]) && obj.secs[found[n]].relocs[r].sym == sym);
                assert(ctx.mentions(sym));
                lemma_ready(ctx, found, second, first);
                lemma_resolving(ctx, found, second.va, sym, f);
            }
        },
    }
}

/// Linking an object is refused only where
/// - a needed section is none that the object has,
/// - the range of a splice ends before it begins,
/// - a needed section must be writable,
/// - the segment would be too large for memory or for the addresses from its base on,
/// - a symbol that a needed section refers to has no address, in the object or in the target,
/// - a relocation of a needed section is of no known type or cannot express what it must,
/// - or no jump fits the range of replacement code that is too long for it, or reaches the code.
///
/// In particular a symbol in a section is never without an address, nor an indirect reference
/// without a table slot.
pub proof fn law_justified(ctx: LinkView, out: Output, f: Fault<Seq<char>>)
    requires
        ctx.obj.well_formed(),
        ctx.linked(out) == Err::<Output, Fault<Seq<char>>>(f),
    ensures
        ({
            let found = ctx.obj.included()->Ok_0;
            let plan = ctx.laid_out(found, out.blob)->Ok_0;
            ||| f matches Fault::UnknownSection { index } && ctx.obj.reaches(index)
                && !ctx.obj.secs.dom().contains(index)
            ||| f matches Fault::InvalidRange { begin, end } && end < begin && exists|i: usize|
                ctx.obj.secs.dom().contains(i) && (#[trigger] ctx.obj.secs[i]).splice == Some(
                    (begin, end),
                )
            ||| exists|i: usize| #[trigger]
                ctx.obj.reaches(i) && ctx.obj.secs[i].writable && f == (Fault::WritableSection {
                    name: ctx.obj.secs[i].name,
                })
            ||| f == Fault::<Seq<char>>::AddressOverflow && ctx.too_large(
                out.blob.len() + room(ctx.obj, ctx.placing_order(found)) + 16 * references(
                    ctx.obj,
                    found,
                ),
            )
            ||| exists|sym: usize| ctx.mentions(sym) && #[trigger] ctx.unresolvable(sym, f)
            ||| exists|i: usize, k: int|
                ctx.obj.reaches(i) && 0 <= k < ctx.obj.secs[i].relocs.len()
                    && #[trigger] ctx.inapplicable(i, k, f)
            ||| exists|i: usize|
                ctx.obj.secs.dom().contains(i) && #[trigger] ctx.unbridgeable(i, plan.va[i], f)
        }),
{
    let obj = ctx.obj;
    let splices = obj.splices();
    law_included(obj);
    lemma_roots(obj);
    if let Ok(found) = obj.included() {
        lemma_bad_range(obj, splices);
        match bad_range(obj, splices) {
            Some((begin, end)) => {
                let k = choose|k: int|
                    0 <= k < splices.len() && obj.secs[#[trigger] splices[k]].splice == Some(
                        (begin, end),
                    );
                assert(splices.contains(splices[k]));
                assert(obj.secs.dom().contains(splices[k]));
            },
            None => match ctx.laid_out(found, out.blob) {
                Err(_) => lemma_layout_refused(ctx, found, out.blob, f),
                Ok(plan) => lemma_output_refused(ctx, found, out, plan, f),
            },
        }
    }
}

/// Once an object is laid out, linking it is refused only for a symbol, a relocation or a jump.
proof fn lemma_output_refused(
    ctx: LinkView,
    found: Seq<usize>,
    out: Output,
    plan: PlanView,
    f: Fault<Seq<char>>,
)
    requires
        ctx.obj.well_formed(),
        ctx.obj.included() == Ok::<Seq<usize>, Fault<Seq<char>>>(found),
        bad_range(ctx.obj, ctx.obj.splices()) is None,
        ctx.laid_out(found, out.blob) == Ok::<PlanView, Fault<Seq<char>>>(plan),
        ctx.linked(out) == Err::<Output, Fault<Seq<char>>>(f),
    ensures
        ({
            ||| exists|sym: usize| ctx.mentions(sym) && #[trigger] ctx.unresolvable(sym, f)
            ||| exists|i: usize, k: int|
                ctx.obj.reaches(i) && 0 <= k < ctx.obj.secs[i].relocs.len()
                    && #[trigger] ctx.inapplicable(i, k, f)
            ||| exists|i: usize|
                ctx.obj.secs.dom().contains(i) && #[trigger] ctx.unbridgeable(i, plan.va[i], f)
        }),
{
    let obj = ctx.obj;
    let splices = obj.splices();
    let over = oversized(obj, splices);
    let list = ctx.placing_order(found);
    let first = all_placed(obj, list, ctx.base, ctx.start(out.blob))->Ok_0;
    law_included(obj);
    lemma_roots(obj);
    lemma_stages(ctx, found, out.blob);
    lemma_laid_out(ctx, found, out.blob);
    lemma_all_slots(obj, found, ctx.machine, ctx.base, first);
    lemma_ready(ctx, found, plan, plan);
    let start = Output { blob: plan.blob, ..out };
    match ctx.all_applied(plan, found, start) {
        Err(_) => {
            let (n, k) = lemma_applying(ctx, plan, found, start, f);
            let i = found[n];
            assert(found.contains(i));
            let sym = obj.secs[i].relocs[k].sym;
            if !ctx.inapplicable(i, k, f) {
                assert(obj.reaches(i) && obj.secs[i].relocs[k].sym == sym);
                assert(ctx.mentions(sym));
                lemma_resolving(ctx, found, plan.va, sym, f);
            }
        },
        Ok(next) => {
            lemma_good_ranges(obj, splices);
            lemma_oversized(obj, splices);
            assert forall|k: int| 0 <= k < over.len() implies (
            obj.secs[#[trigger] over[k]].splice matches Some((begin, end))
                && obj.secs[over[k]].bytes.len() > end - begin) by {
                assert(over.contains(over[k]));
                assert(splices.contains(over[k]));
                let m = choose|m: int| 0 <= m < splices.len() && splices[m] == over[k];
                assert(splices[m] == over[k]);
            }
            let n = lemma_bridging(ctx, plan, over, next, f);
            assert(over.contains(over[n]));
            assert(splices.contains(over[n]));
        },
    }
}

proof fn lemma_first_bad_range(obj: ObjView, list: Seq<usize>, k: int)
    requires
        0 <= k < list.len(),
        obj.secs[list[k]].splice matches Some((begin, end)) && end < begin,
        forall|j: int|
            0 <= j < k ==> (obj.secs[#[trigger] list[j]].splice matches Some((begin, end)) ==> begin
                <= end),
    ensures
        bad_range(obj, list) == obj.secs[list[k]].splice,
    decreases k,
{
    if k > 0 {
        let rest = list.drop_first();
        assert(obj.secs[list[0]].splice matches Some((begin, end)) ==> begin <= end);
        assert(rest[k - 1] == list[k]);
        assert forall|j: int| 0 <= j < k - 1 implies (
        obj.secs[#[trigger] rest[j]].splice matches Some((begin, end)) ==> begin <= end) by {
            assert(rest[j] == list[j + 1]);
        }
        lemma_first_bad_range(obj, rest, k - 1);
    }
}

/// An object with a splice whose range ends before it begins is refused, before anything is laid
/// out, with the first such range.
pub proof fn law_bad_range_refused(ctx: LinkView, out: Output, k: int, begin: u64, end: u64)
    requires
        ctx.obj.included() is Ok,
        0 <= k < ctx.obj.splices().len(),
        ctx.obj.secs[ctx.obj.splices()[k]].splice == Some((begin, end)),
        end < begin,
        forall|j: int|
            0 <= j < k ==> (ctx.obj.secs[#[trigger] ctx.obj.splices()[j]].splice matches Some((b, e))
                ==> b <= e),
    ensures
        ctx.linked(out) == Err::<Output, Fault<Seq<char>>>(Fault::InvalidRange { begin, end }),
{
    lemma_first_bad_range(ctx.obj, ctx.obj.splices(), k);
}

/// A relocation that is applied is of a known type, and has the slot that it needs.
proof fn lemma_applied_is_known(
    ctx: LinkView,
    plan: PlanView,
    sec: SecView,
    site: u64,
    rel: Rel,
    buf: Seq<u8>,
)
    requires
        ctx.rel_applied(plan, sec, site, rel, buf) is Ok,
    ensures
        supported(ctx.machine.arch, rel.r_type),
        ctx.resolved(plan.va, rel.sym) is Ok,
        indirect(ctx.machine.arch, rel.r_type) ==> plan.got.dom().contains(rel.sym),
        rel.offset + 4 <= buf.len(),
{
    reveal(x86_64_field);
    reveal(aarch64_field);
    reveal(arm_field);
    reveal(mips_field);
}

proof fn lemma_all_rels_known(
    ctx: LinkView,
    plan: PlanView,
    sec: SecView,
    site: u64,
    rels: Seq<Rel>,
    buf: Seq<u8>,
    k: int,
)
    requires
        ctx.rels_applied(plan, sec, site, rels, buf) is Ok,
        0 <= k < rels.len(),
    ensures
        supported(ctx.machine.arch, rels[k].r_type),
        ctx.resolved(plan.va, rels[k].sym) is Ok,
        indirect(ctx.machine.arch, rels[k].r_type) ==> plan.got.dom().contains(rels[k].sym),
    decreases rels.len(),
{
    let next = ctx.rel_applied(plan, sec, site, rels[0], buf)->Ok_0;
    if k == 0 {
        lemma_applied_is_known(ctx, plan, sec, site, rels[0], buf);
    } else {
        assert(rels.drop_first()[k - 1] == rels[k]);
        lemma_all_rels_known(ctx, plan, sec, site, rels.drop_first(), next, k - 1);
    }
}

proof fn lemma_all_sections_known(
    ctx: LinkView,
    plan: PlanView,
    list: Seq<usize>,
    out: Output,
    n: int,
    k: int,
)
    requires
        ctx.all_applied(plan, list, out) is Ok,
        0 <= n < list.len(),
        0 <= k < ctx.obj.secs[list[n]].relocs.len(),
    ensures
        ({
            let rel = ctx.obj.secs[list[n]].relocs[k];
            &&& supported(ctx.machine.arch, rel.r_type)
            &&& ctx.resolved(plan.va, rel.sym) is Ok
            &&& indirect(ctx.machine.arch, rel.r_type) ==> plan.got.dom().contains(rel.sym)
        }),
    decreases list.len(),
{
    let i = list[0];
    let sec = ctx.obj.secs[i];
    let next = ctx.section_applied(plan, i, out)->Ok_0;
    if n == 0 {
        let buf = if fits(sec) {
            sec.bytes
        } else {
            out.blob.skip(plan.off[i])
        };
        lemma_all_rels_known(ctx, plan, sec, plan.va[i], sec.relocs, buf, k);
    } else {
        assert(list.drop_first()[n - 1] == list[n]);
        lemma_all_sections_known(ctx, plan, list.drop_first(), next, n - 1, k);
    }
}

/// Nothing is passed over in silence: where linking succeeds, every relocation of every needed
/// section is of a known type, its symbol has an address, and an indirect one has a table slot.
pub proof fn law_nothing_skipped(ctx: LinkView, out: Output, i: usize, k: int)
    requires
        ctx.obj.well_formed(),
        ctx.linked(out) is Ok,
        ctx.obj.reaches(i),
        0 <= k < ctx.obj.secs[i].relocs.len(),
    ensures
        ({
            let plan = ctx.laid_out(ctx.obj.included()->Ok_0, out.blob)->Ok_0;
            let rel = ctx.obj.secs[i].relocs[k];
            &&& supported(ctx.machine.arch, rel.r_type)
            &&& ctx.resolved(plan.va, rel.sym) is Ok
            &&& indirect(ctx.machine.arch, rel.r_type) ==> plan.got.dom().contains(rel.sym)
        }),
{
    let found = ctx.obj.included()->Ok_0;
    let plan = ctx.laid_out(found, out.blob)->Ok_0;
    law_included(ctx.obj);
    assert(found.contains(i));
    let n = choose|n: int| 0 <= n < found.len() && found[n] == i;
    lemma_all_sections_known(ctx, plan, found, Output { blob: plan.blob, ..out }, n, k);
}

/// Linking never fails for want of a table slot.
pub proof fn law_never_without_slot(ctx: LinkView, out: Output)
    requires
        ctx.obj.well_formed(),
        !(ctx.externals matches Err(Fault::Relocation { .. })),
    ensures
        !(ctx.linked(out) matches Err(
            Fault::Relocation { why: RelocError::MissingSlot { .. }, .. },
        )),
{
    if let Err(f) = ctx.linked(out) {
        law_justified(ctx, out, f);
        if let Fault::Relocation { why: RelocError::MissingSlot { .. }, .. } = f {
            let found = ctx.obj.included()->Ok_0;
            let plan = ctx.laid_out(found, out.blob)->Ok_0;
            if exists|i: usize|
                ctx.obj.secs.dom().contains(i) && #[trigger] ctx.unbridgeable(i, plan.va[i], f) {
                let i = choose|i: usize|
                    ctx.obj.secs.dom().contains(i) && #[trigger] ctx.unbridgeable(
                        i,
                        plan.va[i],
                        f,
                    );
                if let Some((begin, _)) = ctx.obj.secs[i].splice {
                    law_jump_opcode(ctx.machine, begin, plan.va[i]);
                }
            }
        }
    }
}

} // verus!
