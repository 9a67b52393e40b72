//! What the relocations of a section leave in it: each refers to its symbol from where it stands.
use crate::arch::{
    Architecture, R_AARCH64_ABS64, R_AARCH64_CALL26, R_AARCH64_JUMP26, R_ARM_ABS32, R_ARM_REL32,
    R_MIPS_32, R_MIPS_64, R_MIPS_HI16, R_MIPS_LO16, R_X86_64_32, R_X86_64_32S, R_X86_64_64,
    R_X86_64_GOTPCREL, R_X86_64_GOTPCRELX, R_X86_64_PC32, R_X86_64_PLT32, R_X86_64_REX_GOTPCRELX,
};
use crate::bytes::{uint_at, Endian};
use crate::decode::{
    aarch64_branch_target, field_width, insn_at, law_aarch64_branch, law_got_relative,
    law_pc_relative, law_relocation_frame, leads,
};
use crate::error::{Fault, Machine};
use crate::field_laws::{
    law_aarch64_numbers, law_arm_numbers, law_mips_high, law_mips_numbers, law_x86_numbers,
};
use crate::image::lookup;
use crate::layout_laws::apart;
use crate::link::{first_low, pair_low, LinkView};
use crate::model::{Rel, SecView};
use crate::plan::PlanView;
use crate::reloc::{aarch64_field, arm_field, mips_field, relocated, x86_64_field, RelocError};
use crate::word::{lemma_wrap_sum, low32, signed, signed64, wrap64};
use vstd::prelude::*;

verus! {

/// The address of a symbol: as far behind the start of its section as its value says, where the
/// target has it, or its value itself. A symbol that was not read, whose section has no address,
/// or that the target does not have, has none.
pub proof fn law_symbol_address(ctx: LinkView, va: Map<usize, u64>, sym: usize)
    ensures
        ({
            let s = ctx.obj.syms[sym];
            let r = ctx.resolved(va, sym);
            if !ctx.obj.syms.dom().contains(sym) {
                r == Err::<u64, Fault<Seq<char>>>(Fault::UnknownSymbol { symbol: sym })
            } else if s.section is Some {
                if va.dom().contains(s.section->0) {
                    r is Ok && (r->Ok_0 - va[s.section->0] - s.value) % 0x1_0000_0000_0000_0000 == 0
                } else {
                    r == Err::<u64, Fault<Seq<char>>>(Fault::UnlaidSection { name: s.name })
                }
            } else if !s.undefined {
                r == Ok::<u64, Fault<Seq<char>>>(s.value)
            } else {
                match ctx.externals {
                    Err(f) => r == Err::<u64, Fault<Seq<char>>>(f),
                    Ok(tables) => {
                        let found = lookup(tables, ctx.machine.arch, s.name);
                        if found is Some {
                            r == Ok::<u64, Fault<Seq<char>>>(found->0)
                        } else {
                            r == Err::<u64, Fault<Seq<char>>>(Fault::Unresolved { name: s.name })
                        }
                    },
                }
            }
        }),
{
    let s = ctx.obj.syms[sym];
    if let Some(j) = s.section {
        if va.dom().contains(j) {
            let t = va[j] + s.value;
            let w = 0x1_0000_0000_0000_0000int;
            vstd::arithmetic::div_mod::lemma_fundamental_div_mod(t, w);
            vstd::arithmetic::div_mod::lemma_mod_multiples_vanish(-(t / w), 0, w);
        }
    }
}

proof fn lemma_first_low(arch: Architecture, rels: Seq<Rel>, sym: usize, k: int)
    requires
        arch == Architecture::Mips || arch == Architecture::Mips64,
        0 <= k <= rels.len(),
        k < rels.len() ==> rels[k].r_type == R_MIPS_LO16 && rels[k].sym == sym,
        forall|j: int| 0 <= j < k ==> !((#[trigger] rels[j]).r_type == R_MIPS_LO16 && rels[j].sym == sym),
    ensures
        first_low(arch, rels, sym) == (if k < rels.len() {
            Some(rels[k])
        } else {
            None
        }),
    decreases k,
{
    if k > 0 {
        let rest = rels.drop_first();
        assert(!(rels[0].r_type == R_MIPS_LO16 && rels[0].sym == sym));
        assert forall|j: int| 0 <= j < k - 1 implies !((#[trigger] rest[j]).r_type == R_MIPS_LO16
            && rest[j].sym == sym) by {
            assert(rest[j] == rels[j + 1]);
        }
        lemma_first_low(arch, rest, sym, k - 1);
    }
}

/// A MIPS high half whose addend is stored in the field takes the low half of its addend from the
/// first low half of the section against the same symbol, as the section held it before any
/// relocation; where there is none, and for any other relocation, there is no such addend.
pub proof fn law_partner(machine: Machine, sec: SecView, rel: Rel, k: int)
    requires
        0 <= k <= sec.relocs.len(),
        k < sec.relocs.len() ==> sec.relocs[k].r_type == R_MIPS_LO16 && sec.relocs[k].sym == rel.sym,
        forall|j: int|
            0 <= j < k ==> !((#[trigger] sec.relocs[j]).r_type == R_MIPS_LO16 && sec.relocs[j].sym
                == rel.sym),
    ensures
        ({
            let mips = machine.arch == Architecture::Mips || machine.arch == Architecture::Mips64;
            pair_low(machine, sec, rel) == (if mips && rel.r_type == R_MIPS_HI16 && rel.has_implicit
                && k < sec.relocs.len() {
                let low = sec.relocs[k];
                if low.offset + 4 <= sec.bytes.len() {
                    Ok(
                        Some(
                            signed(
                                insn_at(machine.endian, sec.bytes, low.offset as int),
                                0x1_0000,
                            ) as i64,
                        ),
                    )
                } else {
                    Err::<Option<i64>, RelocError>(RelocError::OutsideSection)
                }
            } else {
                Ok(None)
            })
        }),
{
    if machine.arch == Architecture::Mips || machine.arch == Architecture::Mips64 {
        lemma_first_low(machine.arch, sec.relocs, rel.sym, k);
    }
}

/// An address computed from a wrapped one is that computed from the address itself.
proof fn lemma_from_wrapped(y: int, x: int)
    ensures
        low32(wrap64(y) + x) == low32(y + x),
        wrap64(wrap64(y) + x) == wrap64(y + x),
        signed64(x - wrap64(y)) == signed64(x - y),
{
    let w = 0x1_0000_0000_0000_0000int;
    let q = y / w;
    vstd::arithmetic::div_mod::lemma_fundamental_div_mod(y, w);
    assert(wrap64(y) as int == y - w * q);
    assert(wrap64(y) + x == (y + x) + w * (-q)) by (nonlinear_arith)
        requires
            wrap64(y) as int == y - w * q,
    ;
    vstd::arithmetic::div_mod::lemma_mod_multiples_vanish(-q, y + x, w);
    assert(w * (-q) == 0x1_0000_0000 * (0x1_0000_0000 * (-q)));
    vstd::arithmetic::div_mod::lemma_mod_multiples_vanish(
        0x1_0000_0000 * (-q),
        y + x,
        0x1_0000_0000,
    );
    lemma_wrap_sum(y, x);
    assert(x - wrap64(y) == w * q + (x - y));
    vstd::arithmetic::div_mod::lemma_mod_multiples_vanish(q, x - y, w);
}

/// An x86 relocation of a section refers to its symbol: with its address plus the addend, or with
/// the distance to there, or to the symbol's table slot, from where the field stands.
pub proof fn law_x86_reference(
    ctx: LinkView,
    plan: PlanView,
    sec: SecView,
    site: u64,
    rel: Rel,
    buf: Seq<u8>,
)
    requires
        ctx.machine.arch == Architecture::X86 || ctx.machine.arch == Architecture::X86_64,
        rel.offset + 8 <= buf.len(),
        ctx.resolved(plan.va, rel.sym) is Ok,
    ensures
        ({
            let r = ctx.rel_applied(plan, sec, site, rel, buf);
            let s = ctx.resolved(plan.va, rel.sym)->Ok_0;
            let a = if rel.has_implicit {
                0
            } else {
                rel.addend as int
            };
            let at = rel.offset as int;
            let word = insn_at(ctx.machine.endian, r->Ok_0, at);
            &&& rel.r_type == R_X86_64_64 ==> r is Ok && uint_at(
                ctx.machine.endian,
                r->Ok_0,
                at,
                8,
            ) == wrap64(s + a)
            &&& rel.r_type == R_X86_64_32 || rel.r_type == R_X86_64_32S ==> r is Ok && word == low32(
                s + a,
            )
            &&& rel.r_type == R_X86_64_PC32 || rel.r_type == R_X86_64_PLT32 ==> r is Ok && leads(
                word,
                site + rel.offset,
                s + a,
            )
            &&& (rel.r_type == R_X86_64_GOTPCREL || rel.r_type == R_X86_64_GOTPCRELX || rel.r_type
                == R_X86_64_REX_GOTPCRELX) && plan.got.dom().contains(rel.sym) ==> r is Ok && leads(
                word,
                site + rel.offset,
                plan.got[rel.sym].0 + a,
            )
        }),
{
    let m = ctx.machine;
    let s = ctx.resolved(plan.va, rel.sym)->Ok_0 as int;
    let a = if rel.has_implicit {
        0
    } else {
        rel.addend as int
    };
    let at = rel.offset as int;
    let y = site + rel.offset;
    let p = wrap64(y) as int;
    let got = if plan.got.dom().contains(rel.sym) {
        Some(plan.got[rel.sym].0)
    } else {
        None
    };
    law_x86_numbers(m.arch, m.endian, rel.r_type, buf, at, s, a, p, got, rel.has_implicit, None);
    if rel.r_type == R_X86_64_PC32 || rel.r_type == R_X86_64_PLT32 {
        law_pc_relative(m.arch, m.endian, rel.r_type, buf, at, s, a, p, got, rel.has_implicit, None);
        let word = insn_at(m.endian, ctx.rel_applied(plan, sec, site, rel, buf)->Ok_0, at);
        lemma_from_wrapped(y, signed(word, 0x1_0000_0000));
        lemma_from_wrapped(y, s + a);
    }
    if rel.r_type == R_X86_64_GOTPCREL || rel.r_type == R_X86_64_GOTPCRELX || rel.r_type
        == R_X86_64_REX_GOTPCRELX {
        law_got_relative(
            m.arch,
            m.endian,
            rel.r_type,
            buf,
            at,
            s,
            a,
            p,
            got,
            rel.has_implicit,
            None,
        );
        if let Some(g) = got {
            let word = insn_at(m.endian, ctx.rel_applied(plan, sec, site, rel, buf)->Ok_0, at);
            lemma_from_wrapped(y, signed(word, 0x1_0000_0000));
            lemma_from_wrapped(y, g + a);
        }
    }
}

/// An AArch64 pointer of a section is the address of its symbol plus the addend, and an AArch64
/// branch that is in reach goes there.
pub proof fn law_aarch64_reference(
    ctx: LinkView,
    plan: PlanView,
    sec: SecView,
    site: u64,
    rel: Rel,
    buf: Seq<u8>,
)
    requires
        ctx.machine.arch == Architecture::Arm64,
        rel.offset + 8 <= buf.len(),
        ctx.resolved(plan.va, rel.sym) is Ok,
    ensures
        ({
            let r = ctx.rel_applied(plan, sec, site, rel, buf);
            let s = ctx.resolved(plan.va, rel.sym)->Ok_0;
            let a = if rel.has_implicit {
                0
            } else {
                rel.addend as int
            };
            let at = rel.offset as int;
            let from = site + rel.offset;
            &&& rel.r_type == R_AARCH64_ABS64 ==> r is Ok && uint_at(
                ctx.machine.endian,
                r->Ok_0,
                at,
                8,
            ) == wrap64(s + a)
            &&& rel.r_type == R_AARCH64_CALL26 || rel.r_type == R_AARCH64_JUMP26 ==> {
                let x = signed64(s + a - from);
                &&& (r is Ok <==> x % 4 == 0 && -0x800_0000 <= x < 0x800_0000)
                &&& r is Ok ==> wrap64(
                    aarch64_branch_target(insn_at(ctx.machine.endian, r->Ok_0, at), from),
                ) == wrap64(s + a)
            }
        }),
{
    let m = ctx.machine;
    let s = ctx.resolved(plan.va, rel.sym)->Ok_0 as int;
    let a = if rel.has_implicit {
        0
    } else {
        rel.addend as int
    };
    let at = rel.offset as int;
    let y = site + rel.offset;
    let p = wrap64(y) as int;
    let got = if plan.got.dom().contains(rel.sym) {
        Some(plan.got[rel.sym].0)
    } else {
        None
    };
    law_aarch64_numbers(m.endian, rel.r_type, buf, at, s, a, p, got, rel.has_implicit, None);
    if rel.r_type == R_AARCH64_CALL26 || rel.r_type == R_AARCH64_JUMP26 {
        law_aarch64_branch(m.endian, rel.r_type, buf, at, s, a, p, got, rel.has_implicit, None);
        lemma_from_wrapped(y, s + a);
        let insn = insn_at(m.endian, ctx.rel_applied(plan, sec, site, rel, buf)->Ok_0, at);
        lemma_from_wrapped(y, 4 * signed(insn, 0x400_0000));
    }
}

/// An ARM word of a section is the address of its symbol plus what the word held, or the distance
/// to there from where it stands.
pub proof fn law_arm_reference(
    ctx: LinkView,
    plan: PlanView,
    sec: SecView,
    site: u64,
    rel: Rel,
    buf: Seq<u8>,
)
    requires
        ctx.machine.arch == Architecture::Arm,
        rel.offset + 4 <= buf.len(),
        ctx.resolved(plan.va, rel.sym) is Ok,
    ensures
        ({
            let r = ctx.rel_applied(plan, sec, site, rel, buf);
            let s = ctx.resolved(plan.va, rel.sym)->Ok_0;
            let at = rel.offset as int;
            let held = insn_at(ctx.machine.endian, buf, at);
            let word = insn_at(ctx.machine.endian, r->Ok_0, at);
            &&& rel.r_type == R_ARM_ABS32 ==> r is Ok && word == low32(s + held)
            &&& rel.r_type == R_ARM_REL32 ==> r is Ok && low32(site + rel.offset + word) == low32(
                s + held,
            )
        }),
{
    let m = ctx.machine;
    let s = ctx.resolved(plan.va, rel.sym)->Ok_0 as int;
    let a = if rel.has_implicit {
        0
    } else {
        rel.addend as int
    };
    let at = rel.offset as int;
    let y = site + rel.offset;
    let got = if plan.got.dom().contains(rel.sym) {
        Some(plan.got[rel.sym].0)
    } else {
        None
    };
    law_arm_numbers(
        m.endian,
        rel.r_type,
        buf,
        at,
        s,
        a,
        wrap64(y) as int,
        got,
        rel.has_implicit,
        None,
    );
    let word = insn_at(m.endian, ctx.rel_applied(plan, sec, site, rel, buf)->Ok_0, at);
    lemma_from_wrapped(y, word);
}

/// A MIPS number of a section is the address of its symbol plus the addend: the explicit one, or
/// what the field held where the addend is stored there.
pub proof fn law_mips_reference(
    ctx: LinkView,
    plan: PlanView,
    sec: SecView,
    site: u64,
    rel: Rel,
    buf: Seq<u8>,
)
    requires
        ctx.machine.arch == Architecture::Mips || ctx.machine.arch == Architecture::Mips64,
        rel.offset + 8 <= buf.len(),
        ctx.resolved(plan.va, rel.sym) is Ok,
    ensures
        ({
            let r = ctx.rel_applied(plan, sec, site, rel, buf);
            let s = ctx.resolved(plan.va, rel.sym)->Ok_0;
            let at = rel.offset as int;
            let e = ctx.machine.endian;
            &&& rel.r_type == R_MIPS_32 ==> r is Ok && insn_at(e, r->Ok_0, at) == low32(
                s + (if rel.has_implicit {
                    insn_at(e, buf, at)
                } else {
                    rel.addend as int
                }),
            )
            &&& rel.r_type == R_MIPS_64 ==> r is Ok && uint_at(e, r->Ok_0, at, 8) == wrap64(
                s + (if rel.has_implicit {
                    uint_at(e, buf, at, 8) as int
                } else {
                    rel.addend as int
                }),
            )
        }),
{
    let m = ctx.machine;
    let s = ctx.resolved(plan.va, rel.sym)->Ok_0 as int;
    let a = if rel.has_implicit {
        0
    } else {
        rel.addend as int
    };
    let at = rel.offset as int;
    let got = if plan.got.dom().contains(rel.sym) {
        Some(plan.got[rel.sym].0)
    } else {
        None
    };
    law_mips_numbers(
        m.arch,
        m.endian,
        rel.r_type,
        buf,
        at,
        s,
        a,
        wrap64(site + rel.offset) as int,
        got,
        rel.has_implicit,
        None,
    );
}

/// A MIPS high half whose addend is stored in the section, together with the signed low half of
/// the address that it stands for, is the address of its symbol plus the high half that it held
/// and the low half that its partner held.
pub proof fn law_mips_high_reference(
    ctx: LinkView,
    plan: PlanView,
    sec: SecView,
    site: u64,
    rel: Rel,
    buf: Seq<u8>,
    k: int,
)
    requires
        ctx.machine.arch == Architecture::Mips || ctx.machine.arch == Architecture::Mips64,
        rel.offset + 4 <= buf.len(),
        rel.r_type == R_MIPS_HI16,
        rel.has_implicit,
        ctx.resolved(plan.va, rel.sym) is Ok,
        0 <= k < sec.relocs.len(),
        sec.relocs[k].r_type == R_MIPS_LO16 && sec.relocs[k].sym == rel.sym,
        sec.relocs[k].offset + 4 <= sec.bytes.len(),
        forall|j: int|
            0 <= j < k ==> !((#[trigger] sec.relocs[j]).r_type == R_MIPS_LO16 && sec.relocs[j].sym
                == rel.sym),
    ensures
        ({
            let e = ctx.machine.endian;
            let at = rel.offset as int;
            let t = ctx.resolved(plan.va, rel.sym)->Ok_0 + 0x1_0000 * (insn_at(e, buf, at)
                % 0x1_0000) + signed(
                insn_at(e, sec.bytes, sec.relocs[k].offset as int),
                0x1_0000,
            );
            ctx.rel_applied(plan, sec, site, rel, buf) matches Ok(b) && low32(
                0x1_0000 * (insn_at(e, b, at) % 0x1_0000) + signed(t, 0x1_0000),
            ) == low32(t)
        }),
{
    let m = ctx.machine;
    law_partner(m, sec, rel, k);
    let got = if plan.got.dom().contains(rel.sym) {
        Some(plan.got[rel.sym].0)
    } else {
        None
    };
    law_mips_high(
        m.arch,
        m.endian,
        buf,
        rel.offset as int,
        ctx.resolved(plan.va, rel.sym)->Ok_0 as int,
        0,
        wrap64(site + rel.offset) as int,
        got,
        true,
        pair_low(m, sec, rel)->Ok_0,
    );
}

/// What a relocation leaves in its field depends on what the field held, and on nothing else of
/// the buffer.
proof fn lemma_local(
    arch: Architecture,
    endian: Endian,
    r_type: u32,
    one: Seq<u8>,
    other: Seq<u8>,
    off: int,
    s: int,
    a: int,
    p: int,
    got: Option<u64>,
    implicit: bool,
    pair_lo: Option<i64>,
)
    requires
        0 <= off,
        off + field_width(arch, r_type) <= one.len(),
        one.len() == other.len(),
        one.subrange(off, off + field_width(arch, r_type)) == other.subrange(
            off,
            off + field_width(arch, r_type),
        ),
        relocated(arch, endian, r_type, one, off, s, a, p, got, implicit, pair_lo) is Ok,
    ensures
        ({
            let b = relocated(arch, endian, r_type, one, off, s, a, p, got, implicit, pair_lo);
            let c = relocated(arch, endian, r_type, other, off, s, a, p, got, implicit, pair_lo);
            let end = off + field_width(arch, r_type);
            c is Ok && b->Ok_0.subrange(off, end) == c->Ok_0.subrange(off, end)
        }),
{
    let w = field_width(arch, r_type);
    let b = relocated(arch, endian, r_type, one, off, s, a, p, got, implicit, pair_lo);
    let c = relocated(arch, endian, r_type, other, off, s, a, p, got, implicit, pair_lo);
    assert(one.subrange(off, off + 4) =~= other.subrange(off, off + 4)) by {
        assert forall|x: int| off <= x < off + 4 implies one[x] == other[x] by {
            assert(one.subrange(off, off + w)[x - off] == other.subrange(off, off + w)[x - off]);
        }
    }
    reveal(x86_64_field);
    reveal(aarch64_field);
    reveal(arm_field);
    reveal(mips_field);
    assert forall|v: nat, n: nat| #[trigger] endian.digits(v, n).len() == n by {
        crate::bytes::lemma_le_round_trip(v, n);
    }
    assert(c is Ok);
    assert(b->Ok_0.subrange(off, off + w) =~= c->Ok_0.subrange(off, off + w));
}

impl LinkView {
    /// The width of the field of a relocation.
    pub open spec fn width(self, rel: Rel) -> int {
        field_width(self.machine.arch, rel.r_type)
    }

    /// Whether the fields of two relocations have no byte in common.
    pub open spec fn fields_apart(self, one: Rel, other: Rel) -> bool {
        apart(one.offset as int, self.width(one), other.offset as int, self.width(other))
    }
}

/// A relocation of a section keeps the length of the buffer and all bytes outside its field.
proof fn lemma_rel_frame(
    ctx: LinkView,
    plan: PlanView,
    sec: SecView,
    site: u64,
    rel: Rel,
    buf: Seq<u8>,
)
    requires
        ctx.rel_applied(plan, sec, site, rel, buf) is Ok,
    ensures
        ({
            let b = ctx.rel_applied(plan, sec, site, rel, buf)->Ok_0;
            &&& b.len() == buf.len()
            &&& rel.offset + ctx.width(rel) <= buf.len()
            &&& forall|x: int|
                0 <= x < buf.len() && !(rel.offset <= x < rel.offset + ctx.width(rel))
                    ==> #[trigger] b[x] == buf[x]
        }),
{
    let got = if plan.got.dom().contains(rel.sym) {
        Some(plan.got[rel.sym].0)
    } else {
        None
    };
    law_relocation_frame(
        ctx.machine.arch,
        ctx.machine.endian,
        rel.r_type,
        buf,
        rel.offset as int,
        ctx.resolved(plan.va, rel.sym)->Ok_0 as int,
        if rel.has_implicit {
            0
        } else {
            rel.addend as int
        },
        wrap64(site + rel.offset) as int,
        got,
        rel.has_implicit,
        pair_low(ctx.machine, sec, rel)->Ok_0,
    );
}

proof fn lemma_rel_local(
    ctx: LinkView,
    plan: PlanView,
    sec: SecView,
    site: u64,
    rel: Rel,
    one: Seq<u8>,
    other: Seq<u8>,
)
    requires
        ctx.rel_applied(plan, sec, site, rel, one) is Ok,
        one.len() == other.len(),
        rel.offset + ctx.width(rel) <= one.len(),
        one.subrange(rel.offset as int, rel.offset + ctx.width(rel)) == other.subrange(
            rel.offset as int,
            rel.offset + ctx.width(rel),
        ),
    ensures
        ctx.rel_applied(plan, sec, site, rel, other) is Ok,
        ctx.rel_applied(plan, sec, site, rel, one)->Ok_0.subrange(
            rel.offset as int,
            rel.offset + ctx.width(rel),
        ) == ctx.rel_applied(plan, sec, site, rel, other)->Ok_0.subrange(
            rel.offset as int,
            rel.offset + ctx.width(rel),
        ),
{
    let got = if plan.got.dom().contains(rel.sym) {
        Some(plan.got[rel.sym].0)
    } else {
        None
    };
    lemma_local(
        ctx.machine.arch,
        ctx.machine.endian,
        rel.r_type,
        one,
        other,
        rel.offset as int,
        ctx.resolved(plan.va, rel.sym)->Ok_0 as int,
        if rel.has_implicit {
            0
        } else {
            rel.addend as int
        },
        wrap64(site + rel.offset) as int,
        got,
        rel.has_implicit,
        pair_low(ctx.machine, sec, rel)->Ok_0,
    );
}

/// Relocations keep the length of the buffer, and a byte outside all of their fields.
proof fn lemma_rels_frame(
    ctx: LinkView,
    plan: PlanView,
    sec: SecView,
    site: u64,
    rels: Seq<Rel>,
    buf: Seq<u8>,
)
    requires
        ctx.rels_applied(plan, sec, site, rels, buf) is Ok,
    ensures
        ({
            let end = ctx.rels_applied(plan, sec, site, rels, buf)->Ok_0;
            &&& end.len() == buf.len()
            &&& forall|x: int|
                0 <= x < buf.len() && (forall|j: int|
                    0 <= j < rels.len() ==> !((#[trigger] rels[j]).offset <= x < rels[j].offset
                        + ctx.width(rels[j]))) ==> #[trigger] end[x] == buf[x]
        }),
    decreases rels.len(),
{
    if rels.len() > 0 {
        let rest = rels.drop_first();
        let next = ctx.rel_applied(plan, sec, site, rels[0], buf)->Ok_0;
        lemma_rel_frame(ctx, plan, sec, site, rels[0], buf);
        lemma_rels_frame(ctx, plan, sec, site, rest, next);
        let end = ctx.rels_applied(plan, sec, site, rels, buf)->Ok_0;
        assert forall|x: int|
            0 <= x < buf.len() && (forall|j: int|
                0 <= j < rels.len() ==> !((#[trigger] rels[j]).offset <= x < rels[j].offset
                    + ctx.width(rels[j]))) implies #[trigger] end[x] == buf[x] by {
            assert(!(rels[0].offset <= x < rels[0].offset + ctx.width(rels[0])));
            assert forall|j: int| 0 <= j < rest.len() implies !((#[trigger] rest[j]).offset <= x
                < rest[j].offset + ctx.width(rest[j])) by {
                assert(rest[j] == rels[j + 1]);
            }
            assert(end[x] == next[x]);
        }
    }
}

/// Of all relocations of a section, each leaves in its field what it alone would leave there in
/// the unrelocated bytes, unless the field of another overlaps it. Outside the fields nothing
/// changes.
pub proof fn law_every_reference(
    ctx: LinkView,
    plan: PlanView,
    sec: SecView,
    site: u64,
    rels: Seq<Rel>,
    buf: Seq<u8>,
    k: int,
)
    requires
        ctx.rels_applied(plan, sec, site, rels, buf) is Ok,
        0 <= k < rels.len(),
        forall|j: int|
            0 <= j < rels.len() && j != k ==> ctx.fields_apart(#[trigger] rels[j], rels[k]),
    ensures
        ({
            let end = ctx.rels_applied(plan, sec, site, rels, buf)->Ok_0;
            let alone = ctx.rel_applied(plan, sec, site, rels[k], buf);
            let at = rels[k].offset as int;
            &&& end.len() == buf.len()
            &&& alone is Ok
            &&& at + ctx.width(rels[k]) <= buf.len()
            &&& end.subrange(at, at + ctx.width(rels[k])) == alone->Ok_0.subrange(
                at,
                at + ctx.width(rels[k]),
            )
            &&& forall|x: int|
                0 <= x < buf.len() && (forall|j: int|
                    0 <= j < rels.len() ==> !((#[trigger] rels[j]).offset <= x < rels[j].offset
                        + ctx.width(rels[j]))) ==> #[trigger] end[x] == buf[x]
        }),
    decreases rels.len(),
{
    let end = ctx.rels_applied(plan, sec, site, rels, buf)->Ok_0;
    let rest = rels.drop_first();
    let next = ctx.rel_applied(plan, sec, site, rels[0], buf)->Ok_0;
    let at = rels[k].offset as int;
    let w = ctx.width(rels[k]);
    lemma_rels_frame(ctx, plan, sec, site, rels, buf);
    lemma_rel_frame(ctx, plan, sec, site, rels[0], buf);
    lemma_rels_frame(ctx, plan, sec, site, rest, next);
    if k == 0 {
        assert(end.subrange(at, at + w) =~= next.subrange(at, at + w)) by {
            assert forall|x: int| at <= x < at + w implies end[x] == next[x] by {
                assert forall|j: int| 0 <= j < rest.len() implies !((#[trigger] rest[j]).offset <= x
                    < rest[j].offset + ctx.width(rest[j])) by {
                    assert(rest[j] == rels[j + 1]);
                    assert(ctx.fields_apart(rels[j + 1], rels[0]));
                }
            }
        }
    } else {
        assert(rest[k - 1] == rels[k]);
        assert forall|j: int| 0 <= j < rest.len() && j != k - 1 implies ctx.fields_apart(
            #[trigger] rest[j],
            rest[k - 1],
        ) by {
            assert(rest[j] == rels[j + 1]);
        }
        law_every_reference(ctx, plan, sec, site, rest, next, k - 1);
        assert(ctx.fields_apart(rels[0], rels[k]));
        assert(next.subrange(at, at + w) =~= buf.subrange(at, at + w));
        lemma_rel_local(ctx, plan, sec, site, rels[k], next, buf);
    }
}

} // verus!
