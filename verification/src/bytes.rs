//! Byte order: reading and writing unsigned integers in a buffer.
use vstd::prelude::*;

verus! {

/// Byte order of a target binary.
#[derive(Debug, Clone, Copy, PartialEq, Eq, Structural)]
pub enum Endian {
    Little,
    Big,
}

/// The number whose base-256 digits are `s`, least significant first.
pub open spec fn le_value(s: Seq<u8>) -> nat
    decreases s.len(),
{
    if s.len() == 0 {
        0
    } else {
        s[0] as nat + 256 * le_value(s.drop_first())
    }
}

/// The `width` base-256 digits of `v` of lowest weight, least significant first.
pub open spec fn le_digits(v: nat, width: nat) -> Seq<u8>
    decreases width,
{
    if width == 0 {
        Seq::empty()
    } else {
        seq![(v % 256) as u8] + le_digits(v / 256, (width - 1) as nat)
    }
}

impl Endian {
    /// The number that `s` denotes in this byte order.
    pub open spec fn value(self, s: Seq<u8>) -> nat {
        match self {
            Endian::Little => le_value(s),
            Endian::Big => le_value(s.reverse()),
        }
    }

    /// The `width` low bytes of `v`, in this byte order.
    pub open spec fn digits(self, v: nat, width: nat) -> Seq<u8> {
        match self {
            Endian::Little => le_digits(v, width),
            Endian::Big => le_digits(v, width).reverse(),
        }
    }
}

/// The `width`-byte number at `off` in `buf`.
pub open spec fn uint_at(endian: Endian, buf: Seq<u8>, off: int, width: int) -> nat {
    endian.value(buf.subrange(off, off + width))
}

/// `buf` with `s` written over it at `off`.
pub open spec fn overwrite(buf: Seq<u8>, off: int, s: Seq<u8>) -> Seq<u8> {
    buf.subrange(0, off) + s + buf.subrange(off + s.len(), buf.len() as int)
}

/// Reading back what was written gives the low bytes of the value.
pub proof fn lemma_le_round_trip(v: nat, width: nat)
    ensures
        le_digits(v, width).len() == width,
        le_value(le_digits(v, width)) == v % pow256(width),
    decreases width,
{
    if width == 0 {
        assert(v % 1 == 0);
    } else {
        let w = (width - 1) as nat;
        let rest = le_digits(v / 256, w);
        lemma_le_round_trip(v / 256, w);
        let all = le_digits(v, width);
        assert(all =~= seq![(v % 256) as u8] + rest);
        assert(all.drop_first() =~= rest);
        let m = pow256(w);
        lemma_pow256_positive(w);
        assert(v % (256 * m) == v % 256 + 256 * ((v / 256) % m)) by {
            vstd::arithmetic::div_mod::lemma_mod_breakdown(v as int, 256, m as int);
        }
    }
}

/// Two to the power of eight times `n`.
pub open spec fn pow256(n: nat) -> nat
    decreases n,
{
    if n == 0 {
        1
    } else {
        256 * pow256((n - 1) as nat)
    }
}

pub proof fn lemma_pow256_positive(n: nat)
    ensures
        pow256(n) > 0,
    decreases n,
{
    if n > 0 {
        lemma_pow256_positive((n - 1) as nat);
    }
}

/// The value of `s` stays below the power its length gives.
pub proof fn lemma_le_value_bound(s: Seq<u8>)
    ensures
        le_value(s) < pow256(s.len()),
    decreases s.len(),
{
    if s.len() > 0 {
        lemma_le_value_bound(s.drop_first());
    }
}

/// What an eight-byte field can hold fits in 64 bits.
pub proof fn lemma_pow256_bound(n: nat)
    requires
        n <= 8,
    ensures
        pow256(n) <= 0x1_0000_0000_0000_0000,
{
    reveal_with_fuel(pow256, 9);
}

impl Endian {
    /// Read a `width`-byte (1/2/4/8) unsigned integer from `buf` at `off`.
    pub fn read_uint(self, buf: &[u8], off: usize, width: usize) -> (v: u64)
        requires
            width <= 8,
            off + width <= buf@.len(),
        ensures
            v as nat == uint_at(self, buf@, off as int, width as int),
            v < pow256(width as nat),
    {
        let ghost s = buf@.subrange(off as int, off + width);
        let mut v: u64 = 0;
        assert(buf.len() <= usize::MAX);
        match self {
            Endian::Little => {
                let mut i: usize = width;
                assert(s.subrange(i as int, width as int) =~= Seq::<u8>::empty());
                while i > 0
                    invariant
                        i <= width <= 8,
                        off + width <= buf@.len() <= usize::MAX,
                        s == buf@.subrange(off as int, off + width),
                        v as nat == le_value(s.subrange(i as int, width as int)),
                    decreases i,
                {
                    let ghost part = s.subrange(i - 1, width as int);
                    proof {
                        assert(part.drop_first() =~= s.subrange(i as int, width as int));
                        lemma_le_value_bound(part);
                        lemma_pow256_bound(part.len());
                    }
                    i = i - 1;
                    v = v * 256 + buf[off + i] as u64;
                }
                assert(s.subrange(0, width as int) =~= s);
            },
            Endian::Big => {
                let mut i: usize = 0;
                assert(s.subrange(0, 0).reverse() =~= Seq::<u8>::empty());
                while i < width
                    invariant
                        i <= width <= 8,
                        off + width <= buf@.len() <= usize::MAX,
                        s == buf@.subrange(off as int, off + width),
                        v as nat == le_value(s.subrange(0, i as int).reverse()),
                    decreases width - i,
                {
                    let ghost part = s.subrange(0, i + 1).reverse();
                    proof {
                        assert(part.drop_first() =~= s.subrange(0, i as int).reverse());
                        lemma_le_value_bound(part);
                        lemma_pow256_bound(part.len());
                    }
                    v = v * 256 + buf[off + i] as u64;
                    i = i + 1;
                }
                assert(s.subrange(0, width as int) =~= s);
            },
        }
        proof {
            lemma_value_bound(self, s);
        }
        v
    }

    /// Write the low `width` bytes (1/2/4/8) of `val` to `buf` at `off`.
    pub fn write_uint(self, buf: &mut [u8], off: usize, width: usize, val: u64)
        requires
            width <= 8,
            off + width <= old(buf)@.len(),
        ensures
            final(buf)@ == overwrite(old(buf)@, off as int, self.digits(val as nat, width as nat)),
    {
        let ghost before = buf@;
        let ghost le = le_digits(val as nat, width as nat);
        proof {
            lemma_le_round_trip(val as nat, width as nat);
        }
        assert(buf.len() <= usize::MAX);
        let mut rest: u64 = val;
        let mut i: usize = 0;
        assert(le.subrange(0, width as int) =~= le);
        while i < width
            invariant
                i <= width <= 8,
                le.len() == width,
                before.len() == buf@.len(),
                off + width <= buf@.len() <= usize::MAX,
                le_digits(rest as nat, (width - i) as nat) == le.subrange(i as int, width as int),
                forall|j: int| 0 <= j < i ==> buf@[self.place(off as int, width as int, j)] == le[j],
                forall|j: int|
                    0 <= j < buf@.len() && !(off <= j < off + width) ==> buf@[j] == before[j],
            decreases width - i,
        {
            let at: usize = match self {
                Endian::Little => off + i,
                Endian::Big => off + (width - 1 - i),
            };
            buf[at] = (rest % 256) as u8;
            proof {
                let tail = le_digits(rest as nat, (width - i) as nat);
                assert(tail[0] == (rest % 256) as u8);
                assert(tail[0] == le[i as int]);
                lemma_le_round_trip((rest / 256) as nat, (width - i - 1) as nat);
                assert(le.subrange(i + 1, width as int) =~= tail.drop_first());
                assert(tail.drop_first() =~= le_digits(
                    (rest / 256) as nat,
                    (width - i - 1) as nat,
                ));
            }
            rest = rest / 256;
            i = i + 1;
        }
        proof {
            let d = self.digits(val as nat, width as nat);
            assert forall|k: int| 0 <= k < width implies buf@[off + k] == d[k] by {
                match self {
                    Endian::Little => {
                        assert(buf@[self.place(off as int, width as int, k)] == le[k]);
                    },
                    Endian::Big => {
                        assert(buf@[self.place(off as int, width as int, width - 1 - k)]
                            == le[width - 1 - k]);
                    },
                }
            }
            assert(buf@ =~= overwrite(before, off as int, d));
        }
    }

    /// Where the `j`-th least significant byte of a `width`-byte field at `off` lies.
    spec fn place(self, off: int, width: int, j: int) -> int {
        match self {
            Endian::Little => off + j,
            Endian::Big => off + width - 1 - j,
        }
    }
}

/// A `width`-byte number stays below `256` to the power `width`.
pub proof fn lemma_value_bound(endian: Endian, s: Seq<u8>)
    ensures
        endian.value(s) < pow256(s.len()),
{
    lemma_le_value_bound(s);
    lemma_le_value_bound(s.reverse());
}

/// The digits of a number denote it, modulo the range of the field.
pub proof fn lemma_value_of_digits(endian: Endian, v: nat, width: nat)
    ensures
        endian.digits(v, width).len() == width,
        endian.value(endian.digits(v, width)) == v % pow256(width),
{
    lemma_le_round_trip(v, width);
    assert(le_digits(v, width).reverse().reverse() =~= le_digits(v, width));
}

/// Writing an integer and reading it back at the same place, in the same byte order and
/// width, gives the integer modulo the range of the field.
pub proof fn law_read_back(endian: Endian, buf: Seq<u8>, off: int, width: nat, val: nat)
    requires
        0 <= off,
        off + width <= buf.len(),
    ensures
        uint_at(endian, overwrite(buf, off, endian.digits(val, width)), off, width as int) == val
            % pow256(width),
{
    lemma_value_of_digits(endian, val, width);
    let d = endian.digits(val, width);
    assert(overwrite(buf, off, d).subrange(off, off + width) =~= d);
}

/// Writing at one place leaves every disjoint field readable as before.
pub proof fn law_write_elsewhere(
    endian: Endian,
    buf: Seq<u8>,
    off: int,
    s: Seq<u8>,
    other: int,
    width: int,
)
    requires
        0 <= off,
        off + s.len() <= buf.len(),
        0 <= other,
        0 <= width,
        other + width <= buf.len(),
        other + width <= off || off + s.len() <= other,
    ensures
        uint_at(endian, overwrite(buf, off, s), other, width) == uint_at(endian, buf, other, width),
{
    assert(overwrite(buf, off, s).subrange(other, other + width) =~= buf.subrange(
        other,
        other + width,
    ));
}

/// Write `s` over `buf` at `off`.
pub fn copy_at(buf: &mut Vec<u8>, off: usize, s: &[u8])
    requires
        off + s@.len() <= old(buf)@.len(),
    ensures
        final(buf)@ == overwrite(old(buf)@, off as int, s@),
{
    let ghost before = buf@;
    assert(buf.len() <= usize::MAX);
    let mut i: usize = 0;
    while i < s.len()
        invariant
            i <= s@.len(),
            off + s@.len() <= buf@.len() <= usize::MAX,
            buf@.len() == before.len(),
            forall|j: int|
                0 <= j < before.len() ==> buf@[j] == (if off <= j < off + i {
                    s@[j - off]
                } else {
                    before[j]
                }),
        decreases s@.len() - i,
    {
        buf.set(off + i, s[i]);
        i = i + 1;
    }
    assert(buf@ =~= overwrite(before, off as int, s@));
}

/// Append the low `width` bytes of `val`.
pub fn push_uint(endian: Endian, out: &mut Vec<u8>, width: usize, val: u64)
    requires
        width <= 8,
        old(out)@.len() + width <= usize::MAX,
    ensures
        final(out)@ == old(out)@ + endian.digits(val as nat, width as nat),
{
    let ghost before = out@;
    let start: usize = out.len();
    out.resize(start + width, 0);
    endian.write_uint(out, start, width, val);
    proof {
        lemma_value_of_digits(endian, val as nat, width as nat);
        assert(out@ =~= before + endian.digits(val as nat, width as nat));
    }
}

/// In little-endian order the first byte counts least, in big-endian order the last one: each
/// byte counts 256 times as much as the one that counts less.
pub proof fn law_byte_order(s: Seq<u8>, b: u8)
    ensures
        Endian::Little.value(Seq::empty()) == 0,
        Endian::Big.value(Seq::empty()) == 0,
        Endian::Little.value(seq![b] + s) == b + 256 * Endian::Little.value(s),
        Endian::Big.value(s.push(b)) == 256 * Endian::Big.value(s) + b,
{
    assert((seq![b] + s).drop_first() =~= s);
    assert(s.push(b).reverse() =~= seq![b] + s.reverse());
    assert((seq![b] + s.reverse()).drop_first() =~= s.reverse());
    assert(Seq::<u8>::empty().reverse() =~= Seq::<u8>::empty());
}

} // verus!
