//! Two's-complement arithmetic: the integers that machine words stand for.
use vstd::arithmetic::div_mod::{
    lemma_add_mod_noop_right, lemma_mod_mod, lemma_mod_multiples_vanish, lemma_sub_mod_noop_right,
};
use vstd::prelude::*;

verus! {

/// `x` modulo two to the power 64.
pub open spec fn wrap64(x: int) -> u64 {
    (x % 0x1_0000_0000_0000_0000) as u64
}

/// The low 32 bits of `x`.
pub open spec fn low32(x: int) -> u32 {
    (x % 0x1_0000_0000) as u32
}

/// The integer in the signed range of `range` values that is congruent to `x`.
pub open spec fn signed(x: int, range: int) -> int {
    if x % range < range / 2 {
        x % range
    } else {
        x % range - range
    }
}

/// `x` as a signed 64-bit integer, with wrap-around.
pub open spec fn signed64(x: int) -> int {
    signed(x, 0x1_0000_0000_0000_0000)
}

/// `a` as a 64-bit word.
pub fn to_word(a: i64) -> (w: u64)
    ensures
        w == wrap64(a as int),
{
    if a >= 0 {
        a as u64
    } else {
        u64::MAX - (-(a + 1)) as u64
    }
}

/// A 64-bit word as a signed integer.
pub fn from_word(w: u64) -> (a: i64)
    ensures
        a == signed64(w as int),
{
    if w < 0x8000_0000_0000_0000 {
        w as i64
    } else {
        -((u64::MAX - w) as i64) - 1
    }
}

/// `x + y` modulo two to the power 64.
pub fn sum(x: u64, y: u64) -> (w: u64)
    ensures
        w == wrap64(x + y),
{
    x.wrapping_add(y)
}

/// `x - y` modulo two to the power 64.
pub fn difference(x: u64, y: u64) -> (w: u64)
    ensures
        w == wrap64(x - y),
{
    x.wrapping_sub(y)
}

/// The low half of a word.
pub fn low_half(w: u64) -> (h: u32)
    ensures
        h == low32(w as int),
{
    (w % 0x1_0000_0000) as u32
}

/// Sign-extend a field that can hold `range` values.
pub fn sign_extend(v: u64, range: u64) -> (a: i64)
    requires
        0 < range <= 0x1_0000_0000,
        v < range,
    ensures
        a == signed(v as int, range as int),
{
    assert(v as int % range as int == v) by (nonlinear_arith)
        requires
            0 <= v < range,
    ;
    if v < range / 2 {
        v as i64
    } else {
        v as i64 - range as i64
    }
}

/// `s + a` modulo two to the power 64.
pub fn absolute(s: u64, a: i64) -> (w: u64)
    ensures
        w == wrap64(s + a),
        w as int % 0x1_0000 == (s + a) % 0x1_0000,
        w as int % 0x1000 == (s + a) % 0x1000,
        low32(w as int) == low32(s + a),
        signed64(w as int) == signed64(s + a),
{
    proof {
        lemma_wrap_sum(a as int, s as int);
        lemma_wrap_sum(s + a, 0);
        lemma_mod_mod(s + a, 0x1_0000, 0x1_0000_0000_0000);
        lemma_mod_mod(s + a, 0x1000, 0x10_0000_0000_0000);
    }
    sum(s, to_word(a))
}

/// `s + a - p` modulo two to the power 64.
pub fn relative(s: u64, a: i64, p: u64) -> (w: u64)
    ensures
        w == wrap64(s + a - p),
        low32(w as int) == low32(s + a - p),
        signed64(w as int) == signed64(s + a - p),
{
    proof {
        lemma_wrap_sum(s + a, p as int);
        lemma_wrap_sum(s + a - p, 0);
    }
    difference(absolute(s, a), p)
}

/// Wrapping a term of a sum early changes nothing.
pub proof fn lemma_wrap_sum(x: int, y: int)
    ensures
        wrap64(wrap64(x) + y) == wrap64(x + y),
        wrap64(y + wrap64(x)) == wrap64(x + y),
        wrap64(y - wrap64(x)) == wrap64(y - x),
        wrap64(wrap64(x) - y) == wrap64(x - y),
        wrap64(wrap64(x) as int) == wrap64(x),
        signed64(wrap64(x) as int) == signed64(x),
        low32(wrap64(x) as int) == low32(x),
{
    let m = 0x1_0000_0000_0000_0000int;
    lemma_add_mod_noop_right(y, x, m);
    lemma_sub_mod_noop_right(y, x, m);
    lemma_add_mod_noop_right(-y, x, m);
    lemma_mod_mod(x, 0x1_0000_0000, 0x1_0000_0000);
}

/// The low bits of `x` are those of the word it wraps to.
pub proof fn lemma_word_bits(x: int)
    ensures
        wrap64(signed64(x)) == wrap64(x),
        wrap64(x) as int % 4 == x % 4,
        wrap64(x) as int % 0x1000 == x % 0x1000,
        wrap64(x) as int % 0x1_0000 == x % 0x1_0000,
        low32(wrap64(x) as int) == low32(x),
        low32(wrap64(x) as int / 4) == low32(x / 4),
        (wrap64(x) as int / 4) % 0x1_0000 == (x / 4) % 0x1_0000,
        (wrap64(x) as int / 0x1000) % 0x20_0000 == (x / 0x1000) % 0x20_0000,
        (wrap64(x) as int / 0x1_0000) % 0x1_0000 == (x / 0x1_0000) % 0x1_0000,
{
    let m = 0x1_0000_0000_0000_0000int;
    let w = x % m;
    let q = x / m;
    assert(x == q * m + w) by {
        vstd::arithmetic::div_mod::lemma_fundamental_div_mod(x, m);
    }
    assert(wrap64(signed64(x)) == wrap64(x)) by {
        lemma_mod_multiples_vanish(-1, w, m);
    }
    lemma_mod_mod(x, 4, 0x4000_0000_0000_0000);
    lemma_mod_mod(x, 0x1000, 0x10_0000_0000_0000);
    lemma_mod_mod(x, 0x1_0000, 0x1_0000_0000_0000);
    lemma_mod_mod(x, 0x1_0000_0000, 0x1_0000_0000);
    assert(x / 4 == q * 0x4000_0000_0000_0000 + w / 4);
    assert(x / 0x1000 == q * 0x10_0000_0000_0000 + w / 0x1000);
    assert(x / 0x1_0000 == q * 0x1_0000_0000_0000 + w / 0x1_0000);
    lemma_mod_multiples_vanish(q * 0x4000_0000, w / 4, 0x1_0000_0000);
    lemma_mod_multiples_vanish(q * 0x4000_0000_0000, w / 4, 0x1_0000);
    lemma_mod_multiples_vanish(q * 0x8000_0000, w / 0x1000, 0x20_0000);
    lemma_mod_multiples_vanish(q * 0x1_0000_0000, w / 0x1_0000, 0x1_0000);
}

/// Adding the signed residue of `d` is adding `d`, modulo `m`.
pub proof fn lemma_signed_sum(p: int, d: int, m: int)
    requires
        0 < m,
    ensures
        (p + signed(d, m)) % m == (p + d) % m,
{
    let k = if d % m < m / 2 {
        d / m
    } else {
        d / m + 1
    };
    vstd::arithmetic::div_mod::lemma_fundamental_div_mod(d, m);
    assert(p + signed(d, m) == m * -k + (p + d)) by (nonlinear_arith)
        requires
            d == m * (d / m) + d % m,
            signed(d, m) == d % m && k == d / m || signed(d, m) == d % m - m && k == d / m + 1,
    ;
    lemma_mod_multiples_vanish(-k, p + d, m);
}

/// A distance that fits 32 bits is the same in 32 bits and in 64.
pub proof fn lemma_narrow(d: int)
    requires
        -0x8000_0000 <= signed64(d) < 0x8000_0000,
    ensures
        signed(d, 0x1_0000_0000) == signed64(d),
{
    let m = 0x1_0000_0000_0000_0000int;
    let n = 0x1_0000_0000int;
    let x = signed64(d);
    let k = if d % m < m / 2 {
        d / m
    } else {
        d / m + 1
    };
    vstd::arithmetic::div_mod::lemma_fundamental_div_mod(d, m);
    assert(d == n * (n * k) + x);
    lemma_mod_multiples_vanish(n * k, x, n);
    if x >= 0 {
        vstd::arithmetic::div_mod::lemma_small_mod(x as nat, n as nat);
    } else {
        lemma_mod_multiples_vanish(1, x, n);
        vstd::arithmetic::div_mod::lemma_small_mod((x + n) as nat, n as nat);
    }
}

/// A word is congruent to the number that it was cut from, and a signed number to the word that
/// it was read of; each lies in its range.
pub proof fn law_words(x: int, range: int)
    requires
        range > 0,
        range % 2 == 0,
    ensures
        (x - wrap64(x)) % 0x1_0000_0000_0000_0000 == 0,
        (x - low32(x)) % 0x1_0000_0000 == 0,
        (x - signed(x, range)) % range == 0,
        -range / 2 <= signed(x, range) < range / 2,
        (x - signed64(x)) % 0x1_0000_0000_0000_0000 == 0,
        -0x8000_0000_0000_0000 <= signed64(x) < 0x8000_0000_0000_0000,
{
    let w = 0x1_0000_0000_0000_0000int;
    let n = 0x1_0000_0000int;
    lemma_sub_mod_noop_right(x, x, w);
    lemma_sub_mod_noop_right(x, x, n);
    lemma_sub_mod_noop_right(x, x, range);
    lemma_mod_multiples_vanish(1, x - x % w, w);
    lemma_mod_multiples_vanish(1, x - x % range, range);
    vstd::arithmetic::div_mod::lemma_mod_bound(x, range);
    vstd::arithmetic::div_mod::lemma_fundamental_div_mod(range, 2);
}

} // verus!
