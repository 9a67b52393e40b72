//! The command line: addresses as text, and the lines of the report.
use crate::error::{debug_text, hex_literal, int_error_text, push_hex, quoted};
use crate::link::Applied;
use crate::text::{
    dec_text, hex_text, law_number_of_text, number, parse_number, push_number, radix_text, to_chars,
    IntError,
};
use vstd::prelude::*;
use vstd::slice::slice_subrange;

verus! {

/// The characters with Unicode's `White_Space` property.
pub open spec fn is_space(c: char) -> bool {
    ||| '\u{9}' <= c <= '\u{d}'
    ||| c == '\u{20}'
    ||| c == '\u{85}'
    ||| c == '\u{a0}'
    ||| c == '\u{1680}'
    ||| '\u{2000}' <= c <= '\u{200a}'
    ||| c == '\u{2028}'
    ||| c == '\u{2029}'
    ||| c == '\u{202f}'
    ||| c == '\u{205f}'
    ||| c == '\u{3000}'
}

/// Whether `s` is nothing but white space.
pub open spec fn all_space(s: Seq<char>) -> bool {
    forall|i: int| 0 <= i < s.len() ==> is_space(#[trigger] s[i])
}

fn space(c: char) -> (r: bool)
    ensures
        r == is_space(c),
{
    ('\u{9}' <= c && c <= '\u{d}') || c == '\u{20}' || c == '\u{85}' || c == '\u{a0}' || c
        == '\u{1680}' || ('\u{2000}' <= c && c <= '\u{200a}') || c == '\u{2028}' || c
        == '\u{2029}' || c == '\u{202f}' || c == '\u{205f}' || c == '\u{3000}'
}

/// `s` without the white space at its start.
pub open spec fn trim_start(s: Seq<char>) -> Seq<char>
    decreases s.len(),
{
    if s.len() > 0 && is_space(s[0]) {
        trim_start(s.drop_first())
    } else {
        s
    }
}

/// `s` without the white space at its end.
pub open spec fn trim_end(s: Seq<char>) -> Seq<char>
    decreases s.len(),
{
    if s.len() > 0 && is_space(s.last()) {
        trim_end(s.drop_last())
    } else {
        s
    }
}

/// The number that an address denotes: hexadecimal behind `0x` or `0X`, else decimal, with white
/// space around it.
pub open spec fn address(s: Seq<char>) -> Result<nat, IntError> {
    let t = trim_end(trim_start(s));
    if t.len() >= 2 && t[0] == '0' && (t[1] == 'x' || t[1] == 'X') {
        number(t.skip(2), 16)
    } else {
        number(t, 10)
    }
}

/// How a bad address is told.
pub open spec fn address_error(s: Seq<char>, e: IntError) -> Seq<char> {
    "invalid address "@ + debug_text(s) + ": "@ + int_error_text(e)
}

/// Parse a `0x`-prefixed hex or plain decimal address.
pub fn parse_addr(s: &str) -> (r: Result<u64, String>)
    ensures
        match address(s@) {
            Ok(n) => r == Ok::<u64, String>(n as u64) && n <= u64::MAX,
            Err(e) => r matches Err(m) && m@ == address_error(s@, e),
        },
{
    let chars = to_chars(s);
    let mut lo: usize = 0;
    let ghost front = trim_start(chars@);
    assert(chars@.skip(0) =~= chars@);
    while lo < chars.len() && space(chars[lo])
        invariant
            lo <= chars@.len(),
            front == trim_start(chars@),
            front == trim_start(chars@.skip(lo as int)),
        decreases chars@.len() - lo,
    {
        assert(chars@.skip(lo as int).drop_first() =~= chars@.skip(lo + 1));
        lo = lo + 1;
    }
    assert(front == chars@.skip(lo as int));
    let mut hi: usize = chars.len();
    assert(chars@.subrange(lo as int, hi as int) =~= front);
    while hi > lo && space(chars[hi - 1])
        invariant
            lo <= hi <= chars@.len(),
            trim_end(front) == trim_end(chars@.subrange(lo as int, hi as int)),
        decreases hi - lo,
    {
        let ghost now = chars@.subrange(lo as int, hi as int);
        assert(now.drop_last() =~= chars@.subrange(lo as int, hi - 1));
        hi = hi - 1;
    }
    let t = slice_subrange(chars.as_slice(), lo, hi);
    assert(t@ == trim_end(front));
    let r = if t.len() >= 2 && t[0] == '0' && (t[1] == 'x' || t[1] == 'X') {
        let digits = slice_subrange(t, 2, t.len());
        assert(digits@ =~= t@.skip(2));
        parse_number(digits, 16)
    } else {
        parse_number(t, 10)
    };
    match r {
        Ok(n) => Ok(n),
        Err(e) => {
            let mut m = "invalid address ".to_owned();
            m.append(quoted(s).as_str());
            m.append(": ");
            m.append(e.message().as_str());
            Err(m)
        },
    }
}

/// White space in front of a text is trimmed.
proof fn lemma_front_trimmed(front: Seq<char>, t: Seq<char>)
    requires
        all_space(front),
    ensures
        trim_start(front + t) == trim_start(t),
    decreases front.len(),
{
    if front.len() > 0 {
        assert((front + t).drop_first() =~= front.drop_first() + t);
        lemma_front_trimmed(front.drop_first(), t);
    } else {
        assert(front + t =~= t);
    }
}

/// White space behind a text is trimmed.
proof fn lemma_back_trimmed(t: Seq<char>, back: Seq<char>)
    requires
        all_space(back),
    ensures
        trim_end(t + back) == trim_end(t),
    decreases back.len(),
{
    if back.len() > 0 {
        assert((t + back).drop_last() =~= t + back.drop_last());
        lemma_back_trimmed(t, back.drop_last());
    } else {
        assert(t + back =~= t);
    }
}

/// The text of a number's digits, behind a prefix and with white space around it, is what is left
/// of the white space.
proof fn lemma_digits_trimmed(
    front: Seq<char>,
    prefix: Seq<char>,
    n: nat,
    radix: nat,
    back: Seq<char>,
)
    requires
        2 <= radix <= 16,
        prefix.len() > 0 ==> !is_space(prefix[0]),
        all_space(front),
        all_space(back),
    ensures
        trim_end(trim_start(front + (prefix + radix_text(n, radix)) + back)) == prefix + radix_text(
            n,
            radix,
        ),
{
    let d = radix_text(n, radix);
    let t = prefix + d;
    lemma_no_space(n, radix);
    assert(t[0] == if prefix.len() > 0 {
        prefix[0]
    } else {
        d[0]
    });
    assert(t.last() == d[d.len() - 1]);
    assert(front + t + back =~= front + (t + back));
    lemma_front_trimmed(front, t + back);
    assert((t + back)[0] == t[0]);
    lemma_back_trimmed(t, back);
}

/// The text of a number has no white space and no `x` in it.
proof fn lemma_no_space(n: nat, radix: nat)
    requires
        2 <= radix <= 16,
    ensures
        radix_text(n, radix).len() > 0,
        forall|i: int|
            0 <= i < radix_text(n, radix).len() ==> !is_space(#[trigger] radix_text(n, radix)[i])
                && radix_text(n, radix)[i] != 'x' && radix_text(n, radix)[i] != 'X',
    decreases n,
{
    if n >= radix {
        assert(n / radix < n && n % radix < radix) by (nonlinear_arith)
            requires
                2 <= radix <= n,
        ;
        lemma_no_space(n / radix, radix);
    }
}

/// An address written in hexadecimal behind either prefix, or in decimal, is read back, whatever
/// white space stands around it.
pub proof fn law_address(n: nat, front: Seq<char>, back: Seq<char>)
    requires
        n <= u64::MAX,
        all_space(front),
        all_space(back),
    ensures
        address(front + ("0x"@ + hex_text(n)) + back) == Ok::<nat, IntError>(n),
        address(front + ("0X"@ + hex_text(n)) + back) == Ok::<nat, IntError>(n),
        address(front + dec_text(n) + back) == Ok::<nat, IntError>(n),
{
    reveal_strlit("0x");
    reveal_strlit("0X");
    lemma_digits_trimmed(front, "0x"@, n, 16, back);
    lemma_digits_trimmed(front, "0X"@, n, 16, back);
    law_number_of_text(n, 16);
    assert(("0x"@ + hex_text(n)).skip(2) =~= hex_text(n));
    assert(("0X"@ + hex_text(n)).skip(2) =~= hex_text(n));
    let none = Seq::<char>::empty();
    assert(none + dec_text(n) =~= dec_text(n));
    lemma_digits_trimmed(front, none, n, 10, back);
    lemma_no_space(n, 10);
    law_number_of_text(n, 10);
}

/// The line of the report for a splice that was applied.
pub open spec fn applied_text(a: Applied) -> Seq<char> {
    let line = "  "@ + hex_literal(a.begin as nat) + ".."@ + hex_literal(a.end as nat) + " <- "@
        + dec_text(a.code_len as nat) + " bytes"@;
    if a.trampoline {
        line + " (trampoline to injected segment)"@
    } else {
        line
    }
}

impl Applied {
    /// The line of the report for this splice.
    pub fn line(&self) -> (r: String)
        ensures
            r@ == applied_text(*self),
    {
        let mut r = "  ".to_owned();
        push_hex(&mut r, self.begin);
        r.append("..");
        push_hex(&mut r, self.end);
        r.append(" <- ");
        push_number(&mut r, self.code_len as u64, 10);
        r.append(" bytes");
        if self.trampoline {
            r.append(" (trampoline to injected segment)");
        }
        r
    }
}

} // verus!
