//! Numbers as text, and the small pieces of string handling that the library needs.
use vstd::prelude::*;

verus! {

/// `String::push` appends one character.
pub assume_specification[ String::push ](s: &mut String, c: char)
    ensures
        final(s)@ == old(s)@.push(c),
;

/// Why a text is not an unsigned 64-bit number.
#[derive(Debug, Clone, Copy, PartialEq, Eq, Structural)]
pub enum IntError {
    Empty,
    InvalidDigit,
    TooLarge,
}

/// The value of `c` as a digit of the given radix (at most 16).
pub open spec fn digit_value(c: char, radix: nat) -> Option<nat> {
    let v: int = if '0' <= c <= '9' {
        c as int - '0' as int
    } else if 'a' <= c <= 'f' {
        c as int - 'a' as int + 10
    } else if 'A' <= c <= 'F' {
        c as int - 'A' as int + 10
    } else {
        16
    };
    if v < radix {
        Some(v as nat)
    } else {
        None
    }
}

/// The number that the digits `s` continue `acc` to, read from left to right.
pub open spec fn digits_number(s: Seq<char>, radix: nat, acc: nat) -> Result<nat, IntError>
    decreases s.len(),
{
    if s.len() == 0 {
        Ok(acc)
    } else {
        match digit_value(s[0], radix) {
            None => Err(IntError::InvalidDigit),
            Some(d) => if acc * radix + d > u64::MAX {
                Err(IntError::TooLarge)
            } else {
                digits_number(s.drop_first(), radix, acc * radix + d)
            },
        }
    }
}

/// The unsigned 64-bit number that `s` denotes: an optional `+`, then at least one digit.
pub open spec fn number(s: Seq<char>, radix: nat) -> Result<nat, IntError> {
    if s.len() == 0 {
        Err(IntError::Empty)
    } else if s.len() > 1 && s[0] == '+' {
        digits_number(s.drop_first(), radix, 0)
    } else {
        digits_number(s, radix, 0)
    }
}

/// The lower-case digit for `d`.
pub open spec fn digit_char(d: nat) -> char {
    if d < 10 {
        (d + '0' as nat) as char
    } else {
        (d - 10 + 'a' as nat) as char
    }
}

/// `n` written in the given radix, without leading zeros.
pub open spec fn radix_text(n: nat, radix: nat) -> Seq<char>
    decreases n,
{
    if n < radix || radix < 2 {
        seq![digit_char(n)]
    } else {
        proof {
            assert(n / radix < n) by (nonlinear_arith)
                requires
                    2 <= radix <= n,
            ;
        }
        radix_text(n / radix, radix).push(digit_char(n % radix))
    }
}

/// `n` in lower-case hexadecimal.
pub open spec fn hex_text(n: nat) -> Seq<char> {
    radix_text(n, 16)
}

/// `n` in decimal.
pub open spec fn dec_text(n: nat) -> Seq<char> {
    radix_text(n, 10)
}

/// Reading one character more continues what was read before.
pub proof fn lemma_digits_number_push(s: Seq<char>, c: char, radix: nat, acc: nat)
    ensures
        digits_number(s.push(c), radix, acc) == (match digits_number(s, radix, acc) {
            Err(e) => Err(e),
            Ok(v) => digits_number(seq![c], radix, v),
        }),
    decreases s.len(),
{
    let t = s.push(c);
    if s.len() == 0 {
        assert(t =~= seq![c]);
    } else {
        assert(t[0] == s[0]);
        assert(t.drop_first() =~= s.drop_first().push(c));
        match digit_value(s[0], radix) {
            None => {},
            Some(d) => {
                lemma_digits_number_push(s.drop_first(), c, radix, acc * radix + d);
            },
        }
    }
}

proof fn lemma_digit_char(d: nat, radix: nat)
    requires
        d < radix <= 16,
    ensures
        digit_value(digit_char(d), radix) == Some(d),
        digit_char(d) != '+',
        digit_char(d) != '.',
{
}

/// A number's text has only digits of its radix, and reading it gives the number back.
pub proof fn lemma_text_number(n: nat, radix: nat)
    requires
        2 <= radix <= 16,
        n <= u64::MAX,
    ensures
        radix_text(n, radix).len() > 0,
        digits_number(radix_text(n, radix), radix, 0) == Ok::<nat, IntError>(n),
        forall|i: int|
            0 <= i < radix_text(n, radix).len() ==> #[trigger] radix_text(n, radix)[i] != '+'
                && radix_text(n, radix)[i] != '.',
    decreases n,
{
    let t = radix_text(n, radix);
    if n < radix {
        lemma_digit_char(n, radix);
        let rest = t.drop_first();
        assert(rest =~= Seq::<char>::empty());
        assert(digits_number(rest, radix, 0 * radix + n) == Ok::<nat, IntError>(n));
    } else {
        let q = n / radix;
        let c = digit_char(n % radix);
        assert(q < n && q * radix + n % radix == n) by (nonlinear_arith)
            requires
                q == n / radix,
                2 <= radix <= n,
        ;
        lemma_text_number(q, radix);
        lemma_digit_char(n % radix, radix);
        lemma_digits_number_push(radix_text(q, radix), c, radix, 0);
        let one = seq![c];
        assert(one.drop_first() =~= Seq::<char>::empty());
        assert(digits_number(one.drop_first(), radix, n) == Ok::<nat, IntError>(n));
        assert(digits_number(one, radix, q) == Ok::<nat, IntError>(n));
    }
}

/// Reading the text of a number gives the number.
pub proof fn law_number_of_text(n: nat, radix: nat)
    requires
        2 <= radix <= 16,
        n <= u64::MAX,
    ensures
        number(radix_text(n, radix), radix) == Ok::<nat, IntError>(n),
{
    lemma_text_number(n, radix);
}

/// The view of an optional text.
pub open spec fn text_view(text: Option<String>) -> Option<Seq<char>> {
    match text {
        None => None,
        Some(t) => Some(t@),
    }
}

/// The characters of `s`.
pub fn to_chars(s: &str) -> (r: Vec<char>)
    ensures
        r@ == s@,
{
    let mut r: Vec<char> = Vec::new();
    for c in it: s.chars()
        invariant
            r@ == it.seq().take(it.index() as int),
            it.seq() == s@,
    {
        r.push(c);
        assert(it.seq().take(it.index() + 1) =~= it.seq().take(it.index() as int).push(c));
    }
    assert(s@.take(s@.len() as int) =~= s@);
    r
}

fn digit_of(c: char, radix: u64) -> (r: Option<u64>)
    requires
        radix <= 16,
    ensures
        match digit_value(c, radix as nat) {
            None => r is None,
            Some(d) => r == Some(d as u64) && d < radix,
        },
{
    let v: u64 = if '0' <= c && c <= '9' {
        c as u64 - '0' as u64
    } else if 'a' <= c && c <= 'f' {
        c as u64 - 'a' as u64 + 10
    } else if 'A' <= c && c <= 'F' {
        c as u64 - 'A' as u64 + 10
    } else {
        16
    };
    if v < radix {
        Some(v)
    } else {
        None
    }
}

/// Read an unsigned 64-bit number of the given radix: an optional `+`, then digits only.
pub fn parse_number(s: &[char], radix: u64) -> (r: Result<u64, IntError>)
    requires
        2 <= radix <= 16,
    ensures
        r is Ok <==> number(s@, radix as nat) is Ok,
        r matches Ok(v) ==> number(s@, radix as nat) == Ok::<nat, IntError>(v as nat),
        r matches Err(e) ==> number(s@, radix as nat) == Err::<nat, IntError>(e),
{
    if s.len() == 0 {
        return Err(IntError::Empty);
    }
    let mut i: usize = if s.len() > 1 && s[0] == '+' {
        1
    } else {
        0
    };
    let mut acc: u64 = 0;
    let ghost goal = number(s@, radix as nat);
    assert(s@.skip(0) =~= s@);
    assert(s@.skip(1) =~= s@.drop_first());
    while i < s.len()
        invariant
            i <= s@.len(),
            2 <= radix <= 16,
            goal == number(s@, radix as nat),
            goal == digits_number(s@.skip(i as int), radix as nat, acc as nat),
        decreases s@.len() - i,
    {
        let ghost rest = s@.skip(i as int);
        assert(rest.drop_first() =~= s@.skip(i + 1));
        match digit_of(s[i], radix) {
            None => {
                return Err(IntError::InvalidDigit);
            },
            Some(d) => {
                assert(acc * radix <= acc * 16 && acc * radix >= 0) by (nonlinear_arith)
                    requires
                        0 <= radix <= 16,
                        0 <= acc,
                ;
                let wide: u128 = acc as u128 * radix as u128 + d as u128;
                if wide > u64::MAX as u128 {
                    return Err(IntError::TooLarge);
                }
                acc = wide as u64;
            },
        }
        i = i + 1;
    }
    Ok(acc)
}

/// Append `n` in the given radix to `out`.
pub fn push_number(out: &mut String, n: u64, radix: u64)
    requires
        2 <= radix <= 16,
    ensures
        final(out)@ == old(out)@ + radix_text(n as nat, radix as nat),
    decreases n,
{
    if n >= radix {
        assert(n / radix < n) by (nonlinear_arith)
            requires
                2 <= radix <= n,
        ;
        push_number(out, n / radix, radix);
    }
    let d: u8 = (n % radix) as u8;
    let c: char = if d < 10 {
        (d + 48u8) as char
    } else {
        (d - 10u8 + 97u8) as char
    };
    let ghost before = out@;
    out.push(c);
    proof {
        assert(n < radix ==> n % radix == n) by (nonlinear_arith)
            requires
                2 <= radix,
        ;
        assert(c == digit_char((n % radix) as nat));
        let whole = radix_text(n as nat, radix as nat);
        assert(out@ =~= old(out)@ + whole);
    }
}

} // verus!
