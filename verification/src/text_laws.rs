//! What the texts that the library reads and writes denote.
use crate::attribute::{
    argument, expansion, outcome, range_in, ArgsView, AttributeFault, ExpansionView, Shape,
    SpliceArg,
};
use crate::cli::{all_space, is_space, trim_end, trim_start};
use crate::error::Fault;
use crate::section_name::{first_dot, is_splice_name, named_range, section_text};
use crate::text::{
    digit_char, digit_value, digits_number, hex_text, lemma_digits_number_push, number, radix_text,
    IntError,
};
use vstd::prelude::*;

verus! {

/// The digits are `0` to `9`, then the letters from `a` on in either case, each worth one more
/// than the one before, as far as the radix goes.
pub proof fn law_digits(c: char, radix: nat)
    requires
        radix <= 16,
    ensures
        match digit_value(c, radix) {
            Some(d) => d < radix && (c as int == 48 + d && d < 10 || c as int == 87 + d && d >= 10
                || c as int == 55 + d && d >= 10),
            None => !(48 <= c as int <= 57 && c as int - 48 < radix) && !(97 <= c as int <= 102
                && c as int - 87 < radix) && !(65 <= c as int <= 70 && c as int - 55 < radix),
        },
{
}

/// A digit behind a number multiplies it by the radix and adds the digit, unless that needs more
/// than 64 bits. Anything else behind it is refused.
pub proof fn law_digit_behind(s: Seq<char>, c: char, radix: nat, v: nat)
    requires
        2 <= radix <= 16,
        number(s, radix) == Ok::<nat, IntError>(v),
    ensures
        match digit_value(c, radix) {
            None => number(s.push(c), radix) == Err::<nat, IntError>(IntError::InvalidDigit),
            Some(d) => number(s.push(c), radix) == if v * radix + d <= u64::MAX {
                Ok::<nat, IntError>(v * radix + d)
            } else {
                Err::<nat, IntError>(IntError::TooLarge)
            },
        },
{
    let one = seq![c];
    assert(one.drop_first() =~= Seq::<char>::empty());
    let t = s.push(c);
    assert(t[0] == s[0]);
    if s.len() > 1 && s[0] == '+' {
        assert(t.drop_first() =~= s.drop_first().push(c));
        lemma_digits_number_push(s.drop_first(), c, radix, 0);
    } else {
        assert(s[0] != '+') by {
            assert(digits_number(s, radix, 0) is Ok);
        }
        lemma_digits_number_push(s, c, radix, 0);
    }
    if let Some(d) = digit_value(c, radix) {
        if v * radix + d <= u64::MAX {
            assert(digits_number(one.drop_first(), radix, v * radix + d) == Ok::<nat, IntError>(
                v * radix + d,
            ));
        }
        assert(digits_number(one, radix, v) == digits_number(t.skip(t.len() - 1), radix, v)) by {
            assert(t.skip(t.len() - 1) =~= one);
        }
    }
}

/// One digit denotes its value, no text denotes none, and a plus sign in front of a number
/// changes nothing.
pub proof fn law_short_numbers(c: char, radix: nat, s: Seq<char>)
    requires
        2 <= radix <= 16,
    ensures
        number(Seq::empty(), radix) == Err::<nat, IntError>(IntError::Empty),
        number(seq![c], radix) == match digit_value(c, radix) {
            Some(d) => Ok::<nat, IntError>(d),
            None => Err::<nat, IntError>(IntError::InvalidDigit),
        },
        s.len() > 0 && s[0] != '+' ==> number(seq!['+'] + s, radix) == number(s, radix),
{
    let one = seq![c];
    assert(one.drop_first() =~= Seq::<char>::empty());
    if let Some(d) = digit_value(c, radix) {
        assert(digits_number(one.drop_first(), radix, 0 * radix + d) == Ok::<nat, IntError>(d));
    }
    assert((seq!['+'] + s).drop_first() =~= s);
}

/// The text of a number starts with a zero only where the number is zero, and consists of the
/// digits `0` to `9` and lower-case letters.
pub proof fn law_number_text(n: nat, radix: nat)
    requires
        2 <= radix <= 16,
    ensures
        ({
            let t = radix_text(n, radix);
            &&& t.len() > 0
            &&& (t[0] == '0' <==> n == 0)
            &&& forall|i: int|
                0 <= i < t.len() ==> (48 <= (#[trigger] t[i]) as int <= 57 || 97 <= t[i] as int
                    <= 102)
        }),
    decreases n,
{
    let t = radix_text(n, radix);
    assert forall|d: nat| d < 16 implies (48 <= (#[trigger] digit_char(d)) as int <= 57 || 97
        <= digit_char(d) as int <= 102) && (digit_char(d) == '0' <==> d == 0) by {}
    if n >= radix {
        let q = n / radix;
        assert(0 < q < n && n % radix < radix) by (nonlinear_arith)
            requires
                q == n / radix,
                2 <= radix <= n,
        ;
        law_number_text(q, radix);
        let init = radix_text(q, radix);
        assert(t[0] == init[0]);
        assert forall|i: int| 0 <= i < t.len() implies (48 <= (#[trigger] t[i]) as int <= 57 || 97
            <= t[i] as int <= 102) by {
            if i < init.len() {
                assert(t[i] == init[i]);
            } else {
                assert(t[i] == digit_char(n % radix));
            }
        }
    } else {
        assert(t[0] == digit_char(n));
    }
}

proof fn lemma_dot(a: Seq<char>, b: Seq<char>)
    requires
        forall|i: int| 0 <= i < a.len() ==> a[i] != '.',
    ensures
        first_dot(a + seq!['.'] + b) == Some(a.len() as int),
    decreases a.len(),
{
    let all = a + seq!['.'] + b;
    if a.len() > 0 {
        assert(all.drop_first() =~= a.drop_first() + seq!['.'] + b);
        lemma_dot(a.drop_first(), b);
    }
}

proof fn lemma_no_dot(a: Seq<char>)
    requires
        forall|i: int| 0 <= i < a.len() ==> a[i] != '.',
    ensures
        first_dot(a) is None,
    decreases a.len(),
{
    if a.len() > 0 {
        lemma_no_dot(a.drop_first());
    }
}

/// A section name gives the range that it writes behind `.rspl.` as two hexadecimal numbers with
/// a dot between, and says which of the two is none.
pub proof fn law_range_of_name(a: Seq<char>, b: Seq<char>)
    requires
        forall|i: int| 0 <= i < a.len() ==> a[i] != '.',
    ensures
        ({
            let name = seq!['.', 'r', 's', 'p', 'l', '.'] + a + seq!['.'] + b;
            named_range(name) == Some(
                match (number(a, 16), number(b, 16)) {
                    (Ok(begin), Ok(end)) => Ok::<(u64, u64), Fault<Seq<char>>>(
                        (begin as u64, end as u64),
                    ),
                    (Err(reason), _) => Err(Fault::InvalidBegin { name, reason }),
                    (Ok(_), Err(reason)) => Err(Fault::InvalidEnd { name, reason }),
                },
            )
        }),
        ({
            let name = seq!['.', 'r', 's', 'p', 'l', '.'] + a;
            named_range(name) == Some(
                Err::<(u64, u64), Fault<Seq<char>>>(Fault::MalformedName { name }),
            )
        }),
{
    reveal_strlit(".rspl.");
    let head = seq!['.', 'r', 's', 'p', 'l', '.'];
    assert(head =~= ".rspl."@);
    let name = head + a + seq!['.'] + b;
    let rest = name.skip(6);
    assert(name.take(6) =~= ".rspl."@);
    assert(rest =~= a + seq!['.'] + b);
    lemma_dot(a, b);
    assert(rest.take(a.len() as int) =~= a);
    assert(rest.skip(a.len() as int + 1) =~= b);
    let short = head + a;
    assert(short.take(6) =~= ".rspl."@);
    assert(short.skip(6) =~= a);
    lemma_no_dot(a);
}

/// A section whose name does not start with `.rspl.` is no splice.
pub proof fn law_other_names(name: Seq<char>)
    ensures
        named_range(name) is None <==> !(name.len() >= 6 && name[0] == '.' && name[1] == 'r'
            && name[2] == 's' && name[3] == 'p' && name[4] == 'l' && name[5] == '.'),
        is_splice_name(name) <==> named_range(name) is Some,
{
    reveal_strlit(".rspl.");
    if name.len() >= 6 {
        let head = name.take(6);
        assert(forall|i: int| 0 <= i < 6 ==> head[i] == #[trigger] name[i]);
        if name[0] == '.' && name[1] == 'r' && name[2] == 's' && name[3] == 'p' && name[4] == 'l'
            && name[5] == '.' {
            assert(head =~= ".rspl."@);
        }
    }
}

/// The name of a section is `.rspl.` and the two addresses in hexadecimal, with a dot between.
pub proof fn law_name_of_range(begin: nat, end: nat)
    ensures
        section_text(begin, end) == seq!['.', 'r', 's', 'p', 'l', '.'] + hex_text(begin) + seq!['.']
            + hex_text(end),
        hex_text(begin) == radix_text(begin, 16),
{
    reveal_strlit(".rspl.");
    reveal_strlit(".");
    assert(section_text(begin, end) =~= seq!['.', 'r', 's', 'p', 'l', '.'] + hex_text(begin)
        + seq!['.'] + hex_text(end));
}

/// Whether an argument is `key = <integer literal>`.
pub open spec fn gives(arg: SpliceArg<Seq<char>>, key: Seq<char>) -> bool {
    arg matches SpliceArg::NameValue { key: Some(k), digits: Some(_) } && k == key
}

proof fn lemma_argument(args: Seq<SpliceArg<Seq<char>>>, key: Seq<char>, value: Option<u64>, k: int)
    requires
        -1 <= k < args.len(),
        k >= 0 ==> gives(args[k], key),
        forall|j: int| k < j < args.len() ==> !gives(#[trigger] args[j], key),
    ensures
        argument(args, key, value) == (if k < 0 {
            value
        } else {
            match number(args[k]->NameValue_digits->0, 10) {
                Ok(n) => Some(n as u64),
                Err(_) => None,
            }
        }),
    decreases args.len(),
{
    if args.len() > 0 {
        let rest = args.drop_first();
        assert forall|j: int| k - 1 < j < rest.len() && 0 <= j implies !gives(
            #[trigger] rest[j],
            key,
        ) by {
            assert(rest[j] == args[j + 1]);
        }
        let next = match args[0] {
            SpliceArg::NameValue { key: Some(k), digits: Some(d) } if k == key =>
                crate::attribute::literal_value(d),
            _ => value,
        };
        if k >= 1 {
            assert(rest[k - 1] == args[k]);
            lemma_argument(rest, key, next, k - 1);
        } else {
            lemma_argument(rest, key, next, -1);
            if k < 0 {
                assert(!gives(args[0], key));
            }
        }
    }
}

/// Of several arguments with the same key the last one counts, as a decimal number of 64 bits;
/// without any there is no address. `begin` gives the first address, `end` the second.
pub proof fn law_last_argument(args: Seq<SpliceArg<Seq<char>>>, begin: int, end: int)
    requires
        -1 <= begin < args.len(),
        -1 <= end < args.len(),
        begin >= 0 ==> gives(args[begin], seq!['b', 'e', 'g', 'i', 'n']),
        end >= 0 ==> gives(args[end], seq!['e', 'n', 'd']),
        forall|j: int|
            begin < j < args.len() ==> !gives(
                #[trigger] args[j],
                seq!['b', 'e', 'g', 'i', 'n'],
            ),
        forall|j: int|
            end < j < args.len() ==> !gives(#[trigger] args[j], seq!['e', 'n', 'd']),
    ensures
        ({
            let r = range_in(Ok(args));
            let first = if begin < 0 {
                None
            } else {
                match number(args[begin]->NameValue_digits->0, 10) {
                    Ok(n) => Some(n as u64),
                    Err(_) => None,
                }
            };
            let second = if end < 0 {
                None
            } else {
                match number(args[end]->NameValue_digits->0, 10) {
                    Ok(n) => Some(n as u64),
                    Err(_) => None,
                }
            };
            r == Ok::<(Option<u64>, Option<u64>), AttributeFault<Seq<char>>>((first, second))
        }),
{
    reveal_strlit("begin");
    reveal_strlit("end");
    assert("begin"@ =~= seq!['b', 'e', 'g', 'i', 'n']);
    assert("end"@ =~= seq!['e', 'n', 'd']);
    lemma_argument(args, "begin"@, None, begin);
    lemma_argument(args, "end"@, None, end);
}

/// An attribute with both addresses makes every function and every static public, and gives every
/// function the C calling convention, unless the item says otherwise; a static never gets one.
/// Nothing becomes of any other item, nor where an address is missing.
pub proof fn law_expanded(range: (Option<u64>, Option<u64>), shape: Shape)
    ensures
        match expansion(range, shape) {
            Ok(x) => {
                &&& range.0 is Some && range.1 is Some
                &&& !(shape is Other)
                &&& x.section == section_text(range.0->0 as nat, range.1->0 as nat)
                &&& shape matches Shape::Function { has_visibility, has_abi } ==> x.add_visibility
                    != has_visibility && x.add_abi != has_abi
                &&& shape matches Shape::Static { has_visibility } ==> x.add_visibility
                    != has_visibility && !x.add_abi
            },
            Err(e) => match e {
                AttributeFault::MissingBegin => range.0 is None,
                AttributeFault::MissingEnd => range.0 is Some && range.1 is None,
                AttributeFault::UnsupportedItem => range.0 is Some && range.1 is Some
                    && shape is Other,
                AttributeFault::Syntax(_) => false,
            },
        },
{
}

/// Trimming takes white space away at both ends, and all of it.
pub proof fn law_trimmed(s: Seq<char>)
    ensures
        ({
            let t = trim_end(trim_start(s));
            &&& t.len() > 0 ==> !is_space(t[0]) && !is_space(t.last())
            &&& exists|front: Seq<char>, back: Seq<char>|
                all_space(front) && all_space(back) && s == #[trigger] (front + t + back)
        }),
{
    let front = lemma_trim_start(s);
    let mid = trim_start(s);
    let back = lemma_trim_end(mid);
    let t = trim_end(mid);
    assert(s =~= front + t + back);
    if t.len() > 0 {
        assert(mid[0] == t[0]);
    }
}

proof fn lemma_trim_start(s: Seq<char>) -> (front: Seq<char>)
    ensures
        all_space(front),
        s == front + trim_start(s),
        trim_start(s).len() > 0 ==> !is_space(trim_start(s)[0]),
    decreases s.len(),
{
    if s.len() > 0 && is_space(s[0]) {
        let rest = lemma_trim_start(s.drop_first());
        let front = seq![s[0]] + rest;
        let t = trim_start(s);
        assert(t == trim_start(s.drop_first()));
        assert(s =~= seq![s[0]] + s.drop_first());
        assert(seq![s[0]] + (rest + t) =~= front + t);
        front
    } else {
        assert(s =~= Seq::<char>::empty() + s);
        Seq::empty()
    }
}

proof fn lemma_trim_end(s: Seq<char>) -> (back: Seq<char>)
    ensures
        all_space(back),
        s == trim_end(s) + back,
        trim_end(s).len() > 0 ==> !is_space(trim_end(s).last()),
    decreases s.len(),
{
    if s.len() > 0 && is_space(s.last()) {
        let rest = lemma_trim_end(s.drop_last());
        let back = rest.push(s.last());
        let t = trim_end(s);
        assert(t == trim_end(s.drop_last()));
        assert(s =~= s.drop_last().push(s.last()));
        assert((t + rest).push(s.last()) =~= t + back);
        back
    } else {
        assert(s =~= s + Seq::<char>::empty());
        Seq::empty()
    }
}

/// A text that is no number does not become one by what follows it, and is refused for the same
/// reason: only a lone plus sign, and no text at all, can still become one.
pub proof fn law_refusal_stays(s: Seq<char>, c: char, radix: nat, e: IntError)
    requires
        2 <= radix <= 16,
        s.len() > 0,
        s != seq!['+'],
        number(s, radix) == Err::<nat, IntError>(e),
    ensures
        number(s.push(c), radix) == Err::<nat, IntError>(e),
{
    let t = s.push(c);
    assert(t[0] == s[0]);
    if s[0] == '+' {
        assert(s.len() > 1) by {
            if s.len() == 1 {
                assert(s =~= seq!['+']);
            }
        }
        assert(t.drop_first() =~= s.drop_first().push(c));
        lemma_digits_number_push(s.drop_first(), c, radix, 0);
    } else {
        lemma_digits_number_push(s, c, radix, 0);
    }
}

/// An item that does not parse is told of first, then arguments that do not; what parses is
/// expanded with the addresses that the arguments give.
pub proof fn law_parsed_first(shape: Shape, item_error: Seq<char>, list: ArgsView)
    ensures
        outcome(Err(item_error), list) == Err::<ExpansionView, AttributeFault<Seq<char>>>(
            AttributeFault::Syntax(item_error),
        ),
        list matches Err(e) ==> outcome(Ok(shape), list) == Err::<
            ExpansionView,
            AttributeFault<Seq<char>>,
        >(AttributeFault::Syntax(e)),
        list is Ok ==> range_in(list) is Ok && outcome(Ok(shape), list) == expansion(
            range_in(list)->Ok_0,
            shape,
        ),
{
}

/// Of the ASCII characters, the tab, the line breaks and the blank are white space.
pub proof fn law_ascii_space(c: char)
    requires
        c as int <= 0x7f,
    ensures
        is_space(c) <==> c == ' ' || c == '\t' || c == '\n' || c == '\r' || c == '\u{b}' || c
            == '\u{c}',
{
}

} // verus!
