//! Splice section names: `.rspl.<begin>.<end>`, the addresses in lower-case hexadecimal.
use crate::error::{Error, Fault};
use crate::text::{
    hex_text, law_number_of_text, lemma_text_number, number, parse_number, push_number, radix_text,
    to_chars,
};
use vstd::prelude::*;
use vstd::slice::slice_subrange;

verus! {

/// Whether a section of that name is a splice section.
pub open spec fn is_splice_name(name: Seq<char>) -> bool {
    name.len() >= 6 && name.take(6) == ".rspl."@
}

/// The position of the first dot in `s`.
pub open spec fn first_dot(s: Seq<char>) -> Option<int>
    decreases s.len(),
{
    if s.len() == 0 {
        None
    } else if s[0] == '.' {
        Some(0)
    } else {
        match first_dot(s.drop_first()) {
            None => None,
            Some(i) => Some(i + 1),
        }
    }
}

/// The address range that a section name holds; `None` where it is not that of a splice.
pub open spec fn named_range(name: Seq<char>) -> Option<Result<(u64, u64), Fault<Seq<char>>>> {
    if !is_splice_name(name) {
        None
    } else {
        let rest = name.skip(6);
        match first_dot(rest) {
            None => Some(Err(Fault::MalformedName { name })),
            Some(i) => match number(rest.take(i), 16) {
                Err(reason) => Some(Err(Fault::InvalidBegin { name, reason })),
                Ok(begin) => match number(rest.skip(i + 1), 16) {
                    Err(reason) => Some(Err(Fault::InvalidEnd { name, reason })),
                    Ok(end) => Some(Ok((begin as u64, end as u64))),
                },
            },
        }
    }
}

/// The name of the section for the range from `begin` to `end`.
pub open spec fn section_text(begin: nat, end: nat) -> Seq<char> {
    ".rspl."@ + hex_text(begin) + "."@ + hex_text(end)
}

/// The name of the section for the range from `begin` to `end`.
pub fn section_name(begin: u64, end: u64) -> (r: String)
    ensures
        r@ == section_text(begin as nat, end as nat),
{
    let mut r = ".rspl.".to_owned();
    push_number(&mut r, begin, 16);
    r.append(".");
    push_number(&mut r, end, 16);
    r
}

fn has_prefix(name: &Vec<char>) -> (r: bool)
    ensures
        r == is_splice_name(name@),
{
    proof {
        reveal_strlit(".rspl.");
    }
    let r: bool = name.len() >= 6 && name[0] == '.' && name[1] == 'r' && name[2] == 's' && name[3]
        == 'p' && name[4] == 'l' && name[5] == '.';
    proof {
        if name@.len() >= 6 {
            let head = name@.take(6);
            assert(r ==> head =~= ".rspl."@);
            assert(forall|i: int| 0 <= i < 6 ==> head[i] == #[trigger] name@[i]);
            assert(head == ".rspl."@ ==> r);
        }
    }
    r
}

/// Whether a section of that name is a splice section.
pub fn is_splice_section(name: &str) -> (r: bool)
    ensures
        r == is_splice_name(name@),
{
    has_prefix(&to_chars(name))
}

fn find_dot(s: &[char]) -> (r: Option<usize>)
    ensures
        match r {
            None => first_dot(s@) is None,
            Some(i) => first_dot(s@) == Some(i as int) && i < s@.len(),
        },
{
    let mut i: usize = 0;
    assert(s@.skip(0) =~= s@);
    while i < s.len()
        invariant
            i <= s@.len(),
            first_dot(s@) == (match first_dot(s@.skip(i as int)) {
                None => None,
                Some(j) => Some(i + j),
            }),
        decreases s@.len() - i,
    {
        assert(s@.skip(i as int)[0] == s@[i as int]);
        assert(s@.skip(i as int).drop_first() =~= s@.skip(i + 1));
        if s[i] == '.' {
            return Some(i);
        }
        i = i + 1;
    }
    None
}

/// Parse a `.rspl.<begin>.<end>` section name into its address range.
///
/// Returns `None` for any section that is not a splice section.
pub fn parse_splice_section(name: &str) -> (r: Option<Result<(u64, u64), Error>>)
    ensures
        match named_range(name@) {
            None => r is None,
            Some(Ok(range)) => r matches Some(Ok(p)) && p == range,
            Some(Err(f)) => r matches Some(Err(e)) && e@ == f,
        },
{
    let chars = to_chars(name);
    if !has_prefix(&chars) {
        return None;
    }
    let rest = slice_subrange(chars.as_slice(), 6, chars.len());
    assert(rest@ =~= name@.skip(6));
    let dot: usize = match find_dot(rest) {
        None => {
            return Some(Err(Fault::MalformedName { name: name.to_owned() }));
        },
        Some(i) => i,
    };
    let first = slice_subrange(rest, 0, dot);
    let second = slice_subrange(rest, dot + 1, rest.len());
    assert(first@ =~= rest@.take(dot as int));
    assert(second@ =~= rest@.skip(dot + 1));
    match parse_number(first, 16) {
        Err(reason) => Some(Err(Fault::InvalidBegin { name: name.to_owned(), reason })),
        Ok(begin) => match parse_number(second, 16) {
            Err(reason) => Some(Err(Fault::InvalidEnd { name: name.to_owned(), reason })),
            Ok(end) => Some(Ok((begin, end))),
        },
    }
}

/// Parse a `.rspl.<begin>.<end>` section name into its `(begin, end)` range.
pub fn splice_range(name: &str) -> (r: Option<(u64, u64)>)
    ensures
        r == (match named_range(name@) {
            Some(Ok(range)) => Some(range),
            _ => None,
        }),
{
    match parse_splice_section(name) {
        Some(Ok(range)) => Some(range),
        _ => None,
    }
}

proof fn lemma_first_dot(s: Seq<char>, t: Seq<char>)
    requires
        forall|i: int| 0 <= i < s.len() ==> s[i] != '.',
    ensures
        first_dot(s + "."@ + t) == Some(s.len() as int),
    decreases s.len(),
{
    reveal_strlit(".");
    let all = s + "."@ + t;
    if s.len() > 0 {
        assert(all.drop_first() =~= s.drop_first() + "."@ + t);
        lemma_first_dot(s.drop_first(), t);
    }
}

/// A section named for a range is parsed back to that range.
pub proof fn law_section_name(begin: nat, end: nat)
    requires
        begin <= u64::MAX,
        end <= u64::MAX,
    ensures
        named_range(section_text(begin, end)) == Some(
            Ok::<(u64, u64), Fault<Seq<char>>>((begin as u64, end as u64)),
        ),
{
    reveal_strlit(".rspl.");
    reveal_strlit(".");
    let b = hex_text(begin);
    let e = hex_text(end);
    let name = section_text(begin, end);
    let rest = name.skip(6);
    lemma_text_number(begin, 16);
    law_number_of_text(begin, 16);
    law_number_of_text(end, 16);
    assert(name.take(6) =~= ".rspl."@);
    assert(rest =~= b + "."@ + e);
    assert forall|i: int| 0 <= i < b.len() implies b[i] != '.' by {
        assert(radix_text(begin, 16)[i] != '.');
    }
    lemma_first_dot(b, e);
    assert(rest.take(b.len() as int) =~= b);
    assert(rest.skip(b.len() as int + 1) =~= e);
}

} // verus!
