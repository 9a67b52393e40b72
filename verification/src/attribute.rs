//! The `#[Splice(begin = .., end = ..)]` attribute: what it asks for, and what becomes of the
//! item that it stands on.
use crate::error::Fault;
use crate::section_name::{law_section_name, named_range, section_name, section_text};
use crate::text::{number, parse_number, text_view, to_chars};
use syn::parse::Parser;
use syn::punctuated::Punctuated;
use syn::token::Comma;
use syn::{Expr, ExprLit, Item, Lit, Meta, Visibility};
use vstd::prelude::*;

verus! {

/// An argument of the attribute: `key = value`, or anything else. `N` is the type of texts.
#[derive(Debug)]
pub enum SpliceArg<N> {
    /// The key where it is a single identifier, and the decimal digits of the value where it is
    /// an integer literal.
    NameValue { key: Option<N>, digits: Option<N> },
    Other,
}

impl View for SpliceArg<String> {
    type V = SpliceArg<Seq<char>>;

    open spec fn view(&self) -> SpliceArg<Seq<char>> {
        match self {
            SpliceArg::NameValue { key, digits } => SpliceArg::NameValue {
                key: text_view(*key),
                digits: text_view(*digits),
            },
            SpliceArg::Other => SpliceArg::Other,
        }
    }
}

/// The views of a list of arguments.
pub open spec fn args_view(args: Seq<SpliceArg<String>>) -> Seq<SpliceArg<Seq<char>>> {
    args.map_values(|a: SpliceArg<String>| a@)
}

/// What the parsed list of an attribute's arguments is, or the text of the error.
pub type ArgsView = Result<Seq<SpliceArg<Seq<char>>>, Seq<char>>;

/// The view of a parsed list of arguments.
pub open spec fn parsed_args(list: Result<Vec<SpliceArg<String>>, String>) -> ArgsView {
    match list {
        Ok(args) => Ok(args_view(args@)),
        Err(e) => Err(e@),
    }
}

/// The arguments that `syn` finds in `text`, or the text of its error, where `lexer` cuts the text
/// into tokens.
pub uninterp spec fn args_of(text: Seq<char>, lexer: int) -> ArgsView;

/// `syn`'s parser for a comma-separated list of `Meta`. Kept are the key of a `key = value`
/// argument where it is a single identifier, and the decimal digits that
/// `LitInt::base10_digits` gives of its value where that is an integer literal. An error is kept
/// as its text. The result is a function of the text and of the lexer at work: the compiler's own
/// where the call runs inside a macro, `proc_macro2`'s elsewhere. The two do not agree on every
/// text, and which one runs is not known here, so that of two calls nothing is claimed. An empty
/// text has no arguments, whichever lexer it is.
#[verifier::external_body]
fn attribute_args(text: &str) -> (r: Result<Vec<SpliceArg<String>>, String>)
    ensures
        exists|lexer: int| parsed_args(r) == #[trigger] args_of(text@, lexer),
        text@.len() == 0 ==> r is Ok && r->Ok_0@.len() == 0,
{
    let list = Punctuated::<Meta, Comma>::parse_terminated.parse_str(text);
    let digits = |value: &Expr| match value {
        Expr::Lit(ExprLit { lit: Lit::Int(i), .. }) => Some(i.base10_digits().to_owned()),
        _ => None,
    };
    Ok(list.map_err(|e| e.to_string())?.iter().map(|meta| match meta {
        Meta::NameValue(nv) => SpliceArg::NameValue {
            key: nv.path.get_ident().map(|i| i.to_string()),
            digits: digits(&nv.value),
        },
        _ => SpliceArg::Other,
    }).collect())
}

/// What kind of item an attribute stands on, and what its author wrote of visibility and ABI.
#[derive(Debug, Clone, Copy, PartialEq, Eq, Structural)]
pub enum Shape {
    Function { has_visibility: bool, has_abi: bool },
    Static { has_visibility: bool },
    Other,
}

/// The view of a parsed item.
pub open spec fn parsed_item(shape: Result<Shape, String>) -> Result<Shape, Seq<char>> {
    match shape {
        Ok(shape) => Ok(shape),
        Err(e) => Err(e@),
    }
}

/// The item that `syn` finds in `text`, or the text of its error, where `lexer` cuts the text into
/// tokens.
pub uninterp spec fn item_of(text: Seq<char>, lexer: int) -> Result<Shape, Seq<char>>;

/// `syn::parse_str` for an item. Of a function is kept whether a visibility and an ABI are
/// written, of a static whether a visibility is; an error is kept as its text. The result is a
/// function of the text and of the lexer at work, as that of `attribute_args` is. An empty text
/// holds no item, whichever lexer it is.
#[verifier::external_body]
fn item_shape(text: &str) -> (r: Result<Shape, String>)
    ensures
        exists|lexer: int| parsed_item(r) == #[trigger] item_of(text@, lexer),
        text@.len() == 0 ==> r is Err,
{
    let written = |vis: &Visibility| !matches!(vis, Visibility::Inherited);
    Ok(match syn::parse_str::<Item>(text).map_err(|e| e.to_string())? {
        Item::Fn(f) => Shape::Function { has_visibility: written(&f.vis), has_abi: f.sig.abi.is_some() },
        Item::Static(s) => Shape::Static { has_visibility: written(&s.vis) },
        _ => Shape::Other,
    })
}

/// The address that a value denotes, where it is an integer of 64 bits.
pub open spec fn literal_value(digits: Seq<char>) -> Option<u64> {
    match number(digits, 10) {
        Ok(n) => Some(n as u64),
        Err(_) => None,
    }
}

/// The value of the last argument `key = <integer literal>`, else `value`.
pub open spec fn argument(args: Seq<SpliceArg<Seq<char>>>, key: Seq<char>, value: Option<u64>) -> Option<
    u64,
>
    decreases args.len(),
{
    if args.len() == 0 {
        value
    } else {
        let next = match args[0] {
            SpliceArg::NameValue { key: Some(k), digits: Some(d) } if k == key => literal_value(d),
            _ => value,
        };
        argument(args.drop_first(), key, next)
    }
}

/// Extract the `begin`/`end` integer addresses from a `#[Splice(..)]` argument
/// list. Either may be missing (reported to the caller as `None`).
pub fn parse_range(args: &Vec<SpliceArg<String>>) -> (r: (Option<u64>, Option<u64>))
    ensures
        r.0 == argument(args_view(args@), "begin"@, None),
        r.1 == argument(args_view(args@), "end"@, None),
{
    proof {
        reveal_strlit("begin");
        reveal_strlit("end");
    }
    let begin_key = "begin".to_owned();
    let end_key = "end".to_owned();
    let ghost all = args_view(args@);
    let mut begin: Option<u64> = None;
    let mut end: Option<u64> = None;
    let mut i: usize = 0;
    assert(all.skip(0) =~= all);
    while i < args.len()
        invariant
            i <= args@.len(),
            begin_key@ == "begin"@,
            end_key@ == "end"@,
            "begin"@.len() == 5,
            "end"@.len() == 3,
            all == args_view(args@),
            argument(all, "begin"@, None) == argument(all.skip(i as int), "begin"@, begin),
            argument(all, "end"@, None) == argument(all.skip(i as int), "end"@, end),
        decreases args@.len() - i,
    {
        let arg = &args[i];
        assert(all.skip(i as int)[0] == arg@);
        assert(all.skip(i as int).drop_first() =~= all.skip(i + 1));
        if let SpliceArg::NameValue { key: Some(key), digits: Some(digits) } = arg {
            let value: Option<u64> = match parse_number(to_chars(digits.as_str()).as_slice(), 10) {
                Ok(n) => Some(n),
                Err(_) => None,
            };
            if *key == begin_key {
                begin = value;
            } else if *key == end_key {
                end = value;
            }
        }
        i = i + 1;
    }
    (begin, end)
}

/// Why an attribute cannot be expanded. `N` is the type of texts.
#[derive(Debug)]
pub enum AttributeFault<N> {
    /// The item or the arguments do not parse, for this reason.
    Syntax(N),
    /// No `begin`.
    MissingBegin,
    /// No `end`.
    MissingEnd,
    /// Neither a function nor a static.
    UnsupportedItem,
}

impl View for AttributeFault<String> {
    type V = AttributeFault<Seq<char>>;

    open spec fn view(&self) -> AttributeFault<Seq<char>> {
        match self {
            AttributeFault::Syntax(e) => AttributeFault::Syntax(e@),
            AttributeFault::MissingBegin => AttributeFault::MissingBegin,
            AttributeFault::MissingEnd => AttributeFault::MissingEnd,
            AttributeFault::UnsupportedItem => AttributeFault::UnsupportedItem,
        }
    }
}

/// How a failure to expand is told.
pub open spec fn attribute_fault_text(e: AttributeFault<Seq<char>>) -> Seq<char> {
    match e {
        AttributeFault::Syntax(e) => e,
        AttributeFault::MissingBegin => "Splice attribute requires 'begin' parameter"@,
        AttributeFault::MissingEnd => "Splice attribute requires 'end' parameter"@,
        AttributeFault::UnsupportedItem => "#[Splice] supports only `fn` and `static` items"@,
    }
}

impl AttributeFault<String> {
    /// How this failure is told.
    pub fn message(&self) -> (r: String)
        ensures
            r@ == attribute_fault_text(self@),
    {
        match self {
            AttributeFault::Syntax(e) => e.clone(),
            AttributeFault::MissingBegin => "Splice attribute requires 'begin' parameter".to_owned(),
            AttributeFault::MissingEnd => "Splice attribute requires 'end' parameter".to_owned(),
            AttributeFault::UnsupportedItem => "#[Splice] supports only `fn` and `static` items".to_owned(),
        }
    }
}

/// What becomes of an item: the section it is emitted into, and what is added to it.
#[derive(Debug)]
pub struct Expansion {
    pub section: String,
    /// The item is exported because its author wrote no visibility.
    pub add_visibility: bool,
    /// The function gets the C ABI because its author wrote none.
    pub add_abi: bool,
}

/// The model of an expansion.
pub struct ExpansionView {
    pub section: Seq<char>,
    pub add_visibility: bool,
    pub add_abi: bool,
}

impl View for Expansion {
    type V = ExpansionView;

    open spec fn view(&self) -> ExpansionView {
        ExpansionView {
            section: self.section@,
            add_visibility: self.add_visibility,
            add_abi: self.add_abi,
        }
    }
}

/// What becomes of an item of this shape under an attribute with these addresses. Both must be
/// given; an explicitly written visibility or ABI is left untouched.
pub open spec fn expansion(range: (Option<u64>, Option<u64>), shape: Shape) -> Result<
    ExpansionView,
    AttributeFault<Seq<char>>,
> {
    match range {
        (None, _) => Err(AttributeFault::MissingBegin),
        (Some(_), None) => Err(AttributeFault::MissingEnd),
        (Some(begin), Some(end)) => {
            let section = section_text(begin as nat, end as nat);
            match shape {
                Shape::Function { has_visibility, has_abi } => Ok(
                    ExpansionView {
                        section,
                        add_visibility: !has_visibility,
                        add_abi: !has_abi,
                    },
                ),
                Shape::Static { has_visibility } => Ok(
                    ExpansionView { section, add_visibility: !has_visibility, add_abi: false },
                ),
                Shape::Other => Err(AttributeFault::UnsupportedItem),
            }
        },
    }
}

/// Whether `r` is the expansion, or the failure, that `goal` names.
pub open spec fn is_expansion(
    r: Result<Expansion, AttributeFault<String>>,
    goal: Result<ExpansionView, AttributeFault<Seq<char>>>,
) -> bool {
    match r {
        Ok(x) => goal == Ok::<ExpansionView, AttributeFault<Seq<char>>>(x@),
        Err(e) => goal == Err::<ExpansionView, AttributeFault<Seq<char>>>(e@),
    }
}

/// Decide what becomes of an item of this shape under an attribute with these addresses.
pub fn expand(range: (Option<u64>, Option<u64>), shape: Shape) -> (r: Result<
    Expansion,
    AttributeFault<String>,
>)
    ensures
        is_expansion(r, expansion(range, shape)),
{
    let begin: u64 = match range.0 {
        None => {
            return Err(AttributeFault::MissingBegin);
        },
        Some(begin) => begin,
    };
    let end: u64 = match range.1 {
        None => {
            return Err(AttributeFault::MissingEnd);
        },
        Some(end) => end,
    };
    let section = section_name(begin, end);
    match shape {
        Shape::Function { has_visibility, has_abi } => Ok(
            Expansion { section, add_visibility: !has_visibility, add_abi: !has_abi },
        ),
        Shape::Static { has_visibility } => Ok(
            Expansion { section, add_visibility: !has_visibility, add_abi: false },
        ),
        Shape::Other => Err(AttributeFault::UnsupportedItem),
    }
}

/// The addresses that a parsed list of arguments gives.
pub open spec fn range_in(list: ArgsView) -> Result<
    (Option<u64>, Option<u64>),
    AttributeFault<Seq<char>>,
> {
    match list {
        Err(e) => Err(AttributeFault::Syntax(e)),
        Ok(args) => Ok((argument(args, "begin"@, None), argument(args, "end"@, None))),
    }
}

/// Whether `r` is the range, or the failure, that `goal` names.
pub open spec fn is_range(
    r: Result<(Option<u64>, Option<u64>), AttributeFault<String>>,
    goal: Result<(Option<u64>, Option<u64>), AttributeFault<Seq<char>>>,
) -> bool {
    match r {
        Ok(range) => goal == Ok::<(Option<u64>, Option<u64>), AttributeFault<Seq<char>>>(range),
        Err(e) => goal == Err::<(Option<u64>, Option<u64>), AttributeFault<Seq<char>>>(e@),
    }
}

/// What becomes of a parsed item under a parsed list of arguments. An item that does not parse
/// is told of first.
pub open spec fn outcome(shape: Result<Shape, Seq<char>>, list: ArgsView) -> Result<
    ExpansionView,
    AttributeFault<Seq<char>>,
> {
    match shape {
        Err(e) => Err(AttributeFault::Syntax(e)),
        Ok(shape) => match range_in(list) {
            Err(e) => Err(e),
            Ok(range) => expansion(range, shape),
        },
    }
}

/// Take the `begin`/`end` addresses out of a parsed list of arguments.
pub fn take_range(list: Result<Vec<SpliceArg<String>>, String>) -> (r: Result<
    (Option<u64>, Option<u64>),
    AttributeFault<String>,
>)
    ensures
        is_range(r, range_in(parsed_args(list))),
{
    match list {
        Err(e) => Err(AttributeFault::Syntax(e)),
        Ok(args) => Ok(parse_range(&args)),
    }
}

/// Decide what becomes of a parsed item under a parsed list of arguments.
pub fn expand_parsed(
    shape: Result<Shape, String>,
    list: Result<Vec<SpliceArg<String>>, String>,
) -> (r: Result<Expansion, AttributeFault<String>>)
    ensures
        is_expansion(r, outcome(parsed_item(shape), parsed_args(list))),
{
    match shape {
        Err(e) => Err(AttributeFault::Syntax(e)),
        Ok(shape) => match take_range(list) {
            Err(e) => Err(e),
            Ok(range) => expand(range, shape),
        },
    }
}

/// Read the `begin`/`end` addresses out of the text of an attribute's arguments: those of the
/// list that `syn` finds in it. An empty text gives neither address.
pub fn read_range(args: &str) -> (r: Result<(Option<u64>, Option<u64>), AttributeFault<String>>)
    ensures
        exists|lexer: int| is_range(r, range_in(#[trigger] args_of(args@, lexer))),
        args@.len() == 0 ==> r == Ok::<(Option<u64>, Option<u64>), AttributeFault<String>>(
            (None, None),
        ),
{
    take_range(attribute_args(args))
}

/// Decide what becomes of an item, given the text of the attribute's arguments and of the item:
/// what becomes of the item that `syn` finds in the one under the list that it finds in the
/// other. Without arguments, or without an item, nothing can become of it.
pub fn splice_attribute(args: &str, item: &str) -> (r: Result<Expansion, AttributeFault<String>>)
    ensures
        exists|x: int, y: int|
            is_expansion(r, outcome(#[trigger] item_of(item@, x), #[trigger] args_of(args@, y))),
        args@.len() == 0 ==> r is Err && (r->Err_0 is Syntax || r->Err_0 is MissingBegin),
        item@.len() == 0 ==> r is Err && r->Err_0 is Syntax,
{
    expand_parsed(item_shape(item), attribute_args(args))
}

/// The section that an expansion asks for is read back as the range that the attribute gave.
pub proof fn law_expansion_section(range: (Option<u64>, Option<u64>), shape: Shape)
    requires
        expansion(range, shape) is Ok,
    ensures
        named_range(expansion(range, shape)->Ok_0.section) == Some(
            Ok::<(u64, u64), Fault<Seq<char>>>((range.0->Some_0, range.1->Some_0)),
        ),
{
    law_section_name(range.0->Some_0 as nat, range.1->Some_0 as nat);
}

} // verus!
