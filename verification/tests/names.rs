use resplice::attribute::{
    expand, expand_parsed, parse_range, read_range, splice_attribute, take_range, AttributeFault,
    Shape, SpliceArg,
};
use resplice::cli::parse_addr;
use resplice::error::{Error, Fault};
use resplice::link::Applied;
use resplice::section_name::{is_splice_section, parse_splice_section, section_name, splice_range};
use resplice::text::IntError;

#[test]
fn test_parse_splice_section_valid() {
    let (begin, end) = parse_splice_section(".rspl.1670.1680").unwrap().unwrap();
    assert_eq!(begin, 0x1670);
    assert_eq!(end, 0x1680);
}

#[test]
fn test_parse_splice_section_not_a_splice() {
    assert!(parse_splice_section(".text").is_none());
    assert!(parse_splice_section(".rodata").is_none());
}

#[test]
fn test_parse_splice_section_malformed() {
    // Missing the second address.
    assert!(parse_splice_section(".rspl.1670").unwrap().is_err());
    // Non-hex address.
    assert!(parse_splice_section(".rspl.zz.10").unwrap().is_err());
}

#[test]
fn malformed_names_say_why() {
    let e: Error = parse_splice_section(".rspl.1670").unwrap().unwrap_err();
    assert!(matches!(&e, Fault::MalformedName { name } if name == ".rspl.1670"));
    assert_eq!(e.message(), "malformed splice section name: \".rspl.1670\"");
    let e = parse_splice_section(".rspl.zz.10").unwrap().unwrap_err();
    assert!(matches!(&e, Fault::InvalidBegin { reason: IntError::InvalidDigit, .. }));
    assert_eq!(e.message(), "invalid begin address in section \".rspl.zz.10\"");
    assert_eq!(
        e.report(),
        "invalid begin address in section \".rspl.zz.10\": invalid digit found in string"
    );
    let e = parse_splice_section(".rspl.10.").unwrap().unwrap_err();
    assert!(matches!(&e, Fault::InvalidEnd { reason: IntError::Empty, .. }));
    assert_eq!(
        e.report(),
        "invalid end address in section \".rspl.10.\": cannot parse integer from empty string"
    );
    let e = parse_splice_section(".rspl.0.10000000000000000").unwrap().unwrap_err();
    assert!(matches!(&e, Fault::InvalidEnd { reason: IntError::TooLarge, .. }));
    assert!(e.report().ends_with("number too large to fit in target type"));
    // A second dot belongs to the second address, which it spoils.
    assert!(parse_splice_section(".rspl.1.2.3").unwrap().is_err());
    // Quotes in a name are escaped.
    let e = parse_splice_section(".rspl.\"").unwrap().unwrap_err();
    assert_eq!(e.message(), "malformed splice section name: \".rspl.\\\"\"");
}

#[test]
fn section_names_are_read_back() {
    for (begin, end) in [(0, 0), (0x1670, 0x1680), (0xdead_beef, u64::MAX)] {
        let name = section_name(begin, end);
        assert_eq!(splice_range(&name), Some((begin, end)));
        assert!(is_splice_section(&name));
    }
    assert_eq!(section_name(0x1670, 0x1680), ".rspl.1670.1680");
    assert_eq!(splice_range(".rspl.+A.b"), Some((10, 11)));
    assert_eq!(splice_range(".rspl.1670"), None);
    assert_eq!(splice_range(".rspl"), None);
    assert!(!is_splice_section(".rspl"));
    assert!(is_splice_section(".rspl.zz"));
}

#[test]
fn parses_begin_and_end() {
    assert_eq!(
        read_range("begin = 0x1000, end = 0x2000").unwrap(),
        (Some(0x1000), Some(0x2000))
    );
}

#[test]
fn missing_or_unknown_keys_yield_none() {
    assert_eq!(read_range("end = 0x2000, extra = 1").unwrap(), (None, Some(0x2000)));
    assert_eq!(read_range("").unwrap(), (None, None));
}

#[test]
fn arguments_of_other_forms() {
    // Other forms are skipped, and a value that is no integer changes nothing.
    assert_eq!(read_range("begin, end(1), begin = 5, begin = \"x\"").unwrap(), (Some(5), None));
    // The last one counts, suffixes and separators are allowed, and what is too large is none.
    assert_eq!(read_range("begin = 1, begin = 0b1_0u32").unwrap(), (Some(2), None));
    assert_eq!(read_range("end = 1, end = 0x1_0000_0000_0000_0000").unwrap(), (None, None));
    assert_eq!(read_range("a::begin = 1").unwrap(), (None, None));
    assert!(matches!(read_range("begin = = 1"), Err(AttributeFault::Syntax(_))));
}

#[test]
fn ranges_out_of_argument_lists() {
    let arg = |key: &str, digits: Option<&str>| SpliceArg::NameValue {
        key: Some(key.to_string()),
        digits: digits.map(str::to_string),
    };
    let args = vec![arg("begin", Some("16")), SpliceArg::Other, arg("end", Some("32"))];
    assert_eq!(parse_range(&args), (Some(16), Some(32)));
    let args = vec![arg("begin", Some("16")), arg("begin", None), arg("other", Some("1"))];
    assert_eq!(parse_range(&args), (Some(16), None));
    assert_eq!(parse_range(&vec![]), (None, None));
}

#[test]
fn parsed_attributes_expand() {
    let args = || {
        let arg = |key: &str, digits: &str| SpliceArg::NameValue {
            key: Some(key.to_string()),
            digits: Some(digits.to_string()),
        };
        Ok(vec![arg("begin", "16"), arg("end", "32")])
    };
    let f = Shape::Function { has_visibility: true, has_abi: false };
    assert_eq!(take_range(args()).unwrap(), (Some(16), Some(32)));
    let x = expand_parsed(Ok(f), args()).unwrap();
    assert_eq!(x.section, ".rspl.10.20");
    assert!(!x.add_visibility && x.add_abi);
    // What does not parse is told of, the item first.
    let bad = || Err("bad arguments".to_string());
    assert_eq!(take_range(bad()).unwrap_err().message(), "bad arguments");
    assert_eq!(expand_parsed(Ok(f), bad()).unwrap_err().message(), "bad arguments");
    let e = expand_parsed(Err("bad item".to_string()), bad()).unwrap_err();
    assert_eq!(e.message(), "bad item");
    let e = expand_parsed(Ok(Shape::Other), args()).unwrap_err();
    assert!(matches!(e, AttributeFault::UnsupportedItem));
}

#[test]
fn attributes_expand() {
    let args = "begin = 0x1670, end = 0x1680";
    let x = splice_attribute(args, "fn add_one_plus_one() -> i32 { 1 + 1 }").unwrap();
    assert_eq!(x.section, ".rspl.1670.1680");
    assert!(x.add_visibility && x.add_abi);
    let x = splice_attribute(args, "pub(crate) extern \"C\" fn f() {}").unwrap();
    assert!(!x.add_visibility && !x.add_abi);
    let x = splice_attribute(args, "static PRICES: [u32; 2] = [100, 200];").unwrap();
    assert!(x.add_visibility && !x.add_abi);
    let x = splice_attribute(args, "pub static A: u8 = 1;").unwrap();
    assert!(!x.add_visibility && !x.add_abi);
    // The section names the range that was asked for.
    assert_eq!(splice_range(&x.section), Some((0x1670, 0x1680)));
}

#[test]
fn attributes_that_cannot_be_expanded() {
    let f = "fn f() {}";
    let e = splice_attribute("end = 1", f).unwrap_err();
    assert!(matches!(e, AttributeFault::MissingBegin));
    assert_eq!(e.message(), "Splice attribute requires 'begin' parameter");
    let e = splice_attribute("begin = 1", f).unwrap_err();
    assert!(matches!(e, AttributeFault::MissingEnd));
    assert_eq!(e.message(), "Splice attribute requires 'end' parameter");
    let e = splice_attribute("begin = 1, end = 2", "struct S;").unwrap_err();
    assert!(matches!(e, AttributeFault::UnsupportedItem));
    assert_eq!(e.message(), "#[Splice] supports only `fn` and `static` items");
    let e = splice_attribute("begin = 1, end = 2", "fn fn").unwrap_err();
    assert!(matches!(&e, AttributeFault::Syntax(_)));
    assert!(!e.message().is_empty());
    // Nothing to read.
    assert!(matches!(splice_attribute("", f), Err(AttributeFault::MissingBegin)));
    assert!(matches!(splice_attribute("", "fn fn"), Err(AttributeFault::Syntax(_))));
    assert!(matches!(splice_attribute("begin = 1, end = 2", ""), Err(AttributeFault::Syntax(_))));
    // The arguments are no item, and the item is no list of arguments.
    assert!(matches!(splice_attribute(f, "begin = 1, end = 2"), Err(AttributeFault::Syntax(_))));
    let e = expand((Some(1), Some(2)), Shape::Other).unwrap_err();
    assert!(matches!(e, AttributeFault::UnsupportedItem));
}

#[test]
fn addresses_on_the_command_line() {
    assert_eq!(parse_addr("0x1c0000"), Ok(0x1c0000));
    assert_eq!(parse_addr("0X1C0000"), Ok(0x1c0000));
    assert_eq!(parse_addr(" \t4096\u{a0}\n"), Ok(4096));
    assert_eq!(parse_addr("\n0X1c0000\u{3000} "), Ok(0x1c0000));
    assert_eq!(parse_addr("\u{2028}0x1c0000"), Ok(0x1c0000));
    assert_eq!(parse_addr("+7"), Ok(7));
    assert_eq!(parse_addr("0xffffffffffffffff"), Ok(u64::MAX));
    assert_eq!(
        parse_addr("0xzz"),
        Err("invalid address \"0xzz\": invalid digit found in string".to_string())
    );
    assert_eq!(
        parse_addr("  "),
        Err("invalid address \"  \": cannot parse integer from empty string".to_string())
    );
    assert_eq!(
        parse_addr("18446744073709551616"),
        Err(
            "invalid address \"18446744073709551616\": number too large to fit in target type"
                .to_string()
        )
    );
    assert!(parse_addr("0x").is_err());
    assert!(parse_addr("-1").is_err());
}

#[test]
fn lines_of_the_report() {
    let mut a = Applied { begin: 0x401000, end: 0x401020, code_len: 13, trampoline: false };
    assert_eq!(a.line(), "  0x401000..0x401020 <- 13 bytes");
    a.trampoline = true;
    assert_eq!(a.line(), "  0x401000..0x401020 <- 13 bytes (trampoline to injected segment)");
}
