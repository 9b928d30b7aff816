use regex_anre::ast::{
    AnchorAssertionName, BackReference, BoundaryAssertionName, CharRange, PresetCharSetName,
    SpecialCharName,
};
use regex_anre::traditional::parser::parse_from_str;

#[test]
fn names_as_text() {
    assert_eq!(AnchorAssertionName::Start.to_string(), "start");
    assert_eq!(AnchorAssertionName::End.to_string(), "end");
    assert_eq!(BoundaryAssertionName::IsBound.to_string(), "is_bound");
    assert_eq!(BoundaryAssertionName::IsNotBound.to_string(), "is_not_bound");
    assert_eq!(SpecialCharName::CharAny.to_string(), "char_any");
    assert_eq!(PresetCharSetName::CharHex.to_string(), "char_hex");
    assert_eq!(BackReference::Index(12).to_string(), "^12");
    assert_eq!(BackReference::Name("tag".to_owned()).to_string(), "tag");
    assert_eq!(
        CharRange { start: 'a', end_included: 'z' }.to_string(),
        "'a'..'z'"
    );
}

#[test]
fn programs_as_text() {
    assert_eq!(parse_from_str(r"(a)\1").unwrap().to_string(), "index('a')\n^1");
    assert_eq!(parse_from_str(r"^\bx.$").unwrap().to_string(), "start, is_bound, 'x', char_any, end");
    assert_eq!(parse_from_str(r"[^a-c\d]").unwrap().to_string(), "!['a'..'c', char_digit]");
}
