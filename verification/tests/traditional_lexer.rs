use regex_anre::location::Location;
use regex_anre::traditional::lexer::lex_from_str;
use regex_anre::traditional::token::{Repetition, Token, TokenWithRange};
use regex_anre::AnreError;

fn lex_from_str_without_location(s: &str) -> Result<Vec<Token>, AnreError> {
    let tokens = lex_from_str(s)?
        .into_iter()
        .map(|e| e.token)
        .collect::<Vec<Token>>();
    Ok(tokens)
}

#[test]
fn lexer_test_lex_char() {
    assert_eq!(lex_from_str_without_location("").unwrap(), vec![]);

    assert_eq!(
        lex_from_str_without_location("a").unwrap(),
        vec![Token::Char('a')]
    );

    assert_eq!(
        lex_from_str_without_location("a文😊").unwrap(),
        vec![Token::Char('a'), Token::Char('文'), Token::Char('😊'),]
    );

    // general escaped chars
    assert_eq!(
        lex_from_str_without_location(r#"\t\r\n\\\u{6587}"#).unwrap(),
        vec![
            Token::Char('\t'),
            Token::Char('\r'),
            Token::Char('\n'),
            Token::Char('\\'),
            Token::Char('文'),
        ]
    );

    // escaped meta chars
    assert_eq!(
        lex_from_str_without_location(r#"\(\)\{\}\[\]\+\*\?\.\|\^\$"#).unwrap(),
        vec![
            Token::Char('('),
            Token::Char(')'),
            Token::Char('{'),
            Token::Char('}'),
            Token::Char('['),
            Token::Char(']'),
            Token::Char('+'),
            Token::Char('*'),
            Token::Char('?'),
            Token::Char('.'),
            Token::Char('|'),
            Token::Char('^'),
            Token::Char('$'),
        ]
    );

    // location
    assert_eq!(
        lex_from_str(r#"a文😊\t\u{6587}"#).unwrap(),
        vec![
            TokenWithRange::from_position_and_length(
                Token::Char('a'),
                &Location::new_position(/*0,*/ 0, 0, 0),
                1
            ),
            TokenWithRange::from_position_and_length(
                Token::Char('文'),
                &Location::new_position(/*0,*/ 1, 0, 1),
                1
            ),
            TokenWithRange::from_position_and_length(
                Token::Char('😊'),
                &Location::new_position(/*0,*/ 2, 0, 2),
                1
            ),
            TokenWithRange::from_position_and_length(
                Token::Char('\t'),
                &Location::new_position(/*0,*/ 3, 0, 3),
                2
            ),
            TokenWithRange::from_position_and_length(
                Token::Char('文'),
                &Location::new_position(/*0,*/ 5, 0, 5),
                8
            ),
        ]
    );

    // err: unsupported escape char \v
    assert!(matches!(
        lex_from_str_without_location(r#"\v"#),
        Err(AnreError::MessageWithLocation(
            _,
            Location {
                // unit: 0,
                index: 0,
                line: 0,
                column: 0,
                length: 2,
            }
        ))
    ));

    // err: unsupported hex escape "\x.."
    assert!(matches!(
        lex_from_str_without_location(r#"\x33"#),
        Err(AnreError::MessageWithLocation(
            _,
            Location {
                // unit: 0,
                index: 0,
                line: 0,
                column: 0,
                length: 2
            }
        ))
    ));

    // err: empty unicode escape string
    // "'\\u{}'"
    //  01 2345     // index
    assert!(matches!(
        lex_from_str_without_location("'\\u{}'"),
        Err(AnreError::MessageWithLocation(
            _,
            Location {
                // unit: 0,
                index: 3,
                line: 0,
                column: 3,
                length: 2
            }
        ))
    ));

    // err: invalid unicode code point, digits too much
    // "'\\u{1000111}'"
    //  01 234567890    // index
    assert!(matches!(
        lex_from_str_without_location("'\\u{1000111}'"),
        Err(AnreError::MessageWithLocation(
            _,
            Location {
                // unit: 0,
                index: 3,
                line: 0,
                column: 3,
                length: 8
            }
        ))
    ));

    // err: invalid unicode code point, code point out of range
    // "'\\u{123456}'"
    //  01 2345678901
    assert!(matches!(
        lex_from_str_without_location("'\\u{123456}'"),
        Err(AnreError::MessageWithLocation(
            _,
            Location {
                // unit: 0,
                index: 3,
                line: 0,
                column: 3,
                length: 8
            }
        ))
    ));

    // err: invalid char in the unicode escape sequence
    assert!(matches!(
        lex_from_str_without_location("'\\u{12mn}''"),
        Err(AnreError::MessageWithLocation(
            _,
            Location {
                // unit: 0,
                index: 6,
                line: 0,
                column: 6,
                length: 0
            }
        ))
    ));

    // err: missing the closed brace for unicode escape sequence
    assert!(matches!(
        lex_from_str_without_location("'\\u{1234'"),
        Err(AnreError::MessageWithLocation(
            _,
            Location {
                // unit: 0,
                index: 8,
                line: 0,
                column: 8,
                length: 0
            }
        ))
    ));

    // err: incomplete unicode escape sequence, encounter EOF
    assert!(matches!(
        lex_from_str_without_location("'\\u{1234"),
        Err(AnreError::UnexpectedEndOfDocument(_))
    ));

    // err: missing left brace for unicode escape sequence
    assert!(matches!(
        lex_from_str_without_location("'\\u1234}'"),
        Err(AnreError::MessageWithLocation(
            _,
            Location {
                // unit: 0,
                index: 3,
                line: 0,
                column: 3,
                length: 0
            }
        ))
    ));
}

#[test]
fn test_lex_preset_charset() {
    assert_eq!(
        lex_from_str_without_location(r#"\d\D\w\W\s\S"#).unwrap(),
        vec![
            Token::PresetCharSet('d'),
            Token::PresetCharSet('D'),
            Token::PresetCharSet('w'),
            Token::PresetCharSet('W'),
            Token::PresetCharSet('s'),
            Token::PresetCharSet('S'),
        ]
    );
}

#[test]
fn test_lex_charset() {
    assert_eq!(
        lex_from_str_without_location(r#"[a文😊]"#).unwrap(),
        vec![
            Token::CharSetStart,
            Token::Char('a'),
            Token::Char('文'),
            Token::Char('😊'),
            Token::CharSetEnd
        ]
    );

    assert_eq!(
        lex_from_str_without_location(r#"[^a]"#).unwrap(),
        vec![
            Token::CharSetStartNegative,
            Token::Char('a'),
            Token::CharSetEnd
        ]
    );

    // general escaped char
    assert_eq!(
        lex_from_str_without_location(r#"[\t\r\n\\\]\u{6587}]"#).unwrap(),
        vec![
            Token::CharSetStart,
            Token::Char('\t'),
            Token::Char('\r'),
            Token::Char('\n'),
            Token::Char('\\'),
            Token::Char(']'),
            Token::Char('文'),
            Token::CharSetEnd
        ]
    );

    // escaped meta chars
    // note: only ']' is necessary.
    assert_eq!(
        lex_from_str_without_location(r#"[\(\)\{\}\[\]\+\*\?\.\|\^\$]"#).unwrap(),
        vec![
            Token::CharSetStart,
            Token::Char('('),
            Token::Char(')'),
            Token::Char('{'),
            Token::Char('}'),
            Token::Char('['),
            Token::Char(']'),
            Token::Char('+'),
            Token::Char('*'),
            Token::Char('?'),
            Token::Char('.'),
            Token::Char('|'),
            Token::Char('^'),
            Token::Char('$'),
            Token::CharSetEnd
        ]
    );

    // meta chars in charset
    // note: only ']' is escaped
    assert_eq!(
        lex_from_str_without_location(r#"[(){}[\]+*?.|^$]"#).unwrap(),
        vec![
            Token::CharSetStart,
            Token::Char('('),
            Token::Char(')'),
            Token::Char('{'),
            Token::Char('}'),
            Token::Char('['),
            Token::Char(']'),
            Token::Char('+'),
            Token::Char('*'),
            Token::Char('?'),
            Token::Char('.'),
            Token::Char('|'),
            Token::Char('^'),
            Token::Char('$'),
            Token::CharSetEnd
        ]
    );

    // range
    assert_eq!(
        lex_from_str_without_location(r#"[-a-zA-Z0-9_-]"#).unwrap(),
        vec![
            Token::CharSetStart,
            Token::Char('-'),
            Token::CharRange('a', 'z'),
            Token::CharRange('A', 'Z'),
            Token::CharRange('0', '9'),
            Token::Char('_'),
            Token::Char('-'),
            Token::CharSetEnd
        ]
    );

    // preset charset
    assert_eq!(
        lex_from_str_without_location(r#"[\w\d\s]"#).unwrap(),
        vec![
            Token::CharSetStart,
            Token::PresetCharSet('w'),
            Token::PresetCharSet('d'),
            Token::PresetCharSet('s'),
            Token::CharSetEnd
        ]
    );

    // location

    assert_eq!(
        lex_from_str(r#"[a文😊\t\u{5b57}0-9-]"#).unwrap(),
        //              012 3 456789012345678
        vec![
            TokenWithRange::from_position_and_length(
                Token::CharSetStart,
                &Location::new_position(/*0,*/ 0, 0, 0),
                1
            ),
            TokenWithRange::from_position_and_length(
                Token::Char('a'),
                &Location::new_position(/*0,*/ 1, 0, 1),
                1
            ),
            TokenWithRange::from_position_and_length(
                Token::Char('文'),
                &Location::new_position(/*0,*/ 2, 0, 2),
                1
            ),
            TokenWithRange::from_position_and_length(
                Token::Char('😊'),
                &Location::new_position(/*0,*/ 3, 0, 3),
                1
            ),
            TokenWithRange::from_position_and_length(
                Token::Char('\t'),
                &Location::new_position(/*0,*/ 4, 0, 4),
                2
            ),
            TokenWithRange::from_position_and_length(
                Token::Char('字'),
                &Location::new_position(/*0,*/ 6, 0, 6),
                8
            ),
            TokenWithRange::from_position_and_length(
                Token::CharRange('0', '9'),
                &Location::new_position(/*0,*/ 14, 0, 14),
                3
            ),
            TokenWithRange::from_position_and_length(
                Token::Char('-'),
                &Location::new_position(/*0,*/ 17, 0, 17),
                1
            ),
            TokenWithRange::from_position_and_length(
                Token::CharSetEnd,
                &Location::new_position(/*0,*/ 18, 0, 18),
                1
            ),
        ]
    );

    // err: missing ']'
    assert!(matches!(
        lex_from_str_without_location(r#"[abc"#),
        Err(AnreError::UnexpectedEndOfDocument(_))
    ));

    // err: negative preset charset
    assert!(matches!(
        lex_from_str_without_location(r#"[ab\Wcd]"#),
        Err(AnreError::MessageWithLocation(
            _,
            Location {
                // unit: 0,
                index: 3,
                line: 0,
                column: 3,
                length: 2
            }
        ))
    ));

    // err: does not suppoert boundary assertions
    assert!(matches!(
        lex_from_str_without_location(r#"[\b]"#),
        Err(AnreError::MessageWithLocation(
            _,
            Location {
                // unit: 0,
                index: 1,
                line: 0,
                column: 1,
                length: 2
            }
        ))
    ));

    // err: unsupported escape char
    assert!(matches!(
        lex_from_str_without_location(r#"[\v]"#),
        Err(AnreError::MessageWithLocation(
            _,
            Location {
                // unit: 0,
                index: 1,
                line: 0,
                column: 1,
                length: 2
            }
        ))
    ));

    // err: unsupported back reference - number
    assert!(matches!(
        lex_from_str_without_location(r#"[\1]"#),
        Err(AnreError::MessageWithLocation(
            _,
            Location {
                // unit: 0,
                index: 1,
                line: 0,
                column: 1,
                length: 2
            }
        ))
    ));

    // err: unsupported back reference - name
    assert!(matches!(
        lex_from_str_without_location(r#"[\k<name>]"#),
        Err(AnreError::MessageWithLocation(
            _,
            Location {
                // unit: 0,
                index: 1,
                line: 0,
                column: 1,
                length: 2
            }
        ))
    ));
}

#[test]
fn test_lex_notations() {
    assert_eq!(
        lex_from_str_without_location(r#"a?b??c+d+?e*f*?"#).unwrap(),
        vec![
            Token::Char('a'),
            Token::Optional,
            Token::Char('b'),
            Token::OptionalLazy,
            Token::Char('c'),
            Token::OneOrMore,
            Token::Char('d'),
            Token::OneOrMoreLazy,
            Token::Char('e'),
            Token::ZeroOrMore,
            Token::Char('f'),
            Token::ZeroOrMoreLazy,
        ]
    );

    // location
    assert_eq!(
        lex_from_str(r#"a+b+?"#).unwrap(),
        vec![
            TokenWithRange::from_position_and_length(
                Token::Char('a'),
                &Location::new_position(/*0,*/ 0, 0, 0),
                1
            ),
            TokenWithRange::from_position_and_length(
                Token::OneOrMore,
                &Location::new_position(/*0,*/ 1, 0, 1),
                1
            ),
            TokenWithRange::from_position_and_length(
                Token::Char('b'),
                &Location::new_position(/*0,*/ 2, 0, 2),
                1
            ),
            TokenWithRange::from_position_and_length(
                Token::OneOrMoreLazy,
                &Location::new_position(/*0,*/ 3, 0, 3),
                2
            ),
        ]
    );
}

#[test]
fn test_lex_anchor_and_boundary_assertions() {
    assert_eq!(
        lex_from_str(r#"^\b\B$"#).unwrap(),
        vec![
            TokenWithRange::from_position_and_length(
                Token::StartAssertion,
                &Location::new_position(/*0,*/ 0, 0, 0),
                1
            ),
            TokenWithRange::from_position_and_length(
                Token::BoundaryAssertion('b'),
                &Location::new_position(/*0,*/ 1, 0, 1),
                2
            ),
            TokenWithRange::from_position_and_length(
                Token::BoundaryAssertion('B'),
                &Location::new_position(/*0,*/ 3, 0, 3),
                2
            ),
            TokenWithRange::from_position_and_length(
                Token::EndAssertion,
                &Location::new_position(/*0,*/ 5, 0, 5),
                1
            ),
        ]
    );
}

#[test]
fn test_lex_repetition() {
    assert_eq!(
        lex_from_str(r#"{3}{5,}{7,13}"#).unwrap(),
        vec![
            TokenWithRange::from_position_and_length(
                Token::Repetition(Repetition::Specified(3), false),
                &Location::new_position(/*0,*/ 0, 0, 0),
                3
            ),
            TokenWithRange::from_position_and_length(
                Token::Repetition(Repetition::AtLeast(5), false),
                &Location::new_position(/*0,*/ 3, 0, 3),
                4
            ),
            TokenWithRange::from_position_and_length(
                Token::Repetition(Repetition::Range(7, 13), false),
                &Location::new_position(/*0,*/ 7, 0, 7),
                6
            ),
        ]
    );

    assert_eq!(
        lex_from_str(r#"{3}?{5,}?{7,13}?"#).unwrap(),
        vec![
            TokenWithRange::from_position_and_length(
                Token::Repetition(Repetition::Specified(3), true),
                &Location::new_position(/*0,*/ 0, 0, 0),
                4
            ),
            TokenWithRange::from_position_and_length(
                Token::Repetition(Repetition::AtLeast(5), true),
                &Location::new_position(/*0,*/ 4, 0, 4),
                5
            ),
            TokenWithRange::from_position_and_length(
                Token::Repetition(Repetition::Range(7, 13), true),
                &Location::new_position(/*0,*/ 9, 0, 9),
                7
            ),
        ]
    );

    // err: missing number
    assert!(matches!(
        lex_from_str(r#"{}"#),
        Err(AnreError::MessageWithLocation(
            _,
            Location {
                // unit: 0,
                index: 1,
                line: 0,
                column: 1,
                length: 0
            }
        ))
    ));

    // err: expect a number
    assert!(matches!(
        lex_from_str(r#"{a}"#),
        Err(AnreError::MessageWithLocation(
            _,
            Location {
                // unit: 0,
                index: 1,
                line: 0,
                column: 1,
                length: 0
            }
        ))
    ));

    // err: incorrect syntax
    assert!(matches!(
        lex_from_str(r#"{a}"#),
        Err(AnreError::MessageWithLocation(
            _,
            Location {
                // unit: 0,
                index: 1,
                line: 0,
                column: 1,
                length: 0
            }
        ))
    ));

    // err: expect a number
    assert!(matches!(
        lex_from_str(r#"{1,a}"#),
        Err(AnreError::MessageWithLocation(
            _,
            Location {
                // unit: 0,
                index: 3,
                line: 0,
                column: 3,
                length: 0
            }
        ))
    ));

    // err: incomplete
    assert!(matches!(
        lex_from_str(r#"{1,3"#),
        Err(AnreError::UnexpectedEndOfDocument(_))
    ));
}

#[test]
fn test_group_and_backreference() {
    assert_eq!(
        lex_from_str(r#"(a)(?:b)(?<c>d)\1\k<e>"#).unwrap(),
        vec![
            TokenWithRange::from_position_and_length(
                Token::GroupStart,
                &Location::new_position(/*0,*/ 0, 0, 0),
                1
            ),
            TokenWithRange::from_position_and_length(
                Token::Char('a'),
                &Location::new_position(/*0,*/ 1, 0, 1),
                1
            ),
            TokenWithRange::from_position_and_length(
                Token::GroupEnd,
                &Location::new_position(/*0,*/ 2, 0, 2),
                1
            ),
            // non-capturing group
            TokenWithRange::from_position_and_length(
                Token::NonCapturing,
                &Location::new_position(/*0,*/ 3, 0, 3),
                3
            ),
            TokenWithRange::from_position_and_length(
                Token::Char('b'),
                &Location::new_position(/*0,*/ 6, 0, 6),
                1
            ),
            TokenWithRange::from_position_and_length(
                Token::GroupEnd,
                &Location::new_position(/*0,*/ 7, 0, 7),
                1
            ),
            // named group
            TokenWithRange::from_position_and_length(
                Token::NamedCapture("c".to_owned()),
                &Location::new_position(/*0,*/ 8, 0, 8),
                5
            ),
            TokenWithRange::from_position_and_length(
                Token::Char('d'),
                &Location::new_position(/*0,*/ 13, 0, 13),
                1
            ),
            TokenWithRange::from_position_and_length(
                Token::GroupEnd,
                &Location::new_position(/*0,*/ 14, 0, 14),
                1
            ),
            // back reference - number
            TokenWithRange::from_position_and_length(
                Token::BackReferenceNumber(1),
                &Location::new_position(/*0,*/ 15, 0, 15),
                2
            ),
            // back reference - name
            TokenWithRange::from_position_and_length(
                Token::BackReferenceIdentifier("e".to_owned()),
                &Location::new_position(/*0,*/ 17, 0, 17),
                5
            ),
        ]
    );

    // err: missing identifier for named group
    assert!(matches!(
        lex_from_str(r#"(?<>abc)"#),
        Err(AnreError::MessageWithLocation(
            _,
            Location {
                // unit: 0,
                index: 3,
                line: 0,
                column: 3,
                length: 0
            }
        ))
    ));

    // err: back reference to group 0
    assert!(matches!(
        lex_from_str(r#"(a)b\0"#),
        Err(AnreError::MessageWithLocation(
            _,
            Location {
                // unit: 0,
                index: 5,
                line: 0,
                column: 5,
                length: 0
            }
        ))
    ));

    // err: missing identifier for named back reference
    assert!(matches!(
        lex_from_str(r#"\k<>)"#),
        Err(AnreError::MessageWithLocation(
            _,
            Location {
                // unit: 0,
                index: 3,
                line: 0,
                column: 3,
                length: 0
            }
        ))
    ));

    // err: missing '<' for named back reference
    assert!(matches!(
        lex_from_str(r#"\kabc)"#),
        Err(AnreError::MessageWithLocation(
            _,
            Location {
                // unit: 0,
                index: 2,
                line: 0,
                column: 2,
                length: 0
            }
        ))
    ));

    println!("{:?}", lex_from_str(r#"(?abc)"#));

    // err: incomplete group structure
    assert!(matches!(
        lex_from_str(r#"(?abc)"#),
        Err(AnreError::MessageWithLocation(
            _,
            Location {
                // unit: 0,
                index: 0,
                line: 0,
                column: 0,
                length: 2
            }
        ))
    ));
}

#[test]
fn test_look_around_assertions() {
    assert_eq!(
        lex_from_str(r#"(?=a)(?!b)(?<=c)(?<!d)"#).unwrap(),
        vec![
            // look ahead
            TokenWithRange::from_position_and_length(
                Token::LookAhead,
                &Location::new_position(/*0,*/ 0, 0, 0),
                3
            ),
            TokenWithRange::from_position_and_length(
                Token::Char('a'),
                &Location::new_position(/*0,*/ 3, 0, 3),
                1
            ),
            TokenWithRange::from_position_and_length(
                Token::GroupEnd,
                &Location::new_position(/*0,*/ 4, 0, 4),
                1
            ),
            // look ahead - negative
            TokenWithRange::from_position_and_length(
                Token::LookAheadNegative,
                &Location::new_position(/*0,*/ 5, 0, 5),
                3
            ),
            TokenWithRange::from_position_and_length(
                Token::Char('b'),
                &Location::new_position(/*0,*/ 8, 0, 8),
                1
            ),
            TokenWithRange::from_position_and_length(
                Token::GroupEnd,
                &Location::new_position(/*0,*/ 9, 0, 9),
                1
            ),
            // look behind
            TokenWithRange::from_position_and_length(
                Token::LookBehind,
                &Location::new_position(/*0,*/ 10, 0, 10),
                4
            ),
            TokenWithRange::from_position_and_length(
                Token::Char('c'),
                &Location::new_position(/*0,*/ 14, 0, 14),
                1
            ),
            TokenWithRange::from_position_and_length(
                Token::GroupEnd,
                &Location::new_position(/*0,*/ 15, 0, 15),
                1
            ),
            // look behind - negative
            TokenWithRange::from_position_and_length(
                Token::LookBehindNegative,
                &Location::new_position(/*0,*/ 16, 0, 16),
                4
            ),
            TokenWithRange::from_position_and_length(
                Token::Char('d'),
                &Location::new_position(/*0,*/ 20, 0, 20),
                1
            ),
            TokenWithRange::from_position_and_length(
                Token::GroupEnd,
                &Location::new_position(/*0,*/ 21, 0, 21),
                1
            ),
        ]
    );
}
