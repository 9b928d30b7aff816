use regex_anre::lexer::{Comment, Lexer, Token, TokenWithRange};
use regex_anre::location::Location;
use regex_anre::AnreError;

fn new_identifier(s: &str) -> Token {
    Token::Identifier(s.to_owned())
}

fn new_string(s: &str) -> Token {
    Token::String_(s.to_owned())
}

fn lex_str_to_vec_with_range(s: &str) -> Result<Vec<TokenWithRange>, AnreError> {
    let mut lexer = Lexer::new(s);
    lexer.lex()
}

fn lex_str_to_vec(s: &str) -> Result<Vec<Token>, AnreError> {
    let tokens = lex_str_to_vec_with_range(s)?
        .iter()
        .map(|e| e.token.to_owned())
        .collect::<Vec<Token>>();
    Ok(tokens)
}

#[test]
fn test_lex_whitespaces() {
    assert_eq!(lex_str_to_vec("  ").unwrap(), vec![]);

    assert_eq!(
        lex_str_to_vec("()").unwrap(),
        vec![Token::LeftParen, Token::RightParen]
    );

    assert_eq!(
        lex_str_to_vec("(  )").unwrap(),
        vec![Token::LeftParen, Token::RightParen]
    );

    assert_eq!(
        lex_str_to_vec("(\t\r\n\n\n)").unwrap(),
        vec![
            Token::LeftParen,
            Token::NewLine,
            Token::NewLine,
            Token::NewLine,
            Token::RightParen,
        ]
    );

    // location

    assert_eq!(lex_str_to_vec_with_range("  ").unwrap(), vec![]);

    assert_eq!(
        lex_str_to_vec_with_range("()").unwrap(),
        vec![
            TokenWithRange::new(Token::LeftParen, Location::new_range(0, 0, 0, 1)),
            TokenWithRange::new(Token::RightParen, Location::new_range(1, 0, 1, 1)),
        ]
    );

    assert_eq!(
        lex_str_to_vec_with_range("(  )").unwrap(),
        vec![
            TokenWithRange::new(Token::LeftParen, Location::new_range(0, 0, 0, 1)),
            TokenWithRange::new(Token::RightParen, Location::new_range(3, 0, 3, 1)),
        ]
    );

    // "(\t\r\n\n\n)"
    //  _--____--__-
    //  0  2   4 5 6    // index
    //  0  0   1 2 3    // line
    //  0  2   0 0 1    // column
    //  1  2   1 1 1    // length

    assert_eq!(
        lex_str_to_vec_with_range("(\t\r\n\n\n)").unwrap(),
        vec![
            TokenWithRange::new(Token::LeftParen, Location::new_range(0, 0, 0, 1)),
            TokenWithRange::new(Token::NewLine, Location::new_range(2, 0, 2, 2,)),
            TokenWithRange::new(Token::NewLine, Location::new_range(4, 1, 0, 1,)),
            TokenWithRange::new(Token::NewLine, Location::new_range(5, 2, 0, 1,)),
            TokenWithRange::new(Token::RightParen, Location::new_range(6, 3, 0, 1)),
        ]
    );
}

#[test]
fn test_lex_punctuations() {
    assert_eq!(
        lex_str_to_vec(",!...||[]()").unwrap(),
        vec![
            Token::Comma,
            Token::Exclam,
            Token::Ellipsis,
            Token::Dot,
            Token::LogicOr,
            Token::LeftBracket,
            Token::RightBracket,
            Token::LeftParen,
            Token::RightParen,
        ]
    );
}

#[test]
fn test_lex_identifier() {
    assert_eq!(
        lex_str_to_vec("name").unwrap(),
        vec![new_identifier("name")]
    );

    assert_eq!(
        lex_str_to_vec("(name)").unwrap(),
        vec![
            Token::LeftParen,
            new_identifier("name"),
            Token::RightParen,
        ]
    );

    assert_eq!(
        lex_str_to_vec("( a )").unwrap(),
        vec![
            Token::LeftParen,
            new_identifier("a"),
            Token::RightParen,
        ]
    );

    assert_eq!(
        lex_str_to_vec("a__b__c").unwrap(),
        vec![new_identifier("a__b__c")]
    );

    assert_eq!(
        lex_str_to_vec("foo bar").unwrap(),
        vec![new_identifier("foo"), new_identifier("bar")]
    );

    assert_eq!(
        lex_str_to_vec("αβγ 文字 🍞🥛").unwrap(),
        vec![
            new_identifier("αβγ"),
            new_identifier("文字"),
            new_identifier("🍞🥛"),
        ]
    );

    // location

    assert_eq!(
        lex_str_to_vec_with_range("hello ASON").unwrap(),
        vec![
            TokenWithRange::from_position_and_length(
                new_identifier("hello"),
                &Location::new_position(0, 0, 0),
                5
            ),
            TokenWithRange::from_position_and_length(
                new_identifier("ASON"),
                &Location::new_position(6, 0, 6),
                4
            )
        ]
    );

    // err: invalid char
    assert!(matches!(
        lex_str_to_vec("abc&xyz"),
        Err(AnreError::MessageWithLocation(
            _,
            Location {
                index: 3,
                line: 0,
                column: 3,
                length: 0
            }
        ))
    ));
}

#[test]
fn test_lex_number() {
    assert_eq!(lex_str_to_vec("223").unwrap(), vec![Token::Number(223),]);

    assert_eq!(lex_str_to_vec("211").unwrap(), vec![Token::Number(211)]);

    assert_eq!(
        lex_str_to_vec("223_211").unwrap(),
        vec![Token::Number(223_211)]
    );

    assert_eq!(
        lex_str_to_vec("223 211").unwrap(),
        vec![Token::Number(223), Token::Number(211),]
    );

    // location

    assert_eq!(
        lex_str_to_vec_with_range("223 211").unwrap(),
        vec![
            TokenWithRange::from_position_and_length(
                Token::Number(223),
                &Location::new_position(0, 0, 0,),
                3
            ),
            TokenWithRange::from_position_and_length(
                Token::Number(211),
                &Location::new_position(4, 0, 4,),
                3
            ),
        ]
    );

    // err: invalid char for decimal number
    assert!(matches!(
        lex_str_to_vec("12x34"),
        Err(AnreError::MessageWithLocation(
            _,
            Location {
                index: 2,
                line: 0,
                column: 2,
                length: 0
            }
        ))
    ));

    // err: integer number overflow
    assert!(matches!(
        lex_str_to_vec("4_294_967_296"),
        Err(AnreError::MessageWithLocation(
            _,
            Location {
                index: 0,
                line: 0,
                column: 0,
                length: 13
            }
        ))
    ));
}

#[test]
fn test_lex_char() {
    assert_eq!(lex_str_to_vec("'a'").unwrap(), vec![Token::Char('a')]);

    assert_eq!(
        lex_str_to_vec("('a')").unwrap(),
        vec![Token::LeftParen, Token::Char('a'), Token::RightParen]
    );

    assert_eq!(
        lex_str_to_vec("'a' 'z'").unwrap(),
        vec![Token::Char('a'), Token::Char('z')]
    );

    // CJK
    assert_eq!(lex_str_to_vec("'文'").unwrap(), vec![Token::Char('文')]);

    // emoji
    assert_eq!(lex_str_to_vec("'😊'").unwrap(), vec![Token::Char('😊')]);

    // escape char `\\`
    assert_eq!(lex_str_to_vec("'\\\\'").unwrap(), vec![Token::Char('\\')]);

    // escape char `\'`
    assert_eq!(lex_str_to_vec("'\\\''").unwrap(), vec![Token::Char('\'')]);

    // escape char `"`
    assert_eq!(lex_str_to_vec("'\\\"'").unwrap(), vec![Token::Char('"')]);

    // escape char `\t`
    assert_eq!(lex_str_to_vec("'\\t'").unwrap(), vec![Token::Char('\t')]);

    // escape char `\r`
    assert_eq!(lex_str_to_vec("'\\r'").unwrap(), vec![Token::Char('\r')]);

    // escape char `\n`
    assert_eq!(lex_str_to_vec("'\\n'").unwrap(), vec![Token::Char('\n')]);

    // escape char `\0`
    assert_eq!(lex_str_to_vec("'\\0'").unwrap(), vec![Token::Char('\0')]);

    // escape char, unicode
    assert_eq!(lex_str_to_vec("'\\u{2d}'").unwrap(), vec![Token::Char('-')]);

    // escape char, unicode
    assert_eq!(
        lex_str_to_vec("'\\u{6587}'").unwrap(),
        vec![Token::Char('文')]
    );

    // location

    assert_eq!(
        lex_str_to_vec_with_range("'a' '文'").unwrap(),
        vec![
            TokenWithRange::from_position_and_length(
                Token::Char('a'),
                &Location::new_position(0, 0, 0),
                3
            ),
            TokenWithRange::from_position_and_length(
                Token::Char('文'),
                &Location::new_position(4, 0, 4),
                3
            )
        ]
    );

    assert_eq!(
        lex_str_to_vec_with_range("'\\t'").unwrap(),
        vec![TokenWithRange::from_position_and_length(
            Token::Char('\t'),
            &Location::new_position(0, 0, 0),
            4
        )]
    );

    assert_eq!(
        lex_str_to_vec_with_range("'\\u{6587}'").unwrap(),
        vec![TokenWithRange::from_position_and_length(
            Token::Char('文'),
            &Location::new_position(0, 0, 0),
            10
        )]
    );

    // err: empty char
    assert!(matches!(
        lex_str_to_vec("''"),
        Err(AnreError::MessageWithLocation(
            _,
            Location {
                index: 0,
                line: 0,
                column: 0,
                length: 2
            }
        ))
    ));

    // err: empty char, missing the char
    assert!(matches!(
        lex_str_to_vec("'"),
        Err(AnreError::UnexpectedEndOfDocument(_))
    ));

    // err: incomplete char, missing the right quote, encounter EOF
    assert!(matches!(
        lex_str_to_vec("'a"),
        Err(AnreError::UnexpectedEndOfDocument(_))
    ));

    // err: invalid char, expect the right quote, encounter another char
    assert!(matches!(
        lex_str_to_vec("'ab"),
        Err(AnreError::MessageWithLocation(
            _,
            Location {
                index: 2,
                line: 0,
                column: 2,
                length: 0
            }
        ))
    ));

    // err: invalid char, expect the right quote, encounter another char
    assert!(matches!(
        lex_str_to_vec("'ab'"),
        Err(AnreError::MessageWithLocation(
            _,
            Location {
                index: 2,
                line: 0,
                column: 2,
                length: 0
            }
        ))
    ));

    // err: unsupported escape char \v
    assert!(matches!(
        lex_str_to_vec("'\\v'"),
        Err(AnreError::MessageWithLocation(
            _,
            Location {
                index: 2,
                line: 0,
                column: 2,
                length: 0,
            }
        ))
    ));

    // err: unsupported hex escape "\x.."
    assert!(matches!(
        lex_str_to_vec("'\\x33'"),
        Err(AnreError::MessageWithLocation(
            _,
            Location {
                index: 2,
                line: 0,
                column: 2,
                length: 0
            }
        ))
    ));

    // err: empty unicode escape string
    // "'\\u{}'"
    //  01 2345     // index
    assert!(matches!(
        lex_str_to_vec("'\\u{}'"),
        Err(AnreError::MessageWithLocation(
            _,
            Location {
                index: 3,
                line: 0,
                column: 3,
                length: 2
            }
        ))
    ));

    // err: invalid unicode code point, digits too much
    // "'\\u{1000111}'"
    //  01 234567890    // index
    assert!(matches!(
        lex_str_to_vec("'\\u{1000111}'"),
        Err(AnreError::MessageWithLocation(
            _,
            Location {
                index: 3,
                line: 0,
                column: 3,
                length: 8
            }
        ))
    ));

    // err: invalid unicode code point, code point out of range
    // "'\\u{123456}'"
    //  01 2345678901
    assert!(matches!(
        lex_str_to_vec("'\\u{123456}'"),
        Err(AnreError::MessageWithLocation(
            _,
            Location {
                index: 3,
                line: 0,
                column: 3,
                length: 8
            }
        ))
    ));

    // err: invalid char in the unicode escape sequence
    assert!(matches!(
        lex_str_to_vec("'\\u{12mn}''"),
        Err(AnreError::MessageWithLocation(
            _,
            Location {
                index: 6,
                line: 0,
                column: 6,
                length: 0
            }
        ))
    ));

    // err: missing the closed brace for unicode escape sequence
    assert!(matches!(
        lex_str_to_vec("'\\u{1234'"),
        Err(AnreError::MessageWithLocation(
            _,
            Location {
                index: 8,
                line: 0,
                column: 8,
                length: 0
            }
        ))
    ));

    // err: incomplete unicode escape sequence, encounter EOF
    assert!(matches!(
        lex_str_to_vec("'\\u{1234"),
        Err(AnreError::UnexpectedEndOfDocument(_))
    ));

    // err: missing left brace for unicode escape sequence
    assert!(matches!(
        lex_str_to_vec("'\\u1234}'"),
        Err(AnreError::MessageWithLocation(
            _,
            Location {
                index: 3,
                line: 0,
                column: 3,
                length: 0
            }
        ))
    ));
}

#[test]
fn test_lex_string() {
    assert_eq!(
        lex_str_to_vec(r#""abc""#).unwrap(),
        vec![new_string("abc")]
    );

    assert_eq!(
        lex_str_to_vec(r#"("abc")"#).unwrap(),
        vec![
            Token::LeftParen,
            new_string("abc"),
            Token::RightParen,
        ]
    );

    assert_eq!(
        lex_str_to_vec(r#""abc" "xyz""#).unwrap(),
        vec![new_string("abc"), new_string("xyz")]
    );

    assert_eq!(
        lex_str_to_vec("\"abc\"\n\n\"xyz\"").unwrap(),
        vec![
            new_string("abc"),
            Token::NewLine,
            Token::NewLine,
            new_string("xyz"),
        ]
    );

    // unicode
    assert_eq!(
        lex_str_to_vec(
            r#"
            "abc文字😊"
            "#
        )
        .unwrap(),
        vec![
            Token::NewLine,
            new_string("abc文字😊"),
            Token::NewLine,
        ]
    );

    // empty string
    assert_eq!(lex_str_to_vec("\"\"").unwrap(), vec![new_string("")]);

    // escape chars
    assert_eq!(
        lex_str_to_vec(
            r#"
            "\\\'\"\t\r\n\0\u{2d}\u{6587}"
            "#
        )
        .unwrap(),
        vec![
            Token::NewLine,
            new_string("\\\'\"\t\r\n\0-文"),
            Token::NewLine,
        ]
    );

    // location
    // "abc" "文字😊"
    // 01234567 8 9 0

    assert_eq!(
        lex_str_to_vec_with_range(r#""abc" "文字😊""#).unwrap(),
        vec![
            TokenWithRange::from_position_and_length(
                new_string("abc"),
                &Location::new_position(0, 0, 0),
                5
            ),
            TokenWithRange::from_position_and_length(
                new_string("文字😊"),
                &Location::new_position(6, 0, 6),
                5
            ),
        ]
    );

    // err: incomplete string, missing the closed quote
    assert!(matches!(
        lex_str_to_vec("\"abc"),
        Err(AnreError::UnexpectedEndOfDocument(_))
    ));

    // err: incomplete string, missing the closed quote, ends with \n
    assert!(matches!(
        lex_str_to_vec("\"abc\n"),
        Err(AnreError::UnexpectedEndOfDocument(_))
    ));

    // err: incomplete string, missing the closed quote, ends with whitespaces/other chars
    assert!(matches!(
        lex_str_to_vec("\"abc\n   "),
        Err(AnreError::UnexpectedEndOfDocument(_))
    ));

    // err: unsupported escape char \v
    assert!(matches!(
        lex_str_to_vec(r#""abc\vxyz""#),
        Err(AnreError::MessageWithLocation(
            _,
            Location {
                index: 5,
                line: 0,
                column: 5,
                length: 0
            }
        ))
    ));

    // err: unsupported hex escape "\x.."
    assert!(matches!(
        lex_str_to_vec(r#""abc\x33xyz""#),
        Err(AnreError::MessageWithLocation(
            _,
            Location {
                index: 5,
                line: 0,
                column: 5,
                length: 0
            }
        ))
    ));

    // err: empty unicode escape string
    // "abc\u{}"
    // 012345678    // index
    assert!(matches!(
        lex_str_to_vec(r#""abc\u{}xyz""#),
        Err(AnreError::MessageWithLocation(
            _,
            Location {
                index: 6,
                line: 0,
                column: 6,
                length: 2
            }
        ))
    ));

    // err: invalid unicode code point, too much digits
    // "abc\u{1000111}xyz"
    // 0123456789023456789    // index
    assert!(matches!(
        lex_str_to_vec(r#""abc\u{1000111}xyz""#),
        Err(AnreError::MessageWithLocation(
            _,
            Location {
                index: 6,
                line: 0,
                column: 6,
                length: 8
            }
        ))
    ));

    // err: invalid unicode code point, code point out of range
    // "abc\u{123456}xyz"
    // 012345678901234567
    assert!(matches!(
        lex_str_to_vec(r#""abc\u{123456}xyz""#),
        Err(AnreError::MessageWithLocation(
            _,
            Location {
                index: 6,
                line: 0,
                column: 6,
                length: 8
            }
        ))
    ));

    // err: invalid char in the unicode escape sequence
    assert!(matches!(
        lex_str_to_vec(r#""abc\u{12mn}xyz""#),
        Err(AnreError::MessageWithLocation(
            _,
            Location {
                index: 9,
                line: 0,
                column: 9,
                length: 0
            }
        ))
    ));

    // err: missing the right brace for unicode escape sequence
    assert!(matches!(
        lex_str_to_vec(r#""abc\u{1234""#),
        Err(AnreError::MessageWithLocation(
            _,
            Location {
                index: 11,
                line: 0,
                column: 11,
                length: 0
            }
        ))
    ));

    // err: incomplete unicode escape sequence, encounter EOF
    assert!(matches!(
        lex_str_to_vec(r#""abc\u{1234"#),
        Err(AnreError::UnexpectedEndOfDocument(_))
    ));

    // err: missing left brace for unicode escape sequence
    assert!(matches!(
        lex_str_to_vec(r#""abc\u1234}xyz""#),
        Err(AnreError::MessageWithLocation(
            _,
            Location {
                index: 6,
                line: 0,
                column: 6,
                length: 0
            }
        ))
    ));
}

#[test]
fn test_lex_line_comment() {
    assert_eq!(
        lex_str_to_vec(
            r#"
            7 //11
            13 17// 19 23
            //  29
            31//    37
            "#
        )
        .unwrap(),
        vec![
            Token::NewLine,
            Token::Number(7),
            Token::Comment(Comment::Line("11".to_owned())),
            Token::NewLine,
            Token::Number(13),
            Token::Number(17),
            Token::Comment(Comment::Line(" 19 23".to_owned())),
            Token::NewLine,
            Token::Comment(Comment::Line("  29".to_owned())),
            Token::NewLine,
            Token::Number(31),
            Token::Comment(Comment::Line("    37".to_owned())),
            Token::NewLine,
        ]
    );

    // location

    assert_eq!(
        lex_str_to_vec_with_range("foo // bar").unwrap(),
        vec![
            TokenWithRange::from_position_and_length(
                Token::Identifier("foo".to_owned()),
                &Location::new_position(0, 0, 0),
                3
            ),
            TokenWithRange::from_position_and_length(
                Token::Comment(Comment::Line(" bar".to_owned())),
                &Location::new_position(4, 0, 4),
                6
            ),
        ]
    );

    assert_eq!(
        lex_str_to_vec_with_range("abc // def\n// xyz\n").unwrap(),
        vec![
            TokenWithRange::from_position_and_length(
                Token::Identifier("abc".to_owned()),
                &Location::new_position(0, 0, 0),
                3
            ),
            TokenWithRange::from_position_and_length(
                Token::Comment(Comment::Line(" def".to_owned())),
                &Location::new_position(4, 0, 4),
                6
            ),
            TokenWithRange::from_position_and_length(
                Token::NewLine,
                &Location::new_position(10, 0, 10),
                1
            ),
            TokenWithRange::from_position_and_length(
                Token::Comment(Comment::Line(" xyz".to_owned())),
                &Location::new_position(11, 1, 0),
                6
            ),
            TokenWithRange::from_position_and_length(
                Token::NewLine,
                &Location::new_position(17, 1, 6),
                1
            ),
        ]
    );
}

#[test]
fn test_lex_block_comment() {
    assert_eq!(
        lex_str_to_vec(
            r#"
            7 /* 11 13 */ 17
            "#
        )
        .unwrap(),
        vec![
            Token::NewLine,
            Token::Number(7),
            Token::Comment(Comment::Block(" 11 13 ".to_owned())),
            Token::Number(17),
            Token::NewLine,
        ]
    );

    // nested block comment
    assert_eq!(
        lex_str_to_vec(
            r#"
            7 /* 11 /* 13 */ 17 */ 19
            "#
        )
        .unwrap(),
        vec![
            Token::NewLine,
            Token::Number(7),
            Token::Comment(Comment::Block(" 11 /* 13 */ 17 ".to_owned())),
            Token::Number(19),
            Token::NewLine,
        ]
    );

    // line comment chars "//" within the block comment
    assert_eq!(
        lex_str_to_vec(
            r#"
            7 /* 11 // 13 17 */ 19
            "#
        )
        .unwrap(),
        vec![
            Token::NewLine,
            Token::Number(7),
            Token::Comment(Comment::Block(" 11 // 13 17 ".to_owned())),
            Token::Number(19),
            Token::NewLine,
        ]
    );

    // location

    assert_eq!(
        lex_str_to_vec_with_range("foo /* hello */ bar").unwrap(),
        vec![
            TokenWithRange::from_position_and_length(
                Token::Identifier("foo".to_owned()),
                &Location::new_position(0, 0, 0),
                3
            ),
            TokenWithRange::from_position_and_length(
                Token::Comment(Comment::Block(" hello ".to_owned())),
                &Location::new_position(4, 0, 4),
                11
            ),
            TokenWithRange::from_position_and_length(
                Token::Identifier("bar".to_owned()),
                &Location::new_position(16, 0, 16),
                3
            ),
        ]
    );

    assert_eq!(
        lex_str_to_vec_with_range("/* abc\nxyz */ /* hello */").unwrap(),
        vec![
            TokenWithRange::from_position_and_length(
                Token::Comment(Comment::Block(" abc\nxyz ".to_owned())),
                &Location::new_position(0, 0, 0),
                13
            ),
            TokenWithRange::from_position_and_length(
                Token::Comment(Comment::Block(" hello ".to_owned())),
                &Location::new_position(14, 1, 7),
                11
            ),
        ]
    );

    // err: incomplete, missing "*/"
    assert!(matches!(
        lex_str_to_vec("7 /* 11"),
        Err(AnreError::UnexpectedEndOfDocument(_))
    ));

    // err: incomplete, missing "*/", ends with \n
    assert!(matches!(
        lex_str_to_vec("7 /* 11\n"),
        Err(AnreError::UnexpectedEndOfDocument(_))
    ));

    // err: incomplete, unpaired, missing "*/"
    assert!(matches!(
        lex_str_to_vec("a /* b /* c */"),
        Err(AnreError::UnexpectedEndOfDocument(_))
    ));

    // err: incomplete, unpaired, missing "*/", ends with \n
    assert!(matches!(
        lex_str_to_vec("a /* b /* c */\n"),
        Err(AnreError::UnexpectedEndOfDocument(_))
    ));
}

#[test]
fn test_lex_multiple_tokens() {
    assert_eq!(
        lex_str_to_vec(
            r#"
            ('a', "def", "xyz".repeat(3)).once_or_more()
            "#
        )
        .unwrap(),
        vec![
            Token::NewLine,
            Token::LeftParen,
            Token::Char('a'),
            Token::Comma,
            new_string("def"),
            Token::Comma,
            new_string("xyz"),
            Token::Dot,
            new_identifier("repeat"),
            Token::LeftParen,
            Token::Number(3),
            Token::RightParen,
            Token::RightParen,
            Token::Dot,
            new_identifier("once_or_more"),
            Token::LeftParen,
            Token::RightParen,
            Token::NewLine
        ]
    );

    assert_eq!(
        lex_str_to_vec(
            r#"
            once_or_more([
                'a'..'f'    // comment 1
                '0'..'9'    // comment 2
                '_'
            ])
            "#
        )
        .unwrap(),
        vec![
            Token::NewLine,
            new_identifier("once_or_more"),
            Token::LeftParen,
            Token::LeftBracket,
            Token::NewLine,
            Token::Char('a'),
            Token::Ellipsis,
            Token::Char('f'),
            Token::Comment(Comment::Line(" comment 1".to_owned())),
            Token::NewLine,
            Token::Char('0'),
            Token::Ellipsis,
            Token::Char('9'),
            Token::Comment(Comment::Line(" comment 2".to_owned())),
            Token::NewLine,
            Token::Char('_'),
            Token::NewLine,
            Token::RightBracket,
            Token::RightParen,
            Token::NewLine
        ]
    );
}
