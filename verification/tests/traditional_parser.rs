use regex_anre::ast::{
    CharRange, CharSet, CharSetElement, Expression, Literal, PresetCharSetName, Program,
};
use regex_anre::traditional::parser::parse_from_str;
use regex_anre::AnreError;

#[test]
fn parser_test_parse_literal_simple() {
    {
        let program = parse_from_str(r#"a\w"#).unwrap();

        assert_eq!(
            program,
            Program {
                expressions: vec![
                    Expression::Literal(Literal::Char('a')),
                    Expression::Literal(Literal::PresetCharSet(PresetCharSetName::CharWord)),
                ]
            }
        );

        assert_eq!(program.to_string(), r#"'a', char_word"#);
    }

    // merge continous chars
    {
        let program = parse_from_str(r#"abc\dmn\dp\dxyz"#).unwrap();

        assert_eq!(
            program,
            Program {
                expressions: vec![
                    Expression::Literal(Literal::String("abc".to_owned())),
                    Expression::Literal(Literal::PresetCharSet(PresetCharSetName::CharDigit)),
                    Expression::Literal(Literal::String("mn".to_owned())),
                    Expression::Literal(Literal::PresetCharSet(PresetCharSetName::CharDigit)),
                    Expression::Literal(Literal::Char('p')),
                    Expression::Literal(Literal::PresetCharSet(PresetCharSetName::CharDigit)),
                    Expression::Literal(Literal::String("xyz".to_owned())),
                ]
            }
        );

        assert_eq!(
            program.to_string(),
            r#""abc", char_digit, "mn", char_digit, 'p', char_digit, "xyz""#
        );
    }
}

#[test]
fn test_parse_literal_charset() {
    let program = parse_from_str(r#"[a0-9\w]"#).unwrap();

    assert_eq!(
        program,
        Program {
            expressions: vec![Expression::Literal(Literal::CharSet(CharSet {
                negative: false,
                elements: vec![
                    CharSetElement::Char('a'),
                    CharSetElement::CharRange(CharRange {
                        start: '0',
                        end_included: '9'
                    }),
                    CharSetElement::PresetCharSet(PresetCharSetName::CharWord),
                ]
            })),]
        }
    );

    assert_eq!(program.to_string(), r#"['a', '0'..'9', char_word]"#);

    // negative
    assert_eq!(
        parse_from_str(r#"[^a-z\s]"#,).unwrap().to_string(),
        r#"!['a'..'z', char_space]"#
    );
}

#[test]
fn test_parse_expression_notations() {
    assert_eq!(
        parse_from_str(r#"a?b+c*x??y+?z*?"#,).unwrap().to_string(),
        r#"optional('a')
one_or_more('b')
zero_or_more('c')
optional_lazy('x')
one_or_more_lazy('y')
zero_or_more_lazy('z')"#
    );

    assert_eq!(
        parse_from_str(r#"a{3}b{5,7}c{11,}y{5,7}?z{11,}?"#,)
            .unwrap()
            .to_string(),
        r#"repeat('a', 3)
repeat_range('b', 5, 7)
at_least('c', 11)
repeat_range_lazy('y', 5, 7)
at_least_lazy('z', 11)"#
    );

    // err: '{m}?' is not allowed
    assert!(matches!(
        parse_from_str(r#"a{3}?"#,),
        Err(AnreError::MessageWithLocation(_, _))
    ));

    // err: '{m,m}?' is not allowed
    assert!(matches!(
        parse_from_str(r#"a{3,3}?"#,),
        Err(AnreError::MessageWithLocation(_, _))
    ));
}

#[test]
fn test_parse_expression_logic_or() {
    {
        let program = parse_from_str(r#"a|b"#).unwrap();

        assert_eq!(
            program,
            Program {
                expressions: vec![Expression::Or(
                    Box::new(Expression::Literal(Literal::Char('a'))),
                    Box::new(Expression::Literal(Literal::Char('b'))),
                )]
            }
        );

        assert_eq!(program.to_string(), r#"'a' || 'b'"#);
    }

    {
        let program = parse_from_str(r#"a|b|c"#).unwrap();

        assert_eq!(
            program,
            Program {
                expressions: vec![Expression::Or(
                    Box::new(Expression::Literal(Literal::Char('a'))),
                    Box::new(Expression::Or(
                        Box::new(Expression::Literal(Literal::Char('b'))),
                        Box::new(Expression::Literal(Literal::Char('c'))),
                    )),
                )]
            }
        );

        assert_eq!(program.to_string(), r#"'a' || ('b' || 'c')"#);
    }

    assert_eq!(
        parse_from_str(r#"\d+|[\w-]+"#,).unwrap().to_string(),
        r#"one_or_more(char_digit) || one_or_more([char_word, '-'])"#
    );
}

#[test]
fn test_parse_expression_group() {
    // the group of regex is captured by default
    assert_eq!(
        parse_from_str(r#"(foo\d)(b(bar\d))$"#,)
            .unwrap()
            .to_string(),
        r#"index(("foo", char_digit))
index(('b', index(("bar", char_digit))))
end"#
    );

    // non-capturing
    assert_eq!(
        parse_from_str(r#"(?:foo\d)(?:b(?:bar\d))$"#,)
            .unwrap()
            .to_string(),
        r#"("foo", char_digit), ('b', ("bar", char_digit)), end"#
    );

    assert_eq!(
        parse_from_str(r#"(?:foo\d){3}(?:b(?:bar){5})$"#,)
            .unwrap()
            .to_string(),
        r#"repeat(("foo", char_digit), 3)
('b', repeat("bar", 5)), end"#
    );

    assert_eq!(
        parse_from_str(r#"a|(?:b|c)"#,).unwrap().to_string(),
        r#"'a' || ('b' || 'c')"#
    );

    assert_eq!(
        parse_from_str(r#"(?:a|b)|c"#,).unwrap().to_string(),
        r#"('a' || 'b') || 'c'"#
    );

    // the implied groups when encounter the logic or operator '|'
    assert_eq!(
        parse_from_str(r#"a\w|b\d"#,).unwrap().to_string(),
        r#"('a', char_word) || ('b', char_digit)"#
    );

    // extract elements from the top group
    assert_eq!(
        parse_from_str(r#"(?:(?:a\db))"#,).unwrap().to_string(),
        r#"'a', char_digit, 'b'"#
    );
}

#[test]
fn test_parse_expression_anchor_and_boundary_assertions() {
    assert_eq!(
        parse_from_str(r#"^ab\bcd\Bef$"#,).unwrap().to_string(),
        r#"start, "ab", is_bound, "cd", is_not_bound, "ef", end"#
    );
}

#[test]
fn test_parse_expression_named_captured_group_and_back_reference() {
    assert_eq!(
        parse_from_str(r#"(?<tag>\w+).+\k<tag>\1"#,)
            .unwrap()
            .to_string(),
        r#"name(one_or_more(char_word), "tag")
one_or_more(char_any)
tag, ^1"#
    );
}

#[test]
fn test_parse_expression_lookaround_assertion() {
    assert_eq!(
        parse_from_str(r#"(?<=a)b"#,).unwrap().to_string(),
        r#"is_after('b', 'a')"#
    );

    assert_eq!(
        parse_from_str(r#"(?<!a)b"#,).unwrap().to_string(),
        r#"is_not_after('b', 'a')"#
    );

    assert_eq!(
        parse_from_str(r#"a(?=b)"#,).unwrap().to_string(),
        r#"is_before('a', 'b')"#
    );

    assert_eq!(
        parse_from_str(r#"a(?!b)"#,).unwrap().to_string(),
        r#"is_not_before('a', 'b')"#
    );
}

#[test]
fn test_parse_examples() {
    assert_eq!(
        parse_from_str(r#"\d+"#,).unwrap().to_string(),
        "one_or_more(char_digit)"
    );

    assert_eq!(
        parse_from_str(r#"0x[0-9a-f]+"#,).unwrap().to_string(),
        "\"0x\"
one_or_more(['0'..'9', 'a'..'f'])"
    );

    assert_eq!(
        parse_from_str(r#"^[\w.-]+(\+[\w-]+)?@([a-zA-Z0-9-]+\.)+[a-z]{2,}$"#,)
            .unwrap()
            .to_string(),
        "start
one_or_more([char_word, '.', '-'])
optional(index(('+', one_or_more([char_word, '-']))))
'@'
one_or_more(index((one_or_more(['a'..'z', 'A'..'Z', '0'..'9', '-']), '.')))
at_least(['a'..'z'], 2)
end"
    );

    assert_eq!(
        parse_from_str(
            r#"^((25[0-5]|2[0-4]\d|1\d\d|[1-9]\d|\d)\.){3}(25[0-5]|2[0-4]\d|1\d\d|[1-9]\d|\d)$"#,
        )
        .unwrap()
        .to_string(),
        r#"start
repeat(index((index(("25", ['0'..'5']) || (('2', ['0'..'4'], char_digit) || (('1', char_digit, char_digit) || ((['1'..'9'], char_digit) || char_digit)))), '.')), 3)
index(("25", ['0'..'5']) || (('2', ['0'..'4'], char_digit) || (('1', char_digit, char_digit) || ((['1'..'9'], char_digit) || char_digit))))
end"#
    );

    assert_eq!(
        parse_from_str(r#"<(?<tag_name>\w+)(\s\w+="\w+")*>.+?</\k<tag_name>>"#,)
            .unwrap()
            .to_string(),
        r#"'<'
name(one_or_more(char_word), "tag_name")
zero_or_more(index((char_space, one_or_more(char_word), "="", one_or_more(char_word), '"')))
'>'
one_or_more_lazy(char_any)
"</", tag_name, '>'"#
    );
}
