use regex_anre::lexer::{Comment, Lexer, Token};
use regex_anre::location::Location;
use regex_anre::AnreError;

#[test]
fn token_descriptions() {
    assert_eq!(Token::NewLine.get_description(), "new line");
    assert_eq!(Token::Comma.get_description(), "comma \",\"");
    assert_eq!(Token::Exclam.get_description(), "exclam \"!\"");
    assert_eq!(Token::Ellipsis.get_description(), "ellipsis \"..\"");
    assert_eq!(Token::Dot.get_description(), "dot \".\"");
    assert_eq!(Token::LogicOr.get_description(), "logic or \"||\"");
    assert_eq!(Token::LeftBracket.get_description(), "left bracket \"[\"");
    assert_eq!(Token::RightBracket.get_description(), "right bracket \"]\"");
    assert_eq!(Token::LeftParen.get_description(), "left parenthese \"(\"");
    assert_eq!(Token::RightParen.get_description(), "right parenthese \")\"");
    assert_eq!(Token::Identifier("foo".to_owned()).get_description(), "identifier \"foo\"");
    assert_eq!(Token::Number(4096).get_description(), "number \"4096\"");
    assert_eq!(Token::Number(0).get_description(), "number \"0\"");
    assert_eq!(Token::Char('文').get_description(), "char \"文\"");
    assert_eq!(Token::String_("abc".to_owned()).get_description(), "string");
    assert_eq!(Token::Comment(Comment::Line("x".to_owned())).get_description(), "comment");
    assert_eq!(Token::Comment(Comment::Block("x".to_owned())).get_description(), "comment");
}

fn lex(s: &str) -> Result<Vec<Token>, AnreError> {
    let mut lexer = Lexer::new(s);
    Ok(lexer.lex()?.into_iter().map(|t| t.token).collect())
}

#[test]
fn lexer_errors() {
    // a char that starts no token
    assert!(matches!(
        lex("a ; b"),
        Err(AnreError::MessageWithLocation(
            _,
            Location {
                index: 2,
                line: 0,
                column: 2,
                length: 0
            }
        ))
    ));
    // the largest number, and one more
    assert_eq!(lex("4294967295").unwrap(), vec![Token::Number(4294967295)]);
    assert!(matches!(
        lex("(4294967296)"),
        Err(AnreError::MessageWithLocation(
            _,
            Location {
                index: 1,
                line: 0,
                column: 1,
                length: 10
            }
        ))
    ));
    // a single '|' starts no token
    assert!(lex("a | b").is_err());
    // a carriage return alone is no line break
    assert!(lex("a\rb").is_err());
}

#[test]
fn lexer_line_comment_stops_before_crlf() {
    assert_eq!(
        lex("1 //x\r\n2").unwrap(),
        vec![
            Token::Number(1),
            Token::Comment(Comment::Line("x".to_owned())),
            Token::NewLine,
            Token::Number(2),
        ]
    );
    let mut lexer = Lexer::new("foo // bar\r\n");
    let tokens = lexer.lex().unwrap();
    let got: Vec<(Token, usize, usize, usize, usize)> = tokens
        .into_iter()
        .map(|t| (t.token, t.range.index, t.range.line, t.range.column, t.range.length))
        .collect();
    assert_eq!(
        got,
        vec![
            (Token::Identifier("foo".to_owned()), 0, 0, 0, 3),
            (Token::Comment(Comment::Line(" bar".to_owned())), 4, 0, 4, 6),
            (Token::NewLine, 10, 0, 10, 2),
        ]
    );
    // a carriage return not followed by a line feed stays in the comment
    assert_eq!(
        lex("//a\rb").unwrap(),
        vec![Token::Comment(Comment::Line("a\rb".to_owned()))]
    );
}
