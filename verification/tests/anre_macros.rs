use regex_anre::anre::commentremover::clean;
use regex_anre::anre::macroexpander::expand;
use regex_anre::anre::token::{Comment, Token, TokenWithRange};
use regex_anre::location::Location;
use regex_anre::AnreError;

/// Gives each token a one-character range of its own, in order.
fn with_ranges(tokens: Vec<Token>) -> Vec<TokenWithRange> {
    tokens
        .into_iter()
        .enumerate()
        .map(|(i, t)| TokenWithRange::new(t, Location::new_range(i, 0, i, 1)))
        .collect()
}

fn without_ranges(tokens: Vec<TokenWithRange>) -> Vec<Token> {
    tokens.into_iter().map(|t| t.token).collect()
}

fn id(s: &str) -> Token {
    Token::Identifier(s.to_owned())
}

fn anchor(s: &str) -> Token {
    Token::AnchorAssertion(s.to_owned())
}

#[test]
fn clean_removes_comments_and_keeps_ranges() {
    let tokens = with_ranges(vec![
        Token::Char('1'),
        Token::Comment(Comment::Line(" line comment".to_owned())),
        Token::NewLine,
        Token::Comment(Comment::Block(" block comment ".to_owned())),
        Token::Char('3'),
    ]);
    let cleaned = clean(tokens);
    assert_eq!(
        cleaned,
        vec![
            TokenWithRange::new(Token::Char('1'), Location::new_range(0, 0, 0, 1)),
            TokenWithRange::new(Token::NewLine, Location::new_range(2, 0, 2, 1)),
            TokenWithRange::new(Token::Char('3'), Location::new_range(4, 0, 4, 1)),
        ]
    );
}

#[test]
fn clean_twice_is_clean_once() {
    let tokens = with_ranges(vec![
        Token::Comment(Comment::Block("a".to_owned())),
        Token::Char('x'),
        Token::Comment(Comment::Line("b".to_owned())),
    ]);
    let once = clean(tokens);
    let twice = clean(once.clone());
    assert_eq!(twice, once);
    assert_eq!(without_ranges(once), vec![Token::Char('x')]);
    assert_eq!(clean(vec![]), vec![]);
}

#[test]
fn expand_one_definition() {
    // define(a, 'a')
    // start, a, end
    let tokens = with_ranges(vec![
        id("define"),
        Token::LeftParen,
        id("a"),
        Token::Comma,
        Token::Char('a'),
        Token::RightParen,
        Token::NewLine,
        anchor("start"),
        Token::Comma,
        id("a"),
        Token::Comma,
        anchor("end"),
    ]);
    assert_eq!(
        without_ranges(expand(tokens).unwrap()),
        vec![
            Token::NewLine,
            anchor("start"),
            Token::Comma,
            Token::Char('a'),
            Token::Comma,
            anchor("end"),
        ]
    );
}

#[test]
fn expand_definition_used_by_a_later_one() {
    // define(a, 'a')
    // define(b, a+)
    // start, a, b, end
    let tokens = with_ranges(vec![
        id("define"),
        Token::LeftParen,
        id("a"),
        Token::Comma,
        Token::Char('a'),
        Token::RightParen,
        Token::NewLine,
        id("define"),
        Token::LeftParen,
        id("b"),
        Token::Comma,
        id("a"),
        Token::Plus,
        Token::RightParen,
        Token::NewLine,
        anchor("start"),
        Token::Comma,
        id("a"),
        Token::Comma,
        id("b"),
        Token::Comma,
        anchor("end"),
    ]);
    assert_eq!(
        without_ranges(expand(tokens).unwrap()),
        vec![
            Token::NewLine,
            Token::NewLine,
            anchor("start"),
            Token::Comma,
            Token::Char('a'),
            Token::Comma,
            Token::Char('a'),
            Token::Plus,
            Token::Comma,
            anchor("end"),
        ]
    );
}

#[test]
fn expand_keeps_ranges_of_replacements() {
    // define(x, 'q') x
    let tokens = with_ranges(vec![
        id("define"),
        Token::LeftParen,
        id("x"),
        Token::Comma,
        Token::Char('q'),
        Token::RightParen,
        id("x"),
    ]);
    assert_eq!(
        expand(tokens).unwrap(),
        vec![TokenWithRange::new(Token::Char('q'), Location::new_range(4, 0, 4, 1))]
    );
}

#[test]
fn expand_without_definitions_changes_nothing() {
    let tokens = with_ranges(vec![anchor("start"), Token::Comma, id("a")]);
    assert_eq!(expand(tokens.clone()).unwrap(), tokens);
}

#[test]
fn expand_incomplete_definition() {
    // define(a, 'a'
    let tokens = with_ranges(vec![
        id("define"),
        Token::LeftParen,
        id("a"),
        Token::Comma,
        Token::Char('a'),
    ]);
    assert!(matches!(expand(tokens), Err(AnreError::UnexpectedEndOfDocument(_))));
}

#[test]
fn expand_definition_without_name() {
    // define(, 'a')
    let tokens = with_ranges(vec![
        id("define"),
        Token::LeftParen,
        Token::Comma,
        Token::Char('a'),
        Token::RightParen,
    ]);
    assert!(matches!(
        expand(tokens),
        Err(AnreError::MessageWithLocation(
            _,
            Location {
                index: 2,
                line: 0,
                column: 2,
                length: 0
            }
        ))
    ));
}
