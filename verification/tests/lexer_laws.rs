use regex_anre::lexer::Lexer;
use regex_anre::location::Location;
use regex_anre::traditional::lexer::lex_from_str;

fn assert_in_order(ranges: &[Location], text_len: usize) {
    let mut end = 0;
    for r in ranges {
        assert!(r.length >= 1);
        assert!(end <= r.index);
        end = r.index + r.length;
        assert!(end <= text_len);
    }
}

#[test]
fn anre_tokens_come_in_order() {
    let text = "start, 'a'..'z' // letters\n\"xyz\".repeat(3) /* n /* m */ */ name";
    let mut lexer = Lexer::new(text);
    let ranges: Vec<Location> = lexer.lex().unwrap().into_iter().map(|t| t.range).collect();
    assert_eq!(ranges.len(), 15);
    assert_in_order(&ranges, text.chars().count());
}

#[test]
fn traditional_tokens_come_in_order() {
    let text = r"^(?<tag>\w+)[a-z\u{5b57}0-9-]{2,3}?\k<tag>(?<=x)\d$";
    let ranges: Vec<Location> = lex_from_str(text).unwrap().into_iter().map(|t| t.range).collect();
    assert_in_order(&ranges, text.chars().count());
    // the range `a-z` of the charset is one token, from 'a' to 'z'
    assert!(ranges.contains(&Location::new_range(13, 0, 13, 3)));
}
