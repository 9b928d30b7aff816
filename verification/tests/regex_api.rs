use regex_anre::location::Location;
use regex_anre::process::{Match, Regex};
use regex_anre::AnreError;

const COLORS: &str = "The color is #ffbb33 and the background is #bbdd99.";

#[test]
fn example_capture_group() {
    let re =
        Regex::new(r"#(?<red>[\da-fA-F]{2})(?<green>[\da-fA-F]{2})(?<blue>[\da-fA-F]{2})").unwrap();

    let m = re.captures(COLORS).unwrap();
    assert_eq!(m.get(0).unwrap().as_str(), "#ffbb33");
    assert_eq!(m.name("red").unwrap().as_str(), "ff");
    assert_eq!(m.name("green").unwrap().as_str(), "bb");
    assert_eq!(m.name("blue").unwrap().as_str(), "33");
    assert_eq!(m.len(), 4);
    assert!(m.name("alpha").is_none());
    assert!(m.get(4).is_none());

    let mut all = re.captures_iter(COLORS);
    let first = all.next().unwrap();
    assert_eq!(first.get(0).unwrap().as_str(), "#ffbb33");
    assert_eq!(first.get(0).unwrap().range(), 13..20);
    let second = all.next().unwrap();
    assert_eq!(second.get(0).unwrap().as_str(), "#bbdd99");
    assert_eq!(second.name("red").unwrap().as_str(), "bb");
    assert_eq!(second.name("green").unwrap().as_str(), "dd");
    assert_eq!(second.name("blue").unwrap().as_str(), "99");
    assert!(all.next().is_none());
}

#[test]
fn example_find() {
    let re = Regex::new(r"#[\da-fA-F]{6}").unwrap();
    let m = re.find(COLORS).unwrap();
    assert_eq!(m.as_str(), "#ffbb33");

    let mut matches = re.find_iter(COLORS);
    assert_eq!(matches.next().unwrap().as_str(), "#ffbb33");
    assert_eq!(matches.next().unwrap().as_str(), "#bbdd99");
    assert!(matches.next().is_none());
}

#[test]
fn example_validate() {
    let re = Regex::new(r"^\d{4}-\d{2}-\d{2}$").unwrap();
    assert!(re.is_match("2025-04-22"));
    assert!(!re.is_match("04-22"));
    assert!(!re.is_match("x2025-04-22"));
}

#[test]
fn match_accessors() {
    let m = Match::new(2, 5, Some("word"), "abc");
    assert_eq!(m.start(), 2);
    assert_eq!(m.end(), 5);
    assert_eq!(m.len(), 3);
    assert!(!m.is_empty());
    assert_eq!(m.range(), 2..5);
    assert_eq!(m.as_str(), "abc");

    let e = Match::new(3, 3, None, "");
    assert!(e.is_empty());
    assert_eq!(e.len(), 0);
}

#[test]
fn captures_first_name_and_extract() {
    let re = Regex::new(r"(?<left>\d+)-(\d+)").unwrap();
    let caps = re.captures("ab 12-345 cd").unwrap();
    assert_eq!(caps.len(), 3);
    assert_eq!(caps.first().unwrap().as_str(), "12-345");
    assert_eq!(caps.first().unwrap().range(), 3..9);
    assert_eq!(caps.name("left").unwrap().as_str(), "12");
    assert_eq!(caps.get(1).unwrap().name, Some("left"));
    assert_eq!(caps.get(2).unwrap().name, None);
    let (whole, parts) = caps.extract(2);
    assert_eq!(whole, "12-345");
    assert_eq!(parts, vec!["12", "345"]);
    let (whole, parts) = caps.extract(0);
    assert_eq!(whole, "12-345");
    assert!(parts.is_empty());
}

#[test]
fn group_zero_is_the_found_match() {
    let re = Regex::new(r"b(\w)").unwrap();
    let text = "ab bc bd";
    let found = re.find(text).unwrap();
    let caps = re.captures(text).unwrap();
    assert_eq!(caps.get(0).unwrap(), &found);
    assert_eq!(found, Match::new(3, 5, None, "bc"));
    assert_eq!(re.is_match(text), re.find(text).is_some());
}

#[test]
fn find_iter_moves_forward() {
    let re = Regex::new(r"\d+").unwrap();
    let text = "a1b22c333";
    let mut matches = re.find_iter(text);
    let mut last_end = 0;
    let mut ranges = vec![];
    while let Some(m) = matches.next() {
        assert!(last_end <= m.start());
        assert!(m.start() <= m.end());
        assert!(m.end() <= text.len());
        last_end = m.end();
        ranges.push(m.range());
    }
    assert_eq!(ranges, vec![1..2, 3..5, 6..9]);
}

#[test]
fn captures_bytes_of_invalid_utf8() {
    let re = Regex::new("a.b").unwrap();
    let bytes: &[u8] = &[b'x', b'a', 0xff, b'b'];
    let caps = re.captures_bytes(bytes).unwrap();
    let m = caps.get(0).unwrap();
    assert_eq!(m.range(), 1..4);
    // the range is not valid UTF-8, so its text is empty
    assert_eq!(m.as_str(), "");

    let re = Regex::new("ab").unwrap();
    let caps = re.captures_bytes(b"xxab").unwrap();
    assert_eq!(caps.get(0).unwrap().as_str(), "ab");
    let mut all = re.captures_bytes_iter(b"abab");
    assert_eq!(all.next().unwrap().get(0).unwrap().range(), 0..2);
    assert_eq!(all.next().unwrap().get(0).unwrap().range(), 2..4);
    assert!(all.next().is_none());
}

#[test]
fn regex_errors() {
    // a unicode escape of a surrogate is no char
    assert!(matches!(
        Regex::new(r"\u{d800}"),
        Err(AnreError::MessageWithLocation(
            _,
            Location {
                index: 2,
                line: 0,
                column: 2,
                length: 6
            }
        ))
    ));
    assert!(Regex::new(r"\u{6587}").unwrap().is_match("中文"));

    // a group that is not closed
    assert!(matches!(Regex::new("(a"), Err(AnreError::UnexpectedEndOfDocument(_))));

    // the start anchor in the middle
    assert!(matches!(Regex::new("a^b"), Err(AnreError::SyntaxIncorrect(_))));

    // a back reference to a group that does not exist
    assert!(matches!(Regex::new(r"(a)\2"), Err(AnreError::SyntaxIncorrect(_))));

    // a look-behind pattern of variable length
    assert!(matches!(Regex::new("(?<=a+)b"), Err(AnreError::SyntaxIncorrect(_))));

    // a repetition range from large to small
    assert!(matches!(Regex::new("a{3,1}"), Err(AnreError::SyntaxIncorrect(_))));
}

#[test]
fn look_around_and_back_reference() {
    let re = Regex::new(r"(?<=x)a").unwrap();
    assert_eq!(re.find("ya xa").unwrap().range(), 4..5);

    let re = Regex::new(r"a(?!b)").unwrap();
    assert_eq!(re.find("ab ac").unwrap().range(), 3..4);

    let re = Regex::new(r"(\w)\1").unwrap();
    assert_eq!(re.find("abccd").unwrap().as_str(), "cc");
}

#[test]
fn back_reference_at_end_of_text() {
    let re = Regex::new(r"(a)\1").unwrap();
    assert_eq!(re.find("aa").unwrap().range(), 0..2);
    assert_eq!(re.find("baa").unwrap().as_str(), "aa");
    assert!(re.find("ab").is_none());
}

#[test]
fn error_texts() {
    assert_eq!(AnreError::SyntaxIncorrect("Bad.".to_owned()).to_string(), "Bad.");
    assert_eq!(
        AnreError::UnexpectedEndOfDocument("Incomplete group.".to_owned()).to_string(),
        "Unexpected end of document.\nIncomplete group."
    );
    assert_eq!(
        AnreError::MessageWithLocation("Unexpected char.".to_owned(), Location::new_position(12, 2, 9))
            .to_string(),
        "Error at line: 3, column: 10\nUnexpected char."
    );
}

fn ranges_of(re: &Regex, text: &str) -> Vec<(usize, usize, String)> {
    let mut matches = re.find_iter(text);
    let mut found = Vec::new();
    while let Some(m) = matches.next() {
        found.push((m.start(), m.end(), m.as_str().to_owned()));
        assert!(found.len() <= text.len() + 1);
    }
    found
}

#[test]
fn find_iter_moves_past_empty_matches() {
    let re = Regex::new("a*").unwrap();
    assert_eq!(
        ranges_of(&re, "b"),
        vec![(0, 0, String::new()), (1, 1, String::new())]
    );
    assert_eq!(
        ranges_of(&re, "ab"),
        vec![(0, 1, "a".to_owned()), (1, 1, String::new()), (2, 2, String::new())]
    );
    assert_eq!(ranges_of(&re, ""), vec![(0, 0, String::new())]);
    // an empty match moves on by a whole character
    assert_eq!(
        ranges_of(&re, "文a"),
        vec![(0, 0, String::new()), (3, 4, "a".to_owned()), (4, 4, String::new())]
    );

    let mut all = re.captures_iter("b");
    assert_eq!(all.next().unwrap().get(0).unwrap().range(), 0..0);
    assert_eq!(all.next().unwrap().get(0).unwrap().range(), 1..1);
    assert!(all.next().is_none());
    assert!(all.next().is_none());
}

#[test]
fn empty_text_is_searched() {
    let re = Regex::new("a?").unwrap();
    let m = re.find("").unwrap();
    assert_eq!((m.start(), m.end(), m.as_str()), (0, 0, ""));
    assert!(Regex::new("^$").unwrap().is_match(""));
    assert!(!Regex::new("a").unwrap().is_match(""));
    // the end of the text is a position too
    assert_eq!(Regex::new("$").unwrap().find("ab").unwrap().range(), 2..2);
}

#[test]
fn abandoned_groups_are_not_reported() {
    let re = Regex::new("(x)?y").unwrap();
    let c = re.captures("xzy").unwrap();
    assert_eq!(c.get(0).unwrap().range(), 2..3);
    assert_eq!(c.get(0).unwrap().as_str(), "y");
    assert_eq!(c.get(1).unwrap().range(), 0..0);
    assert_eq!(c.get(1).unwrap().as_str(), "");

    let re = Regex::new("(a)?ab").unwrap();
    let c = re.captures("ab").unwrap();
    assert_eq!(c.get(0).unwrap().range(), 0..2);
    assert_eq!(c.get(1).unwrap().range(), 0..0);
    assert_eq!(c.get(1).unwrap().as_str(), "");

    // a group that took part keeps what it matched
    let c = re.captures("aab").unwrap();
    assert_eq!(c.get(1).unwrap().range(), 0..1);
    assert_eq!(c.get(1).unwrap().as_str(), "a");
}

#[test]
fn find_iter_and_captures_iter_agree() {
    let re = Regex::new(r"(\d)(\w)?").unwrap();
    let text = "1a 2 3b4";
    let found = ranges_of(&re, text);
    let mut all = re.captures_iter(text);
    let mut groups = Vec::new();
    while let Some(c) = all.next() {
        let m = c.get(0).unwrap();
        groups.push((m.start(), m.end(), m.as_str().to_owned()));
    }
    assert_eq!(found, groups);
    assert_eq!(re.find(text).unwrap().range(), 0..2);
    assert_eq!(found[0].0, 0);
}

#[test]
fn match_texts_are_slices_of_the_text() {
    let text = "aé文😀b 文字";
    let re = Regex::new(".").unwrap();
    let mut matches = re.find_iter(text);
    let mut count = 0;
    while let Some(m) = matches.next() {
        assert_eq!(m.as_str(), &text[m.start()..m.end()]);
        assert_eq!(m.as_str().len(), m.len());
        count += 1;
    }
    assert_eq!(count, 8);

    let re = Regex::new(r"(文)(\w)?").unwrap();
    let c = re.captures(text).unwrap();
    for i in 0..c.len() {
        let g = c.get(i).unwrap();
        assert_eq!(g.as_str(), &text[g.start()..g.end()]);
    }
    assert_eq!(c.get(0).unwrap().as_str(), "文");
    let c = re.captures_bytes(text.as_bytes()).unwrap();
    assert_eq!(c.get(0).unwrap().range(), 3..6);

    let re = Regex::new(r"(?<=文)字").unwrap();
    let m = re.find(text).unwrap();
    assert_eq!(m.as_str(), &text[m.start()..m.end()]);
    assert_eq!(m.as_str(), "字");
}
