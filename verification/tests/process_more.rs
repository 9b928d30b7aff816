use regex_anre::process::{Captures, Match, Regex};

fn new_match(start: usize, end: usize, value: &str) -> Match<'static, '_> {
    Match::new(start, end, None, value)
}

fn new_captures<'a, 'b>(gs: &[(usize, usize, Option<&'a str>, &'b str)]) -> Captures<'a, 'b> {
    Captures { matches: gs.iter().map(|g| Match::new(g.0, g.1, g.2, g.3)).collect() }
}

fn find_all<'a, 'b>(re: &'a Regex, text: &'b str) -> Vec<Match<'a, 'b>> {
    let mut matches = re.find_iter(text);
    let mut all = vec![];
    while let Some(m) = matches.next() {
        all.push(m);
    }
    all
}

#[test]
fn test_find_negative_charsets() {
    let re = Regex::new(r"\W").unwrap();
    assert_eq!(
        find_all(&re, "!a@12 bc_"),
        vec![new_match(0, 1, "!"), new_match(2, 3, "@"), new_match(5, 6, " ")]
    );
    let re = Regex::new(r"\d").unwrap();
    assert_eq!(
        find_all(&re, "1a2b_3de*"),
        vec![new_match(0, 1, "1"), new_match(2, 3, "2"), new_match(5, 6, "3")]
    );
    let re = Regex::new(r"\S").unwrap();
    assert_eq!(
        find_all(&re, "a\t1\r\n*   "),
        vec![new_match(0, 1, "a"), new_match(2, 3, "1"), new_match(5, 6, "*")]
    );
    let re = Regex::new("[^abc]").unwrap();
    assert_eq!(
        find_all(&re, "xa1bb*ccc"),
        vec![new_match(0, 1, "x"), new_match(2, 3, "1"), new_match(5, 6, "*")]
    );
    let re = Regex::new("[a-f0-9]").unwrap();
    assert_eq!(
        find_all(&re, "am1npfq*_"),
        vec![new_match(0, 1, "a"), new_match(2, 3, "1"), new_match(5, 6, "f")]
    );
    let re = Regex::new("[^a-f0-9]").unwrap();
    assert_eq!(
        find_all(&re, "man12*def"),
        vec![new_match(0, 1, "m"), new_match(2, 3, "n"), new_match(5, 6, "*")]
    );
    let re = Regex::new(r"[^a-f\d]").unwrap();
    assert_eq!(
        find_all(&re, "man12*def"),
        vec![new_match(0, 1, "m"), new_match(2, 3, "n"), new_match(5, 6, "*")]
    );
    let re = Regex::new("[abcd-f0-89]").unwrap();
    assert_eq!(
        find_all(&re, "am1npfq*_"),
        vec![new_match(0, 1, "a"), new_match(2, 3, "1"), new_match(5, 6, "f")]
    );
    let re = Regex::new("[^文字🍅]").unwrap();
    assert_eq!(
        find_all(&re, "哦字文🍅文噢字🍅文文字字喔"),
        vec![new_match(0, 3, "哦"), new_match(16, 19, "噢"), new_match(38, 41, "喔")]
    );
}

#[test]
fn test_find_group() {
    let re = Regex::new("abc").unwrap();
    assert_eq!(find_all(&re, "ababcbcabc"), vec![new_match(2, 5, "abc"), new_match(7, 10, "abc")]);
    let re = Regex::new(r"%\d").unwrap();
    assert_eq!(find_all(&re, "0123%567%9"), vec![new_match(4, 6, "%5"), new_match(8, 10, "%9")]);
    let re = Regex::new(r"[+-](?:%\d)").unwrap();
    assert_eq!(find_all(&re, "%12+%56-%9"), vec![new_match(3, 6, "+%5"), new_match(7, 10, "-%9")]);
    let re = Regex::new("a(?:bc)?d").unwrap();
    assert_eq!(
        find_all(&re, "abcabdacdabcdabacad"),
        vec![new_match(9, 13, "abcd"), new_match(17, 19, "ad")]
    );
}

#[test]
fn test_find_repetition_specified() {
    let re = Regex::new("a{3}").unwrap();
    assert_eq!(
        find_all(&re, "abaabbaaabbbaaaaa"),
        vec![new_match(6, 9, "aaa"), new_match(12, 15, "aaa")]
    );
    let re = Regex::new(r"\d{3}").unwrap();
    assert_eq!(
        find_all(&re, "a1ab12abc123abcd1234"),
        vec![new_match(9, 12, "123"), new_match(16, 19, "123")]
    );
    let re = Regex::new("(?:ab){3}").unwrap();
    assert_eq!(find_all(&re, "abbaababbaababababab"), vec![new_match(10, 16, "ababab")]);
    let re = Regex::new(r"a{2}\d").unwrap();
    assert_eq!(
        find_all(&re, "abaabbaa1bb1aa123bb123a11b11"),
        vec![new_match(6, 9, "aa1"), new_match(12, 15, "aa1")]
    );
}

#[test]
fn test_find_repetition_range() {
    let re = Regex::new("a{1,3}").unwrap();
    assert_eq!(
        find_all(&re, "abaabbaaabbbaaaabbbb"),
        vec![
            new_match(0, 1, "a"),
            new_match(2, 4, "aa"),
            new_match(6, 9, "aaa"),
            new_match(12, 15, "aaa"),
            new_match(15, 16, "a"),
        ]
    );
    let re = Regex::new("a{1,3}?").unwrap();
    let all = find_all(&re, "abaabbaaabbbaaaabbbb");
    assert_eq!(
        all[0..5].to_vec(),
        vec![
            new_match(0, 1, "a"),
            new_match(2, 3, "a"),
            new_match(3, 4, "a"),
            new_match(6, 7, "a"),
            new_match(7, 8, "a"),
        ]
    );
    let re = Regex::new("a{2,}").unwrap();
    assert_eq!(
        find_all(&re, "abaabbaaabbbaaaabbbb"),
        vec![new_match(2, 4, "aa"), new_match(6, 9, "aaa"), new_match(12, 16, "aaaa")]
    );
    let re = Regex::new("a{2,}?").unwrap();
    assert_eq!(
        find_all(&re, "abaabbaaabbbaaaabbbb"),
        vec![
            new_match(2, 4, "aa"),
            new_match(6, 8, "aa"),
            new_match(12, 14, "aa"),
            new_match(14, 16, "aa"),
        ]
    );
}

#[test]
fn test_find_optional_and_repetition_range() {
    let text = "acaabcaabbcaabbbcaabbbbc";
    let re = Regex::new("ab{0,3}c").unwrap();
    assert_eq!(
        find_all(&re, text),
        vec![
            new_match(0, 2, "ac"),
            new_match(3, 6, "abc"),
            new_match(7, 11, "abbc"),
            new_match(12, 17, "abbbc"),
        ]
    );
    let re = Regex::new("a(?:b{2,3})?c").unwrap();
    assert_eq!(
        find_all(&re, text),
        vec![new_match(0, 2, "ac"), new_match(7, 11, "abbc"), new_match(12, 17, "abbbc")]
    );
    let re = Regex::new("a(?:b{2})?c").unwrap();
    assert_eq!(find_all(&re, text), vec![new_match(0, 2, "ac"), new_match(7, 11, "abbc")]);
}

#[test]
fn test_find_repetition_any_char() {
    let re = Regex::new(".{3}").unwrap();
    assert_eq!(find_all(&re, "abcdefgh"), vec![new_match(0, 3, "abc"), new_match(3, 6, "def")]);
    let re = Regex::new(".+").unwrap();
    assert_eq!(find_all(&re, "abcdefg"), vec![new_match(0, 7, "abcdefg")]);
}

#[test]
fn test_find_repetition_backtracking() {
    let re = Regex::new("^a.+c").unwrap();
    assert_eq!(re.find("abbcmn"), Some(new_match(0, 4, "abbc")));
    assert_eq!(re.find("acmn"), None);
    let re = Regex::new("^a.{3,}c").unwrap();
    assert_eq!(re.find("abbcmn"), None);
    let re = Regex::new("a.+?c").unwrap();
    assert_eq!(re.find("abbcmn"), Some(new_match(0, 4, "abbc")));
    let re = Regex::new("^a.{2,}c.{2,}e").unwrap();
    assert_eq!(find_all(&re, "a88c88ewwefg"), vec![new_match(0, 10, "a88c88ewwe")]);
}

#[test]
fn test_captures_groups() {
    let text = "abc0x23def0o456xyz";

    let re = Regex::new(r"(0x|0o|0b)(\d+)").unwrap();
    let mut matches = re.captures_iter(text);
    assert_eq!(
        matches.next(),
        Some(new_captures(&[(3, 7, None, "0x23"), (3, 5, None, "0x"), (5, 7, None, "23")]))
    );
    assert_eq!(
        matches.next(),
        Some(new_captures(&[(10, 15, None, "0o456"), (10, 12, None, "0o"), (12, 15, None, "456")]))
    );

    let re = Regex::new(r"(?<prefix>0x|0o|0b)(?<number>\d+)").unwrap();
    let mut matches = re.captures_iter(text);
    assert_eq!(
        matches.next(),
        Some(new_captures(&[
            (3, 7, None, "0x23"),
            (3, 5, Some("prefix"), "0x"),
            (5, 7, Some("number"), "23")
        ]))
    );
    assert_eq!(
        matches.next(),
        Some(new_captures(&[
            (10, 15, None, "0o456"),
            (10, 12, Some("prefix"), "0o"),
            (12, 15, Some("number"), "456")
        ]))
    );

    let mut matches = re.captures_iter(text);
    let one = matches.next().unwrap();
    assert_eq!(one.len(), 3);
    assert_eq!(one.get(0).unwrap().as_str(), "0x23");
    assert_eq!(one.get(1).unwrap().as_str(), "0x");
    assert_eq!(one.get(2).unwrap().as_str(), "23");
    assert_eq!(one.name("prefix").unwrap().as_str(), "0x");
    assert_eq!(one.name("number").unwrap().as_str(), "23");
    assert_eq!(("0x23", vec!["0x", "23"]), one.extract(2));

    let mut matches = re.find_iter(text);
    let one = matches.next().unwrap();
    let two = matches.next().unwrap();
    assert_eq!(one.as_str(), "0x23");
    assert_eq!(one.range(), 3..7);
    assert_eq!(two.as_str(), "0o456");
    assert_eq!(two.range(), 10..15);
}
