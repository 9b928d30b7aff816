use regex_anre::process::{Match, Regex};

fn new_match(start: usize, end: usize, value: &str) -> Match<'static, '_> {
    Match::new(start, end, None, value)
}

#[test]
fn test_find_char() {
    {
        let re = Regex::new("a").unwrap();
        let mut matches = re.find_iter("babbaa");
        assert_eq!(matches.next(), Some(new_match(1, 2, "a")));
        assert_eq!(matches.next(), Some(new_match(4, 5, "a")));
        assert_eq!(matches.next(), Some(new_match(5, 6, "a")));
        assert_eq!(matches.next(), None);
    }
    {
        let re = Regex::new("a").unwrap();
        let mut matches = re.find_iter("abaabb");
        assert_eq!(matches.next(), Some(new_match(0, 1, "a")));
        assert_eq!(matches.next(), Some(new_match(2, 3, "a")));
        assert_eq!(matches.next(), Some(new_match(3, 4, "a")));
        assert_eq!(matches.next(), None);
    }
    {
        let re = Regex::new("a").unwrap();
        let mut matches = re.find_iter("xyz");
        assert_eq!(matches.next(), None);
    }
}

#[test]
fn test_find_char_with_utf8() {
    let re = Regex::new("文").unwrap();
    let mut matches = re.find_iter("abc中文字符文字🌏人文");
    assert_eq!(matches.next(), Some(new_match(6, 9, "文")));
    assert_eq!(matches.next(), Some(new_match(15, 18, "文")));
    assert_eq!(matches.next(), Some(new_match(28, 31, "文")));
    assert_eq!(matches.next(), None);

    let mut matches = re.find_iter("abc正则表达式🌏改");
    assert_eq!(matches.next(), None);
}

#[test]
fn test_find_string() {
    let re = Regex::new("abc").unwrap();
    let mut matches = re.find_iter("ababcbcabc");
    assert_eq!(matches.next(), Some(new_match(2, 5, "abc")));
    assert_eq!(matches.next(), Some(new_match(7, 10, "abc")));
    assert_eq!(matches.next(), None);

    let re = Regex::new("文字").unwrap();
    let mut matches = re.find_iter("abc文字文本象形文字🎁表情文字");
    assert_eq!(matches.next(), Some(new_match(3, 9, "文字")));
    assert_eq!(matches.next(), Some(new_match(21, 27, "文字")));
    assert_eq!(matches.next(), Some(new_match(37, 43, "文字")));
    assert_eq!(matches.next(), None);
}

#[test]
fn test_find_preset_charset() {
    let re = Regex::new(r"\w").unwrap();
    let mut matches = re.find_iter("a*1**_ **");
    assert_eq!(matches.next(), Some(new_match(0, 1, "a")));
    assert_eq!(matches.next(), Some(new_match(2, 3, "1")));
    assert_eq!(matches.next(), Some(new_match(5, 6, "_")));
    assert_eq!(matches.next(), None);

    let re = Regex::new(r"\D").unwrap();
    let mut matches = re.find_iter("a1_23 456");
    assert_eq!(matches.next(), Some(new_match(0, 1, "a")));
    assert_eq!(matches.next(), Some(new_match(2, 3, "_")));
    assert_eq!(matches.next(), Some(new_match(5, 6, " ")));
    assert_eq!(matches.next(), None);

    let re = Regex::new(r"\s").unwrap();
    let mut matches = re.find_iter(" 1\tab\n_*!");
    assert_eq!(matches.next(), Some(new_match(0, 1, " ")));
    assert_eq!(matches.next(), Some(new_match(2, 3, "\t")));
    assert_eq!(matches.next(), Some(new_match(5, 6, "\n")));
    assert_eq!(matches.next(), None);
}

#[test]
fn test_find_charset() {
    let re = Regex::new("[abc]").unwrap();
    let mut matches = re.find_iter("adbefcghi");
    assert_eq!(matches.next(), Some(new_match(0, 1, "a")));
    assert_eq!(matches.next(), Some(new_match(2, 3, "b")));
    assert_eq!(matches.next(), Some(new_match(5, 6, "c")));
    assert_eq!(matches.next(), None);

    let re = Regex::new("[^a-c]").unwrap();
    let mut matches = re.find_iter("xa1bb*ccc");
    assert_eq!(matches.next(), Some(new_match(0, 1, "x")));
    assert_eq!(matches.next(), Some(new_match(2, 3, "1")));
    assert_eq!(matches.next(), Some(new_match(5, 6, "*")));
    assert_eq!(matches.next(), None);

    let re = Regex::new(r"[a-f\d]").unwrap();
    let mut matches = re.find_iter("am1npfq*_");
    assert_eq!(matches.next(), Some(new_match(0, 1, "a")));
    assert_eq!(matches.next(), Some(new_match(2, 3, "1")));
    assert_eq!(matches.next(), Some(new_match(5, 6, "f")));
    assert_eq!(matches.next(), None);

    let re = Regex::new("[文字🍅]").unwrap();
    let mut matches = re.find_iter("abc正文写字🍉宋体字体🍅测试🍋");
    assert_eq!(matches.next(), Some(new_match(6, 9, "文")));
    assert_eq!(matches.next(), Some(new_match(12, 15, "字")));
    assert_eq!(matches.next(), Some(new_match(25, 28, "字")));
    assert_eq!(matches.next(), Some(new_match(31, 35, "🍅")));
    assert_eq!(matches.next(), None);
}

#[test]
fn test_find_any_char() {
    let re = Regex::new(".").unwrap();
    let mut matches = re.find_iter("\na\r\n1 \n");
    assert_eq!(matches.next(), Some(new_match(1, 2, "a")));
    assert_eq!(matches.next(), Some(new_match(4, 5, "1")));
    assert_eq!(matches.next(), Some(new_match(5, 6, " ")));
    assert_eq!(matches.next(), None);
}

#[test]
fn test_find_logic_or() {
    let re = Regex::new("a|b").unwrap();
    let mut matches = re.find_iter("012a45b7a9");
    assert_eq!(matches.next(), Some(new_match(3, 4, "a")));
    assert_eq!(matches.next(), Some(new_match(6, 7, "b")));
    assert_eq!(matches.next(), Some(new_match(8, 9, "a")));
    assert_eq!(matches.next(), None);

    let re = Regex::new("abc|mn|xyz").unwrap();
    let mut matches = re.find_iter("aabcmmnnxyzz");
    assert_eq!(matches.next(), Some(new_match(1, 4, "abc")));
    assert_eq!(matches.next(), Some(new_match(5, 7, "mn")));
    assert_eq!(matches.next(), Some(new_match(8, 11, "xyz")));
    assert_eq!(matches.next(), None);
}

#[test]
fn test_find_anchors() {
    let re = Regex::new("^a").unwrap();
    assert_eq!(re.find("ab"), Some(new_match(0, 1, "a")));
    assert_eq!(re.find("ba"), None);

    let re = Regex::new("a$").unwrap();
    assert_eq!(re.find("ab"), None);
    assert_eq!(re.find("ba"), Some(new_match(1, 2, "a")));

    let re = Regex::new("^a$").unwrap();
    assert_eq!(re.find("a"), Some(new_match(0, 1, "a")));
    assert_eq!(re.find("ab"), None);
    assert_eq!(re.find("ba"), None);
}

#[test]
fn test_find_boundary() {
    let re = Regex::new(r"\ba").unwrap();
    assert_eq!(re.find("ab"), Some(new_match(0, 1, "a")));
    assert_eq!(re.find(" a"), Some(new_match(1, 2, "a")));
    assert_eq!(re.find("ba"), None);

    let re = Regex::new(r"a\b").unwrap();
    assert_eq!(re.find("ba"), Some(new_match(1, 2, "a")));
    assert_eq!(re.find("a "), Some(new_match(0, 1, "a")));
    assert_eq!(re.find("ab"), None);
}

#[test]
fn test_find_optional() {
    let re = Regex::new("ab?c").unwrap();
    let mut matches = re.find_iter("ababccbacabc");
    assert_eq!(matches.next(), Some(new_match(2, 5, "abc")));
    assert_eq!(matches.next(), Some(new_match(7, 9, "ac")));
    assert_eq!(matches.next(), Some(new_match(9, 12, "abc")));
    assert_eq!(matches.next(), None);

    let re = Regex::new("abc?").unwrap();
    let mut matches = re.find_iter("abcabx");
    assert_eq!(matches.next(), Some(new_match(0, 3, "abc")));
    assert_eq!(matches.next(), Some(new_match(3, 5, "ab")));
    assert_eq!(matches.next(), None);

    let re = Regex::new("abc??").unwrap();
    let mut matches = re.find_iter("abcabx");
    assert_eq!(matches.next(), Some(new_match(0, 2, "ab")));
    assert_eq!(matches.next(), Some(new_match(3, 5, "ab")));
    assert_eq!(matches.next(), None);
}

#[test]
fn test_is_match() {
    let re = Regex::new(r"\d+").unwrap();
    assert!(re.is_match("abc123"));
    assert!(!re.is_match("abc"));
}
