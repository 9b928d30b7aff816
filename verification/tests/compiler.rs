use regex_anre::compiler::compile_from_regex;
use regex_anre::object_file::MAIN_ROUTE_INDEX;

#[test]
fn test_compile_char() {
    {
        let route = compile_from_regex(r#"a"#).unwrap();
            let s = route.get_debug_text();

            assert_eq!(
                s,
                "\
- 0
  -> 1, Char 'a'
- 1
  -> 3, Capture end {0}
> 2
  -> 0, Capture start {0}
< 3
# {0}"
            );
        }

}

#[test]
fn test_compile_logic_or() {
    {
        let route = compile_from_regex(r#"a|b"#).unwrap();
            let s = route.get_debug_text();

            assert_eq!(
                s,
                "\
- 0
  -> 1, Char 'a'
- 1
  -> 5, Jump
- 2
  -> 3, Char 'b'
- 3
  -> 5, Jump
- 4
  -> 0, Jump
  -> 2, Jump
- 5
  -> 7, Capture end {0}
> 6
  -> 4, Capture start {0}
< 7
# {0}"
            );
        }

    {
        let route = compile_from_regex(r#"a|b|c"#).unwrap();
            let s = route.get_debug_text();

            assert_eq!(
                s,
                "\
- 0
  -> 1, Char 'a'
- 1
  -> 9, Jump
- 2
  -> 3, Char 'b'
- 3
  -> 7, Jump
- 4
  -> 5, Char 'c'
- 5
  -> 7, Jump
- 6
  -> 2, Jump
  -> 4, Jump
- 7
  -> 9, Jump
- 8
  -> 0, Jump
  -> 6, Jump
- 9
  -> 11, Capture end {0}
> 10
  -> 8, Capture start {0}
< 11
# {0}"
            );
        }

    {
        let route = compile_from_regex(r#"(?:a|b)|c"#).unwrap();
            let s = route.get_debug_text();

            assert_eq!(
                s,
                "\
- 0
  -> 1, Char 'a'
- 1
  -> 5, Jump
- 2
  -> 3, Char 'b'
- 3
  -> 5, Jump
- 4
  -> 0, Jump
  -> 2, Jump
- 5
  -> 9, Jump
- 6
  -> 7, Char 'c'
- 7
  -> 9, Jump
- 8
  -> 4, Jump
  -> 6, Jump
- 9
  -> 11, Capture end {0}
> 10
  -> 8, Capture start {0}
< 11
# {0}"
            );
        }

    {
        let route = compile_from_regex(r#"a(?:b|c)d"#).unwrap();
            let s = route.get_debug_text();

            assert_eq!(
                s,
                "\
- 0
  -> 1, Char 'a'
- 1
  -> 6, Jump
- 2
  -> 3, Char 'b'
- 3
  -> 7, Jump
- 4
  -> 5, Char 'c'
- 5
  -> 7, Jump
- 6
  -> 2, Jump
  -> 4, Jump
- 7
  -> 8, Jump
- 8
  -> 9, Char 'd'
- 9
  -> 11, Capture end {0}
> 10
  -> 0, Capture start {0}
< 11
# {0}"
            );
        }

}

#[test]
fn test_compile_special_char() {
    {
        let route = compile_from_regex(r#"a."#).unwrap();
            let s = route.get_debug_text();

            assert_eq!(
                s,
                "\
- 0
  -> 1, Char 'a'
- 1
  -> 2, Jump
- 2
  -> 3, Any char
- 3
  -> 5, Capture end {0}
> 4
  -> 0, Capture start {0}
< 5
# {0}"
            );
        }
}

#[test]
fn test_compile_preset_charset() {
    {
        let route = compile_from_regex(r#"a\w\s\d"#).unwrap();
            let s = route.get_debug_text();

            assert_eq!(
                s,
                r#"- 0
  -> 1, Char 'a'
- 1
  -> 2, Jump
- 2
  -> 3, Charset ['A'..'Z', 'a'..'z', '0'..'9', '_']
- 3
  -> 4, Jump
- 4
  -> 5, Charset [' ', '\t', '\r', '\n']
- 5
  -> 6, Jump
- 6
  -> 7, Charset ['0'..'9']
- 7
  -> 9, Capture end {0}
> 8
  -> 0, Capture start {0}
< 9
# {0}"#
            );
        }

    {
        let route = compile_from_regex(r#"a\W\S\D"#).unwrap();
            let s = route.get_debug_text();

            assert_eq!(
                s,
                r#"- 0
  -> 1, Char 'a'
- 1
  -> 2, Jump
- 2
  -> 3, Charset !['A'..'Z', 'a'..'z', '0'..'9', '_']
- 3
  -> 4, Jump
- 4
  -> 5, Charset ![' ', '\t', '\r', '\n']
- 5
  -> 6, Jump
- 6
  -> 7, Charset !['0'..'9']
- 7
  -> 9, Capture end {0}
> 8
  -> 0, Capture start {0}
< 9
# {0}"#
            );
        }
}

#[test]
fn test_compile_charset() {
    {
        let route = compile_from_regex(r#"[a0-7]"#).unwrap();
            let s = route.get_debug_text();

            assert_eq!(
                s,
                "\
- 0
  -> 1, Charset ['a', '0'..'7']
- 1
  -> 3, Capture end {0}
> 2
  -> 0, Capture start {0}
< 3
# {0}"
            );
        }

    {
        let route = compile_from_regex(r#"[^a0-7]"#).unwrap();
            let s = route.get_debug_text();

            assert_eq!(
                s,
                "\
- 0
  -> 1, Charset !['a', '0'..'7']
- 1
  -> 3, Capture end {0}
> 2
  -> 0, Capture start {0}
< 3
# {0}"
            );
        }

    {
        let route = compile_from_regex(r#"[\w\s]"#).unwrap();
            let s = route.get_debug_text();

            assert_eq!(
                s,
                r#"- 0
  -> 1, Charset ['A'..'Z', 'a'..'z', '0'..'9', '_', ' ', '\t', '\r', '\n']
- 1
  -> 3, Capture end {0}
> 2
  -> 0, Capture start {0}
< 3
# {0}"#
            );
        }

}

#[test]
fn test_compile_assertion() {
    {
        let route = compile_from_regex(r#"^\ba"#).unwrap();
            let s = route.get_debug_text();

            assert_eq!(
                s,
                "\
- 0
  -> 1, Anchor assertion \"start\"
- 1
  -> 2, Jump
- 2
  -> 3, Boundary assertion \"is_bound\"
- 3
  -> 4, Jump
- 4
  -> 5, Char 'a'
- 5
  -> 7, Capture end {0}
> 6
  -> 0, Capture start {0}
< 7
# {0}"
            );

            // check the 'fixed_start_position' property
            assert!(route.routes[MAIN_ROUTE_INDEX].is_fixed_start_position);
        }

    {
        let route = compile_from_regex(r#"\Ba$"#).unwrap();
            let s = route.get_debug_text();

            assert_eq!(
                s,
                "\
- 0
  -> 1, Boundary assertion \"is_not_bound\"
- 1
  -> 2, Jump
- 2
  -> 3, Char 'a'
- 3
  -> 4, Jump
- 4
  -> 5, Anchor assertion \"end\"
- 5
  -> 7, Capture end {0}
> 6
  -> 0, Capture start {0}
< 7
# {0}"
            );

            // check the 'fixed_start_position' property
            assert!(!route.routes[MAIN_ROUTE_INDEX].is_fixed_start_position);
        }

}

#[test]
fn test_compile_capture_group_by_name() {
    {
        let route = compile_from_regex(r#"(?<foo>a)(?<bar>b)"#).unwrap();
            let s = route.get_debug_text();

            assert_eq!(
                s,
                "\
- 0
  -> 1, Char 'a'
- 1
  -> 3, Capture end {1}
- 2
  -> 0, Capture start {1}
- 3
  -> 6, Jump
- 4
  -> 5, Char 'b'
- 5
  -> 7, Capture end {2}
- 6
  -> 4, Capture start {2}
- 7
  -> 9, Capture end {0}
> 8
  -> 2, Capture start {0}
< 9
# {0}
# {1}, foo
# {2}, bar"
            );
        }

    {
        let route = compile_from_regex(r#"(?<foo>a\d)(?<bar>(?:x|y))"#).unwrap();
            let s = route.get_debug_text();

            assert_eq!(
                s,
                "\
- 0
  -> 1, Char 'a'
- 1
  -> 2, Jump
- 2
  -> 3, Charset ['0'..'9']
- 3
  -> 5, Capture end {1}
- 4
  -> 0, Capture start {1}
- 5
  -> 12, Jump
- 6
  -> 7, Char 'x'
- 7
  -> 11, Jump
- 8
  -> 9, Char 'y'
- 9
  -> 11, Jump
- 10
  -> 6, Jump
  -> 8, Jump
- 11
  -> 13, Capture end {2}
- 12
  -> 10, Capture start {2}
- 13
  -> 15, Capture end {0}
> 14
  -> 4, Capture start {0}
< 15
# {0}
# {1}, foo
# {2}, bar"
            );
        }

}

#[test]
fn test_compile_capture_group_by_index() {
    {
        let route = compile_from_regex(r#"(a)(b)"#).unwrap();
            let s = route.get_debug_text();

            assert_eq!(
                s,
                "\
- 0
  -> 1, Char 'a'
- 1
  -> 3, Capture end {1}
- 2
  -> 0, Capture start {1}
- 3
  -> 6, Jump
- 4
  -> 5, Char 'b'
- 5
  -> 7, Capture end {2}
- 6
  -> 4, Capture start {2}
- 7
  -> 9, Capture end {0}
> 8
  -> 2, Capture start {0}
< 9
# {0}
# {1}
# {2}"
            );
        }
}

#[test]
fn test_compile_backreference() {
    {
        let route = compile_from_regex(r#"(?<foo>a)b\k<foo>"#).unwrap();
            let s = route.get_debug_text();

            assert_eq!(
                s,
                "\
- 0
  -> 1, Char 'a'
- 1
  -> 3, Capture end {1}
- 2
  -> 0, Capture start {1}
- 3
  -> 4, Jump
- 4
  -> 5, Char 'b'
- 5
  -> 6, Jump
- 6
  -> 7, Back reference {1}
- 7
  -> 9, Capture end {0}
> 8
  -> 2, Capture start {0}
< 9
# {0}
# {1}, foo"
            );
        }
}

#[test]
fn test_compile_optional() {
    {
        let route = compile_from_regex(r#"a?"#).unwrap();
            let s = route.get_debug_text();
            // println!("{}", s);

            assert_eq!(
                s,
                "\
- 0
  -> 1, Char 'a'
- 1
  -> 3, Jump
- 2
  -> 0, Jump
  -> 3, Jump
- 3
  -> 5, Capture end {0}
> 4
  -> 2, Capture start {0}
< 5
# {0}"
            );
        }

    {
        let route = compile_from_regex(r#"a??"#).unwrap();
            let s = route.get_debug_text();

            assert_eq!(
                s,
                "\
- 0
  -> 1, Char 'a'
- 1
  -> 3, Jump
- 2
  -> 3, Jump
  -> 0, Jump
- 3
  -> 5, Capture end {0}
> 4
  -> 2, Capture start {0}
< 5
# {0}"
            );
        }
}

#[test]
fn test_compile_repatition_specified() {
    {
        let route = compile_from_regex(r#"a{2}"#).unwrap();
            let s = route.get_debug_text();

            assert_eq!(
                s,
                "\
- 0
  -> 1, Char 'a'
- 1
  -> 4, Counter inc
- 2
  -> 3, Counter reset
- 3
  -> 0, Counter save
- 4
  -> 5, Counter check times 2
  -> 3, Repetition times 2
- 5
  -> 7, Capture end {0}
> 6
  -> 2, Capture start {0}
< 7
# {0}"
            );
        }

    {
        let route = compile_from_regex(r#"a{1}"#).unwrap();
            let s = route.get_debug_text();

            assert_eq!(
                s,
                "\
- 0
  -> 1, Char 'a'
- 1
  -> 3, Capture end {0}
> 2
  -> 0, Capture start {0}
< 3
# {0}"
            );
        }

    {
        let route = compile_from_regex(r#"a{0}"#).unwrap();
            let s = route.get_debug_text();

            assert_eq!(
                s,
                "\
- 0
  -> 1, Jump
- 1
  -> 3, Capture end {0}
> 2
  -> 0, Capture start {0}
< 3
# {0}"
            );
        }
}

#[test]
fn test_compile_repatition_range() {
    {
        let route = compile_from_regex(r#"a{3,5}"#).unwrap();
            let s = route.get_debug_text();

            assert_eq!(
                s,
                "\
- 0
  -> 1, Char 'a'
- 1
  -> 4, Counter inc
- 2
  -> 3, Counter reset
- 3
  -> 0, Counter save
- 4
  -> 3, Repetition from 3 to 5
  -> 5, Counter check from 3 to 5
- 5
  -> 7, Capture end {0}
> 6
  -> 2, Capture start {0}
< 7
# {0}"
            );
        }

    {
        let route = compile_from_regex(r#"a{3,5}?"#).unwrap();
            let s = route.get_debug_text();

            assert_eq!(
                s,
                "\
- 0
  -> 1, Char 'a'
- 1
  -> 4, Counter inc
- 2
  -> 3, Counter reset
- 3
  -> 0, Counter save
- 4
  -> 5, Counter check from 3 to 5
  -> 3, Repetition from 3 to 5
- 5
  -> 7, Capture end {0}
> 6
  -> 2, Capture start {0}
< 7
# {0}"
            );
        }

    {
        let route = compile_from_regex(r#"a{0,5}"#).unwrap();
            let s = route.get_debug_text();

            assert_eq!(
                s,
                "\
- 0
  -> 1, Char 'a'
- 1
  -> 4, Counter inc
- 2
  -> 3, Counter reset
- 3
  -> 0, Counter save
- 4
  -> 3, Repetition from 1 to 5
  -> 5, Counter check from 1 to 5
- 5
  -> 7, Jump
- 6
  -> 2, Jump
  -> 7, Jump
- 7
  -> 9, Capture end {0}
> 8
  -> 6, Capture start {0}
< 9
# {0}"
            );
        }

    {
        let route = compile_from_regex(r#"a{0,5}?"#).unwrap();
            let s = route.get_debug_text();

            assert_eq!(
                s,
                "\
- 0
  -> 1, Char 'a'
- 1
  -> 4, Counter inc
- 2
  -> 3, Counter reset
- 3
  -> 0, Counter save
- 4
  -> 5, Counter check from 1 to 5
  -> 3, Repetition from 1 to 5
- 5
  -> 7, Jump
- 6
  -> 7, Jump
  -> 2, Jump
- 7
  -> 9, Capture end {0}
> 8
  -> 6, Capture start {0}
< 9
# {0}"
            );
        }

}

#[test]
fn test_compile_repatition_at_least() {
    {
        let route = compile_from_regex(r#"a{3,}"#).unwrap();
            let s = route.get_debug_text();

            assert_eq!(
                s,
                "\
- 0
  -> 1, Char 'a'
- 1
  -> 4, Counter inc
- 2
  -> 3, Counter reset
- 3
  -> 0, Counter save
- 4
  -> 3, Repetition from 3 to MAX
  -> 5, Counter check from 3 to MAX
- 5
  -> 7, Capture end {0}
> 6
  -> 2, Capture start {0}
< 7
# {0}"
            );
        }

    {
        let route = compile_from_regex(r#"a{3,}?"#).unwrap();
            let s = route.get_debug_text();

            assert_eq!(
                s,
                "\
- 0
  -> 1, Char 'a'
- 1
  -> 4, Counter inc
- 2
  -> 3, Counter reset
- 3
  -> 0, Counter save
- 4
  -> 5, Counter check from 3 to MAX
  -> 3, Repetition from 3 to MAX
- 5
  -> 7, Capture end {0}
> 6
  -> 2, Capture start {0}
< 7
# {0}"
            );
        }

}

#[test]
fn test_compile_notation_optional() {
    {
        let route = compile_from_regex(r#"a?"#).unwrap();
            let s = route.get_debug_text();

            assert_eq!(
                s,
                "\
- 0
  -> 1, Char 'a'
- 1
  -> 3, Jump
- 2
  -> 0, Jump
  -> 3, Jump
- 3
  -> 5, Capture end {0}
> 4
  -> 2, Capture start {0}
< 5
# {0}"
            );
        }

    {
        let route = compile_from_regex(r#"a??"#).unwrap();
            let s = route.get_debug_text();

            assert_eq!(
                s,
                "\
- 0
  -> 1, Char 'a'
- 1
  -> 3, Jump
- 2
  -> 3, Jump
  -> 0, Jump
- 3
  -> 5, Capture end {0}
> 4
  -> 2, Capture start {0}
< 5
# {0}"
            );
        }
}

#[test]
fn test_compile_natation_repetition() {
    {
        let route = compile_from_regex(r#"a+"#).unwrap();
            let s = route.get_debug_text();

            assert_eq!(
                s,
                "\
- 0
  -> 1, Char 'a'
- 1
  -> 4, Counter inc
- 2
  -> 3, Counter reset
- 3
  -> 0, Counter save
- 4
  -> 3, Repetition from 1 to MAX
  -> 5, Counter check from 1 to MAX
- 5
  -> 7, Capture end {0}
> 6
  -> 2, Capture start {0}
< 7
# {0}"
            );
        }

    {
        let route = compile_from_regex(r#"a+?"#).unwrap();
            let s = route.get_debug_text();

            assert_eq!(
                s,
                "\
- 0
  -> 1, Char 'a'
- 1
  -> 4, Counter inc
- 2
  -> 3, Counter reset
- 3
  -> 0, Counter save
- 4
  -> 5, Counter check from 1 to MAX
  -> 3, Repetition from 1 to MAX
- 5
  -> 7, Capture end {0}
> 6
  -> 2, Capture start {0}
< 7
# {0}"
            );
        }

    {
        let route = compile_from_regex(r#"a*"#).unwrap();
            let s = route.get_debug_text();

            assert_eq!(
                s,
                "\
- 0
  -> 1, Char 'a'
- 1
  -> 4, Counter inc
- 2
  -> 3, Counter reset
- 3
  -> 0, Counter save
- 4
  -> 3, Repetition from 1 to MAX
  -> 5, Counter check from 1 to MAX
- 5
  -> 7, Jump
- 6
  -> 2, Jump
  -> 7, Jump
- 7
  -> 9, Capture end {0}
> 8
  -> 6, Capture start {0}
< 9
# {0}"
            );
        }

    {
        let route = compile_from_regex(r#"a*?"#).unwrap();
            let s = route.get_debug_text();

            assert_eq!(
                s,
                "\
- 0
  -> 1, Char 'a'
- 1
  -> 4, Counter inc
- 2
  -> 3, Counter reset
- 3
  -> 0, Counter save
- 4
  -> 5, Counter check from 1 to MAX
  -> 3, Repetition from 1 to MAX
- 5
  -> 7, Jump
- 6
  -> 7, Jump
  -> 2, Jump
- 7
  -> 9, Capture end {0}
> 8
  -> 6, Capture start {0}
< 9
# {0}"
            );
        }
}

#[test]
fn test_compile_is_before() {
    {
        let route = compile_from_regex(r#"a(?=xyz)"#).unwrap();
            let s = route.get_debug_text();

            assert_eq!(
                s,
                "\
= $0
- 0
  -> 1, Char 'a'
- 1
  -> 3, Look ahead $1
- 2
  -> 0, Jump
- 3
  -> 5, Capture end {0}
> 4
  -> 2, Capture start {0}
< 5
= $1
> 0
  -> 1, String \"xyz\"
< 1
# {0}"
            );
        }

    {
        let route = compile_from_regex(r#"a(?!xyz)"#).unwrap();
            let s = route.get_debug_text();

            assert_eq!(
                s,
                "\
= $0
- 0
  -> 1, Char 'a'
- 1
  -> 3, Look ahead negative $1
- 2
  -> 0, Jump
- 3
  -> 5, Capture end {0}
> 4
  -> 2, Capture start {0}
< 5
= $1
> 0
  -> 1, String \"xyz\"
< 1
# {0}"
            );
        }

}

#[test]
fn test_compile_is_after() {
    {
        let route = compile_from_regex(r#"(?<=xyz)a"#).unwrap();
            let s = route.get_debug_text();

            assert_eq!(
                s,
                "\
= $0
- 0
  -> 1, Char 'a'
- 1
  -> 3, Jump
- 2
  -> 0, Look behind $1, match length 3
- 3
  -> 5, Capture end {0}
> 4
  -> 2, Capture start {0}
< 5
= $1
> 0
  -> 1, String \"xyz\"
< 1
# {0}"
            );
        }

    {
        let route = compile_from_regex(r#"(?<!xyz)a"#).unwrap();
            let s = route.get_debug_text();

            assert_eq!(
                s,
                "\
= $0
- 0
  -> 1, Char 'a'
- 1
  -> 3, Jump
- 2
  -> 0, Look behind negative $1, match length 3
- 3
  -> 5, Capture end {0}
> 4
  -> 2, Capture start {0}
< 5
= $1
> 0
  -> 1, String \"xyz\"
< 1
# {0}"
            );
        }

}

