use regex_anre::ast::{Expression, FunctionCall, FunctionName, Literal};
use regex_anre::rulechecker::{get_match_length, try_get_match_length, MatchLength};
use regex_anre::traditional::parser::parse_from_str;

fn single_expression(pattern: &str) -> Expression {
    let mut program = parse_from_str(pattern).unwrap();
    assert_eq!(program.expressions.len(), 1);
    program.expressions.pop().unwrap()
}

#[test]
fn match_length_operations() {
    assert_eq!(MatchLength::Fixed(2).add(MatchLength::Fixed(3)), MatchLength::Fixed(5));
    assert_eq!(MatchLength::Fixed(2).add(MatchLength::Variable), MatchLength::Variable);
    assert_eq!(MatchLength::Variable.add(MatchLength::Fixed(3)), MatchLength::Variable);
    assert_eq!(MatchLength::Fixed(4).mul(3), MatchLength::Fixed(12));
    assert_eq!(MatchLength::Variable.mul(3), MatchLength::Variable);
    assert_eq!(MatchLength::Fixed(2).bitor(MatchLength::Fixed(2)), MatchLength::Fixed(2));
    assert_eq!(MatchLength::Fixed(2).bitor(MatchLength::Fixed(3)), MatchLength::Variable);
    assert_eq!(MatchLength::Variable.bitor(MatchLength::Fixed(3)), MatchLength::Variable);
    // commutative, as the laws say
    assert_eq!(
        MatchLength::Fixed(7).add(MatchLength::Fixed(1)),
        MatchLength::Fixed(1).add(MatchLength::Fixed(7))
    );
}

#[test]
fn match_length_of_patterns() {
    assert_eq!(get_match_length(&single_expression("abc")), MatchLength::Fixed(3));
    assert_eq!(get_match_length(&single_expression("文字")), MatchLength::Fixed(2));
    assert_eq!(get_match_length(&single_expression(r"\d")), MatchLength::Fixed(1));
    assert_eq!(get_match_length(&single_expression("[a-z]")), MatchLength::Fixed(1));
    assert_eq!(get_match_length(&single_expression("a+")), MatchLength::Variable);
    assert_eq!(get_match_length(&single_expression("a{2}")), MatchLength::Fixed(2));
    assert_eq!(get_match_length(&single_expression("ab|cd")), MatchLength::Fixed(2));
    assert_eq!(get_match_length(&single_expression("a|bc")), MatchLength::Variable);
    assert_eq!(get_match_length(&single_expression("(?<n>ab)")), MatchLength::Fixed(2));
    assert_eq!(get_match_length(&single_expression("$")), MatchLength::Fixed(0));

    let group = Expression::Group(vec![
        Expression::Literal(Literal::Char('a')),
        Expression::Literal(Literal::String("bc".to_owned())),
    ]);
    assert_eq!(get_match_length(&group), MatchLength::Fixed(3));
}

fn assertion(name: FunctionName) -> Expression {
    Expression::FunctionCall(Box::new(FunctionCall {
        name,
        args: vec![
            Expression::Literal(Literal::Char('a')),
            Expression::Literal(Literal::String("xyz".to_owned())),
        ],
    }))
}

#[test]
fn look_around_assertions_add_no_length() {
    // only the base expression consumes characters
    assert_eq!(get_match_length(&assertion(FunctionName::IsAfter)), MatchLength::Fixed(1));
    assert_eq!(get_match_length(&assertion(FunctionName::IsNotAfter)), MatchLength::Fixed(1));
    assert_eq!(get_match_length(&assertion(FunctionName::IsBefore)), MatchLength::Fixed(1));
    assert_eq!(get_match_length(&assertion(FunctionName::IsNotBefore)), MatchLength::Fixed(1));
}

#[test]
fn try_match_length_refuses_what_cannot_be_measured() {
    assert_eq!(try_get_match_length(&Expression::Group(vec![])), None);
    assert_eq!(try_get_match_length(&Expression::Literal(Literal::Number(3))), None);
    assert_eq!(
        try_get_match_length(&single_expression("a{3}")),
        Some(MatchLength::Fixed(3))
    );
}
