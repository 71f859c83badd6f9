use xmlparse::combinators::{
    either, match_literal, one_or_more, zero_or_more, BoxedParser, Parser,
};

#[test]
fn combinators_literal_parser() {
    let parse_joe = match_literal("Hello Joe!");
    assert_eq!(Ok(("", ())), parse_joe.parse("Hello Joe!"));
    assert_eq!(
        Ok((" Hello Robert!", ())),
        parse_joe.parse("Hello Joe! Hello Robert!")
    );
    assert_eq!(Err("Hello Mike!"), parse_joe.parse("Hello Mike!"));
}

#[test]
fn combinators_one_or_more_combinator() {
    let parser = one_or_more(match_literal("ha"));
    assert_eq!(Ok(("", vec![(), (), ()])), parser.parse("hahaha"));
    assert_eq!(Err("ahah"), parser.parse("ahah"));
    assert_eq!(Err(""), parser.parse(""));
}

#[test]
fn combinators_zero_or_more_combinator() {
    let parser = zero_or_more(match_literal("ha"));
    assert_eq!(Ok(("", vec![(), (), ()])), parser.parse("hahaha"));
    assert_eq!(Ok(("ahah", vec![])), parser.parse("ahah"));
    assert_eq!(Ok(("", vec![])), parser.parse(""));
}

#[test]
fn either_prefers_first_and_reports_second_failure() {
    let parser = either(match_literal("a"), match_literal("b"));
    assert_eq!(Ok(("rest", ())), parser.parse("arest"));
    assert_eq!(Ok(("rest", ())), parser.parse("brest"));
    assert_eq!(Err("c"), parser.parse("c"));
}

#[test]
fn boxed_parser_delegates() {
    let parser = BoxedParser::new(match_literal("hi"));
    assert_eq!(Ok((" there", ())), parser.parse("hi there"));
    assert_eq!(Err("ho"), parser.parse("ho"));
}
