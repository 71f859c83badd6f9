use xmlparse::combinators::Parser;
use xmlparse::element::{CollectChars, AnyCharP, IdentifierP};
use xmlparse::{identifier, match_literal, pair};

#[test]
fn lib_literal_parser() {
    let parse_joe = match_literal("Hello Joe!");
    assert_eq!(Ok(("", ())), parse_joe.parse("Hello Joe!"));
    assert_eq!(
        Ok((" Hello Robert!", ())),
        parse_joe.parse("Hello Joe! Hello Robert!")
    );
    assert_eq!(Err("Hello Mike!"), parse_joe.parse("Hello Mike!"));
}

#[test]
fn lib_identifier_parser() {
    assert_eq!(
        Ok(("", "i-am-an-identifier".to_string())),
        identifier("i-am-an-identifier")
    );
    assert_eq!(
        Ok((" entirely an identifier", "not".to_string())),
        identifier("not entirely an identifier")
    );
    assert_eq!(
        Err("!not at all an identifier"),
        identifier("!not at all an identifier")
    );
}

#[test]
fn pair_combinator() {
    let tag_opener = pair(match_literal("<"), IdentifierP);
    assert_eq!(
        Ok(("/>", ((), "my-first-element".to_string()))),
        tag_opener.parse("<my-first-element/>")
    );
    assert_eq!(Err("oops"), tag_opener.parse("oops"));
    assert_eq!(Err("!oops"), tag_opener.parse("<!oops"));
}

#[test]
fn map_collects_all_characters() {
    let parser = xmlparse::map(
        xmlparse::combinators::zero_or_more(AnyCharP),
        CollectChars,
    );
    assert_eq!(Ok(("", "ab cd".to_string())), parser.parse("ab cd"));
    assert_eq!(Ok(("", "".to_string())), parser.parse(""));
}
