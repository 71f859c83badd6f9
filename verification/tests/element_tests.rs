use xmlparse::combinators::{
    left, match_literal, one_or_more, pred, right, zero_or_more, Parser,
};
use xmlparse::element::{
    attributes, close_element, element, element_start, parse_identifier, quoted_string,
    single_element, whitespace_char, whitespace_wrap, AnyCharP, CharEq, Element, IdentifierP,
};

#[test]
fn element_identifier_parser() {
    assert_eq!(
        Ok(("", "i-am-an-identifier".to_string())),
        parse_identifier("i-am-an-identifier")
    );
    assert_eq!(
        Ok((" entirely an identifier", "not".to_string())),
        parse_identifier("not entirely an identifier")
    );
    assert_eq!(
        Err("!not at all an identifier"),
        parse_identifier("!not at all an identifier")
    );
}

#[test]
fn right_combinator() {
    let tag_opener = right(match_literal("<"), IdentifierP);
    assert_eq!(
        Ok(("/>", "my-first-element".to_string())),
        tag_opener.parse("<my-first-element/>")
    );
    assert_eq!(Err("oops"), tag_opener.parse("oops"));
    assert_eq!(Err("!oops"), tag_opener.parse("<!oops"));
}

#[test]
fn element_one_or_more_combinator() {
    let parser = one_or_more(match_literal("ha"));
    assert_eq!(Ok(("", vec![(), (), ()])), parser.parse("hahaha"));
    assert_eq!(Err("ahah"), parser.parse("ahah"));
    assert_eq!(Err(""), parser.parse(""));
}

#[test]
fn element_zero_or_more_combinator() {
    let parser = zero_or_more(match_literal("ha"));
    assert_eq!(Ok(("", vec![(), (), ()])), parser.parse("hahaha"));
    assert_eq!(Ok(("ahah", vec![])), parser.parse("ahah"));
    assert_eq!(Ok(("", vec![])), parser.parse(""));
}

#[test]
fn predicate_combinator() {
    let parser = pred(AnyCharP, CharEq { expected: 'o' });
    assert_eq!(Ok(("mg", 'o')), parser.parse("omg"));
    assert_eq!(Err("lol"), parser.parse("lol"));
}

#[test]
fn quoted_string_parser() {
    let parser = quoted_string();
    assert_eq!(
        Ok(("", "Hello world".to_string())),
        parser.parse("\"Hello world\"")
    );
    assert_eq!(Ok(("", "".to_string())), parser.parse("\"\""));
}

#[test]
fn attributes_parser() {
    let parser = attributes();
    assert_eq!(
        Ok((
            "",
            vec![
                ("foo".to_string(), "FOO".to_string()),
                ("bar".to_string(), "BAR".to_string())
            ]
        )),
        parser.parse(r#" foo="FOO" bar="BAR""#)
    )
}

#[test]
fn single_element_parser() {
    let parser = single_element();
    assert_eq!(
        (
            "",
            Element {
                name: "div".to_string(),
                attributes: vec![("class".to_string(), "float".to_string())],
                children: vec![]
            },
        ),
        parser.parse(r#"<div class="float"/>"#).unwrap()
    )
}

#[test]
fn self_closing_element_with_space() {
    let parser = element();
    assert_eq!(
        Ok((
            "",
            Element {
                name: String::from("crunchy-element"),
                attributes: vec![],
                children: vec![]
            }
        )),
        parser.parse(r#"<crunchy-element />"#)
    )
}

#[test]
fn xml_parser() {
    let doc = r#"
        <top label="Top">
            <semi-bottom label="Bottom"/>
            <middle>
                <bottom label="Another bottom"/>
            </middle>
        </top>
    "#;

    let parsed_doc = Element {
        name: "top".to_string(),
        attributes: vec![("label".to_string(), "Top".to_string())],
        children: vec![
            Element {
                name: "semi-bottom".to_string(),
                attributes: vec![("label".to_string(), "Bottom".to_string())],
                children: vec![],
            },
            Element {
                name: "middle".to_string(),
                attributes: vec![],
                children: vec![Element {
                    name: "bottom".to_string(),
                    attributes: vec![("label".to_string(), "Another bottom".to_string())],
                    children: vec![],
                }],
            },
        ],
    };

    assert_eq!(Ok(("", parsed_doc)), element().parse(doc))
}

#[test]
fn mismatched_closing_tag() {
    let doc = r#"
        <top>
            <bottom/>
        </middle>"#;
    assert_eq!(Err("middle>"), element().parse(doc));
}

#[test]
fn left_combinator() {
    let parser = left(IdentifierP, match_literal("/>"));
    assert_eq!(Ok(("rest", "tag".to_string())), parser.parse("tag/>rest"));
    assert_eq!(Err(""), parser.parse("tag"));
}

#[test]
fn whitespace_char_parser() {
    let parser = whitespace_char();
    assert_eq!(Ok(("x", ' ')), parser.parse(" x"));
    assert_eq!(Ok(("", '\n')), parser.parse("\n"));
    assert_eq!(Err("x"), parser.parse("x"));
}

#[test]
fn whitespace_wrap_discards_surrounding_whitespace() {
    let parser = whitespace_wrap(match_literal("hi"));
    assert_eq!(Ok(("", ())), parser.parse("   hi  "));
    assert_eq!(Ok(("", ())), parser.parse("hi"));
}

#[test]
fn element_start_parser() {
    let parser = element_start();
    assert_eq!(
        Ok((
            ">",
            (
                "a".to_string(),
                vec![("b".to_string(), "c".to_string())]
            )
        )),
        parser.parse(r#"<a b="c">"#)
    );
}

#[test]
fn close_element_parser() {
    let parser = close_element("top".to_string());
    assert_eq!(Ok(("", "top".to_string())), parser.parse("</top>"));
    assert_eq!(Err("bottom>"), parser.parse("</bottom>"));
}

#[test]
fn nested_parent_elements() {
    let parsed = Element {
        name: "a".to_string(),
        attributes: vec![],
        children: vec![Element {
            name: "b".to_string(),
            attributes: vec![],
            children: vec![],
        }],
    };
    assert_eq!(Ok(("", parsed)), element().parse("<a><b/></a>"));
}

#[test]
fn duplicate_attribute_names_are_kept_in_order() {
    let parsed = Element {
        name: "a".to_string(),
        attributes: vec![
            ("x".to_string(), "1".to_string()),
            ("x".to_string(), "2".to_string()),
        ],
        children: vec![],
    };
    assert_eq!(Ok(("", parsed)), element().parse(r#"<a x="1" x="2"/>"#));
}

#[test]
fn unterminated_quoted_string_fails_at_the_end() {
    let parser = quoted_string();
    assert_eq!(Err(""), parser.parse("\"abc"));
}

#[test]
fn element_fails_on_empty_input() {
    assert_eq!(Err(""), element().parse(""));
}
