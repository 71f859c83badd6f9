//! A verified parser-combinator library together with a grammar, built from
//! those combinators, for a small subset of XML: self-closing tags, nested
//! elements and quoted attribute values, with no text content.

pub mod combinators;
pub mod element;

use vstd::prelude::*;

verus! {

/// A parser that matches exactly the literal `expected`.
pub fn match_literal(expected: &str) -> (p: combinators::LiteralP)
    ensures
        p.expected@ == expected@,
{
    combinators::match_literal(expected)
}

/// Parse an identifier from the head of the input: an alphabetic character
/// followed by alphanumeric characters and hyphens.
pub fn identifier<'a>(input: &'a str) -> (r: combinators::ParseResult<'a, String>)
    ensures
        combinators::parse_view(r) == element::spec_identifier(input@),
{
    element::parse_identifier(input)
}

/// The pair of `parser1` followed by `parser2`.
pub fn pair<P1: combinators::Parser, P2: combinators::Parser>(parser1: P1, parser2: P2) -> (p:
    combinators::PairP<P1, P2>)
    ensures
        p == (combinators::PairP { p1: parser1, p2: parser2 }),
{
    combinators::pair(parser1, parser2)
}

/// The parser that applies `map_fn` to whatever `parser` produces.
pub fn map<F: combinators::MapFn, P: combinators::Parser<Output = F::In>>(parser: P, map_fn: F) -> (p: combinators::MapP<P, F>)
    ensures
        p == (combinators::MapP { parser, map_fn }),
{
    combinators::map(parser, map_fn)
}

} // verus!
