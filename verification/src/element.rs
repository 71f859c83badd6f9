//! The grammar layer: parsers, built by composing the combinator engine's
//! primitives, that together recognize a small subset of XML (self-closing
//! tags, nested elements, quoted attribute values, no text content) and
//! assemble a tree of elements.

use vstd::prelude::*;

use crate::combinators::{
    and_then, left, match_literal, one_or_more, pair, pred, right, zero_or_more, AndThenFn,
    AndThenP, LeftP, LiteralP, MapFn, MapP, OneOrMoreP, PairP, ParseResult, Parser, PredFn, PredP,
    RightP, SpecResult, ZeroOrMoreP, is_suffix_of, lemma_match_literal_suffix,
    lemma_repeat0_rest_len, lemma_repeat0_suffix, lemma_repeat1_suffix, lemma_suffix_refl,
    lemma_suffix_trans, parse_view, spec_match_literal, spec_repeat0, spec_repeat1, spec_rest,
};

verus! {

/// Whether a character counts as whitespace (the Unicode `White_Space`
/// property, as `char::is_whitespace` decides it).
pub uninterp spec fn char_is_whitespace(c: char) -> bool;

/// Whether a character is alphabetic (the Unicode `Alphabetic` property, as
/// `char::is_alphabetic` decides it).
pub uninterp spec fn char_is_alphabetic(c: char) -> bool;

/// Whether a character is alphanumeric, as `char::is_alphanumeric` decides it.
pub uninterp spec fn char_is_alphanumeric(c: char) -> bool;

/// Relies on `char::is_whitespace`: whether `c` has the Unicode `White_Space`
/// property, a function of the character alone.
#[verifier::external_body]
pub fn is_whitespace_char(c: char) -> (r: bool)
    ensures
        r == char_is_whitespace(c),
{
    c.is_whitespace()
}

/// Relies on `char::is_alphabetic`: whether `c` has the Unicode `Alphabetic`
/// property, a function of the character alone.
#[verifier::external_body]
pub fn is_alphabetic_char(c: char) -> (r: bool)
    ensures
        r == char_is_alphabetic(c),
{
    c.is_alphabetic()
}

/// Relies on `char::is_alphanumeric`: whether `c` is alphanumeric, a function
/// of the character alone.
#[verifier::external_body]
pub fn is_alphanumeric_char(c: char) -> (r: bool)
    ensures
        r == char_is_alphanumeric(c),
{
    c.is_alphanumeric()
}

/// Relies on `String::push`: appends exactly the one character `c` at the end
/// of `s`.
#[verifier::external_body]
fn push_char(s: &mut String, c: char)
    ensures
        final(s)@ == old(s)@.push(c),
{
    s.push(c);
}

/// A node of the parsed tree: a name, an ordered attribute list (keys are not
/// required to be unique), and the ordered nested elements, empty for a
/// self-closing element. The tree is built bottom-up during a single parse
/// pass and never mutated afterwards.
#[derive(Debug)]
pub struct Element {
    pub name: String,
    pub attributes: Vec<(String, String)>,
    pub children: Vec<Element>,
}

/// The mathematical view of an `Element`: the same tree over character
/// sequences.
#[verifier::ext_equal]
pub struct ElementV {
    pub name: Seq<char>,
    pub attributes: Seq<(Seq<char>, Seq<char>)>,
    pub children: Seq<ElementV>,
}

/// The view of an element: its strings as character sequences, its children
/// viewed recursively.
pub open spec fn elem_view(e: Element) -> ElementV
    decreases e,
{
    ElementV {
        name: e.name@,
        attributes: e.attributes.deep_view(),
        children: elems_view(e.children@),
    }
}

/// The views of a sequence of elements, in order.
pub open spec fn elems_view(s: Seq<Element>) -> Seq<ElementV>
    decreases s,
{
    if s.len() == 0 {
        seq![]
    } else {
        elems_view(s.drop_last()).push(elem_view(s.last()))
    }
}

/// `elems_view` views each element of the sequence in place.
pub proof fn lemma_elems_view(s: Seq<Element>)
    ensures
        elems_view(s).len() == s.len(),
        forall|i: int| 0 <= i < s.len() ==> elems_view(s)[i] == elem_view(#[trigger] s[i]),
    decreases s.len(),
{
    if s.len() > 0 {
        lemma_elems_view(s.drop_last());
        assert forall|i: int| 0 <= i < s.len() implies elems_view(s)[i] == elem_view(
            #[trigger] s[i],
        ) by {
            if i < s.len() - 1 {
                assert(s.drop_last()[i] == s[i]);
                assert(elems_view(s)[i] == elems_view(s.drop_last())[i]);
            } else {
                assert(s[i] == s.last());
            }
        }
    }
}

impl DeepView for Element {
    type V = ElementV;

    open spec fn deep_view(&self) -> ElementV {
        elem_view(*self)
    }
}

/// Deep structural equality of two element trees: equal exactly when the
/// views are equal.
pub fn element_eq(a: &Element, b: &Element) -> (r: bool)
    ensures
        r == (a.deep_view() == b.deep_view()),
    decreases *a,
{
    if !(a.name == b.name) {
        return false;
    }
    if a.attributes.len() != b.attributes.len() {
        proof {
            assert(a.deep_view().attributes.len() != b.deep_view().attributes.len());
        }
        return false;
    }
    let n_attrs = a.attributes.len();
    let mut i: usize = 0;
    while i < n_attrs
        invariant
            i <= n_attrs,
            n_attrs == a.attributes@.len() == b.attributes@.len(),
            forall|j: int| 0 <= j < i ==> a.attributes.deep_view()[j] == b.attributes.deep_view()[j],
        decreases n_attrs - i,
    {
        if !(a.attributes[i].0 == b.attributes[i].0) || !(a.attributes[i].1 == b.attributes[i].1) {
            proof {
                assert(a.deep_view().attributes[i as int] != b.deep_view().attributes[i as int]);
            }
            return false;
        }
        i += 1;
    }
    if a.children.len() != b.children.len() {
        proof {
            lemma_elems_view(a.children@);
            lemma_elems_view(b.children@);
        }
        return false;
    }
    let n_children = a.children.len();
    let mut k: usize = 0;
    while k < n_children
        invariant
            k <= n_children,
            n_children == a.children@.len() == b.children@.len(),
            forall|j: int| 0 <= j < k ==> elems_view(a.children@)[j] == elems_view(b.children@)[j],
        decreases n_children - k,
    {
        if !element_eq(&a.children[k], &b.children[k]) {
            proof {
                lemma_elems_view(a.children@);
                lemma_elems_view(b.children@);
                assert(elems_view(a.children@)[k as int] != elems_view(b.children@)[k as int]);
            }
            return false;
        }
        proof {
            lemma_elems_view(a.children@);
            lemma_elems_view(b.children@);
        }
        k += 1;
    }
    proof {
        lemma_elems_view(a.children@);
        lemma_elems_view(b.children@);
        assert(a.deep_view().attributes =~= b.deep_view().attributes);
        assert(a.deep_view().children =~= b.deep_view().children);
        assert(a.deep_view() =~= b.deep_view());
    }
    true
}

impl PartialEq for Element {
    fn eq(&self, other: &Element) -> (r: bool) {
        element_eq(self, other)
    }
}

impl vstd::std_specs::cmp::PartialEqSpecImpl for Element {
    open spec fn obeys_eq_spec() -> bool {
        true
    }

    open spec fn eq_spec(&self, other: &Element) -> bool {
        self.deep_view() == other.deep_view()
    }
}

/// One character consumed from the head of the input; fails only when the
/// input is empty.
pub open spec fn spec_any_char(input: Seq<char>) -> SpecResult<char> {
    if input.len() == 0 {
        Err(input)
    } else {
        Ok((input.skip(1), input[0]))
    }
}

/// Consumes exactly one character of the input, by its encoded width;
/// succeeds unless the input is empty.
pub struct AnyCharP;

impl Parser for AnyCharP {
    type Output = char;

    open spec fn spec_parse(&self, input: Seq<char>) -> SpecResult<char> {
        spec_any_char(input)
    }

    fn parse<'a>(&self, input: &'a str) -> (r: ParseResult<'a, char>) {
        parse_any_char(input)
    }
    proof fn lemma_parse_suffix(&self, input: Seq<char>) {
        lemma_suffix_refl(input);
    }
}

/// Consume one character from the head of the input.
pub fn parse_any_char<'a>(input: &'a str) -> (r: ParseResult<'a, char>)
    ensures
        parse_view(r) == spec_any_char(input@),
{
    let len = input.unicode_len();
    if len == 0 {
        return Err(input);
    }
    let c = input.get_char(0);
    proof {
        assert(input@.subrange(1, len as int) =~= input@.skip(1));
    }
    Ok((input.substring_char(1, len), c))
}

/// Whitespace classification of one parsed character.
pub struct IsWhitespace;

impl PredFn for IsWhitespace {
    type In = char;

    open spec fn spec_call(&self, c: char) -> bool {
        char_is_whitespace(c)
    }

    fn call(&self, c: &char) -> (r: bool) {
        is_whitespace_char(*c)
    }
}

/// Accepts exactly the character `expected`.
pub struct CharEq {
    pub expected: char,
}

impl PredFn for CharEq {
    type In = char;

    open spec fn spec_call(&self, c: char) -> bool {
        c == self.expected
    }

    fn call(&self, c: &char) -> (r: bool) {
        *c == self.expected
    }
}

/// Rejects exactly the character `banned`.
pub struct CharNe {
    pub banned: char,
}

impl PredFn for CharNe {
    type In = char;

    open spec fn spec_call(&self, c: char) -> bool {
        c != self.banned
    }

    fn call(&self, c: &char) -> (r: bool) {
        *c != self.banned
    }
}

/// Accepts exactly the string `expected`.
pub struct StringIs {
    pub expected: String,
}

impl PredFn for StringIs {
    type In = String;

    open spec fn spec_call(&self, s: Seq<char>) -> bool {
        s == self.expected@
    }

    fn call(&self, s: &String) -> (r: bool) {
        s.eq(&self.expected)
    }
}

/// A single character, filtered to whitespace classification.
pub fn whitespace_char() -> (p: PredP<AnyCharP, IsWhitespace>)
    ensures
        p == (PredP { parser: AnyCharP, predicate: IsWhitespace }),
{
    pred(AnyCharP, IsWhitespace)
}

/// The leading run of whitespace characters of the input, and the remainder
/// after it.
pub open spec fn spec_ws_run(input: Seq<char>) -> (Seq<char>, Seq<char>) {
    spec_repeat0(PredP { parser: AnyCharP, predicate: IsWhitespace }, input)
}

/// Discard the leading run of whitespace.
fn skip_ws<'a>(input: &'a str) -> (r: &'a str)
    ensures
        r@ == spec_ws_run(input@).1,
        r@.len() <= input@.len(),
{
    let p = zero_or_more(whitespace_char());
    proof {
        lemma_repeat0_rest_len(PredP { parser: AnyCharP, predicate: IsWhitespace }, input@);
    }
    match p.parse(input) {
        Ok((rest, _)) => rest,
        Err(_) => {
            proof {
                assert(false);
            }
            input
        },
    }
}

/// Collects parsed characters into an owned string.
pub struct CollectChars;

impl MapFn for CollectChars {
    type In = Vec<char>;

    type Out = String;

    open spec fn spec_call(&self, v: Seq<char>) -> Seq<char> {
        v
    }

    fn call(&self, v: Vec<char>) -> (r: String) {
        let mut out = String::new();
        let mut i: usize = 0;
        let n = v.len();
        while i < n
            invariant
                i <= n,
                n == v@.len(),
                out@ == v@.take(i as int),
            decreases n - i,
        {
            push_char(&mut out, v[i]);
            proof {
                assert(v@.take(i as int).push(v@[i as int]) =~= v@.take(i + 1));
            }
            i += 1;
        }
        proof {
            assert(v@.take(n as int) =~= v@);
            assert(v.deep_view() =~= v@);
        }
        out
    }
}

/// Whether a character may continue an identifier.
pub open spec fn spec_ident_char(c: char) -> bool {
    char_is_alphanumeric(c) || c == '-'
}

/// The length of the leading run of identifier-continuation characters.
pub open spec fn spec_ident_tail_len(s: Seq<char>) -> nat
    decreases s.len(),
{
    if s.len() > 0 && spec_ident_char(s[0]) {
        1 + spec_ident_tail_len(s.skip(1))
    } else {
        0
    }
}

/// The leading identifier-continuation run is characterized by its cut point:
/// everything before it qualifies, the character at it (if any) does not.
pub proof fn lemma_ident_tail_len(s: Seq<char>)
    ensures
        spec_ident_tail_len(s) <= s.len(),
        forall|i: int| 0 <= i < spec_ident_tail_len(s) ==> spec_ident_char(#[trigger] s[i]),
        spec_ident_tail_len(s) < s.len() ==> !spec_ident_char(s[spec_ident_tail_len(s) as int]),
    decreases s.len(),
{
    if s.len() > 0 && spec_ident_char(s[0]) {
        lemma_ident_tail_len(s.skip(1));
        assert forall|i: int| 0 <= i < spec_ident_tail_len(s) implies spec_ident_char(
            #[trigger] s[i],
        ) by {
            if i > 0 {
                assert(s.skip(1)[i - 1] == s[i]);
            }
        }
        if spec_ident_tail_len(s) < s.len() {
            assert(s.skip(1)[spec_ident_tail_len(s) - 1] == s[spec_ident_tail_len(s) as int]);
        }
    }
}

/// Any cut point with the run's two properties is the run's length.
pub proof fn lemma_ident_tail_len_unique(s: Seq<char>, k: int)
    requires
        0 <= k <= s.len(),
        forall|i: int| 0 <= i < k ==> spec_ident_char(#[trigger] s[i]),
        k < s.len() ==> !spec_ident_char(s[k]),
    ensures
        spec_ident_tail_len(s) == k,
{
    lemma_ident_tail_len(s);
    if spec_ident_tail_len(s) < k {
        assert(spec_ident_char(s[spec_ident_tail_len(s) as int]));
        assert(false);
    }
    if k < spec_ident_tail_len(s) {
        assert(spec_ident_char(s[k]));
        assert(false);
    }
}

/// An identifier: an alphabetic character followed by the longest run of
/// alphanumeric characters and hyphens, produced as the matched prefix;
/// fails, carrying the whole input, when the first character is not
/// alphabetic.
pub open spec fn spec_identifier(input: Seq<char>) -> SpecResult<Seq<char>> {
    if input.len() > 0 && char_is_alphabetic(input[0]) {
        let n = 1 + spec_ident_tail_len(input.skip(1));
        Ok((input.skip(n as int), input.take(n as int)))
    } else {
        Err(input)
    }
}

/// Parse an identifier from the head of the input.
pub fn parse_identifier<'a>(input: &'a str) -> (r: ParseResult<'a, String>)
    ensures
        parse_view(r) == spec_identifier(input@),
{
    let len = input.unicode_len();
    if len == 0 {
        return Err(input);
    }
    if !is_alphabetic_char(input.get_char(0)) {
        return Err(input);
    }
    let mut n: usize = 1;
    loop
        invariant
            1 <= n <= len,
            len == input@.len(),
            char_is_alphabetic(input@[0]),
            forall|i: int| 1 <= i < n ==> spec_ident_char(#[trigger] input@[i]),
        ensures
            1 <= n <= len,
            len == input@.len(),
            forall|i: int| 1 <= i < n ==> spec_ident_char(#[trigger] input@[i]),
            n < len ==> !spec_ident_char(input@[n as int]),
        decreases len - n,
    {
        if n >= len {
            break;
        }
        let c = input.get_char(n);
        let keeps_going = is_alphanumeric_char(c) || c == '-';
        if !keeps_going {
            break;
        }
        n += 1;
    }
    proof {
        assert forall|i: int| 0 <= i < n - 1 implies spec_ident_char(
            #[trigger] input@.skip(1)[i],
        ) by {
            assert(input@.skip(1)[i] == input@[i + 1]);
        }
        if n < len {
            assert(input@.skip(1)[n - 1] == input@[n as int]);
        }
        lemma_ident_tail_len_unique(input@.skip(1), n - 1);
        assert(input@.subrange(n as int, len as int) =~= input@.skip(n as int));
        assert(input@.subrange(0, n as int) =~= input@.take(n as int));
    }
    let matched = input.substring_char(0, n).to_owned();
    Ok((input.substring_char(n, len), matched))
}

/// The identifier production as a parser value.
pub struct IdentifierP;

impl Parser for IdentifierP {
    type Output = String;

    open spec fn spec_parse(&self, input: Seq<char>) -> SpecResult<Seq<char>> {
        spec_identifier(input)
    }

    fn parse<'a>(&self, input: &'a str) -> (r: ParseResult<'a, String>) {
        parse_identifier(input)
    }
    proof fn lemma_parse_suffix(&self, input: Seq<char>) {
        lemma_identifier_suffix(input);
    }
}

/// A double quote, then every character up to the next double quote, then
/// the closing double quote; produces the inner characters, quotes excluded.
pub open spec fn spec_quoted_string(input: Seq<char>) -> SpecResult<Seq<char>> {
    match spec_match_literal("\""@, input) {
        Ok((r1, _)) => {
            let (cs, r2) = spec_repeat0(
                PredP { parser: AnyCharP, predicate: (CharNe { banned: '"' }) },
                r1,
            );
            match spec_match_literal("\""@, r2) {
                Ok((r3, _)) => Ok((r3, cs)),
                Err(e) => Err(e),
            }
        },
        Err(e) => Err(e),
    }
}

/// The shape of the quoted-string production.
pub type QuotedStringType = MapP<
    RightP<LiteralP, LeftP<ZeroOrMoreP<PredP<AnyCharP, CharNe>>, LiteralP>>,
    CollectChars,
>;

/// The quoted-string production.
pub fn quoted_string() -> (p: QuotedStringType)
    ensures
        forall|s: Seq<char>| #[trigger] p.spec_parse(s) == spec_quoted_string(s),
{
    crate::combinators::map(
        right(
            match_literal("\""),
            left(
                zero_or_more(pred(AnyCharP, CharNe { banned: '"' })),
                match_literal("\""),
            ),
        ),
        CollectChars,
    )
}

/// An attribute: an identifier, a literal `=`, and a quoted string; produces
/// the (name, value) pair.
pub open spec fn spec_attribute_pair(input: Seq<char>) -> SpecResult<(Seq<char>, Seq<char>)> {
    match spec_identifier(input) {
        Ok((r1, name)) => match spec_match_literal("="@, r1) {
            Ok((r2, _)) => match spec_quoted_string(r2) {
                Ok((r3, value)) => Ok((r3, (name, value))),
                Err(e) => Err(e),
            },
            Err(e) => Err(e),
        },
        Err(e) => Err(e),
    }
}

/// The shape of the attribute-pair production.
pub type AttributePairType = PairP<IdentifierP, RightP<LiteralP, QuotedStringType>>;

/// The attribute-pair production.
pub fn attribute_pair() -> (p: AttributePairType)
    ensures
        forall|s: Seq<char>| #[trigger] p.spec_parse(s) == spec_attribute_pair(s),
{
    pair(IdentifierP, right(match_literal("="), quoted_string()))
}

/// One step of the attribute list: mandatory whitespace, then an attribute.
pub open spec fn spec_attr_step(input: Seq<char>) -> SpecResult<(Seq<char>, Seq<char>)> {
    match spec_repeat1(PredP { parser: AnyCharP, predicate: IsWhitespace }, input) {
        Ok((r1, _)) => spec_attribute_pair(r1),
        Err(e) => Err(e),
    }
}

/// The attribute pairs collected by repeating `spec_attr_step` greedily, in
/// source order, with the remainder after the last step that succeeded.
pub open spec fn spec_attr_list(input: Seq<char>) -> (Seq<(Seq<char>, Seq<char>)>, Seq<char>)
    decreases input.len(),
{
    match spec_attr_step(input) {
        Ok((rest, kv)) => {
            if rest.len() < input.len() {
                let (vs, r2) = spec_attr_list(rest);
                (seq![kv] + vs, r2)
            } else {
                (seq![], input)
            }
        },
        Err(_) => (seq![], input),
    }
}

/// The attribute-list production's outcome: never fails; an empty list is a
/// valid success.
pub open spec fn spec_attributes(input: Seq<char>) -> SpecResult<Seq<(Seq<char>, Seq<char>)>> {
    let (vs, rest) = spec_attr_list(input);
    Ok((rest, vs))
}

/// The shape of one attribute-list step.
pub type AttrStepType = RightP<OneOrMoreP<PredP<AnyCharP, IsWhitespace>>, AttributePairType>;

/// The shape of the attribute-list production.
pub type AttributesType = ZeroOrMoreP<AttrStepType>;

proof fn lemma_attr_list(step: AttrStepType, input: Seq<char>)
    requires
        forall|s: Seq<char>| #[trigger] step.spec_parse(s) == spec_attr_step(s),
    ensures
        spec_repeat0(step, input) == spec_attr_list(input),
    decreases input.len(),
{
    match spec_attr_step(input) {
        Ok((rest, kv)) => {
            if rest.len() < input.len() {
                lemma_attr_list(step, rest);
            }
        },
        Err(_) => {},
    }
}

/// The attribute-list production: zero or more of (whitespace, attribute);
/// the whitespace is a mandatory separator but not itself in the output.
pub fn attributes() -> (p: AttributesType)
    ensures
        forall|s: Seq<char>| #[trigger] p.spec_parse(s) == spec_attributes(s),
{
    let p = zero_or_more(right(one_or_more(whitespace_char()), attribute_pair()));
    proof {
        let step = p.parser;
        assert forall|t: Seq<char>| #[trigger] step.spec_parse(t) == spec_attr_step(t) by {}
        assert forall|s: Seq<char>| #[trigger] p.spec_parse(s) == spec_attributes(s) by {
            lemma_attr_list(step, s);
        }
    }
    p
}

/// The opening fragment of any element: `<`, the tag name, and the attribute
/// list.
pub open spec fn spec_element_start(input: Seq<char>) -> SpecResult<
    (Seq<char>, Seq<(Seq<char>, Seq<char>)>),
> {
    match spec_match_literal("<"@, input) {
        Ok((r1, _)) => match spec_identifier(r1) {
            Ok((r2, name)) => match spec_attributes(r2) {
                Ok((r3, attrs)) => Ok((r3, (name, attrs))),
                Err(e) => Err(e),
            },
            Err(e) => Err(e),
        },
        Err(e) => Err(e),
    }
}

/// The shape of the element-start production.
pub type ElementStartType = RightP<LiteralP, PairP<IdentifierP, AttributesType>>;

/// The element-start production, shared by self-closing and parent tags.
pub fn element_start() -> (p: ElementStartType)
    ensures
        forall|s: Seq<char>| #[trigger] p.spec_parse(s) == spec_element_start(s),
{
    right(match_literal("<"), pair(IdentifierP, attributes()))
}

/// Builds a leaf element (no children yet) from a parsed name and attribute
/// list.
pub struct MakeLeaf;

impl MapFn for MakeLeaf {
    type In = (String, Vec<(String, String)>);

    type Out = Element;

    open spec fn spec_call(&self, v: (Seq<char>, Seq<(Seq<char>, Seq<char>)>)) -> ElementV {
        ElementV { name: v.0, attributes: v.1, children: seq![] }
    }

    fn call(&self, v: (String, Vec<(String, String)>)) -> (r: Element) {
        let (name, attributes) = v;
        let r = Element { name, attributes, children: Vec::new() };
        proof {
            assert(r.deep_view() =~= self.spec_call(v.deep_view()));
        }
        r
    }
}

/// The shape of a run of whitespace characters.
pub type WsP = ZeroOrMoreP<PredP<AnyCharP, IsWhitespace>>;

/// The shape of a parser wrapped in optional whitespace.
pub type WsWrapType<P> = RightP<WsP, LeftP<P, WsP>>;

/// Wraps `parser` so that whitespace runs before and after it are consumed
/// and discarded.
pub fn whitespace_wrap<P: Parser>(parser: P) -> (p: WsWrapType<P>)
    ensures
        p == (RightP {
            p1: ZeroOrMoreP { parser: PredP { parser: AnyCharP, predicate: IsWhitespace } },
            p2: LeftP {
                p1: parser,
                p2: ZeroOrMoreP { parser: PredP { parser: AnyCharP, predicate: IsWhitespace } },
            },
        }),
{
    right(zero_or_more(whitespace_char()), left(parser, zero_or_more(whitespace_char())))
}

/// A self-closing element: the opening fragment, then `/>` with optional
/// whitespace around it; a leaf element with no children.
pub open spec fn spec_single_element(input: Seq<char>) -> SpecResult<ElementV> {
    match spec_element_start(input) {
        Ok((r1, nv)) => {
            let r2 = spec_ws_run(r1).1;
            match spec_match_literal("/>"@, r2) {
                Ok((r3, _)) => Ok(
                    (spec_ws_run(r3).1, ElementV { name: nv.0, attributes: nv.1, children: seq![] }),
                ),
                Err(e) => Err(e),
            }
        },
        Err(e) => Err(e),
    }
}

/// The shape of the self-closing-element production.
pub type SingleElementType = MapP<LeftP<ElementStartType, WsWrapType<LiteralP>>, MakeLeaf>;

/// The self-closing-element production.
pub fn single_element() -> (p: SingleElementType)
    ensures
        forall|s: Seq<char>| #[trigger] p.spec_parse(s) == spec_single_element(s),
{
    crate::combinators::map(left(element_start(), whitespace_wrap(match_literal("/>"))), MakeLeaf)
}

/// An open tag: the opening fragment followed by `>`; a shell element whose
/// children are filled in by the parent rule.
pub open spec fn spec_open_element(input: Seq<char>) -> SpecResult<ElementV> {
    match spec_element_start(input) {
        Ok((r1, nv)) => match spec_match_literal(">"@, r1) {
            Ok((r2, _)) => Ok((r2, ElementV { name: nv.0, attributes: nv.1, children: seq![] })),
            Err(e) => Err(e),
        },
        Err(e) => Err(e),
    }
}

/// The shape of the open-tag production.
pub type OpenElementType = MapP<LeftP<ElementStartType, LiteralP>, MakeLeaf>;

/// The open-tag production.
pub fn open_element() -> (p: OpenElementType)
    ensures
        forall|s: Seq<char>| #[trigger] p.spec_parse(s) == spec_open_element(s),
{
    crate::combinators::map(left(element_start(), match_literal(">")), MakeLeaf)
}

/// A close tag `</name>` whose name must equal `expected`; produces the
/// matched name. When the name check fails, the failure carries the input
/// just after the `</`.
pub open spec fn spec_close_element(expected: Seq<char>, input: Seq<char>) -> SpecResult<
    Seq<char>,
> {
    match spec_match_literal("</"@, input) {
        Ok((r1, _)) => match spec_identifier(r1) {
            Ok((r2, id)) => if id == expected {
                match spec_match_literal(">"@, r2) {
                    Ok((r3, _)) => Ok((r3, id)),
                    Err(e) => Err(e),
                }
            } else {
                Err(r1)
            },
            Err(e) => Err(e),
        },
        Err(e) => Err(e),
    }
}

/// The shape of the close-tag production.
pub type CloseElementType = LeftP<RightP<LiteralP, PredP<IdentifierP, StringIs>>, LiteralP>;

/// The close-tag production for a given expected name.
pub fn close_element(expected: String) -> (p: CloseElementType)
    ensures
        forall|s: Seq<char>| #[trigger] p.spec_parse(s) == spec_close_element(expected@, s),
{
    left(right(match_literal("</"), pred(IdentifierP, StringIs { expected })), match_literal(">"))
}

/// The attribute list never returns more remaining input than it was given.
pub proof fn lemma_attr_list_rest_len(input: Seq<char>)
    ensures
        spec_attr_list(input).1.len() <= input.len(),
    decreases input.len(),
{
    match spec_attr_step(input) {
        Ok((rest, _)) => {
            if rest.len() < input.len() {
                lemma_attr_list_rest_len(rest);
            }
        },
        Err(_) => {},
    }
}

/// A successful open tag consumes at least one character.
pub proof fn lemma_open_element_progress(input: Seq<char>)
    ensures
        match spec_open_element(input) {
            Ok((rest, _)) => rest.len() < input.len(),
            Err(_) => true,
        },
{
    reveal_strlit("<");
    reveal_strlit(">");
    match spec_match_literal("<"@, input) {
        Ok((r1, _)) => {
            match spec_identifier(r1) {
                Ok((r2, _)) => {
                    lemma_ident_tail_len(r1.skip(1));
                    lemma_attr_list_rest_len(r2);
                },
                Err(_) => {},
            }
        },
        Err(_) => {},
    }
}

/// The leading whitespace run leaves a suffix of the input.
pub proof fn lemma_ws_run_suffix(input: Seq<char>)
    ensures
        is_suffix_of(spec_ws_run(input).1, input),
{
    let p = PredP { parser: AnyCharP, predicate: IsWhitespace };
    assert forall|s: Seq<char>| is_suffix_of(spec_rest(#[trigger] p.spec_parse(s)), s) by {
        lemma_suffix_refl(s);
    }
    lemma_repeat0_suffix(p, input);
}

/// The identifier production's remainder is a suffix of its input.
pub proof fn lemma_identifier_suffix(input: Seq<char>)
    ensures
        is_suffix_of(spec_rest(spec_identifier(input)), input),
{
    lemma_suffix_refl(input);
    if input.len() > 0 && char_is_alphabetic(input[0]) {
        lemma_ident_tail_len(input.skip(1));
    }
}

/// The quoted-string production's remainder is a suffix of its input.
pub proof fn lemma_quoted_string_suffix(input: Seq<char>)
    ensures
        is_suffix_of(spec_rest(spec_quoted_string(input)), input),
{
    lemma_match_literal_suffix("\""@, input);
    match spec_match_literal("\""@, input) {
        Ok((r1, _)) => {
            let p = PredP { parser: AnyCharP, predicate: (CharNe { banned: '"' }) };
            assert forall|s: Seq<char>| is_suffix_of(spec_rest(#[trigger] p.spec_parse(s)), s) by {
                lemma_suffix_refl(s);
            }
            lemma_repeat0_suffix(p, r1);
            let r2 = spec_repeat0(p, r1).1;
            lemma_suffix_trans(r2, r1, input);
            lemma_match_literal_suffix("\""@, r2);
            lemma_suffix_trans(spec_rest(spec_match_literal("\""@, r2)), r2, input);
        },
        Err(_) => {},
    }
}

/// The attribute-pair production's remainder is a suffix of its input.
pub proof fn lemma_attribute_pair_suffix(input: Seq<char>)
    ensures
        is_suffix_of(spec_rest(spec_attribute_pair(input)), input),
{
    lemma_identifier_suffix(input);
    match spec_identifier(input) {
        Ok((r1, _)) => {
            lemma_match_literal_suffix("="@, r1);
            lemma_suffix_trans(spec_rest(spec_match_literal("="@, r1)), r1, input);
            match spec_match_literal("="@, r1) {
                Ok((r2, _)) => {
                    lemma_quoted_string_suffix(r2);
                    lemma_suffix_trans(spec_rest(spec_quoted_string(r2)), r2, input);
                },
                Err(_) => {},
            }
        },
        Err(_) => {},
    }
}

/// One attribute-list step's remainder is a suffix of its input.
pub proof fn lemma_attr_step_suffix(input: Seq<char>)
    ensures
        is_suffix_of(spec_rest(spec_attr_step(input)), input),
{
    let p = PredP { parser: AnyCharP, predicate: IsWhitespace };
    assert forall|s: Seq<char>| is_suffix_of(spec_rest(#[trigger] p.spec_parse(s)), s) by {
        lemma_suffix_refl(s);
    }
    lemma_repeat1_suffix(p, input);
    match spec_repeat1(p, input) {
        Ok((r1, _)) => {
            lemma_attribute_pair_suffix(r1);
            lemma_suffix_trans(spec_rest(spec_attribute_pair(r1)), r1, input);
        },
        Err(_) => {},
    }
}

/// The attribute list's remainder is a suffix of its input.
pub proof fn lemma_attr_list_suffix(input: Seq<char>)
    ensures
        is_suffix_of(spec_attr_list(input).1, input),
    decreases input.len(),
{
    lemma_attr_step_suffix(input);
    match spec_attr_step(input) {
        Ok((rest, _)) => {
            if rest.len() < input.len() {
                lemma_attr_list_suffix(rest);
                lemma_suffix_trans(spec_attr_list(rest).1, rest, input);
            } else {
                lemma_suffix_refl(input);
            }
        },
        Err(_) => {
            lemma_suffix_refl(input);
        },
    }
}

/// The element-start production's remainder is a suffix of its input.
pub proof fn lemma_element_start_suffix(input: Seq<char>)
    ensures
        is_suffix_of(spec_rest(spec_element_start(input)), input),
{
    lemma_match_literal_suffix("<"@, input);
    match spec_match_literal("<"@, input) {
        Ok((r1, _)) => {
            lemma_identifier_suffix(r1);
            lemma_suffix_trans(spec_rest(spec_identifier(r1)), r1, input);
            match spec_identifier(r1) {
                Ok((r2, _)) => {
                    lemma_attr_list_suffix(r2);
                    lemma_suffix_trans(spec_attr_list(r2).1, r2, input);
                },
                Err(_) => {},
            }
        },
        Err(_) => {},
    }
}

/// The self-closing-element production's remainder is a suffix of its input.
pub proof fn lemma_single_element_suffix(input: Seq<char>)
    ensures
        is_suffix_of(spec_rest(spec_single_element(input)), input),
{
    lemma_element_start_suffix(input);
    match spec_element_start(input) {
        Ok((r1, _)) => {
            lemma_ws_run_suffix(r1);
            let r2 = spec_ws_run(r1).1;
            lemma_suffix_trans(r2, r1, input);
            lemma_match_literal_suffix("/>"@, r2);
            lemma_suffix_trans(spec_rest(spec_match_literal("/>"@, r2)), r2, input);
            match spec_match_literal("/>"@, r2) {
                Ok((r3, _)) => {
                    lemma_ws_run_suffix(r3);
                    lemma_suffix_trans(spec_ws_run(r3).1, r3, input);
                },
                Err(_) => {},
            }
        },
        Err(_) => {},
    }
}

/// The open-tag production's remainder is a suffix of its input.
pub proof fn lemma_open_element_suffix(input: Seq<char>)
    ensures
        is_suffix_of(spec_rest(spec_open_element(input)), input),
{
    lemma_element_start_suffix(input);
    match spec_element_start(input) {
        Ok((r1, _)) => {
            lemma_match_literal_suffix(">"@, r1);
            lemma_suffix_trans(spec_rest(spec_match_literal(">"@, r1)), r1, input);
        },
        Err(_) => {},
    }
}

/// The close-tag production's remainder is a suffix of its input.
pub proof fn lemma_close_element_suffix(expected: Seq<char>, input: Seq<char>)
    ensures
        is_suffix_of(spec_rest(spec_close_element(expected, input)), input),
{
    lemma_match_literal_suffix("</"@, input);
    match spec_match_literal("</"@, input) {
        Ok((r1, _)) => {
            lemma_identifier_suffix(r1);
            lemma_suffix_trans(spec_rest(spec_identifier(r1)), r1, input);
            match spec_identifier(r1) {
                Ok((r2, id)) => {
                    if id == expected {
                        lemma_match_literal_suffix(">"@, r2);
                        lemma_suffix_trans(spec_rest(spec_match_literal(">"@, r2)), r2, input);
                    }
                },
                Err(_) => {},
            }
        },
        Err(_) => {},
    }
}

/// A complete element: leading whitespace discarded, a self-closing or
/// parent element, trailing whitespace discarded.
pub open spec fn spec_element(input: Seq<char>) -> SpecResult<ElementV>
    decreases input.len(), 3int,
    via spec_element_decreases
{
    let r0 = spec_ws_run(input).1;
    match spec_element_inner(r0) {
        Ok((r1, v)) => Ok((spec_ws_run(r1).1, v)),
        Err(e) => Err(e),
    }
}

#[via_fn]
proof fn spec_element_decreases(input: Seq<char>) {
    lemma_repeat0_rest_len(PredP { parser: AnyCharP, predicate: IsWhitespace }, input);
}

/// Either a self-closing element or a parent element, preferring the former.
pub open spec fn spec_element_inner(input: Seq<char>) -> SpecResult<ElementV>
    decreases input.len(), 2int,
{
    match spec_single_element(input) {
        Ok(ok) => Ok(ok),
        Err(_) => spec_parent_element(input),
    }
}

/// A parent element: an open tag, the children elements, and a close tag
/// whose name equals the opening tag's name; mismatched tags are a parse
/// failure at the closing tag's name.
pub open spec fn spec_parent_element(input: Seq<char>) -> SpecResult<ElementV>
    decreases input.len(), 1int,
    via spec_parent_element_decreases
{
    match spec_open_element(input) {
        Ok((r1, shell)) => {
            let (children, r2) = spec_children(r1);
            match spec_close_element(shell.name, r2) {
                Ok((r3, _)) => Ok(
                    (r3, ElementV { name: shell.name, attributes: shell.attributes, children }),
                ),
                Err(e) => Err(e),
            }
        },
        Err(e) => Err(e),
    }
}

#[via_fn]
proof fn spec_parent_element_decreases(input: Seq<char>) {
    lemma_open_element_progress(input);
}

/// The children of a parent element: complete elements repeated greedily, in
/// order, with the remainder after the last one.
pub open spec fn spec_children(input: Seq<char>) -> (Seq<ElementV>, Seq<char>)
    decreases input.len(), 4int,
{
    match spec_element(input) {
        Ok((rest, v)) => {
            if rest.len() < input.len() {
                let (vs, r2) = spec_children(rest);
                (seq![v] + vs, r2)
            } else {
                (seq![], input)
            }
        },
        Err(_) => (seq![], input),
    }
}

/// The complete-element production's remainder is a suffix of its input, on
/// success and on failure alike: parsers never fabricate or reorder input,
/// and consumption is monotonic.
pub proof fn lemma_element_suffix(input: Seq<char>)
    ensures
        is_suffix_of(spec_rest(spec_element(input)), input),
    decreases input.len(), 3int,
{
    lemma_ws_run_suffix(input);
    let r0 = spec_ws_run(input).1;
    lemma_element_inner_suffix(r0);
    match spec_element_inner(r0) {
        Ok((r1, _)) => {
            lemma_suffix_trans(r1, r0, input);
            lemma_ws_run_suffix(r1);
            lemma_suffix_trans(spec_ws_run(r1).1, r1, input);
        },
        Err(e) => {
            lemma_suffix_trans(e, r0, input);
        },
    }
}

/// As `lemma_element_suffix`, for the alternation of the two element forms.
pub proof fn lemma_element_inner_suffix(input: Seq<char>)
    ensures
        is_suffix_of(spec_rest(spec_element_inner(input)), input),
    decreases input.len(), 2int,
{
    lemma_single_element_suffix(input);
    match spec_single_element(input) {
        Ok(_) => {},
        Err(_) => {
            lemma_parent_element_suffix(input);
        },
    }
}

/// As `lemma_element_suffix`, for the parent rule.
pub proof fn lemma_parent_element_suffix(input: Seq<char>)
    ensures
        is_suffix_of(spec_rest(spec_parent_element(input)), input),
    decreases input.len(), 1int,
{
    lemma_open_element_suffix(input);
    lemma_open_element_progress(input);
    match spec_open_element(input) {
        Ok((r1, shell)) => {
            lemma_children_suffix(r1);
            let r2 = spec_children(r1).1;
            lemma_suffix_trans(r2, r1, input);
            lemma_close_element_suffix(shell.name, r2);
            lemma_suffix_trans(spec_rest(spec_close_element(shell.name, r2)), r2, input);
        },
        Err(_) => {},
    }
}

/// As `lemma_element_suffix`, for the children of a parent element.
pub proof fn lemma_children_suffix(input: Seq<char>)
    ensures
        is_suffix_of(spec_children(input).1, input),
    decreases input.len(), 4int,
{
    lemma_element_suffix(input);
    match spec_element(input) {
        Ok((rest, _)) => {
            if rest.len() < input.len() {
                lemma_children_suffix(rest);
                lemma_suffix_trans(spec_children(rest).1, rest, input);
            } else {
                lemma_suffix_refl(input);
            }
        },
        Err(_) => {
            lemma_suffix_refl(input);
        },
    }
}

/// Parse one complete element from the head of the input.
pub fn parse_element<'a>(input: &'a str) -> (r: ParseResult<'a, Element>)
    ensures
        parse_view(r) == spec_element(input@),
    decreases input@.len(),
{
    let r0 = skip_ws(input);
    match single_element().parse(r0) {
        Ok((r1, e)) => {
            let r2 = skip_ws(r1);
            Ok((r2, e))
        },
        Err(_) => {
            match open_element().parse(r0) {
                Err(e) => Err(e),
                Ok((r1, shell)) => {
                    proof {
                        lemma_open_element_progress(r0@);
                    }
                    let r1_len = r1.unicode_len();
                    let mut kids: Vec<Element> = Vec::new();
                    let mut cur: &'a str = r1;
                    let mut cur_len: usize = r1_len;
                    loop
                        invariant
                            cur_len == cur@.len(),
                            cur@.len() <= r1@.len(),
                            r1@.len() < r0@.len(),
                            r0@.len() <= input@.len(),
                            spec_children(r1@).0 == kids.deep_view() + spec_children(cur@).0,
                            spec_children(r1@).1 == spec_children(cur@).1,
                        ensures
                            spec_children(r1@).0 == kids.deep_view() + spec_children(cur@).0,
                            spec_children(r1@).1 == spec_children(cur@).1,
                            spec_children(cur@).0 == Seq::<ElementV>::empty(),
                            spec_children(cur@).1 == cur@,
                        decreases cur@.len(),
                    {
                        match parse_element(cur) {
                            Ok((next, child)) => {
                                let next_len = next.unicode_len();
                                if next_len < cur_len {
                                    proof {
                                        let (vs, r2) = spec_children(next@);
                                        assert(spec_children(cur@).0 =~= seq![child.deep_view()]
                                            + vs);
                                        assert(kids.deep_view().push(child.deep_view())
                                            =~= kids.deep_view() + seq![child.deep_view()]);
                                        assert((kids.deep_view() + seq![child.deep_view()]) + vs
                                            =~= kids.deep_view() + (seq![child.deep_view()] + vs));
                                    }
                                    kids.push(child);
                                    cur = next;
                                    cur_len = next_len;
                                } else {
                                    proof {
                                        assert(spec_children(cur@).0 =~= seq![]);
                                    }
                                    break;
                                }
                            },
                            Err(_) => {
                                proof {
                                    assert(spec_children(cur@).0 =~= seq![]);
                                }
                                break;
                            },
                        }
                    }
                    let closer = close_element(shell.name.clone());
                    match closer.parse(cur) {
                        Ok((r3, _)) => {
                            let r4 = skip_ws(r3);
                            let result = Element {
                                name: shell.name,
                                attributes: shell.attributes,
                                children: kids,
                            };
                            proof {
                                lemma_elems_view(result.children@);
                                assert(elems_view(result.children@) =~= result.children.deep_view());
                                assert(kids.deep_view() + spec_children(cur@).0
                                    =~= kids.deep_view());
                                assert(result.deep_view() =~= ElementV {
                                    name: shell.deep_view().name,
                                    attributes: shell.deep_view().attributes,
                                    children: spec_children(r1@).0,
                                });
                            }
                            Ok((r4, result))
                        },
                        Err(e) => Err(e),
                    }
                },
            }
        },
    }
}

/// The complete-element production, the grammar's entry point: a
/// whitespace-wrapped alternation of the self-closing and parent rules,
/// tried in that order.
pub struct ElementP;

impl Parser for ElementP {
    type Output = Element;

    open spec fn spec_parse(&self, input: Seq<char>) -> SpecResult<ElementV> {
        spec_element(input)
    }

    fn parse<'a>(&self, input: &'a str) -> (r: ParseResult<'a, Element>) {
        parse_element(input)
    }
    proof fn lemma_parse_suffix(&self, input: Seq<char>) {
        lemma_element_suffix(input);
    }
}

/// The grammar's entry point.
pub fn element() -> (p: ElementP)
    ensures
        forall|s: Seq<char>| #[trigger] p.spec_parse(s) == spec_element(s),
{
    ElementP
}

/// Deep copy of an attribute list.
fn clone_attributes(v: &Vec<(String, String)>) -> (r: Vec<(String, String)>)
    ensures
        r.deep_view() == v.deep_view(),
{
    let mut r: Vec<(String, String)> = Vec::new();
    let mut i: usize = 0;
    let n = v.len();
    while i < n
        invariant
            i <= n,
            n == v@.len(),
            r@.len() == i,
            r.deep_view() == v.deep_view().take(i as int),
        decreases n - i,
    {
        let k = v[i].0.clone();
        let val = v[i].1.clone();
        proof {
            assert(k == v@[i as int].0);
            assert(val == v@[i as int].1);
        }
        r.push((k, val));
        proof {
            assert forall|j: int| 0 <= j < i + 1 implies r.deep_view()[j] == v.deep_view().take(
                i + 1,
            )[j] by {
                assert(v.deep_view().take(i + 1)[j] == v@[j].deep_view());
                if j < i {
                    assert(r.deep_view()[j] == v.deep_view().take(i as int)[j]);
                } else {
                    assert(r@[j] == (k, val));
                }
            }
            assert(r.deep_view() =~= v.deep_view().take(i + 1));
        }
        i += 1;
    }
    proof {
        assert(v.deep_view().take(n as int) =~= v.deep_view());
    }
    r
}

/// Fills the children of a shell element parsed from an open tag.
pub struct SetChildren {
    pub name: String,
    pub attributes: Vec<(String, String)>,
}

impl MapFn for SetChildren {
    type In = Vec<Element>;

    type Out = Element;

    open spec fn spec_call(&self, children: Seq<ElementV>) -> ElementV {
        ElementV { name: self.name@, attributes: self.attributes.deep_view(), children }
    }

    fn call(&self, children: Vec<Element>) -> (r: Element) {
        let r = Element {
            name: self.name.clone(),
            attributes: clone_attributes(&self.attributes),
            children,
        };
        proof {
            lemma_elems_view(r.children@);
            assert(elems_view(r.children@) =~= r.children.deep_view());
            assert(r.deep_view() =~= self.spec_call(children.deep_view()));
        }
        r
    }
}

/// Given the shell element from an open tag, the rest of the parent rule:
/// the children, then a close tag carrying the shell's name.
pub struct ElementBody;

impl AndThenFn for ElementBody {
    type In = Element;

    type OutVal = Element;

    type OutParser = MapP<LeftP<ZeroOrMoreP<ElementP>, CloseElementType>, SetChildren>;

    open spec fn spec_then(&self, v: ElementV, input: Seq<char>) -> SpecResult<ElementV> {
        let (children, r2) = spec_repeat0(ElementP, input);
        match spec_close_element(v.name, r2) {
            Ok((r3, _)) => Ok((r3, ElementV { name: v.name, attributes: v.attributes, children })),
            Err(e) => Err(e),
        }
    }

    fn call(&self, v: Element) -> (p: Self::OutParser) {
        let closer = close_element(v.name.clone());
        let p = crate::combinators::map(
            left(zero_or_more(element()), closer),
            SetChildren { name: v.name, attributes: v.attributes },
        );
        p
    }
    proof fn lemma_then_suffix(&self, v: ElementV, input: Seq<char>) {
        assert forall|s: Seq<char>|
            is_suffix_of(spec_rest(#[trigger] ElementP.spec_parse(s)), s) by {
            lemma_element_suffix(s);
        }
        lemma_repeat0_suffix(ElementP, input);
        let r2 = spec_repeat0(ElementP, input).1;
        lemma_close_element_suffix(v.name, r2);
        lemma_suffix_trans(spec_rest(spec_close_element(v.name, r2)), r2, input);
    }
}

/// The bespoke children recursion coincides with generic repetition of the
/// element production.
proof fn lemma_children_repeat(input: Seq<char>)
    ensures
        spec_repeat0(ElementP, input) == spec_children(input),
    decreases input.len(),
{
    match spec_element(input) {
        Ok((rest, v)) => {
            if rest.len() < input.len() {
                lemma_children_repeat(rest);
            }
        },
        Err(_) => {},
    }
}

/// The shape of the parent-element production.
pub type ParentElementType = AndThenP<OpenElementType, ElementBody>;

/// A parent element: the open tag and then — constrained by the opened
/// tag's name, which is not known until the open tag has been parsed — the
/// children and the matching close tag.
pub fn parent_element() -> (p: ParentElementType)
    ensures
        forall|s: Seq<char>| #[trigger] p.spec_parse(s) == spec_parent_element(s),
{
    let p = and_then(open_element(), ElementBody);
    proof {
        assert forall|s: Seq<char>| #[trigger] p.spec_parse(s) == spec_parent_element(s) by {
            match spec_open_element(s) {
                Ok((r1, shell)) => {
                    lemma_children_repeat(r1);
                },
                Err(_) => {},
            }
        }
    }
    p
}

} // verus!
