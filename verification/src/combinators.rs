//! The combinator engine: a parser is a value whose `parse` method maps an
//! input slice to either a success, pairing the unconsumed remainder with a
//! produced value, or a failure carrying the input at the point the failure
//! was detected. Combinators build new parsers out of existing ones.

use vstd::prelude::*;

verus! {

/// The outcome of one parser invocation: on success, the unconsumed suffix of
/// the input together with the produced value; on failure, the input slice as
/// it stood when the failure was detected.
pub type ParseResult<'a, Output> = Result<(&'a str, Output), &'a str>;

/// The specification-level parse outcome: remainders are character sequences
/// and produced values are mathematical views of the executable values.
pub type SpecResult<V> = Result<(Seq<char>, V), Seq<char>>;

/// The mathematical view of an executable parse outcome.
pub open spec fn parse_view<'a, T: DeepView>(r: ParseResult<'a, T>) -> SpecResult<T::V> {
    match r {
        Ok((rest, v)) => Ok((rest@, v.deep_view())),
        Err(rest) => Err(rest@),
    }
}

/// The remainder carried by a parse outcome, on success and on failure
/// alike.
pub open spec fn spec_rest<V>(r: SpecResult<V>) -> Seq<char> {
    match r {
        Ok((rest, _)) => rest,
        Err(rest) => rest,
    }
}

/// Whether `rest` is a suffix of `input`.
pub open spec fn is_suffix_of(rest: Seq<char>, input: Seq<char>) -> bool {
    rest.len() <= input.len() && rest == input.skip(input.len() - rest.len())
}

/// Every sequence is a suffix of itself.
pub proof fn lemma_suffix_refl(input: Seq<char>)
    ensures
        is_suffix_of(input, input),
{
    assert(input.skip(0) =~= input);
}

/// A suffix of a suffix is a suffix.
pub proof fn lemma_suffix_trans(c: Seq<char>, b: Seq<char>, a: Seq<char>)
    requires
        is_suffix_of(c, b),
        is_suffix_of(b, a),
    ensures
        is_suffix_of(c, a),
{
    assert(a.skip(a.len() - c.len()) =~= c);
}

/// A parser producing values of type `Self::Output`: a pure, stateless
/// mapping from an input slice to a parse outcome. `spec_parse` is the
/// mathematical statement of that mapping; `parse` computes it.
pub trait Parser: Sized {
    type Output: DeepView;

    /// What this parser returns on each input.
    spec fn spec_parse(&self, input: Seq<char>) -> SpecResult<<Self::Output as DeepView>::V>;

    /// Run the parser on `input`.
    fn parse<'a>(&self, input: &'a str) -> (r: ParseResult<'a, Self::Output>)
        ensures
            parse_view(r) == self.spec_parse(input@),
    ;

    /// On success, the returned unconsumed remainder is a suffix of the
    /// input passed to this invocation, and so is the failure slice on
    /// failure: parsers never fabricate or reorder input, and consumption is
    /// monotonic.
    proof fn lemma_parse_suffix(&self, input: Seq<char>)
        ensures
            is_suffix_of(spec_rest(self.spec_parse(input)), input),
    ;
}

/// Matches a fixed literal string at the head of the input, producing `()`
/// and consuming exactly that prefix; fails, returning the whole input, when
/// the input does not start with the literal.
pub struct LiteralP {
    pub expected: String,
}

/// Success exactly when `expected` is a prefix of `input`; the remainder is
/// what follows that prefix, and a failure carries `input` unchanged.
pub open spec fn spec_match_literal(expected: Seq<char>, input: Seq<char>) -> SpecResult<()> {
    if expected.len() <= input.len() && input.take(expected.len() as int) == expected {
        Ok((input.skip(expected.len() as int), ()))
    } else {
        Err(input)
    }
}

impl Parser for LiteralP {
    type Output = ();

    open spec fn spec_parse(&self, input: Seq<char>) -> SpecResult<()> {
        spec_match_literal(self.expected@, input)
    }

    fn parse<'a>(&self, input: &'a str) -> (r: ParseResult<'a, ()>) {
        let n = self.expected.as_str().unicode_len();
        let len = input.unicode_len();
        if n > len {
            return Err(input);
        }
        let mut i: usize = 0;
        while i < n
            invariant
                i <= n <= len,
                n == self.expected@.len(),
                len == input@.len(),
                forall|j: int| 0 <= j < i ==> input@[j] == self.expected@[j],
            decreases n - i,
        {
            if input.get_char(i) != self.expected.as_str().get_char(i) {
                proof {
                    assert(input@.take(n as int)[i as int] != self.expected@[i as int]);
                }
                return Err(input);
            }
            i += 1;
        }
        proof {
            assert(input@.take(n as int) =~= self.expected@);
            assert(input@.subrange(n as int, len as int) =~= input@.skip(n as int));
        }
        Ok((input.substring_char(n, len), ()))
    }
    proof fn lemma_parse_suffix(&self, input: Seq<char>) {
        lemma_suffix_refl(input);
    }
}

/// A successful literal match consumes exactly the literal; the remainder
/// and the failure slice are suffixes of the input.
pub proof fn lemma_match_literal_suffix(expected: Seq<char>, input: Seq<char>)
    ensures
        is_suffix_of(spec_rest(spec_match_literal(expected, input)), input),
{
    lemma_suffix_refl(input);
}

/// A parser that matches exactly the literal `expected`.
pub fn match_literal(expected: &str) -> (p: LiteralP)
    ensures
        p.expected@ == expected@,
{
    LiteralP { expected: expected.to_owned() }
}

/// Sequencing: runs the first parser, then the second on the remainder, and
/// produces both values as a pair; fails with whichever sub-parser failed,
/// short-circuiting if the first fails.
pub struct PairP<P1, P2> {
    pub p1: P1,
    pub p2: P2,
}

impl<P1: Parser, P2: Parser> Parser for PairP<P1, P2> {
    type Output = (P1::Output, P2::Output);

    open spec fn spec_parse(&self, input: Seq<char>) -> SpecResult<
        (<P1::Output as DeepView>::V, <P2::Output as DeepView>::V),
    > {
        match self.p1.spec_parse(input) {
            Ok((rest1, v1)) => match self.p2.spec_parse(rest1) {
                Ok((rest2, v2)) => Ok((rest2, (v1, v2))),
                Err(e) => Err(e),
            },
            Err(e) => Err(e),
        }
    }

    fn parse<'a>(&self, input: &'a str) -> (r: ParseResult<'a, (P1::Output, P2::Output)>) {
        match self.p1.parse(input) {
            Ok((rest1, v1)) => match self.p2.parse(rest1) {
                Ok((rest2, v2)) => Ok((rest2, (v1, v2))),
                Err(e) => Err(e),
            },
            Err(e) => Err(e),
        }
    }
    proof fn lemma_parse_suffix(&self, input: Seq<char>) {
        self.p1.lemma_parse_suffix(input);
        match self.p1.spec_parse(input) {
            Ok((r1, _)) => {
                self.p2.lemma_parse_suffix(r1);
                lemma_suffix_trans(spec_rest(self.p2.spec_parse(r1)), r1, input);
            },
            Err(_) => {},
        }
    }
}

/// The pair of `parser1` followed by `parser2`.
pub fn pair<P1: Parser, P2: Parser>(parser1: P1, parser2: P2) -> (p: PairP<P1, P2>)
    ensures
        p == (PairP { p1: parser1, p2: parser2 }),
{
    PairP { p1: parser1, p2: parser2 }
}

/// A pure transformation applied to a parser's produced value, as used by
/// `map`. `spec_call` states the transformation on views; `call` computes it.
pub trait MapFn: Sized {
    type In: DeepView;

    type Out: DeepView;

    /// The transformation, on views of the values.
    spec fn spec_call(&self, v: <Self::In as DeepView>::V) -> <Self::Out as DeepView>::V;

    /// Apply the transformation.
    fn call(&self, v: Self::In) -> (r: Self::Out)
        ensures
            r.deep_view() == self.spec_call(v.deep_view()),
    ;
}

/// Mapping: runs the underlying parser and, on success, applies a pure
/// transformation to the produced value, leaving the remainder untouched;
/// failures propagate unchanged.
pub struct MapP<P, F> {
    pub parser: P,
    pub map_fn: F,
}

impl<F: MapFn, P: Parser<Output = F::In>> Parser for MapP<P, F> {
    type Output = F::Out;

    open spec fn spec_parse(&self, input: Seq<char>) -> SpecResult<<F::Out as DeepView>::V> {
        match self.parser.spec_parse(input) {
            Ok((rest, v)) => Ok((rest, self.map_fn.spec_call(v))),
            Err(e) => Err(e),
        }
    }

    fn parse<'a>(&self, input: &'a str) -> (r: ParseResult<'a, F::Out>) {
        match self.parser.parse(input) {
            Ok((rest, v)) => Ok((rest, self.map_fn.call(v))),
            Err(e) => Err(e),
        }
    }
    proof fn lemma_parse_suffix(&self, input: Seq<char>) {
        self.parser.lemma_parse_suffix(input);
    }
}

/// The parser that applies `map_fn` to whatever `parser` produces.
pub fn map<F: MapFn, P: Parser<Output = F::In>>(parser: P, map_fn: F) -> (p: MapP<P, F>)
    ensures
        p == (MapP { parser, map_fn }),
{
    MapP { parser, map_fn }
}

/// Projection: sequencing that keeps only the first produced value.
pub struct LeftP<P1, P2> {
    pub p1: P1,
    pub p2: P2,
}

impl<P1: Parser, P2: Parser> Parser for LeftP<P1, P2> {
    type Output = P1::Output;

    open spec fn spec_parse(&self, input: Seq<char>) -> SpecResult<<P1::Output as DeepView>::V> {
        match self.p1.spec_parse(input) {
            Ok((rest1, v1)) => match self.p2.spec_parse(rest1) {
                Ok((rest2, _)) => Ok((rest2, v1)),
                Err(e) => Err(e),
            },
            Err(e) => Err(e),
        }
    }

    fn parse<'a>(&self, input: &'a str) -> (r: ParseResult<'a, P1::Output>) {
        match self.p1.parse(input) {
            Ok((rest1, v1)) => match self.p2.parse(rest1) {
                Ok((rest2, _)) => Ok((rest2, v1)),
                Err(e) => Err(e),
            },
            Err(e) => Err(e),
        }
    }
    proof fn lemma_parse_suffix(&self, input: Seq<char>) {
        self.p1.lemma_parse_suffix(input);
        match self.p1.spec_parse(input) {
            Ok((r1, _)) => {
                self.p2.lemma_parse_suffix(r1);
                lemma_suffix_trans(spec_rest(self.p2.spec_parse(r1)), r1, input);
            },
            Err(_) => {},
        }
    }
}

/// Sequencing that discards the second value: both parsers must succeed.
pub fn left<P1: Parser, P2: Parser>(parser1: P1, parser2: P2) -> (p: LeftP<P1, P2>)
    ensures
        p == (LeftP { p1: parser1, p2: parser2 }),
{
    LeftP { p1: parser1, p2: parser2 }
}

/// Projection: sequencing that keeps only the second produced value.
pub struct RightP<P1, P2> {
    pub p1: P1,
    pub p2: P2,
}

impl<P1: Parser, P2: Parser> Parser for RightP<P1, P2> {
    type Output = P2::Output;

    open spec fn spec_parse(&self, input: Seq<char>) -> SpecResult<<P2::Output as DeepView>::V> {
        match self.p1.spec_parse(input) {
            Ok((rest1, _)) => match self.p2.spec_parse(rest1) {
                Ok((rest2, v2)) => Ok((rest2, v2)),
                Err(e) => Err(e),
            },
            Err(e) => Err(e),
        }
    }

    fn parse<'a>(&self, input: &'a str) -> (r: ParseResult<'a, P2::Output>) {
        match self.p1.parse(input) {
            Ok((rest1, _)) => match self.p2.parse(rest1) {
                Ok((rest2, v2)) => Ok((rest2, v2)),
                Err(e) => Err(e),
            },
            Err(e) => Err(e),
        }
    }
    proof fn lemma_parse_suffix(&self, input: Seq<char>) {
        self.p1.lemma_parse_suffix(input);
        match self.p1.spec_parse(input) {
            Ok((r1, _)) => {
                self.p2.lemma_parse_suffix(r1);
                lemma_suffix_trans(spec_rest(self.p2.spec_parse(r1)), r1, input);
            },
            Err(_) => {},
        }
    }
}

/// Sequencing that discards the first value: both parsers must succeed.
pub fn right<P1: Parser, P2: Parser>(parser1: P1, parser2: P2) -> (p: RightP<P1, P2>)
    ensures
        p == (RightP { p1: parser1, p2: parser2 }),
{
    RightP { p1: parser1, p2: parser2 }
}

/// Alternation: tries the first parser; if it fails, tries the second on the
/// same original input (full backtrack); fails only if both fail, reporting
/// the second parser's failure input.
pub struct EitherP<P1, P2> {
    pub p1: P1,
    pub p2: P2,
}

impl<P1: Parser, P2: Parser<Output = P1::Output>> Parser for EitherP<P1, P2> {
    type Output = P1::Output;

    open spec fn spec_parse(&self, input: Seq<char>) -> SpecResult<<P1::Output as DeepView>::V> {
        match self.p1.spec_parse(input) {
            Ok(ok) => Ok(ok),
            Err(_) => self.p2.spec_parse(input),
        }
    }

    fn parse<'a>(&self, input: &'a str) -> (r: ParseResult<'a, P1::Output>) {
        match self.p1.parse(input) {
            Ok(ok) => Ok(ok),
            Err(_) => self.p2.parse(input),
        }
    }
    proof fn lemma_parse_suffix(&self, input: Seq<char>) {
        self.p1.lemma_parse_suffix(input);
        self.p2.lemma_parse_suffix(input);
    }
}

/// Tries `parser1`, then `parser2` from the same starting position.
pub fn either<P1: Parser, P2: Parser<Output = P1::Output>>(parser1: P1, parser2: P2) -> (p:
    EitherP<P1, P2>)
    ensures
        p == (EitherP { p1: parser1, p2: parser2 }),
{
    EitherP { p1: parser1, p2: parser2 }
}

/// A boolean predicate over a parser's produced value, as used by `pred`.
pub trait PredFn: Sized {
    type In: DeepView;

    /// The predicate, on the view of the value.
    spec fn spec_call(&self, v: <Self::In as DeepView>::V) -> bool;

    /// Decide the predicate.
    fn call(&self, v: &Self::In) -> (r: bool)
        ensures
            r == self.spec_call(v.deep_view()),
    ;
}

/// Predicate filter: runs the underlying parser and requires the predicate to
/// hold of the produced value; when the predicate rejects the value, the
/// whole operation fails, reporting the original input to this operation.
pub struct PredP<P, F> {
    pub parser: P,
    pub predicate: F,
}

impl<F: PredFn, P: Parser<Output = F::In>> Parser for PredP<P, F> {
    type Output = F::In;

    open spec fn spec_parse(&self, input: Seq<char>) -> SpecResult<<F::In as DeepView>::V> {
        match self.parser.spec_parse(input) {
            Ok((rest, v)) => if self.predicate.spec_call(v) {
                Ok((rest, v))
            } else {
                Err(input)
            },
            Err(e) => Err(e),
        }
    }

    fn parse<'a>(&self, input: &'a str) -> (r: ParseResult<'a, F::In>) {
        match self.parser.parse(input) {
            Ok((rest, v)) => if self.predicate.call(&v) {
                Ok((rest, v))
            } else {
                Err(input)
            },
            Err(e) => Err(e),
        }
    }
    proof fn lemma_parse_suffix(&self, input: Seq<char>) {
        self.parser.lemma_parse_suffix(input);
        lemma_suffix_refl(input);
    }
}

/// The parser that accepts what `parser` produces only when `predicate`
/// holds of the produced value.
pub fn pred<F: PredFn, P: Parser<Output = F::In>>(parser: P, predicate: F) -> (p: PredP<P, F>)
    ensures
        p == (PredP { parser, predicate }),
{
    PredP { parser, predicate }
}

/// A function from a produced value to a follow-on parser, as used by
/// `and_then`: what comes next may depend on what was just parsed.
pub trait AndThenFn: Sized {
    type In: DeepView;

    type OutVal: DeepView;

    type OutParser: Parser<Output = Self::OutVal>;

    /// What the follow-on parser built from value `v` returns on `input`.
    spec fn spec_then(&self, v: <Self::In as DeepView>::V, input: Seq<char>) -> SpecResult<
        <Self::OutVal as DeepView>::V,
    >;

    /// Build the follow-on parser from the produced value.
    fn call(&self, v: Self::In) -> (p: Self::OutParser)
        ensures
            forall|s: Seq<char>| #[trigger] p.spec_parse(s) == self.spec_then(v.deep_view(), s),
    ;

    /// On success and on failure alike, the remainder of the follow-on parse
    /// is a suffix of the input handed to it.
    proof fn lemma_then_suffix(&self, v: <Self::In as DeepView>::V, input: Seq<char>)
        ensures
            is_suffix_of(spec_rest(self.spec_then(v, input)), input),
    ;
}

/// Dependent sequencing: runs the first parser, feeds its produced value into
/// a function that yields a new parser, and runs that parser on the
/// remainder; fails with whichever step failed.
pub struct AndThenP<P1, F> {
    pub first: P1,
    pub op: F,
}

impl<F: AndThenFn, P1: Parser<Output = F::In>> Parser for AndThenP<P1, F> {
    type Output = F::OutVal;

    open spec fn spec_parse(&self, input: Seq<char>) -> SpecResult<<F::OutVal as DeepView>::V> {
        match self.first.spec_parse(input) {
            Ok((rest, v)) => self.op.spec_then(v, rest),
            Err(e) => Err(e),
        }
    }

    fn parse<'a>(&self, input: &'a str) -> (r: ParseResult<'a, F::OutVal>) {
        match self.first.parse(input) {
            Ok((rest, v)) => {
                let next = self.op.call(v);
                next.parse(rest)
            },
            Err(e) => Err(e),
        }
    }
    proof fn lemma_parse_suffix(&self, input: Seq<char>) {
        self.first.lemma_parse_suffix(input);
        match self.first.spec_parse(input) {
            Ok((r1, v)) => {
                self.op.lemma_then_suffix(v, r1);
                lemma_suffix_trans(spec_rest(self.op.spec_then(v, r1)), r1, input);
            },
            Err(_) => {},
        }
    }
}

/// The parser that runs `parser`, then the parser that `op` builds from the
/// produced value.
pub fn and_then<F: AndThenFn, P1: Parser<Output = F::In>>(parser: P1, op: F) -> (p: AndThenP<
    P1,
    F,
>)
    ensures
        p == (AndThenP { first: parser, op }),
{
    AndThenP { first: parser, op }
}

/// Greedy repetition: the produced values of running `p` again and again,
/// together with the final remainder. The repetition stops at the first
/// attempt that fails, or that succeeds without consuming input (the value of
/// such an attempt is discarded, since repeating it could never terminate).
pub open spec fn spec_repeat0<P: Parser>(p: P, input: Seq<char>) -> (Seq<
    <P::Output as DeepView>::V,
>, Seq<char>)
    decreases input.len(),
{
    match p.spec_parse(input) {
        Ok((rest, v)) => {
            if rest.len() < input.len() {
                let (vs, rest2) = spec_repeat0(p, rest);
                (seq![v] + vs, rest2)
            } else {
                (seq![], input)
            }
        },
        Err(_) => (seq![], input),
    }
}

/// Repetition never returns more remaining input than it was given.
pub proof fn lemma_repeat0_rest_len<P: Parser>(p: P, input: Seq<char>)
    ensures
        spec_repeat0(p, input).1.len() <= input.len(),
    decreases input.len(),
{
    match p.spec_parse(input) {
        Ok((rest, v)) => {
            if rest.len() < input.len() {
                lemma_repeat0_rest_len(p, rest);
            }
        },
        Err(_) => {},
    }
}

/// The repetition's remainder is a suffix of the input, provided that each
/// attempt's remainder is a suffix of what that attempt was given.
pub proof fn lemma_repeat0_suffix<P: Parser>(p: P, input: Seq<char>)
    requires
        forall|s: Seq<char>| is_suffix_of(spec_rest(#[trigger] p.spec_parse(s)), s),
    ensures
        is_suffix_of(spec_repeat0(p, input).1, input),
    decreases input.len(),
{
    match p.spec_parse(input) {
        Ok((rest, _)) => {
            if rest.len() < input.len() {
                lemma_repeat0_suffix(p, rest);
                lemma_suffix_trans(spec_repeat0(p, rest).1, rest, input);
            } else {
                lemma_suffix_refl(input);
            }
        },
        Err(_) => {
            lemma_suffix_refl(input);
        },
    }
}

/// As `lemma_repeat0_suffix`, when at least one success is required.
pub proof fn lemma_repeat1_suffix<P: Parser>(p: P, input: Seq<char>)
    requires
        forall|s: Seq<char>| is_suffix_of(spec_rest(#[trigger] p.spec_parse(s)), s),
    ensures
        is_suffix_of(spec_rest(spec_repeat1(p, input)), input),
{
    match p.spec_parse(input) {
        Ok((rest, _)) => {
            if rest.len() < input.len() {
                lemma_repeat0_suffix(p, rest);
                lemma_suffix_trans(spec_repeat0(p, rest).1, rest, input);
            }
        },
        Err(_) => {
            lemma_suffix_refl(input);
        },
    }
}

/// Zero-or-more repetition: never fails; an empty match consuming no input is
/// a valid success. An attempt that succeeds without consuming input ends the
/// repetition.
pub struct ZeroOrMoreP<P> {
    pub parser: P,
}

impl<P: Parser> Parser for ZeroOrMoreP<P> {
    type Output = Vec<P::Output>;

    open spec fn spec_parse(&self, input: Seq<char>) -> SpecResult<
        Seq<<P::Output as DeepView>::V>,
    > {
        let (vs, rest) = spec_repeat0(self.parser, input);
        Ok((rest, vs))
    }

    fn parse<'a>(&self, input: &'a str) -> (r: ParseResult<'a, Vec<P::Output>>) {
        let mut results: Vec<P::Output> = Vec::new();
        let mut cur: &'a str = input;
        let mut cur_len: usize = cur.unicode_len();
        loop
            invariant
                cur_len == cur@.len(),
                spec_repeat0(self.parser, input@).0 == results.deep_view() + spec_repeat0(
                    self.parser,
                    cur@,
                ).0,
                spec_repeat0(self.parser, input@).1 == spec_repeat0(self.parser, cur@).1,
            ensures
                spec_repeat0(self.parser, input@).0 == results.deep_view() + spec_repeat0(
                    self.parser,
                    cur@,
                ).0,
                spec_repeat0(self.parser, input@).1 == spec_repeat0(self.parser, cur@).1,
                spec_repeat0(self.parser, cur@).0 == Seq::<<P::Output as DeepView>::V>::empty(),
                spec_repeat0(self.parser, cur@).1 == cur@,
            decreases cur@.len(),
        {
            match self.parser.parse(cur) {
                Ok((next, v)) => {
                    let next_len = next.unicode_len();
                    if next_len < cur_len {
                        proof {
                            let (vs, rest2) = spec_repeat0(self.parser, next@);
                            assert(spec_repeat0(self.parser, cur@).0 =~= seq![v.deep_view()] + vs);
                            assert(results.deep_view().push(v.deep_view()) =~= results.deep_view()
                                + seq![v.deep_view()]);
                            assert((results.deep_view() + seq![v.deep_view()]) + vs
                                =~= results.deep_view() + (seq![v.deep_view()] + vs));
                        }
                        results.push(v);
                        cur = next;
                        cur_len = next_len;
                    } else {
                        proof {
                            assert(spec_repeat0(self.parser, cur@).0 =~= seq![]);
                        }
                        break;
                    }
                },
                Err(_) => {
                    proof {
                        assert(spec_repeat0(self.parser, cur@).0 =~= seq![]);
                    }
                    break;
                },
            }
        }
        proof {
            assert(results.deep_view() + spec_repeat0(self.parser, cur@).0
                =~= results.deep_view());
        }
        Ok((cur, results))
    }
    proof fn lemma_parse_suffix(&self, input: Seq<char>) {
        assert forall|s: Seq<char>|
            is_suffix_of(spec_rest(#[trigger] self.parser.spec_parse(s)), s) by {
            self.parser.lemma_parse_suffix(s);
        }
        lemma_repeat0_suffix(self.parser, input);
    }
}

/// Zero or more repetitions of `parser`.
pub fn zero_or_more<P: Parser>(parser: P) -> (p: ZeroOrMoreP<P>)
    ensures
        p == (ZeroOrMoreP { parser }),
{
    ZeroOrMoreP { parser }
}

/// One-or-more repetition: the first attempt must succeed; greedy repetition
/// then continues as in `spec_repeat0`.
pub open spec fn spec_repeat1<P: Parser>(p: P, input: Seq<char>) -> SpecResult<
    Seq<<P::Output as DeepView>::V>,
> {
    match p.spec_parse(input) {
        Ok((rest, v)) => {
            if rest.len() < input.len() {
                let (vs, rest2) = spec_repeat0(p, rest);
                Ok((rest2, seq![v] + vs))
            } else {
                Ok((rest, seq![v]))
            }
        },
        Err(e) => Err(e),
    }
}

/// One-or-more repetition: requires the underlying parser to succeed at least
/// once, then repeats greedily; fails, propagating the failure, if the very
/// first attempt fails. An attempt that succeeds without consuming input ends
/// the repetition.
pub struct OneOrMoreP<P> {
    pub parser: P,
}

impl<P: Parser> Parser for OneOrMoreP<P> {
    type Output = Vec<P::Output>;

    open spec fn spec_parse(&self, input: Seq<char>) -> SpecResult<
        Seq<<P::Output as DeepView>::V>,
    > {
        spec_repeat1(self.parser, input)
    }

    fn parse<'a>(&self, input: &'a str) -> (r: ParseResult<'a, Vec<P::Output>>) {
        let input_len = input.unicode_len();
        match self.parser.parse(input) {
            Err(e) => Err(e),
            Ok((first_rest, first_v)) => {
                let first_rest_len = first_rest.unicode_len();
                let mut results: Vec<P::Output> = Vec::new();
                if first_rest_len >= input_len {
                    results.push(first_v);
                    proof {
                        assert(results.deep_view() =~= seq![first_v.deep_view()]);
                    }
                    return Ok((first_rest, results));
                }
                results.push(first_v);
                let mut cur: &'a str = first_rest;
                let mut cur_len: usize = first_rest_len;
                proof {
                    assert(results.deep_view() =~= seq![first_v.deep_view()]);
                }
                loop
                    invariant
                        cur_len == cur@.len(),
                        seq![first_v.deep_view()] + spec_repeat0(self.parser, first_rest@).0
                            == results.deep_view() + spec_repeat0(self.parser, cur@).0,
                        spec_repeat0(self.parser, first_rest@).1 == spec_repeat0(
                            self.parser,
                            cur@,
                        ).1,
                    ensures
                        seq![first_v.deep_view()] + spec_repeat0(self.parser, first_rest@).0
                            == results.deep_view() + spec_repeat0(self.parser, cur@).0,
                        spec_repeat0(self.parser, first_rest@).1 == spec_repeat0(
                            self.parser,
                            cur@,
                        ).1,
                        spec_repeat0(self.parser, cur@).0 == Seq::<
                            <P::Output as DeepView>::V,
                        >::empty(),
                        spec_repeat0(self.parser, cur@).1 == cur@,
                    decreases cur@.len(),
                {
                    match self.parser.parse(cur) {
                        Ok((next, v)) => {
                            let next_len = next.unicode_len();
                            if next_len < cur_len {
                                proof {
                                    let (vs, rest2) = spec_repeat0(self.parser, next@);
                                    assert(spec_repeat0(self.parser, cur@).0 =~= seq![
                                        v.deep_view(),
                                    ] + vs);
                                    assert(results.deep_view().push(v.deep_view())
                                        =~= results.deep_view() + seq![v.deep_view()]);
                                    assert((results.deep_view() + seq![v.deep_view()]) + vs
                                        =~= results.deep_view() + (seq![v.deep_view()] + vs));
                                }
                                results.push(v);
                                cur = next;
                                cur_len = next_len;
                            } else {
                                proof {
                                    assert(spec_repeat0(self.parser, cur@).0 =~= seq![]);
                                }
                                break;
                            }
                        },
                        Err(_) => {
                            proof {
                                assert(spec_repeat0(self.parser, cur@).0 =~= seq![]);
                            }
                            break;
                        },
                    }
                }
                proof {
                    assert(results.deep_view() + spec_repeat0(self.parser, cur@).0
                        =~= results.deep_view());
                    assert(seq![first_v.deep_view()] + spec_repeat0(self.parser, first_rest@).0
                        =~= results.deep_view());
                }
                Ok((cur, results))
            },
        }
    }
    proof fn lemma_parse_suffix(&self, input: Seq<char>) {
        assert forall|s: Seq<char>|
            is_suffix_of(spec_rest(#[trigger] self.parser.spec_parse(s)), s) by {
            self.parser.lemma_parse_suffix(s);
        }
        lemma_repeat1_suffix(self.parser, input);
    }
}

/// One or more repetitions of `parser`.
pub fn one_or_more<P: Parser>(parser: P) -> (p: OneOrMoreP<P>)
    ensures
        p == (OneOrMoreP { parser }),
{
    OneOrMoreP { parser }
}

/// A parser held behind a heap indirection; parsing delegates to the held
/// parser unchanged.
pub struct BoxedParser<P> {
    pub parser: Box<P>,
}

impl<P: Parser> BoxedParser<P> {
    /// Box up `parser`.
    pub fn new(parser: P) -> (r: Self)
        ensures
            *r.parser == parser,
    {
        BoxedParser { parser: Box::new(parser) }
    }
}

impl<P: Parser> Parser for BoxedParser<P> {
    type Output = P::Output;

    open spec fn spec_parse(&self, input: Seq<char>) -> SpecResult<<P::Output as DeepView>::V> {
        (*self.parser).spec_parse(input)
    }

    fn parse<'a>(&self, input: &'a str) -> (r: ParseResult<'a, P::Output>) {
        (*self.parser).parse(input)
    }
    proof fn lemma_parse_suffix(&self, input: Seq<char>) {
        (*self.parser).lemma_parse_suffix(input);
    }
}

} // verus!
