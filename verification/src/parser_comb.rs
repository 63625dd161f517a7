//! The parser combinator engine.
//!
//! A parser is described by the outcomes it admits: `accepts(input, value,
//! rest)` says that on `input` it may succeed with `value` and leave `rest`;
//! `rejects(input)` says that on `input` it may fail. Running a parser yields
//! one of the outcomes it admits, so a parser whose description admits a single
//! outcome on an input is pinned down on that input. A combinator's
//! description is built from those of its parts, in the words of
//! [`crate::semantics`].
//!
//! `Until` does not consume its terminator: follow it with a parser that does,
//! as in `quote.flat_map(..until(quote)).zip_left(quote)`.
use crate::semantics::{
    accepts_then, consumes, flat_map_accepts, flat_map_rejects, fn_accepts, fn_rejects, fn_wf,
    is_scan, is_trace, lemma_flat_map_same_language, lemma_many_same_language,
    lemma_mapped_same_language, lemma_scan_push, lemma_suffix_trans_opt,
    lemma_then_same_language, lemma_then_suffix, lemma_trace_push, lemma_trace_suffix,
    lemma_until_same_language, many_accepts, mapped_accepts, matches_one_of, may_leave_input,
    may_succeed, rejects_then, same_language, takes_one_of, until_accepts, until_rejects,
};
use crate::text::{
    contains_char, is_suffix, lemma_skip_is_suffix, lemma_suffix_refl, lemma_suffix_trans,
    range_contains, range_is_empty, split_first,
};
use core::marker::PhantomData;
use core::ops::RangeInclusive;
use crate::laws::lemma_mapped;
use vstd::prelude::*;

verus! {

/// The input did not match. It says neither where nor why.
#[derive(Debug, PartialEq, Eq)]
pub struct Error;

impl Clone for Error {
    fn clone(&self) -> (res: Self)
        ensures
            res == *self,
    {
        Error
    }
}

/// A description of how to consume a prefix of a text and produce a value.
///
/// `parse` takes `&mut self`, so a parser may keep state of its own between
/// runs; the outcomes it admits may not depend on that state.
pub trait Parser: Sized {
    /// What a successful run produces.
    type Output;

    /// What must hold of the parser for it to be run.
    spec fn wf(&self) -> bool;

    /// On `input` the parser may succeed with `value`, leaving `rest`.
    spec fn accepts(&self, input: Seq<char>, value: Self::Output, rest: Seq<char>) -> bool;

    /// On `input` the parser may fail.
    spec fn rejects(&self, input: Seq<char>) -> bool;

    /// A parser consumes a prefix of its input: what it leaves is a suffix.
    proof fn lemma_accepts_suffix(&self, input: Seq<char>, value: Self::Output, rest: Seq<char>)
        requires
            self.wf(),
            self.accepts(input, value, rest),
        ensures
            is_suffix(rest, input),
    ;

    /// Runs the parser on `input`.
    ///
    /// The result is an outcome that the parser admits on `input`, a
    /// remainder is a suffix of `input`, and the parser is left well-formed
    /// and admitting what it admitted before.
    fn parse<'s>(&mut self, input: &'s str) -> (res: Result<(Self::Output, &'s str), Error>)
        requires
            old(self).wf(),
        ensures
            final(self).wf(),
            forall|i: Seq<char>, v: Self::Output, r: Seq<char>|
                #![trigger old(self).accepts(i, v, r)]
                #![trigger final(self).accepts(i, v, r)]
                old(self).accepts(i, v, r) == final(self).accepts(i, v, r),
            forall|i: Seq<char>|
                #![trigger old(self).rejects(i)]
                #![trigger final(self).rejects(i)]
                old(self).rejects(i) == final(self).rejects(i),
            match res {
                Ok((value, rest)) => old(self).accepts(input@, value, rest@) && is_suffix(
                    rest@,
                    input@,
                ),
                Err(_) => old(self).rejects(input@),
            },
    ;

    /// Tries `self`, and `parser` on the same input if `self` fails.
    fn or<P>(self, parser: P) -> (res: Or<Self, P>)
        ensures
            res.first == self,
            res.second == parser,
    {
        Or { first: self, second: parser }
    }

    /// Passes the value of `self` through `f`.
    fn map<F, T>(self, f: F) -> (res: Mapped<Self, F, T>) where F: FnMut(Self::Output) -> T
        ensures
            res.parser == self,
            res.f == f,
    {
        Mapped { parser: self, f, marker: PhantomData }
    }

    /// Runs `self`, then the parser that `f` makes of its value.
    fn flat_map<F, P>(self, f: F) -> (res: FlatMap<Self, F, P>) where F: FnMut(Self::Output) -> P
        ensures
            res.parser == self,
            res.f == f,
    {
        FlatMap { parser: self, f, marker: PhantomData }
    }

    /// Runs `self` then `parser`, and keeps the value of `self`.
    fn zip_left<P>(self, parser: P) -> (res: ZipLeft<Self, P>)
        ensures
            res.left == self,
            res.right == parser,
    {
        ZipLeft { left: self, right: parser }
    }

    /// Runs `self` then `parser`, and keeps the value of `parser`.
    fn zip_right<P>(self, parser: P) -> (res: ZipRight<Self, P>)
        ensures
            res.left == self,
            res.right == parser,
    {
        ZipRight { left: self, right: parser }
    }

    /// Repeats `self` until `parser` matches, without consuming that match.
    fn until<P>(self, parser: P) -> (res: Until<Self, P>)
        ensures
            res.parser == self,
            res.until == parser,
    {
        Until { parser: self, until: parser }
    }
}

/// Runs `parser` on the whole of `input`.
///
/// It succeeds with the parser's value when the parser succeeds and leaves
/// nothing; it fails when the parser fails, and when the parser leaves a part
/// of the input unconsumed.
pub fn parse<P: Parser>(parser: P, input: &str) -> (res: Result<P::Output, Error>)
    requires
        parser.wf(),
    ensures
        match res {
            Ok(value) => parser.accepts(input@, value, Seq::empty()),
            Err(_) => parser.rejects(input@) || may_leave_input(parser, input@),
        },
{
    let mut parser = parser;
    let (parsed, rest) = parser.parse(input)?;
    if rest.is_empty() {
        assert(rest@ =~= Seq::empty());
        Ok(parsed)
    } else {
        Err(Error)
    }
}

/// The result of an alternation: which branch matched, and its value.
#[derive(Debug, PartialEq, Eq)]
pub enum Either<A, B> {
    /// The first branch matched.
    A(A),
    /// The first branch failed and the second matched.
    B(B),
}

/// Collapses a value to the type `T` that all its branches share.
pub trait Get<T> {
    /// The value that `get` returns.
    spec fn spec_get(self) -> T;

    /// The value of the branch taken, collapsed in turn.
    fn get(self) -> (res: T)
        ensures
            res == self.spec_get(),
    ;
}

impl<T> Get<T> for T {
    open spec fn spec_get(self) -> T {
        self
    }

    fn get(self) -> T {
        self
    }
}

impl<A, B> Get<B> for Either<A, B> where A: Get<B>, B: Get<B> {
    open spec fn spec_get(self) -> B {
        match self {
            Either::A(a) => a.spec_get(),
            Either::B(b) => b.spec_get(),
        }
    }

    #[inline]
    fn get(self) -> B {
        match self {
            Either::A(a) => a.get(),
            Either::B(b) => b.get(),
        }
    }
}

/// See [`Parser::or`].
#[derive(Debug, PartialEq, Eq)]
pub struct Or<P, Q> {
    pub first: P,
    pub second: Q,
}

impl<P: Clone, Q: Clone> Clone for Or<P, Q> {
    fn clone(&self) -> Self {
        Or { first: self.first.clone(), second: self.second.clone() }
    }
}

impl<P, Q> Parser for Or<P, Q> where P: Parser, Q: Parser {
    type Output = Either<P::Output, Q::Output>;

    open spec fn wf(&self) -> bool {
        self.first.wf() && self.second.wf()
    }

    /// The first branch succeeds, or it fails and the second succeeds on the
    /// same input.
    open spec fn accepts(&self, input: Seq<char>, value: Self::Output, rest: Seq<char>) -> bool {
        match value {
            Either::A(a) => self.first.accepts(input, a, rest),
            Either::B(b) => self.first.rejects(input) && self.second.accepts(input, b, rest),
        }
    }

    /// Both branches fail.
    open spec fn rejects(&self, input: Seq<char>) -> bool {
        self.first.rejects(input) && self.second.rejects(input)
    }

    proof fn lemma_accepts_suffix(&self, input: Seq<char>, value: Self::Output, rest: Seq<char>) {
        match value {
            Either::A(a) => self.first.lemma_accepts_suffix(input, a, rest),
            Either::B(b) => self.second.lemma_accepts_suffix(input, b, rest),
        }
    }

    /// The second branch is run only where the first has failed.
    fn parse<'s>(&mut self, input: &'s str) -> (res: Result<(Self::Output, &'s str), Error>)
        ensures
            res matches Ok((Either::A(_), _)) ==> final(self).second == old(self).second,
    {
        if let Ok((parsed, rest)) = self.first.parse(input) {
            Ok((Either::A(parsed), rest))
        } else {
            let (parsed, rest) = self.second.parse(input)?;
            Ok((Either::B(parsed), rest))
        }
    }
}

/// See [`Parser::zip_left`].
#[derive(Debug, PartialEq, Eq)]
pub struct ZipLeft<P, Q> {
    pub left: P,
    pub right: Q,
}

impl<P: Clone, Q: Clone> Clone for ZipLeft<P, Q> {
    fn clone(&self) -> Self {
        ZipLeft { left: self.left.clone(), right: self.right.clone() }
    }
}

impl<P, Q> Parser for ZipLeft<P, Q> where P: Parser, Q: Parser {
    type Output = P::Output;

    open spec fn wf(&self) -> bool {
        self.left.wf() && self.right.wf()
    }

    /// Both succeed in turn; the value is that of the left one.
    open spec fn accepts(&self, input: Seq<char>, value: Self::Output, rest: Seq<char>) -> bool {
        exists|dropped: Q::Output| accepts_then(self.left, self.right, input, value, dropped, rest)
    }

    /// The left one fails, or the right one fails on what the left one left.
    open spec fn rejects(&self, input: Seq<char>) -> bool {
        rejects_then(self.left, self.right, input)
    }

    proof fn lemma_accepts_suffix(&self, input: Seq<char>, value: Self::Output, rest: Seq<char>) {
        let dropped = choose|dropped: Q::Output|
            accepts_then(self.left, self.right, input, value, dropped, rest);
        lemma_then_suffix(self.left, self.right, input, value, dropped, rest);
    }

    /// The right parser is run only where the left one has succeeded.
    fn parse<'s>(&mut self, input: &'s str) -> (res: Result<(Self::Output, &'s str), Error>)
        ensures
            !may_succeed(old(self).left, input@) ==> final(self).right == old(self).right,
    {
        let first = self.left.parse(input);
        proof {
            lemma_then_same_language(old(self).left, self.left, old(self).right, self.right);
        }
        let (parsed, mid) = first?;
        let second = self.right.parse(mid);
        proof {
            lemma_then_same_language(old(self).left, self.left, old(self).right, self.right);
            lemma_suffix_trans_opt(second, mid@, input@);
        }
        match second {
            Ok((dropped, rest)) => {
                assert(accepts_then(
                    old(self).left,
                    old(self).right,
                    input@,
                    parsed,
                    dropped,
                    rest@,
                ));
                Ok((parsed, rest))
            },
            Err(e) => {
                assert(old(self).left.accepts(input@, parsed, mid@) && old(self).right.rejects(
                    mid@,
                ));
                Err(e)
            },
        }
    }
}

/// See [`Parser::zip_right`].
#[derive(Debug, PartialEq, Eq)]
pub struct ZipRight<P, Q> {
    pub left: P,
    pub right: Q,
}

impl<P: Clone, Q: Clone> Clone for ZipRight<P, Q> {
    fn clone(&self) -> Self {
        ZipRight { left: self.left.clone(), right: self.right.clone() }
    }
}

impl<P, Q> Parser for ZipRight<P, Q> where P: Parser, Q: Parser {
    type Output = Q::Output;

    open spec fn wf(&self) -> bool {
        self.left.wf() && self.right.wf()
    }

    /// Both succeed in turn; the value is that of the right one.
    open spec fn accepts(&self, input: Seq<char>, value: Self::Output, rest: Seq<char>) -> bool {
        exists|dropped: P::Output| accepts_then(self.left, self.right, input, dropped, value, rest)
    }

    /// The left one fails, or the right one fails on what the left one left.
    open spec fn rejects(&self, input: Seq<char>) -> bool {
        rejects_then(self.left, self.right, input)
    }

    proof fn lemma_accepts_suffix(&self, input: Seq<char>, value: Self::Output, rest: Seq<char>) {
        let dropped = choose|dropped: P::Output|
            accepts_then(self.left, self.right, input, dropped, value, rest);
        lemma_then_suffix(self.left, self.right, input, dropped, value, rest);
    }

    /// The right parser is run only where the left one has succeeded.
    fn parse<'s>(&mut self, input: &'s str) -> (res: Result<(Self::Output, &'s str), Error>)
        ensures
            !may_succeed(old(self).left, input@) ==> final(self).right == old(self).right,
    {
        let first = self.left.parse(input);
        proof {
            lemma_then_same_language(old(self).left, self.left, old(self).right, self.right);
        }
        let (dropped, mid) = first?;
        let second = self.right.parse(mid);
        proof {
            lemma_then_same_language(old(self).left, self.left, old(self).right, self.right);
            lemma_suffix_trans_opt(second, mid@, input@);
        }
        match second {
            Ok((parsed, rest)) => {
                assert(accepts_then(
                    old(self).left,
                    old(self).right,
                    input@,
                    dropped,
                    parsed,
                    rest@,
                ));
                Ok((parsed, rest))
            },
            Err(e) => {
                assert(old(self).left.accepts(input@, dropped, mid@) && old(self).right.rejects(
                    mid@,
                ));
                Err(e)
            },
        }
    }
}

/// See [`Parser::map`]. `T` is the type of the values that `f` returns.
///
/// Where `f` is a closure, Verus learns what this parser admits from
/// [`lemma_mapped`], and reasons about its values most easily where the
/// parser is handed on as an `impl Parser`.
#[derive(Debug, PartialEq, Eq)]
pub struct Mapped<P, F, T> {
    pub parser: P,
    pub f: F,
    pub marker: PhantomData<T>,
}

impl<P: Clone, F: Clone, T> Clone for Mapped<P, F, T> {
    fn clone(&self) -> Self {
        Mapped { parser: self.parser.clone(), f: self.f.clone(), marker: PhantomData }
    }
}

impl<P, F, T> Parser for Mapped<P, F, T> where P: Parser, F: FnMut(P::Output) -> T {
    type Output = T;

    /// The inner parser is well-formed and `f` takes every value.
    open spec fn wf(&self) -> bool {
        &&& self.parser.wf()
        &&& forall|inner: P::Output| #[trigger] call_requires(self.f, (inner,))
    }

    open spec fn accepts(&self, input: Seq<char>, value: T, rest: Seq<char>) -> bool {
        mapped_accepts(self.parser, self.f, input, value, rest)
    }

    /// A failure of the inner parser passes through unchanged.
    open spec fn rejects(&self, input: Seq<char>) -> bool {
        self.parser.rejects(input)
    }

    proof fn lemma_accepts_suffix(&self, input: Seq<char>, value: Self::Output, rest: Seq<char>) {
        let inner = choose|inner: P::Output| #[trigger]
            self.parser.accepts(input, inner, rest) && call_ensures(self.f, (inner,), value);
        self.parser.lemma_accepts_suffix(input, inner, rest);
    }

    fn parse<'s>(&mut self, input: &'s str) -> (res: Result<(Self::Output, &'s str), Error>) {
        let inner = self.parser.parse(input);
        proof {
            lemma_mapped_same_language(old(self).parser, self.parser, self.f);
        }
        let (parsed, rest) = inner?;
        let value = (self.f)(parsed);
        assert(old(self).parser.accepts(input@, parsed, rest@) && call_ensures(
            self.f,
            (parsed,),
            value,
        ));
        Ok((value, rest))
    }
}

/// See [`Parser::flat_map`]. `Q` is the type of the parsers that `f` returns.
#[derive(Debug, PartialEq, Eq)]
pub struct FlatMap<P, F, Q> {
    pub parser: P,
    pub f: F,
    pub marker: PhantomData<Q>,
}

impl<P: Clone, F: Clone, Q> Clone for FlatMap<P, F, Q> {
    fn clone(&self) -> Self {
        FlatMap { parser: self.parser.clone(), f: self.f.clone(), marker: PhantomData }
    }
}

impl<P, F, Q> Parser for FlatMap<P, F, Q> where P: Parser, F: FnMut(P::Output) -> Q, Q: Parser {
    type Output = Q::Output;

    /// The inner parser is well-formed, `f` takes every value, and the
    /// parsers it returns are well-formed.
    open spec fn wf(&self) -> bool {
        &&& self.parser.wf()
        &&& forall|inner: P::Output| #[trigger] call_requires(self.f, (inner,))
        &&& forall|inner: P::Output, next: Q| #[trigger]
            call_ensures(self.f, (inner,), next) ==> next.wf()
    }

    open spec fn accepts(&self, input: Seq<char>, value: Self::Output, rest: Seq<char>) -> bool {
        flat_map_accepts(self.parser, self.f, input, value, rest)
    }

    open spec fn rejects(&self, input: Seq<char>) -> bool {
        flat_map_rejects(self.parser, self.f, input)
    }

    proof fn lemma_accepts_suffix(&self, input: Seq<char>, value: Self::Output, rest: Seq<char>) {
        let (inner, mid, next) = choose|inner: P::Output, mid: Seq<char>, next: Q|
            #![trigger self.parser.accepts(input, inner, mid), next.accepts(mid, value, rest)]
            self.parser.accepts(input, inner, mid) && call_ensures(self.f, (inner,), next)
                && next.accepts(mid, value, rest);
        self.parser.lemma_accepts_suffix(input, inner, mid);
        next.lemma_accepts_suffix(mid, value, rest);
        lemma_suffix_trans(rest, mid, input);
    }

    fn parse<'s>(&mut self, input: &'s str) -> (res: Result<(Self::Output, &'s str), Error>) {
        let inner = self.parser.parse(input);
        proof {
            lemma_flat_map_same_language(old(self).parser, self.parser, self.f);
        }
        let (parsed, mid) = inner?;
        let mut next = (self.f)(parsed);
        let ghost made = next;
        let second = next.parse(mid);
        proof {
            lemma_suffix_trans_opt(second, mid@, input@);
            assert(old(self).parser.accepts(input@, parsed, mid@) && call_ensures(
                self.f,
                (parsed,),
                made,
            ));
            assert(second matches Ok((value, rest)) ==> made.accepts(mid@, value, rest@));
            assert(second is Err ==> made.rejects(mid@));
        }
        second
    }
}

/// See [`from_fn`]. `T` is the type of the values that `f` produces.
#[derive(Debug, PartialEq, Eq)]
pub struct FromFn<F, T> {
    pub f: F,
    pub marker: PhantomData<T>,
}

impl<F: Clone, T> Clone for FromFn<F, T> {
    fn clone(&self) -> Self {
        FromFn { f: self.f.clone(), marker: PhantomData }
    }
}

impl<T, F> Parser for FromFn<F, T> where F: FnMut(&str) -> Result<(T, &str), Error> {
    type Output = T;

    open spec fn wf(&self) -> bool {
        fn_wf(self.f)
    }

    open spec fn accepts(&self, input: Seq<char>, value: T, rest: Seq<char>) -> bool {
        fn_accepts(self.f, input, value, rest)
    }

    open spec fn rejects(&self, input: Seq<char>) -> bool {
        fn_rejects(self.f, input)
    }

    proof fn lemma_accepts_suffix(&self, input: Seq<char>, value: Self::Output, rest: Seq<char>) {
    }

    fn parse<'s>(&mut self, input: &'s str) -> (res: Result<(Self::Output, &'s str), Error>) {
        let res = (self.f)(input);
        proof {
            assert(res matches Ok((value, rest)) ==> call_ensures(
                self.f,
                (input,),
                Ok((value, rest)),
            ));
            assert(res matches Err(e) ==> call_ensures(self.f, (input,), Err(e)));
        }
        res
    }
}

/// The parser that runs `f`: it admits what `f` may return.
///
/// `f` has the contract of [`Parser::parse`]: given a text, it returns a value
/// and a suffix of that text, or an error.
#[must_use]
pub fn from_fn<F, T>(f: F) -> (p: FromFn<F, T>) where F: FnMut(&str) -> Result<(T, &str), Error>
    ensures
        p.f == f,
        p.wf() == fn_wf(f),
        forall|input: Seq<char>, value: T, rest: Seq<char>| #[trigger]
            p.accepts(input, value, rest) == fn_accepts(f, input, value, rest),
        forall|input: Seq<char>| #[trigger] p.rejects(input) == fn_rejects(f, input),
{
    FromFn { f, marker: PhantomData }
}

/// See [`many`].
#[derive(Debug, PartialEq, Eq)]
pub struct Many<P> {
    pub parser: P,
}

impl<P: Clone> Clone for Many<P> {
    fn clone(&self) -> Self {
        Many { parser: self.parser.clone() }
    }
}

impl<P: Parser> Parser for Many<P> {
    type Output = Vec<P::Output>;

    /// The repeated parser is well-formed and consumes input whenever it
    /// succeeds, so that the repetition ends.
    open spec fn wf(&self) -> bool {
        self.parser.wf() && consumes(self.parser)
    }

    open spec fn accepts(&self, input: Seq<char>, value: Vec<P::Output>, rest: Seq<char>) -> bool {
        many_accepts(self.parser, input, value@, rest)
    }

    /// A repetition never fails.
    open spec fn rejects(&self, input: Seq<char>) -> bool {
        false
    }

    proof fn lemma_accepts_suffix(&self, input: Seq<char>, value: Self::Output, rest: Seq<char>) {
        let cuts = choose|cuts: Seq<Seq<char>>|
            {
                &&& #[trigger] is_trace(self.parser, value@, cuts)
                &&& cuts[0] == input
                &&& cuts[value@.len() as int] == rest
                &&& self.parser.rejects(rest)
            };
        lemma_trace_suffix(self.parser, value@, cuts, value@.len() as int);
    }

    fn parse<'s>(&mut self, input: &'s str) -> (res: Result<(Self::Output, &'s str), Error>) {
        let mut cur = input;
        let mut parsed: Vec<P::Output> = Vec::new();
        let ghost mut cuts: Seq<Seq<char>> = seq![input@];
        proof {
            lemma_suffix_refl(input@);
        }
        loop
            invariant
                self.parser.wf(),
                same_language(old(self).parser, self.parser),
                consumes(old(self).parser),
                is_trace(old(self).parser, parsed@, cuts),
                cuts[0] == input@,
                cuts[parsed@.len() as int] == cur@,
                is_suffix(cur@, input@),
            decreases cur@.len(),
        {
            match self.parser.parse(cur) {
                Ok((value, rest)) => {
                    proof {
                        lemma_trace_push(old(self).parser, parsed@, cuts, value, rest@);
                        cuts = cuts.push(rest@);
                        lemma_suffix_trans(rest@, cur@, input@);
                    }
                    parsed.push(value);
                    cur = rest;
                },
                Err(_) => {
                    proof {
                        lemma_many_same_language(old(self).parser, self.parser);
                        assert(old(self).parser.rejects(cur@));
                    }
                    return Ok((parsed, cur));
                },
            }
        }
    }
}

/// Zero or more of `parser`, as many as succeed in a row.
///
/// The result never fails: when `parser` fails at once, the value is empty
/// and nothing is consumed. It can be run where `parser` consumes input
/// whenever it succeeds.
#[must_use]
pub fn many<P: Parser>(parser: P) -> (p: impl Parser<Output = Vec<P::Output>>)
    ensures
        p.wf() == (parser.wf() && consumes(parser)),
        forall|input: Seq<char>, value: Vec<P::Output>, rest: Seq<char>| #[trigger]
            p.accepts(input, value, rest) == many_accepts(parser, input, value@, rest),
        forall|input: Seq<char>| !#[trigger] p.rejects(input),
{
    Many { parser }
}

/// See [`Parser::until`]. `until` is the terminator.
#[derive(Debug, PartialEq, Eq)]
pub struct Until<P, Q> {
    pub parser: P,
    pub until: Q,
}

impl<P: Clone, Q: Clone> Clone for Until<P, Q> {
    fn clone(&self) -> Self {
        Until { parser: self.parser.clone(), until: self.until.clone() }
    }
}

impl<P, Q> Parser for Until<P, Q> where P: Parser, Q: Parser {
    type Output = Vec<P::Output>;

    /// Both parsers are well-formed, and the repeated one consumes input
    /// whenever it succeeds, so that the scan ends.
    open spec fn wf(&self) -> bool {
        self.parser.wf() && self.until.wf() && consumes(self.parser)
    }

    open spec fn accepts(&self, input: Seq<char>, value: Vec<P::Output>, rest: Seq<char>) -> bool {
        until_accepts(self.parser, self.until, input, value@, rest)
    }

    open spec fn rejects(&self, input: Seq<char>) -> bool {
        until_rejects(self.parser, self.until, input)
    }

    proof fn lemma_accepts_suffix(&self, input: Seq<char>, value: Self::Output, rest: Seq<char>) {
        let cuts = choose|cuts: Seq<Seq<char>>| #[trigger]
            is_scan(self.parser, self.until, input, value@, cuts) && cuts[value@.len() as int]
                == rest;
        lemma_trace_suffix(self.parser, value@, cuts, value@.len() as int);
    }

    /// On the empty text nothing is run, and the repeated parser is run only
    /// where the terminator has failed.
    fn parse<'s>(&mut self, input: &'s str) -> (res: Result<(Self::Output, &'s str), Error>)
        ensures
            input@.len() == 0 ==> *final(self) == *old(self),
            !old(self).until.rejects(input@) ==> final(self).parser == old(self).parser,
            res matches Ok((values, _)) && values@.len() == 0 ==> final(self).parser == old(
                self,
            ).parser,
    {
        if input.is_empty() {
            return Err(Error);
        }
        let mut cur = input;
        let mut parsed: Vec<P::Output> = Vec::new();
        let ghost mut cuts: Seq<Seq<char>> = seq![input@];
        proof {
            lemma_suffix_refl(input@);
        }
        loop
            invariant
                input@.len() > 0,
                self.parser.wf(),
                self.until.wf(),
                same_language(old(self).parser, self.parser),
                same_language(old(self).until, self.until),
                consumes(old(self).parser),
                is_scan(old(self).parser, old(self).until, input@, parsed@, cuts),
                cuts[parsed@.len() as int] == cur@,
                is_suffix(cur@, input@),
                parsed@.len() == 0 ==> self.parser == old(self).parser && cur@ == input@,
                parsed@.len() > 0 ==> old(self).until.rejects(input@),
            decreases cur@.len(),
        {
            let probe = self.until.parse(cur);
            proof {
                lemma_until_same_language(
                    old(self).parser,
                    self.parser,
                    old(self).until,
                    self.until,
                );
            }
            if let Ok((stop, after)) = probe {
                assert(old(self).until.accepts(cur@, stop, after@));
                return Ok((parsed, cur));
            }
            let element = self.parser.parse(cur);
            proof {
                lemma_until_same_language(
                    old(self).parser,
                    self.parser,
                    old(self).until,
                    self.until,
                );
            }
            match element {
                Ok((value, rest)) => {
                    proof {
                        lemma_scan_push(
                            old(self).parser,
                            old(self).until,
                            input@,
                            parsed@,
                            cuts,
                            value,
                            rest@,
                        );
                        cuts = cuts.push(rest@);
                        lemma_suffix_trans(rest@, cur@, input@);
                    }
                    parsed.push(value);
                    cur = rest;
                },
                Err(e) => {
                    assert(old(self).until.rejects(cur@) && old(self).parser.rejects(cur@));
                    return Err(e);
                },
            }
        }
    }
}

/// The characters that [`whitespace`] matches.
pub open spec fn is_whitespace(c: char) -> bool {
    c == ' ' || c == '\n' || c == '\t'
}

struct Character {
    c: char,
}

impl Parser for Character {
    type Output = char;

    closed spec fn wf(&self) -> bool {
        true
    }

    closed spec fn accepts(&self, input: Seq<char>, value: char, rest: Seq<char>) -> bool {
        input.len() > 0 && input[0] == self.c && value == self.c && rest == input.skip(1)
    }

    closed spec fn rejects(&self, input: Seq<char>) -> bool {
        input.len() == 0 || input[0] != self.c
    }

    proof fn lemma_accepts_suffix(&self, input: Seq<char>, value: Self::Output, rest: Seq<char>) {
        lemma_skip_is_suffix(input, 1);
    }

    fn parse<'s>(&mut self, input: &'s str) -> (res: Result<(Self::Output, &'s str), Error>) {
        match split_first(input) {
            Some((first, rest)) => {
                if first == self.c {
                    proof {
                        lemma_skip_is_suffix(input@, 1);
                    }
                    Ok((self.c, rest))
                } else {
                    Err(Error)
                }
            },
            None => Err(Error),
        }
    }
}

/// Matches the character `c`.
#[must_use]
pub fn character(c: char) -> (p: impl Parser<Output = char>)
    ensures
        p.wf(),
        takes_one_of(p, |first: char| first == c),
{
    Character { c }
}

struct AnyChar;

impl Parser for AnyChar {
    type Output = char;

    closed spec fn wf(&self) -> bool {
        true
    }

    closed spec fn accepts(&self, input: Seq<char>, value: char, rest: Seq<char>) -> bool {
        input.len() > 0 && value == input[0] && rest == input.skip(1)
    }

    closed spec fn rejects(&self, input: Seq<char>) -> bool {
        input.len() == 0
    }

    proof fn lemma_accepts_suffix(&self, input: Seq<char>, value: Self::Output, rest: Seq<char>) {
        lemma_skip_is_suffix(input, 1);
    }

    fn parse<'s>(&mut self, input: &'s str) -> (res: Result<(Self::Output, &'s str), Error>) {
        match split_first(input) {
            Some((first, rest)) => {
                proof {
                    lemma_skip_is_suffix(input@, 1);
                }
                Ok((first, rest))
            },
            None => Err(Error),
        }
    }
}

/// Matches any one character; fails on the empty text only.
#[must_use]
pub fn any() -> (p: impl Parser<Output = char>)
    ensures
        p.wf(),
        takes_one_of(p, |first: char| true),
{
    AnyChar
}

struct OneOf<'a> {
    chars: &'a str,
}

impl<'a> Parser for OneOf<'a> {
    type Output = char;

    closed spec fn wf(&self) -> bool {
        true
    }

    closed spec fn accepts(&self, input: Seq<char>, value: char, rest: Seq<char>) -> bool {
        input.len() > 0 && self.chars@.contains(input[0]) && value == input[0] && rest
            == input.skip(1)
    }

    closed spec fn rejects(&self, input: Seq<char>) -> bool {
        input.len() == 0 || !self.chars@.contains(input[0])
    }

    proof fn lemma_accepts_suffix(&self, input: Seq<char>, value: Self::Output, rest: Seq<char>) {
        lemma_skip_is_suffix(input, 1);
    }

    fn parse<'s>(&mut self, input: &'s str) -> (res: Result<(Self::Output, &'s str), Error>) {
        if self.chars.is_empty() {
            assert(!self.chars@.contains(input@[0]));
            return Err(Error);
        }
        match split_first(input) {
            Some((first, rest)) => {
                if contains_char(self.chars, first) {
                    proof {
                        lemma_skip_is_suffix(input@, 1);
                    }
                    Ok((first, rest))
                } else {
                    Err(Error)
                }
            },
            None => Err(Error),
        }
    }
}

/// Matches one character that occurs in `chars`; with no characters to
/// choose from it always fails.
#[must_use]
pub fn one_of(chars: &str) -> (p: impl Parser<Output = char> + '_)
    ensures
        p.wf(),
        takes_one_of(p, |first: char| chars@.contains(first)),
{
    OneOf { chars }
}

/// `c` lies in a range that has not been iterated to its end.
pub open spec fn range_holds(r: RangeInclusive<char>, c: char) -> bool {
    !r@.exhausted && r@.start <= c <= r@.end
}

struct CharRange {
    range: RangeInclusive<char>,
}

impl Parser for CharRange {
    type Output = char;

    closed spec fn wf(&self) -> bool {
        true
    }

    closed spec fn accepts(&self, input: Seq<char>, value: char, rest: Seq<char>) -> bool {
        input.len() > 0 && range_holds(self.range, input[0]) && value == input[0] && rest
            == input.skip(1)
    }

    closed spec fn rejects(&self, input: Seq<char>) -> bool {
        input.len() == 0 || !range_holds(self.range, input[0])
    }

    proof fn lemma_accepts_suffix(&self, input: Seq<char>, value: Self::Output, rest: Seq<char>) {
        lemma_skip_is_suffix(input, 1);
    }

    fn parse<'s>(&mut self, input: &'s str) -> (res: Result<(Self::Output, &'s str), Error>) {
        if range_is_empty(&self.range) {
            return Err(Error);
        }
        match split_first(input) {
            Some((first, rest)) => {
                if range_contains(&self.range, first) {
                    proof {
                        lemma_skip_is_suffix(input@, 1);
                    }
                    Ok((first, rest))
                } else {
                    Err(Error)
                }
            },
            None => Err(Error),
        }
    }
}

/// Matches one character between the bounds of `r`, both included; an empty
/// range, such as one whose bounds are inverted, always fails.
#[must_use]
pub fn range(r: RangeInclusive<char>) -> (p: impl Parser<Output = char>)
    ensures
        p.wf(),
        takes_one_of(p, |first: char| range_holds(r, first)),
{
    CharRange { range: r }
}

/// Matches one space, newline or tab.
#[must_use]
pub fn whitespace() -> (p: impl Parser<Output = ()>)
    ensures
        p.wf(),
        matches_one_of(p, |first: char| is_whitespace(first)),
{
    let p = character(' ').or(character('\n')).or(character('\t')).map(
        |_blank: Either<Either<char, char>, char>| -> () { },
    );
    proof {
        lemma_mapped(p);
    }
    p
}

} // verus!
