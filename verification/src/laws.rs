//! What holds of every parser built with the combinators of
//! [`crate::parser_comb`], stated over the outcomes that parsers admit.
use crate::parser_comb::{
    Either, FlatMap, Many, Mapped, Or, Parser, Until, ZipLeft, ZipRight,
};
use crate::semantics::{
    accepts_then, consumes, flat_map_accepts, flat_map_rejects, is_scan, is_trace,
    lemma_trace_suffix, many_accepts, mapped_accepts, matches_one_of, may_succeed, probe_fails,
    rejects_then, trace_step, until_accepts, until_rejects, yields_first,
};
use crate::text::{
    is_run, is_suffix, lemma_matched_prefix, lemma_run_len, matched_prefix, run_len,
};
use vstd::prelude::*;

verus! {

/// Prefix invariant: whatever a parser accepts, its remainder is a suffix of
/// the input, and the input is the matched prefix followed by the remainder.
pub proof fn lemma_prefix_invariant<P: Parser>(
    p: P,
    input: Seq<char>,
    value: P::Output,
    rest: Seq<char>,
)
    requires
        p.wf(),
        p.accepts(input, value, rest),
    ensures
        is_suffix(rest, input),
        input == matched_prefix(input, rest) + rest,
{
    p.lemma_accepts_suffix(input, value, rest);
    lemma_matched_prefix(input, rest);
}

/// A repetition never fails, whatever is repeated and whatever the input.
pub proof fn lemma_many_never_fails<P: Parser>(p: P, input: Seq<char>)
    ensures
        !(Many { parser: p }).rejects(input),
{
}

/// Where the repeated parser fails at once, a repetition may yield no value
/// and leave the input as it is.
pub proof fn lemma_many_zero_matches<P: Parser>(p: P, input: Seq<char>)
    requires
        p.rejects(input),
    ensures
        many_accepts(p, input, Seq::empty(), input),
{
    let cuts = seq![input];
    assert(is_trace(p, Seq::<P::Output>::empty(), cuts));
}

/// A repetition that yields no value leaves the input as it is, and where
/// the repeated parser cannot succeed at once a repetition yields no value.
pub proof fn lemma_many_nothing<P: Parser>(
    p: P,
    input: Seq<char>,
    values: Seq<P::Output>,
    rest: Seq<char>,
)
    requires
        many_accepts(p, input, values, rest),
    ensures
        values.len() == 0 ==> rest == input,
        !may_succeed(p, input) ==> values.len() == 0,
{
    let cuts = choose|cuts: Seq<Seq<char>>|
        {
            &&& #[trigger] is_trace(p, values, cuts)
            &&& cuts[0] == input
            &&& cuts[values.len() as int] == rest
            &&& p.rejects(rest)
        };
    if values.len() > 0 {
        assert(trace_step(p, values, cuts, 0));
        assert(p.accepts(input, values[0], cuts[1]));
    }
}

/// Alternation is left-biased: where the first branch cannot fail, the
/// result is that of the first branch, whatever the second would do.
pub proof fn lemma_or_left_bias<P: Parser, Q: Parser>(
    p: P,
    q: Q,
    input: Seq<char>,
    value: Either<P::Output, Q::Output>,
    rest: Seq<char>,
)
    requires
        !p.rejects(input),
        (Or { first: p, second: q }).accepts(input, value, rest),
    ensures
        value is A,
        p.accepts(input, value->A_0, rest),
        !(Or { first: p, second: q }).rejects(input),
{
}

/// The second branch of an alternation is taken only where the first fails,
/// and it starts on the same input.
pub proof fn lemma_or_second_branch<P: Parser, Q: Parser>(
    p: P,
    q: Q,
    input: Seq<char>,
    value: Q::Output,
    rest: Seq<char>,
)
    ensures
        (Or { first: p, second: q }).accepts(input, Either::B(value), rest) == (p.rejects(input)
            && q.accepts(input, value, rest)),
{
}

/// Where the terminator cannot fail on an input that is not empty, a scan
/// stops at once: it yields no value, leaves the input as it is, and cannot
/// fail.
pub proof fn lemma_until_stops_at_once<P: Parser, Q: Parser>(
    p: P,
    q: Q,
    input: Seq<char>,
    values: Seq<P::Output>,
    rest: Seq<char>,
)
    requires
        input.len() > 0,
        !q.rejects(input),
    ensures
        !until_rejects(p, q, input),
        until_accepts(p, q, input, values, rest) ==> values.len() == 0 && rest == input,
{
    if until_rejects(p, q, input) {
        let (values, cuts) = choose|values: Seq<P::Output>, cuts: Seq<Seq<char>>|
            {
                &&& #[trigger] is_scan(p, q, input, values, cuts)
                &&& q.rejects(cuts[values.len() as int])
                &&& p.rejects(cuts[values.len() as int])
            };
        if values.len() > 0 {
            assert(probe_fails(q, cuts, 0));
        }
    }
    if until_accepts(p, q, input, values, rest) {
        let cuts = choose|cuts: Seq<Seq<char>>| #[trigger]
            is_scan(p, q, input, values, cuts) && cuts[values.len() as int] == rest;
        if values.len() > 0 {
            assert(probe_fails(q, cuts, 0));
        }
    }
}

/// On the empty text a scan fails, whatever its parts would do.
pub proof fn lemma_until_on_empty<P: Parser, Q: Parser>(
    p: P,
    q: Q,
    values: Seq<P::Output>,
    rest: Seq<char>,
)
    ensures
        until_rejects(p, q, Seq::empty()),
        !until_accepts(p, q, Seq::empty(), values, rest),
{
}

/// Where the terminator cannot succeed at any position of the input, a scan
/// cannot succeed.
pub proof fn lemma_until_without_terminator<P: Parser, Q: Parser>(
    p: P,
    q: Q,
    input: Seq<char>,
    values: Seq<P::Output>,
    rest: Seq<char>,
)
    requires
        p.wf(),
        forall|k: int| 0 <= k <= input.len() ==> !may_succeed(q, #[trigger] input.skip(k)),
    ensures
        !until_accepts(p, q, input, values, rest),
{
    if until_accepts(p, q, input, values, rest) {
        let cuts = choose|cuts: Seq<Seq<char>>| #[trigger]
            is_scan(p, q, input, values, cuts) && cuts[values.len() as int] == rest;
        lemma_trace_suffix(p, values, cuts, values.len() as int);
        assert(rest == input.skip(input.len() - rest.len()));
    }
}

/// Mapping twice is mapping once through the composed function: where `h`
/// returns what `g` returns on what `f` returns, `map(map(p, f), g)` and
/// `map(p, h)` admit the same outcomes.
pub proof fn lemma_map_fusion<P, F, G, H, T, U>(
    twice: Mapped<Mapped<P, F, T>, G, U>,
    once: Mapped<P, H, U>,
    input: Seq<char>,
    value: U,
    rest: Seq<char>,
) where P: Parser, F: FnMut(P::Output) -> T, G: FnMut(T) -> U, H: FnMut(P::Output) -> U
    requires
        twice.parser.parser == once.parser,
        forall|x: P::Output, z: U| #[trigger]
            call_ensures(once.f, (x,), z) <==> exists|y: T| #[trigger]
                call_ensures(twice.parser.f, (x,), y) && call_ensures(twice.f, (y,), z),
    ensures
        twice.accepts(input, value, rest) == once.accepts(input, value, rest),
        twice.rejects(input) == once.rejects(input),
{
    let p = once.parser;
    let f = twice.parser.f;
    let g = twice.f;
    let h = once.f;
    if twice.accepts(input, value, rest) {
        let y = choose|y: T| #[trigger]
            twice.parser.accepts(input, y, rest) && call_ensures(g, (y,), value);
        let x = choose|x: P::Output| #[trigger]
            p.accepts(input, x, rest) && call_ensures(f, (x,), y);
        assert(call_ensures(f, (x,), y) && call_ensures(g, (y,), value));
        assert(call_ensures(h, (x,), value));
        assert(p.accepts(input, x, rest) && call_ensures(h, (x,), value));
    }
    if once.accepts(input, value, rest) {
        let x = choose|x: P::Output| #[trigger]
            p.accepts(input, x, rest) && call_ensures(h, (x,), value);
        let y = choose|y: T| #[trigger]
            call_ensures(f, (x,), y) && call_ensures(g, (y,), value);
        assert(p.accepts(input, x, rest) && call_ensures(f, (x,), y));
        assert(twice.parser.accepts(input, y, rest) && call_ensures(g, (y,), value));
    }
}

/// In a trace of a parser that consumes one character of a class at a time,
/// the text before value `k` is the first text without its first `k`
/// characters, all of which are of the class.
proof fn lemma_class_trace<P: Parser>(
    p: P,
    class: spec_fn(char) -> bool,
    values: Seq<P::Output>,
    cuts: Seq<Seq<char>>,
    k: int,
)
    requires
        matches_one_of(p, class),
        is_trace(p, values, cuts),
        0 <= k <= values.len(),
    ensures
        k <= cuts[0].len(),
        cuts[k] == cuts[0].skip(k),
        forall|j: int| 0 <= j < k ==> class(#[trigger] cuts[0][j]),
    decreases k,
{
    if k == 0 {
        assert(cuts[0].skip(0) =~= cuts[0]);
    } else {
        lemma_class_trace(p, class, values, cuts, k - 1);
        assert(trace_step(p, values, cuts, k - 1));
        assert(p.accepts(cuts[k - 1], values[k - 1], cuts[k]));
        assert(cuts[0].skip(k - 1).skip(1) =~= cuts[0].skip(k));
        assert(cuts[0].skip(k - 1)[0] == cuts[0][k - 1]);
    }
}

/// Repeating a parser that consumes one character of a class at a time
/// consumes the leading run of that class, one value for each character.
pub proof fn lemma_many_of_class<P: Parser>(
    p: P,
    class: spec_fn(char) -> bool,
    input: Seq<char>,
    values: Seq<P::Output>,
    rest: Seq<char>,
)
    requires
        matches_one_of(p, class),
        many_accepts(p, input, values, rest),
    ensures
        values.len() == run_len(input, class),
        rest == input.skip(values.len() as int),
{
    let cuts = choose|cuts: Seq<Seq<char>>|
        {
            &&& #[trigger] is_trace(p, values, cuts)
            &&& cuts[0] == input
            &&& cuts[values.len() as int] == rest
            &&& p.rejects(rest)
        };
    let n = values.len() as int;
    lemma_class_trace(p, class, values, cuts, n);
    if n < input.len() {
        assert(rest[0] == input[n]);
    }
    assert(is_run(input, class, n));
    lemma_run_len(input, class, n);
}

/// Repeating a parser that yields the character it consumes yields the
/// characters of the leading run, in order.
pub proof fn lemma_many_yields_run<P: Parser<Output = char>>(
    p: P,
    class: spec_fn(char) -> bool,
    input: Seq<char>,
    values: Seq<char>,
    rest: Seq<char>,
)
    requires
        matches_one_of(p, class),
        yields_first(p),
        many_accepts(p, input, values, rest),
    ensures
        values == input.take(run_len(input, class) as int),
        rest == input.skip(run_len(input, class) as int),
{
    lemma_many_of_class(p, class, input, values, rest);
    let cuts = choose|cuts: Seq<Seq<char>>|
        {
            &&& #[trigger] is_trace(p, values, cuts)
            &&& cuts[0] == input
            &&& cuts[values.len() as int] == rest
            &&& p.rejects(rest)
        };
    let n = values.len() as int;
    assert forall|k: int| 0 <= k < n implies values[k] == input[k] by {
        lemma_class_trace(p, class, values, cuts, k);
        assert(trace_step(p, values, cuts, k));
        assert(input.skip(k)[0] == input[k]);
    }
    lemma_class_trace(p, class, values, cuts, n);
    assert(values =~= input.take(n));
}

/// A parser that consumes a character whenever it succeeds can be repeated.
pub proof fn lemma_one_of_consumes<P: Parser>(p: P, class: spec_fn(char) -> bool)
    requires
        matches_one_of(p, class),
    ensures
        consumes(p),
{
}

/// In a scan with a parser that consumes one character of `element` at a
/// time and a terminator that matches one character of `stop`, the text
/// before value `k` is the input without its first `k` characters, each of
/// which is of `element` and not of `stop`.
proof fn lemma_class_scan<P: Parser, Q: Parser>(
    p: P,
    q: Q,
    element: spec_fn(char) -> bool,
    stop: spec_fn(char) -> bool,
    input: Seq<char>,
    values: Seq<P::Output>,
    cuts: Seq<Seq<char>>,
    k: int,
)
    requires
        matches_one_of(p, element),
        matches_one_of(q, stop),
        is_scan(p, q, input, values, cuts),
        0 <= k <= values.len(),
    ensures
        k <= input.len(),
        cuts[k] == input.skip(k),
        forall|j: int| 0 <= j < k ==> element(#[trigger] input[j]) && !stop(input[j]),
    decreases k,
{
    lemma_class_trace(p, element, values, cuts, k);
    if k > 0 {
        lemma_class_scan(p, q, element, stop, input, values, cuts, k - 1);
        lemma_class_trace(p, element, values, cuts, k - 1);
        assert(probe_fails(q, cuts, k - 1));
        assert(input.skip(k - 1)[0] == input[k - 1]);
    }
}

/// A scan with a parser that consumes one character of `element` at a time,
/// up to a terminator that matches one character of `stop`, consumes the
/// leading run of characters that are of `element` and not of `stop`, and
/// ends before a character of `stop`.
pub proof fn lemma_until_of_class<P: Parser, Q: Parser>(
    p: P,
    q: Q,
    element: spec_fn(char) -> bool,
    stop: spec_fn(char) -> bool,
    scanned: spec_fn(char) -> bool,
    input: Seq<char>,
    values: Seq<P::Output>,
    rest: Seq<char>,
)
    requires
        matches_one_of(p, element),
        matches_one_of(q, stop),
        forall|c: char| #[trigger] scanned(c) == (element(c) && !stop(c)),
        until_accepts(p, q, input, values, rest),
    ensures
        values.len() == run_len(input, scanned),
        values.len() < input.len(),
        stop(input[values.len() as int]),
        rest == input.skip(values.len() as int),
{
    let cuts = choose|cuts: Seq<Seq<char>>| #[trigger]
        is_scan(p, q, input, values, cuts) && cuts[values.len() as int] == rest;
    let n = values.len() as int;
    lemma_class_scan(p, q, element, stop, input, values, cuts, n);
    let (found, after) = choose|found: Q::Output, after: Seq<char>| q.accepts(rest, found, after);
    assert(q.accepts(rest, found, after));
    assert(rest[0] == input[n]);
    assert(is_run(input, scanned, n));
    lemma_run_len(input, scanned, n);
}

/// The values of such a scan, where the parser yields the character it
/// consumes, are the characters of that run, in order.
pub proof fn lemma_until_yields_run<P: Parser<Output = char>, Q: Parser>(
    p: P,
    q: Q,
    element: spec_fn(char) -> bool,
    stop: spec_fn(char) -> bool,
    scanned: spec_fn(char) -> bool,
    input: Seq<char>,
    values: Seq<char>,
    rest: Seq<char>,
)
    requires
        matches_one_of(p, element),
        yields_first(p),
        matches_one_of(q, stop),
        forall|c: char| #[trigger] scanned(c) == (element(c) && !stop(c)),
        until_accepts(p, q, input, values, rest),
    ensures
        values == input.take(run_len(input, scanned) as int),
{
    lemma_until_of_class(p, q, element, stop, scanned, input, values, rest);
    let cuts = choose|cuts: Seq<Seq<char>>| #[trigger]
        is_scan(p, q, input, values, cuts) && cuts[values.len() as int] == rest;
    let n = values.len() as int;
    assert forall|k: int| 0 <= k < n implies values[k] == input[k] by {
        lemma_class_scan(p, q, element, stop, input, values, cuts, k);
        assert(trace_step(p, values, cuts, k));
        assert(input.skip(k)[0] == input[k]);
    }
    assert(values =~= input.take(n));
}

/// Where such a scan fails on an input that is not empty, the run of
/// characters that are of `element` and not of `stop` reaches the end of the
/// input, or ends before a character that is of neither class.
pub proof fn lemma_until_of_class_fails<P: Parser, Q: Parser>(
    p: P,
    q: Q,
    element: spec_fn(char) -> bool,
    stop: spec_fn(char) -> bool,
    scanned: spec_fn(char) -> bool,
    input: Seq<char>,
)
    requires
        matches_one_of(p, element),
        matches_one_of(q, stop),
        forall|c: char| #[trigger] scanned(c) == (element(c) && !stop(c)),
        until_rejects(p, q, input),
        input.len() > 0,
    ensures
        run_len(input, scanned) == input.len() || !stop(input[run_len(input, scanned) as int]),
{
    let (values, cuts) = choose|values: Seq<P::Output>, cuts: Seq<Seq<char>>|
        {
            &&& #[trigger] is_scan(p, q, input, values, cuts)
            &&& q.rejects(cuts[values.len() as int])
            &&& p.rejects(cuts[values.len() as int])
        };
    let n = values.len() as int;
    lemma_class_scan(p, q, element, stop, input, values, cuts, n);
    if n < input.len() {
        assert(input.skip(n)[0] == input[n]);
    }
    assert(is_run(input, scanned, n));
    lemma_run_len(input, scanned, n);
}

// What each combinator admits. Verus unfolds the description of a combinator
// where the types of its parts are parameters; where a part is a closure of
// known type these lemmas state it.

/// What an [`Or`] parser admits, stated for any two parsers.
pub proof fn lemma_or<P: Parser, Q: Parser>(o: Or<P, Q>)
    ensures
        o.wf() == (o.first.wf() && o.second.wf()),
        forall|input: Seq<char>, value: P::Output, rest: Seq<char>| #[trigger]
            o.accepts(input, Either::A(value), rest) == o.first.accepts(input, value, rest),
        forall|input: Seq<char>, value: Q::Output, rest: Seq<char>| #[trigger]
            o.accepts(input, Either::B(value), rest) == (o.first.rejects(input)
                && o.second.accepts(input, value, rest)),
        forall|input: Seq<char>| #[trigger]
            o.rejects(input) == (o.first.rejects(input) && o.second.rejects(input)),
{
}

/// What a [`ZipLeft`] parser admits, stated for any two parsers.
pub proof fn lemma_zip_left<P: Parser, Q: Parser>(z: ZipLeft<P, Q>)
    ensures
        z.wf() == (z.left.wf() && z.right.wf()),
        forall|input: Seq<char>, value: P::Output, rest: Seq<char>| #[trigger]
            z.accepts(input, value, rest) == (exists|dropped: Q::Output|
                accepts_then(z.left, z.right, input, value, dropped, rest)),
        forall|input: Seq<char>| #[trigger]
            z.rejects(input) == rejects_then(z.left, z.right, input),
{
}

/// What a [`ZipRight`] parser admits, stated for any two parsers.
pub proof fn lemma_zip_right<P: Parser, Q: Parser>(z: ZipRight<P, Q>)
    ensures
        z.wf() == (z.left.wf() && z.right.wf()),
        forall|input: Seq<char>, value: Q::Output, rest: Seq<char>| #[trigger]
            z.accepts(input, value, rest) == (exists|dropped: P::Output|
                accepts_then(z.left, z.right, input, dropped, value, rest)),
        forall|input: Seq<char>| #[trigger]
            z.rejects(input) == rejects_then(z.left, z.right, input),
{
}

/// What a [`Mapped`] parser admits, stated for any parser and function.
pub proof fn lemma_mapped<P, F, T>(m: Mapped<P, F, T>) where P: Parser, F: FnMut(P::Output) -> T
    ensures
        m.wf() == (m.parser.wf() && forall|inner: P::Output| #[trigger]
            call_requires(m.f, (inner,))),
        forall|input: Seq<char>, value: T, rest: Seq<char>| #[trigger]
            m.accepts(input, value, rest) == mapped_accepts(m.parser, m.f, input, value, rest),
        forall|input: Seq<char>| #[trigger] m.rejects(input) == m.parser.rejects(input),
{
}

/// What a [`FlatMap`] parser admits, stated for any parser and function.
pub proof fn lemma_flat_map<P, F, Q>(m: FlatMap<P, F, Q>) where
    P: Parser,
    F: FnMut(P::Output) -> Q,
    Q: Parser,

    ensures
        m.wf() == (m.parser.wf() && (forall|inner: P::Output| #[trigger]
            call_requires(m.f, (inner,))) && (forall|inner: P::Output, next: Q| #[trigger]
            call_ensures(m.f, (inner,), next) ==> next.wf())),
        forall|input: Seq<char>, value: Q::Output, rest: Seq<char>| #[trigger]
            m.accepts(input, value, rest) == flat_map_accepts(m.parser, m.f, input, value, rest),
        forall|input: Seq<char>| #[trigger]
            m.rejects(input) == flat_map_rejects(m.parser, m.f, input),
{
}

/// What an [`Until`] parser admits, stated for any two parsers.
pub proof fn lemma_until<P: Parser, Q: Parser>(u: Until<P, Q>)
    ensures
        u.wf() == (u.parser.wf() && u.until.wf() && consumes(u.parser)),
        forall|input: Seq<char>, value: Vec<P::Output>, rest: Seq<char>| #[trigger]
            u.accepts(input, value, rest) == until_accepts(u.parser, u.until, input, value@, rest),
        forall|input: Seq<char>| #[trigger]
            u.rejects(input) == until_rejects(u.parser, u.until, input),
{
}

} // verus!
