//! The vocabulary in which parsers are described, and what follows from it.
//!
//! A parser is described by the outcomes it admits (see
//! [`Parser`]). This module names what the combinators of
//! [`crate::parser_comb`] admit in terms of what their parts admit, and
//! proves that each of them depends on its parts only through what they
//! admit.
use crate::parser_comb::{Error, FlatMap, Mapped, Parser};
use crate::text::{is_suffix, lemma_suffix_refl, lemma_suffix_trans};
use vstd::prelude::*;

verus! {

/// Two parsers admit the same outcomes.
pub open spec fn same_language<P: Parser>(p: P, q: P) -> bool {
    &&& forall|input: Seq<char>, value: P::Output, rest: Seq<char>|
        #![trigger p.accepts(input, value, rest)]
        #![trigger q.accepts(input, value, rest)]
        p.accepts(input, value, rest) == q.accepts(input, value, rest)
    &&& forall|input: Seq<char>|
        #![trigger p.rejects(input)]
        #![trigger q.rejects(input)]
        p.rejects(input) == q.rejects(input)
}

/// Every success of `p` consumes at least one character.
pub open spec fn consumes<P: Parser>(p: P) -> bool {
    forall|input: Seq<char>, value: P::Output, rest: Seq<char>| #[trigger]
        p.accepts(input, value, rest) ==> rest.len() < input.len()
}

/// `p` may succeed on `input` with some value and some remainder.
pub open spec fn may_succeed<P: Parser>(p: P, input: Seq<char>) -> bool {
    exists|value: P::Output, rest: Seq<char>| p.accepts(input, value, rest)
}

/// `p` may succeed on `input` and leave a part of it unconsumed.
pub open spec fn may_leave_input<P: Parser>(p: P, input: Seq<char>) -> bool {
    exists|value: P::Output, rest: Seq<char>| p.accepts(input, value, rest) && rest.len() > 0
}

/// `p` consumes one character for which `class` holds, and fails on a text
/// that does not start with one.
pub open spec fn matches_one_of<P: Parser>(p: P, class: spec_fn(char) -> bool) -> bool {
    &&& forall|input: Seq<char>, value: P::Output, rest: Seq<char>| #[trigger]
        p.accepts(input, value, rest) ==> input.len() > 0 && class(input[0]) && rest
            == input.skip(1)
    &&& forall|input: Seq<char>| #[trigger]
        p.rejects(input) ==> input.len() == 0 || !class(input[0])
}

/// The value of a success of `p` is the first character of its input.
pub open spec fn yields_first<P: Parser<Output = char>>(p: P) -> bool {
    forall|input: Seq<char>, value: char, rest: Seq<char>| #[trigger]
        p.accepts(input, value, rest) ==> input.len() > 0 && value == input[0]
}

/// `p` admits exactly this: on a text that starts with a character of
/// `class` it succeeds with that character and leaves what follows it, and on
/// any other text it fails.
pub open spec fn takes_one_of<P: Parser<Output = char>>(
    p: P,
    class: spec_fn(char) -> bool,
) -> bool {
    &&& forall|input: Seq<char>, value: char, rest: Seq<char>| #[trigger]
        p.accepts(input, value, rest) <==> input.len() > 0 && class(input[0]) && value
            == input[0] && rest == input.skip(1)
    &&& forall|input: Seq<char>| #[trigger]
        p.rejects(input) <==> input.len() == 0 || !class(input[0])
}

/// `p` may succeed on `input` with `first`, and `q` on what `p` left with
/// `second`, leaving `rest`.
pub open spec fn accepts_then<P: Parser, Q: Parser>(
    p: P,
    q: Q,
    input: Seq<char>,
    first: P::Output,
    second: Q::Output,
    rest: Seq<char>,
) -> bool {
    exists|mid: Seq<char>| #[trigger] p.accepts(input, first, mid) && q.accepts(mid, second, rest)
}

/// `p` may fail on `input`, or succeed and leave a text on which `q` may
/// fail.
pub open spec fn rejects_then<P: Parser, Q: Parser>(p: P, q: Q, input: Seq<char>) -> bool {
    p.rejects(input) || exists|first: P::Output, mid: Seq<char>| #[trigger]
        p.accepts(input, first, mid) && q.rejects(mid)
}

/// What two parsers leave in turn is a suffix of what the first was given.
pub proof fn lemma_then_suffix<P: Parser, Q: Parser>(
    p: P,
    q: Q,
    input: Seq<char>,
    first: P::Output,
    second: Q::Output,
    rest: Seq<char>,
)
    requires
        p.wf(),
        q.wf(),
        accepts_then(p, q, input, first, second, rest),
    ensures
        is_suffix(rest, input),
{
    let mid = choose|mid: Seq<char>| #[trigger]
        p.accepts(input, first, mid) && q.accepts(mid, second, rest);
    p.lemma_accepts_suffix(input, first, mid);
    q.lemma_accepts_suffix(mid, second, rest);
    lemma_suffix_trans(rest, mid, input);
}

/// The text between two parsers that succeed in turn.
pub proof fn lemma_then_witness<P: Parser, Q: Parser>(
    p: P,
    q: Q,
    input: Seq<char>,
    first: P::Output,
    second: Q::Output,
    rest: Seq<char>,
) -> (mid: Seq<char>)
    requires
        accepts_then(p, q, input, first, second, rest),
    ensures
        p.accepts(input, first, mid),
        q.accepts(mid, second, rest),
{
    choose|mid: Seq<char>| #[trigger] p.accepts(input, first, mid) && q.accepts(mid, second, rest)
}

/// Where the first of two parsers does not fail and the two in turn do, the
/// value of the first and the text on which the second fails.
pub proof fn lemma_then_failure<P: Parser, Q: Parser>(p: P, q: Q, input: Seq<char>) -> (step: (
    P::Output,
    Seq<char>,
))
    requires
        rejects_then(p, q, input),
        !p.rejects(input),
    ensures
        p.accepts(input, step.0, step.1),
        q.rejects(step.1),
{
    choose|first: P::Output, mid: Seq<char>| #[trigger]
        p.accepts(input, first, mid) && q.rejects(mid)
}

/// Sequencing two parsers depends only on what each of them admits.
pub proof fn lemma_then_same_language<P: Parser, Q: Parser>(p: P, p_new: P, q: Q, q_new: Q)
    requires
        same_language(p, p_new),
        same_language(q, q_new),
    ensures
        forall|input: Seq<char>, first: P::Output, second: Q::Output, rest: Seq<char>|
            #![trigger accepts_then(p, q, input, first, second, rest)]
            #![trigger accepts_then(p_new, q_new, input, first, second, rest)]
            accepts_then(p, q, input, first, second, rest) == accepts_then(
                p_new,
                q_new,
                input,
                first,
                second,
                rest,
            ),
        forall|input: Seq<char>|
            #![trigger rejects_then(p, q, input)]
            #![trigger rejects_then(p_new, q_new, input)]
            rejects_then(p, q, input) == rejects_then(p_new, q_new, input),
{
    assert forall|input: Seq<char>, first: P::Output, second: Q::Output, rest: Seq<char>|
        accepts_then(p, q, input, first, second, rest) == accepts_then(
            p_new,
            q_new,
            input,
            first,
            second,
            rest,
        ) by {
        if accepts_then(p, q, input, first, second, rest) {
            let mid = choose|mid: Seq<char>| #[trigger]
                p.accepts(input, first, mid) && q.accepts(mid, second, rest);
            assert(p_new.accepts(input, first, mid) && q_new.accepts(mid, second, rest));
        }
        if accepts_then(p_new, q_new, input, first, second, rest) {
            let mid = choose|mid: Seq<char>| #[trigger]
                p_new.accepts(input, first, mid) && q_new.accepts(mid, second, rest);
            assert(p.accepts(input, first, mid) && q.accepts(mid, second, rest));
        }
    }
    assert forall|input: Seq<char>|
        rejects_then(p, q, input) == rejects_then(p_new, q_new, input) by {
        if rejects_then(p, q, input) && !p.rejects(input) {
            let (first, mid) = choose|first: P::Output, mid: Seq<char>| #[trigger]
                p.accepts(input, first, mid) && q.rejects(mid);
            assert(p_new.accepts(input, first, mid) && q_new.rejects(mid));
        }
        if rejects_then(p_new, q_new, input) && !p_new.rejects(input) {
            let (first, mid) = choose|first: P::Output, mid: Seq<char>| #[trigger]
                p_new.accepts(input, first, mid) && q_new.rejects(mid);
            assert(p.accepts(input, first, mid) && q.rejects(mid));
        }
    }
}

/// The remainder of a successful second step is a suffix of the first input.
pub proof fn lemma_suffix_trans_opt<T>(
    second: Result<(T, &str), Error>,
    mid: Seq<char>,
    input: Seq<char>,
)
    requires
        is_suffix(mid, input),
        second matches Ok((_, rest)) ==> is_suffix(rest@, mid),
    ensures
        second matches Ok((_, rest)) ==> is_suffix(rest@, input),
{
    if let Ok((_, rest)) = second {
        lemma_suffix_trans(rest@, mid, input);
    }
}

/// `p` may succeed on `input` leaving `rest`, with a value that `f` may turn
/// into `value`.
pub open spec fn mapped_accepts<P, F, T>(
    p: P,
    f: F,
    input: Seq<char>,
    value: T,
    rest: Seq<char>,
) -> bool where P: Parser, F: FnMut(P::Output) -> T {
    exists|inner: P::Output| #[trigger]
        p.accepts(input, inner, rest) && call_ensures(f, (inner,), value)
}

/// Mapping depends only on what the inner parser admits.
pub proof fn lemma_mapped_same_language<P, F, T>(p: P, p_new: P, f: F) where
    P: Parser,
    F: FnMut(P::Output) -> T,

    requires
        same_language(p, p_new),
    ensures
        forall|input: Seq<char>, value: T, rest: Seq<char>|
            #![trigger mapped_accepts(p, f, input, value, rest)]
            #![trigger mapped_accepts(p_new, f, input, value, rest)]
            mapped_accepts(p, f, input, value, rest) == mapped_accepts(
                p_new,
                f,
                input,
                value,
                rest,
            ),
{
    assert forall|input: Seq<char>, value: T, rest: Seq<char>|
        mapped_accepts(p, f, input, value, rest) == mapped_accepts(
            p_new,
            f,
            input,
            value,
            rest,
        ) by {
        if mapped_accepts(p, f, input, value, rest) {
            let inner = choose|inner: P::Output| #[trigger]
                p.accepts(input, inner, rest) && call_ensures(f, (inner,), value);
            assert(p_new.accepts(input, inner, rest));
        }
        if mapped_accepts(p_new, f, input, value, rest) {
            let inner = choose|inner: P::Output| #[trigger]
                p_new.accepts(input, inner, rest) && call_ensures(f, (inner,), value);
            assert(p.accepts(input, inner, rest));
        }
    }
}

/// The value of the inner parser from which `f` made `value`.
pub proof fn lemma_mapped_witness<P, F, T>(
    m: Mapped<P, F, T>,
    input: Seq<char>,
    value: T,
    rest: Seq<char>,
) -> (inner: P::Output) where P: Parser, F: FnMut(P::Output) -> T
    requires
        m.accepts(input, value, rest),
    ensures
        m.parser.accepts(input, inner, rest),
        call_ensures(m.f, (inner,), value),
{
    choose|inner: P::Output| #[trigger]
        m.parser.accepts(input, inner, rest) && call_ensures(m.f, (inner,), value)
}

/// `p` may succeed on `input`, and the parser that `f` may make of its value
/// may succeed on what `p` left, with `value` and leaving `rest`.
pub open spec fn flat_map_accepts<P, F, Q>(
    p: P,
    f: F,
    input: Seq<char>,
    value: Q::Output,
    rest: Seq<char>,
) -> bool where P: Parser, F: FnMut(P::Output) -> Q, Q: Parser {
    exists|inner: P::Output, mid: Seq<char>, next: Q|
        #![trigger p.accepts(input, inner, mid), next.accepts(mid, value, rest)]
        p.accepts(input, inner, mid) && call_ensures(f, (inner,), next) && next.accepts(
            mid,
            value,
            rest,
        )
}

/// `p` may fail on `input`, or succeed and leave a text on which the parser
/// that `f` may make of its value may fail.
pub open spec fn flat_map_rejects<P, F, Q>(p: P, f: F, input: Seq<char>) -> bool where
    P: Parser,
    F: FnMut(P::Output) -> Q,
    Q: Parser,
 {
    p.rejects(input) || exists|inner: P::Output, mid: Seq<char>, next: Q|
        #![trigger p.accepts(input, inner, mid), next.rejects(mid)]
        p.accepts(input, inner, mid) && call_ensures(f, (inner,), next) && next.rejects(mid)
}

/// Data-dependent sequencing depends only on what the first parser admits.
pub proof fn lemma_flat_map_same_language<P, F, Q>(p: P, p_new: P, f: F) where
    P: Parser,
    F: FnMut(P::Output) -> Q,
    Q: Parser,

    requires
        same_language(p, p_new),
    ensures
        forall|input: Seq<char>, value: Q::Output, rest: Seq<char>|
            #![trigger flat_map_accepts(p, f, input, value, rest)]
            #![trigger flat_map_accepts(p_new, f, input, value, rest)]
            flat_map_accepts(p, f, input, value, rest) == flat_map_accepts(
                p_new,
                f,
                input,
                value,
                rest,
            ),
        forall|input: Seq<char>|
            #![trigger flat_map_rejects(p, f, input)]
            #![trigger flat_map_rejects(p_new, f, input)]
            flat_map_rejects(p, f, input) == flat_map_rejects(p_new, f, input),
{
    assert forall|input: Seq<char>, value: Q::Output, rest: Seq<char>|
        flat_map_accepts(p, f, input, value, rest) == flat_map_accepts(
            p_new,
            f,
            input,
            value,
            rest,
        ) by {
        if flat_map_accepts(p, f, input, value, rest) {
            let (inner, mid, next) = choose|inner: P::Output, mid: Seq<char>, next: Q|
                #![trigger p.accepts(input, inner, mid), next.accepts(mid, value, rest)]
                p.accepts(input, inner, mid) && call_ensures(f, (inner,), next) && next.accepts(
                    mid,
                    value,
                    rest,
                );
            assert(p_new.accepts(input, inner, mid) && next.accepts(mid, value, rest));
        }
        if flat_map_accepts(p_new, f, input, value, rest) {
            let (inner, mid, next) = choose|inner: P::Output, mid: Seq<char>, next: Q|
                #![trigger p_new.accepts(input, inner, mid), next.accepts(mid, value, rest)]
                p_new.accepts(input, inner, mid) && call_ensures(f, (inner,), next) && next.accepts(
                    mid,
                    value,
                    rest,
                );
            assert(p.accepts(input, inner, mid) && next.accepts(mid, value, rest));
        }
    }
    assert forall|input: Seq<char>|
        flat_map_rejects(p, f, input) == flat_map_rejects(p_new, f, input) by {
        if flat_map_rejects(p, f, input) && !p.rejects(input) {
            let (inner, mid, next) = choose|inner: P::Output, mid: Seq<char>, next: Q|
                #![trigger p.accepts(input, inner, mid), next.rejects(mid)]
                p.accepts(input, inner, mid) && call_ensures(f, (inner,), next) && next.rejects(
                    mid,
                );
            assert(p_new.accepts(input, inner, mid) && next.rejects(mid));
        }
        if flat_map_rejects(p_new, f, input) && !p_new.rejects(input) {
            let (inner, mid, next) = choose|inner: P::Output, mid: Seq<char>, next: Q|
                #![trigger p_new.accepts(input, inner, mid), next.rejects(mid)]
                p_new.accepts(input, inner, mid) && call_ensures(f, (inner,), next) && next.rejects(
                    mid,
                );
            assert(p.accepts(input, inner, mid) && next.rejects(mid));
        }
    }
}

/// The steps of a success of a [`FlatMap`] parser: the value of the first
/// parser, what it left, and the parser that `f` made of the value.
pub proof fn lemma_flat_map_witness<P, F, Q>(
    m: FlatMap<P, F, Q>,
    input: Seq<char>,
    value: Q::Output,
    rest: Seq<char>,
) -> (steps: (P::Output, Seq<char>, Q)) where P: Parser, F: FnMut(P::Output) -> Q, Q: Parser
    requires
        m.accepts(input, value, rest),
    ensures
        m.parser.accepts(input, steps.0, steps.1),
        call_ensures(m.f, (steps.0,), steps.2),
        steps.2.accepts(steps.1, value, rest),
{
    choose|inner: P::Output, mid: Seq<char>, next: Q|
        #![trigger m.parser.accepts(input, inner, mid), next.accepts(mid, value, rest)]
        m.parser.accepts(input, inner, mid) && call_ensures(m.f, (inner,), next) && next.accepts(
            mid,
            value,
            rest,
        )
}

/// The steps of a failure of a [`FlatMap`] parser whose first parser does
/// not fail: the value of the first parser, what it left, and the parser
/// that `f` made of the value, which fails.
pub proof fn lemma_flat_map_failure<P, F, Q>(m: FlatMap<P, F, Q>, input: Seq<char>) -> (steps: (
    P::Output,
    Seq<char>,
    Q,
)) where P: Parser, F: FnMut(P::Output) -> Q, Q: Parser
    requires
        m.rejects(input),
        !m.parser.rejects(input),
    ensures
        m.parser.accepts(input, steps.0, steps.1),
        call_ensures(m.f, (steps.0,), steps.2),
        steps.2.rejects(steps.1),
{
    choose|inner: P::Output, mid: Seq<char>, next: Q|
        #![trigger m.parser.accepts(input, inner, mid), next.rejects(mid)]
        m.parser.accepts(input, inner, mid) && call_ensures(m.f, (inner,), next) && next.rejects(
            mid,
        )
}

/// `f` takes every text, and what it leaves on success is a suffix of what
/// it was given.
pub open spec fn fn_wf<F, T>(f: F) -> bool where F: FnMut(&str) -> Result<(T, &str), Error> {
    &&& forall|input: &str| #[trigger] call_requires(f, (input,))
    &&& forall|input: &str, value: T, rest: &str| #[trigger]
        call_ensures(f, (input,), Ok((value, rest))) ==> is_suffix(rest@, input@)
}

/// `f` may return `value` and the remainder `rest` for the text `input`.
pub open spec fn fn_accepts<F, T>(f: F, input: Seq<char>, value: T, rest: Seq<char>) -> bool where
    F: FnMut(&str) -> Result<(T, &str), Error>,
 {
    exists|given: &str, left: &str|
        given@ == input && left@ == rest && #[trigger] call_ensures(
            f,
            (given,),
            Ok((value, left)),
        )
}

/// `f` may return an error for the text `input`.
pub open spec fn fn_rejects<F, T>(f: F, input: Seq<char>) -> bool where
    F: FnMut(&str) -> Result<(T, &str), Error>,
 {
    exists|given: &str, e: Error| given@ == input && #[trigger] call_ensures(f, (given,), Err(e))
}

/// Step `k` of a run of repetitions: `p` may succeed on `cuts[k]` with
/// `values[k]`, leaving `cuts[k + 1]`.
pub open spec fn trace_step<P: Parser>(
    p: P,
    values: Seq<P::Output>,
    cuts: Seq<Seq<char>>,
    k: int,
) -> bool {
    p.accepts(cuts[k], values[k], cuts[k + 1])
}

/// `cuts` are the texts between successive successes of `p`, which gave
/// `values`: one text before each value, and one after the last.
pub open spec fn is_trace<P: Parser>(p: P, values: Seq<P::Output>, cuts: Seq<Seq<char>>) -> bool {
    &&& cuts.len() == values.len() + 1
    &&& forall|k: int| 0 <= k < values.len() ==> #[trigger] trace_step(p, values, cuts, k)
}

/// Starting on `input`, `p` may succeed with each of `values` in turn and
/// then fail on `rest`.
pub open spec fn many_accepts<P: Parser>(
    p: P,
    input: Seq<char>,
    values: Seq<P::Output>,
    rest: Seq<char>,
) -> bool {
    exists|cuts: Seq<Seq<char>>|
        {
            &&& #[trigger] is_trace(p, values, cuts)
            &&& cuts[0] == input
            &&& cuts[values.len() as int] == rest
            &&& p.rejects(rest)
        }
}

/// A trace of one parser is a trace of any parser that admits the same.
pub proof fn lemma_trace_same_language<P: Parser>(
    p: P,
    p_new: P,
    values: Seq<P::Output>,
    cuts: Seq<Seq<char>>,
)
    requires
        same_language(p, p_new),
        is_trace(p, values, cuts),
    ensures
        is_trace(p_new, values, cuts),
{
    assert forall|k: int| 0 <= k < values.len() implies #[trigger] trace_step(
        p_new,
        values,
        cuts,
        k,
    ) by {
        assert(trace_step(p, values, cuts, k));
    }
}

/// Each text of a trace is a suffix of the first.
pub proof fn lemma_trace_suffix<P: Parser>(
    p: P,
    values: Seq<P::Output>,
    cuts: Seq<Seq<char>>,
    k: int,
)
    requires
        p.wf(),
        is_trace(p, values, cuts),
        0 <= k <= values.len(),
    ensures
        is_suffix(cuts[k], cuts[0]),
    decreases k,
{
    if k == 0 {
        lemma_suffix_refl(cuts[0]);
    } else {
        lemma_trace_suffix(p, values, cuts, k - 1);
        assert(trace_step(p, values, cuts, k - 1));
        p.lemma_accepts_suffix(cuts[k - 1], values[k - 1], cuts[k]);
        lemma_suffix_trans(cuts[k], cuts[k - 1], cuts[0]);
    }
}

/// A trace extended by one more success.
pub proof fn lemma_trace_push<P: Parser>(
    p: P,
    values: Seq<P::Output>,
    cuts: Seq<Seq<char>>,
    value: P::Output,
    rest: Seq<char>,
)
    requires
        is_trace(p, values, cuts),
        p.accepts(cuts[values.len() as int], value, rest),
    ensures
        is_trace(p, values.push(value), cuts.push(rest)),
{
    assert forall|k: int| 0 <= k < values.len() + 1 implies #[trigger] trace_step(
        p,
        values.push(value),
        cuts.push(rest),
        k,
    ) by {
        if k < values.len() {
            assert(trace_step(p, values, cuts, k));
        }
    }
}

/// Repetition depends only on what the repeated parser admits.
pub proof fn lemma_many_same_language<P: Parser>(p: P, p_new: P)
    requires
        same_language(p, p_new),
    ensures
        forall|input: Seq<char>, values: Seq<P::Output>, rest: Seq<char>|
            #![trigger many_accepts(p, input, values, rest)]
            #![trigger many_accepts(p_new, input, values, rest)]
            many_accepts(p, input, values, rest) == many_accepts(p_new, input, values, rest),
{
    assert forall|input: Seq<char>, values: Seq<P::Output>, rest: Seq<char>|
        many_accepts(p, input, values, rest) == many_accepts(p_new, input, values, rest) by {
        if many_accepts(p, input, values, rest) {
            let cuts = choose|cuts: Seq<Seq<char>>|
                {
                    &&& #[trigger] is_trace(p, values, cuts)
                    &&& cuts[0] == input
                    &&& cuts[values.len() as int] == rest
                    &&& p.rejects(rest)
                };
            lemma_trace_same_language(p, p_new, values, cuts);
        }
        if many_accepts(p_new, input, values, rest) {
            let cuts = choose|cuts: Seq<Seq<char>>|
                {
                    &&& #[trigger] is_trace(p_new, values, cuts)
                    &&& cuts[0] == input
                    &&& cuts[values.len() as int] == rest
                    &&& p_new.rejects(rest)
                };
            lemma_trace_same_language(p_new, p, values, cuts);
        }
    }
}

/// The terminator `q` may fail on `cuts[k]`.
pub open spec fn probe_fails<Q: Parser>(q: Q, cuts: Seq<Seq<char>>, k: int) -> bool {
    q.rejects(cuts[k])
}

/// Scanning from `input`, `p` may give `values` with the texts `cuts` between
/// them, the terminator `q` failing before each value.
pub open spec fn is_scan<P: Parser, Q: Parser>(
    p: P,
    q: Q,
    input: Seq<char>,
    values: Seq<P::Output>,
    cuts: Seq<Seq<char>>,
) -> bool {
    &&& is_trace(p, values, cuts)
    &&& cuts[0] == input
    &&& forall|k: int| 0 <= k < values.len() ==> #[trigger] probe_fails(q, cuts, k)
}

/// On a text that is not empty, `p` may give `values` while `q` fails, up to
/// `rest`, on which `q` may succeed.
pub open spec fn until_accepts<P: Parser, Q: Parser>(
    p: P,
    q: Q,
    input: Seq<char>,
    values: Seq<P::Output>,
    rest: Seq<char>,
) -> bool {
    &&& input.len() > 0
    &&& may_succeed(q, rest)
    &&& exists|cuts: Seq<Seq<char>>| #[trigger]
        is_scan(p, q, input, values, cuts) && cuts[values.len() as int] == rest
}

/// The text is empty, or `p` may give some values while `q` fails, up to a
/// text on which both may fail.
pub open spec fn until_rejects<P: Parser, Q: Parser>(p: P, q: Q, input: Seq<char>) -> bool {
    input.len() == 0 || exists|values: Seq<P::Output>, cuts: Seq<Seq<char>>|
        {
            &&& #[trigger] is_scan(p, q, input, values, cuts)
            &&& q.rejects(cuts[values.len() as int])
            &&& p.rejects(cuts[values.len() as int])
        }
}

/// A scan of two parsers is a scan of any two that admit the same.
pub proof fn lemma_scan_same_language<P: Parser, Q: Parser>(
    p: P,
    p_new: P,
    q: Q,
    q_new: Q,
    input: Seq<char>,
    values: Seq<P::Output>,
    cuts: Seq<Seq<char>>,
)
    requires
        same_language(p, p_new),
        same_language(q, q_new),
        is_scan(p, q, input, values, cuts),
    ensures
        is_scan(p_new, q_new, input, values, cuts),
{
    lemma_trace_same_language(p, p_new, values, cuts);
    assert forall|k: int| 0 <= k < values.len() implies #[trigger] probe_fails(q_new, cuts, k) by {
        assert(probe_fails(q, cuts, k));
    }
}

/// A scan extended by one more value, parsed after the terminator failed.
pub proof fn lemma_scan_push<P: Parser, Q: Parser>(
    p: P,
    q: Q,
    input: Seq<char>,
    values: Seq<P::Output>,
    cuts: Seq<Seq<char>>,
    value: P::Output,
    rest: Seq<char>,
)
    requires
        is_scan(p, q, input, values, cuts),
        q.rejects(cuts[values.len() as int]),
        p.accepts(cuts[values.len() as int], value, rest),
    ensures
        is_scan(p, q, input, values.push(value), cuts.push(rest)),
{
    lemma_trace_push(p, values, cuts, value, rest);
    assert forall|k: int| 0 <= k < values.len() + 1 implies #[trigger] probe_fails(
        q,
        cuts.push(rest),
        k,
    ) by {
        if k < values.len() {
            assert(probe_fails(q, cuts, k));
        }
    }
}

/// Scanning depends only on what the two parsers admit.
pub proof fn lemma_until_same_language<P: Parser, Q: Parser>(p: P, p_new: P, q: Q, q_new: Q)
    requires
        same_language(p, p_new),
        same_language(q, q_new),
    ensures
        forall|input: Seq<char>, values: Seq<P::Output>, rest: Seq<char>|
            #![trigger until_accepts(p, q, input, values, rest)]
            #![trigger until_accepts(p_new, q_new, input, values, rest)]
            until_accepts(p, q, input, values, rest) == until_accepts(
                p_new,
                q_new,
                input,
                values,
                rest,
            ),
        forall|input: Seq<char>|
            #![trigger until_rejects(p, q, input)]
            #![trigger until_rejects(p_new, q_new, input)]
            until_rejects(p, q, input) == until_rejects(p_new, q_new, input),
{
    assert forall|input: Seq<char>, values: Seq<P::Output>, rest: Seq<char>|
        until_accepts(p, q, input, values, rest) == until_accepts(
            p_new,
            q_new,
            input,
            values,
            rest,
        ) by {
        if until_accepts(p, q, input, values, rest) {
            let cuts = choose|cuts: Seq<Seq<char>>| #[trigger]
                is_scan(p, q, input, values, cuts) && cuts[values.len() as int] == rest;
            lemma_scan_same_language(p, p_new, q, q_new, input, values, cuts);
            let (stop, after) = choose|stop: Q::Output, after: Seq<char>|
                q.accepts(rest, stop, after);
            assert(q_new.accepts(rest, stop, after));
        }
        if until_accepts(p_new, q_new, input, values, rest) {
            let cuts = choose|cuts: Seq<Seq<char>>| #[trigger]
                is_scan(p_new, q_new, input, values, cuts) && cuts[values.len() as int] == rest;
            lemma_scan_same_language(p_new, p, q_new, q, input, values, cuts);
            let (stop, after) = choose|stop: Q::Output, after: Seq<char>|
                q_new.accepts(rest, stop, after);
            assert(q.accepts(rest, stop, after));
        }
    }
    assert forall|input: Seq<char>| until_rejects(p, q, input) == until_rejects(
        p_new,
        q_new,
        input,
    ) by {
        if until_rejects(p, q, input) && input.len() > 0 {
            let (values, cuts) = choose|values: Seq<P::Output>, cuts: Seq<Seq<char>>|
                {
                    &&& #[trigger] is_scan(p, q, input, values, cuts)
                    &&& q.rejects(cuts[values.len() as int])
                    &&& p.rejects(cuts[values.len() as int])
                };
            lemma_scan_same_language(p, p_new, q, q_new, input, values, cuts);
        }
        if until_rejects(p_new, q_new, input) && input.len() > 0 {
            let (values, cuts) = choose|values: Seq<P::Output>, cuts: Seq<Seq<char>>|
                {
                    &&& #[trigger] is_scan(p_new, q_new, input, values, cuts)
                    &&& q_new.rejects(cuts[values.len() as int])
                    &&& p_new.rejects(cuts[values.len() as int])
                };
            lemma_scan_same_language(p_new, p, q_new, q, input, values, cuts);
        }
    }
}

} // verus!
