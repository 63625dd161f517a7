//! A grammar for a small Lisp-like syntax, built from the combinators of
//! [`crate::parser_comb`]: quoted texts, identifiers, numbers, and lists of
//! them nested to any depth.
//!
//! Each parser comes with a function on texts that says what it parses: the
//! value and the remainder, or nothing where the text does not match.
use crate::laws::{
    lemma_many_of_class, lemma_many_yields_run, lemma_mapped, lemma_one_of_consumes,
    lemma_until_of_class, lemma_until_of_class_fails, lemma_until_yields_run,
};
use crate::parser_comb::{
    any, character, from_fn, is_whitespace, many, range, whitespace, Either, Error, FlatMap,
    Get, Mapped, Parser, ZipLeft,
};
use crate::semantics::{
    accepts_then, consumes, lemma_flat_map_failure, lemma_flat_map_witness,
    lemma_mapped_witness, lemma_then_failure, lemma_then_witness, matches_one_of, yields_first,
};
use crate::text::{
    collect_string, decimal_i32, digits_to_i32, is_digit, is_suffix, lemma_run_len,
    lemma_run_len_bound, lemma_skip_is_suffix, lemma_suffix_trans, run_len,
};
use crate::{LispObject, LispValue};
use vstd::prelude::*;

verus! {

/// What a grammar gives for a text: a value and the remainder, or nothing.
pub type Parsed<V> = Option<(V, Seq<char>)>;

/// `p` can be run, and parses as `grammar` says: it succeeds only with the
/// value and the remainder that `grammar` gives, and fails only where
/// `grammar` gives nothing.
pub open spec fn implements<P>(
    p: P,
    grammar: spec_fn(Seq<char>) -> Parsed<<P::Output as View>::V>,
) -> bool where P: Parser, P::Output: View {
    &&& p.wf()
    &&& forall|input: Seq<char>, value: P::Output, rest: Seq<char>| #[trigger]
        p.accepts(input, value, rest) ==> grammar(input) == Some((value@, rest))
    &&& forall|input: Seq<char>| #[trigger] p.rejects(input) ==> grammar(input) is None
}

/// The result of a run on `input` is what `expected` gives for it, and a
/// remainder is a suffix of `input`.
pub open spec fn agrees<T: View>(
    res: Result<(T, &str), Error>,
    input: Seq<char>,
    expected: Parsed<T::V>,
) -> bool {
    match res {
        Ok((value, rest)) => expected == Some((value@, rest@)) && is_suffix(rest@, input),
        Err(_) => expected is None,
    }
}

/// The character that opens and closes a text literal.
pub open spec fn is_quote(c: char) -> bool {
    c == '"'
}

/// A character that may stand inside a text literal.
pub open spec fn is_quoted(c: char) -> bool {
    c != '"'
}

/// A text literal: a quote, the characters up to the next quote, and that
/// quote. The value is what stands between the two quotes.
pub open spec fn spec_string(input: Seq<char>) -> Parsed<Seq<char>> {
    if input.len() > 0 && is_quote(input[0]) {
        let body = input.skip(1);
        let n = run_len(body, |c: char| is_quoted(c)) as int;
        if n < body.len() {
            Some((body.take(n), body.skip(n + 1)))
        } else {
            None
        }
    } else {
        None
    }
}

/// `p` parses the inside of a text literal: the characters up to the next
/// quote, which it leaves unconsumed; it fails where there is no quote.
pub open spec fn parses_quoted<P: Parser<Output = Vec<char>>>(p: P) -> bool {
    &&& p.wf()
    &&& forall|input: Seq<char>, value: Vec<char>, rest: Seq<char>| #[trigger]
        p.accepts(input, value, rest) ==> {
            let n = run_len(input, |c: char| is_quoted(c)) as int;
            n < input.len() && value@ == input.take(n) && rest == input.skip(n)
        }
    &&& forall|input: Seq<char>| #[trigger]
        p.rejects(input) ==> run_len(input, |c: char| is_quoted(c)) == input.len()
}

/// `p` matches one quote.
pub open spec fn parses_quote<P: Parser<Output = char>>(p: P) -> bool {
    p.wf() && matches_one_of(p, |c: char| is_quote(c))
}

/// The characters of a text literal up to its closing quote, which is left
/// unconsumed.
fn quoted(_open: char) -> (p: impl Parser<Output = Vec<char>>)
    ensures
        parses_quoted(p),
{
    let element = any();
    let stop = character('"');
    let p = element.until(stop);
    proof {
        let every = |c: char| true;
        let closing = |c: char| c == '"';
        let inside = |c: char| is_quoted(c);
        lemma_one_of_consumes(element, every);
        assert forall|input: Seq<char>, value: Vec<char>, rest: Seq<char>| #[trigger]
            p.accepts(input, value, rest) implies {
            let n = run_len(input, inside) as int;
            n < input.len() && value@ == input.take(n) && rest == input.skip(n)
        } by {
            lemma_until_of_class(element, stop, every, closing, inside, input, value@, rest);
            lemma_until_yields_run(element, stop, every, closing, inside, input, value@, rest);
        }
        assert forall|input: Seq<char>| #[trigger] p.rejects(input) implies run_len(input, inside)
            == input.len() by {
            if input.len() > 0 {
                lemma_until_of_class_fails(element, stop, every, closing, inside, input);
                lemma_run_len_bound(input, inside);
                if run_len(input, inside) < input.len() {
                    lemma_run_len(input, inside, run_len(input, inside) as int);
                }
            }
        }
    }
    p
}

/// A quote, then what `f` makes of it, then a quote, turned into a text,
/// is a text literal.
proof fn lemma_string_grammar<O, F, Q, C, G>(
    p: Mapped<ZipLeft<FlatMap<O, F, Q>, C>, G, String>,
) where
    O: Parser<Output = char>,
    F: FnMut(char) -> Q,
    Q: Parser<Output = Vec<char>>,
    C: Parser<Output = char>,
    G: FnMut(Vec<char>) -> String,

    requires
        parses_quote(p.parser.left.parser),
        forall|open: char| #[trigger] call_requires(p.parser.left.f, (open,)),
        forall|open: char, next: Q| #[trigger]
            call_ensures(p.parser.left.f, (open,), next) ==> parses_quoted(next),
        parses_quote(p.parser.right),
        forall|chars: Vec<char>| #[trigger] call_requires(p.f, (chars,)),
        forall|chars: Vec<char>, text: String| #[trigger]
            call_ensures(p.f, (chars,), text) ==> text@ == chars@,
    ensures
        implements(p, |input: Seq<char>| spec_string(input)),
{
    let closed = p.parser;
    let body = closed.left;
    let opening = body.parser;
    let inside = |c: char| is_quoted(c);
    assert forall|input: Seq<char>, value: String, rest: Seq<char>| #[trigger]
        p.accepts(input, value, rest) implies spec_string(input) == Some((value@, rest)) by {
        let chars = lemma_mapped_witness(p, input, value, rest);
        let quote = choose|quote: char|
            accepts_then(closed.left, closed.right, input, chars, quote, rest);
        let mid = lemma_then_witness(closed.left, closed.right, input, chars, quote, rest);
        let steps = lemma_flat_map_witness(body, input, chars, mid);
        let n = run_len(input.skip(1), inside) as int;
        assert(steps.1 == input.skip(1));
        assert(mid == input.skip(1).skip(n));
        assert(rest =~= input.skip(1).skip(n + 1));
    }
    assert forall|input: Seq<char>| #[trigger] p.rejects(input) implies spec_string(
        input,
    ) is None by {
        if input.len() > 0 && is_quote(input[0]) {
            let text = input.skip(1);
            let n = run_len(text, inside) as int;
            if n < text.len() {
                lemma_run_len(text, inside, n);
                if body.rejects(input) {
                    let steps = lemma_flat_map_failure(body, input);
                    assert(steps.1 == text);
                } else {
                    let step = lemma_then_failure(closed.left, closed.right, input);
                    let steps = lemma_flat_map_witness(body, input, step.0, step.1);
                    assert(steps.1 == text);
                    assert(step.1 == text.skip(n));
                    assert(step.1[0] == text[n]);
                }
            }
        }
    }
}

/// Parses a text literal.
#[must_use]
pub fn string() -> (p: impl Parser<Output = String>)
    ensures
        implements(p, |input: Seq<char>| spec_string(input)),
{
    let to_text = |chars: Vec<char>| -> (text: String)
        ensures
            text@ == chars@,
        {
            collect_string(chars)
        };
    let p = character('"').flat_map(quoted).zip_left(character('"')).map(to_text);
    proof {
        lemma_string_grammar(p);
    }
    p
}

/// A character that may start an identifier.
pub open spec fn is_ident_start(c: char) -> bool {
    c == '_' || 'a' <= c <= 'z' || 'A' <= c <= 'Z'
}

/// A character that may stand inside an identifier.
pub open spec fn is_ident_part(c: char) -> bool {
    is_ident_start(c) || '0' <= c <= '9'
}

/// An identifier: a letter or underscore, and the letters, digits and
/// underscores that follow it.
pub open spec fn spec_ident(input: Seq<char>) -> Parsed<Seq<char>> {
    if input.len() > 0 && is_ident_start(input[0]) {
        let n = 1 + run_len(input.skip(1), |c: char| is_ident_part(c)) as int;
        Some((input.take(n), input.skip(n)))
    } else {
        None
    }
}

/// Matches the first character of an identifier.
fn ident_start() -> (p: impl Parser<Output = char>)
    ensures
        p.wf(),
        matches_one_of(p, |c: char| is_ident_start(c)),
        yields_first(p),
{
    let collapse = |either: Either<Either<char, char>, char>| -> (c: char)
        ensures
            c == Get::<char>::spec_get(either),
        {
            either.get()
        };
    let p = character('_').or(range('a'..='z')).or(range('A'..='Z')).map(collapse);
    proof {
        lemma_mapped(p);
    }
    p
}

/// Matches a character of an identifier after its first.
fn ident_part() -> (p: impl Parser<Output = char>)
    ensures
        p.wf(),
        matches_one_of(p, |c: char| is_ident_part(c)),
        yields_first(p),
{
    let collapse = |either: Either<Either<Either<char, char>, char>, char>| -> (c: char)
        ensures
            c == Get::<char>::spec_get(either),
        {
            either.get()
        };
    let p = character('_').or(range('a'..='z')).or(range('A'..='Z')).or(range('0'..='9')).map(
        collapse,
    );
    proof {
        lemma_mapped(p);
    }
    p
}

/// Parses an identifier.
#[must_use]
pub fn ident() -> (p: impl Parser<Output = String>)
    ensures
        implements(p, |input: Seq<char>| spec_ident(input)),
{
    from_fn(
        (|input: &str| -> (res: Result<(String, &str), Error>)
            ensures
                agrees(res, input@, spec_ident(input@)),
            {
                let mut first = ident_start();
                let part = ident_part();
                proof {
                    lemma_one_of_consumes(part, |c: char| is_ident_part(c));
                }
                let mut other = many(part);
                let (first_char, tail) = first.parse(input)?;
                let (parsed, rest) = other.parse(tail)?;
                let mut chars: Vec<char> = Vec::new();
                chars.push(first_char);
                let mut parsed = parsed;
                proof {
                    let class = |c: char| is_ident_part(c);
                    let n = run_len(tail@, class) as int;
                    lemma_many_yields_run(part, class, tail@, parsed@, rest@);
                    lemma_run_len_bound(tail@, class);
                    lemma_suffix_trans(rest@, tail@, input@);
                    assert(seq![first_char] + tail@.take(n) =~= input@.take(1 + n));
                    assert(tail@.skip(n) =~= input@.skip(1 + n));
                }
                chars.append(&mut parsed);
                Ok((collect_string(chars), rest))
            }),
    )
}

/// A number: the decimal digits at the start of the text, at least one,
/// read as an `i32`; numbers above `i32::MAX` are not parsed.
pub open spec fn spec_number(input: Seq<char>) -> Parsed<i32> {
    let n = run_len(input, |c: char| is_digit(c)) as int;
    match decimal_i32(input.take(n)) {
        Some(value) => Some((value, input.skip(n))),
        None => None,
    }
}

/// Parses a number.
#[must_use]
pub fn number() -> (p: impl Parser<Output = i32>)
    ensures
        implements(p, |input: Seq<char>| spec_number(input)),
{
    from_fn(
        (|input: &str| -> (res: Result<(i32, &str), Error>)
            ensures
                agrees(res, input@, spec_number(input@)),
            {
                let digit = range('0'..='9');
                proof {
                    lemma_one_of_consumes(digit, |c: char| is_digit(c));
                }
                let mut parser = many(digit);
                let (parsed, rest) = parser.parse(input)?;
                proof {
                    lemma_many_yields_run(digit, |c: char| is_digit(c), input@, parsed@, rest@);
                }
                if let Some(n) = digits_to_i32(&parsed) {
                    Ok((n, rest))
                } else {
                    Err(Error)
                }
            }),
    )
}

/// A text literal as a node.
pub open spec fn spec_lisp_string(input: Seq<char>) -> Parsed<LispValue> {
    match spec_string(input) {
        Some((text, rest)) => Some((LispValue::String(text), rest)),
        None => None,
    }
}

/// An identifier as a node.
pub open spec fn spec_lisp_ident(input: Seq<char>) -> Parsed<LispValue> {
    match spec_ident(input) {
        Some((name, rest)) => Some((LispValue::Ident(name), rest)),
        None => None,
    }
}

/// Parses a text literal into a node.
#[must_use]
pub fn lisp_string() -> (p: impl Parser<Output = LispObject>)
    ensures
        implements(p, |input: Seq<char>| spec_lisp_string(input)),
{
    let wrap = |text: String| -> (node: LispObject)
        ensures
            node@ == LispValue::String(text@),
        {
            LispObject::String(text)
        };
    let p = string().map(wrap);
    proof {
        lemma_mapped(p);
    }
    p
}

/// Parses an identifier into a node.
#[must_use]
pub fn lisp_ident() -> (p: impl Parser<Output = LispObject>)
    ensures
        implements(p, |input: Seq<char>| spec_lisp_ident(input)),
{
    let wrap = |name: String| -> (node: LispObject)
        ensures
            node@ == LispValue::Ident(name@),
        {
            LispObject::Ident(name)
        };
    let p = ident().map(wrap);
    proof {
        lemma_mapped(p);
    }
    p
}

/// A text without the blanks at its start.
pub open spec fn skip_blanks(input: Seq<char>) -> Seq<char> {
    input.skip(run_len(input, |c: char| is_whitespace(c)) as int)
}

/// A node: a text literal, or else an identifier, or else a list.
pub open spec fn spec_object(input: Seq<char>) -> Parsed<LispValue>
    decreases input.len(), 2int,
{
    if spec_lisp_string(input) is Some {
        spec_lisp_string(input)
    } else if spec_lisp_ident(input) is Some {
        spec_lisp_ident(input)
    } else {
        spec_list(input)
    }
}

/// A list: an opening parenthesis, nodes separated by blanks, and a closing
/// parenthesis; blanks may follow each parenthesis and precede the closing
/// one.
pub open spec fn spec_list(input: Seq<char>) -> Parsed<LispValue>
    decreases input.len(), 1int,
    via spec_list_decreases
{
    if input.len() > 0 && input[0] == '(' {
        let (items, end) = spec_items(skip_blanks(input.skip(1)));
        let after = skip_blanks(end);
        if after.len() > 0 && after[0] == ')' {
            Some((LispValue::List(items), skip_blanks(after.skip(1))))
        } else {
            None
        }
    } else {
        None
    }
}

/// The nodes at the start of a text, each followed by blanks, as many as
/// there are, and what follows them.
pub open spec fn spec_items(input: Seq<char>) -> (Seq<LispValue>, Seq<char>)
    decreases input.len(), 3int,
    via spec_items_decreases
{
    match spec_object(input) {
        Some((item, rest)) => if rest.len() < input.len() {
            let (more, end) = spec_items(skip_blanks(rest));
            (seq![item] + more, end)
        } else {
            (Seq::empty(), input)
        },
        None => (Seq::empty(), input),
    }
}

/// Skipping blanks makes a text no longer.
pub proof fn lemma_skip_blanks(input: Seq<char>)
    ensures
        is_suffix(skip_blanks(input), input),
        skip_blanks(input).len() <= input.len(),
{
    lemma_run_len_bound(input, |c: char| is_whitespace(c));
    lemma_skip_is_suffix(input, run_len(input, |c: char| is_whitespace(c)) as int);
}

#[via_fn]
proof fn spec_list_decreases(input: Seq<char>) {
    if input.len() > 0 {
        lemma_skip_blanks(input.skip(1));
    }
}

#[via_fn]
proof fn spec_items_decreases(input: Seq<char>) {
    assert forall|rest: Seq<char>| #[trigger] skip_blanks(rest).len() <= rest.len() by {
        lemma_skip_blanks(rest);
    }
}

/// What the nodes of a list stand for, in order.
pub open spec fn views(items: Seq<LispObject>) -> Seq<LispValue> {
    Seq::new(items.len(), |i: int| items[i]@)
}

/// A list node stands for the list of what its nodes stand for.
pub proof fn lemma_list_view(items: Vec<LispObject>)
    ensures
        LispObject::List(items)@ == LispValue::List(views(items@)),
{
    assert(LispObject::List(items)@->List_0 =~= views(items@));
}

/// Drops the blanks at the start of a text.
fn skip_whitespace(input: &str) -> (rest: &str)
    ensures
        rest@ == skip_blanks(input@),
        is_suffix(rest@, input@),
{
    let blank = whitespace();
    proof {
        lemma_one_of_consumes(blank, |c: char| is_whitespace(c));
    }
    let mut blanks = many(blank);
    match blanks.parse(input) {
        Ok((dropped, rest)) => {
            proof {
                lemma_many_of_class(blank, |c: char| is_whitespace(c), input@, dropped@, rest@);
            }
            rest
        },
        Err(_) => input,
    }
}

/// Parses one node: a text literal, an identifier or a list.
fn parse_object(input: &str) -> (res: Result<(LispObject, &str), Error>)
    ensures
        agrees(res, input@, spec_object(input@)),
        res matches Ok((_, rest)) ==> rest@.len() < input@.len(),
    decreases input@.len(), 1int,
{
    let mut leaf = lisp_string().or(lisp_ident());
    match leaf.parse(input) {
        Ok((node, rest)) => {
            proof {
                lemma_run_len_bound(input@.skip(1), |c: char| is_ident_part(c));
            }
            Ok((node.get(), rest))
        },
        Err(_) => parse_list(input),
    }
}

/// Parses a list of nodes in parentheses.
fn parse_list(input: &str) -> (res: Result<(LispObject, &str), Error>)
    ensures
        agrees(res, input@, spec_list(input@)),
        res matches Ok((_, rest)) ==> rest@.len() < input@.len(),
    decreases input@.len(), 0int,
{
    let mut opening = character('(');
    let (_, inside) = opening.parse(input)?;
    let start = skip_whitespace(inside);
    let mut items: Vec<LispObject> = Vec::new();
    let mut cur = start;
    proof {
        lemma_suffix_trans(start@, inside@, input@);
        assert(views(items@) + spec_items(start@).0 =~= spec_items(start@).0);
    }
    loop
        invariant
            input@.len() > 0,
            input@[0] == '(',
            start@ == skip_blanks(input@.skip(1)),
            is_suffix(cur@, input@),
            cur@.len() < input@.len(),
            spec_items(start@) == (views(items@) + spec_items(cur@).0, spec_items(cur@).1),
        ensures
            spec_items(start@) == (views(items@), cur@),
        decreases cur@.len(),
    {
        match parse_object(cur) {
            Ok((item, rest)) => {
                let next = skip_whitespace(rest);
                proof {
                    lemma_suffix_trans(next@, rest@, cur@);
                    lemma_suffix_trans(next@, cur@, input@);
                    let more = spec_items(next@).0;
                    assert(views(items@.push(item)) + more =~= views(items@) + (seq![item@]
                        + more));
                }
                items.push(item);
                cur = next;
            },
            Err(_) => {
                proof {
                    assert(views(items@) + Seq::<LispValue>::empty() =~= views(items@));
                }
                break;
            },
        }
    }
    let after = skip_whitespace(cur);
    let mut closing = character(')');
    let (_, tail) = closing.parse(after)?;
    let rest = skip_whitespace(tail);
    proof {
        lemma_list_view(items);
        lemma_suffix_trans(after@, cur@, input@);
        lemma_suffix_trans(tail@, after@, input@);
        lemma_suffix_trans(rest@, tail@, input@);
    }
    Ok((LispObject::List(items), rest))
}

/// Parses a node: a text literal, an identifier, or a list of nodes.
#[must_use]
pub fn lisp_object() -> (p: impl Parser<Output = LispObject>)
    ensures
        implements(p, |input: Seq<char>| spec_object(input)),
        consumes(p),
{
    from_fn(parse_object)
}

/// Parses a list of nodes in parentheses, and the blanks that follow it.
#[must_use]
pub fn lisp_list() -> (p: impl Parser<Output = LispObject>)
    ensures
        implements(p, |input: Seq<char>| spec_list(input)),
        consumes(p),
{
    from_fn(parse_list)
}

} // verus!
