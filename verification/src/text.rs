//! Helpers on text: suffixes of an input, splitting off its first character,
//! membership of a character in a text, leading runs of a class of
//! characters, building a `String`, and reading decimal digits.
use core::ops::RangeInclusive;
use core::str::Chars;
use vstd::prelude::*;
use vstd::std_specs::iter::IteratorSpec;

verus! {

/// `rest` is what is left of `input` after dropping some of its first
/// characters.
pub open spec fn is_suffix(rest: Seq<char>, input: Seq<char>) -> bool {
    rest.len() <= input.len() && input.skip(input.len() - rest.len()) == rest
}

/// The part of `input` that stands before its suffix `rest`.
pub open spec fn matched_prefix(input: Seq<char>, rest: Seq<char>) -> Seq<char> {
    input.take(input.len() - rest.len())
}

/// A text is a suffix of itself.
pub proof fn lemma_suffix_refl(s: Seq<char>)
    ensures
        is_suffix(s, s),
{
    assert(s.skip(0) =~= s);
}

/// A suffix of a suffix is a suffix.
pub proof fn lemma_suffix_trans(a: Seq<char>, b: Seq<char>, c: Seq<char>)
    requires
        is_suffix(a, b),
        is_suffix(b, c),
    ensures
        is_suffix(a, c),
{
    assert(c.skip(c.len() - a.len()) =~= c.skip(c.len() - b.len()).skip(b.len() - a.len()));
}

/// Dropping the first `n` characters leaves a suffix.
pub proof fn lemma_skip_is_suffix(input: Seq<char>, n: int)
    requires
        0 <= n <= input.len(),
    ensures
        is_suffix(input.skip(n), input),
{
}

/// An input is its matched prefix followed by the remainder.
pub proof fn lemma_matched_prefix(input: Seq<char>, rest: Seq<char>)
    requires
        is_suffix(rest, input),
    ensures
        input == matched_prefix(input, rest) + rest,
{
    assert(input =~= matched_prefix(input, rest) + rest);
}

/// `Chars::as_str` of std: the text that the iterator has not yet handed out.
pub assume_specification<'a>[ Chars::<'a>::as_str ](chars: &Chars<'a>) -> (rest: &'a str)
    ensures
        rest@ == chars.remaining(),
;

/// `String::push` of std: the character is appended.
pub assume_specification[ std::string::String::push ](s: &mut std::string::String, ch: char)
    ensures
        final(s)@ == old(s)@.push(ch),
;

/// `RangeInclusive::is_empty` of std, for characters: a range is empty when
/// it has been iterated to its end or its lower bound lies above its upper
/// bound.
#[verifier::external_body]
pub(crate) fn range_is_empty(range: &RangeInclusive<char>) -> (empty: bool)
    ensures
        empty == (range@.exhausted || range@.start > range@.end),
{
    range.is_empty()
}

/// `RangeInclusive::contains` of std, for characters and a range that has not
/// been iterated to its end: the character lies between the two bounds.
#[verifier::external_body]
pub(crate) fn range_contains(range: &RangeInclusive<char>, c: char) -> (inside: bool)
    ensures
        !range@.exhausted ==> inside == (range@.start <= c <= range@.end),
{
    range.contains(&c)
}

/// Splits a text into its first character and the rest, if it has one.
pub fn split_first<'s>(input: &'s str) -> (res: Option<(char, &'s str)>)
    ensures
        match res {
            Some((first, rest)) => input@.len() > 0 && first == input@[0] && rest@
                == input@.skip(1),
            None => input@.len() == 0,
        },
{
    let mut chars = input.chars();
    match chars.next() {
        Some(first) => Some((first, chars.as_str())),
        None => None,
    }
}

/// Whether `c` occurs in `chars`.
pub fn contains_char(chars: &str, c: char) -> (found: bool)
    ensures
        found == chars@.contains(c),
{
    let mut cur = chars;
    proof {
        lemma_suffix_refl(chars@);
    }
    loop
        invariant
            is_suffix(cur@, chars@),
            forall|k: int| 0 <= k < chars@.len() - cur@.len() ==> chars@[k] != c,
        decreases cur@.len(),
    {
        match split_first(cur) {
            Some((first, rest)) => {
                if first == c {
                    assert(chars@[chars@.len() - cur@.len()] == cur@[0]);
                    return true;
                }
                proof {
                    lemma_skip_is_suffix(cur@, 1);
                    lemma_suffix_trans(rest@, cur@, chars@);
                    assert(chars@[chars@.len() - cur@.len()] == cur@[0]);
                }
                cur = rest;
            },
            None => {
                return false;
            },
        }
    }
}

/// The text made of the characters of `chars`, in order.
pub fn collect_string(chars: Vec<char>) -> (s: String)
    ensures
        s@ == chars@,
{
    let mut s = String::new();
    let mut i: usize = 0;
    while i < chars.len()
        invariant
            i <= chars.len(),
            s@ == chars@.take(i as int),
        decreases chars.len() - i,
    {
        s.push(chars[i]);
        proof {
            assert(chars@.take(i as int).push(chars@[i as int]) =~= chars@.take(i + 1));
        }
        i += 1;
    }
    proof {
        assert(chars@.take(chars.len() as int) =~= chars@);
    }
    s
}

/// The number of leading characters of `input` for which `class` holds.
pub open spec fn run_len(input: Seq<char>, class: spec_fn(char) -> bool) -> nat
    decreases input.len(),
{
    if input.len() > 0 && class(input[0]) {
        1 + run_len(input.skip(1), class)
    } else {
        0
    }
}

/// The first `n` characters of `input` are of `class`, and the next one, if
/// there is one, is not.
pub open spec fn is_run(input: Seq<char>, class: spec_fn(char) -> bool, n: int) -> bool {
    &&& 0 <= n <= input.len()
    &&& forall|k: int| 0 <= k < n ==> class(#[trigger] input[k])
    &&& n < input.len() ==> !class(input[n])
}

/// The leading run of a class has the length that `run_len` gives, and no
/// other.
pub proof fn lemma_run_len(input: Seq<char>, class: spec_fn(char) -> bool, n: int)
    ensures
        is_run(input, class, n) <==> n == run_len(input, class),
    decreases input.len(),
{
    if input.len() > 0 && class(input[0]) {
        let tail = input.skip(1);
        lemma_run_len(tail, class, n - 1);
        if is_run(input, class, n) {
            if n == 0 {
                assert(!class(input[0]));
            }
            assert forall|k: int| 0 <= k < n - 1 implies class(#[trigger] tail[k]) by {
                assert(tail[k] == input[k + 1]);
            }
            assert(is_run(tail, class, n - 1));
        }
        if n == run_len(input, class) {
            assert(is_run(tail, class, n - 1));
            assert forall|k: int| 0 <= k < n implies class(#[trigger] input[k]) by {
                if k > 0 {
                    assert(input[k] == tail[k - 1]);
                }
            }
            if n < input.len() {
                assert(input[n] == tail[n - 1]);
            }
        }
    } else {
        if is_run(input, class, n) && n > 0 {
            assert(class(input[0]));
        }
    }
}

/// The leading run of a class is no longer than the text.
pub proof fn lemma_run_len_bound(input: Seq<char>, class: spec_fn(char) -> bool)
    ensures
        run_len(input, class) <= input.len(),
    decreases input.len(),
{
    if input.len() > 0 && class(input[0]) {
        lemma_run_len_bound(input.skip(1), class);
    }
}

/// A decimal digit.
pub open spec fn is_digit(c: char) -> bool {
    '0' <= c <= '9'
}

/// Every character of the text is a decimal digit.
pub open spec fn all_digits(digits: Seq<char>) -> bool {
    forall|k: int| 0 <= k < digits.len() ==> is_digit(#[trigger] digits[k])
}

/// The number that a decimal digit stands for.
pub open spec fn digit_value(c: char) -> int {
    c as u32 - '0' as u32
}

/// The number that a text of decimal digits stands for.
pub open spec fn decimal_value(digits: Seq<char>) -> int
    decreases digits.len(),
{
    if digits.len() == 0 {
        0
    } else {
        10 * decimal_value(digits.drop_last()) + digit_value(digits.last())
    }
}

/// The number that a text stands for as an `i32`: the text is made of one or
/// more decimal digits and its number is not above `i32::MAX`.
pub open spec fn decimal_i32(digits: Seq<char>) -> Option<i32> {
    if digits.len() > 0 && all_digits(digits) && decimal_value(digits) <= i32::MAX {
        Some(decimal_value(digits) as i32)
    } else {
        None
    }
}

/// A text of digits stands for no less than any of its prefixes.
pub proof fn lemma_decimal_value_prefix(digits: Seq<char>, n: int)
    requires
        all_digits(digits),
        0 <= n <= digits.len(),
    ensures
        0 <= decimal_value(digits.take(n)) <= decimal_value(digits),
    decreases digits.len() - n,
{
    if n == digits.len() {
        assert(digits.take(n) =~= digits);
        lemma_decimal_value_nonnegative(digits);
    } else {
        lemma_decimal_value_prefix(digits, n + 1);
        let longer = digits.take(n + 1);
        assert(longer.drop_last() =~= digits.take(n));
        assert(is_digit(digits[n]));
        lemma_decimal_value_nonnegative(digits.take(n));
    }
}

/// A text of digits stands for a number that is not negative.
pub proof fn lemma_decimal_value_nonnegative(digits: Seq<char>)
    requires
        all_digits(digits),
    ensures
        0 <= decimal_value(digits),
    decreases digits.len(),
{
    if digits.len() > 0 {
        assert(is_digit(digits.last()));
        lemma_decimal_value_nonnegative(digits.drop_last());
    }
}

/// Reads a text of decimal digits as an `i32`.
pub fn digits_to_i32(digits: &Vec<char>) -> (res: Option<i32>)
    ensures
        res == decimal_i32(digits@),
{
    if digits.len() == 0 {
        return None;
    }
    let mut value: i32 = 0;
    let mut i: usize = 0;
    while i < digits.len()
        invariant
            i <= digits.len(),
            all_digits(digits@.take(i as int)),
            value == decimal_value(digits@.take(i as int)),
            0 <= value,
        decreases digits.len() - i,
    {
        let c = digits[i];
        if !('0' <= c && c <= '9') {
            assert(!is_digit(digits@[i as int]));
            return None;
        }
        let digit: i32 = (c as u32 - '0' as u32) as i32;
        proof {
            let longer = digits@.take(i + 1);
            assert(longer.drop_last() =~= digits@.take(i as int));
            assert(longer.last() == c);
            assert forall|k: int| 0 <= k < longer.len() implies is_digit(#[trigger] longer[k]) by {
                if k < i {
                    assert(digits@.take(i as int)[k] == longer[k]);
                }
            }
        }
        if value > (i32::MAX - digit) / 10 {
            proof {
                if all_digits(digits@) {
                    lemma_decimal_value_prefix(digits@, i + 1);
                }
            }
            return None;
        }
        value = value * 10 + digit;
        i += 1;
    }
    proof {
        assert(digits@.take(digits.len() as int) =~= digits@);
    }
    Some(value)
}

} // verus!
