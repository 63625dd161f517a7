use lisparser::parser_comb::{
    any, character, from_fn, many, one_of, parse, range, whitespace, Either, Error, Get, Parser,
};

fn join_as_number(digits: Vec<char>) -> u32 {
    let mut n = 0;
    for d in digits {
        n = n * 10 + d.to_digit(10).unwrap();
    }
    n
}

#[test]
fn remainder_is_suffix_and_prefix_plus_remainder_is_input() {
    let input = "abc123";
    let (parsed, rest) = many(range('a'..='z')).parse(input).unwrap();
    assert_eq!(parsed, vec!['a', 'b', 'c']);
    assert_eq!(rest, "123");
    assert!(input.ends_with(rest));
    let prefix = &input[..input.len() - rest.len()];
    assert_eq!(format!("{}{}", prefix, rest), input);
}

#[test]
fn many_with_zero_matches_leaves_input_unchanged() {
    assert_eq!(Ok((vec![], "abc")), many(character('x')).parse("abc"));
    assert_eq!(Ok((vec![], "")), many(any()).parse(""));
}

#[test]
fn many_stops_at_first_failure() {
    assert_eq!(Ok((vec!['a', 'a'], "ba")), many(character('a')).parse("aaba"));
}

#[test]
fn or_is_left_biased() {
    let mut parser = any().or(character('a'));
    assert_eq!(Ok((Either::A('a'), "")), parser.parse("a"));

    let mut parser = character('a').or(any());
    assert_eq!(Ok((Either::A('a'), "b")), parser.parse("ab"));
    assert_eq!(Ok((Either::B('x'), "b")), parser.parse("xb"));
}

#[test]
fn or_fails_only_if_both_fail() {
    let mut parser = character('a').or(character('b'));
    assert_eq!(Err(Error), parser.parse("c"));
}

#[test]
fn or_second_branch_starts_on_the_same_input() {
    let mut parser = character('a')
        .zip_left(character('b'))
        .or(character('a').zip_left(character('c')));
    assert_eq!(Ok((Either::B('a'), "")), parser.parse("ac"));
}

#[test]
fn until_stops_at_once_when_terminator_matches_first() {
    let mut parser = any().until(character('!'));
    assert_eq!(Ok((vec![], "!x")), parser.parse("!x"));
}

#[test]
fn until_fails_without_terminator() {
    let mut parser = any().until(character('!'));
    assert_eq!(Err(Error), parser.parse("abc"));
}

#[test]
fn until_fails_on_empty_input_even_if_terminator_would_match() {
    let mut parser = any().until(many(character('!')));
    assert_eq!(Err(Error), parser.parse(""));
    assert_eq!(Ok((vec![], "a")), parser.parse("a"));
}

#[test]
fn until_fails_when_element_fails_before_terminator() {
    let mut parser = character('a').until(character('!'));
    assert_eq!(Err(Error), parser.parse("aab!"));
    assert_eq!(Ok((vec!['a', 'a'], "!b")), parser.parse("aa!b"));
}

#[test]
fn until_scenario() {
    let mut parser = any().until(character('!'));
    assert_eq!(Ok((vec!['h', 'i'], "!")), parser.parse("hi!"));
    assert_eq!(Err(Error), parser.parse(""));
}

#[test]
fn until_leaves_terminator_for_the_next_parser() {
    let mut parser = any().until(character('!')).zip_left(character('!'));
    assert_eq!(Ok((vec!['h', 'i'], "?")), parser.parse("hi!?"));
}

#[test]
fn map_twice_is_map_of_composition() {
    let inputs = ["a", "ab", "b", ""];
    for input in inputs {
        let mut twice = character('a')
            .map(|c| c.to_ascii_uppercase())
            .map(|c| c as u32 + 1);
        let mut once = character('a').map(|c| c.to_ascii_uppercase() as u32 + 1);
        assert_eq!(twice.parse(input), once.parse(input));
    }
    let mut once = character('a').map(|c| c.to_ascii_uppercase() as u32 + 1);
    assert_eq!(Ok((66, "b")), once.parse("ab"));
}

#[test]
fn map_passes_failure_through() {
    let mut parser = character('a').map(|c| c.to_ascii_uppercase());
    assert_eq!(Err(Error), parser.parse("b"));
}

#[test]
fn parse_requires_the_whole_input() {
    assert_eq!(Err(Error), parse(character('a'), "ab"));
    assert_eq!(Ok(('a', "b")), character('a').parse("ab"));
    assert_eq!(Ok('a'), parse(character('a'), "a"));
    assert_eq!(Err(Error), parse(character('a'), "b"));
}

#[test]
fn number_scenario() {
    let parser = many(range('0'..='9')).map(join_as_number);
    assert_eq!(Ok(123), parse(parser, "123"));
}

#[test]
fn parenthesised_word_scenario() {
    let parser = character('(')
        .zip_right(many(range('a'..='z')))
        .zip_left(character(')'));
    assert_eq!(Ok(vec!['a', 'b', 'c']), parse(parser, "(abc)"));
}

#[test]
fn or_second_branch_scenario() {
    let mut parser = character('a').or(character('b'));
    assert_eq!(Ok((Either::B('b'), "")), parser.parse("b"));
}

#[test]
fn zip_short_circuits() {
    let mut left = character('a').zip_left(character('b'));
    assert_eq!(Err(Error), left.parse("xb"));
    assert_eq!(Err(Error), left.parse("ax"));
    assert_eq!(Ok(('a', "c")), left.parse("abc"));

    let mut right = character('a').zip_right(character('b'));
    assert_eq!(Err(Error), right.parse("xb"));
    assert_eq!(Err(Error), right.parse("ax"));
    assert_eq!(Ok(('b', "c")), right.parse("abc"));
}

#[test]
fn flat_map_depends_on_the_first_value() {
    let mut parser = any().flat_map(|open| character(open));
    assert_eq!(Ok(('x', "y")), parser.parse("xxy"));
    assert_eq!(Err(Error), parser.parse("xy"));
    assert_eq!(Err(Error), parser.parse("x"));
}

#[test]
fn leaf_parsers_consume_one_character() {
    assert_eq!(Ok(('é', "a")), character('é').parse("éa"));
    assert_eq!(Ok(('日', "本")), any().parse("日本"));
    assert_eq!(Ok(('本', "")), one_of("日本").parse("本"));
    assert_eq!(Ok(('β', "γ")), range('α'..='ω').parse("βγ"));
    assert_eq!(Err(Error), character('e').parse("éa"));
}

#[test]
fn range_is_inclusive_and_empty_range_fails() {
    assert_eq!(Ok(('a', "")), range('a'..='c').parse("a"));
    assert_eq!(Ok(('c', "")), range('a'..='c').parse("c"));
    assert_eq!(Err(Error), range('a'..='c').parse("d"));
    assert_eq!(Err(Error), range('a'..='c').parse(""));
    assert_eq!(Err(Error), range('z'..='a').parse("m"));
    assert_eq!(Ok(('a', "")), range('a'..='a').parse("a"));
}

#[test]
fn range_iterated_to_its_end_fails() {
    let mut spent = 'a'..='b';
    while spent.next().is_some() {}
    assert_eq!(Err(Error), range(spent).parse("a"));
}

#[test]
fn one_of_empty_set_fails() {
    assert_eq!(Err(Error), one_of("").parse("a"));
    assert_eq!(Err(Error), one_of("").parse(""));
    assert_eq!(Err(Error), one_of("abc").parse("d"));
    assert_eq!(Ok(('c', "d")), one_of("abc").parse("cd"));
}

#[test]
fn whitespace_matches_space_newline_tab() {
    assert_eq!(Ok(((), "a")), whitespace().parse(" a"));
    assert_eq!(Ok(((), "a")), whitespace().parse("\na"));
    assert_eq!(Ok(((), "a")), whitespace().parse("\ta"));
    assert_eq!(Err(Error), whitespace().parse("a"));
    assert_eq!(Err(Error), whitespace().parse("\r"));
    assert_eq!(Err(Error), whitespace().parse(""));
}

#[test]
fn from_fn_delegates() {
    let mut parser = from_fn(|input: &str| {
        if let Some(rest) = input.strip_prefix("ab") {
            Ok((2u8, rest))
        } else {
            Err(Error)
        }
    });
    assert_eq!(Ok((2, "c")), parser.parse("abc"));
    assert_eq!(Err(Error), parser.parse("ba"));
}

#[test]
fn from_fn_may_keep_state_of_its_own() {
    let mut calls = 0;
    let mut parser = many(from_fn(move |input: &str| {
        calls += 1;
        match input.chars().next() {
            Some(c) => Ok(((calls, c), &input[c.len_utf8()..])),
            None => Err(Error),
        }
    }));
    assert_eq!(Ok((vec![(1, 'a'), (2, 'b')], "")), parser.parse("ab"));
}

#[test]
fn get_collapses_nested_branches() {
    let first: Either<Either<char, char>, char> = Either::A(Either::A('x'));
    let second: Either<Either<char, char>, char> = Either::A(Either::B('y'));
    let third: Either<Either<char, char>, char> = Either::B('z');
    let x: char = first.get();
    let y: char = second.get();
    let z: char = third.get();
    assert_eq!(('x', 'y', 'z'), (x, y, z));
    let same: char = 'w'.get();
    assert_eq!('w', same);
}

#[test]
fn parsers_can_be_run_again() {
    let mut parser = many(character('a')).zip_left(character('b'));
    assert_eq!(Ok((vec!['a'], "")), parser.parse("ab"));
    assert_eq!(Ok((vec![], "")), parser.parse("b"));
    assert_eq!(Err(Error), parser.parse("aa"));
    assert_eq!(Ok((vec!['a', 'a'], "c")), parser.parse("aabc"));
}

#[test]
fn error_can_be_cloned() {
    assert_eq!(Error, Error.clone());
}
