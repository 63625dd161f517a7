use lisparser::parser_comb::{
    any, character, many, one_of, parse, range, whitespace, Either, Error, Parser,
};

#[test]
pub fn test_until() {
    let mut parser = any().until(character('!'));
    let (parsed, rest) = parser.parse("hello!").unwrap();
    assert_eq!(parsed, &['h', 'e', 'l', 'l', 'o']);
    assert_eq!(rest, "!");
    assert_eq!(Err(Error), parser.parse(""));
}

#[test]
pub fn test_zip_left() {
    let mut parser = character('a').zip_left(character('b'));

    let (parsed, rest) = parser.parse("ab").unwrap();
    assert_eq!(parsed, 'a');
    assert_eq!(rest, "");
    assert_eq!(Err(Error), parser.parse(""));
}

#[test]
pub fn test_zip_right() {
    let mut parser = character('a').zip_right(character('b'));

    let (parsed, rest) = parser.parse("ab").unwrap();
    assert_eq!(parsed, 'b');
    assert_eq!(rest, "");
    assert_eq!(Err(Error), parser.parse(""));
}

#[test]
pub fn test_flat_map() {
    let mut parser = any().flat_map(|c| {
        assert_eq!(c, 'a');
        character('b')
    });

    let (parsed, rest) = parser.parse("ab").unwrap();
    assert_eq!(parsed, 'b');
    assert_eq!(rest, "");
    assert_eq!(Err(Error), parser.parse(""));
}

#[test]
pub fn test_map() {
    let mut parser = character('a').map(|c| c.to_ascii_uppercase());

    let (parsed, rest) = parser.parse("a").unwrap();
    assert_eq!(parsed, 'A');
    assert_eq!(rest, "");
    assert_eq!(Err(Error), parser.parse(""));
}

#[test]
pub fn test_or() {
    let mut parser = character('a').or(character('b'));

    let (parsed, rest) = parser.parse("a").unwrap();
    assert_eq!(parsed, Either::A('a'));
    assert_eq!(rest, "");

    let (parsed, rest) = parser.parse("b").unwrap();
    assert_eq!(parsed, Either::B('b'));
    assert_eq!(rest, "");

    assert_eq!(Err(Error), parser.parse(""));
}

#[test]
pub fn test_character() {
    assert_eq!(Err(Error), parse(character('2'), "12"));

    let (c, rest) = character('1').parse("12").unwrap();
    assert_eq!(('1', "2"), (c, rest));
    assert_eq!(Ok(('2', "")), character('2').parse(rest));

    assert_eq!(Err(Error), parse(character('2'), ""));
}

#[test]
pub fn test_many() {
    let (parsed_ones, rest1) = many(character('1')).parse("1111222").unwrap();
    let (parsed_twos, rest2) = many(character('2')).parse(rest1).unwrap();
    assert_eq!(parsed_ones, &['1'; 4]);
    assert_eq!(rest1, "222");
    assert_eq!(parsed_twos, &['2'; 3]);
    assert_eq!(rest2, "");

    assert_eq!(Ok((vec![], "")), many(character('1')).parse(""));
}

#[test]
pub fn test_any() {
    let input = "()";
    let (parsed, rest) = any().parse(input).unwrap();
    assert_eq!(parsed, '(');
    assert_eq!(rest, ")");

    let input = "";
    assert_eq!(Err(Error), any().parse(input));
}

#[test]
pub fn test_whitespace() {
    let mut parser = many(whitespace());
    let (parsed, rest) = parser.parse("   \n    \tasdf").unwrap();
    assert_eq!(parsed, &[(); 9]);
    assert_eq!(rest, "asdf");
    assert_eq!(Ok((vec![], "")), parser.parse(""));
}

#[test]
pub fn test_one_of() {
    let mut parser = many(one_of("123"));
    let (parsed, rest) = parser.parse("2231235").unwrap();
    assert_eq!(parsed, &['2', '2', '3', '1', '2', '3']);
    assert_eq!(rest, "5");

    assert_eq!(Ok((vec![], "")), parser.parse(""));
    assert_eq!(Err(Error), one_of("").parse("123"));
}

#[test]
pub fn test_range() {
    let mut parser = many(range('a'..='z'));
    let (parsed, rest) = parser.parse("hello!").unwrap();
    assert_eq!(parsed, &['h', 'e', 'l', 'l', 'o']);
    assert_eq!(rest, "!");

    assert_eq!(Ok((vec![], "")), parser.parse(""));
    assert_eq!(Err(Error), range('a'..='a').parse("123"));
}
