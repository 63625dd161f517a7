use lisparser::lisp_comb::{
    ident, lisp_ident, lisp_list, lisp_object, lisp_string, number, string,
};
use lisparser::parser_comb::{parse, Error, Parser};
use lisparser::LispObject;

#[test]
fn string_takes_up_to_the_next_quote() {
    assert_eq!(Ok(("a".to_string(), "b")), string().parse("\"a\"b"));
    assert_eq!(Ok(("".to_string(), "")), string().parse("\"\""));
    assert_eq!(Ok(("a b\n".to_string(), "\"")), string().parse("\"a b\n\"\""));
}

#[test]
fn string_needs_both_quotes() {
    assert_eq!(Err(Error), string().parse("\"abc"));
    assert_eq!(Err(Error), string().parse("\""));
    assert_eq!(Err(Error), string().parse("abc\""));
}

#[test]
fn ident_is_letters_digits_underscores() {
    assert_eq!(Ok(("_a1".to_string(), " b")), ident().parse("_a1 b"));
    assert_eq!(Ok(("Z".to_string(), "-")), ident().parse("Z-"));
    assert_eq!(Err(Error), ident().parse("1a"));
    assert_eq!(Err(Error), ident().parse(""));
}

#[test]
fn number_reads_leading_digits() {
    assert_eq!(Ok((123, "abc")), number().parse("123abc"));
    assert_eq!(Ok((7, "")), number().parse("007"));
    assert_eq!(Ok((i32::MAX, "")), number().parse("2147483647"));
}

#[test]
fn number_above_i32_is_not_parsed() {
    assert_eq!(Err(Error), number().parse("2147483648"));
    assert_eq!(Err(Error), number().parse("99999999999"));
    assert_eq!(Err(Error), number().parse("-1"));
}

#[test]
fn list_skips_blanks() {
    let (parsed, rest) = lisp_list().parse("( a  \"b\"\n\t)  x").unwrap();
    assert_eq!(
        parsed,
        LispObject::List(vec![
            LispObject::Ident("a".into()),
            LispObject::String("b".into())
        ])
    );
    assert_eq!(rest, "x");
}

#[test]
fn list_needs_closing_parenthesis() {
    assert_eq!(Err(Error), lisp_list().parse("(a"));
    assert_eq!(Err(Error), lisp_list().parse("(a \"b)"));
    assert_eq!(Err(Error), lisp_list().parse("a)"));
    assert_eq!(Err(Error), lisp_list().parse("(a 1)"));
}

#[test]
fn object_prefers_string_then_ident_then_list() {
    assert_eq!(
        Ok((LispObject::String("x".into()), "")),
        lisp_object().parse("\"x\"")
    );
    assert_eq!(
        Ok((LispObject::Ident("x".into()), " y")),
        lisp_object().parse("x y")
    );
    assert_eq!(
        Ok((LispObject::List(vec![LispObject::List(vec![])]), "")),
        lisp_object().parse("(())")
    );
    assert_eq!(Err(Error), lisp_object().parse(" x"));
    assert_eq!(Err(Error), lisp_object().parse("1"));
}

#[test]
fn object_nests_deeply() {
    let depth = 200;
    let input = format!("{}{}", "(".repeat(depth), ")".repeat(depth));
    let mut expected = LispObject::List(vec![]);
    for _ in 1..depth {
        expected = LispObject::List(vec![expected]);
    }
    assert_eq!(Ok(expected), parse(lisp_object(), &input));
}

#[test]
fn whole_input_must_be_a_node() {
    assert_eq!(Err(Error), parse(lisp_object(), "(a) b"));
    assert_eq!(
        Ok(LispObject::List(vec![LispObject::Ident("a".into())])),
        parse(lisp_object(), "(a)  ")
    );
}

#[test]
fn lisp_string_and_ident_wrap_their_text() {
    assert_eq!(
        Ok((LispObject::String("a".into()), "b")),
        lisp_string().parse("\"a\"b")
    );
    assert_eq!(
        Ok((LispObject::Ident("a".into()), "(")),
        lisp_ident().parse("a(")
    );
    assert_eq!(Err(Error), lisp_string().parse("a"));
    assert_eq!(Err(Error), lisp_ident().parse("\"a\""));
}

#[test]
fn clone_copies_the_tree() {
    let (parsed, _) = lisp_object().parse("(a (\"b\" c) ())").unwrap();
    let copy = parsed.clone();
    assert_eq!(parsed, copy);
}
