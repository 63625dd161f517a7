use lisparser::lisp_comb::{
    ident, lisp_ident, lisp_list, lisp_object, lisp_string, number, string,
};
use lisparser::parser_comb::{Error, Parser};
use lisparser::LispObject;

#[test]
fn test_name() {
    let (parsed, rest) = string().parse(r#""hello""#).unwrap();
    assert_eq!(parsed, "hello");
    assert_eq!(rest, "");
    assert_eq!(Err(Error), string().parse(""));
}

#[test]
fn test_ident() {
    let (parsed, rest) = ident().parse("hello").unwrap();
    assert_eq!(parsed, "hello");
    assert_eq!(rest, "");
}

#[test]
fn test_number() {
    let (parsed, rest) = number().parse("123").unwrap();
    assert_eq!(parsed, 123);
    assert_eq!(rest, "");
    assert_eq!(Err(Error), number().parse(""));
    assert_eq!(Err(Error), number().parse("asd"));
}

#[test]
fn test_lisp_string() {
    let (parsed, rest) = lisp_string().parse(r#""ayo""#).unwrap();
    assert_eq!(parsed, LispObject::String("ayo".into()));
    assert_eq!(rest, "");
    assert_eq!(Err(Error), lisp_string().parse(""));
}

#[test]
fn test_lisp_ident() {
    let (parsed, rest) = lisp_ident().parse("foo").unwrap();
    assert_eq!(parsed, LispObject::Ident("foo".into()));
    assert_eq!(rest, "");
    assert_eq!(Err(Error), lisp_ident().parse(""));
}

#[test]
fn test_lisp_list() {
    let (parsed, rest) = lisp_list().parse("()").unwrap();
    assert_eq!(parsed, LispObject::List(vec![]));
    assert_eq!(rest, "");

    assert_eq!(Err(Error), lisp_list().parse(""));
}

#[test]
fn test_lisp() {
    let (parsed, rest) = lisp_object()
        .parse(r#"(asd ("asdasd" asd ("asd") asd) "asdasd" ())"#)
        .unwrap();

    assert_eq!(
        parsed,
        LispObject::List(vec![
            LispObject::Ident("asd".into()),
            LispObject::List(vec![
                LispObject::String("asdasd".into()),
                LispObject::Ident("asd".into()),
                LispObject::List(vec![LispObject::String("asd".into())]),
                LispObject::Ident("asd".into())
            ]),
            LispObject::String("asdasd".into()),
            LispObject::List(vec![])
        ])
    );
    assert_eq!(rest, "");
}
