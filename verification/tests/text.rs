use lisparser::text::{collect_string, contains_char, digits_to_i32, split_first};

#[test]
fn split_first_hands_out_first_character_and_rest() {
    assert_eq!(Some(('h', "ello")), split_first("hello"));
    assert_eq!(Some(('é', "t")), split_first("ét"));
    assert_eq!(Some(('x', "")), split_first("x"));
    assert_eq!(None, split_first(""));
}

#[test]
fn contains_char_finds_members() {
    assert!(contains_char("abc", 'a'));
    assert!(contains_char("abc", 'c'));
    assert!(!contains_char("abc", 'd'));
    assert!(!contains_char("", 'a'));
    assert!(contains_char("日本", '本'));
}

#[test]
fn collect_string_keeps_order() {
    assert_eq!("abc", collect_string(vec!['a', 'b', 'c']));
    assert_eq!("", collect_string(vec![]));
    assert_eq!("é日", collect_string(vec!['é', '日']));
}

#[test]
fn digits_to_i32_reads_decimal() {
    assert_eq!(Some(0), digits_to_i32(&vec!['0']));
    assert_eq!(Some(7), digits_to_i32(&vec!['0', '0', '7']));
    assert_eq!(Some(123), digits_to_i32(&vec!['1', '2', '3']));
    assert_eq!(Some(i32::MAX), digits_to_i32(&"2147483647".chars().collect()));
}

#[test]
fn digits_to_i32_rejects_what_is_no_i32() {
    assert_eq!(None, digits_to_i32(&vec![]));
    assert_eq!(None, digits_to_i32(&"2147483648".chars().collect()));
    assert_eq!(None, digits_to_i32(&"99999999999".chars().collect()));
    assert_eq!(None, digits_to_i32(&vec!['1', 'a']));
    assert_eq!(None, digits_to_i32(&vec!['-', '1']));
}
