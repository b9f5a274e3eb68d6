use boxrs::text::{chars_of, string_of};

#[test]
fn characters_of_a_string() {
    assert_eq!(chars_of(""), Vec::<char>::new());
    assert_eq!(chars_of("a\u{e9}\u{1f600}b"), vec!['a', '\u{e9}', '\u{1f600}', 'b']);
}

#[test]
fn a_string_of_some_characters() {
    let v = chars_of("h\u{e9}llo");
    assert_eq!(string_of(&v, 0, 5), "h\u{e9}llo");
    assert_eq!(string_of(&v, 1, 3), "\u{e9}l");
    assert_eq!(string_of(&v, 2, 2), "");
    assert_eq!(string_of(&v, 5, 5), "");
}
