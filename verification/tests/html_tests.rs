use boxrs::dom::{elem, text};
use boxrs::html::{is_alphanumeric, is_whitespace, Parser};
use boxrs::parse_html;

#[test]
fn test_from_string() {
    let expected = elem("html")
        .add_attr("lang", "NL")
        .add_child(elem("head").add_child(elem("title").add_text("Hello, world!")))
        .add_child(
            elem("body")
                .add_child(elem("h1").add_text("Hi!"))
                .add_child(elem("p").add_text("Bye!")),
        );
    let actual = "
            <html lang=\"NL\">
                <head>
                    <title>Hello, world!</title>
                </head>
                <body>
                    <h1>Hi!</h1>
                    <p>Bye!</p>
                </body>
            </html>
        ";
    assert_eq!(parse_html(actual).unwrap(), expected);
}

#[test]
fn several_roots_are_wrapped_in_html() {
    assert_eq!(
        parse_html("<a></a><b></b>").unwrap(),
        elem("html").add_child(elem("a")).add_child(elem("b"))
    );
    assert_eq!(parse_html("").unwrap(), elem("html"));
    assert_eq!(parse_html("   ").unwrap(), elem("html"));
    assert_eq!(parse_html("hello").unwrap(), text("hello"));
}

#[test]
fn parse_no_root_gives_the_nodes() {
    let nodes = Parser::parse_no_root("<a></a> text <b></b>".to_owned()).unwrap();
    assert_eq!(nodes.len(), 3);
    assert_eq!(nodes[0], elem("a"));
    assert_eq!(nodes[1], text("text "));
    assert_eq!(nodes[2], elem("b"));
    assert_eq!(Parser::parse_no_root("".to_owned()).unwrap().len(), 0);
}

#[test]
fn attributes_take_either_quote() {
    assert_eq!(
        parse_html("<a x='1' y=\"it's\"  z=''></a>").unwrap(),
        elem("a").add_attr("x", "1").add_attr("y", "it's").add_attr("z", "")
    );
}

#[test]
fn declarations_are_skipped_up_to_their_end() {
    assert_eq!(
        parse_html("<!DOCTYPE html><p></p>").unwrap(),
        elem("html").add_text(">").add_child(elem("p"))
    );
}

#[test]
fn what_follows_a_stray_end_tag_is_not_read() {
    assert_eq!(parse_html("<a></a></b><c>").unwrap(), elem("a"));
}

#[test]
fn malformed_documents_are_refused() {
    assert!(parse_html("<a>").is_none());
    assert!(parse_html("<a></b>").is_none());
    assert!(parse_html("<a x></a>").is_none());
    assert!(parse_html("<a x=1></a>").is_none());
    assert!(parse_html("<a x=\"1></a>").is_none());
    assert!(parse_html("<a").is_none());
    assert!(parse_html("<a></a").is_none());
    assert!(parse_html("<a><b></a></b>").is_none());
}

#[test]
fn text_keeps_its_trailing_white_space() {
    assert_eq!(parse_html("<p>  a b \n</p>").unwrap(), elem("p").add_text("a b \n"));
    assert_eq!(parse_html("<p>\u{00e9}t\u{00e9}</p>").unwrap(), elem("p").add_text("\u{00e9}t\u{00e9}"));
}

#[test]
fn white_space_and_name_characters() {
    for c in [' ', '\t', '\n', '\r', '\u{0b}', '\u{0c}', '\u{85}', '\u{a0}', '\u{3000}', '\u{2028}'] {
        assert!(is_whitespace(c));
        assert_eq!(is_whitespace(c), c.is_whitespace());
    }
    for c in ['a', '<', '\u{200b}', '0', '\u{1}'] {
        assert!(!is_whitespace(c));
    }
    for c in ['a', 'z', 'A', 'Z', '0', '9'] {
        assert!(is_alphanumeric(c));
    }
    for c in ['-', '_', ' ', '\u{e9}', '/'] {
        assert!(!is_alphanumeric(c));
    }
}
