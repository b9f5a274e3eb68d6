use boxrs::dom::{elem, text, Node};
use boxrs::parse_html;

#[test]
fn dom_test_to_string() {
    let actual = elem("html")
        .add_attr("lang", "NL")
        .add_child(elem("head").add_child(elem("title").add_text("Hello, world!")))
        .add_child(
            elem("body")
                .add_child(elem("h1").add_text("Hi!"))
                .add_child(elem("p").add_text("Bye!")),
        );
    let expected = "\
        <html lang=\"NL\">\
            <head>\
                <title>Hello, world!</title>\
            </head>\
            <body>\
                <h1>Hi!</h1>\
                <p>Bye!</p>\
            </body>\
        </html>\
    ";
    assert_eq!(actual.to_string(), expected);
}

#[test]
fn test_inner_html() {
    let actual = elem("html").inner_html("<h1>hello</h1>").unwrap();
    let expected = "<html><h1>hello</h1></html>";
    assert_eq!(actual, parse_html(expected).unwrap());
}

#[test]
fn test_get_id() {
    let doc = elem("html").add_attr("id", "foo");
    assert_eq!(doc.get_id().unwrap(), "foo");
}

#[test]
fn test_get_classes() {
    let doc = elem("html").add_attr("class", "foo bar");
    let classes = doc.get_classes();
    assert!(classes.contains("foo"));
    assert!(classes.contains("bar"));
}

#[test]
fn get_id_takes_the_first_id_attribute() {
    let doc = elem("p").add_attr("id", "a").add_attr("id", "b");
    assert_eq!(doc.get_id(), Some("a"));
    assert_eq!(elem("p").get_id(), None);
    assert_eq!(text("x").get_id(), None);
}

#[test]
fn classes_are_the_pieces_between_spaces() {
    let doc = elem("p").add_attr("class", "a  b ");
    let classes = doc.get_classes();
    assert!(classes.contains("a"));
    assert!(classes.contains("b"));
    assert!(classes.contains(""));
    assert!(!classes.contains("a  b"));
    assert!(elem("p").get_classes().is_empty());
    assert!(!elem("p").add_attr("class", "").get_classes().is_empty());
    assert!(elem("p").add_attr("class", "").get_classes().contains(""));
}

#[test]
fn text_content_is_in_document_order() {
    let doc = elem("div")
        .add_text("a")
        .add_child(elem("b").add_text("b").add_child(elem("i").add_text("c")))
        .add_text("d");
    assert_eq!(doc.get_text_content(), "abcd");
    assert_eq!(text("x").get_text_content(), "x");
    assert_eq!(elem("p").get_text_content(), "");
}

#[test]
fn elements_by_tag_name_are_in_document_order() {
    let doc = elem("p")
        .add_attr("n", "0")
        .add_child(elem("div").add_child(elem("p").add_attr("n", "1")))
        .add_text("p")
        .add_child(elem("p").add_attr("n", "2"));
    let found = doc.get_elements_by_tag_name("p");
    assert_eq!(found.len(), 3);
    assert_eq!(found[0].get_attribute("n"), Some("0"));
    assert_eq!(found[1].get_attribute("n"), Some("1"));
    assert_eq!(found[2].get_attribute("n"), Some("2"));
    assert!(text("p").get_elements_by_tag_name("p").is_empty());
    assert!(doc.get_elements_by_tag_name("P").is_empty());
}

#[test]
fn builders_leave_text_nodes_alone() {
    let t = text("x")
        .add_child(elem("p"))
        .add_attr("a", "b")
        .add_children(vec![elem("q")])
        .add_attrs(vec![("c".to_owned(), "d".to_owned())])
        .add_text("y");
    assert_eq!(t, Node::text("x"));
    assert_eq!(text("x").inner_html("<").unwrap(), text("x"));
}

#[test]
fn add_children_and_attrs_append_in_order() {
    let a = elem("p")
        .add_attr("a", "1")
        .add_attrs(vec![("b".to_owned(), "2".to_owned()), ("c".to_owned(), "3".to_owned())])
        .add_child(elem("x"))
        .add_children(vec![elem("y"), text("z")]);
    assert_eq!(a.to_string(), "<p a=\"1\" b=\"2\" c=\"3\"><x></x><y></y>z</p>");
}

#[test]
fn nodes_differ_by_tag_attribute_order_and_children() {
    assert_ne!(elem("a"), elem("b"));
    assert_ne!(elem("a"), text("a"));
    assert_ne!(text("a"), text("b"));
    assert_ne!(
        elem("a").add_attr("x", "1").add_attr("y", "2"),
        elem("a").add_attr("y", "2").add_attr("x", "1")
    );
    assert_ne!(elem("a").add_child(elem("b")), elem("a"));
    assert_ne!(elem("a").add_child(elem("b")), elem("a").add_child(elem("c")));
    assert_eq!(elem("a").add_child(elem("b")), elem("a").add_child(elem("b")));
}

#[test]
fn inner_html_replaces_the_children() {
    let n = elem("div").add_text("old").inner_html("<p>new</p>tail").unwrap();
    assert_eq!(n.to_string(), "<div><p>new</p>tail</div>");
    assert!(elem("div").inner_html("<p>").is_none());
}
