use boxrs::css::{px, rule, selector, sheet, AttrOp, Color, Unit, Value};
use boxrs::dom::{elem, text};
use boxrs::style::{get_specified_values, match_rule, style_tree, Display};
use boxrs::{build_style_tree, parse_css, parse_html};

#[test]
fn test_styled_node() {
    let document = elem("html")
        .add_attr("lang", "NL")
        .inner_html(
            r#"
            <head>
                <title>Hello, world!</title>
            </head>
            <body class="bar">
                <h1>Hi!</h1>
                <p>Bye!</p>
            </body>"#,
        )
        .unwrap();

    let style = sheet().add_rule(
        rule()
            .add_selector(selector().add_tag("body").add_class("foo"))
            .add_selector(selector().add_tag("p"))
            .add_declaration("margin", Value::Keyword("auto".to_owned()))
            .add_declaration("width", Value::Length(px(24), Unit::Px)),
    );

    let actual = style_tree(&document, &style);

    // element p matches selector p
    let p = &actual.children[1].children[1].specified_values;
    assert_eq!(p.len(), 2);
    assert_eq!(p.get("margin"), Some(&Value::Keyword("auto".to_owned())));
    assert_eq!(p.get("width"), Some(&Value::Length(px(24), Unit::Px)));

    // element class bar does not match selector class foo
    assert!(actual.children[1].specified_values.is_empty());
}

#[test]
fn test_to_str() {
    let document = elem("html")
        .inner_html(
            r#"
            <body class="bar">
                <h1>Hi!</h1>
                <p>Bye!</p>
            </body>"#,
        )
        .unwrap();

    let style = sheet().add_rule(
        rule()
            .add_selector(selector().add_tag("body").add_class("foo"))
            .add_selector(selector().add_tag("p"))
            .add_declaration("margin", Value::Keyword("auto".to_owned()))
            .add_declaration("width", Value::Length(px(24), Unit::Px)),
    );

    let actual = style_tree(&document, &style);
    let expected = r#"<html style=""><body class="bar" style=""><h1 style="">Hi!</h1><p style="margin:auto;width:24px;">Bye!</p></body></html>"#;
    assert_eq!(actual.to_string(), expected);
}

#[test]
fn style_attribute_lists_names_in_ascending_order() {
    let document = elem("p").add_attr("a", "b");
    let style = parse_css("p{width:1px;b:c;a:d;margin:0;ab:e;B:f}").unwrap();
    let actual = build_style_tree(&document, &style);
    assert_eq!(
        actual.to_string(),
        r#"<p a="b" style="B:f;a:d;ab:e;b:c;margin:0px;width:1px;"></p>"#
    );
    assert_eq!(actual.specified_values.to_string(), "B:f;a:d;ab:e;b:c;margin:0px;width:1px;");
}

#[test]
fn an_id_outranks_a_class() {
    // The rule with the id wins whichever comes first.
    let node = elem("p").add_attr("id", "a").add_attr("class", "b");
    let red = Value::Keyword("red".to_owned());
    let style = parse_css("#a{color:red;} .b{color:blue;}").unwrap();
    assert_eq!(get_specified_values(&node, &style).get("color"), Some(&red));
    let style = parse_css(".b{color:blue;} #a{color:red;}").unwrap();
    assert_eq!(get_specified_values(&node, &style).get("color"), Some(&red));
}

#[test]
fn of_rules_with_equal_specificity_the_later_wins() {
    let node = elem("p").add_attr("class", "a b");
    let style = parse_css(".a{color:red;x:1px} .b{color:blue;}").unwrap();
    let values = get_specified_values(&node, &style);
    assert_eq!(values.get("color"), Some(&Value::Keyword("blue".to_owned())));
    assert_eq!(values.get("x"), Some(&Value::Length(1_000, Unit::Px)));
    let style = parse_css(".b{color:blue;} .a{color:red;}").unwrap();
    assert_eq!(
        get_specified_values(&node, &style).get("color"),
        Some(&Value::Keyword("red".to_owned()))
    );
    // Within one rule the later declaration wins.
    let style = parse_css("p{color:red;color:green}").unwrap();
    assert_eq!(
        get_specified_values(&node, &style).get("color"),
        Some(&Value::Keyword("green".to_owned()))
    );
}

#[test]
fn a_rule_ranks_by_its_best_matching_selector() {
    let node = elem("p").add_attr("id", "i");
    // The selectors of the first rule are not in order of specificity.
    let first = rule()
        .add_selector(selector().add_tag("p"))
        .add_selector(selector().add_id("i"))
        .add_selector(selector().add_id("other").add_class("x").add_tag("p"))
        .add_declaration("color", Value::Keyword("red".to_owned()));
    let second = rule()
        .add_selector(selector().add_tag("p").add_attr("a", AttrOp::Eq, "b"))
        .add_declaration("color", Value::Keyword("blue".to_owned()));
    assert_eq!(match_rule(&node, &first).map(|m| m.0), Some((1, 0, 0)));
    assert_eq!(match_rule(&node, &second).map(|m| m.0), Some((0, 1, 1)));
    assert!(match_rule(&elem("q"), &first).is_none());
    let style = sheet().add_rule(first).add_rule(second);
    assert_eq!(
        get_specified_values(&node, &style).get("color"),
        Some(&Value::Keyword("red".to_owned()))
    );
}

#[test]
fn a_selector_matches_by_tag_id_and_classes() {
    let node = elem("p").add_attr("id", "i").add_attr("class", "a b").add_attr("lang", "nl");
    assert!(boxrs::style::matches(&node, &selector()));
    assert!(boxrs::style::matches(&node, &selector().add_tag("p")));
    assert!(!boxrs::style::matches(&node, &selector().add_tag("P")));
    assert!(boxrs::style::matches(&node, &selector().add_id("i")));
    assert!(!boxrs::style::matches(&node, &selector().add_id("j")));
    assert!(boxrs::style::matches(&node, &selector().add_class("a")));
    assert!(boxrs::style::matches(&node, &selector().add_class("b").add_class("a")));
    assert!(!boxrs::style::matches(&node, &selector().add_class("a").add_class("c")));
    assert!(boxrs::style::matches(&node, &selector().add_tag("p").add_id("i").add_class("a")));
    // Attribute predicates are not looked at.
    assert!(boxrs::style::matches(&node, &selector().add_attr("lang", AttrOp::Eq, "fr")));
    assert!(boxrs::style::matches(&node, &selector().add_attr("none", AttrOp::Eq, "x")));
    // Text never matches.
    assert!(!boxrs::style::matches(&text("p"), &selector()));
    assert!(!boxrs::style::matches(&text("p"), &selector().add_tag("p")));
    // An element without an id matches no selector that names one, not even the empty id.
    assert!(!boxrs::style::matches(&elem("p"), &selector().add_id("")));
    assert!(!boxrs::style::matches(&elem("p"), &selector().add_id("i")));
    assert!(boxrs::style::matches(&elem("p").add_attr("id", ""), &selector().add_id("")));
    // The first id attribute is the element's id.
    let twice = elem("p").add_attr("id", "a").add_attr("id", "b");
    assert!(boxrs::style::matches(&twice, &selector().add_id("a")));
    assert!(!boxrs::style::matches(&twice, &selector().add_id("b")));
}

#[test]
fn nothing_is_inherited() {
    let document = parse_html("<body><p>x</p></body>").unwrap();
    let style = parse_css("body{color:red}").unwrap();
    let tree = style_tree(&document, &style);
    assert_eq!(tree.specified_values.get("color"), Some(&Value::Keyword("red".to_owned())));
    assert!(tree.children[0].specified_values.is_empty());
    assert!(tree.children[0].children[0].specified_values.is_empty());
    assert_eq!(tree.children[0].children[0].children.len(), 0);
    assert!(!tree.specified_values.contains_key("width"));
}

#[test]
fn display_kinds() {
    let show = |css: &str| {
        let document = elem("p");
        let style = parse_css(css).unwrap();
        style_tree(&document, &style).display()
    };
    assert!(show("p{display:block}") == Display::Block);
    assert!(show("p{display:inline-block}") == Display::InlineBlock);
    assert!(show("p{display:none}") == Display::Omitted);
    assert!(show("p{display:inline}") == Display::Inline);
    assert!(show("p{display:flex}") == Display::Inline);
    assert!(show("p{display:0}") == Display::Inline);
    assert!(show("p{}") == Display::Inline);
}

#[test]
fn value_and_lookup() {
    let document = elem("p");
    let style = parse_css("p{margin:1px;margin-left:2px;c:#010203}").unwrap();
    let node = style_tree(&document, &style);
    let zero = Value::Length(0, Unit::Px);
    assert_eq!(node.value("margin"), Some(Value::Length(1_000, Unit::Px)));
    assert_eq!(node.value("padding"), None);
    assert_eq!(node.value("c"), Some(Value::ColorValue(Color { r: 1, g: 2, b: 3, a: 255 })));
    assert_eq!(node.lookup("margin-left", "margin", &zero), Value::Length(2_000, Unit::Px));
    assert_eq!(node.lookup("margin-right", "margin", &zero), Value::Length(1_000, Unit::Px));
    assert_eq!(node.lookup("padding-left", "padding", &zero), zero);
}

#[test]
fn matching_rules_are_in_sheet_order() {
    let node = elem("p").add_attr("class", "a");
    let style = parse_css("q{} .a{x:y} p.a{} #i{} *,p{}").unwrap();
    let matched = boxrs::style::matching_rules(&node, &style);
    let ranks: Vec<_> = matched.iter().map(|m| m.0).collect();
    assert_eq!(ranks, vec![(0, 1, 0), (0, 1, 1), (0, 0, 1)]);
    assert_eq!(matched[0].1.declarations.len(), 1);
    assert!(boxrs::style::matching_rules(&text("p"), &style).is_empty());
}

#[test]
fn a_property_map_lists_names_in_the_order_they_came() {
    let mut m = boxrs::style::PropertyMap::new();
    assert_eq!(m.len(), 0);
    assert!(m.is_empty());
    assert_eq!(m.to_string(), "");
    m.insert("width".to_owned(), Value::Length(1_000, Unit::Px));
    m.insert("color".to_owned(), Value::Keyword("red".to_owned()));
    m.insert("width".to_owned(), Value::Length(2_000, Unit::Px));
    assert_eq!(m.len(), 2);
    assert_eq!(m.name_at(0), "width");
    assert_eq!(m.value_at(0), &Value::Length(2_000, Unit::Px));
    assert_eq!(m.name_at(1), "color");
    assert_eq!(m.value_at(1), &Value::Keyword("red".to_owned()));
    assert_eq!(m.get("width"), Some(&Value::Length(2_000, Unit::Px)));
    assert_eq!(m.get("height"), None);
    assert_eq!(m.to_string(), "color:red;width:2px;");
}

#[test]
fn the_cascade_lists_each_property_once_with_the_value_that_wins() {
    let node = elem("p").add_attr("id", "i");
    let style = parse_css("p{b:x;a:y} #i{a:z;c:w} p{b:v}").unwrap();
    let values = get_specified_values(&node, &style);
    assert_eq!(values.len(), 3);
    let listed: Vec<(String, String)> = (0..values.len())
        .map(|i| (values.name_at(i).to_owned(), values.value_at(i).to_string()))
        .collect();
    assert_eq!(
        listed,
        vec![
            ("b".to_owned(), "v".to_owned()),
            ("a".to_owned(), "z".to_owned()),
            ("c".to_owned(), "w".to_owned()),
        ]
    );
    for (name, value) in &listed {
        assert_eq!(values.get(name).map(|v| v.to_string()).as_ref(), Some(value));
    }
    assert_eq!(values.to_string(), "a:z;b:v;c:w;");
}
