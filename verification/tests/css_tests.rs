use boxrs::css::{px, rule, selector, sheet, AttrOp, Color, Declaration, Selector, Unit, Value};
use boxrs::css_grammar::{
    color_value, comment, declaration, declaration_block, hex_value_one, hex_value_two, identifier,
    selectors,
};
use boxrs::parse_css;

#[test]
fn test_comment() {
    let actual = comment("/* foo */");
    let expected = Some(());
    assert_eq!(actual, expected);
}

#[test]
fn test_selectors() {
    let actual = selectors("a");
    let expected = Some(vec![Selector {
        tag: Some("a".to_owned()),
        id: None,
        class: vec![],
        attr: vec![],
    }]);
    assert_eq!(actual, expected);
}

#[test]
fn test_identifier() {
    let actual = identifier("a");
    let expected = Some("a".to_owned());
    assert_eq!(actual, expected);
}

#[test]
fn test_declaration_block() {
    let actual = declaration_block(
        "
            {
                foo: bar;
                baz: 42px;
            }
            ",
    );
    let expected = Some(vec![
        Declaration { name: "foo".to_owned(), value: Value::Keyword("bar".to_owned()) },
        Declaration { name: "baz".to_owned(), value: Value::Length(px(42), Unit::Px) },
    ]);
    assert_eq!(actual, expected);
}

#[test]
fn test_declaration() {
    let actual = declaration("foo: bar");
    let expected =
        Some(Declaration { name: "foo".to_owned(), value: Value::Keyword("bar".to_owned()) });
    assert_eq!(actual, expected);
}

#[test]
fn test_color_rgb_value() {
    let actual = color_value("rgb(1,2,3)");
    let expected = Some(Value::ColorValue(Color { r: 1, g: 2, b: 3, a: 255 }));
    assert_eq!(actual, expected);
}

#[test]
fn test_color_rgba_value() {
    let actual = color_value("rgba(1,2,3,4)");
    let expected = Some(Value::ColorValue(Color { r: 1, g: 2, b: 3, a: 4 }));
    assert_eq!(actual, expected);
}

#[test]
fn test_hex_value_one() {
    let actual = hex_value_one("f");
    let expected = Some(15);
    assert_eq!(actual, expected);
}

#[test]
fn test_hex_value_two() {
    let actual = hex_value_two("ff");
    let expected = Some(255);
    assert_eq!(actual, expected);
}

#[test]
fn test_color_hex_value_three() {
    let actual = color_value("#abc");
    let expected = Some(Value::ColorValue(Color { r: 170, g: 187, b: 204, a: 255 }));
    assert_eq!(actual, expected);
}

#[test]
fn test_color_hex_value_six() {
    let actual = color_value("#abcdef");
    let expected = Some(Value::ColorValue(Color { r: 171, g: 205, b: 239, a: 255 }));
    assert_eq!(actual, expected);
}

#[test]
fn test_from_str() {
    let css = parse_css(
        "
            a, b {
                display: block;
                background-color: #ff0000;
                margin: 24px;
                width: 100px;
            }

            c {
                display: inline;
                background-color: blue;
                margin: 24px;
                width: 32px;
                height: 24px;
            }
        ",
    )
    .unwrap();

    assert_eq!(css.0[0].selectors[0].tag, Some("a".to_owned()));
    assert_eq!(css.0[0].selectors[1].tag, Some("b".to_owned()));
    assert_eq!(css.0[0].declarations[0].name, "display".to_owned());

    assert_eq!(css.0[1].selectors[0].tag, Some("c".to_owned()));
}

fn decl(text: &str) -> Option<Value> {
    declaration(&format!("x:{}", text)).map(|d| d.value)
}

#[test]
fn lengths_are_thousandths_of_a_pixel() {
    assert_eq!(px(24), 24_000);
    assert_eq!(px(-3), -3_000);
    assert_eq!(decl("24px"), Some(Value::Length(24_000, Unit::Px)));
    assert_eq!(decl("1.5px"), Some(Value::Length(1_500, Unit::Px)));
    assert_eq!(decl("-1.25px"), Some(Value::Length(-1_250, Unit::Px)));
    assert_eq!(decl(".5px"), Some(Value::Length(500, Unit::Px)));
    assert_eq!(decl("-.5px"), Some(Value::Length(-500, Unit::Px)));
    assert_eq!(decl("1.0009px"), Some(Value::Length(1_000, Unit::Px)));
    assert_eq!(decl("1.9999px"), Some(Value::Length(1_999, Unit::Px)));
    assert_eq!(decl("007px"), None);
    assert_eq!(decl("7.px"), None);
    assert_eq!(decl("7"), None);
    assert_eq!(decl("-px"), None);
}

#[test]
fn zero_is_read_before_any_other_number() {
    assert_eq!(decl("0"), Some(Value::Length(0, Unit::Px)));
    assert_eq!(decl("0px"), Some(Value::Length(0, Unit::Px)));
    // The zero is read as a length; what follows it is not part of a value.
    assert_eq!(decl("0.5px"), None);
    assert_eq!(decl("05px"), None);
}

#[test]
fn lengths_that_do_not_fit_are_refused() {
    assert_eq!(
        decl("9223372036854775.807px"),
        Some(Value::Length(9_223_372_036_854_775_807, Unit::Px))
    );
    assert_eq!(decl("9223372036854775.808px"), None);
    assert_eq!(decl("9223372036854776px"), None);
    assert_eq!(
        decl("-9223372036854775.807px"),
        Some(Value::Length(-9_223_372_036_854_775_807, Unit::Px))
    );
    assert_eq!(decl("99999999999999999999999999999999999999px"), None);
    assert_eq!(decl("00000000000000000000000000000000000001px"), None);
    assert_eq!(decl("1000000000000000000000000000000000000000.5px"), None);
}

#[test]
fn colours_in_each_notation() {
    assert_eq!(color_value("rgb(255,0,10)"), Some(Value::ColorValue(Color { r: 255, g: 0, b: 10, a: 255 })));
    assert_eq!(color_value("rgb(256,0,0)"), None);
    assert_eq!(color_value("rgb(0000000000000000000000012,0,0)"), Some(Value::ColorValue(Color { r: 12, g: 0, b: 0, a: 255 })));
    assert_eq!(color_value("rgb(1, 2, 3)"), None);
    assert_eq!(color_value("rgb(1,2)"), None);
    assert_eq!(color_value("rgba(1,2,3)"), None);
    assert_eq!(color_value("#ABCDEF"), Some(Value::ColorValue(Color { r: 171, g: 205, b: 239, a: 255 })));
    assert_eq!(color_value("#fff"), Some(Value::ColorValue(Color { r: 255, g: 255, b: 255, a: 255 })));
    assert_eq!(color_value("#ffff"), None);
    assert_eq!(color_value("#ff"), None);
    assert_eq!(color_value("#ggg"), None);
    assert_eq!(decl("blue"), Some(Value::Keyword("blue".to_owned())));
    assert_eq!(decl("rgb"), Some(Value::Keyword("rgb".to_owned())));
    assert_eq!(hex_value_one("g"), None);
    assert_eq!(hex_value_one("ff"), None);
    assert_eq!(hex_value_two("f"), None);
    assert_eq!(hex_value_two("A0"), Some(160));
}

#[test]
fn identifiers_start_with_a_letter() {
    assert_eq!(identifier("a-b_c9"), Some("a-b_c9".to_owned()));
    assert_eq!(identifier("-a"), None);
    assert_eq!(identifier("9a"), None);
    assert_eq!(identifier(""), None);
    assert_eq!(identifier("a b"), None);
}

#[test]
fn comments_end_at_the_first_close() {
    assert_eq!(comment("/**/"), Some(()));
    assert_eq!(comment("/* a */ */"), None);
    assert_eq!(comment("/* a"), None);
    assert_eq!(comment("/*/"), None);
    assert_eq!(comment("/* * / **/"), Some(()));
}

#[test]
fn selectors_are_put_in_descending_order_of_specificity() {
    let sels = selectors("p, .a.b , #x,div.c, *").unwrap();
    let shown: Vec<String> = sels.iter().map(|s| s.to_string()).collect();
    assert_eq!(shown, vec!["#x", ".a.b", "div.c", "p", ""]);
    // Selectors of one specificity keep their order.
    let sels = selectors("b,a,.y,.x").unwrap();
    let shown: Vec<String> = sels.iter().map(|s| s.to_string()).collect();
    assert_eq!(shown, vec![".y", ".x", "b", "a"]);
}

#[test]
fn a_simple_selector_takes_its_parts_in_any_order() {
    let sels = selectors("[lang=nl]p.a#i.b*").unwrap();
    assert_eq!(
        sels,
        vec![selector()
            .add_attr("lang", AttrOp::Eq, "nl")
            .add_tag("p")
            .add_class("a")
            .add_id("i")
            .add_class("b")]
    );
    assert_eq!(sels[0].get_specificity(), (1, 3, 1));
    assert_eq!(selectors("#a#b"), None);
    assert_eq!(selectors("[a=b]p[c=d]q"), None);
    assert_eq!(selectors("[a=\"b\"]"), None);
    assert_eq!(selectors(""), None);
    assert_eq!(selectors("a,"), None);
    assert_eq!(selectors("a b"), None);
}

#[test]
fn blocks_take_a_trailing_delimiter_and_comments() {
    assert_eq!(declaration_block("{}"), Some(vec![]));
    assert_eq!(declaration_block(" { /* none */ } "), Some(vec![]));
    assert_eq!(declaration_block("{;}"), Some(vec![]));
    assert_eq!(declaration_block("{a:b}").map(|d| d.len()), Some(1));
    assert_eq!(declaration_block("{a:b;}").map(|d| d.len()), Some(1));
    assert_eq!(declaration_block("{a:b;;}"), None);
    assert_eq!(declaration_block("{a:b c:d}"), None);
    assert_eq!(declaration_block("{a /* x */ : /* y */ b /* z */ ; c:0 }").map(|d| d.len()), Some(2));
    assert_eq!(declaration_block("{a:b"), None);
    assert_eq!(declaration_block("{a:b} x"), None);
}

#[test]
fn sheets_hold_rules_and_nothing_else() {
    assert_eq!(parse_css("").unwrap().0.len(), 0);
    assert_eq!(parse_css(" /* nothing */ ").unwrap().0.len(), 0);
    assert_eq!(parse_css("a{}b{}").unwrap().0.len(), 2);
    assert!(parse_css("a{} }").is_none());
    assert!(parse_css("a{").is_none());
    assert!(parse_css("{}").is_none());
    assert!(parse_css("a{width:12}").is_none());
    let built = sheet().add_rule(
        rule()
            .add_selector(selector().add_tag("body").add_class("foo"))
            .add_selector(selector().add_tag("p"))
            .add_declaration("margin", Value::Keyword("auto".to_owned()))
            .add_declaration("width", Value::Length(px(24), Unit::Px)),
    );
    assert_eq!(parse_css("p,body.foo{margin:auto;width:24px}").unwrap(), built);
}

#[test]
fn css_test_to_string() {
    let actual = sheet().add_rule(
        rule()
            .add_selector(selector().add_tag("body").add_attr("class", AttrOp::Eq, "foo"))
            .add_selector(selector().add_tag("p"))
            .add_declaration("margin", Value::Keyword("auto".to_owned()))
            .add_declaration("width", Value::Length(px(24), Unit::Px)),
    );
    let expected = r#"body[class="foo"],p{margin:auto;width:24px}"#;
    assert_eq!(actual.to_string(), expected);
}

#[test]
fn values_are_written_as_they_are_read() {
    assert_eq!(Value::Length(1_500, Unit::Px).to_string(), "1.5px");
    assert_eq!(Value::Length(-1_250, Unit::Px).to_string(), "-1.25px");
    assert_eq!(Value::Length(1_005, Unit::Px).to_string(), "1.005px");
    assert_eq!(Value::Length(50, Unit::Px).to_string(), "0.05px");
    assert_eq!(Value::Length(-5, Unit::Px).to_string(), "-0.005px");
    assert_eq!(Value::Length(0, Unit::Px).to_string(), "0px");
    assert_eq!(Value::Length(120_000, Unit::Px).to_string(), "120px");
    assert_eq!(
        Value::Length(i64::MIN, Unit::Px).to_string(),
        "-9223372036854775.808px"
    );
    assert_eq!(Value::Length(i64::MAX, Unit::Px).to_string(), "9223372036854775.807px");
    assert_eq!(Value::Keyword("auto".to_owned()).to_string(), "auto");
    assert_eq!(
        Value::ColorValue(Color { r: 0, g: 9, b: 10, a: 255 }).to_string(),
        "rgba(0,9,10,255)"
    );
    assert_eq!(AttrOp::Eq.to_string(), "=");
    assert_eq!(Unit::Px.to_string(), "px");
    assert_eq!(sheet().to_string(), "");
    assert_eq!(rule().to_string(), "{}");
    assert_eq!(
        Declaration { name: "a".to_owned(), value: Value::Keyword("b".to_owned()) }.to_string(),
        "a:b"
    );
    assert_eq!(
        selector().add_class("c").add_id("i").add_tag("t").add_class("d").to_string(),
        "t.c.d#i"
    );
    assert_eq!(
        parse_css("a{x:1px}b,#c{}").unwrap().to_string(),
        "a{x:1px}#c,b{}"
    );
}

#[test]
fn to_px_is_zero_for_what_is_no_length() {
    assert_eq!(Value::Length(24_000, Unit::Px).to_px(), 24_000);
    assert_eq!(Value::Keyword("auto".to_owned()).to_px(), 0);
    assert_eq!(Value::ColorValue(Color::default()).to_px(), 0);
    assert_eq!(
        Value::Keyword("x".to_owned()).duplicate(),
        Value::Keyword("x".to_owned())
    );
}

#[test]
fn specificity_counts_ids_classes_with_attributes_and_tags() {
    assert_eq!(selector().get_specificity(), (0, 0, 0));
    assert_eq!(selector().add_tag("a").get_specificity(), (0, 0, 1));
    assert_eq!(
        selector().add_class("a").add_attr("b", AttrOp::Eq, "c").add_class("d").get_specificity(),
        (0, 3, 0)
    );
    assert_eq!(selector().add_id("a").add_id("b").get_specificity(), (1, 0, 0));
    // An id outranks any number of classes and a tag.
    let with_id = selector().add_id("a").get_specificity();
    let without =
        selector().add_tag("t").add_class("a").add_class("b").add_class("c").get_specificity();
    assert!(boxrs::css::specificity_at_most(without, with_id));
    assert!(!boxrs::css::specificity_at_most(with_id, without));
    // More classes outrank a tag.
    let classes = selector().add_class("a").get_specificity();
    let tag = selector().add_tag("t").get_specificity();
    assert!(boxrs::css::specificity_at_most(tag, classes));
    assert!(!boxrs::css::specificity_at_most(classes, tag));
    assert!(boxrs::css::specificity_at_most(tag, tag));
}
