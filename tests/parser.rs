use html_parser::{parse_attribute, parse_key, parse_tag, parse_val, Attributes, Expected, SyntaxError, Tag};

fn attrs<'i>(pairs: &[(&'i str, &'i str)]) -> Attributes<'i> {
    let mut a = Attributes::new();
    for (k, v) in pairs {
        a.insert(k, v);
    }
    a
}

fn err(expected: Expected, position: usize) -> SyntaxError {
    SyntaxError { expected, position }
}

#[test]
fn test_key() {
    let mut input = "width";
    let actual = parse_key(&mut input).unwrap();
    let expected = "width";
    assert_eq!(actual, expected);
    assert_eq!(input, "");
}

#[test]
fn test_val() {
    let mut input = r#""40""#;
    let actual = parse_val(&mut input).unwrap();
    let expected = "40";
    assert_eq!(actual, expected);
    assert_eq!(input, "");
}

#[test]
fn test_attributes() {
    let mut input = r#"width="40", height = "30""#;
    let actual = Attributes::parse(&mut input).unwrap();
    let expected = attrs(&[("width", "40"), ("height", "30")]);
    assert_eq!(actual, expected);
    assert_eq!(input, "");
}

#[test]
fn test_link_tag() {
    let input = r#"<a href="https://adamchalmers.com">"#;
    let expected = Tag::new("a", attrs(&[("href", "https://adamchalmers.com")]));
    let actual = parse_tag(&input).unwrap();
    assert_eq!(expected, actual);
}

#[test]
fn test_tag() {
    let input = r#"<div width="40", height="30">"#;
    let expected = Tag::new("div", attrs(&[("width", "40"), ("height", "30")]));
    let actual = parse_tag(&input).unwrap();
    assert_eq!(expected, actual);
}

#[test]
fn written_tag_parses_back() {
    let input = "<img src=\"a.png\",\n\t alt =  \"x\", title=\"b\">";
    let tag = parse_tag(input).unwrap();
    assert_eq!(tag.tag_type(), "img");
    assert_eq!(tag.attributes().get("src"), Some("a.png"));
    assert_eq!(tag.attributes().get("alt"), Some("x"));
    assert_eq!(tag.attributes().get("title"), Some("b"));
    assert_eq!(tag.attributes().get("width"), None);
}

#[test]
fn parsing_twice_gives_equal_results() {
    let input = r#"<div width="40", height="30">"#;
    let first = parse_tag(input).unwrap();
    let second = parse_tag(input).unwrap();
    assert_eq!(first, second);
    assert_eq!(parse_tag("<div>").unwrap_err(), parse_tag("<div>").unwrap_err());
}

#[test]
fn empty_attribute_list() {
    let tag = parse_tag("<div >").unwrap();
    assert_eq!(tag.tag_type(), "div");
    assert!(tag.attributes().is_empty());
    assert_eq!(tag, Tag::new("div", Attributes::new()));
}

#[test]
fn space_around_equals_changes_nothing() {
    let spaced = parse_tag(r#"<div width = "40">"#).unwrap();
    let tight = parse_tag(r#"<div width="40">"#).unwrap();
    assert_eq!(spaced, tight);
    assert_eq!(spaced.attributes().get("width"), Some("40"));
}

#[test]
fn space_before_close_is_rejected_either_way() {
    let spaced = parse_tag(r#"<div width = "40" >"#).unwrap_err();
    let tight = parse_tag(r#"<div width="40" >"#).unwrap_err();
    assert_eq!(spaced, err(Expected::CloseAngle, 17));
    assert_eq!(tight, err(Expected::CloseAngle, 15));
}

#[test]
fn missing_closing_quote() {
    assert_eq!(parse_tag(r#"<div width="40>"#).unwrap_err(), err(Expected::ClosingQuote, 14));
}

#[test]
fn missing_mandatory_space() {
    assert_eq!(parse_tag("<div>").unwrap_err(), err(Expected::Space, 4));
}

#[test]
fn duplicate_key_keeps_last_value() {
    let tag = parse_tag(r#"<div height="10", height="20">"#).unwrap();
    assert_eq!(tag.attributes().get("height"), Some("20"));
    assert_eq!(tag, Tag::new("div", attrs(&[("height", "20")])));
}

#[test]
fn link_scenario_with_space_before_close() {
    assert_eq!(
        parse_tag(r#"<a href="https://adamchalmers.com" >"#).unwrap_err(),
        err(Expected::CloseAngle, 34)
    );
}

#[test]
fn each_error_and_its_position() {
    assert_eq!(parse_tag("div >").unwrap_err(), err(Expected::OpenAngle, 0));
    assert_eq!(parse_tag("").unwrap_err(), err(Expected::OpenAngle, 0));
    assert_eq!(parse_tag("< >").unwrap_err(), err(Expected::Letters, 1));
    assert_eq!(parse_tag("<div width>").unwrap_err(), err(Expected::Equals, 10));
    assert_eq!(parse_tag("<div width=40>").unwrap_err(), err(Expected::OpeningQuote, 11));
    assert_eq!(parse_tag(r#"<div width="">"#).unwrap_err(), err(Expected::ValueChars, 12));
    assert_eq!(parse_tag(r#"<div width="40""#).unwrap_err(), err(Expected::CloseAngle, 15));
    assert_eq!(parse_tag("<div >x").unwrap_err(), err(Expected::EndOfInput, 6));
    assert_eq!(parse_tag(r#"<div a="1", >"#).unwrap_err(), err(Expected::Letters, 12));
}

#[test]
fn tag_parse_leaves_the_rest() {
    let mut input = r#"<b x="1">rest"#;
    let tag = Tag::parse(&mut input).unwrap();
    assert_eq!(tag.tag_type(), "b");
    assert_eq!(input, "rest");
    let mut bad = "<b>";
    assert_eq!(Tag::parse(&mut bad).unwrap_err(), err(Expected::Space, 2));
    assert_eq!(bad, "<b>");
}

#[test]
fn piece_parsers_stop_where_their_rule_ends() {
    let mut key = "width=1";
    assert_eq!(parse_key(&mut key), Ok("width"));
    assert_eq!(key, "=1");
    let mut none = "9a";
    assert_eq!(parse_key(&mut none), Err(err(Expected::Letters, 0)));
    let mut val = r#""a.b/c:d" tail"#;
    assert_eq!(parse_val(&mut val), Ok("a.b/c:d"));
    assert_eq!(val, " tail");
    let mut pair = "k\t=\n\"v\",";
    assert_eq!(parse_attribute(&mut pair), Ok(("k", "v")));
    assert_eq!(pair, ",");
}

#[test]
fn values_take_unicode_alphanumerics() {
    let tag = parse_tag("<p title=\"h\u{e9}llo\u{4e16}\">").unwrap();
    assert_eq!(tag.attributes().get("title"), Some("h\u{e9}llo\u{4e16}"));
    assert_eq!(
        parse_tag("<p title=\"a\u{2026}\">").unwrap_err(),
        err(Expected::ClosingQuote, 11)
    );
    assert_eq!(parse_tag("<p title=\"\u{e9}\", x>").unwrap_err(), err(Expected::Equals, 15));
}

#[test]
fn keys_are_ascii_letters_only() {
    assert_eq!(parse_tag("<p \u{e9}=\"1\">").unwrap_err(), err(Expected::Letters, 3));
    assert_eq!(parse_tag("<d\u{e9} >").unwrap_err(), err(Expected::Space, 2));
}

#[test]
fn attributes_compare_as_mappings() {
    let a = attrs(&[("x", "1"), ("y", "2")]);
    let b = attrs(&[("y", "2"), ("x", "1")]);
    let c = attrs(&[("x", "1")]);
    let d = attrs(&[("x", "1"), ("y", "3")]);
    assert_eq!(a, b);
    assert_ne!(a, c);
    assert_ne!(c, a);
    assert_ne!(a, d);
    let mut e = attrs(&[("x", "0")]);
    e.insert("x", "1");
    assert_eq!(e, c);
}
