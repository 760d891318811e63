use intl_dict::grammar::{Pattern, Row};

fn line(s: &str) -> Vec<char> {
    s.chars().collect()
}

fn pair(r: &Row) -> (String, String) {
    (r.id.clone(), r.default_msg.clone())
}

#[test]
fn capture_correctness() {
    let p = Pattern::new();
    let r = p
        .extract_line(&line(r#"<FormattedMessage id="home.title" defaultMessage="Welcome Home">"#))
        .unwrap();
    assert_eq!(r.id, "home.title");
    assert_eq!(r.default_msg, "Welcome Home");
}

#[test]
fn marker_without_attributes_yields_nothing() {
    let p = Pattern::new();
    assert!(p.extract_line(&line("The FormattedMessage component is great")).is_none());
    assert!(p.extract_rows("The FormattedMessage component is great\n").is_empty());
}

#[test]
fn line_without_marker_yields_nothing() {
    let p = Pattern::new();
    assert!(p.extract_line(&line(r#"<Other id="a" defaultMessage="b">"#)).is_none());
    assert!(p.extract_rows("").is_empty());
}

#[test]
fn identifier_classes() {
    let p = Pattern::new();
    let r = p
        .extract_line(&line(r#"<FormattedMessage id="a-b_C.9" defaultMessage="x_y z.w-v"/>"#))
        .unwrap();
    assert_eq!(pair(&r), ("a-b_C.9".to_string(), "x_y z.w-v".to_string()));
}

#[test]
fn default_text_must_be_whole_value() {
    let p = Pattern::new();
    assert!(p
        .extract_line(&line(r#"<FormattedMessage id="k" defaultMessage="Hello, world">"#))
        .is_none());
    assert!(p.extract_line(&line(r#"<FormattedMessage id="a" defaultMessage="Hi, there">"#)).is_none());
    assert!(p.extract_line(&line(r#"<FormattedMessage id="a" defaultMessage="Hi"#)).is_none());
    assert!(p.extract_rows("<FormattedMessage id=\"a\" defaultMessage=\"Hi, there\">\n").is_empty());
}

#[test]
fn empty_captures_do_not_match() {
    let p = Pattern::new();
    assert!(p.extract_line(&line(r#"<FormattedMessage id="" defaultMessage="x">"#)).is_none());
    assert!(p.extract_line(&line(r#"<FormattedMessage id="k" defaultMessage="">"#)).is_none());
    assert!(p.extract_line(&line(r#"<FormattedMessage id="k!" defaultMessage="x">"#)).is_none());
}

#[test]
fn other_attribute_order_does_not_match() {
    let p = Pattern::new();
    assert!(p
        .extract_line(&line(r#"<FormattedMessage defaultMessage="x" id="k">"#))
        .is_none());
}

#[test]
fn leftmost_invocation_on_a_line() {
    let p = Pattern::new();
    let r = p
        .extract_line(&line(
            r#"<FormattedMessage id="" defaultMessage="no"> <FormattedMessage id="one" defaultMessage="first"> <FormattedMessage id="two" defaultMessage="second">"#,
        ))
        .unwrap();
    assert_eq!(pair(&r), ("one".to_string(), "first".to_string()));
}

#[test]
fn rows_follow_line_order() {
    let p = Pattern::new();
    let text = "x\r\n<FormattedMessage id=\"a\" defaultMessage=\"A\">\r\n\n  <FormattedMessage id=\"b\" defaultMessage=\"B b\"/>";
    let rows: Vec<(String, String)> = p.extract_rows(text).iter().map(pair).collect();
    assert_eq!(
        rows,
        vec![("a".to_string(), "A".to_string()), ("b".to_string(), "B b".to_string())]
    );
}

#[test]
fn attributes_split_over_lines_do_not_match() {
    let p = Pattern::new();
    let text = "<FormattedMessage id=\"a\"\n defaultMessage=\"A\">\n";
    assert!(p.extract_rows(text).is_empty());
}
