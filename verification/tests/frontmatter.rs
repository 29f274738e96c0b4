use rem::frontmatter::{
    get_list, get_optional_scalar, parse_frontmatter, render_frontmatter, split_document,
    FieldValue,
};

#[test]
fn parses_scalar_and_list_fields() {
    let fm = parse_frontmatter("id: abc\ntags: [rust, cli]\nsession: null").unwrap();

    assert_eq!(get_optional_scalar(&fm, "id").unwrap(), Some("abc".to_string()));
    assert_eq!(get_list(&fm, "tags"), vec!["rust", "cli"]);
    assert_eq!(get_optional_scalar(&fm, "session").unwrap(), None);
}

#[test]
fn splits_markdown_document() {
    let (fm, body) = split_document("---\nid: abc\n---\n# Title\nBody").unwrap();

    assert_eq!(get_optional_scalar(&fm, "id").unwrap(), Some("abc".to_string()));
    assert_eq!(body, "# Title\nBody");
}

#[test]
fn renders_special_scalars_and_lists_losslessly() {
    let rendered = render_frontmatter(&[
        ("missing", FieldValue::Null),
        ("literal_null", FieldValue::Scalar("null".to_string())),
        ("bracketed", FieldValue::Scalar("[event,1]".to_string())),
        ("quoted", FieldValue::Scalar("\"opaque\"".to_string())),
        ("spaced", FieldValue::Scalar(" event ".to_string())),
        ("list", FieldValue::List(vec!["plain".to_string(), "comma,value".to_string()])),
    ]);
    let (parsed, _) = split_document(&rendered).unwrap();

    assert_eq!(get_optional_scalar(&parsed, "missing").unwrap(), None);
    assert_eq!(get_optional_scalar(&parsed, "literal_null").unwrap(), Some("null".to_string()));
    assert_eq!(get_optional_scalar(&parsed, "bracketed").unwrap(), Some("[event,1]".to_string()));
    assert_eq!(get_optional_scalar(&parsed, "quoted").unwrap(), Some("\"opaque\"".to_string()));
    assert_eq!(get_optional_scalar(&parsed, "spaced").unwrap(), Some(" event ".to_string()));
    assert_eq!(get_list(&parsed, "list"), vec!["plain", "comma,value"]);
}

#[test]
fn strict_scalar_access_rejects_list_aliasing() {
    let parsed = parse_frontmatter("source_id: [event, 1]").unwrap();
    let error = get_optional_scalar(&parsed, "source_id").unwrap_err();
    assert!(error.message().contains("must be a scalar"));
}

#[test]
fn duplicate_frontmatter_keys_are_rejected() {
    let error = parse_frontmatter("source_id: first\nsource_id: second").unwrap_err();
    assert!(error.message().contains("duplicate frontmatter key"));
}

#[test]
fn documents_need_a_closed_block() {
    assert!(split_document("# Title").is_err());
    assert!(split_document("---\nid: abc\n").is_err());
    assert!(parse_frontmatter("no colon here").is_err());
}

#[test]
fn line_breaks_in_scalars_survive() {
    let rendered =
        render_frontmatter(&[("note", FieldValue::Scalar("one\ntwo\t\"three\" \\ four".to_string()))]);
    let (parsed, _) = split_document(&rendered).unwrap();
    assert_eq!(
        get_optional_scalar(&parsed, "note").unwrap(),
        Some("one\ntwo\t\"three\" \\ four".to_string())
    );
}
