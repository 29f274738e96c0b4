use rem::output::{
    action, action_tone, change_tone, colon_value, color_disabled, color_forced, column_widths,
    diff, error, key_value, list_rows, markdown, memory_type_tone, paint, paint_with,
    resolve_color, row, table_row, toml, ColorChoice, Tone,
};

#[test]
fn disabled_style_preserves_machine_output() {
    assert_eq!(paint_with("memory-id".to_string(), Tone::Id, false), "memory-id");
}

#[test]
fn enabled_style_wraps_and_resets_text() {
    let rendered = paint_with("ok".to_string(), Tone::Success, true);
    assert!(rendered.starts_with("\u{1b}["));
    assert!(rendered.ends_with("\u{1b}[0m"));
    assert!(rendered.contains("ok"));
}

#[test]
fn color_choice_has_stable_cli_values() {
    assert_eq!(ColorChoice::Auto.label(), "auto");
    assert_eq!(ColorChoice::Always.label(), "always");
    assert_eq!(ColorChoice::Never.label(), "never");
}

#[test]
fn automatic_color_respects_streams_and_environment_precedence() {
    assert_eq!(resolve_color(ColorChoice::Auto, false, false, true, false), (true, false));
    assert_eq!(resolve_color(ColorChoice::Auto, false, true, false, false), (true, true));
    assert_eq!(resolve_color(ColorChoice::Auto, true, true, true, true), (false, false));
    assert_eq!(resolve_color(ColorChoice::Always, true, false, false, false), (true, true));
    assert_eq!(resolve_color(ColorChoice::Never, false, true, true, true), (false, false));
}

#[test]
fn tone_mapping_is_semantic() {
    assert_eq!(memory_type_tone("short"), Tone::Short);
    assert_eq!(memory_type_tone("long"), Tone::Long);
    assert_eq!(change_tone("deleted"), Tone::Error);
    assert_eq!(change_tone("modified"), Tone::Warning);
    assert_eq!(action_tone("no-op"), Tone::Warning);
    assert_eq!(action_tone("abort"), Tone::Error);
}

/// Every tone, as the style crate renders it.
#[test]
fn tones_have_stable_escape_sequences() {
    let expected = [
        (Tone::Success, "\u{1b}[92;1mx\u{1b}[0m"),
        (Tone::Warning, "\u{1b}[93;1mx\u{1b}[0m"),
        (Tone::Error, "\u{1b}[91;1mx\u{1b}[0m"),
        (Tone::Info, "\u{1b}[94;1mx\u{1b}[0m"),
        (Tone::Id, "\u{1b}[96;1mx\u{1b}[0m"),
        (Tone::Short, "\u{1b}[95;1mx\u{1b}[0m"),
        (Tone::Scope, "\u{1b}[33mx\u{1b}[0m"),
        (Tone::Kind, "\u{1b}[32mx\u{1b}[0m"),
        (Tone::Title, "\u{1b}[1mx\u{1b}[0m"),
        (Tone::Path, "\u{1b}[36;2mx\u{1b}[0m"),
        (Tone::Number, "\u{1b}[93mx\u{1b}[0m"),
        (Tone::Source, "\u{1b}[35mx\u{1b}[0m"),
        (Tone::Value, "x"),
        (Tone::Muted, "\u{1b}[90mx\u{1b}[0m"),
        (Tone::Removed, "\u{1b}[31mx\u{1b}[0m"),
        (Tone::DiffHeader, "\u{1b}[36;1mx\u{1b}[0m"),
    ];
    for (tone, text) in expected {
        assert_eq!(paint("x", tone, true), text, "{tone:?}");
    }
}

#[test]
fn added_lines_of_a_diff_are_green() {
    assert!(diff("+# Preview\n", true).contains("\u{1b}[32m+# Preview\u{1b}[0m"));
    assert_eq!(diff("+# Preview\n", false), "+# Preview\n");
}

#[test]
fn plain_documents_are_left_alone() {
    let raw = "---\nid: a\n---\n\n# Title\ntext\n";
    assert_eq!(markdown(raw, false), raw);
    assert!(markdown(raw, true).contains("\u{1b}["));
    assert!(markdown(raw, true).contains("# Title"));
    assert_eq!(toml("a = 1\n", false), "a = 1\n");
    assert!(toml("[table]\na = 1\n", true).contains("\u{1b}["));
}

#[test]
fn rows_are_joined_by_tabs_and_tables_by_columns() {
    let cells = vec![("a".to_string(), Tone::Id), ("bcd".to_string(), Tone::Title)];
    assert_eq!(row(&cells, false), "a\tbcd");
    assert_eq!(table_row(&cells, &vec![3, 4], false), "a    bcd ");
    let rows = vec![
        vec![("id".to_string(), Tone::Id), ("x".to_string(), Tone::Kind)],
        vec![("é".to_string(), Tone::Id), ("long".to_string(), Tone::Kind)],
    ];
    assert_eq!(column_widths(&rows, 2), vec![2, 4]);
}

#[test]
fn listings_have_headers_only_for_a_terminal() {
    let rows = || vec![vec![("abc".to_string(), Tone::Id), ("x".to_string(), Tone::Kind)]];
    assert_eq!(list_rows(&vec!["ID", "KIND"], rows(), false, false), vec!["abc\tx"]);
    assert_eq!(
        list_rows(&vec!["ID", "KIND"], rows(), true, false),
        vec!["ID   KIND", "abc  x   "]
    );
    assert_eq!(list_rows(&vec!["ID", "KIND"], Vec::new(), true, false), vec!["ID  KIND"]);
}

#[test]
fn pairs_and_actions_are_plain_without_color() {
    assert_eq!(key_value("reason", "same", Tone::Muted, false), "reason=same");
    assert_eq!(colon_value("root", "/v", Tone::Path, false), "root: /v");
    assert_eq!(action("updated", "m1", Tone::Success, false), "updated m1");
    assert!(error("it broke", false).contains("it broke"));
}

#[test]
fn environment_variables_decide_on_color() {
    assert!(color_disabled(Some("1"), None));
    assert!(color_disabled(None, Some("0")));
    assert!(!color_disabled(None, None));
    assert!(color_forced(Some("1"), None));
    assert!(!color_forced(Some("0"), None));
    assert!(!color_forced(None, None));
}
