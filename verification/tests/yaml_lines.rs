use herdr_config::yaml::{
    join_yaml_lines, strip_yaml_inline_comment, yaml_flow_sequence_items, yaml_indent,
    yaml_key_at_indent, yaml_key_name, yaml_key_value_at_indent, yaml_list_item_matches,
    yaml_list_item_matches_at_indent, yaml_list_item_value, yaml_list_item_value_at_indent,
    yaml_scalar_value,
};

#[test]
fn yaml_indent_counts_leading_bytes() {
    assert_eq!(yaml_indent("  plugins:"), Some(2));
    assert_eq!(yaml_indent("plugins:"), Some(0));
    assert_eq!(yaml_indent("\tkey: v"), Some(1));
    assert_eq!(yaml_indent("\u{3000}key: v"), Some(3));
}

#[test]
fn yaml_indent_skips_blank_and_comment_lines() {
    assert_eq!(yaml_indent(""), None);
    assert_eq!(yaml_indent("    "), None);
    assert_eq!(yaml_indent("  # note"), None);
}

#[test]
fn yaml_key_name_reads_the_key() {
    assert_eq!(yaml_key_name("  enabled : [a]"), Some("enabled"));
    assert_eq!(yaml_key_name("a: b: c"), Some("a"));
    assert_eq!(yaml_key_name("- item: x"), None);
    assert_eq!(yaml_key_name("no colon"), None);
    assert_eq!(yaml_key_name("  : value"), None);
    assert_eq!(yaml_key_name("# key: x"), None);
}

#[test]
fn yaml_key_at_indent_checks_the_indent() {
    assert_eq!(yaml_key_at_indent("  enabled:", 2), Some("enabled"));
    assert_eq!(yaml_key_at_indent("enabled:", 2), None);
    assert_eq!(yaml_key_at_indent("plugins:", 0), Some("plugins"));
}

#[test]
fn yaml_key_value_at_indent_reads_the_value() {
    assert_eq!(yaml_key_value_at_indent("plugins: [a, b] ", 0, "plugins"), Some("[a, b]"));
    assert_eq!(yaml_key_value_at_indent("plugins:", 0, "plugins"), Some(""));
    assert_eq!(yaml_key_value_at_indent("plugins: x", 0, "other"), None);
    assert_eq!(yaml_key_value_at_indent("  plugins: x", 0, "plugins"), None);
}

#[test]
fn yaml_list_items_are_read() {
    assert_eq!(yaml_list_item_value("    - herdr  "), Some("herdr"));
    assert_eq!(yaml_list_item_value("-x"), None);
    assert_eq!(yaml_list_item_value_at_indent("  - a", 2), Some("a"));
    assert_eq!(yaml_list_item_value_at_indent("    - a", 2), None);
}

#[test]
fn yaml_list_item_matches_reads_scalars() {
    assert!(yaml_list_item_matches("    - 'herdr-agent-state' # mine", "herdr-agent-state"));
    assert!(yaml_list_item_matches("- \"x\"", "x"));
    assert!(!yaml_list_item_matches("- xy", "x"));
    assert!(yaml_list_item_matches_at_indent("  - x", 2, "x"));
    assert!(!yaml_list_item_matches_at_indent("    - x", 2, "x"));
}

#[test]
fn strip_yaml_inline_comment_keeps_quoted_hashes() {
    assert_eq!(strip_yaml_inline_comment("a # c"), "a");
    assert_eq!(strip_yaml_inline_comment("a#b"), "a#b");
    assert_eq!(strip_yaml_inline_comment("'a # b' # c"), "'a # b'");
    assert_eq!(strip_yaml_inline_comment("\"a \\\" # b\" # c"), "\"a \\\" # b\"");
    assert_eq!(strip_yaml_inline_comment("# only"), "");
}

#[test]
fn yaml_scalar_value_unquotes() {
    assert_eq!(yaml_scalar_value(" \"x\" "), "x");
    assert_eq!(yaml_scalar_value("'y'"), "y");
    assert_eq!(yaml_scalar_value("z # c"), "z");
    assert_eq!(yaml_scalar_value("\""), "\"");
    assert_eq!(yaml_scalar_value("'a\""), "'a\"");
}

#[test]
fn yaml_flow_sequence_items_split_outside_quotes() {
    assert_eq!(
        yaml_flow_sequence_items("[a, 'b, c', \"d\"] # note"),
        Some(vec!["a".to_string(), "b, c".to_string(), "d".to_string()])
    );
    assert_eq!(yaml_flow_sequence_items("[]"), Some(vec![]));
    assert_eq!(yaml_flow_sequence_items("[  ]"), Some(vec![]));
    assert_eq!(yaml_flow_sequence_items("[a,]"), Some(vec!["a".to_string(), "".to_string()]));
}

#[test]
fn yaml_flow_sequence_items_refuse_other_values() {
    assert_eq!(yaml_flow_sequence_items("x"), None);
    assert_eq!(yaml_flow_sequence_items("[a"), None);
    assert_eq!(yaml_flow_sequence_items("['a]"), None);
    assert_eq!(yaml_flow_sequence_items(""), None);
}

#[test]
fn join_yaml_lines_ends_as_asked() {
    assert_eq!(join_yaml_lines(vec![], false), "\n");
    assert_eq!(join_yaml_lines(vec!["a".to_string(), "b".to_string()], false), "a\nb");
    assert_eq!(join_yaml_lines(vec!["a".to_string()], true), "a\n");
}

#[test]
fn strip_yaml_inline_comment_keeps_a_prefix_and_is_stable() {
    for value in ["a # b", "'a # b' # c", "a#b", "\"x\\\"# y\" #z", "  # only", "plain"] {
        let once = strip_yaml_inline_comment(value);
        assert!(value.starts_with(once), "{value:?}");
        assert_eq!(strip_yaml_inline_comment(once), once, "{value:?}");
        if once != value {
            assert!(value[once.len()..].trim_start().starts_with('#'), "{value:?}");
        }
    }
}
