use herdr_config::hermes::{
    ensure_hermes_plugin_enabled, hermes_flat_plugin_lines, next_top_level_yaml_key_index,
    remove_hermes_plugin_enabled, top_level_yaml_key_index, update_hermes_enabled_plugin,
};

fn lines(v: &[&str]) -> Vec<String> {
    v.iter().map(|s| s.to_string()).collect()
}

#[test]
fn hermes_enable_adds_a_plugins_section_to_an_empty_file() {
    assert_eq!(
        ensure_hermes_plugin_enabled(""),
        "plugins:\n  enabled:\n    - herdr-agent-state\n"
    );
}

#[test]
fn hermes_enable_appends_a_plugins_section() {
    assert_eq!(
        ensure_hermes_plugin_enabled("model: x\n\n"),
        "model: x\nplugins:\n  enabled:\n    - herdr-agent-state\n"
    );
}

#[test]
fn hermes_disable_without_plugins_keeps_the_text() {
    assert_eq!(remove_hermes_plugin_enabled("model: x"), "model: x");
}

#[test]
fn hermes_enable_inserts_into_the_enabled_list() {
    let before = "plugins:\n  enabled:\n    - other\nmodel: x\n";
    let after = ensure_hermes_plugin_enabled(before);
    assert_eq!(after, "plugins:\n  enabled:\n    - herdr-agent-state\n    - other\nmodel: x\n");
    assert_eq!(remove_hermes_plugin_enabled(&after), before);
}

#[test]
fn hermes_enable_fills_an_empty_enabled_list() {
    assert_eq!(
        ensure_hermes_plugin_enabled("plugins:\n  enabled: []\n"),
        "plugins:\n  enabled:\n    - herdr-agent-state\n"
    );
    assert_eq!(
        ensure_hermes_plugin_enabled("plugins:\n  enabled: [] # herdr\n"),
        "plugins:\n  enabled:\n    - herdr-agent-state\n"
    );
    assert_eq!(remove_hermes_plugin_enabled("plugins:\n  enabled: []"), "plugins:\n  enabled: []");
}

#[test]
fn hermes_enable_rewrites_an_inline_list() {
    assert_eq!(
        ensure_hermes_plugin_enabled("plugins: [other]\nmodel: x\n"),
        "plugins:\n  - herdr-agent-state\n  - other\nmodel: x\n"
    );
    assert_eq!(remove_hermes_plugin_enabled("plugins: [herdr-agent-state]\n"), "plugins: []\n");
    assert_eq!(
        remove_hermes_plugin_enabled("plugins: ['herdr-agent-state', b]\n"),
        "plugins:\n  - b\n"
    );
}

#[test]
fn hermes_enable_extends_a_flat_list() {
    assert_eq!(
        ensure_hermes_plugin_enabled("plugins:\n  - other\n"),
        "plugins:\n  - herdr-agent-state\n  - other\n"
    );
    assert_eq!(
        remove_hermes_plugin_enabled("plugins:\n  - other\n  - herdr-agent-state\n"),
        "plugins:\n  - other\n"
    );
}

#[test]
fn hermes_enable_adds_an_enabled_list_under_plugins() {
    assert_eq!(
        ensure_hermes_plugin_enabled("plugins:\nmodel: x"),
        "plugins:\n  enabled:\n    - herdr-agent-state\nmodel: x"
    );
    assert_eq!(remove_hermes_plugin_enabled("plugins:\nmodel: x"), "plugins:\nmodel: x");
}

#[test]
fn hermes_enable_twice_is_enable_once() {
    for content in [
        "",
        "model: x\n",
        "plugins:\n  enabled:\n    - other\n",
        "plugins:\n  enabled: []\n",
        "plugins: [a, b]\n",
        "plugins:\n  - a\n",
        "plugins:\n",
        "a: 1\r\n",
        "plugins:\r\n  - a\r\n",
        "plugins: ['x\r', b]\r",
        "plugins:\r\n  enabled: []\r\n",
    ] {
        let once = ensure_hermes_plugin_enabled(content);
        assert_eq!(ensure_hermes_plugin_enabled(&once), once, "{content:?}");
        let gone = remove_hermes_plugin_enabled(&once);
        assert_eq!(remove_hermes_plugin_enabled(&gone), gone, "{content:?}");
    }
}

#[test]
fn hermes_update_leaves_other_sections_alone() {
    let content = "a: 1\nplugins:\n  enabled:\n    - x\n  other:\n    - herdr-agent-state\nb: 2\n";
    assert_eq!(
        update_hermes_enabled_plugin(content, true),
        "a: 1\nplugins:\n  enabled:\n    - herdr-agent-state\n    - x\n  other:\n    - herdr-agent-state\nb: 2\n"
    );
    assert_eq!(update_hermes_enabled_plugin(content, false), content);
}

#[test]
fn hermes_flat_plugin_lines_lists_items() {
    assert_eq!(hermes_flat_plugin_lines(&[]), lines(&["plugins: []"]));
    assert_eq!(
        hermes_flat_plugin_lines(&lines(&["a", "b"])),
        lines(&["plugins:", "  - a", "  - b"])
    );
}

#[test]
fn top_level_yaml_key_index_finds_unindented_keys() {
    let ls = lines(&["  plugins:", "# plugins:", "plugins: []", "x: 1"]);
    assert_eq!(top_level_yaml_key_index(&ls, "plugins"), Some(2));
    assert_eq!(top_level_yaml_key_index(&ls, "y"), None);
    assert_eq!(next_top_level_yaml_key_index(&ls, 0), Some(2));
    assert_eq!(next_top_level_yaml_key_index(&ls, 3), Some(3));
    assert_eq!(next_top_level_yaml_key_index(&ls, 4), None);
}

#[test]
fn hermes_disable_after_enable_restores_an_enabled_list() {
    for content in [
        "plugins:\n  enabled:\n    - other\n",
        "model: x\nplugins:\n  enabled:\n    - a\n    - b\nother: 1",
        "plugins:\n  enabled:\n  disabled: []\n",
    ] {
        let enabled = ensure_hermes_plugin_enabled(content);
        assert_ne!(enabled, content);
        assert_eq!(remove_hermes_plugin_enabled(&enabled), content, "{content:?}");
    }
}

#[test]
fn hermes_disable_after_enable_restores_a_flat_list() {
    for content in ["plugins:\n  - other\n", "a: 1\nplugins:\n  - x\n  - y\nb: 2"] {
        let enabled = ensure_hermes_plugin_enabled(content);
        assert_ne!(enabled, content);
        assert_eq!(remove_hermes_plugin_enabled(&enabled), content, "{content:?}");
    }
}
