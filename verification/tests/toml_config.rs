use herdr_config::codex::build_codex_config_with_hooks;
use herdr_config::constants::{KIMI_CONFIG_BLOCK_BEGIN, KIMI_CONFIG_BLOCK_END};
use herdr_config::kimi::{build_kimi_config_with_hooks, kimi_hook_table, remove_kimi_config_block};
use herdr_config::platform::Platform;
use herdr_config::toml_text::{is_toml_key, join_toml_lines, toml_basic_string, toml_table_header};

#[test]
fn codex_config_gets_a_features_table() {
    assert_eq!(build_codex_config_with_hooks(""), "[features]\nhooks = true\n");
    assert_eq!(
        build_codex_config_with_hooks("model = \"x\"\n\n"),
        "model = \"x\"\n\n[features]\nhooks = true\n"
    );
}

#[test]
fn codex_config_replaces_deprecated_hooks() {
    assert_eq!(
        build_codex_config_with_hooks("[features]\ncodex_hooks = true\n"),
        "[features]\nhooks = true\n"
    );
    assert_eq!(
        build_codex_config_with_hooks("[features]\ncodex_hooks = true\nhooks = false\nx = 1"),
        "[features]\nhooks = true\nx = 1"
    );
}

#[test]
fn codex_config_sets_an_existing_hooks_key() {
    assert_eq!(
        build_codex_config_with_hooks("[features]\n  hooks = false # old\nother = 1\n"),
        "[features]\nhooks = true\nother = 1\n"
    );
}

#[test]
fn codex_config_ignores_hooks_outside_features() {
    assert_eq!(
        build_codex_config_with_hooks("[profiles.x]\nhooks = false\n"),
        "[profiles.x]\nhooks = false\n\n[features]\nhooks = true\n"
    );
    assert_eq!(
        build_codex_config_with_hooks("[features]\na = 1\n[other]\ncodex_hooks = 1\n"),
        "[features]\nhooks = true\na = 1\n[other]\ncodex_hooks = 1\n"
    );
}

#[test]
fn codex_config_build_is_idempotent() {
    for content in [
        "",
        "model = 1\n",
        "[features]\ncodex_hooks = true\n",
        "[features]\nhooks = false\n",
        "[profiles.x]\nhooks = false",
        "[features]\nhooks = false\n[other]\nx = \"a\rb\"\n",
        "[features]\n\n",
    ] {
        let once = build_codex_config_with_hooks(content);
        assert_eq!(build_codex_config_with_hooks(&once), once, "{content:?}");
    }
}

#[test]
fn toml_basic_string_escapes() {
    assert_eq!(toml_basic_string("plain"), "\"plain\"");
    assert_eq!(
        toml_basic_string("a\"b\\c\n\t\u{1}\u{7f}"),
        "\"a\\\"b\\\\c\\n\\t\\u0001\\u007F\""
    );
    assert_eq!(toml_basic_string("\u{8}\u{c}\r\u{1f}"), "\"\\b\\f\\r\\u001F\"");
    assert_eq!(toml_basic_string("é"), "\"é\"");
}

#[test]
fn toml_table_header_reads_headers() {
    assert_eq!(toml_table_header("[features] # c"), Some("[features]"));
    assert_eq!(toml_table_header("  [[hooks]]"), Some("[[hooks]]"));
    assert_eq!(toml_table_header("[a] b"), None);
    assert_eq!(toml_table_header("# [x]"), None);
    assert_eq!(toml_table_header("[unclosed"), None);
    assert_eq!(toml_table_header("[[half]"), None);
    assert_eq!(toml_table_header("key = [1]"), None);
}

#[test]
fn is_toml_key_matches_assignments() {
    assert!(is_toml_key("hooks = true", "hooks"));
    assert!(is_toml_key("  codex_hooks=1", "codex_hooks"));
    assert!(!is_toml_key("hooks_x = 1", "hooks"));
    assert!(!is_toml_key("# hooks = 1", "hooks"));
    assert!(!is_toml_key("hooks", "hooks"));
}

#[test]
fn join_toml_lines_ends_as_asked() {
    assert_eq!(join_toml_lines(vec![], false), "\n");
    assert_eq!(join_toml_lines(vec!["a".to_string(), "".to_string()], true), "a\n\n");
}

fn expected_kimi_block(command_of: impl Fn(&str) -> String) -> String {
    let mut s = format!("{KIMI_CONFIG_BLOCK_BEGIN}\n");
    s.push_str(&format!(
        "[[hooks]]\nevent = \"UserPromptSubmit\"\ncommand = {}\ntimeout = 10\n\n",
        toml_basic_string(&command_of("working"))
    ));
    s.push_str(&format!(
        "[[hooks]]\nevent = \"PreToolUse\"\ncommand = {}\ntimeout = 10\n\n",
        toml_basic_string(&command_of("working"))
    ));
    s.push_str(&format!(
        "[[hooks]]\nevent = \"Notification\"\nmatcher = \"permission_prompt\"\ncommand = {}\ntimeout = 10\n\n",
        toml_basic_string(&command_of("blocked"))
    ));
    s.push_str(&format!(
        "[[hooks]]\nevent = \"Stop\"\ncommand = {}\ntimeout = 10\n\n",
        toml_basic_string(&command_of("idle"))
    ));
    s.push_str(KIMI_CONFIG_BLOCK_END);
    s.push('\n');
    s
}

#[test]
fn kimi_hook_table_writes_one_table() {
    assert_eq!(
        kimi_hook_table("Stop", None, "/h/hook.sh", "idle", Platform::Unix),
        "[[hooks]]\nevent = \"Stop\"\ncommand = \"bash '/h/hook.sh' idle\"\ntimeout = 10\n\n"
    );
    assert_eq!(
        kimi_hook_table("N", Some("m\"x"), "/h", "a", Platform::Unix),
        "[[hooks]]\nevent = \"N\"\nmatcher = \"m\\\"x\"\ncommand = \"bash '/h' a\"\ntimeout = 10\n\n"
    );
}

#[test]
fn kimi_config_gets_the_managed_block() {
    let block = expected_kimi_block(|a| format!("bash '/h/hook.sh' {a}"));
    assert_eq!(build_kimi_config_with_hooks("", "/h/hook.sh", Platform::Unix), block);
    assert_eq!(
        build_kimi_config_with_hooks("model = 1\n\n\n", "/h/hook.sh", Platform::Unix),
        format!("model = 1\n\n{block}")
    );
}

#[test]
fn kimi_config_block_is_replaced() {
    let old = format!("a = 1\n{KIMI_CONFIG_BLOCK_BEGIN}\nstale = true\n  {KIMI_CONFIG_BLOCK_END}  \nb = 2\n");
    assert_eq!(remove_kimi_config_block(&old), "a = 1\nb = 2\n");
    let block = expected_kimi_block(|a| format!("bash '/h/hook.sh' {a}"));
    assert_eq!(
        build_kimi_config_with_hooks(&old, "/h/hook.sh", Platform::Unix),
        format!("a = 1\nb = 2\n\n{block}")
    );
}

#[test]
fn kimi_config_removal_trims_blank_lines() {
    assert_eq!(remove_kimi_config_block("x = 1\n"), "x = 1\n");
    assert_eq!(remove_kimi_config_block(""), "");
    let only = format!("{KIMI_CONFIG_BLOCK_BEGIN}\n{KIMI_CONFIG_BLOCK_END}\n");
    assert_eq!(remove_kimi_config_block(&only), "");
    let unterminated = format!("x = 1\n\n{KIMI_CONFIG_BLOCK_BEGIN}\ny = 2\n");
    assert_eq!(remove_kimi_config_block(&unterminated), "x = 1\n");
}

#[test]
fn kimi_config_build_then_remove_restores_the_rest() {
    for content in ["", "model = 1\n", "model = 1", "a = 1\n\n\nb = 2\n", "a = \"x\ry\"\n"] {
        let built = build_kimi_config_with_hooks(content, "/h/hook.sh", Platform::Unix);
        assert_eq!(build_kimi_config_with_hooks(&built, "/h/hook.sh", Platform::Unix), built);
        let trimmed = content.trim_end_matches('\n');
        let expected = if trimmed.is_empty() { String::new() } else { format!("{trimmed}\n") };
        assert_eq!(remove_kimi_config_block(&built), expected, "{content:?}");
    }
}

#[test]
fn kimi_config_on_windows_quotes_for_powershell() {
    let built = build_kimi_config_with_hooks("", "C:\\h\\hook.ps1", Platform::Windows);
    let block = expected_kimi_block(|a| {
        format!("powershell -NoProfile -ExecutionPolicy Bypass -File \"C:\\h\\hook.ps1\" {a}")
    });
    assert_eq!(built, block);
}

#[test]
fn kimi_config_build_twice_changes_a_line_ended_by_a_carriage_return() {
    let built = build_kimi_config_with_hooks("a = 1\r", "/h/hook.sh", Platform::Unix);
    let again = build_kimi_config_with_hooks(&built, "/h/hook.sh", Platform::Unix);
    assert_ne!(again, built);
    assert!(again.starts_with("a = 1\n\n"));
}

#[test]
fn kimi_config_removal_twice_is_removal_once() {
    let block = build_kimi_config_with_hooks("", "/h/hook.sh", Platform::Unix);
    for content in [
        String::new(),
        "x = 1\n".to_string(),
        format!("a = 1\r\r\n\n{block}\n\n"),
        format!("{block}b = 2\r"),
        format!("a = 1\n{KIMI_CONFIG_BLOCK_BEGIN}\nc = 3\n"),
    ] {
        let once = remove_kimi_config_block(&content);
        assert_eq!(remove_kimi_config_block(&once), once, "{content:?}");
    }
}

#[test]
fn toml_basic_string_is_quoted_without_control_characters() {
    for value in ["", "plain", "a\"b\\c", "tab\there\nnew\u{7f}\u{1}"] {
        let quoted = toml_basic_string(value);
        assert!(quoted.len() >= 2 && quoted.starts_with('"') && quoted.ends_with('"'));
        assert!(!quoted.chars().any(|c| c <= '\u{1f}' || c == '\u{7f}'), "{quoted:?}");
    }
}

#[test]
fn kimi_config_removal_leaves_no_begin_marker() {
    let block = build_kimi_config_with_hooks("x = 1\n", "/h/hook.sh", Platform::Unix);
    let content = format!("{block}y = 2\n{KIMI_CONFIG_BLOCK_BEGIN}\nz = 3\n");
    let removed = remove_kimi_config_block(&content);
    assert!(!removed.lines().any(|l| l.trim() == KIMI_CONFIG_BLOCK_BEGIN));
    assert_eq!(removed, "x = 1\n\ny = 2\n");
}
