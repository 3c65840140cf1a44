use herdr_config::command::TrustedShell;
use herdr_config::constants::{VIBE_CONFIG_BLOCK_BEGIN, VIBE_CONFIG_BLOCK_END};
use herdr_config::error::ConfigError;
use herdr_config::vibe::{
    build_vibe_hooks_config_with_hook, marker_block_range_from_flags, parse_vibe_hooks_toml,
    remove_vibe_hooks_config_block, validate_vibe_hooks_toml, vibe_managed_hooks_config_block,
    vibe_marker_block_range, vibe_marker_line_is_comment, vibe_named_hook_count, VibeHooksConfig,
};

fn managed(command: &str) -> String {
    format!(
        "{VIBE_CONFIG_BLOCK_BEGIN}\n[[hooks]]\nname = \"herdr-agent-state\"\ntype = \"post_agent\"\ncommand = \"{command}\"\ntimeout = 10.0\n{VIBE_CONFIG_BLOCK_END}\n"
    )
}

fn split(content: &str) -> Vec<String> {
    content.lines().map(str::to_string).collect()
}

#[test]
fn vibe_build_writes_the_managed_block() {
    let built = build_vibe_hooks_config_with_hook("", "/h/hook.sh", &TrustedShell::Posix).unwrap();
    assert_eq!(built, managed("bash '/h/hook.sh'"));
    let with_other = build_vibe_hooks_config_with_hook(
        "[[hooks]]\nname = \"mine\"\n\n",
        "/h/hook.sh",
        &TrustedShell::Posix,
    )
    .unwrap();
    assert_eq!(with_other, format!("[[hooks]]\nname = \"mine\"\n\n{}", managed("bash '/h/hook.sh'")));
}

#[test]
fn vibe_build_is_idempotent_and_removable() {
    let built = build_vibe_hooks_config_with_hook("a = 1\n", "/h/hook.sh", &TrustedShell::Posix).unwrap();
    let again = build_vibe_hooks_config_with_hook(&built, "/h/hook.sh", &TrustedShell::Posix).unwrap();
    assert_eq!(again, built);
    assert_eq!(remove_vibe_hooks_config_block(&built).unwrap(), "a = 1\n");
    assert_eq!(
        vibe_managed_hooks_config_block(&built).unwrap(),
        Some(
            "[[hooks]]\nname = \"herdr-agent-state\"\ntype = \"post_agent\"\ncommand = \"bash '/h/hook.sh'\"\ntimeout = 10.0"
                .to_string()
        )
    );
    assert_eq!(vibe_managed_hooks_config_block("a = 1\n").unwrap(), None);
}

#[test]
fn vibe_build_refuses_an_unparsable_file() {
    match build_vibe_hooks_config_with_hook("x = ", "/h/hook.sh", &TrustedShell::Posix) {
        Err(e @ ConfigError::VibeParse { .. }) => {
            assert!(e.message().starts_with("failed to parse vibe hooks config: "));
            assert!(e.message().len() > "failed to parse vibe hooks config: ".len());
        }
        other => panic!("unexpected {:?}", other),
    }
    assert!(matches!(validate_vibe_hooks_toml("x = "), Err(ConfigError::VibeParse { .. })));
    assert!(validate_vibe_hooks_toml("x = 1").is_ok());
}

#[test]
fn vibe_parse_error_carries_the_parser_message() {
    let expected = toml::from_str::<toml::Value>("x = ").unwrap_err().to_string();
    match validate_vibe_hooks_toml("x = ") {
        Err(ConfigError::VibeParse { message }) => assert_eq!(message, expected),
        other => panic!("unexpected {:?}", other),
    }
    match build_vibe_hooks_config_with_hook("x = ", "/h/hook.sh", &TrustedShell::Posix) {
        Err(e @ ConfigError::VibeParse { .. }) => assert_eq!(
            e.message(),
            format!("failed to parse vibe hooks config: {expected}")
        ),
        other => panic!("unexpected {:?}", other),
    }
}

#[test]
fn vibe_build_refuses_an_unowned_hook_of_the_same_name() {
    let content = "[[hooks]]\nname = \"herdr-agent-state\"\n";
    let res = build_vibe_hooks_config_with_hook(content, "/h/hook.sh", &TrustedShell::Posix);
    match res {
        Err(e @ ConfigError::VibeUnownedHook) => assert_eq!(
            e.message(),
            "vibe hooks config already contains an unowned hook named herdr-agent-state"
        ),
        other => panic!("unexpected {:?}", other),
    }
}

#[test]
fn vibe_build_reports_a_missing_powershell() {
    let shell = TrustedShell::WindowsPowerShell { path: "C:\\W\\ps.exe".to_string(), is_file: false };
    let res = build_vibe_hooks_config_with_hook("", "C:\\h\\hook.ps1", &shell);
    assert!(matches!(res, Err(ConfigError::PowerShellNotFound { .. })));
    let shell = TrustedShell::WindowsPowerShell { path: "C:\\W\\ps.exe".to_string(), is_file: true };
    let built = build_vibe_hooks_config_with_hook("", "C:\\h\\hook.ps1", &shell).unwrap();
    assert!(built.contains("command = \"\\\"C:\\\\W\\\\ps.exe\\\" -NoProfile -ExecutionPolicy Bypass -File \\\"C:\\\\h\\\\hook.ps1\\\"\"\n"));
}

#[test]
fn vibe_marker_errors_are_reported() {
    let b = VIBE_CONFIG_BLOCK_BEGIN;
    let e = VIBE_CONFIG_BLOCK_END;
    let nested = format!("{b}\n{b}\n{e}\n");
    assert!(matches!(remove_vibe_hooks_config_block(&nested), Err(ConfigError::VibeNestedBlock)));
    let multiple = format!("{b}\n{e}\n{b}\n{e}\n");
    assert!(matches!(remove_vibe_hooks_config_block(&multiple), Err(ConfigError::VibeMultipleBlocks)));
    let unmatched = format!("x = 1\n{e}\n");
    assert!(matches!(remove_vibe_hooks_config_block(&unmatched), Err(ConfigError::VibeUnmatchedMarker)));
    let unterminated = format!("{b}\nx = 1\n");
    assert!(matches!(
        remove_vibe_hooks_config_block(&unterminated),
        Err(ConfigError::VibeUnterminatedBlock)
    ));
    assert_eq!(
        ConfigError::VibeNestedBlock.message(),
        "vibe hooks config contains a nested herdr marker block"
    );
}

#[test]
fn vibe_markers_inside_strings_are_not_markers() {
    let content = format!("x = \"\"\"\n{}\n\"\"\"\n", VIBE_CONFIG_BLOCK_END);
    let lines = split(&content);
    assert!(!vibe_marker_line_is_comment(&content, 1));
    assert_eq!(vibe_marker_block_range(&content, &lines).unwrap(), None);
    assert_eq!(remove_vibe_hooks_config_block(&content).unwrap(), content);
}

#[test]
fn vibe_marker_block_range_finds_the_block() {
    let content = format!("a = 1\n  {}\n[[hooks]]\n{}\n", VIBE_CONFIG_BLOCK_BEGIN, VIBE_CONFIG_BLOCK_END);
    let lines = split(&content);
    assert!(vibe_marker_line_is_comment(&content, 1));
    assert_eq!(vibe_marker_block_range(&content, &lines).unwrap(), Some((1, 3)));
}

#[test]
fn marker_block_range_from_flags_follows_the_flags() {
    let lines = split(&format!("{}\n{}\n", VIBE_CONFIG_BLOCK_BEGIN, VIBE_CONFIG_BLOCK_END));
    assert_eq!(marker_block_range_from_flags(&lines, &[true, true]).unwrap(), Some((0, 1)));
    assert_eq!(marker_block_range_from_flags(&lines, &[false, false]).unwrap(), None);
    assert!(matches!(
        marker_block_range_from_flags(&lines, &[true, false]),
        Err(ConfigError::VibeUnterminatedBlock)
    ));
    assert!(matches!(
        marker_block_range_from_flags(&lines, &[false, true]),
        Err(ConfigError::VibeUnmatchedMarker)
    ));
}

#[test]
fn vibe_hook_names_are_read() {
    let config = parse_vibe_hooks_toml(
        "[[hooks]]\nname = \"a\"\n[[hooks]]\ntype = \"x\"\n[[hooks]]\nname = \"herdr-agent-state\"\n",
    )
    .unwrap();
    assert_eq!(
        config.hook_names,
        vec![Some("a".to_string()), None, Some("herdr-agent-state".to_string())]
    );
    assert_eq!(vibe_named_hook_count(&config), 1);
    assert_eq!(parse_vibe_hooks_toml("x = 1").unwrap().hook_names, Vec::<Option<String>>::new());
    assert_eq!(parse_vibe_hooks_toml("hooks = 3").unwrap().hook_names, Vec::<Option<String>>::new());
    let two = VibeHooksConfig {
        hook_names: vec![Some("herdr-agent-state".to_string()), Some("herdr-agent-state".to_string())],
    };
    assert_eq!(vibe_named_hook_count(&two), 2);
}

#[test]
fn vibe_block_read_back_and_removal_after_build() {
    for content in ["", "a = 1\n\n\n", "[[hooks]]\nname = \"mine\"\n"] {
        let built =
            build_vibe_hooks_config_with_hook(content, "/h/hook.sh", &TrustedShell::Posix).unwrap();
        let body = vibe_managed_hooks_config_block(&built).unwrap().unwrap();
        assert!(body.starts_with("[[hooks]]\nname = \"herdr-agent-state\"\n"), "{content:?}");
        assert!(body.ends_with("\ntimeout = 10.0"), "{content:?}");
        let user = remove_vibe_hooks_config_block(content).unwrap();
        let trimmed = user.trim_end_matches('\n');
        let expected = if trimmed.is_empty() { String::new() } else { format!("{trimmed}\n") };
        assert_eq!(remove_vibe_hooks_config_block(&built).unwrap(), expected, "{content:?}");
    }
}
