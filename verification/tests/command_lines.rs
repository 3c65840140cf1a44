use herdr_config::command::{
    direct_command_field, hook_command, legacy_bash_hook_command, shell_single_quote,
    trusted_hook_command, windows_command_quote, TrustedShell,
};
use herdr_config::error::ConfigError;
use herdr_config::platform::Platform;

#[test]
fn shell_single_quote_wraps_plain_text() {
    assert_eq!(shell_single_quote("/tmp/hook.sh"), "'/tmp/hook.sh'");
    assert_eq!(shell_single_quote(""), "''");
}

#[test]
fn shell_single_quote_escapes_single_quotes() {
    assert_eq!(shell_single_quote("it's"), "'it'\"'\"'s'");
}

#[test]
fn windows_command_quote_escapes_double_quotes() {
    assert_eq!(windows_command_quote("C:\\a \"b\""), "\"C:\\a \\\"b\\\"\"");
}

#[test]
fn hook_command_on_unix_runs_bash() {
    assert_eq!(
        hook_command("/home/u/.herdr/hook.sh", Some("idle"), Platform::Unix),
        "bash '/home/u/.herdr/hook.sh' idle"
    );
    assert_eq!(hook_command("/h/hook.sh", None, Platform::Unix), "bash '/h/hook.sh'");
}

#[test]
fn hook_command_on_windows_runs_powershell() {
    assert_eq!(
        hook_command("C:\\h\\hook.ps1", Some("working"), Platform::Windows),
        "powershell -NoProfile -ExecutionPolicy Bypass -File \"C:\\h\\hook.ps1\" working"
    );
}

#[test]
fn legacy_bash_command_is_the_unix_hook_command() {
    for action in [None, Some("idle"), Some("a b")] {
        assert_eq!(
            legacy_bash_hook_command("/p/it's.sh", action),
            hook_command("/p/it's.sh", action, Platform::Unix)
        );
    }
    assert_eq!(
        legacy_bash_hook_command("C:\\h\\hook.ps1", Some("idle")),
        "bash 'C:\\h\\hook.ps1' idle"
    );
}

#[test]
fn trusted_hook_command_on_unix_is_the_hook_command() {
    let c = trusted_hook_command("/h/hook.sh", Some("idle"), &TrustedShell::Posix).unwrap();
    assert_eq!(c, "bash '/h/hook.sh' idle");
}

#[test]
fn trusted_hook_command_names_the_system_powershell() {
    let shell = TrustedShell::WindowsPowerShell {
        path: "C:\\Windows\\System32\\WindowsPowerShell\\v1.0\\powershell.exe".to_string(),
        is_file: true,
    };
    let c = trusted_hook_command("C:\\h\\hook.ps1", None, &shell).unwrap();
    assert_eq!(
        c,
        "\"C:\\Windows\\System32\\WindowsPowerShell\\v1.0\\powershell.exe\" -NoProfile -ExecutionPolicy Bypass -File \"C:\\h\\hook.ps1\""
    );
}

#[test]
fn trusted_hook_command_refuses_a_missing_powershell() {
    let shell = TrustedShell::WindowsPowerShell { path: "C:\\W\\ps.exe".to_string(), is_file: false };
    match trusted_hook_command("C:\\h\\hook.ps1", None, &shell) {
        Err(e @ ConfigError::PowerShellNotFound { .. }) => {
            assert_eq!(e.message(), "trusted Windows PowerShell executable not found at C:\\W\\ps.exe");
        }
        other => panic!("unexpected {:?}", other),
    }
}

#[test]
fn trusted_hook_command_reports_an_unreadable_system_directory() {
    let shell = TrustedShell::WindowsDirectoryUnavailable { message: "denied".to_string() };
    match trusted_hook_command("C:\\h\\hook.ps1", None, &shell) {
        Err(e @ ConfigError::WindowsDirectory { .. }) => assert_eq!(e.message(), "denied"),
        other => panic!("unexpected {:?}", other),
    }
}

#[test]
fn direct_command_field_follows_the_platform() {
    assert_eq!(direct_command_field(Platform::Unix), "bash");
    assert_eq!(direct_command_field(Platform::Windows), "powershell");
}
