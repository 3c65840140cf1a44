use vstd::prelude::*;

use crate::error::ConfigError;
use crate::platform::Platform;
use crate::text::push_char;

verus! {

/// `s` with every `c` replaced by `rep`.
pub open spec fn replace_char(s: Seq<char>, c: char, rep: Seq<char>) -> Seq<char>
    decreases s.len(),
{
    if s.len() == 0 {
        seq![]
    } else {
        (if s[0] == c {
            rep
        } else {
            seq![s[0]]
        }) + replace_char(s.drop_first(), c, rep)
    }
}

pub proof fn lemma_replace_char_push(s: Seq<char>, c: char, rep: Seq<char>, x: char)
    ensures
        replace_char(s.push(x), c, rep) == replace_char(s, c, rep) + (if x == c {
            rep
        } else {
            seq![x]
        }),
    decreases s.len(),
{
    if s.len() == 0 {
        assert(s.push(x).drop_first() =~= Seq::<char>::empty());
        assert(replace_char(s.push(x).drop_first(), c, rep) =~= Seq::<char>::empty());
        assert(replace_char(s, c, rep) =~= Seq::<char>::empty());
        assert(replace_char(s.push(x), c, rep) =~= (if x == c {
            rep
        } else {
            seq![x]
        }));
    } else {
        assert(s.push(x).drop_first() =~= s.drop_first().push(x));
        lemma_replace_char_push(s.drop_first(), c, rep, x);
        assert(replace_char(s.push(x), c, rep) =~= replace_char(s, c, rep) + (if x == c {
            rep
        } else {
            seq![x]
        }));
    }
}

/// `value` between single quotes, each `'` inside written as `'"'"'`.
pub open spec fn spec_shell_single_quote(value: Seq<char>) -> Seq<char> {
    seq!['\''] + replace_char(value, '\'', "'\"'\"'"@) + seq!['\'']
}

/// `value` between double quotes, each `"` inside written as `\"`.
pub open spec fn spec_windows_command_quote(value: Seq<char>) -> Seq<char> {
    seq!['"'] + replace_char(value, '"', "\\\""@) + seq!['"']
}

/// A space and the action, when there is one.
pub open spec fn action_suffix(action: Option<&str>) -> Seq<char> {
    match action {
        Some(a) => " "@ + a@,
        None => seq![],
    }
}

/// The command that runs a hook script with bash.
pub open spec fn spec_legacy_bash_hook_command(hook_path: Seq<char>, action: Option<&str>) -> Seq<
    char,
> {
    "bash "@ + spec_shell_single_quote(hook_path) + action_suffix(action)
}

/// The command that runs a hook script on the given platform.
pub open spec fn spec_hook_command(hook_path: Seq<char>, action: Option<&str>, platform: Platform) -> Seq<
    char,
> {
    match platform {
        Platform::Windows => "powershell -NoProfile -ExecutionPolicy Bypass -File "@
            + spec_windows_command_quote(hook_path) + action_suffix(action),
        Platform::Unix => spec_legacy_bash_hook_command(hook_path, action),
    }
}

/// `value` with each `c` replaced by `rep`.
fn replace_char_exec(value: &str, c: char, rep: &str) -> (res: String)
    ensures
        res@ == replace_char(value@, c, rep@),
{
    let v = crate::text::chars_of(value);
    let mut res = String::new();
    let mut i: usize = 0;
    proof {
        assert(value@.take(0) =~= Seq::<char>::empty());
    }
    while i < v.len()
        invariant
            v@ == value@,
            i <= v.len(),
            res@ == replace_char(value@.take(i as int), c, rep@),
        decreases v.len() - i,
    {
        proof {
            assert(value@.take(i + 1) =~= value@.take(i as int).push(v@[i as int]));
            lemma_replace_char_push(value@.take(i as int), c, rep@, v@[i as int]);
        }
        if v[i] == c {
            res.append(rep);
        } else {
            push_char(&mut res, v[i]);
        }
        i += 1;
    }
    proof {
        assert(value@.take(v.len() as int) =~= value@);
    }
    res
}

/// Quotes a value for a POSIX shell.
pub fn shell_single_quote(value: &str) -> (res: String)
    ensures
        res@ == spec_shell_single_quote(value@),
{
    let mut res = String::from_str("'");
    let inner = replace_char_exec(value, '\'', "'\"'\"'");
    res.append(inner.as_str());
    res.append("'");
    proof {
        reveal_strlit("'");
        assert(res@ =~= spec_shell_single_quote(value@));
    }
    res
}

/// Quotes a value for a Windows command line.
pub fn windows_command_quote(value: &str) -> (res: String)
    ensures
        res@ == spec_windows_command_quote(value@),
{
    let mut res = String::from_str("\"");
    let inner = replace_char_exec(value, '"', "\\\"");
    res.append(inner.as_str());
    res.append("\"");
    proof {
        reveal_strlit("\"");
        assert(res@ =~= spec_windows_command_quote(value@));
    }
    res
}

fn push_action(command: &mut String, action: Option<&str>)
    ensures
        final(command)@ == old(command)@ + action_suffix(action),
{
    if let Some(action) = action {
        command.append(" ");
        command.append(action);
    } else {
        assert(old(command)@ + action_suffix(action) =~= old(command)@);
    }
}

/// The command line that runs the hook script at `hook_path` (as displayed), with an optional action.
pub fn hook_command(hook_path: &str, action: Option<&str>, platform: Platform) -> (res: String)
    ensures
        res@ == spec_hook_command(hook_path@, action, platform),
{
    match platform {
        Platform::Windows => {
            let mut command = String::from_str("powershell -NoProfile -ExecutionPolicy Bypass -File ");
            let quoted = windows_command_quote(hook_path);
            command.append(quoted.as_str());
            push_action(&mut command, action);
            command
        },
        Platform::Unix => legacy_bash_hook_command(hook_path, action),
    }
}

/// The bash command line that earlier installations wrote for the hook script.
pub fn legacy_bash_hook_command(hook_path: &str, action: Option<&str>) -> (res: String)
    ensures
        res@ == spec_legacy_bash_hook_command(hook_path@, action),
{
    let mut command = String::from_str("bash ");
    let quoted = shell_single_quote(hook_path);
    command.append(quoted.as_str());
    push_action(&mut command, action);
    command
}

/// What the host offers to run a trusted hook command with.
#[derive(Debug)]
pub enum TrustedShell {
    /// Not Windows: the plain hook command is trusted.
    Posix,
    /// Windows: the path of `System32\WindowsPowerShell\v1.0\powershell.exe` under the system
    /// directory (as displayed), and whether a file is there.
    WindowsPowerShell { path: String, is_file: bool },
    /// Windows, where the system directory could not be read; the system's message.
    WindowsDirectoryUnavailable { message: String },
}

/// What `trusted_hook_command` gives for a hook path, an action and a host shell.
pub open spec fn spec_trusted_hook_command(
    hook_path: Seq<char>,
    action: Option<&str>,
    shell: TrustedShell,
) -> Result<Seq<char>, ConfigError> {
    match shell {
        TrustedShell::Posix => Ok(spec_hook_command(hook_path, action, Platform::Unix)),
        TrustedShell::WindowsPowerShell { path, is_file } => if is_file {
            Ok(spec_windows_command_quote(path@) + " -NoProfile -ExecutionPolicy Bypass -File "@
                + spec_windows_command_quote(hook_path) + action_suffix(action))
        } else {
            Err(ConfigError::PowerShellNotFound { path })
        },
        TrustedShell::WindowsDirectoryUnavailable { message } => Err(
            ConfigError::WindowsDirectory { message },
        ),
    }
}

/// The hook command line that names its interpreter by a trusted absolute path where the
/// platform needs one.
pub fn trusted_hook_command(hook_path: &str, action: Option<&str>, shell: &TrustedShell) -> (res:
    Result<String, ConfigError>)
    ensures
        match (res, spec_trusted_hook_command(hook_path@, action, *shell)) {
            (Ok(c), Ok(s)) => c@ == s,
            (Err(e), Err(f)) => e == f,
            _ => false,
        },
{
    match shell {
        TrustedShell::Posix => Ok(hook_command(hook_path, action, Platform::Unix)),
        TrustedShell::WindowsPowerShell { path, is_file } => {
            if !*is_file {
                return Err(ConfigError::PowerShellNotFound { path: path.clone() });
            }
            let mut command = windows_command_quote(path.as_str());
            command.append(" -NoProfile -ExecutionPolicy Bypass -File ");
            let quoted = windows_command_quote(hook_path);
            command.append(quoted.as_str());
            push_action(&mut command, action);
            Ok(command)
        },
        TrustedShell::WindowsDirectoryUnavailable { message } => Err(
            ConfigError::WindowsDirectory { message: message.clone() },
        ),
    }
}

/// The field that names the command of a hook entry written in the direct shape.
pub fn direct_command_field(platform: Platform) -> (res: &'static str)
    ensures
        res@ == (match platform {
            Platform::Windows => "powershell"@,
            Platform::Unix => "bash"@,
        }),
{
    match platform {
        Platform::Windows => "powershell",
        Platform::Unix => "bash",
    }
}

/// On a host that is not Windows, the hook command is the legacy bash command.
pub proof fn law_unix_hook_command_is_legacy(hook_path: Seq<char>, action: Option<&str>)
    ensures
        spec_hook_command(hook_path, action, Platform::Unix) == spec_legacy_bash_hook_command(
            hook_path,
            action,
        ),
{
}

/// Where the host is not Windows, the trusted hook command is the hook command.
pub proof fn law_posix_trusted_command_is_hook_command(hook_path: Seq<char>, action: Option<&str>)
    ensures
        spec_trusted_hook_command(hook_path, action, TrustedShell::Posix) == Ok::<
            Seq<char>,
            ConfigError,
        >(spec_hook_command(hook_path, action, Platform::Unix)),
{
}

} // verus!
