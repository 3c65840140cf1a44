use vstd::prelude::*;

use crate::constants::VIBE_HOOK_NAME;

verus! {

/// Why an edit of an agent configuration was refused.
#[derive(Debug)]
pub enum ConfigError {
    /// The settings root, or its `hooks` member, is not a JSON object.
    NotAnObject { description: String, path: String },
    /// The hook list of an event is not a JSON array.
    EntriesNotArray { event: String },
    /// The vibe hooks file is not a TOML document; the parser's own message.
    VibeParse { message: String },
    /// The unmanaged part of the vibe hooks file already has a hook with the managed name.
    VibeUnownedHook,
    /// A begin marker stands inside an open managed block.
    VibeNestedBlock,
    /// A second managed block begins after one has closed.
    VibeMultipleBlocks,
    /// An end marker stands where no managed block is open.
    VibeUnmatchedMarker,
    /// A managed block is still open at the end of the file.
    VibeUnterminatedBlock,
    /// The Windows PowerShell executable is missing from the system directory.
    PowerShellNotFound { path: String },
    /// The Windows system directory could not be read; the system's message.
    WindowsDirectory { message: String },
}

impl ConfigError {
    /// The text of the error.
    pub open spec fn spec_message(&self) -> Seq<char> {
        match self {
            ConfigError::NotAnObject { description, path } => description@ + " at "@ + path@
                + " must be a JSON object"@,
            ConfigError::EntriesNotArray { event } => "hook entries for "@ + event@
                + " must be an array"@,
            ConfigError::VibeParse { message } => "failed to parse vibe hooks config: "@
                + message@,
            ConfigError::VibeUnownedHook => "vibe hooks config already contains an unowned hook named "@
                + VIBE_HOOK_NAME@,
            ConfigError::VibeNestedBlock => "vibe hooks config contains a nested herdr marker block"@,
            ConfigError::VibeMultipleBlocks => "vibe hooks config contains multiple herdr marker blocks"@,
            ConfigError::VibeUnmatchedMarker => "vibe hooks config contains an unmatched herdr marker"@,
            ConfigError::VibeUnterminatedBlock => "vibe hooks config contains an unterminated herdr marker block"@,
            ConfigError::PowerShellNotFound { path } => "trusted Windows PowerShell executable not found at "@
                + path@,
            ConfigError::WindowsDirectory { message } => message@,
        }
    }

    /// The text of the error, as the program reports it.
    pub fn message(&self) -> (res: String)
        ensures
            res@ == self.spec_message(),
    {
        match self {
            ConfigError::NotAnObject { description, path } => {
                let mut s = String::from_str(description.as_str());
                s.append(" at ");
                s.append(path.as_str());
                s.append(" must be a JSON object");
                s
            },
            ConfigError::EntriesNotArray { event } => {
                let mut s = String::from_str("hook entries for ");
                s.append(event.as_str());
                s.append(" must be an array");
                s
            },
            ConfigError::VibeParse { message } => {
                let mut s = String::from_str("failed to parse vibe hooks config: ");
                s.append(message.as_str());
                s
            },
            ConfigError::VibeUnownedHook => {
                let mut s = String::from_str(
                    "vibe hooks config already contains an unowned hook named ",
                );
                s.append(VIBE_HOOK_NAME);
                s
            },
            ConfigError::VibeNestedBlock => String::from_str(
                "vibe hooks config contains a nested herdr marker block",
            ),
            ConfigError::VibeMultipleBlocks => String::from_str(
                "vibe hooks config contains multiple herdr marker blocks",
            ),
            ConfigError::VibeUnmatchedMarker => String::from_str(
                "vibe hooks config contains an unmatched herdr marker",
            ),
            ConfigError::VibeUnterminatedBlock => String::from_str(
                "vibe hooks config contains an unterminated herdr marker block",
            ),
            ConfigError::PowerShellNotFound { path } => {
                let mut s = String::from_str("trusted Windows PowerShell executable not found at ");
                s.append(path.as_str());
                s
            },
            ConfigError::WindowsDirectory { message } => String::from_str(message.as_str()),
        }
    }
}

} // verus!
