use vstd::prelude::*;

verus! {

/// Name under which the Hermes plugin is installed and listed as enabled.
pub const HERMES_PLUGIN_INSTALL_NAME: &'static str = "herdr-agent-state";

/// First line of the block that this library manages in the Kimi configuration.
pub const KIMI_CONFIG_BLOCK_BEGIN: &'static str = "# >>> herdr kimi hooks >>>";

/// Last line of the block that this library manages in the Kimi configuration.
pub const KIMI_CONFIG_BLOCK_END: &'static str = "# <<< herdr kimi hooks <<<";

/// First line of the block that this library manages in the Vibe hooks file.
pub const VIBE_CONFIG_BLOCK_BEGIN: &'static str = "# >>> herdr vibe hooks >>>";

/// Last line of the block that this library manages in the Vibe hooks file.
pub const VIBE_CONFIG_BLOCK_END: &'static str = "# <<< herdr vibe hooks <<<";

/// Name of the hook that this library installs in the Vibe hooks file.
pub const VIBE_HOOK_NAME: &'static str = "herdr-agent-state";

/// The Kimi hook events that the library installs: the event, an optional matcher and the
/// action handed to the hook script.
pub open spec fn spec_kimi_hook_events() -> Seq<(&'static str, Option<&'static str>, &'static str)> {
    seq![
        ("UserPromptSubmit", None, "working"),
        ("PreToolUse", None, "working"),
        ("Notification", Some("permission_prompt"), "blocked"),
        ("Stop", None, "idle"),
    ]
}

/// The Kimi hook events that the library installs.
pub fn kimi_hook_events() -> (res: Vec<(&'static str, Option<&'static str>, &'static str)>)
    ensures
        res@ == spec_kimi_hook_events(),
{
    let res = vec![
        ("UserPromptSubmit", None, "working"),
        ("PreToolUse", None, "working"),
        ("Notification", Some("permission_prompt"), "blocked"),
        ("Stop", None, "idle"),
    ];
    proof {
        assert(res@ =~= spec_kimi_hook_events());
    }
    res
}

} // verus!
