use vstd::prelude::*;

use crate::command::{direct_command_field, hook_command, legacy_bash_hook_command};
use crate::error::ConfigError;
use crate::json::{
    json_get, json_seq_view, json_view, lemma_seq_view_len, lemma_seq_view_push, member_is,
    member_is_exec, Json, JsonNumber, JsonObject, JsonValue,
};
use crate::platform::Platform;

verus! {

/// The ways an entry of an event's hook list is recognised as running a given command.
pub enum EntryTest {
    /// A hook group (`{"matcher": .., "hooks": [..]}`) with a command hook for it.
    Group,
    /// A flat entry (`{"type": "command", "command": ..}`).
    Flat,
    /// A direct entry (`{"type": "command", "bash" | "powershell" | "command": ..}`).
    Direct,
    /// A simple entry (`{"command": ..}`).
    Simple,
}

/// A hook (`{"type": "command", "command": ..}`) that runs `command`.
pub open spec fn spec_is_matching_command_hook(hook: Json, command: Seq<char>) -> bool {
    member_is(hook, "type"@, "command"@) && member_is(hook, "command"@, command)
}

/// A direct entry that names `command` under `command`, `bash` or `powershell`.
pub open spec fn spec_is_matching_direct_command_entry(entry: Json, command: Seq<char>) -> bool {
    member_is(entry, "command"@, command) || member_is(entry, "bash"@, command) || member_is(
        entry,
        "powershell"@,
        command,
    )
}

/// A hook group whose `hooks` list holds a command hook for `command`.
pub open spec fn group_has_command(entry: Json, command: Seq<char>) -> bool {
    match json_get(entry, "hooks"@) {
        Some(Json::Array(hs)) => exists|i: int|
            0 <= i < hs.len() && spec_is_matching_command_hook(#[trigger] hs[i], command),
        _ => false,
    }
}

pub open spec fn entry_test_holds(t: EntryTest, entry: Json, command: Seq<char>) -> bool {
    match t {
        EntryTest::Group => group_has_command(entry, command),
        EntryTest::Flat => spec_is_matching_command_hook(entry, command),
        EntryTest::Direct => member_is(entry, "type"@, "command"@)
            && spec_is_matching_direct_command_entry(entry, command),
        EntryTest::Simple => member_is(entry, "command"@, command),
    }
}

/// Some entry passes the test.
pub open spec fn any_entry(es: Seq<Json>, t: EntryTest, command: Seq<char>) -> bool {
    exists|i: int| 0 <= i < es.len() && entry_test_holds(t, #[trigger] es[i], command)
}

/// The entries that fail the test, in order.
pub open spec fn entries_without(es: Seq<Json>, t: EntryTest, command: Seq<char>) -> Seq<Json>
    decreases es.len(),
{
    if es.len() == 0 {
        seq![]
    } else {
        let r = entries_without(es.drop_last(), t, command);
        if entry_test_holds(t, es.last(), command) {
            r
        } else {
            r.push(es.last())
        }
    }
}

/// The hook list of `event`, an empty list when the event has none.
pub open spec fn entries_or_empty(hooks: Map<Seq<char>, Json>, event: Seq<char>) -> Json {
    if hooks.contains_key(event) {
        hooks[event]
    } else {
        Json::Array(seq![])
    }
}

/// The hooks with `entry` added to the list of `event` unless an entry passes the test;
/// `None` when the event's list is not an array.
pub open spec fn spec_ensure_entry(
    hooks: Map<Seq<char>, Json>,
    event: Seq<char>,
    t: EntryTest,
    command: Seq<char>,
    entry: Json,
) -> Option<Map<Seq<char>, Json>> {
    match entries_or_empty(hooks, event) {
        Json::Array(es) => if any_entry(es, t, command) {
            Some(hooks)
        } else {
            Some(hooks.insert(event, Json::Array(es.push(entry))))
        },
        _ => None,
    }
}

/// The hooks with the entries of `event` that pass the test removed (and the event removed
/// when none is left), and whether any was; `None` when the event's list is not an array.
pub open spec fn spec_remove_entries(
    hooks: Map<Seq<char>, Json>,
    event: Seq<char>,
    t: EntryTest,
    command: Seq<char>,
) -> Option<(Map<Seq<char>, Json>, bool)> {
    if !hooks.contains_key(event) {
        Some((hooks, false))
    } else {
        match hooks[event] {
            Json::Array(es) => {
                let kept = entries_without(es, t, command);
                Some(
                    (
                        if kept.len() == 0 {
                            hooks.remove(event)
                        } else {
                            hooks.insert(event, Json::Array(kept))
                        },
                        kept.len() != es.len(),
                    ),
                )
            },
            _ => None,
        }
    }
}

/// The error for an event whose hook list is not an array.
pub open spec fn is_entries_error(res: Result<(), ConfigError>, event: Seq<char>) -> bool {
    res matches Err(ConfigError::EntriesNotArray { event: e }) && e@ == event
}

/// The outcome of an edit agrees with its specification.
pub open spec fn ensure_agrees(
    res: Result<(), ConfigError>,
    old_hooks: Map<Seq<char>, Json>,
    new_hooks: Map<Seq<char>, Json>,
    event: Seq<char>,
    spec: Option<Map<Seq<char>, Json>>,
) -> bool {
    match spec {
        Some(m) => res is Ok && new_hooks == m,
        None => is_entries_error(res, event) && new_hooks == old_hooks,
    }
}

/// The outcome of a removal agrees with its specification.
pub open spec fn remove_agrees(
    res: Result<bool, ConfigError>,
    old_hooks: Map<Seq<char>, Json>,
    new_hooks: Map<Seq<char>, Json>,
    event: Seq<char>,
    spec: Option<(Map<Seq<char>, Json>, bool)>,
) -> bool {
    match spec {
        Some((m, b)) => res == Ok::<bool, ConfigError>(b) && new_hooks == m,
        None => (res matches Err(ConfigError::EntriesNotArray { event: e }) && e@ == event)
            && new_hooks == old_hooks,
    }
}

proof fn lemma_group_has_command_intro(entry: Json, g: Seq<Json>, c: Seq<char>, i: int)
    requires
        json_get(entry, "hooks"@) == Some(Json::Array(g)),
        0 <= i < g.len(),
        spec_is_matching_command_hook(g[i], c),
    ensures
        group_has_command(entry, c),
{
    let h = json_get(entry, "hooks"@);
    assert(h->0 is Array);
    assert(h->0->Array_0 == g);
    assert(exists|j: int| 0 <= j < g.len() && spec_is_matching_command_hook(#[trigger] g[j], c));
}

/// Whether `hook` is a command hook for `command`.
pub fn is_matching_command_hook(hook: &JsonValue, command: &str) -> (res: bool)
    ensures
        res == spec_is_matching_command_hook(hook@, command@),
{
    member_is_exec(hook, "type", "command") && member_is_exec(hook, "command", command)
}

/// Whether a direct entry names `command`.
pub fn is_matching_direct_command_entry(entry: &JsonValue, command: &str) -> (res: bool)
    ensures
        res == spec_is_matching_direct_command_entry(entry@, command@),
{
    member_is_exec(entry, "command", command) || member_is_exec(entry, "bash", command)
        || member_is_exec(entry, "powershell", command)
}

fn group_has_command_exec(entry: &JsonValue, command: &str) -> (res: bool)
    ensures
        res == group_has_command(entry@, command@),
{
    match entry.get("hooks") {
        Some(JsonValue::Array(hs)) => {
            proof {
                lemma_seq_view_len(hs@);
            }
            let mut i: usize = 0;
            while i < hs.len()
                invariant
                    i <= hs.len(),
                    json_get(entry@, "hooks"@) == Some(Json::Array(json_seq_view(hs@))),
                    json_seq_view(hs@).len() == hs@.len(),
                    forall|j: int|
                        0 <= j < hs@.len() ==> #[trigger] json_seq_view(hs@)[j] == json_view(
                            hs@[j],
                        ),
                    forall|j: int|
                        0 <= j < i ==> !spec_is_matching_command_hook(
                            #[trigger] json_seq_view(hs@)[j],
                            command@,
                        ),
                decreases hs.len() - i,
            {
                if is_matching_command_hook(&hs[i], command) {
                    proof {
                        let g = json_seq_view(hs@);
                        assert(spec_is_matching_command_hook(g[i as int], command@));
                        lemma_group_has_command_intro(entry@, g, command@, i as int);
                    }
                    return true;
                }
                i += 1;
            }
            false
        },
        _ => false,
    }
}

fn entry_test(t: &EntryTest, entry: &JsonValue, command: &str) -> (res: bool)
    ensures
        res == entry_test_holds(*t, entry@, command@),
{
    match t {
        EntryTest::Group => group_has_command_exec(entry, command),
        EntryTest::Flat => is_matching_command_hook(entry, command),
        EntryTest::Direct => member_is_exec(entry, "type", "command")
            && is_matching_direct_command_entry(entry, command),
        EntryTest::Simple => member_is_exec(entry, "command", command),
    }
}

/// Whether some entry passes the test.
fn any_entry_exec(es: &Vec<JsonValue>, t: &EntryTest, command: &str) -> (res: bool)
    ensures
        res == any_entry(json_seq_view(es@), *t, command@),
{
    proof {
        lemma_seq_view_len(es@);
    }
    let mut i: usize = 0;
    while i < es.len()
        invariant
            i <= es.len(),
            json_seq_view(es@).len() == es@.len(),
            forall|j: int|
                0 <= j < es@.len() ==> #[trigger] json_seq_view(es@)[j] == json_view(es@[j]),
            forall|j: int|
                0 <= j < i ==> !entry_test_holds(*t, #[trigger] json_seq_view(es@)[j], command@),
        decreases es.len() - i,
    {
        if entry_test(t, &es[i], command) {
            proof {
                assert(entry_test_holds(*t, json_seq_view(es@)[i as int], command@));
            }
            return true;
        }
        i += 1;
    }
    false
}

/// The entries that fail the test, in order.
fn entries_without_exec(es: Vec<JsonValue>, t: &EntryTest, command: &str) -> (res: Vec<JsonValue>)
    ensures
        json_seq_view(res@) == entries_without(json_seq_view(es@), *t, command@),
{
    let ghost s = es@;
    let ghost sv = json_seq_view(s);
    proof {
        lemma_seq_view_len(s);
    }
    let mut rest = es;
    let mut kept: Vec<JsonValue> = Vec::new();
    let n = rest.len();
    let mut i: usize = 0;
    proof {
        assert(rest@ =~= s.skip(0));
        assert(sv.take(0) =~= Seq::<Json>::empty());
    }
    while i < n
        invariant
            n == s.len(),
            i <= n,
            sv == json_seq_view(s),
            sv.len() == s.len(),
            forall|j: int| 0 <= j < s.len() ==> #[trigger] sv[j] == json_view(s[j]),
            rest@ == s.skip(i as int),
            json_seq_view(kept@) == entries_without(sv.take(i as int), *t, command@),
        decreases n - i,
    {
        let e = rest.remove(0);
        proof {
            assert(e == s[i as int]);
            assert(s.skip(i as int).drop_first() =~= s.skip(i + 1));
            assert(sv.take(i + 1).drop_last() =~= sv.take(i as int));
            assert(sv.take(i + 1).last() == json_view(e));
        }
        if !entry_test(t, &e, command) {
            let ghost before = kept@;
            kept.push(e);
            proof {
                lemma_seq_view_push(before, e);
            }
        }
        i += 1;
    }
    proof {
        assert(sv.take(n as int) =~= sv);
    }
    kept
}

/// Takes the hook list of `event` out of `hooks` (an empty one when there is none); leaves
/// `hooks` as it was and fails when the member is not an array.
fn take_entries(hooks: &mut JsonObject, event: &str) -> (res: Result<Vec<JsonValue>, ConfigError>)
    ensures
        match entries_or_empty(old(hooks)@, event@) {
            Json::Array(es) => res matches Ok(v) && json_seq_view(v@) == es && final(hooks)@ == old(
                hooks,
            )@.remove(event@),
            _ => (res matches Err(ConfigError::EntriesNotArray { event: e }) && e@ == event@)
                && final(hooks)@ == old(hooks)@,
        },
{
    match hooks.remove(event) {
        None => {
            let v: Vec<JsonValue> = Vec::new();
            proof {
                assert(json_seq_view(v@) =~= Seq::<Json>::empty());
            }
            Ok(v)
        },
        Some(JsonValue::Array(v)) => Ok(v),
        Some(other) => {
            let ghost removed = hooks@;
            hooks.insert(String::from_str(event), other);
            proof {
                assert(hooks@ =~= old(hooks)@);
            }
            Err(ConfigError::EntriesNotArray { event: String::from_str(event) })
        },
    }
}

/// Adds `entry` to the list of `event` unless an entry there passes the test.
fn ensure_entry(
    hooks: &mut JsonObject,
    event: &str,
    t: EntryTest,
    command: &str,
    entry: JsonValue,
) -> (res: Result<(), ConfigError>)
    ensures
        ensure_agrees(
            res,
            old(hooks)@,
            final(hooks)@,
            event@,
            spec_ensure_entry(old(hooks)@, event@, t, command@, entry@),
        ),
{
    let mut entries = match take_entries(hooks, event) {
        Ok(v) => v,
        Err(e) => {
            return Err(e);
        },
    };
    let ghost es = json_seq_view(entries@);
    if any_entry_exec(&entries, &t, command) {
        proof {
            if !old(hooks)@.contains_key(event@) {
                assert(es.len() == 0);
            }
        }
        hooks.insert(String::from_str(event), JsonValue::Array(entries));
        proof {
            assert(hooks@ =~= old(hooks)@);
        }
        return Ok(());
    }
    let ghost before = entries@;
    entries.push(entry);
    proof {
        lemma_seq_view_push(before, entry);
    }
    hooks.insert(String::from_str(event), JsonValue::Array(entries));
    proof {
        assert(hooks@ =~= old(hooks)@.insert(event@, Json::Array(es.push(entry@))));
    }
    Ok(())
}

/// Removes the entries of `event` that pass the test, and the event when none is left.
fn remove_entries(hooks: &mut JsonObject, event: &str, t: EntryTest, command: &str) -> (res:
    Result<bool, ConfigError>)
    ensures
        remove_agrees(
            res,
            old(hooks)@,
            final(hooks)@,
            event@,
            spec_remove_entries(old(hooks)@, event@, t, command@),
        ),
{
    match hooks.remove(event) {
        None => {
            proof {
                assert(hooks@ =~= old(hooks)@);
            }
            Ok(false)
        },
        Some(JsonValue::Array(entries)) => {
            let before = entries.len();
            let ghost es = json_seq_view(entries@);
            proof {
                lemma_seq_view_len(entries@);
            }
            let kept = entries_without_exec(entries, &t, command);
            proof {
                lemma_seq_view_len(kept@);
            }
            let removed = kept.len() != before;
            if kept.len() != 0 {
                hooks.insert(String::from_str(event), JsonValue::Array(kept));
            }
            proof {
                let spec = spec_remove_entries(old(hooks)@, event@, t, command@);
                if let Some((m, b)) = spec {
                    assert(hooks@ =~= m);
                }
            }
            Ok(removed)
        },
        Some(other) => {
            hooks.insert(String::from_str(event), other);
            proof {
                assert(hooks@ =~= old(hooks)@);
            }
            Err(ConfigError::EntriesNotArray { event: String::from_str(event) })
        },
    }
}


/// The command hook group that `ensure_command_hook` adds.
pub open spec fn spec_command_hook_group(command: Seq<char>, timeout: u64, matcher: Option<&str>) -> Json {
    let hook = Json::Object(
        Map::<Seq<char>, Json>::empty().insert("type"@, Json::Str("command"@)).insert(
            "command"@,
            Json::Str(command),
        ).insert("timeout"@, Json::Number(JsonNumber::PosInt(timeout))),
    );
    let base = match matcher {
        Some(m) => Map::<Seq<char>, Json>::empty().insert("matcher"@, Json::Str(m@)),
        None => Map::<Seq<char>, Json>::empty(),
    };
    Json::Object(base.insert("hooks"@, Json::Array(seq![hook])))
}

/// The flat entry that `ensure_flat_command_hook` adds.
pub open spec fn spec_flat_command_hook(command: Seq<char>, timeout_ms: u64) -> Json {
    Json::Object(
        Map::<Seq<char>, Json>::empty().insert("type"@, Json::Str("command"@)).insert(
            "command"@,
            Json::Str(command),
        ).insert("timeout"@, Json::Number(JsonNumber::PosInt(timeout_ms))).insert(
            "description"@,
            Json::Str("Report MastraCode agent state to Herdr"@),
        ),
    )
}

/// The simple entry that `ensure_simple_command_hook` adds.
pub open spec fn spec_simple_command_hook(command: Seq<char>) -> Json {
    Json::Object(Map::<Seq<char>, Json>::empty().insert("command"@, Json::Str(command)))
}

fn string_value(s: &str) -> (res: JsonValue)
    ensures
        res@ == Json::Str(s@),
{
    JsonValue::String(String::from_str(s))
}

fn single_array(v: JsonValue) -> (res: JsonValue)
    ensures
        res@ == Json::Array(seq![v@]),
{
    let mut items: Vec<JsonValue> = Vec::new();
    let ghost empty = items@;
    items.push(v);
    proof {
        lemma_seq_view_push(empty, v);
        assert(json_seq_view(empty) =~= Seq::<Json>::empty());
        assert(json_seq_view(items@) =~= seq![v@]);
    }
    JsonValue::Array(items)
}

fn command_hook_group(command: String, timeout: u64, matcher: Option<&str>) -> (res: JsonValue)
    ensures
        res@ == spec_command_hook_group(command@, timeout, matcher),
{
    let mut hook = JsonObject::new();
    hook.insert(String::from_str("type"), string_value("command"));
    hook.insert(String::from_str("command"), JsonValue::String(command));
    hook.insert(String::from_str("timeout"), JsonValue::Number(JsonNumber::PosInt(timeout)));
    let mut entry = JsonObject::new();
    if let Some(m) = matcher {
        entry.insert(String::from_str("matcher"), string_value(m));
    }
    entry.insert(String::from_str("hooks"), single_array(JsonValue::Object(hook)));
    JsonValue::Object(entry)
}

/// Adds a hook group that runs `command` to the list of `event`, unless a group there already
/// runs it.
pub fn ensure_command_hook(
    hooks: &mut JsonObject,
    event: &str,
    command: String,
    timeout: u64,
    matcher: Option<&str>,
) -> (res: Result<(), ConfigError>)
    ensures
        ensure_agrees(
            res,
            old(hooks)@,
            final(hooks)@,
            event@,
            spec_ensure_entry(
                old(hooks)@,
                event@,
                EntryTest::Group,
                command@,
                spec_command_hook_group(command@, timeout, matcher),
            ),
        ),
{
    let text = String::from_str(command.as_str());
    let entry = command_hook_group(command, timeout, matcher);
    ensure_entry(hooks, event, EntryTest::Group, text.as_str(), entry)
}

/// Adds a flat command entry for `command` to the list of `event`, unless one is there.
pub fn ensure_flat_command_hook(hooks: &mut JsonObject, event: &str, command: String, timeout_ms: u64) -> (res:
    Result<(), ConfigError>)
    ensures
        ensure_agrees(
            res,
            old(hooks)@,
            final(hooks)@,
            event@,
            spec_ensure_entry(
                old(hooks)@,
                event@,
                EntryTest::Flat,
                command@,
                spec_flat_command_hook(command@, timeout_ms),
            ),
        ),
{
    let text = String::from_str(command.as_str());
    let mut entry = JsonObject::new();
    entry.insert(String::from_str("type"), string_value("command"));
    entry.insert(String::from_str("command"), JsonValue::String(command));
    entry.insert(String::from_str("timeout"), JsonValue::Number(JsonNumber::PosInt(timeout_ms)));
    entry.insert(
        String::from_str("description"),
        string_value("Report MastraCode agent state to Herdr"),
    );
    ensure_entry(hooks, event, EntryTest::Flat, text.as_str(), JsonValue::Object(entry))
}

/// Adds a simple entry for `command` to the list of `event`, unless one is there.
pub fn ensure_simple_command_hook(hooks: &mut JsonObject, event: &str, command: String) -> (res:
    Result<(), ConfigError>)
    ensures
        ensure_agrees(
            res,
            old(hooks)@,
            final(hooks)@,
            event@,
            spec_ensure_entry(
                old(hooks)@,
                event@,
                EntryTest::Simple,
                command@,
                spec_simple_command_hook(command@),
            ),
        ),
{
    let text = String::from_str(command.as_str());
    let mut entry = JsonObject::new();
    entry.insert(String::from_str("command"), JsonValue::String(command));
    ensure_entry(hooks, event, EntryTest::Simple, text.as_str(), JsonValue::Object(entry))
}

/// Removes the flat command entries for `command` from the list of `event`.
pub fn remove_flat_command_hook(hooks: &mut JsonObject, event: &str, command: &str) -> (res: Result<
    bool,
    ConfigError,
>)
    ensures
        remove_agrees(
            res,
            old(hooks)@,
            final(hooks)@,
            event@,
            spec_remove_entries(old(hooks)@, event@, EntryTest::Flat, command@),
        ),
{
    remove_entries(hooks, event, EntryTest::Flat, command)
}

/// Removes the direct command entries for `command` from the list of `event`.
pub fn remove_direct_command_hook(hooks: &mut JsonObject, event: &str, command: &str) -> (res:
    Result<bool, ConfigError>)
    ensures
        remove_agrees(
            res,
            old(hooks)@,
            final(hooks)@,
            event@,
            spec_remove_entries(old(hooks)@, event@, EntryTest::Direct, command@),
        ),
{
    remove_entries(hooks, event, EntryTest::Direct, command)
}

/// Removes the simple entries for `command` from the list of `event`.
pub fn remove_simple_command_hook(hooks: &mut JsonObject, event: &str, command: &str) -> (res:
    Result<bool, ConfigError>)
    ensures
        remove_agrees(
            res,
            old(hooks)@,
            final(hooks)@,
            event@,
            spec_remove_entries(old(hooks)@, event@, EntryTest::Simple, command@),
        ),
{
    remove_entries(hooks, event, EntryTest::Simple, command)
}


/// What is left of a hook group once its command hooks for `command` are gone: nothing when
/// its `hooks` list ends up empty, the group unchanged when it has no `hooks` list.
pub open spec fn prune_group(e: Json, command: Seq<char>) -> Seq<Json> {
    match e {
        Json::Object(m) => if m.contains_key("hooks"@) && m["hooks"@] is Array {
            let f = entries_without(m["hooks"@]->Array_0, EntryTest::Flat, command);
            if f.len() == 0 {
                seq![]
            } else {
                seq![Json::Object(m.insert("hooks"@, Json::Array(f)))]
            }
        } else {
            seq![e]
        },
        _ => seq![e],
    }
}

/// The group loses a command hook for `command`.
pub open spec fn group_removes(e: Json, command: Seq<char>) -> bool {
    match e {
        Json::Object(m) => m.contains_key("hooks"@) && m["hooks"@] is Array && entries_without(
            m["hooks"@]->Array_0,
            EntryTest::Flat,
            command,
        ).len() != m["hooks"@]->Array_0.len(),
        _ => false,
    }
}

/// The groups pruned one by one.
pub open spec fn prune_groups(es: Seq<Json>, command: Seq<char>) -> Seq<Json>
    decreases es.len(),
{
    if es.len() == 0 {
        seq![]
    } else {
        prune_groups(es.drop_last(), command) + prune_group(es.last(), command)
    }
}

/// The hooks with the command hooks for `command` removed from the groups of `event`, empty
/// groups and an empty event dropped, and whether a hook was removed; `None` when the event's
/// list is not an array.
pub open spec fn spec_remove_command_hook(hooks: Map<Seq<char>, Json>, event: Seq<char>, command: Seq<char>) -> Option<
    (Map<Seq<char>, Json>, bool),
> {
    if !hooks.contains_key(event) {
        Some((hooks, false))
    } else {
        match hooks[event] {
            Json::Array(es) => {
                let kept = prune_groups(es, command);
                Some(
                    (
                        if kept.len() == 0 {
                            hooks.remove(event)
                        } else {
                            hooks.insert(event, Json::Array(kept))
                        },
                        exists|i: int| 0 <= i < es.len() && group_removes(#[trigger] es[i], command),
                    ),
                )
            },
            _ => None,
        }
    }
}

/// Prunes one hook group, pushing what is left onto `kept`; tells whether a hook went.
fn prune_group_exec(e: JsonValue, command: &str, kept: &mut Vec<JsonValue>) -> (removed: bool)
    ensures
        json_seq_view(final(kept)@) == json_seq_view(old(kept)@) + prune_group(e@, command@),
        removed == group_removes(e@, command@),
{
    let ghost ev = e@;
    let ghost before = kept@;
    match e {
        JsonValue::Object(o) => {
            let mut o = o;
            let ghost m = o@;
            match o.remove("hooks") {
                Some(JsonValue::Array(hs)) => {
                    let n = hs.len();
                    proof {
                        lemma_seq_view_len(hs@);
                    }
                    let filtered = entries_without_exec(hs, &EntryTest::Flat, command);
                    proof {
                        lemma_seq_view_len(filtered@);
                    }
                    let removed = filtered.len() != n;
                    if filtered.len() != 0 {
                        o.insert(String::from_str("hooks"), JsonValue::Array(filtered));
                        proof {
                            assert(o@ =~= m.insert("hooks"@, Json::Array(json_seq_view(filtered@))));
                        }
                        let ghost v = JsonValue::Object(o);
                        kept.push(JsonValue::Object(o));
                        proof {
                            lemma_seq_view_push(before, v);
                        }
                    } else {
                        proof {
                            assert(json_seq_view(before) + prune_group(ev, command@) =~= json_seq_view(
                                before,
                            ));
                        }
                    }
                    removed
                },
                Some(other) => {
                    let ghost ov = other@;
                    o.insert(String::from_str("hooks"), other);
                    proof {
                        assert(o@ =~= m);
                    }
                    let ghost v = JsonValue::Object(o);
                    kept.push(JsonValue::Object(o));
                    proof {
                        lemma_seq_view_push(before, v);
                    }
                    false
                },
                None => {
                    proof {
                        assert(o@ =~= m);
                    }
                    let ghost v = JsonValue::Object(o);
                    kept.push(JsonValue::Object(o));
                    proof {
                        lemma_seq_view_push(before, v);
                    }
                    false
                },
            }
        },
        other => {
            let ghost v = other;
            kept.push(other);
            proof {
                lemma_seq_view_push(before, v);
            }
            false
        },
    }
}

/// Removes the command hooks for `command` from the hook groups of `event`, with the groups
/// and the event that end up empty.
pub fn remove_command_hook(hooks: &mut JsonObject, event: &str, command: &str) -> (res: Result<
    bool,
    ConfigError,
>)
    ensures
        remove_agrees(
            res,
            old(hooks)@,
            final(hooks)@,
            event@,
            spec_remove_command_hook(old(hooks)@, event@, command@),
        ),
{
    match hooks.remove(event) {
        None => {
            proof {
                assert(hooks@ =~= old(hooks)@);
            }
            Ok(false)
        },
        Some(JsonValue::Array(entries)) => {
            let ghost s = entries@;
            let ghost sv = json_seq_view(s);
            proof {
                lemma_seq_view_len(s);
            }
            let mut rest = entries;
            let mut kept: Vec<JsonValue> = Vec::new();
            let mut removed = false;
            let n = rest.len();
            let mut i: usize = 0;
            proof {
                assert(rest@ =~= s.skip(0));
                assert(sv.take(0) =~= Seq::<Json>::empty());
                assert(json_seq_view(kept@) =~= Seq::<Json>::empty());
            }
            while i < n
                invariant
                    n == s.len(),
                    i <= n,
                    sv == json_seq_view(s),
                    sv.len() == s.len(),
                    forall|j: int| 0 <= j < s.len() ==> #[trigger] sv[j] == json_view(s[j]),
                    rest@ == s.skip(i as int),
                    json_seq_view(kept@) == prune_groups(sv.take(i as int), command@),
                    removed == exists|j: int| 0 <= j < i && group_removes(#[trigger] sv[j], command@),
                decreases n - i,
            {
                let e = rest.remove(0);
                proof {
                    assert(e == s[i as int]);
                    assert(s.skip(i as int).drop_first() =~= s.skip(i + 1));
                    assert(sv.take(i + 1).drop_last() =~= sv.take(i as int));
                    assert(sv.take(i + 1).last() == json_view(e));
                }
                let r = prune_group_exec(e, command, &mut kept);
                removed = removed || r;
                i += 1;
            }
            proof {
                assert(sv.take(n as int) =~= sv);
                lemma_seq_view_len(kept@);
            }
            if kept.len() != 0 {
                hooks.insert(String::from_str(event), JsonValue::Array(kept));
            }
            proof {
                let spec = spec_remove_command_hook(old(hooks)@, event@, command@);
                if let Some((m, b)) = spec {
                    assert(hooks@ =~= m);
                }
            }
            Ok(removed)
        },
        Some(other) => {
            hooks.insert(String::from_str(event), other);
            proof {
                assert(hooks@ =~= old(hooks)@);
            }
            Err(ConfigError::EntriesNotArray { event: String::from_str(event) })
        },
    }
}


/// Index of the first entry from `from` on that passes the test.
pub open spec fn first_entry(es: Seq<Json>, t: EntryTest, command: Seq<char>, from: int) -> Option<int>
    decreases es.len() - from,
{
    if from < 0 || from >= es.len() {
        None
    } else if entry_test_holds(t, es[from], command) {
        Some(from)
    } else {
        first_entry(es, t, command, from + 1)
    }
}

pub proof fn lemma_first_entry_bounds(es: Seq<Json>, t: EntryTest, command: Seq<char>, from: int)
    requires
        0 <= from,
    ensures
        first_entry(es, t, command, from) matches Some(i) ==> from <= i < es.len(),
    decreases es.len() - from,
{
    if from < es.len() && !entry_test_holds(t, es[from], command) {
        lemma_first_entry_bounds(es, t, command, from + 1);
    }
}

/// The matching direct entry brought up to date: the command under `field` only, the timeout
/// and the matcher as given; an entry that is not an object stays as it is.
pub open spec fn spec_update_direct_entry(
    e: Json,
    field: Seq<char>,
    command: Seq<char>,
    timeout_sec: u64,
    matcher: Option<&str>,
) -> Json {
    match e {
        Json::Object(m) => {
            let m1 = m.remove("command"@).remove("bash"@).remove("powershell"@).insert(
                field,
                Json::Str(command),
            ).insert("timeoutSec"@, Json::Number(JsonNumber::PosInt(timeout_sec)));
            Json::Object(
                match matcher {
                    Some(x) => m1.insert("matcher"@, Json::Str(x@)),
                    None => m1.remove("matcher"@),
                },
            )
        },
        _ => e,
    }
}

/// The direct entry that `ensure_direct_command_hook` adds.
pub open spec fn spec_new_direct_entry(
    field: Seq<char>,
    command: Seq<char>,
    timeout_sec: u64,
    matcher: Option<&str>,
) -> Json {
    let base = Map::<Seq<char>, Json>::empty().insert("type"@, Json::Str("command"@));
    let with_matcher = match matcher {
        Some(x) => base.insert("matcher"@, Json::Str(x@)),
        None => base,
    };
    Json::Object(
        with_matcher.insert(field, Json::Str(command)).insert(
            "timeoutSec"@,
            Json::Number(JsonNumber::PosInt(timeout_sec)),
        ),
    )
}

/// The hooks with the first direct entry for `command` of `event` brought up to date, or a new
/// one added; `None` when the event's list is not an array.
pub open spec fn spec_ensure_direct_command_hook(
    hooks: Map<Seq<char>, Json>,
    event: Seq<char>,
    command: Seq<char>,
    timeout_sec: u64,
    matcher: Option<&str>,
    field: Seq<char>,
) -> Option<Map<Seq<char>, Json>> {
    match entries_or_empty(hooks, event) {
        Json::Array(es) => match first_entry(es, EntryTest::Direct, command, 0) {
            Some(i) => Some(
                hooks.insert(
                    event,
                    Json::Array(
                        es.update(
                            i,
                            spec_update_direct_entry(es[i], field, command, timeout_sec, matcher),
                        ),
                    ),
                ),
            ),
            None => Some(
                hooks.insert(
                    event,
                    Json::Array(es.push(spec_new_direct_entry(field, command, timeout_sec, matcher))),
                ),
            ),
        },
        _ => None,
    }
}

/// The field under which direct entries name their command on a platform.
pub open spec fn spec_direct_command_field(platform: Platform) -> Seq<char> {
    match platform {
        Platform::Windows => "powershell"@,
        Platform::Unix => "bash"@,
    }
}

/// Index of the first entry that passes the test.
fn first_entry_exec(entries: &Vec<JsonValue>, t: &EntryTest, command: &str) -> (res: Option<usize>)
    ensures
        match res {
            Some(i) => first_entry(json_seq_view(entries@), *t, command@, 0) == Some(i as int),
            None => first_entry(json_seq_view(entries@), *t, command@, 0) is None,
        },
{
    let ghost s = entries@;
    let ghost es = json_seq_view(s);
    proof {
        lemma_seq_view_len(s);
    }
    let mut i: usize = 0;
    while i < entries.len()
        invariant
            entries@ == s,
            es == json_seq_view(s),
            es.len() == s.len(),
            forall|j: int| 0 <= j < s.len() ==> #[trigger] es[j] == json_view(s[j]),
            i <= s.len(),
            first_entry(es, *t, command@, 0) == first_entry(es, *t, command@, i as int),
        decreases s.len() - i,
    {
        if entry_test(t, &entries[i], command) {
            return Some(i);
        }
        i += 1;
    }
    None
}

fn update_direct_entry(
    e: JsonValue,
    field: &str,
    command: &str,
    timeout_sec: u64,
    matcher: Option<&str>,
) -> (res: JsonValue)
    ensures
        res@ == spec_update_direct_entry(e@, field@, command@, timeout_sec, matcher),
{
    match e {
        JsonValue::Object(o) => {
            let mut o = o;
            let _ = o.remove("command");
            let _ = o.remove("bash");
            let _ = o.remove("powershell");
            o.insert(String::from_str(field), string_value(command));
            o.insert(String::from_str("timeoutSec"), JsonValue::Number(JsonNumber::PosInt(timeout_sec)));
            match matcher {
                Some(m) => {
                    o.insert(String::from_str("matcher"), string_value(m));
                },
                None => {
                    let _ = o.remove("matcher");
                },
            }
            JsonValue::Object(o)
        },
        other => other,
    }
}

/// Writes a direct command entry for `command` in the list of `event`: the first one there that
/// runs it is brought up to date, or a new one is added.
pub fn ensure_direct_command_hook(
    hooks: &mut JsonObject,
    event: &str,
    command: String,
    timeout_sec: u64,
    matcher: Option<&str>,
    platform: Platform,
) -> (res: Result<(), ConfigError>)
    ensures
        ensure_agrees(
            res,
            old(hooks)@,
            final(hooks)@,
            event@,
            spec_ensure_direct_command_hook(
                old(hooks)@,
                event@,
                command@,
                timeout_sec,
                matcher,
                spec_direct_command_field(platform),
            ),
        ),
{
    let mut entries = match take_entries(hooks, event) {
        Ok(v) => v,
        Err(e) => {
            return Err(e);
        },
    };
    let ghost s = entries@;
    let ghost es = json_seq_view(s);
    proof {
        lemma_seq_view_len(s);
    }
    let command_field = direct_command_field(platform);
    let found = first_entry_exec(&entries, &EntryTest::Direct, command.as_str());
    proof {
        lemma_first_entry_bounds(es, EntryTest::Direct, command@, 0);
    }
    match found {
        Some(i) => {
            let e = entries.remove(i);
            let updated = update_direct_entry(e, command_field, command.as_str(), timeout_sec, matcher);
            let ghost u = updated;
            entries.insert(i, updated);
            proof {
                assert(entries@ =~= s.update(i as int, u));
                lemma_seq_view_len(entries@);
                assert(json_seq_view(entries@) =~= es.update(
                    i as int,
                    spec_update_direct_entry(
                        es[i as int],
                        command_field@,
                        command@,
                        timeout_sec,
                        matcher,
                    ),
                ));
            }
        },
        None => {
            let mut entry = JsonObject::new();
            entry.insert(String::from_str("type"), string_value("command"));
            if let Some(m) = matcher {
                entry.insert(String::from_str("matcher"), string_value(m));
            }
            entry.insert(String::from_str(command_field), JsonValue::String(command));
            entry.insert(String::from_str("timeoutSec"), JsonValue::Number(JsonNumber::PosInt(timeout_sec)));
            let ghost v = JsonValue::Object(entry);
            entries.push(JsonValue::Object(entry));
            proof {
                lemma_seq_view_push(s, v);
            }
        },
    }
    hooks.insert(String::from_str(event), JsonValue::Array(entries));
    proof {
        let spec = spec_ensure_direct_command_hook(
            old(hooks)@,
            event@,
            command@,
            timeout_sec,
            matcher,
            spec_direct_command_field(platform),
        );
        if let Some(m) = spec {
            assert(hooks@ =~= m);
        }
    }
    Ok(())
}


/// `cs` with `c` added at its end unless it is there already.
pub open spec fn push_unique(cs: Seq<Seq<char>>, c: Seq<char>) -> Seq<Seq<char>> {
    if cs.contains(c) {
        cs
    } else {
        cs.push(c)
    }
}

/// The commands that this or an earlier installation may have written for a hook script:
/// the current command, the bash command and, on Windows, the bash command of the script's
/// legacy path.
pub open spec fn spec_hook_command_variants(
    hook_path: Seq<char>,
    action: Option<&str>,
    platform: Platform,
    windows_legacy_hook_path: Option<&str>,
) -> Seq<Seq<char>> {
    let first = seq![crate::command::spec_hook_command(hook_path, action, platform)];
    let with_bash = push_unique(
        first,
        crate::command::spec_legacy_bash_hook_command(hook_path, action),
    );
    match (platform, windows_legacy_hook_path) {
        (Platform::Windows, Some(l)) => push_unique(
            with_bash,
            crate::command::spec_legacy_bash_hook_command(l@, action),
        ),
        _ => with_bash,
    }
}

/// Adds `command` to `commands` unless it is there already.
pub fn push_unique_command(commands: &mut Vec<String>, command: String)
    ensures
        final(commands).deep_view() == push_unique(old(commands).deep_view(), command@),
{
    let ghost dv = commands.deep_view();
    let mut i: usize = 0;
    let mut present = false;
    while i < commands.len()
        invariant
            dv == commands.deep_view(),
            i <= commands.len(),
            present == exists|j: int| 0 <= j < i && dv[j] == command@,
        decreases commands.len() - i,
    {
        proof {
            assert(dv[i as int] == commands[i as int]@);
        }
        if crate::text::str_eq(commands[i].as_str(), command.as_str()) {
            present = true;
        }
        i += 1;
    }
    proof {
        if dv.contains(command@) {
            let j = choose|j: int| 0 <= j < dv.len() && dv[j] == command@;
            assert(present);
        }
    }
    if !present {
        let ghost before = commands@;
        commands.push(command);
        proof {
            assert(commands.deep_view() =~= dv.push(command@));
        }
    }
}

/// The commands that this or an earlier installation may have written for a hook script.
pub fn hook_command_variants(
    hook_path: &str,
    action: Option<&str>,
    platform: Platform,
    windows_legacy_hook_path: Option<&str>,
) -> (res: Vec<String>)
    ensures
        res.deep_view() == spec_hook_command_variants(
            hook_path@,
            action,
            platform,
            windows_legacy_hook_path,
        ),
{
    let mut commands: Vec<String> = Vec::new();
    commands.push(hook_command(hook_path, action, platform));
    proof {
        assert(commands.deep_view() =~= seq![
            crate::command::spec_hook_command(hook_path@, action, platform),
        ]);
    }
    push_unique_command(&mut commands, legacy_bash_hook_command(hook_path, action));
    if let Platform::Windows = platform {
        if let Some(legacy) = windows_legacy_hook_path {
            push_unique_command(&mut commands, legacy_bash_hook_command(legacy, action));
        }
    }
    commands
}

/// The event's list is missing or an array.
pub open spec fn event_list_ok(hooks: Map<Seq<char>, Json>, event: Seq<char>) -> bool {
    !hooks.contains_key(event) || hooks[event] is Array
}

/// One removal, of nested command hooks (`nested`) or of direct entries.
pub open spec fn spec_remove_one(
    hooks: Map<Seq<char>, Json>,
    event: Seq<char>,
    command: Seq<char>,
    nested: bool,
) -> Option<(Map<Seq<char>, Json>, bool)> {
    if nested {
        spec_remove_command_hook(hooks, event, command)
    } else {
        spec_remove_entries(hooks, event, EntryTest::Direct, command)
    }
}

/// The removals for each command in turn, and whether any removed something.
pub open spec fn spec_remove_each(
    hooks: Map<Seq<char>, Json>,
    event: Seq<char>,
    commands: Seq<Seq<char>>,
    nested: bool,
) -> Option<(Map<Seq<char>, Json>, bool)>
    decreases commands.len(),
{
    if commands.len() == 0 {
        Some((hooks, false))
    } else {
        match spec_remove_each(hooks, event, commands.drop_last(), nested) {
            None => None,
            Some((m, b)) => match spec_remove_one(m, event, commands.last(), nested) {
                None => None,
                Some((m2, b2)) => Some((m2, b || b2)),
            },
        }
    }
}

proof fn lemma_remove_one_ok(hooks: Map<Seq<char>, Json>, event: Seq<char>, command: Seq<char>, nested: bool)
    requires
        event_list_ok(hooks, event),
    ensures
        spec_remove_one(hooks, event, command, nested) matches Some((m, _)) && event_list_ok(m, event),
{
}

/// Removing each of several commands from an event whose entries are a list (or that has
/// none) succeeds, and leaves the entries a list.
pub proof fn law_remove_each_succeeds_on_lists(
    hooks: Map<Seq<char>, Json>,
    event: Seq<char>,
    commands: Seq<Seq<char>>,
    nested: bool,
)
    requires
        event_list_ok(hooks, event),
    ensures
        spec_remove_each(hooks, event, commands, nested) matches Some((m, _)) && event_list_ok(m, event),
    decreases commands.len(),
{
    if commands.len() > 0 {
        law_remove_each_succeeds_on_lists(hooks, event, commands.drop_last(), nested);
        let (m, b) = spec_remove_each(hooks, event, commands.drop_last(), nested)->0;
        lemma_remove_one_ok(m, event, commands.last(), nested);
    }
}

proof fn lemma_remove_each_none(
    hooks: Map<Seq<char>, Json>,
    event: Seq<char>,
    commands: Seq<Seq<char>>,
    k: int,
    nested: bool,
)
    requires
        0 <= k <= commands.len(),
        spec_remove_each(hooks, event, commands.take(k), nested) is None,
    ensures
        spec_remove_each(hooks, event, commands, nested) is None,
    decreases commands.len() - k,
{
    if k < commands.len() {
        assert(commands.take(k + 1).drop_last() =~= commands.take(k));
        lemma_remove_each_none(hooks, event, commands, k + 1, nested);
    } else {
        assert(commands.take(k) =~= commands);
    }
}

fn remove_variants(
    hooks: &mut JsonObject,
    event: &str,
    commands: &Vec<String>,
    nested: bool,
) -> (res: Result<bool, ConfigError>)
    ensures
        remove_agrees(
            res,
            old(hooks)@,
            final(hooks)@,
            event@,
            spec_remove_each(old(hooks)@, event@, commands.deep_view(), nested),
        ),
{
    let ghost cs = commands.deep_view();
    let ghost start = hooks@;
    let mut removed = false;
    let mut i: usize = 0;
    proof {
        assert(cs.take(0) =~= Seq::<Seq<char>>::empty());
    }
    while i < commands.len()
        invariant
            cs == commands.deep_view(),
            start == old(hooks)@,
            i <= commands.len(),
            spec_remove_each(start, event@, cs.take(i as int), nested) == Some((hooks@, removed)),
            i > 0 ==> event_list_ok(hooks@, event@),
            i == 0 ==> hooks@ == start,
        decreases commands.len() - i,
    {
        let ghost before = hooks@;
        proof {
            assert(cs.take(i + 1).drop_last() =~= cs.take(i as int));
            assert(cs.take(i + 1).last() == cs[i as int]);
            if i > 0 {
                lemma_remove_one_ok(before, event@, cs[i as int], nested);
            }
        }
        let r = if nested {
            remove_command_hook(hooks, event, commands[i].as_str())
        } else {
            remove_direct_command_hook(hooks, event, commands[i].as_str())
        };
        match r {
            Ok(b) => {
                removed = removed || b;
                proof {
                    lemma_remove_one_ok_after(before, event@, cs[i as int], nested);
                }
            },
            Err(e) => {
                proof {
                    lemma_remove_each_none(start, event@, cs, i + 1, nested);
                }
                return Err(e);
            },
        }
        i += 1;
    }
    proof {
        assert(cs.take(i as int) =~= cs);
    }
    Ok(removed)
}

proof fn lemma_remove_one_ok_after(hooks: Map<Seq<char>, Json>, event: Seq<char>, command: Seq<char>, nested: bool)
    ensures
        spec_remove_one(hooks, event, command, nested) matches Some((m, _)) ==> event_list_ok(m, event),
{
}

/// Removes the nested command hooks of every command variant of a hook script from `event`.
pub fn remove_hook_commands(
    hooks: &mut JsonObject,
    event: &str,
    hook_path: &str,
    action: Option<&str>,
    platform: Platform,
    windows_legacy_hook_path: Option<&str>,
) -> (res: Result<bool, ConfigError>)
    ensures
        remove_agrees(
            res,
            old(hooks)@,
            final(hooks)@,
            event@,
            spec_remove_each(
                old(hooks)@,
                event@,
                spec_hook_command_variants(hook_path@, action, platform, windows_legacy_hook_path),
                true,
            ),
        ),
{
    let commands = hook_command_variants(hook_path, action, platform, windows_legacy_hook_path);
    remove_variants(hooks, event, &commands, true)
}

/// Removes the direct entries of every command variant of a hook script from `event`.
pub fn remove_direct_hook_commands(
    hooks: &mut JsonObject,
    event: &str,
    hook_path: &str,
    action: Option<&str>,
    platform: Platform,
    windows_legacy_hook_path: Option<&str>,
) -> (res: Result<bool, ConfigError>)
    ensures
        remove_agrees(
            res,
            old(hooks)@,
            final(hooks)@,
            event@,
            spec_remove_each(
                old(hooks)@,
                event@,
                spec_hook_command_variants(hook_path@, action, platform, windows_legacy_hook_path),
                false,
            ),
        ),
{
    let commands = hook_command_variants(hook_path, action, platform, windows_legacy_hook_path);
    remove_variants(hooks, event, &commands, false)
}


/// The root object with an empty `hooks` object added when it has no `hooks` member.
pub open spec fn spec_hooks_base(root: Map<Seq<char>, Json>) -> Map<Seq<char>, Json> {
    if root.contains_key("hooks"@) {
        root
    } else {
        root.insert("hooks"@, Json::Object(Map::empty()))
    }
}

/// The error for a settings file, or its `hooks` member, that is not an object.
pub open spec fn is_object_error(res_err: ConfigError, description: Seq<char>, path: Seq<char>) -> bool {
    res_err matches ConfigError::NotAnObject { description: d, path: p } && d@ == description
        && p@ == path
}

fn not_an_object(description: &str, path: &str) -> (res: ConfigError)
    ensures
        is_object_error(res, description@, path@),
{
    ConfigError::NotAnObject {
        description: String::from_str(description),
        path: String::from_str(path),
    }
}

/// The `hooks` object of a settings file, added empty when missing; fails when the settings,
/// or their `hooks` member, are not objects.
pub fn ensure_hooks_object<'a>(
    settings: &'a mut JsonValue,
    settings_path: &str,
    root_description: &str,
    hooks_description: &str,
) -> (res: Result<&'a mut JsonObject, ConfigError>)
    ensures
        !(old(settings)@ is Object) ==> (res matches Err(e) && is_object_error(
            e,
            root_description@,
            settings_path@,
        )) && final(settings)@ == old(settings)@,
        old(settings)@ is Object && !(spec_hooks_base(old(settings)@->Object_0)["hooks"@] is Object)
            ==> (res matches Err(e) && is_object_error(e, hooks_description@, settings_path@))
            && final(settings)@ == old(settings)@,
        old(settings)@ is Object && spec_hooks_base(old(settings)@->Object_0)["hooks"@] is Object
            ==> res is Ok,
        match res {
            Ok(r) => r@ == spec_hooks_base(old(settings)@->Object_0)["hooks"@]->Object_0
                && final(settings)@ == Json::Object(
                spec_hooks_base(old(settings)@->Object_0).insert("hooks"@, Json::Object(final(r)@)),
            ),
            Err(_) => true,
        },
{
    match object_of(settings) {
        Some(root) => {
            let ghost m0 = root@;
            if root.get("hooks").is_none() {
                root.insert(String::from_str("hooks"), JsonValue::Object(JsonObject::new()));
            }
            proof {
                assert(root@ == spec_hooks_base(m0));
            }
            match root.get_mut("hooks") {
                Some(h) => match object_of(h) {
                    Some(o) => Ok(o),
                    None => Err(not_an_object(hooks_description, settings_path)),
                },
                None => Err(not_an_object(hooks_description, settings_path)),
            }
        },
        None => Err(not_an_object(root_description, settings_path)),
    }
}

fn object_of<'a>(v: &'a mut JsonValue) -> (res: Option<&'a mut JsonObject>)
    ensures
        match old(v)@ {
            Json::Object(m) => match res {
                Some(r) => r@ == m && final(v)@ == Json::Object(final(r)@),
                None => false,
            },
            _ => res is None && final(v)@ == old(v)@,
        },
{
    match v {
        JsonValue::Object(o) => Some(o),
        _ => None,
    }
}


/// The `hooks` object of a settings file when it has one; fails when the settings, or their
/// `hooks` member, are not objects.
pub fn hooks_object_if_present<'a>(
    settings: &'a mut JsonValue,
    settings_path: &str,
    root_description: &str,
    hooks_description: &str,
) -> (res: Result<Option<&'a mut JsonObject>, ConfigError>)
    ensures
        !(old(settings)@ is Object) ==> (res matches Err(e) && is_object_error(
            e,
            root_description@,
            settings_path@,
        )) && final(settings)@ == old(settings)@,
        old(settings)@ is Object && !old(settings)@->Object_0.contains_key("hooks"@) ==> (res
            matches Ok(None)) && final(settings)@ == old(settings)@,
        old(settings)@ is Object && old(settings)@->Object_0.contains_key("hooks"@) && !(old(
            settings,
        )@->Object_0["hooks"@] is Object) ==> (res matches Err(e) && is_object_error(
            e,
            hooks_description@,
            settings_path@,
        )) && final(settings)@ == old(settings)@,
        old(settings)@ is Object && old(settings)@->Object_0.contains_key("hooks"@) && old(
            settings,
        )@->Object_0["hooks"@] is Object ==> res matches Ok(Some(_)),
        match res {
            Ok(Some(r)) => r@ == old(settings)@->Object_0["hooks"@]->Object_0 && final(settings)@
                == Json::Object(
                old(settings)@->Object_0.insert("hooks"@, Json::Object(final(r)@)),
            ),
            _ => true,
        },
{
    match object_of(settings) {
        Some(root) => match root.get_mut("hooks") {
            Some(h) => match object_of(h) {
                Some(o) => Ok(Some(o)),
                None => Err(not_an_object(hooks_description, settings_path)),
            },
            None => Ok(None),
        },
        None => Err(not_an_object(root_description, settings_path)),
    }
}


pub proof fn lemma_entries_without_props(es: Seq<Json>, t: EntryTest, command: Seq<char>)
    ensures
        !any_entry(entries_without(es, t, command), t, command),
        entries_without(es, t, command).len() <= es.len(),
        entries_without(es, t, command).len() == es.len() <==> !any_entry(es, t, command),
    decreases es.len(),
{
    if es.len() > 0 {
        let d = es.drop_last();
        lemma_entries_without_props(d, t, command);
        let r = entries_without(d, t, command);
        if !entry_test_holds(t, es.last(), command) {
            assert forall|i: int|
                0 <= i < r.push(es.last()).len() implies !entry_test_holds(
                t,
                #[trigger] r.push(es.last())[i],
                command,
            ) by {
                if i < r.len() {
                    assert(r.push(es.last())[i] == r[i]);
                }
            }
        }
        if any_entry(es, t, command) {
            let i = choose|i: int| 0 <= i < es.len() && entry_test_holds(t, #[trigger] es[i], command);
            if i < es.len() - 1 {
                assert(d[i] == es[i]);
            }
        }
        if any_entry(d, t, command) {
            let i = choose|i: int| 0 <= i < d.len() && entry_test_holds(t, #[trigger] d[i], command);
            assert(es[i] == d[i]);
        }
    }
}

/// Adding a hook entry changes the list of its own event only.
pub proof fn law_ensure_entry_keeps_other_events(
    hooks: Map<Seq<char>, Json>,
    event: Seq<char>,
    t: EntryTest,
    command: Seq<char>,
    entry: Json,
)
    ensures
        spec_ensure_entry(hooks, event, t, command, entry) matches Some(m) ==> m.remove(event)
            == hooks.remove(event),
{
    if let Some(m) = spec_ensure_entry(hooks, event, t, command, entry) {
        assert(m.remove(event) =~= hooks.remove(event));
    }
}

/// After a hook entry is ensured (one that passes its own test), the event's list holds an
/// entry that runs the command.
pub proof fn law_ensure_entry_installs(
    hooks: Map<Seq<char>, Json>,
    event: Seq<char>,
    t: EntryTest,
    command: Seq<char>,
    entry: Json,
)
    requires
        entry_test_holds(t, entry, command),
    ensures
        spec_ensure_entry(hooks, event, t, command, entry) matches Some(m) ==> m.contains_key(event)
            && m[event] is Array && any_entry(m[event]->Array_0, t, command),
{
    if let Json::Array(es) = entries_or_empty(hooks, event) {
        if !any_entry(es, t, command) {
            let n = es.push(entry);
            assert(n[es.len() as int] == entry);
        }
    }
}

/// Ensuring a hook entry twice is ensuring it once.
pub proof fn law_ensure_entry_idempotent(
    hooks: Map<Seq<char>, Json>,
    event: Seq<char>,
    t: EntryTest,
    command: Seq<char>,
    entry: Json,
)
    requires
        entry_test_holds(t, entry, command),
    ensures
        spec_ensure_entry(hooks, event, t, command, entry) matches Some(m) ==> spec_ensure_entry(
            m,
            event,
            t,
            command,
            entry,
        ) == Some(m),
{
    law_ensure_entry_installs(hooks, event, t, command, entry);
}

/// After a removal, no entry of the event runs the command, other events are as they were,
/// and the answer tells whether an entry went.
pub proof fn law_remove_entries(
    hooks: Map<Seq<char>, Json>,
    event: Seq<char>,
    t: EntryTest,
    command: Seq<char>,
)
    ensures
        spec_remove_entries(hooks, event, t, command) matches Some((m, removed)) ==> {
            &&& m.remove(event) == hooks.remove(event)
            &&& m.contains_key(event) ==> m[event] is Array && !any_entry(
                m[event]->Array_0,
                t,
                command,
            )
            &&& removed <==> (hooks.contains_key(event) && any_entry(
                hooks[event]->Array_0,
                t,
                command,
            ))
        },
{
    if hooks.contains_key(event) {
        if let Json::Array(es) = hooks[event] {
            lemma_entries_without_props(es, t, command);
        }
    }
    if let Some((m, removed)) = spec_remove_entries(hooks, event, t, command) {
        assert(m.remove(event) =~= hooks.remove(event));
    }
}

/// The member names that the hook entries use are distinct.
pub proof fn lemma_member_names_distinct()
    ensures
        "type"@ != "command"@,
        "type"@ != "timeout"@,
        "type"@ != "description"@,
        "command"@ != "timeout"@,
        "command"@ != "description"@,
        "timeout"@ != "description"@,
        "hooks"@ != "matcher"@,
        "type"@ != "matcher"@,
        "type"@ != "timeoutSec"@,
        "type"@ != "bash"@,
        "type"@ != "powershell"@,
        "bash"@ != "timeoutSec"@,
        "powershell"@ != "timeoutSec"@,
        "bash"@ != "matcher"@,
        "powershell"@ != "matcher"@,
        "timeoutSec"@ != "matcher"@,
        "command"@ != "bash"@,
        "command"@ != "powershell"@,
        "bash"@ != "powershell"@,
{
    reveal_strlit("type");
    reveal_strlit("command");
    reveal_strlit("timeout");
    reveal_strlit("description");
    reveal_strlit("hooks");
    reveal_strlit("matcher");
    reveal_strlit("timeoutSec");
    reveal_strlit("bash");
    reveal_strlit("powershell");
    assert("type"@.len() != "command"@.len());
    assert("type"@.len() != "timeout"@.len());
    assert("type"@.len() != "description"@.len());
    assert("command"@[0] != "timeout"@[0]);
    assert("command"@.len() != "description"@.len());
    assert("timeout"@.len() != "description"@.len());
    assert("hooks"@.len() != "matcher"@.len());
    assert("type"@.len() != "matcher"@.len());
    assert("type"@.len() != "timeoutSec"@.len());
    assert("type"@[0] != "bash"@[0]);
    assert("type"@.len() != "powershell"@.len());
    assert("bash"@.len() != "timeoutSec"@.len());
    assert("powershell"@[0] != "timeoutSec"@[0]);
    assert("bash"@.len() != "matcher"@.len());
    assert("powershell"@.len() != "matcher"@.len());
    assert("timeoutSec"@.len() != "matcher"@.len());
    assert("command"@.len() != "bash"@.len());
    assert("command"@.len() != "powershell"@.len());
    assert("bash"@.len() != "powershell"@.len());
}

/// The group that `ensure_command_hook` adds runs its command.
pub proof fn law_command_hook_group_runs_command(command: Seq<char>, timeout: u64, matcher: Option<&str>)
    ensures
        entry_test_holds(EntryTest::Group, spec_command_hook_group(command, timeout, matcher), command),
{
    lemma_member_names_distinct();
    let g = spec_command_hook_group(command, timeout, matcher);
    let h = json_get(g, "hooks"@);
    let hs = h->0->Array_0;
    assert(json_get(hs[0], "type"@) == Some(Json::Str("command"@)));
    assert(json_get(hs[0], "command"@) == Some(Json::Str(command)));
    lemma_group_has_command_intro(g, hs, command, 0);
}

/// The flat and simple entries that the library adds run their command.
pub proof fn law_added_entries_run_command(command: Seq<char>, timeout_ms: u64)
    ensures
        entry_test_holds(EntryTest::Flat, spec_flat_command_hook(command, timeout_ms), command),
        entry_test_holds(EntryTest::Simple, spec_simple_command_hook(command), command),
{
    reveal_strlit("type");
    reveal_strlit("command");
    reveal_strlit("timeout");
    reveal_strlit("description");
    lemma_member_names_distinct();
    let e = spec_flat_command_hook(command, timeout_ms);
    assert(json_get(e, "type"@) == Some(Json::Str("command"@)));
    assert(json_get(e, "command"@) == Some(Json::Str(command)));
}

proof fn lemma_prune_groups_clean(es: Seq<Json>, command: Seq<char>)
    ensures
        !any_entry(prune_groups(es, command), EntryTest::Group, command),
    decreases es.len(),
{
    if es.len() > 0 {
        lemma_prune_groups_clean(es.drop_last(), command);
        let a = prune_groups(es.drop_last(), command);
        let e = es.last();
        let b = prune_group(e, command);
        assert forall|i: int| 0 <= i < b.len() implies !group_has_command(#[trigger] b[i], command) by {
            if let Json::Object(m) = e {
                if m.contains_key("hooks"@) && m["hooks"@] is Array {
                    let f = entries_without(m["hooks"@]->Array_0, EntryTest::Flat, command);
                    lemma_entries_without_props(m["hooks"@]->Array_0, EntryTest::Flat, command);
                    let g = Json::Object(m.insert("hooks"@, Json::Array(f)));
                    assert(json_get(g, "hooks"@) == Some(Json::Array(f)));
                    if group_has_command(g, command) {
                        let k = choose|k: int|
                            0 <= k < f.len() && spec_is_matching_command_hook(#[trigger] f[k], command);
                        assert(entry_test_holds(EntryTest::Flat, f[k], command));
                    }
                } else {
                    if group_has_command(e, command) {
                        assert(json_get(e, "hooks"@) is Some);
                    }
                }
            }
        }
        assert forall|i: int| 0 <= i < (a + b).len() implies !entry_test_holds(
            EntryTest::Group,
            #[trigger] (a + b)[i],
            command,
        ) by {
            if i < a.len() {
                assert((a + b)[i] == a[i]);
            } else {
                assert((a + b)[i] == b[i - a.len()]);
            }
        }
    }
}

/// After `remove_command_hook`, no hook group of the event runs the command, and other events
/// are as they were.
pub proof fn law_remove_command_hook(hooks: Map<Seq<char>, Json>, event: Seq<char>, command: Seq<char>)
    ensures
        spec_remove_command_hook(hooks, event, command) matches Some((m, _)) ==> {
            &&& m.remove(event) == hooks.remove(event)
            &&& m.contains_key(event) ==> m[event] is Array && !any_entry(
                m[event]->Array_0,
                EntryTest::Group,
                command,
            )
        },
{
    if hooks.contains_key(event) {
        if let Json::Array(es) = hooks[event] {
            lemma_prune_groups_clean(es, command);
        }
    }
    if let Some((m, removed)) = spec_remove_command_hook(hooks, event, command) {
        assert(m.remove(event) =~= hooks.remove(event));
    }
}


/// `push_unique` keeps a list without repeats free of them, and the list then holds the item.
pub proof fn law_push_unique(cs: Seq<Seq<char>>, c: Seq<char>)
    requires
        cs.no_duplicates(),
    ensures
        push_unique(cs, c).no_duplicates(),
        push_unique(cs, c).contains(c),
        forall|x: Seq<char>| cs.contains(x) ==> push_unique(cs, c).contains(x),
{
    if !cs.contains(c) {
        let r = cs.push(c);
        assert(r[cs.len() as int] == c);
        assert forall|x: Seq<char>| cs.contains(x) implies r.contains(x) by {
            let i = choose|i: int| 0 <= i < cs.len() && cs[i] == x;
            assert(r[i] == x);
        }
    }
}

/// The command variants of a hook script start with its hook command, name the bash command,
/// and name no command twice.
pub proof fn law_hook_command_variants(
    hook_path: Seq<char>,
    action: Option<&str>,
    platform: Platform,
    windows_legacy_hook_path: Option<&str>,
)
    ensures
        ({
            let v = spec_hook_command_variants(hook_path, action, platform, windows_legacy_hook_path);
            &&& v.len() >= 1
            &&& v[0] == crate::command::spec_hook_command(hook_path, action, platform)
            &&& v.contains(crate::command::spec_legacy_bash_hook_command(hook_path, action))
            &&& v.no_duplicates()
        }),
{
    let first = seq![crate::command::spec_hook_command(hook_path, action, platform)];
    let b = crate::command::spec_legacy_bash_hook_command(hook_path, action);
    law_push_unique(first, b);
    let with_bash = push_unique(first, b);
    assert(with_bash[0] == first[0]);
    if let (Platform::Windows, Some(l)) = (platform, windows_legacy_hook_path) {
        law_push_unique(with_bash, crate::command::spec_legacy_bash_hook_command(l@, action));
        let v = push_unique(with_bash, crate::command::spec_legacy_bash_hook_command(l@, action));
        assert(v[0] == with_bash[0]);
    }
}


proof fn lemma_first_entry_found(es: Seq<Json>, t: EntryTest, command: Seq<char>, i: int, from: int)
    requires
        0 <= from <= i < es.len(),
        entry_test_holds(t, es[i], command),
        forall|j: int| from <= j < i ==> !entry_test_holds(t, #[trigger] es[j], command),
    ensures
        first_entry(es, t, command, from) == Some(i),
    decreases i - from,
{
    if from < i {
        lemma_first_entry_found(es, t, command, i, from + 1);
    }
}

proof fn lemma_first_entry_none(es: Seq<Json>, t: EntryTest, command: Seq<char>, from: int)
    requires
        0 <= from,
        first_entry(es, t, command, from) is None,
    ensures
        forall|j: int| from <= j < es.len() ==> !entry_test_holds(t, #[trigger] es[j], command),
    decreases es.len() - from,
{
    if from < es.len() {
        lemma_first_entry_none(es, t, command, from + 1);
    }
}

proof fn lemma_first_entry_before(es: Seq<Json>, t: EntryTest, command: Seq<char>, i: int, from: int)
    requires
        0 <= from <= i,
        first_entry(es, t, command, from) == Some(i),
    ensures
        forall|j: int| from <= j < i ==> !entry_test_holds(t, #[trigger] es[j], command),
        i < es.len(),
        entry_test_holds(t, es[i], command),
    decreases i - from,
{
    lemma_first_entry_bounds(es, t, command, from + 1);
    if from < i {
        lemma_first_entry_before(es, t, command, i, from + 1);
    }
}

proof fn lemma_direct_update_passes(
    e: Json,
    platform: Platform,
    command: Seq<char>,
    timeout_sec: u64,
    matcher: Option<&str>,
)
    requires
        member_is(e, "type"@, "command"@) || e == spec_new_direct_entry(
            spec_direct_command_field(platform),
            command,
            timeout_sec,
            matcher,
        ),
    ensures
        entry_test_holds(
            EntryTest::Direct,
            spec_update_direct_entry(
                e,
                spec_direct_command_field(platform),
                command,
                timeout_sec,
                matcher,
            ),
            command,
        ),
        entry_test_holds(
            EntryTest::Direct,
            spec_new_direct_entry(spec_direct_command_field(platform), command, timeout_sec, matcher),
            command,
        ),
        spec_update_direct_entry(
            spec_update_direct_entry(
                e,
                spec_direct_command_field(platform),
                command,
                timeout_sec,
                matcher,
            ),
            spec_direct_command_field(platform),
            command,
            timeout_sec,
            matcher,
        ) == spec_update_direct_entry(
            e,
            spec_direct_command_field(platform),
            command,
            timeout_sec,
            matcher,
        ),
        spec_update_direct_entry(
            spec_new_direct_entry(spec_direct_command_field(platform), command, timeout_sec, matcher),
            spec_direct_command_field(platform),
            command,
            timeout_sec,
            matcher,
        ) == spec_new_direct_entry(spec_direct_command_field(platform), command, timeout_sec, matcher),
{
    lemma_member_names_distinct();
    reveal_strlit("type");
    reveal_strlit("matcher");
    reveal_strlit("timeoutSec");
    let field = spec_direct_command_field(platform);
    let u = spec_update_direct_entry(e, field, command, timeout_sec, matcher);
    if let Json::Object(m) = e {
        let u2 = spec_update_direct_entry(u, field, command, timeout_sec, matcher);
        assert(u2->Object_0 =~= u->Object_0);
    }
    let nw = spec_new_direct_entry(field, command, timeout_sec, matcher);
    let nu = spec_update_direct_entry(nw, field, command, timeout_sec, matcher);
    assert(nu->Object_0 =~= nw->Object_0);
}

/// After `ensure_direct_command_hook`, a direct entry of the event runs the command; doing it
/// twice is doing it once; other events are as they were.
pub proof fn law_ensure_direct_command_hook(
    hooks: Map<Seq<char>, Json>,
    event: Seq<char>,
    command: Seq<char>,
    timeout_sec: u64,
    matcher: Option<&str>,
    platform: Platform,
)
    ensures
        spec_ensure_direct_command_hook(
            hooks,
            event,
            command,
            timeout_sec,
            matcher,
            spec_direct_command_field(platform),
        ) matches Some(m) ==> {
            &&& m.remove(event) == hooks.remove(event)
            &&& m.contains_key(event) && m[event] is Array
            &&& any_entry(m[event]->Array_0, EntryTest::Direct, command)
            &&& spec_ensure_direct_command_hook(
                m,
                event,
                command,
                timeout_sec,
                matcher,
                spec_direct_command_field(platform),
            ) == Some(m)
        },
{
    let field = spec_direct_command_field(platform);
    if let Json::Array(es) = entries_or_empty(hooks, event) {
        let nw = spec_new_direct_entry(field, command, timeout_sec, matcher);
        match first_entry(es, EntryTest::Direct, command, 0) {
            Some(i) => {
                lemma_first_entry_bounds(es, EntryTest::Direct, command, 0);
                lemma_first_entry_before(es, EntryTest::Direct, command, i, 0);
                let u = spec_update_direct_entry(es[i], field, command, timeout_sec, matcher);
                lemma_direct_update_passes(es[i], platform, command, timeout_sec, matcher);
                let es2 = es.update(i, u);
                assert(es2[i] == u);
                assert forall|j: int| 0 <= j < i implies !entry_test_holds(
                    EntryTest::Direct,
                    #[trigger] es2[j],
                    command,
                ) by {
                    assert(es2[j] == es[j]);
                }
                lemma_first_entry_found(es2, EntryTest::Direct, command, i, 0);
                let m = hooks.insert(event, Json::Array(es2));
                assert(m.remove(event) =~= hooks.remove(event));
                assert(es2.update(i, u) =~= es2);
                assert(m.insert(event, Json::Array(es2)) =~= m);
            },
            None => {
                lemma_first_entry_none(es, EntryTest::Direct, command, 0);
                lemma_direct_update_passes(nw, platform, command, timeout_sec, matcher);
                let es2 = es.push(nw);
                let k = es.len() as int;
                assert(es2[k] == nw);
                assert forall|j: int| 0 <= j < k implies !entry_test_holds(
                    EntryTest::Direct,
                    #[trigger] es2[j],
                    command,
                ) by {
                    assert(es2[j] == es[j]);
                }
                lemma_first_entry_found(es2, EntryTest::Direct, command, k, 0);
                let m = hooks.insert(event, Json::Array(es2));
                assert(m.remove(event) =~= hooks.remove(event));
                assert(es2.update(k, nw) =~= es2);
                assert(m.insert(event, Json::Array(es2)) =~= m);
            },
        }
    }
}


/// `after` is what is left of the hook group `before` once the command hooks for `command`
/// leave its `hooks` list: every other member as it was (its `matcher` among them), and the
/// hooks that do not run the command, in their order. A value that is not a group with a
/// `hooks` list is left as it is.
pub open spec fn group_pruned_to(before: Json, after: Json, command: Seq<char>) -> bool {
    match before {
        Json::Object(m0) => if m0.contains_key("hooks"@) && m0["hooks"@] is Array {
            match after {
                Json::Object(m1) => {
                    &&& m1.dom() == m0.dom()
                    &&& forall|k: Seq<char>|
                        #[trigger] m1.contains_key(k) && k != "hooks"@ ==> m1[k] == m0[k]
                    &&& m1["hooks"@] == Json::Array(
                        entries_without(m0["hooks"@]->Array_0, EntryTest::Flat, command),
                    )
                },
                _ => false,
            }
        } else {
            after == before
        },
        _ => after == before,
    }
}

/// The hook group `before` has a `hooks` list in which every hook runs `command`.
pub open spec fn group_emptied(before: Json, command: Seq<char>) -> bool {
    match before {
        Json::Object(m0) => m0.contains_key("hooks"@) && match m0["hooks"@] {
            Json::Array(hs) => forall|j: int|
                0 <= j < hs.len() ==> spec_is_matching_command_hook(#[trigger] hs[j], command),
            _ => false,
        },
        _ => false,
    }
}

/// A list from which `entries_without` leaves nothing holds only entries that pass the test.
proof fn lemma_entries_without_empty(es: Seq<Json>, t: EntryTest, command: Seq<char>)
    requires
        entries_without(es, t, command).len() == 0,
    ensures
        forall|j: int| 0 <= j < es.len() ==> entry_test_holds(t, #[trigger] es[j], command),
    decreases es.len(),
{
    if es.len() > 0 {
        let d = es.drop_last();
        lemma_entries_without_props(d, t, command);
        lemma_entries_without_empty(d, t, command);
        assert forall|j: int| 0 <= j < es.len() implies entry_test_holds(t, #[trigger] es[j], command) by {
            if j < d.len() {
                assert(es[j] == d[j]);
            }
        }
    }
}

/// The test that a hook group still has a hook: it is not a group all of whose hooks ran
/// `command`.
pub open spec fn keeps_a_hook(command: Seq<char>) -> spec_fn(Json) -> bool {
    |g: Json| !group_emptied(g, command)
}

/// A list whose entries all pass the test keeps none of them.
proof fn lemma_entries_without_all(es: Seq<Json>, t: EntryTest, command: Seq<char>)
    requires
        forall|j: int| 0 <= j < es.len() ==> entry_test_holds(t, #[trigger] es[j], command),
    ensures
        entries_without(es, t, command).len() == 0,
    decreases es.len(),
{
    if es.len() > 0 {
        let d = es.drop_last();
        assert forall|j: int| 0 <= j < d.len() implies entry_test_holds(t, #[trigger] d[j], command) by {
            assert(d[j] == es[j]);
        }
        lemma_entries_without_all(d, t, command);
        assert(entry_test_holds(t, es[es.len() - 1], command));
    }
}

/// The groups that `prune_groups` keeps are, in order, the groups of the list that keep a
/// hook, each pruned.
proof fn lemma_prune_groups_filter(es: Seq<Json>, command: Seq<char>)
    ensures
        ({
            let survivors = es.filter(keeps_a_hook(command));
            &&& prune_groups(es, command).len() == survivors.len()
            &&& forall|k: int|
                0 <= k < survivors.len() ==> group_pruned_to(
                    #[trigger] survivors[k],
                    prune_groups(es, command)[k],
                    command,
                )
        }),
    decreases es.len(),
{
    let pred = keeps_a_hook(command);
    if es.len() > 0 {
        let d = es.drop_last();
        lemma_prune_groups_filter(d, command);
        let e = es.last();
        lemma_prune_group_rel(e, command);
        let a = prune_groups(d, command);
        let b = prune_group(e, command);
        let sd = d.filter(pred);
        let se = es.filter(pred);
        assert(prune_groups(es, command) == a + b);
        if group_emptied(e, command) {
            assert(es =~= d.push(e));
            d.lemma_filter_push(e, pred);
            assert(se == sd);
            assert(a + b =~= a);
        } else {
            assert(es =~= d.push(e));
            d.lemma_filter_push(e, pred);
            assert(se == sd.push(e));
            assert forall|k: int| 0 <= k < se.len() implies group_pruned_to(
                #[trigger] se[k],
                (a + b)[k],
                command,
            ) by {
                if k < sd.len() {
                    assert(se[k] == sd[k]);
                    assert((a + b)[k] == a[k]);
                } else {
                    assert(se[k] == e);
                    assert((a + b)[k] == b[0]);
                }
            }
        }
    }
}

/// What `prune_group` leaves of a group is the group pruned, or nothing when every hook of its
/// list ran the command.
proof fn lemma_prune_group_rel(e: Json, command: Seq<char>)
    ensures
        prune_group(e, command).len() <= 1,
        prune_group(e, command).len() == 1 ==> group_pruned_to(e, prune_group(e, command)[0], command),
        prune_group(e, command).len() == 0 <==> group_emptied(e, command),
{
    if let Json::Object(m) = e {
        if m.contains_key("hooks"@) && m["hooks"@] is Array {
            let hs = m["hooks"@]->Array_0;
            let f = entries_without(hs, EntryTest::Flat, command);
            if group_emptied(e, command) {
                lemma_entries_without_all(hs, EntryTest::Flat, command);
            }
            if f.len() == 0 {
                lemma_entries_without_empty(hs, EntryTest::Flat, command);
                assert forall|j: int| 0 <= j < hs.len() implies spec_is_matching_command_hook(
                    #[trigger] hs[j],
                    command,
                ) by {
                    assert(entry_test_holds(EntryTest::Flat, hs[j], command));
                }
            } else {
                let m1 = m.insert("hooks"@, Json::Array(f));
                assert(m1.dom() =~= m.dom());
            }
        }
    }
}

/// The groups that `prune_groups` keeps each come from a group of the list, pruned; and each
/// group of the list is either kept, pruned, or had only hooks that ran the command.
proof fn lemma_prune_groups_rel(es: Seq<Json>, command: Seq<char>)
    ensures
        forall|k: int|
            #![trigger prune_groups(es, command)[k]]
            0 <= k < prune_groups(es, command).len() ==> exists|i: int|
                0 <= i < es.len() && group_pruned_to(
                    #[trigger] es[i],
                    prune_groups(es, command)[k],
                    command,
                ),
        forall|i: int|
            0 <= i < es.len() ==> group_emptied(#[trigger] es[i], command) || exists|k: int|
                0 <= k < prune_groups(es, command).len() && group_pruned_to(
                    es[i],
                    #[trigger] prune_groups(es, command)[k],
                    command,
                ),
    decreases es.len(),
{
    if es.len() > 0 {
        let d = es.drop_last();
        lemma_prune_groups_rel(d, command);
        let a = prune_groups(d, command);
        let e = es.last();
        let b = prune_group(e, command);
        lemma_prune_group_rel(e, command);
        let r = a + b;
        assert(prune_groups(es, command) == r);
        assert forall|k: int| #![trigger r[k]] 0 <= k < r.len() implies exists|i: int|
            0 <= i < es.len() && group_pruned_to(#[trigger] es[i], r[k], command) by {
            if k < a.len() {
                assert(r[k] == a[k]);
                let i = choose|i: int| 0 <= i < d.len() && group_pruned_to(#[trigger] d[i], a[k], command);
                assert(es[i] == d[i]);
            } else {
                assert(r[k] == b[0]);
                assert(es[es.len() - 1] == e);
            }
        }
        assert forall|i: int| 0 <= i < es.len() implies group_emptied(#[trigger] es[i], command)
            || exists|k: int|
            0 <= k < r.len() && group_pruned_to(es[i], #[trigger] r[k], command) by {
            if i < d.len() {
                assert(es[i] == d[i]);
                if !group_emptied(d[i], command) {
                    let k = choose|k: int|
                        0 <= k < a.len() && group_pruned_to(d[i], #[trigger] a[k], command);
                    assert(r[k] == a[k]);
                }
            } else {
                assert(es[i] == e);
                if b.len() == 1 {
                    assert(r[a.len() as int] == b[0]);
                }
            }
        }
    }
}

/// Removing the command hooks for `command` from the groups of `event` keeps, in their order,
/// exactly the groups that still have a hook that does not run the command, each with all its
/// other members (its `matcher` among them) as they were and only the hooks that run the
/// command gone from its `hooks` list; a group leaves only when every hook in its list ran the
/// command, and the event leaves only when every group does.
pub proof fn law_remove_command_hook_keeps_groups(
    hooks: Map<Seq<char>, Json>,
    event: Seq<char>,
    command: Seq<char>,
)
    ensures
        spec_remove_command_hook(hooks, event, command) matches Some((m, _)) ==> {
            &&& !hooks.contains_key(event) ==> m == hooks
            &&& hooks.contains_key(event) ==> hooks[event] is Array
            &&& hooks.contains_key(event) && !m.contains_key(event) ==> forall|i: int|
                0 <= i < hooks[event]->Array_0.len() ==> group_emptied(
                    #[trigger] hooks[event]->Array_0[i],
                    command,
                )
            &&& m.contains_key(event) ==> {
                let kept = m[event]->Array_0;
                let survivors = hooks[event]->Array_0.filter(keeps_a_hook(command));
                &&& hooks.contains_key(event)
                &&& m[event] is Array
                &&& kept.len() == survivors.len()
                &&& forall|k: int|
                    0 <= k < kept.len() ==> group_pruned_to(
                        #[trigger] survivors[k],
                        kept[k],
                        command,
                    )
            }
        },
{
    if hooks.contains_key(event) {
        if let Json::Array(es) = hooks[event] {
            lemma_prune_groups_rel(es, command);
            lemma_prune_groups_filter(es, command);
            let kept = prune_groups(es, command);
            let m = spec_remove_command_hook(hooks, event, command)->Some_0.0;
            if kept.len() == 0 {
                assert(!m.contains_key(event));
                assert forall|i: int| 0 <= i < es.len() implies group_emptied(#[trigger] es[i], command)
                    by {
                    if !group_emptied(es[i], command) {
                        let k = choose|k: int|
                            0 <= k < kept.len() && group_pruned_to(es[i], #[trigger] kept[k], command);
                    }
                }
            } else {
                assert(m.contains_key(event));
                assert(m[event] == Json::Array(kept));
            }
        }
    }
}

/// After `ensure_direct_command_hook`, the first direct entry of the event that runs the
/// command names it under the platform's field, has the timeout given, and has the matcher
/// given, or none when none is given.
pub proof fn law_ensure_direct_command_hook_entry(
    hooks: Map<Seq<char>, Json>,
    event: Seq<char>,
    command: Seq<char>,
    timeout_sec: u64,
    matcher: Option<&str>,
    platform: Platform,
)
    ensures
        spec_ensure_direct_command_hook(
            hooks,
            event,
            command,
            timeout_sec,
            matcher,
            spec_direct_command_field(platform),
        ) matches Some(m) ==> {
            &&& m.contains_key(event) && m[event] is Array
            &&& first_entry(m[event]->Array_0, EntryTest::Direct, command, 0) matches Some(i) && {
                let e = m[event]->Array_0[i];
                &&& member_is(e, spec_direct_command_field(platform), command)
                &&& json_get(e, "timeoutSec"@) == Some(
                    Json::Number(JsonNumber::PosInt(timeout_sec)),
                )
                &&& match matcher {
                    Some(x) => json_get(e, "matcher"@) == Some(Json::Str(x@)),
                    None => json_get(e, "matcher"@) is None,
                }
            }
        },
{
    law_ensure_direct_command_hook(hooks, event, command, timeout_sec, matcher, platform);
    lemma_member_names_distinct();
    let field = spec_direct_command_field(platform);
    if let Some(m) = spec_ensure_direct_command_hook(hooks, event, command, timeout_sec, matcher, field) {
        let l = m[event]->Array_0;
        lemma_first_entry_bounds(l, EntryTest::Direct, command, 0);
        if let Json::Array(es) = entries_or_empty(hooks, event) {
            match first_entry(es, EntryTest::Direct, command, 0) {
                Some(i) => {
                    lemma_first_entry_bounds(es, EntryTest::Direct, command, 0);
                    lemma_first_entry_before(es, EntryTest::Direct, command, i, 0);
                    let u = spec_update_direct_entry(es[i], field, command, timeout_sec, matcher);
                    lemma_direct_update_passes(es[i], platform, command, timeout_sec, matcher);
                    let es2 = es.update(i, u);
                    assert(l == es2);
                    assert forall|j: int| 0 <= j < i implies !entry_test_holds(
                        EntryTest::Direct,
                        #[trigger] es2[j],
                        command,
                    ) by {
                        assert(es2[j] == es[j]);
                    }
                    lemma_first_entry_found(es2, EntryTest::Direct, command, i, 0);
                    assert(first_entry(l, EntryTest::Direct, command, 0) == Some(i));
                },
                None => {
                    lemma_first_entry_none(es, EntryTest::Direct, command, 0);
                    let nw = spec_new_direct_entry(field, command, timeout_sec, matcher);
                    lemma_direct_update_passes(nw, platform, command, timeout_sec, matcher);
                    let es2 = es.push(nw);
                    assert(l == es2);
                    assert forall|j: int| 0 <= j < es.len() implies !entry_test_holds(
                        EntryTest::Direct,
                        #[trigger] es2[j],
                        command,
                    ) by {
                        assert(es2[j] == es[j]);
                    }
                    lemma_first_entry_found(es2, EntryTest::Direct, command, es.len() as int, 0);
                },
            }
        }
    }
}

} // verus!
