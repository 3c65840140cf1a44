use herdr_config::error::ConfigError;
use herdr_config::hooks::{
    ensure_command_hook, ensure_direct_command_hook, ensure_flat_command_hook,
    ensure_hooks_object, ensure_simple_command_hook, hook_command_variants, hooks_object_if_present,
    is_matching_command_hook, is_matching_direct_command_entry, push_unique_command,
    remove_command_hook, remove_direct_command_hook, remove_direct_hook_commands,
    remove_flat_command_hook, remove_hook_commands, remove_simple_command_hook,
};
use herdr_config::json::{JsonNumber, JsonObject, JsonValue};
use herdr_config::platform::Platform;

fn s(text: &str) -> JsonValue {
    JsonValue::String(text.to_string())
}

fn n(v: u64) -> JsonValue {
    JsonValue::Number(JsonNumber::PosInt(v))
}

fn arr(items: Vec<JsonValue>) -> JsonValue {
    JsonValue::Array(items)
}

fn object(members: Vec<(&str, JsonValue)>) -> JsonObject {
    JsonObject { entries: members.into_iter().map(|(k, v)| (k.to_string(), v)).collect() }
}

fn obj(members: Vec<(&str, JsonValue)>) -> JsonValue {
    JsonValue::Object(object(members))
}

/// JSON text with the members of objects in key order.
fn canon(v: &JsonValue) -> String {
    match v {
        JsonValue::Null => "null".to_string(),
        JsonValue::Bool(b) => b.to_string(),
        JsonValue::Number(JsonNumber::PosInt(u)) => u.to_string(),
        JsonValue::Number(JsonNumber::NegInt(i)) => i.to_string(),
        JsonValue::Number(JsonNumber::Float(t)) => t.clone(),
        JsonValue::String(t) => format!("{t:?}"),
        JsonValue::Array(items) => {
            format!("[{}]", items.iter().map(canon).collect::<Vec<_>>().join(","))
        }
        JsonValue::Object(o) => canon_object(o),
    }
}

fn canon_object(o: &JsonObject) -> String {
    let mut members: Vec<(String, String)> = Vec::new();
    for (k, v) in &o.entries {
        members.retain(|(key, _)| key != k);
        members.push((k.clone(), canon(v)));
    }
    members.sort();
    format!(
        "{{{}}}",
        members.iter().map(|(k, v)| format!("{k:?}:{v}")).collect::<Vec<_>>().join(",")
    )
}

#[test]
fn json_object_get_insert_remove() {
    let mut o = object(vec![("a", n(1)), ("b", n(2)), ("a", n(3))]);
    assert_eq!(o.get("a"), Some(&n(3)));
    assert_eq!(o.get("c"), None);
    o.insert("c".to_string(), s("x"));
    assert_eq!(canon_object(&o), "{\"a\":3,\"b\":2,\"c\":\"x\"}");
    assert_eq!(o.remove("a"), Some(n(3)));
    assert_eq!(o.get("a"), None);
    assert_eq!(canon_object(&o), "{\"b\":2,\"c\":\"x\"}");
    *o.get_mut("b").unwrap() = n(5);
    assert_eq!(canon_object(&o), "{\"b\":5,\"c\":\"x\"}");
}

#[test]
fn ensure_command_hook_adds_a_group_once() {
    let mut hooks = JsonObject::new();
    ensure_command_hook(&mut hooks, "Stop", "bash '/h' idle".to_string(), 10, None).unwrap();
    let expected =
        "{\"Stop\":[{\"hooks\":[{\"command\":\"bash '/h' idle\",\"timeout\":10,\"type\":\"command\"}]}]}";
    assert_eq!(canon_object(&hooks), expected);
    ensure_command_hook(&mut hooks, "Stop", "bash '/h' idle".to_string(), 10, None).unwrap();
    assert_eq!(canon_object(&hooks), expected);
    ensure_command_hook(&mut hooks, "Pre", "c".to_string(), 5, Some("Bash")).unwrap();
    assert!(canon_object(&hooks).contains(
        "\"Pre\":[{\"hooks\":[{\"command\":\"c\",\"timeout\":5,\"type\":\"command\"}],\"matcher\":\"Bash\"}]"
    ));
}

#[test]
fn ensure_command_hook_refuses_a_non_array_event() {
    let mut hooks = object(vec![("Stop", s("x"))]);
    match ensure_command_hook(&mut hooks, "Stop", "c".to_string(), 1, None) {
        Err(e @ ConfigError::EntriesNotArray { .. }) => {
            assert_eq!(e.message(), "hook entries for Stop must be an array")
        }
        other => panic!("unexpected {:?}", other),
    }
    assert_eq!(canon_object(&hooks), "{\"Stop\":\"x\"}");
    assert!(matches!(remove_command_hook(&mut hooks, "Stop", "c"), Err(ConfigError::EntriesNotArray { .. })));
    assert!(matches!(remove_flat_command_hook(&mut hooks, "Stop", "c"), Err(ConfigError::EntriesNotArray { .. })));
}

#[test]
fn remove_command_hook_keeps_unrelated_hooks() {
    let mut hooks = object(vec![(
        "Stop",
        arr(vec![
            obj(vec![(
                "hooks",
                arr(vec![
                    obj(vec![("type", s("command")), ("command", s("mine"))]),
                    obj(vec![("type", s("command")), ("command", s("theirs"))]),
                ]),
            )]),
            obj(vec![("hooks", arr(vec![obj(vec![("type", s("command")), ("command", s("mine"))])]))]),
            s("odd"),
        ]),
    )]);
    assert_eq!(remove_command_hook(&mut hooks, "Stop", "mine").unwrap(), true);
    assert_eq!(
        canon_object(&hooks),
        "{\"Stop\":[{\"hooks\":[{\"command\":\"theirs\",\"type\":\"command\"}]},\"odd\"]}"
    );
    assert_eq!(remove_command_hook(&mut hooks, "Stop", "mine").unwrap(), false);
    assert_eq!(remove_command_hook(&mut hooks, "Missing", "mine").unwrap(), false);
}

#[test]
fn remove_command_hook_drops_an_emptied_event() {
    let mut hooks = JsonObject::new();
    ensure_command_hook(&mut hooks, "Stop", "c".to_string(), 10, None).unwrap();
    assert_eq!(remove_command_hook(&mut hooks, "Stop", "c").unwrap(), true);
    assert_eq!(canon_object(&hooks), "{}");
}

#[test]
fn flat_command_hooks_are_added_and_removed() {
    let mut hooks = JsonObject::new();
    ensure_flat_command_hook(&mut hooks, "Stop", "c".to_string(), 5000).unwrap();
    ensure_flat_command_hook(&mut hooks, "Stop", "c".to_string(), 5000).unwrap();
    assert_eq!(
        canon_object(&hooks),
        "{\"Stop\":[{\"command\":\"c\",\"description\":\"Report MastraCode agent state to Herdr\",\"timeout\":5000,\"type\":\"command\"}]}"
    );
    assert_eq!(remove_flat_command_hook(&mut hooks, "Stop", "c").unwrap(), true);
    assert_eq!(canon_object(&hooks), "{}");
}

#[test]
fn simple_command_hooks_are_added_and_removed() {
    let mut hooks = object(vec![("stop", arr(vec![obj(vec![("command", s("other"))])]))]);
    ensure_simple_command_hook(&mut hooks, "stop", "c".to_string()).unwrap();
    ensure_simple_command_hook(&mut hooks, "stop", "c".to_string()).unwrap();
    assert_eq!(canon_object(&hooks), "{\"stop\":[{\"command\":\"other\"},{\"command\":\"c\"}]}");
    assert_eq!(remove_simple_command_hook(&mut hooks, "stop", "c").unwrap(), true);
    assert_eq!(canon_object(&hooks), "{\"stop\":[{\"command\":\"other\"}]}");
    assert_eq!(remove_simple_command_hook(&mut hooks, "stop", "c").unwrap(), false);
}

#[test]
fn direct_command_hooks_are_added_updated_and_removed() {
    let mut hooks = JsonObject::new();
    ensure_direct_command_hook(&mut hooks, "stop", "c".to_string(), 10, Some("m"), Platform::Unix).unwrap();
    assert_eq!(
        canon_object(&hooks),
        "{\"stop\":[{\"bash\":\"c\",\"matcher\":\"m\",\"timeoutSec\":10,\"type\":\"command\"}]}"
    );
    let mut old = object(vec![(
        "stop",
        arr(vec![obj(vec![
            ("type", s("command")),
            ("command", s("c")),
            ("matcher", s("m")),
            ("timeoutSec", n(3)),
            ("keep", n(1)),
        ])]),
    )]);
    ensure_direct_command_hook(&mut old, "stop", "c".to_string(), 7, None, Platform::Windows).unwrap();
    assert_eq!(
        canon_object(&old),
        "{\"stop\":[{\"keep\":1,\"powershell\":\"c\",\"timeoutSec\":7,\"type\":\"command\"}]}"
    );
    assert_eq!(remove_direct_command_hook(&mut old, "stop", "c").unwrap(), true);
    assert_eq!(canon_object(&old), "{}");
}

#[test]
fn matching_entries_are_recognised() {
    let hook = obj(vec![("type", s("command")), ("command", s("c"))]);
    assert!(is_matching_command_hook(&hook, "c"));
    assert!(!is_matching_command_hook(&hook, "d"));
    assert!(!is_matching_command_hook(&obj(vec![("command", s("c"))]), "c"));
    assert!(is_matching_direct_command_entry(&obj(vec![("powershell", s("c"))]), "c"));
    assert!(is_matching_direct_command_entry(&obj(vec![("bash", s("c"))]), "c"));
    assert!(!is_matching_direct_command_entry(&s("c"), "c"));
}

#[test]
fn hook_command_variants_list_each_command_once() {
    assert_eq!(
        hook_command_variants("/h/hook.sh", Some("idle"), Platform::Unix, None),
        vec!["bash '/h/hook.sh' idle".to_string()]
    );
    assert_eq!(
        hook_command_variants("C:\\h\\hook.ps1", Some("idle"), Platform::Windows, Some("C:\\h\\hook.sh")),
        vec![
            "powershell -NoProfile -ExecutionPolicy Bypass -File \"C:\\h\\hook.ps1\" idle".to_string(),
            "bash 'C:\\h\\hook.ps1' idle".to_string(),
            "bash 'C:\\h\\hook.sh' idle".to_string(),
        ]
    );
    let mut cs = vec!["a".to_string()];
    push_unique_command(&mut cs, "a".to_string());
    push_unique_command(&mut cs, "b".to_string());
    assert_eq!(cs, vec!["a".to_string(), "b".to_string()]);
}

#[test]
fn remove_hook_commands_removes_every_variant() {
    let mut hooks = JsonObject::new();
    let current = "powershell -NoProfile -ExecutionPolicy Bypass -File \"C:\\h\\hook.ps1\" idle";
    ensure_command_hook(&mut hooks, "Stop", current.to_string(), 10, None).unwrap();
    ensure_command_hook(&mut hooks, "Stop", "bash 'C:\\h\\hook.sh' idle".to_string(), 10, None).unwrap();
    ensure_command_hook(&mut hooks, "Stop", "other".to_string(), 10, None).unwrap();
    let removed = remove_hook_commands(
        &mut hooks,
        "Stop",
        "C:\\h\\hook.ps1",
        Some("idle"),
        Platform::Windows,
        Some("C:\\h\\hook.sh"),
    )
    .unwrap();
    assert!(removed);
    assert_eq!(
        canon_object(&hooks),
        "{\"Stop\":[{\"hooks\":[{\"command\":\"other\",\"timeout\":10,\"type\":\"command\"}]}]}"
    );
    let mut direct = JsonObject::new();
    ensure_direct_command_hook(&mut direct, "s", "bash '/h' idle".to_string(), 1, None, Platform::Unix)
        .unwrap();
    assert!(remove_direct_hook_commands(&mut direct, "s", "/h", Some("idle"), Platform::Unix, None).unwrap());
    assert!(!remove_direct_hook_commands(&mut direct, "s", "/h", Some("idle"), Platform::Unix, None).unwrap());
}

#[test]
fn ensure_hooks_object_adds_and_hands_out_the_hooks() {
    let mut settings = obj(vec![("model", s("x"))]);
    {
        let hooks = ensure_hooks_object(&mut settings, "/s.json", "settings", "hooks").unwrap();
        ensure_simple_command_hook(hooks, "stop", "c".to_string()).unwrap();
    }
    assert_eq!(canon(&settings), "{\"hooks\":{\"stop\":[{\"command\":\"c\"}]},\"model\":\"x\"}");
    match ensure_hooks_object(&mut s("x"), "/s.json", "settings", "hooks") {
        Err(e @ ConfigError::NotAnObject { .. }) => {
            assert_eq!(e.message(), "settings at /s.json must be a JSON object")
        }
        other => panic!("unexpected {:?}", other),
    }
    let mut bad = obj(vec![("hooks", n(1))]);
    match ensure_hooks_object(&mut bad, "/s.json", "settings", "hooks") {
        Err(e @ ConfigError::NotAnObject { .. }) => {
            assert_eq!(e.message(), "hooks at /s.json must be a JSON object")
        }
        other => panic!("unexpected {:?}", other),
    }
}

#[test]
fn hooks_object_if_present_finds_existing_hooks() {
    let mut settings = obj(vec![("model", s("x"))]);
    assert!(hooks_object_if_present(&mut settings, "/s", "settings", "hooks").unwrap().is_none());
    let mut with = obj(vec![("hooks", obj(vec![]))]);
    let hooks = hooks_object_if_present(&mut with, "/s", "settings", "hooks").unwrap().unwrap();
    ensure_simple_command_hook(hooks, "e", "c".to_string()).unwrap();
    assert_eq!(canon(&with), "{\"hooks\":{\"e\":[{\"command\":\"c\"}]}}");
    assert!(matches!(
        hooks_object_if_present(&mut arr(vec![]), "/s", "settings", "hooks"),
        Err(ConfigError::NotAnObject { .. })
    ));
}
