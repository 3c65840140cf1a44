# herdr_config

Edits that install (and remove) the herdr agent-state hook in the configuration files of
coding agents, written in Verus: every edit is an executable function with a contract over a
mathematical model of the text it reads and writes, and the properties that span edits
(installing twice is installing once, cutting a managed block out gives back what the user
wrote, ...) are proof functions named `law_*`. The Vibe edits are the exception: their
managed-block search decides by parsing altered copies of the file, so what they give on
their own output is stated only on condition of those parse outcomes.

## Layout

- `src/text.rs`: the model of text (`str::lines`, trimming, joining lines) and its lemmas.
- `src/command.rs`, `src/platform.rs`: the hook commands for POSIX shells and Windows
  PowerShell.
- `src/json.rs`, `src/hooks.rs`: a JSON value model and the hook entries of JSON settings
  files (nested command groups, flat entries, direct entries).
- `src/yaml.rs`, `src/hermes.rs`: YAML line readers and the Hermes `plugins.enabled` list.
- `src/toml_text.rs`, `src/codex.rs`, `src/kimi.rs`: TOML line readers, the Codex
  `[features]` table and the Kimi managed block of `[[hooks]]` tables.
- `src/toml_doc.rs`, `src/vibe.rs`: the calls into the `toml` parser, behind trusted
  wrappers, and the Vibe managed block that they guard.
- `src/constants.rs`, `src/error.rs`: names, markers and the library's errors.
- `app/`: host-side glue (serde_json conversion, the Windows system directory, `io::Error`).
- `tests/`: scenarios run against the compiled library.
