pub mod codex;
pub mod command;
pub mod constants;
pub mod error;
pub mod hermes;
pub mod hooks;
pub mod json;
pub mod kimi;
pub mod platform;
pub mod text;
pub mod toml_doc;
pub mod toml_text;
pub mod vibe;
pub mod yaml;
