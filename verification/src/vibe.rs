use vstd::prelude::*;

use crate::command::{spec_trusted_hook_command, trusted_hook_command, TrustedShell};
use crate::constants::{VIBE_CONFIG_BLOCK_BEGIN, VIBE_CONFIG_BLOCK_END, VIBE_HOOK_NAME};
use crate::error::ConfigError;
use crate::text::{
    chars_of, count_lead_ws, ends_with_char, ends_with_char_str, join_lines, join_newline,
    law_lines_join_roundtrip, lead_ws, lemma_join_ends_cleanly, lemma_lead_ws_unique,
    lemma_lines_concat, lemma_lines_cons, lemma_lines_plain, lemma_lines_single,
    lemma_text_lines_nonempty, lemma_trail_ws_unique, lemma_trim_newlines_end,
    lemma_trim_newlines_end_cleanly, lines_end_cleanly, no_cr, plain_line, push_char, split_lines,
    str_eq, text_lines, trim, trim_newlines_end, trim_newlines_end_str, trim_start, trim_str,
};
use crate::toml_doc::{
    lemma_toml_entries_view, lemma_toml_seq_view, parse_toml_document, toml_document,
    toml_entries_view, toml_parse_message, toml_seq_view, toml_view, Toml, TomlValue,
};
use crate::toml_text::{
    join_toml_lines, law_toml_basic_string_is_quoted, lemma_join_toml_lines_trim,
    lemma_tidy_end_cleanly, lemma_tidy_end_trim, spec_join_toml_lines,
    spec_tidy_end, spec_toml_basic_string, strip_blank_tail, tidy_end, toml_basic_string,
};

verus! {

/// What the library reads of a parsed Vibe hooks file: the `name` of each `[[hooks]]` entry,
/// when it is a string.
pub struct VibeHooksConfig {
    pub hook_names: Vec<Option<String>>,
}

/// Why a Vibe edit fails: the TOML parser refused a text (with its message), or another error.
pub enum VibeFailure {
    Parse(Seq<char>),
    Config(ConfigError),
}

/// The failure of parsing `text`.
pub open spec fn parse_error(text: Seq<char>) -> VibeFailure {
    VibeFailure::Parse(toml_parse_message(text))
}

/// An error is the failure that the specification gives.
pub open spec fn error_agrees(e: ConfigError, f: VibeFailure) -> bool {
    match f {
        VibeFailure::Parse(message) => e matches ConfigError::VibeParse { message: m } && m@
            == message,
        VibeFailure::Config(c) => e == c,
    }
}

/// A text result agrees with what the specification gives.
pub open spec fn agrees(res: Result<String, ConfigError>, spec: Result<Seq<char>, VibeFailure>) -> bool {
    match (res, spec) {
        (Ok(a), Ok(b)) => a@ == b,
        (Err(e), Err(f)) => error_agrees(e, f),
        _ => false,
    }
}

/// How many of the names are the managed hook's name.
pub open spec fn count_named(names: Seq<Option<Seq<char>>>, name: Seq<char>) -> nat
    decreases names.len(),
{
    if names.len() == 0 {
        0
    } else {
        count_named(names.drop_last(), name) + (if names.last() == Some(name) {
            1nat
        } else {
            0nat
        })
    }
}

/// The value of the first entry of a table with the given key.
pub open spec fn toml_entry(entries: Seq<(Seq<char>, Toml)>, key: Seq<char>) -> Option<Toml>
    decreases entries.len(),
{
    if entries.len() == 0 {
        None
    } else if entries[0].0 == key {
        Some(entries[0].1)
    } else {
        toml_entry(entries.drop_first(), key)
    }
}

/// The member `key` of a TOML value, when it is a table that has one (`toml::Value::get`).
pub open spec fn toml_get(v: Toml, key: Seq<char>) -> Option<Toml> {
    match v {
        Toml::Table(entries) => toml_entry(entries, key),
        _ => None,
    }
}

/// The `name` of a hook, when it is a string.
pub open spec fn hook_name(hook: Toml) -> Option<Seq<char>> {
    match toml_get(hook, "name"@) {
        Some(Toml::Str(s)) => Some(s),
        _ => None,
    }
}

/// The names of the elements of the document's top-level `hooks` array (none when there is no
/// such array).
pub open spec fn document_hook_names(doc: Toml) -> Seq<Option<Seq<char>>> {
    match toml_get(doc, "hooks"@) {
        Some(Toml::Array(hooks)) => hooks.map_values(|h: Toml| hook_name(h)),
        _ => seq![],
    }
}

/// The hook names of a Vibe hooks file, or `None` when it is not a TOML document.
pub open spec fn toml_hook_names(content: Seq<char>) -> Option<Seq<Option<Seq<char>>>> {
    match toml_document(content) {
        None => None,
        Some(doc) => Some(document_hook_names(doc)),
    }
}

/// The member `key` of a TOML value, when it is a table that has one.
fn toml_member<'a>(v: &'a TomlValue, key: &str) -> (res: Option<&'a TomlValue>)
    ensures
        res matches Some(x) ==> toml_get(v@, key@) == Some(x@),
        res is None ==> toml_get(v@, key@) is None,
{
    match v {
        TomlValue::Table(entries) => {
            let ghost es = entries@;
            proof {
                assert(toml_view(*v) == Toml::Table(
                    toml_entries_view(es),
                ));
                lemma_toml_entries_view(es);
                assert(toml_entries_view(es).skip(0) =~= toml_entries_view(es));
            }
            let mut i: usize = 0;
            while i < entries.len()
                invariant
                    es == entries@,
                    v@ == Toml::Table(toml_entries_view(es)),
                    i <= entries.len(),
                    toml_entries_view(es).len() == es.len(),
                    forall|j: int| 0 <= j < es.len() ==> #[trigger] toml_entries_view(es)[j] == (es[j].0@, toml_view(es[j].1)),
                    toml_entry(toml_entries_view(es), key@) == toml_entry(
                        toml_entries_view(es).skip(i as int),
                        key@,
                    ),
                decreases entries.len() - i,
            {
                let ghost rest = toml_entries_view(es).skip(i as int);
                assert(rest[0] == toml_entries_view(es)[i as int]);
                assert(rest.drop_first() =~= toml_entries_view(es).skip(i + 1));
                if str_eq(entries[i].0.as_str(), key) {
                    proof {
                        assert(rest.len() > 0);
                        assert(rest[0].0 == key@);
                        assert(toml_entry(rest, key@) == Some(rest[0].1));
                    }
                    return Some(&entries[i].1);
                }
                i += 1;
            }
            None
        },
        _ => None,
    }
}

/// The `name` of a hook, when it is a string.
fn hook_name_of(hook: &TomlValue) -> (res: Option<String>)
    ensures
        res.deep_view() == hook_name(hook@),
{
    match toml_member(hook, "name") {
        Some(TomlValue::Str(s)) => Some(String::from_str(s.as_str())),
        _ => None,
    }
}

/// The names of the hooks of a parsed document.
fn document_hook_names_of(doc: &TomlValue) -> (res: Vec<Option<String>>)
    ensures
        res.deep_view() == document_hook_names(doc@),
{
    let mut names: Vec<Option<String>> = Vec::new();
    match toml_member(doc, "hooks") {
        Some(TomlValue::Array(hooks)) => {
            let ghost hs = hooks@;
            proof {
                lemma_toml_seq_view(hs);
            }
            let mut i: usize = 0;
            while i < hooks.len()
                invariant
                    hs == hooks@,
                    i <= hooks.len(),
                    toml_seq_view(hs).len() == hs.len(),
                    forall|j: int| 0 <= j < hs.len() ==> #[trigger] toml_seq_view(hs)[j] == toml_view(hs[j]),
                    names.deep_view() == toml_seq_view(hs).take(i as int).map_values(
                        |h: Toml| hook_name(h),
                    ),
                decreases hooks.len() - i,
            {
                let name = hook_name_of(&hooks[i]);
                let ghost before = names.deep_view();
                names.push(name);
                proof {
                    assert(names.deep_view() =~= before.push(name.deep_view()));
                    assert(toml_seq_view(hs).take(i + 1).map_values(
                        |h: Toml| hook_name(h),
                    ) =~= toml_seq_view(hs).take(i as int).map_values(
                        |h: Toml| hook_name(h),
                    ).push(hook_name(toml_seq_view(hs)[i as int])));
                }
                i += 1;
            }
            proof {
                assert(toml_seq_view(hs).take(hs.len() as int) =~= toml_seq_view(hs));
            }
            names
        },
        _ => {
            proof {
                assert(names.deep_view() =~= Seq::<Option<Seq<char>>>::empty());
            }
            names
        },
    }
}

/// Parses a TOML document and reads the `name` of each of its top-level hooks.
fn parse_toml_hook_names(content: &str) -> (res: Result<Vec<Option<String>>, String>)
    ensures
        res is Ok <==> toml_hook_names(content@) is Some,
        res matches Ok(names) ==> toml_hook_names(content@) == Some(names.deep_view()),
        res matches Err(message) ==> message@ == toml_parse_message(content@),
{
    match parse_toml_document(content) {
        Ok(doc) => Ok(document_hook_names_of(&doc)),
        Err(e) => Err(e),
    }
}

/// The line is a marker of the managed block.
pub open spec fn is_marker(line: Seq<char>) -> bool {
    trim(line) == VIBE_CONFIG_BLOCK_BEGIN@ || trim(line) == VIBE_CONFIG_BLOCK_END@
}

/// The text with line `target` replaced by its indentation and `@`, lines joined by `"\n"`.
pub open spec fn marker_probe(content: Seq<char>, target: int) -> Seq<char> {
    let ls = text_lines(content);
    let line = ls[target];
    join_lines(ls.update(target, line.take(lead_ws(line) as int).push('@')))
}

/// Line `target` is a TOML comment: putting `@` in its place breaks the document.
pub open spec fn spec_vibe_marker_line_is_comment(content: Seq<char>, target: int) -> bool {
    toml_hook_names(marker_probe(content, target)) is None
}

/// For each line: it is a marker and a comment.
pub open spec fn marker_flags(content: Seq<char>) -> Seq<bool> {
    let ls = text_lines(content);
    Seq::new(
        ls.len(),
        |i: int| is_marker(ls[i]) && spec_vibe_marker_line_is_comment(content, i),
    )
}

/// The managed block (first and last line) found scanning from line `i`, given which lines are
/// marker comments.
pub open spec fn marker_scan(
    ls: Seq<Seq<char>>,
    flags: Seq<bool>,
    i: int,
    open: Option<int>,
    block: Option<(int, int)>,
) -> Result<Option<(int, int)>, ConfigError>
    decreases ls.len() - i,
{
    if i < 0 || i >= ls.len() {
        if open is Some {
            Err(ConfigError::VibeUnterminatedBlock)
        } else {
            Ok(block)
        }
    } else {
        let m = trim(ls[i]);
        if !is_marker(ls[i]) || !flags[i] {
            marker_scan(ls, flags, i + 1, open, block)
        } else if m == VIBE_CONFIG_BLOCK_BEGIN@ {
            if open is Some {
                Err(ConfigError::VibeNestedBlock)
            } else if block is Some {
                Err(ConfigError::VibeMultipleBlocks)
            } else {
                marker_scan(ls, flags, i + 1, Some(i), block)
            }
        } else {
            match open {
                None => Err(ConfigError::VibeUnmatchedMarker),
                Some(s) => marker_scan(ls, flags, i + 1, None, Some((s, i))),
            }
        }
    }
}

/// The managed block of a parsed Vibe hooks file.
pub open spec fn spec_vibe_marker_block_range(content: Seq<char>) -> Result<Option<(int, int)>, ConfigError> {
    marker_scan(text_lines(content), marker_flags(content), 0, None, None)
}

/// The text without lines `start..=end`, tidied at its end.
pub open spec fn spec_cut_lines(content: Seq<char>, start: int, end: int) -> Seq<char> {
    let ls = text_lines(content);
    spec_tidy_end(
        spec_join_toml_lines(
            ls.subrange(0, start) + ls.subrange(end + 1, ls.len() as int),
            ends_with_char(content, '\n'),
        ),
    )
}

/// The Vibe hooks file without its managed block, when nothing else in it bears the
/// managed hook's name.
pub open spec fn spec_remove_vibe_hooks_config_block(content: Seq<char>) -> Result<
    Seq<char>,
    VibeFailure,
> {
    if toml_hook_names(content) is None {
        Err(parse_error(content))
    } else {
        match spec_vibe_marker_block_range(content) {
            Err(e) => Err(VibeFailure::Config(e)),
            Ok(range) => {
                let unmanaged = match range {
                    Some((s, e)) => spec_cut_lines(content, s, e),
                    None => content,
                };
                match toml_hook_names(unmanaged) {
                    None => Err(parse_error(unmanaged)),
                    Some(names) => if count_named(names, VIBE_HOOK_NAME@) != 0 {
                        Err(VibeFailure::Config(ConfigError::VibeUnownedHook))
                    } else {
                        Ok(unmanaged)
                    },
                }
            },
        }
    }
}

/// The managed block written for a hook command.
pub open spec fn spec_vibe_block(command: Seq<char>) -> Seq<char> {
    VIBE_CONFIG_BLOCK_BEGIN@ + "\n"@ + "[[hooks]]\n"@ + "name = "@ + spec_toml_basic_string(
        VIBE_HOOK_NAME@,
    ) + "\n"@ + "type = \"post_agent\"\n"@ + "command = "@ + spec_toml_basic_string(command)
        + "\n"@ + "timeout = 10.0\n"@ + VIBE_CONFIG_BLOCK_END@ + "\n"@
}

/// The Vibe hooks file with its managed block written for the trusted hook command.
pub open spec fn spec_build_vibe_hooks_config_with_hook(
    content: Seq<char>,
    hook_path: Seq<char>,
    shell: TrustedShell,
) -> Result<Seq<char>, VibeFailure> {
    if toml_hook_names(content) is None {
        Err(parse_error(content))
    } else {
        match spec_remove_vibe_hooks_config_block(content) {
            Err(e) => Err(e),
            Ok(unmanaged) => match spec_trusted_hook_command(hook_path, None, shell) {
                Err(e) => Err(VibeFailure::Config(e)),
                Ok(command) => {
                    let r = trim_newlines_end(unmanaged);
                    let result = (if r.len() == 0 {
                        r
                    } else {
                        r.push('\n').push('\n')
                    }) + spec_vibe_block(command);
                    if toml_hook_names(result) is None {
                        Err(parse_error(result))
                    } else {
                        Ok(result)
                    }
                },
            },
        }
    }
}

/// Parses a Vibe hooks file and reads the names of its hooks.
pub fn parse_vibe_hooks_toml(content: &str) -> (res: Result<VibeHooksConfig, ConfigError>)
    ensures
        match toml_hook_names(content@) {
            Some(names) => res matches Ok(c) && c.hook_names.deep_view() == names,
            None => res matches Err(ConfigError::VibeParse { message }) && message@
                == toml_parse_message(content@),
        },
{
    match parse_toml_hook_names(content) {
        Ok(names) => Ok(VibeHooksConfig { hook_names: names }),
        Err(message) => Err(ConfigError::VibeParse { message }),
    }
}

/// Checks that a Vibe hooks file is a TOML document.
pub fn validate_vibe_hooks_toml(content: &str) -> (res: Result<(), ConfigError>)
    ensures
        res is Ok <==> toml_hook_names(content@) is Some,
        res is Err ==> (res matches Err(ConfigError::VibeParse { message }) && message@
            == toml_parse_message(content@)),
{
    match parse_vibe_hooks_toml(content) {
        Ok(_) => Ok(()),
        Err(e) => Err(e),
    }
}

/// How many hooks of a parsed Vibe hooks file bear the managed hook's name.
pub fn vibe_named_hook_count(config: &VibeHooksConfig) -> (res: usize)
    ensures
        res == count_named(config.hook_names.deep_view(), VIBE_HOOK_NAME@),
{
    let ghost names = config.hook_names.deep_view();
    let mut count: usize = 0;
    let mut i: usize = 0;
    proof {
        assert(names.take(0) =~= Seq::<Option<Seq<char>>>::empty());
    }
    while i < config.hook_names.len()
        invariant
            names == config.hook_names.deep_view(),
            i <= config.hook_names.len(),
            count == count_named(names.take(i as int), VIBE_HOOK_NAME@),
            count <= i,
        decreases config.hook_names.len() - i,
    {
        let named = match &config.hook_names[i] {
            Some(name) => str_eq(name.as_str(), VIBE_HOOK_NAME),
            None => false,
        };
        proof {
            assert(names.take(i + 1).drop_last() =~= names.take(i as int));
            assert(names.take(i + 1).last() == names[i as int]);
        }
        if named {
            count += 1;
        }
        i += 1;
    }
    proof {
        assert(names.take(i as int) =~= names);
    }
    count
}

/// Whether line `target_line` of a parsed Vibe hooks file is a comment.
pub fn vibe_marker_line_is_comment(content: &str, target_line: usize) -> (res: bool)
    requires
        target_line < text_lines(content@).len(),
    ensures
        res == spec_vibe_marker_line_is_comment(content@, target_line as int),
{
    let mut lines = split_lines(content);
    let ghost ls = lines.deep_view();
    let line = chars_of(lines[target_line].as_str());
    let k = count_lead_ws(&line);
    proof {
        crate::text::lemma_lead_ws(line@);
    }
    let mut probe = String::from_str(lines[target_line].as_str().substring_char(0, k));
    push_char(&mut probe, '@');
    proof {
        crate::text::lemma_lead_ws(ls[target_line as int]);
        assert(lines[target_line as int]@.subrange(0, k as int) =~= ls[target_line as int].take(
            k as int,
        ));
    }
    lines.set(target_line, probe);
    proof {
        assert(lines.deep_view() =~= ls.update(
            target_line as int,
            ls[target_line as int].take(lead_ws(ls[target_line as int]) as int).push('@'),
        ));
    }
    let joined = join_newline(&lines);
    parse_toml_hook_names(joined.as_str()).is_err()
}

/// The managed block of a Vibe hooks file, given which lines are marker comments.
pub fn marker_block_range_from_flags(lines: &[String], is_comment: &[bool]) -> (res: Result<
    Option<(usize, usize)>,
    ConfigError,
>)
    requires
        lines@.len() == is_comment@.len(),
    ensures
        match (res, marker_scan(lines.deep_view(), is_comment@, 0, None, None)) {
            (Ok(Some((a, b))), Ok(Some((c, d)))) => a == c && b == d,
            (Ok(None), Ok(None)) => true,
            (Err(e), Err(f)) => e == f,
            _ => false,
        },
{
    let ghost ls = lines.deep_view();
    let ghost flags = is_comment@;
    let mut open: Option<usize> = None;
    let mut block: Option<(usize, usize)> = None;
    let mut index: usize = 0;
    while index < lines.len()
        invariant
            ls == lines.deep_view(),
            flags == is_comment@,
            lines@.len() == flags.len(),
            index <= lines.len(),
            marker_scan(ls, flags, 0, None, None) == marker_scan(
                ls,
                flags,
                index as int,
                match open {
                    Some(s) => Some(s as int),
                    None => None::<int>,
                },
                match block {
                    Some((s, e)) => Some((s as int, e as int)),
                    None => None::<(int, int)>,
                },
            ),
        decreases lines.len() - index,
    {
        let marker = trim_str(lines[index].as_str());
        let is_begin = str_eq(marker, VIBE_CONFIG_BLOCK_BEGIN);
        let is_end = str_eq(marker, VIBE_CONFIG_BLOCK_END);
        if !is_begin && !is_end {
            index += 1;
            continue;
        }
        if !is_comment[index] {
            index += 1;
            continue;
        }
        if is_begin {
            if open.is_some() {
                return Err(ConfigError::VibeNestedBlock);
            }
            if block.is_some() {
                return Err(ConfigError::VibeMultipleBlocks);
            }
            open = Some(index);
        } else {
            match open {
                None => {
                    return Err(ConfigError::VibeUnmatchedMarker);
                },
                Some(start) => {
                    block = Some((start, index));
                    open = None;
                },
            }
        }
        index += 1;
    }
    if open.is_some() {
        return Err(ConfigError::VibeUnterminatedBlock);
    }
    Ok(block)
}

/// The managed block of a parsed Vibe hooks file: the lines of its begin and end markers.
pub fn vibe_marker_block_range(content: &str, lines: &[String]) -> (res: Result<
    Option<(usize, usize)>,
    ConfigError,
>)
    requires
        lines.deep_view() == text_lines(content@),
    ensures
        match (res, spec_vibe_marker_block_range(content@)) {
            (Ok(Some((a, b))), Ok(Some((c, d)))) => a == c && b == d,
            (Ok(None), Ok(None)) => true,
            (Err(e), Err(f)) => e == f,
            _ => false,
        },
{
    let ghost ls = lines.deep_view();
    let mut flags: Vec<bool> = Vec::new();
    let mut i: usize = 0;
    while i < lines.len()
        invariant
            ls == lines.deep_view(),
            ls == text_lines(content@),
            i <= lines.len(),
            flags@ == marker_flags(content@).take(i as int),
        decreases lines.len() - i,
    {
        let marker = trim_str(lines[i].as_str());
        let flag = if str_eq(marker, VIBE_CONFIG_BLOCK_BEGIN) || str_eq(marker, VIBE_CONFIG_BLOCK_END) {
            vibe_marker_line_is_comment(content, i)
        } else {
            false
        };
        flags.push(flag);
        proof {
            assert(flags@ =~= marker_flags(content@).take(i + 1));
        }
        i += 1;
    }
    proof {
        assert(flags@ =~= marker_flags(content@));
    }
    marker_block_range_from_flags(lines, flags.as_slice())
}

/// The text without lines `start..=end`, tidied at its end.
fn cut_lines(content: &str, lines: Vec<String>, start: usize, end: usize) -> (res: String)
    requires
        lines.deep_view() == text_lines(content@),
        start <= end < lines.len(),
    ensures
        res@ == spec_cut_lines(content@, start as int, end as int),
{
    let ghost ls = lines.deep_view();
    let trailing_newline = ends_with_char_str(content, '\n');
    let mut lines = lines;
    let mut tail = lines.split_off(end + 1);
    lines.truncate(start);
    lines.append(&mut tail);
    proof {
        assert(lines.deep_view() =~= ls.subrange(0, start as int) + ls.subrange(
            end + 1,
            ls.len() as int,
        ));
    }
    tidy_end(join_toml_lines(lines, trailing_newline))
}

/// Cuts the managed block out of a Vibe hooks file, refusing a file whose other hooks already
/// bear the managed hook's name.
pub fn remove_vibe_hooks_config_block(content: &str) -> (res: Result<String, ConfigError>)
    ensures
        agrees(res, spec_remove_vibe_hooks_config_block(content@)),
{
    validate_vibe_hooks_toml(content)?;
    let lines = split_lines(content);
    let range = match vibe_marker_block_range(content, lines.as_slice()) {
        Ok(r) => r,
        Err(e) => {
            return Err(e);
        },
    };
    let unmanaged = match range {
        Some((start, end)) => {
            proof {
                lemma_marker_scan_range(
                    text_lines(content@),
                    marker_flags(content@),
                    0,
                    None,
                    None,
                );
            }
            cut_lines(content, lines, start, end)
        },
        None => String::from_str(content),
    };
    let unmanaged_config = match parse_vibe_hooks_toml(unmanaged.as_str()) {
        Ok(c) => c,
        Err(e) => {
            return Err(e);
        },
    };
    if vibe_named_hook_count(&unmanaged_config) != 0 {
        return Err(ConfigError::VibeUnownedHook);
    }
    Ok(unmanaged)
}

/// The block found by `marker_scan` lies inside the text, begin before end.
pub proof fn lemma_marker_scan_range(
    ls: Seq<Seq<char>>,
    flags: Seq<bool>,
    i: int,
    open: Option<int>,
    block: Option<(int, int)>,
)
    requires
        0 <= i,
        open matches Some(s) ==> 0 <= s < i,
        block matches Some((s, e)) ==> 0 <= s < e < ls.len(),
        i <= ls.len(),
    ensures
        marker_scan(ls, flags, i, open, block) matches Ok(Some((s, e))) ==> 0 <= s < e < ls.len(),
    decreases ls.len() - i,
{
    if i < ls.len() {
        let m = trim(ls[i]);
        if !is_marker(ls[i]) || !flags[i] {
            lemma_marker_scan_range(ls, flags, i + 1, open, block);
        } else if m == VIBE_CONFIG_BLOCK_BEGIN@ {
            if open is None && block is None {
                lemma_marker_scan_range(ls, flags, i + 1, Some(i), block);
            }
        } else if let Some(s) = open {
            lemma_marker_scan_range(ls, flags, i + 1, None, Some((s, i)));
        }
    }
}

/// The lines inside the managed block of a Vibe hooks file, joined by `"\n"`.
pub fn vibe_managed_hooks_config_block(content: &str) -> (res: Result<Option<String>, ConfigError>)
    ensures
        toml_hook_names(content@) is None ==> (res matches Err(ConfigError::VibeParse { message })
            && message@ == toml_parse_message(content@)),
        toml_hook_names(content@) is Some ==> match (res, spec_vibe_marker_block_range(content@)) {
            (Ok(Some(b)), Ok(Some((s, e)))) => b@ == join_lines(
                text_lines(content@).subrange(s + 1, e),
            ),
            (Ok(None), Ok(None)) => true,
            (Err(e), Err(f)) => e == f,
            _ => false,
        },
{
    validate_vibe_hooks_toml(content)?;
    let lines = split_lines(content);
    let range = match vibe_marker_block_range(content, lines.as_slice()) {
        Ok(r) => r,
        Err(e) => {
            return Err(e);
        },
    };
    match range {
        None => Ok(None),
        Some((start, end)) => {
            proof {
                lemma_marker_scan_range(
                    text_lines(content@),
                    marker_flags(content@),
                    0,
                    None,
                    None,
                );
            }
            let ghost ls = lines.deep_view();
            let mut lines = lines;
            let _tail = lines.split_off(end);
            let inner = lines.split_off(start + 1);
            proof {
                assert(inner.deep_view() =~= ls.subrange(start + 1, end as int));
            }
            Ok(Some(join_newline(&inner)))
        },
    }
}

/// Writes the managed block of a Vibe hooks file for the trusted command of the hook script,
/// in place of the old one, at the end of the file.
pub fn build_vibe_hooks_config_with_hook(content: &str, hook_path: &str, shell: &TrustedShell) -> (res:
    Result<String, ConfigError>)
    ensures
        agrees(res, spec_build_vibe_hooks_config_with_hook(content@, hook_path@, *shell)),
{
    validate_vibe_hooks_toml(content)?;
    let unmanaged = match remove_vibe_hooks_config_block(content) {
        Ok(u) => u,
        Err(e) => {
            return Err(e);
        },
    };
    let command = match trusted_hook_command(hook_path, None, shell) {
        Ok(c) => c,
        Err(e) => {
            return Err(e);
        },
    };
    let mut result = String::from_str(trim_newlines_end_str(unmanaged.as_str()));
    if !result.as_str().is_empty() {
        push_char(&mut result, '\n');
        push_char(&mut result, '\n');
    }
    result.append(VIBE_CONFIG_BLOCK_BEGIN);
    result.append("\n");
    result.append("[[hooks]]\n");
    result.append("name = ");
    result.append(toml_basic_string(VIBE_HOOK_NAME).as_str());
    result.append("\n");
    result.append("type = \"post_agent\"\n");
    result.append("command = ");
    result.append(toml_basic_string(command.as_str()).as_str());
    result.append("\n");
    result.append("timeout = 10.0\n");
    result.append(VIBE_CONFIG_BLOCK_END);
    result.append("\n");
    proof {
        let r = trim_newlines_end(unmanaged@);
        assert(result@ =~= (if r.len() == 0 {
            r
        } else {
            r.push('\n').push('\n')
        }) + spec_vibe_block(command@));
    }
    validate_vibe_hooks_toml(result.as_str())?;
    Ok(result)
}

/// The lines of the managed block between its markers, joined by `"\n"`.
pub open spec fn spec_vibe_block_body(command: Seq<char>) -> Seq<char> {
    "[[hooks]]\n"@ + "name = "@ + spec_toml_basic_string(VIBE_HOOK_NAME@) + "\n"@
        + "type = \"post_agent\"\n"@ + "command = "@ + spec_toml_basic_string(command) + "\n"@
        + "timeout = 10.0"@
}

/// How many lines the managed block written for `command` has, markers included.
pub open spec fn vibe_block_line_count(command: Seq<char>) -> int {
    text_lines(spec_vibe_block_body(command).push('\n')).len() + 2int
}

proof fn lemma_no_cr_concat(a: Seq<char>, b: Seq<char>)
    requires
        no_cr(a),
        no_cr(b),
    ensures
        no_cr(a + b),
{
    assert forall|i: int| 0 <= i < (a + b).len() implies (a + b)[i] != '\r' by {
        if i < a.len() {
            assert((a + b)[i] == a[i]);
        } else {
            assert((a + b)[i] == b[i - a.len()]);
        }
    }
}

proof fn lemma_quoted_no_cr(value: Seq<char>)
    ensures
        no_cr(spec_toml_basic_string(value)),
{
    law_toml_basic_string_is_quoted(value);
    let q = spec_toml_basic_string(value);
    assert forall|i: int| 0 <= i < q.len() implies q[i] != '\r' by {
        assert((q[i] as u32) > 0x1f);
    }
}

/// The managed block: the begin marker, the lines of its body, the end marker.
proof fn lemma_vibe_block_lines(command: Seq<char>)
    ensures
        ({
            let body = spec_vibe_block_body(command);
            let bl = text_lines(body.push('\n'));
            &&& text_lines(spec_vibe_block(command)) == seq![VIBE_CONFIG_BLOCK_BEGIN@] + bl + seq![
                VIBE_CONFIG_BLOCK_END@,
            ]
            &&& join_lines(bl) == body
            &&& ends_with_char(spec_vibe_block(command), '\n')
        }),
{
    reveal_strlit("# >>> herdr vibe hooks >>>");
    reveal_strlit("# <<< herdr vibe hooks <<<");
    reveal_strlit("\n");
    reveal_strlit("[[hooks]]\n");
    reveal_strlit("name = ");
    reveal_strlit("type = \"post_agent\"\n");
    reveal_strlit("command = ");
    reveal_strlit("timeout = 10.0\n");
    reveal_strlit("timeout = 10.0");
    let b = VIBE_CONFIG_BLOCK_BEGIN@;
    let e = VIBE_CONFIG_BLOCK_END@;
    let body = spec_vibe_block_body(command);
    let n1 = spec_toml_basic_string(VIBE_HOOK_NAME@);
    let c1 = spec_toml_basic_string(command);
    let x = "[[hooks]]\n"@ + "name = "@ + n1 + "\n"@ + "type = \"post_agent\"\n"@ + "command = "@
        + c1 + "\n"@;
    assert(body == x + "timeout = 10.0"@);
    assert(spec_vibe_block(command) =~= b.push('\n') + (body.push('\n') + e.push('\n')));
    lemma_quoted_no_cr(VIBE_HOOK_NAME@);
    lemma_quoted_no_cr(command);
    assert(no_cr("[[hooks]]\n"@));
    assert(no_cr("name = "@));
    assert(no_cr("\n"@));
    assert(no_cr("type = \"post_agent\"\n"@));
    assert(no_cr("command = "@));
    assert(no_cr("timeout = 10.0"@));
    lemma_no_cr_concat("[[hooks]]\n"@, "name = "@);
    lemma_no_cr_concat("[[hooks]]\n"@ + "name = "@, n1);
    lemma_no_cr_concat("[[hooks]]\n"@ + "name = "@ + n1, "\n"@);
    lemma_no_cr_concat("[[hooks]]\n"@ + "name = "@ + n1 + "\n"@, "type = \"post_agent\"\n"@);
    lemma_no_cr_concat(
        "[[hooks]]\n"@ + "name = "@ + n1 + "\n"@ + "type = \"post_agent\"\n"@,
        "command = "@,
    );
    lemma_no_cr_concat(
        "[[hooks]]\n"@ + "name = "@ + n1 + "\n"@ + "type = \"post_agent\"\n"@ + "command = "@,
        c1,
    );
    lemma_no_cr_concat(
        "[[hooks]]\n"@ + "name = "@ + n1 + "\n"@ + "type = \"post_agent\"\n"@ + "command = "@
            + c1,
        "\n"@,
    );
    lemma_no_cr_concat(x, "timeout = 10.0"@);
    lemma_no_cr_concat(body, seq!['\n']);
    assert(body.push('\n') =~= body + seq!['\n']);
    law_lines_join_roundtrip(body.push('\n'));
    assert(body.push('\n').last() == '\n');
    assert(join_lines(text_lines(body.push('\n'))) + seq!['\n'] =~= body.push('\n'));
    let jl = join_lines(text_lines(body.push('\n')));
    assert((jl + seq!['\n']).drop_last() =~= jl);
    assert(body.push('\n').drop_last() =~= body);
    assert(jl =~= body);
    assert(plain_line(b));
    assert(plain_line(e));
    lemma_lines_cons(b, body.push('\n') + e.push('\n'));
    lemma_lines_concat(body.push('\n'), e.push('\n'));
    lemma_lines_single(e);
    assert(text_lines(spec_vibe_block(command)) =~= seq![b] + text_lines(body.push('\n')) + seq![
        e,
    ]);
}

/// Lines that are not marker comments leave the scan as it was.
proof fn lemma_marker_scan_skip(
    ls: Seq<Seq<char>>,
    flags: Seq<bool>,
    i: int,
    k: int,
    open: Option<int>,
    block: Option<(int, int)>,
)
    requires
        0 <= i <= k <= ls.len(),
        forall|j: int| i <= j < k ==> !#[trigger] flags[j],
    ensures
        marker_scan(ls, flags, i, open, block) == marker_scan(ls, flags, k, open, block),
    decreases k - i,
{
    if i < k {
        assert(!flags[i]);
        lemma_marker_scan_skip(ls, flags, i + 1, k, open, block);
    }
}

proof fn lemma_vibe_markers()
    ensures
        is_marker(VIBE_CONFIG_BLOCK_BEGIN@),
        is_marker(VIBE_CONFIG_BLOCK_END@),
        trim(VIBE_CONFIG_BLOCK_BEGIN@) == VIBE_CONFIG_BLOCK_BEGIN@,
        trim(VIBE_CONFIG_BLOCK_END@) != VIBE_CONFIG_BLOCK_BEGIN@,
{
    reveal_strlit("# >>> herdr vibe hooks >>>");
    reveal_strlit("# <<< herdr vibe hooks <<<");
    let b = VIBE_CONFIG_BLOCK_BEGIN@;
    let e = VIBE_CONFIG_BLOCK_END@;
    lemma_lead_ws_unique(b, 0);
    lemma_trail_ws_unique(b, b.len() as int);
    assert(trim_start(b) =~= b);
    assert(trim(b) =~= b);
    lemma_lead_ws_unique(e, 0);
    lemma_trail_ws_unique(e, e.len() as int);
    assert(trim_start(e) =~= e);
    assert(trim(e) =~= e);
    assert(b[2] != e[2]);
}

/// The Vibe hooks file that `build_vibe_hooks_config_with_hook` wrote: what the user wrote, then
/// the managed block.
proof fn lemma_vibe_built_lines(
    content: Seq<char>,
    hook_path: Seq<char>,
    shell: TrustedShell,
    out: Seq<char>,
    command: Seq<char>,
)
    requires
        spec_build_vibe_hooks_config_with_hook(content, hook_path, shell) == Ok::<
            Seq<char>,
            VibeFailure,
        >(out),
        spec_trusted_hook_command(hook_path, None, shell) == Ok::<Seq<char>, ConfigError>(command),
    ensures
        ({
            let unmanaged = spec_remove_vibe_hooks_config_block(content)->Ok_0;
            let r = trim_newlines_end(unmanaged);
            let prefix = if r.len() == 0 {
                Seq::<Seq<char>>::empty()
            } else {
                text_lines(r.push('\n')) + seq![Seq::<char>::empty()]
            };
            &&& spec_remove_vibe_hooks_config_block(content) is Ok
            &&& text_lines(out) == prefix + text_lines(spec_vibe_block(command))
            &&& toml_hook_names(out) is Some
            &&& ends_with_char(out, '\n')
        }),
{
    let unmanaged = spec_remove_vibe_hooks_config_block(content)->Ok_0;
    let r = trim_newlines_end(unmanaged);
    let block = spec_vibe_block(command);
    lemma_vibe_block_lines(command);
    assert(out.last() == block.last());
    if r.len() == 0 {
        assert(out =~= block);
        assert(Seq::<Seq<char>>::empty() + text_lines(block) =~= text_lines(block));
    } else {
        let e = Seq::<char>::empty();
        assert(out =~= r.push('\n') + (e.push('\n') + block));
        lemma_lines_concat(r.push('\n'), e.push('\n') + block);
        lemma_lines_cons(e, block);
        assert(text_lines(out) =~= text_lines(r.push('\n')) + seq![e] + text_lines(block));
    }
}

/// Reading the managed block back out of the Vibe hooks file that
/// `build_vibe_hooks_config_with_hook` wrote finds the block it wrote, when the TOML parser
/// takes the two marker lines it wrote, and no other line, for comments.
pub proof fn law_vibe_block_read_back(
    content: Seq<char>,
    hook_path: Seq<char>,
    shell: TrustedShell,
    out: Seq<char>,
    command: Seq<char>,
)
    requires
        spec_build_vibe_hooks_config_with_hook(content, hook_path, shell) == Ok::<
            Seq<char>,
            VibeFailure,
        >(out),
        spec_trusted_hook_command(hook_path, None, shell) == Ok::<Seq<char>, ConfigError>(command),
        forall|j: int|
            0 <= j < text_lines(out).len() ==> #[trigger] marker_flags(out)[j] == (j
                == text_lines(out).len() - vibe_block_line_count(command) || j == text_lines(
                out,
            ).len() - 1),
    ensures
        toml_hook_names(out) is Some,
        spec_vibe_marker_block_range(out) == Ok::<Option<(int, int)>, ConfigError>(
            Some(
                (
                    text_lines(out).len() - vibe_block_line_count(command),
                    text_lines(out).len() - 1,
                ),
            ),
        ),
        join_lines(
            text_lines(out).subrange(
                text_lines(out).len() - vibe_block_line_count(command) + 1,
                text_lines(out).len() - 1,
            ),
        ) == spec_vibe_block_body(command),
{
    lemma_vibe_built_lines(content, hook_path, shell, out, command);
    lemma_vibe_block_lines(command);
    lemma_vibe_markers();
    let ls = text_lines(out);
    let n = ls.len() as int;
    let c = vibe_block_line_count(command);
    let bl = text_lines(spec_vibe_block_body(command).push('\n'));
    let m = n - c;
    let flags = marker_flags(out);
    assert(flags.len() == n);
    assert(ls[m] == VIBE_CONFIG_BLOCK_BEGIN@);
    assert(ls[n - 1] == VIBE_CONFIG_BLOCK_END@);
    lemma_marker_scan_skip(ls, flags, 0, m, None, None);
    assert(flags[m]);
    assert(marker_scan(ls, flags, m, None, None) == marker_scan(ls, flags, m + 1, Some(m), None));
    lemma_marker_scan_skip(ls, flags, m + 1, n - 1, Some(m), None);
    assert(flags[n - 1]);
    assert(marker_scan(ls, flags, n - 1, Some(m), None) == marker_scan(
        ls,
        flags,
        n,
        None,
        Some((m, n - 1)),
    ));
    assert(ls.subrange(m + 1, n - 1) =~= bl);
}

/// What the user wrote in a Vibe hooks file: the file without its managed block and without
/// its final line endings, ended by one (nothing when nothing is left).
pub open spec fn vibe_user_part_ended(content: Seq<char>) -> Seq<char> {
    let r = trim_newlines_end(spec_remove_vibe_hooks_config_block(content)->Ok_0);
    if r.len() == 0 {
        r
    } else {
        r.push('\n')
    }
}

/// Cutting lines out of a file whose lines end cleanly leaves a file whose lines do too.
proof fn lemma_cut_lines_cleanly(content: Seq<char>, s: int, e: int)
    requires
        lines_end_cleanly(content),
        0 <= s <= e < text_lines(content).len(),
    ensures
        lines_end_cleanly(spec_cut_lines(content, s, e)),
{
    let ls = text_lines(content);
    let kept = ls.subrange(0, s) + ls.subrange(e + 1, ls.len() as int);
    lemma_lines_plain(content);
    assert forall|i: int| 0 <= i < kept.len() implies plain_line(#[trigger] kept[i]) by {
        if i < s {
            assert(kept[i] == ls[i]);
        } else {
            assert(kept[i] == ls[i - s + e + 1]);
        }
    }
    lemma_join_ends_cleanly(kept);
    lemma_tidy_end_cleanly(spec_join_toml_lines(kept, ends_with_char(content, '\n')));
}

/// Cutting the managed block out of the Vibe hooks file that `build_vibe_hooks_config_with_hook`
/// wrote gives back what the user wrote, ended by one line ending, when no carriage return ends
/// a line of the file first given, the TOML parser takes the two marker lines written, and no
/// other line, for comments, and it reads what the user wrote as a document without a hook of
/// the managed name.
pub proof fn law_vibe_remove_after_build(
    content: Seq<char>,
    hook_path: Seq<char>,
    shell: TrustedShell,
    out: Seq<char>,
    command: Seq<char>,
)
    requires
        lines_end_cleanly(content),
        spec_build_vibe_hooks_config_with_hook(content, hook_path, shell) == Ok::<
            Seq<char>,
            VibeFailure,
        >(out),
        spec_trusted_hook_command(hook_path, None, shell) == Ok::<Seq<char>, ConfigError>(command),
        forall|j: int|
            0 <= j < text_lines(out).len() ==> #[trigger] marker_flags(out)[j] == (j
                == text_lines(out).len() - vibe_block_line_count(command) || j == text_lines(
                out,
            ).len() - 1),
        toml_hook_names(vibe_user_part_ended(content)) matches Some(names) && count_named(
            names,
            VIBE_HOOK_NAME@,
        ) == 0,
    ensures
        spec_remove_vibe_hooks_config_block(out) == Ok::<Seq<char>, VibeFailure>(
            vibe_user_part_ended(content),
        ),
{
    lemma_vibe_built_lines(content, hook_path, shell, out, command);
    law_vibe_block_read_back(content, hook_path, shell, out, command);
    lemma_vibe_block_lines(command);
    let unmanaged = spec_remove_vibe_hooks_config_block(content)->Ok_0;
    let r = trim_newlines_end(unmanaged);
    let ls = text_lines(out);
    let n = ls.len() as int;
    let m = n - vibe_block_line_count(command);
    let prefix = ls.subrange(0, m);
    let kept = ls.subrange(0, m) + ls.subrange(n, n);
    assert(kept =~= prefix);
    let cut = spec_cut_lines(out, m, n - 1);
    match spec_vibe_marker_block_range(content) {
        Ok(Some((s, e))) => {
            lemma_marker_scan_range(text_lines(content), marker_flags(content), 0, None, None);
            lemma_cut_lines_cleanly(content, s, e);
        },
        _ => {},
    }
    assert(lines_end_cleanly(unmanaged));
    lemma_trim_newlines_end(unmanaged);
    lemma_trim_newlines_end_cleanly(unmanaged);
    if r.len() == 0 {
        assert(prefix =~= Seq::<Seq<char>>::empty());
        assert(join_lines(prefix) =~= Seq::<char>::empty());
        assert(spec_join_toml_lines(kept, true) =~= seq!['\n']);
        assert(strip_blank_tail(seq!['\n']) == seq!['\n']);
        assert(cut =~= Seq::<char>::empty());
    } else {
        let e = Seq::<char>::empty();
        let lr = text_lines(r.push('\n'));
        assert(prefix =~= lr.push(e));
        assert(r[r.len() - 1] != '\r');
        assert forall|i: int| 0 <= i && i + 1 < r.push('\n').len() && #[trigger] r.push('\n')[i]
            == '\r' implies r.push('\n')[i + 1] != '\n' by {
            assert(r.push('\n')[i] == r[i]);
            assert(r.push('\n')[i + 1] == r[i + 1]);
        }
        law_lines_join_roundtrip(r.push('\n'));
        let jl = join_lines(lr);
        assert(r.push('\n').last() == '\n');
        assert((jl + seq!['\n']).drop_last() =~= jl);
        assert(r.push('\n').drop_last() =~= r);
        assert(jl =~= r);
        lemma_text_lines_nonempty(r.push('\n'));
        assert(prefix.drop_last() =~= lr);
        assert(join_lines(prefix) == join_lines(lr) + seq!['\n'] + e);
        let x = r.push('\n').push('\n');
        assert(spec_join_toml_lines(kept, true) =~= x);
        assert(x.drop_last() =~= r.push('\n'));
        assert(strip_blank_tail(x) == strip_blank_tail(r.push('\n')));
        assert(r.push('\n')[r.push('\n').len() - 2] == r.last());
        assert(strip_blank_tail(r.push('\n')) == r.push('\n'));
        assert(cut == r.push('\n'));
    }
    assert(cut == vibe_user_part_ended(content));
    assert(spec_vibe_marker_block_range(out) == Ok::<Option<(int, int)>, ConfigError>(
        Some((m, n - 1)),
    ));
    assert(toml_hook_names(out) is Some);
}


/// The block found by `marker_scan` runs from a begin marker line to an end marker line.
proof fn lemma_marker_scan_markers(
    ls: Seq<Seq<char>>,
    flags: Seq<bool>,
    i: int,
    open: Option<int>,
    block: Option<(int, int)>,
)
    requires
        open matches Some(s) ==> 0 <= s < ls.len() && trim(ls[s]) == VIBE_CONFIG_BLOCK_BEGIN@,
        block matches Some((s, e)) ==> 0 <= s < ls.len() && 0 <= e < ls.len() && trim(ls[s])
            == VIBE_CONFIG_BLOCK_BEGIN@ && trim(ls[e]) == VIBE_CONFIG_BLOCK_END@,
    ensures
        marker_scan(ls, flags, i, open, block) matches Ok(Some((s, e))) ==> 0 <= s < ls.len() && 0
            <= e < ls.len() && trim(ls[s]) == VIBE_CONFIG_BLOCK_BEGIN@ && trim(ls[e])
            == VIBE_CONFIG_BLOCK_END@,
    decreases ls.len() - i,
{
    if 0 <= i < ls.len() {
        let m = trim(ls[i]);
        if !is_marker(ls[i]) || !flags[i] {
            lemma_marker_scan_markers(ls, flags, i + 1, open, block);
        } else if m == VIBE_CONFIG_BLOCK_BEGIN@ {
            if open is None && block is None {
                lemma_marker_scan_markers(ls, flags, i + 1, Some(i), block);
            }
        } else if let Some(s) = open {
            lemma_marker_scan_markers(ls, flags, i + 1, None, Some((s, i)));
        }
    }
}

/// Cutting the managed block out of a Vibe hooks file keeps every line outside it: what comes
/// back is, but for line endings at its end (of which it keeps at most one), the lines before
/// the begin marker followed by the lines after the end marker. A file without a managed
/// block comes back as it is.
pub proof fn law_remove_vibe_block_keeps_other_lines(content: Seq<char>)
    ensures
        spec_remove_vibe_hooks_config_block(content) matches Ok(r) ==> {
            let ls = text_lines(content);
            match spec_vibe_marker_block_range(content) {
                Ok(Some((s, e))) => {
                    &&& 0 <= s < e < ls.len()
                    &&& trim(ls[s]) == VIBE_CONFIG_BLOCK_BEGIN@
                    &&& trim(ls[e]) == VIBE_CONFIG_BLOCK_END@
                    &&& trim_newlines_end(r) == trim_newlines_end(
                        join_lines(ls.subrange(0, s) + ls.subrange(e + 1, ls.len() as int)),
                    )
                    &&& (trim_newlines_end(r) == r || trim_newlines_end(r).push('\n') == r)
                },
                Ok(None) => r == content,
                Err(_) => false,
            }
        },
{
    let ls = text_lines(content);
    let flags = marker_flags(content);
    lemma_marker_scan_range(ls, flags, 0, None, None);
    lemma_marker_scan_markers(ls, flags, 0, None, None);
    if let Ok(Some((s, e))) = spec_vibe_marker_block_range(content) {
        let kept = ls.subrange(0, s) + ls.subrange(e + 1, ls.len() as int);
        let j = spec_join_toml_lines(kept, ends_with_char(content, '\n'));
        lemma_tidy_end_trim(j);
        lemma_join_toml_lines_trim(kept, ends_with_char(content, '\n'));
    }
}


/// Writing the managed block keeps what the user wrote: the file that comes back starts with
/// the file without its managed block (and without its final line endings), and ends with the
/// managed block written for the trusted hook command.
pub proof fn law_build_vibe_keeps_user_part(content: Seq<char>, hook_path: Seq<char>, shell: TrustedShell)
    ensures
        spec_build_vibe_hooks_config_with_hook(content, hook_path, shell) matches Ok(out) ==> {
            &&& spec_remove_vibe_hooks_config_block(content) is Ok
            &&& spec_trusted_hook_command(hook_path, None, shell) is Ok
            &&& {
                let user = trim_newlines_end(spec_remove_vibe_hooks_config_block(content)->Ok_0);
                let block = spec_vibe_block(spec_trusted_hook_command(hook_path, None, shell)->Ok_0);
                &&& user.len() + block.len() <= out.len()
                &&& out.take(user.len() as int) == user
                &&& out.skip(out.len() - block.len()) == block
            }
        },
{
    if let Ok(out) = spec_build_vibe_hooks_config_with_hook(content, hook_path, shell) {
        let u = spec_remove_vibe_hooks_config_block(content)->Ok_0;
        let r = trim_newlines_end(u);
        let command = spec_trusted_hook_command(hook_path, None, shell)->Ok_0;
        let block = spec_vibe_block(command);
        let head = if r.len() == 0 {
            r
        } else {
            r.push('\n').push('\n')
        };
        assert(out == head + block);
        assert(out.take(r.len() as int) =~= r);
        assert(out.skip(out.len() - block.len()) =~= block);
    }
}

} // verus!
