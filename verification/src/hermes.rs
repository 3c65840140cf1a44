use vstd::prelude::*;

use crate::constants::HERMES_PLUGIN_INSTALL_NAME;
use crate::text::{
    ends_with_char, ends_with_char_str, is_ws, join_lines_ended, lemma_first_index_unique,
    lemma_last_line_nonempty, lemma_lead_ws_unique, lemma_lines_concat, lemma_lines_cons,
    lemma_lines_no_lf, lemma_lines_of_joined_ended, lemma_lines_plain, lemma_lines_push_newline_cr,
    lemma_lines_single, lemma_trail_ws_unique, lemma_trim_newlines_end, lemma_trim_strip_cr,
    lines_end_cleanly, no_lf, no_newline, plain_line, push_char, split_lines, str_eq, strip_cr,
    text_lines, trim, trim_newlines_end, trim_newlines_end_str, trim_start, trim_str,
};
use crate::yaml::{
    comment_start, join_yaml_lines, law_join_yaml_lines_restores_text,
    lemma_flow_sequence_items_no_lf, lemma_key_value_no_lf, lemma_yaml_strip_cr,
    spec_join_yaml_lines, spec_strip_yaml_inline_comment, spec_yaml_flow_sequence_items,
    spec_yaml_indent, spec_yaml_key_at_indent, spec_yaml_key_name, spec_yaml_key_value_at_indent,
    spec_yaml_list_item_matches, spec_yaml_list_item_matches_at_indent, spec_yaml_list_item_value,
    spec_yaml_list_item_value_at_indent, spec_yaml_scalar_value, yaml_flow_sequence_items,
    yaml_indent, yaml_key_at_indent, yaml_key_name, yaml_key_value_at_indent,
    yaml_list_item_matches, yaml_list_item_matches_at_indent, yaml_list_item_value_at_indent,
};

verus! {

/// The line tests that the Hermes edit searches with.
pub enum LineTest {
    /// A top-level `key:` line (no indentation).
    TopLevelKey,
    /// A `enabled:` key indented by two bytes.
    EnabledKey,
    /// A `- item` line indented by two bytes.
    FlatItem,
    /// A key indented by at most two bytes, which closes the `enabled` list.
    ListEnd,
    /// A `- item` line that lists the plugin.
    ListsPlugin,
    /// A `- item` line indented by two bytes that lists the plugin.
    FlatListsPlugin,
}

pub open spec fn line_test_holds(t: LineTest, l: Seq<char>) -> bool {
    match t {
        LineTest::TopLevelKey => spec_yaml_indent(l) == Some(0nat) && spec_yaml_key_name(l) is Some,
        LineTest::EnabledKey => spec_yaml_key_at_indent(l, 2) == Some("enabled"@),
        LineTest::FlatItem => spec_yaml_list_item_value_at_indent(l, 2) is Some,
        LineTest::ListEnd => (spec_yaml_indent(l) matches Some(n) && n <= 2) && spec_yaml_key_name(
            l,
        ) is Some,
        LineTest::ListsPlugin => spec_yaml_list_item_matches(l, HERMES_PLUGIN_INSTALL_NAME@),
        LineTest::FlatListsPlugin => spec_yaml_list_item_matches_at_indent(
            l,
            2,
            HERMES_PLUGIN_INSTALL_NAME@,
        ),
    }
}

/// First index in `[from, to)` whose line passes the test.
pub open spec fn find_line(ls: Seq<Seq<char>>, from: int, to: int, t: LineTest) -> Option<int>
    decreases to - from,
{
    if from >= to {
        None
    } else if line_test_holds(t, ls[from]) {
        Some(from)
    } else {
        find_line(ls, from + 1, to, t)
    }
}

/// First index of a top-level line whose key is `key`.
pub open spec fn find_top_level_key(ls: Seq<Seq<char>>, from: int, key: Seq<char>) -> Option<int>
    decreases ls.len() - from,
{
    if from >= ls.len() {
        None
    } else if spec_yaml_key_at_indent(ls[from], 0) == Some(key) {
        Some(from)
    } else {
        find_top_level_key(ls, from + 1, key)
    }
}

/// First index of `value` in `items`.
pub open spec fn find_item(items: Seq<Seq<char>>, from: int, value: Seq<char>) -> Option<int>
    decreases items.len() - from,
{
    if from >= items.len() {
        None
    } else if items[from] == value {
        Some(from)
    } else {
        find_item(items, from + 1, value)
    }
}

/// The lines that replace a `plugins` section whose value was an inline list.
pub open spec fn spec_hermes_flat_plugin_lines(items: Seq<Seq<char>>) -> Seq<Seq<char>> {
    if items.len() == 0 {
        seq!["plugins: []"@]
    } else {
        seq!["plugins:"@] + items.map_values(|item: Seq<char>| "  - "@ + item)
    }
}

/// `ls` with `[a, b)` replaced by `repl`.
pub open spec fn splice(ls: Seq<Seq<char>>, a: int, b: int, repl: Seq<Seq<char>>) -> Seq<Seq<char>> {
    ls.subrange(0, a) + repl + ls.subrange(b, ls.len() as int)
}

/// The edit of an `enabled:` list that starts at line `ei` of the `plugins` section ending at `end`.
pub open spec fn spec_edit_enabled_list(
    content: Seq<char>,
    ls: Seq<Seq<char>>,
    ei: int,
    end: int,
    enabled: bool,
) -> Seq<char> {
    let trailing = ends_with_char(content, '\n');
    let line = trim(ls[ei]);
    if line == "enabled: []"@ || line == "enabled: [] # herdr"@ {
        if enabled {
            spec_join_yaml_lines(
                ls.update(ei, "  enabled:"@).insert(ei + 1, "    - herdr-agent-state"@),
                trailing,
            )
        } else {
            spec_join_yaml_lines(ls, trailing)
        }
    } else {
        let list_start = ei + 1;
        let list_end = match find_line(ls, list_start, end, LineTest::ListEnd) {
            Some(x) => x,
            None => end,
        };
        match (enabled, find_line(ls, list_start, list_end, LineTest::ListsPlugin)) {
            (true, Some(_)) => content,
            (false, None) => content,
            (true, None) => spec_join_yaml_lines(
                ls.insert(list_start, "    - herdr-agent-state"@),
                trailing,
            ),
            (false, Some(i)) => spec_join_yaml_lines(ls.remove(i), trailing),
        }
    }
}

/// The edit of a `plugins: [...]` line at `p`, whose section ends at `end`.
pub open spec fn spec_edit_inline_list(
    content: Seq<char>,
    ls: Seq<Seq<char>>,
    p: int,
    end: int,
    items: Seq<Seq<char>>,
    enabled: bool,
) -> Seq<char> {
    let trailing = ends_with_char(content, '\n');
    let name = HERMES_PLUGIN_INSTALL_NAME@;
    match (enabled, find_item(items, 0, name)) {
        (true, Some(_)) => content,
        (false, None) => content,
        (true, None) => spec_join_yaml_lines(
            splice(ls, p, end, spec_hermes_flat_plugin_lines(items.insert(0, name))),
            trailing,
        ),
        (false, Some(i)) => spec_join_yaml_lines(
            splice(ls, p, end, spec_hermes_flat_plugin_lines(items.remove(i))),
            trailing,
        ),
    }
}

/// The edit of a `- item` list written directly under `plugins:` (line `p`), whose first item
/// is at `fs` and whose section ends at `end`.
pub open spec fn spec_edit_flat_list(
    content: Seq<char>,
    ls: Seq<Seq<char>>,
    p: int,
    fs: int,
    end: int,
    enabled: bool,
) -> Seq<char> {
    let trailing = ends_with_char(content, '\n');
    match (enabled, find_line(ls, p + 1, end, LineTest::FlatListsPlugin)) {
        (true, Some(_)) => content,
        (false, None) => content,
        (true, None) => spec_join_yaml_lines(ls.insert(fs, "  - herdr-agent-state"@), trailing),
        (false, Some(i)) => spec_join_yaml_lines(ls.remove(i), trailing),
    }
}

/// The edit of a configuration whose `plugins` key is at line `p`.
pub open spec fn spec_edit_plugins_section(
    content: Seq<char>,
    ls: Seq<Seq<char>>,
    p: int,
    enabled: bool,
) -> Seq<char> {
    let trailing = ends_with_char(content, '\n');
    let end = match find_line(ls, p + 1, ls.len() as int, LineTest::TopLevelKey) {
        Some(e) => e,
        None => ls.len() as int,
    };
    let inline = match spec_yaml_key_value_at_indent(ls[p], 0, "plugins"@) {
        Some(v) => spec_yaml_flow_sequence_items(v),
        None => None,
    };
    if let Some(ei) = find_line(ls, p + 1, end, LineTest::EnabledKey) {
        spec_edit_enabled_list(content, ls, ei, end, enabled)
    } else if let Some(items) = inline {
        spec_edit_inline_list(content, ls, p, end, items, enabled)
    } else if let Some(fs) = find_line(ls, p + 1, end, LineTest::FlatItem) {
        spec_edit_flat_list(content, ls, p, fs, end, enabled)
    } else if enabled {
        spec_join_yaml_lines(
            ls.insert(p + 1, "  enabled:"@).insert(p + 2, "    - herdr-agent-state"@),
            trailing,
        )
    } else {
        content
    }
}

/// What the Hermes configuration becomes when the plugin is enabled (`enabled`) or no longer
/// enabled (`!enabled`).
pub open spec fn spec_update_hermes_enabled_plugin(content: Seq<char>, enabled: bool) -> Seq<char> {
    let ls = text_lines(content);
    match find_top_level_key(ls, 0, "plugins"@) {
        None => if !enabled {
            content
        } else {
            let r = trim_newlines_end(content);
            (if r.len() == 0 {
                r
            } else {
                r.push('\n')
            }) + "plugins:\n  enabled:\n    - herdr-agent-state\n"@
        },
        Some(p) => spec_edit_plugins_section(content, ls, p, enabled),
    }
}

fn line_test(t: &LineTest, l: &str) -> (res: bool)
    ensures
        res == line_test_holds(*t, l@),
{
    match t {
        LineTest::TopLevelKey => {
            let indent = yaml_indent(l);
            match indent {
                Some(n) => n == 0 && yaml_key_name(l).is_some(),
                None => false,
            }
        },
        LineTest::EnabledKey => match yaml_key_at_indent(l, 2) {
            Some(k) => str_eq(k, "enabled"),
            None => false,
        },
        LineTest::FlatItem => yaml_list_item_value_at_indent(l, 2).is_some(),
        LineTest::ListEnd => {
            let indent = yaml_indent(l);
            match indent {
                Some(n) => n <= 2 && yaml_key_name(l).is_some(),
                None => false,
            }
        },
        LineTest::ListsPlugin => yaml_list_item_matches(l, HERMES_PLUGIN_INSTALL_NAME),
        LineTest::FlatListsPlugin => yaml_list_item_matches_at_indent(
            l,
            2,
            HERMES_PLUGIN_INSTALL_NAME,
        ),
    }
}

/// First index in `[from, to)` whose line passes the test.
fn find_line_exec(lines: &Vec<String>, from: usize, to: usize, t: LineTest) -> (res: Option<usize>)
    requires
        from <= to <= lines.len(),
    ensures
        res matches Some(i) ==> find_line(lines.deep_view(), from as int, to as int, t) == Some(
            i as int,
        ),
        res is None ==> find_line(lines.deep_view(), from as int, to as int, t) is None,
{
    let ghost dv = lines.deep_view();
    let mut i = from;
    while i < to
        invariant
            dv == lines.deep_view(),
            from <= i <= to <= lines.len(),
            find_line(dv, from as int, to as int, t) == find_line(dv, i as int, to as int, t),
        decreases to - i,
    {
        if line_test(&t, lines[i].as_str()) {
            return Some(i);
        }
        i += 1;
    }
    None
}

/// Index of the first top-level line whose key is `key`.
pub fn top_level_yaml_key_index(lines: &[String], key: &str) -> (res: Option<usize>)
    ensures
        res matches Some(i) ==> find_top_level_key(lines.deep_view(), 0, key@) == Some(i as int),
        res is None ==> find_top_level_key(lines.deep_view(), 0, key@) is None,
{
    let ghost dv = lines.deep_view();
    let mut i: usize = 0;
    while i < lines.len()
        invariant
            dv == lines.deep_view(),
            i <= lines.len(),
            find_top_level_key(dv, 0, key@) == find_top_level_key(dv, i as int, key@),
        decreases lines.len() - i,
    {
        let found = match yaml_key_at_indent(lines[i].as_str(), 0) {
            Some(k) => str_eq(k, key),
            None => false,
        };
        if found {
            return Some(i);
        }
        i += 1;
    }
    None
}

/// Index of the first top-level key line at or after `start`.
pub fn next_top_level_yaml_key_index(lines: &[String], start: usize) -> (res: Option<usize>)
    requires
        start <= lines.len(),
    ensures
        res matches Some(i) ==> find_line(
            lines.deep_view(),
            start as int,
            lines.len() as int,
            LineTest::TopLevelKey,
        ) == Some(i as int),
        res is None ==> find_line(
            lines.deep_view(),
            start as int,
            lines.len() as int,
            LineTest::TopLevelKey,
        ) is None,
{
    let ghost dv = lines.deep_view();
    let mut i = start;
    while i < lines.len()
        invariant
            dv == lines.deep_view(),
            start <= i <= lines.len(),
            find_line(dv, start as int, lines.len() as int, LineTest::TopLevelKey) == find_line(
                dv,
                i as int,
                lines.len() as int,
                LineTest::TopLevelKey,
            ),
        decreases lines.len() - i,
    {
        if line_test(&LineTest::TopLevelKey, lines[i].as_str()) {
            return Some(i);
        }
        i += 1;
    }
    None
}

/// The lines of a `plugins` section written as a block list of `items`.
pub fn hermes_flat_plugin_lines(items: &[String]) -> (res: Vec<String>)
    ensures
        res.deep_view() == spec_hermes_flat_plugin_lines(items.deep_view()),
{
    if items.len() == 0 {
        let mut v: Vec<String> = Vec::new();
        v.push(String::from_str("plugins: []"));
        proof {
            assert(v.deep_view() =~= seq!["plugins: []"@]);
        }
        return v;
    }
    let ghost dv = items.deep_view();
    let mut lines: Vec<String> = Vec::new();
    lines.push(String::from_str("plugins:"));
    let mut i: usize = 0;
    proof {
        assert(lines.deep_view() =~= seq!["plugins:"@] + dv.take(0).map_values(
            |item: Seq<char>| "  - "@ + item,
        ));
    }
    while i < items.len()
        invariant
            dv == items.deep_view(),
            i <= items.len(),
            lines.deep_view() == seq!["plugins:"@] + dv.take(i as int).map_values(
                |item: Seq<char>| "  - "@ + item,
            ),
        decreases items.len() - i,
    {
        let mut line = String::from_str("  - ");
        line.append(items[i].as_str());
        let ghost old_lines = lines.deep_view();
        lines.push(line);
        proof {
            assert(lines.deep_view() =~= old_lines.push(line@));
            assert(dv.take(i + 1).map_values(|item: Seq<char>| "  - "@ + item) =~= dv.take(
                i as int,
            ).map_values(|item: Seq<char>| "  - "@ + item).push("  - "@ + dv[i as int]));
        }
        i += 1;
    }
    proof {
        assert(dv.take(items.len() as int) =~= dv);
    }
    lines
}

/// Enables the plugin in a Hermes configuration.
pub fn ensure_hermes_plugin_enabled(content: &str) -> (res: String)
    ensures
        res@ == spec_update_hermes_enabled_plugin(content@, true),
{
    update_hermes_enabled_plugin(content, true)
}

/// Stops enabling the plugin in a Hermes configuration.
pub fn remove_hermes_plugin_enabled(content: &str) -> (res: String)
    ensures
        res@ == spec_update_hermes_enabled_plugin(content@, false),
{
    update_hermes_enabled_plugin(content, false)
}

/// Position of the first `value` among `items`.
fn find_item_exec(items: &Vec<String>, value: &str) -> (res: Option<usize>)
    ensures
        res matches Some(i) ==> find_item(items.deep_view(), 0, value@) == Some(i as int),
        res is None ==> find_item(items.deep_view(), 0, value@) is None,
{
    let ghost dv = items.deep_view();
    let mut i: usize = 0;
    while i < items.len()
        invariant
            dv == items.deep_view(),
            i <= items.len(),
            find_item(dv, 0, value@) == find_item(dv, i as int, value@),
        decreases items.len() - i,
    {
        if str_eq(items[i].as_str(), value) {
            return Some(i);
        }
        i += 1;
    }
    None
}

proof fn lemma_deep_view_insert(v: Seq<String>, i: int, x: String)
    requires
        0 <= i <= v.len(),
    ensures
        Seq::new(v.insert(i, x).len(), |j: int| v.insert(i, x)[j].deep_view()) == Seq::new(
            v.len(),
            |j: int| v[j].deep_view(),
        ).insert(i, x.deep_view()),
{
    assert(Seq::new(v.insert(i, x).len(), |j: int| v.insert(i, x)[j].deep_view()) =~= Seq::new(
        v.len(),
        |j: int| v[j].deep_view(),
    ).insert(i, x.deep_view()));
}

proof fn lemma_deep_view_remove(v: Seq<String>, i: int)
    requires
        0 <= i < v.len(),
    ensures
        Seq::new(v.remove(i).len(), |j: int| v.remove(i)[j].deep_view()) == Seq::new(
            v.len(),
            |j: int| v[j].deep_view(),
        ).remove(i),
{
    assert(Seq::new(v.remove(i).len(), |j: int| v.remove(i)[j].deep_view()) =~= Seq::new(
        v.len(),
        |j: int| v[j].deep_view(),
    ).remove(i));
}

/// `lines` with `[a, b)` replaced by `repl`.
fn splice_lines(lines: Vec<String>, a: usize, b: usize, repl: Vec<String>) -> (res: Vec<String>)
    requires
        a <= b <= lines.len(),
    ensures
        res.deep_view() == splice(lines.deep_view(), a as int, b as int, repl.deep_view()),
{
    let ghost dv = lines.deep_view();
    let ghost rv = repl.deep_view();
    let mut lines = lines;
    let mut tail = lines.split_off(b);
    lines.truncate(a);
    let mut repl = repl;
    lines.append(&mut repl);
    lines.append(&mut tail);
    proof {
        assert(lines.deep_view() =~= splice(dv, a as int, b as int, rv));
    }
    lines
}

fn edit_enabled_list(
    content: &str,
    lines: Vec<String>,
    enabled_index: usize,
    plugins_end: usize,
    enabled: bool,
) -> (res: String)
    requires
        lines.deep_view() == text_lines(content@),
        enabled_index < plugins_end <= lines.len(),
    ensures
        res@ == spec_edit_enabled_list(
            content@,
            text_lines(content@),
            enabled_index as int,
            plugins_end as int,
            enabled,
        ),
{
    let ghost ls = lines.deep_view();
    let mut lines = lines;
    let trailing_newline = ends_with_char_str(content, '\n');
    let is_empty_list = {
        let line = trim_str(lines[enabled_index].as_str());
        str_eq(line, "enabled: []") || str_eq(line, "enabled: [] # herdr")
    };
    if is_empty_list {
        if enabled {
            let ghost before = lines@;
            lines.set(enabled_index, String::from_str("  enabled:"));
            let ghost mid = lines@;
            lines.insert(enabled_index + 1, String::from_str("    - herdr-agent-state"));
            proof {
                assert(Seq::new(mid.len(), |j: int| mid[j].deep_view()) =~= ls.update(
                    enabled_index as int,
                    "  enabled:"@,
                ));
                lemma_deep_view_insert(mid, enabled_index + 1, lines@[enabled_index + 1]);
            }
        }
        return join_yaml_lines(lines, trailing_newline);
    }
    let list_start = enabled_index + 1;
    let list_end = match find_line_exec(&lines, list_start, plugins_end, LineTest::ListEnd) {
        Some(x) => x,
        None => plugins_end,
    };
    proof {
        lemma_find_line_bounds(ls, list_start as int, plugins_end as int, LineTest::ListEnd);
    }
    let existing_item_index = find_line_exec(&lines, list_start, list_end, LineTest::ListsPlugin);
    proof {
        lemma_find_line_bounds(ls, list_start as int, list_end as int, LineTest::ListsPlugin);
    }
    match (enabled, existing_item_index) {
        (true, Some(_)) => {
            return String::from_str(content);
        },
        (false, None) => {
            return String::from_str(content);
        },
        (true, None) => {
            let ghost before = lines@;
            lines.insert(list_start, String::from_str("    - herdr-agent-state"));
            proof {
                lemma_deep_view_insert(before, list_start as int, lines@[list_start as int]);
            }
        },
        (false, Some(index)) => {
            let ghost before = lines@;
            lines.remove(index);
            proof {
                lemma_deep_view_remove(before, index as int);
            }
        },
    }
    join_yaml_lines(lines, trailing_newline)
}

fn edit_inline_list(
    content: &str,
    lines: Vec<String>,
    plugins_index: usize,
    plugins_end: usize,
    items: Vec<String>,
    enabled: bool,
) -> (res: String)
    requires
        lines.deep_view() == text_lines(content@),
        plugins_index < plugins_end <= lines.len(),
    ensures
        res@ == spec_edit_inline_list(
            content@,
            text_lines(content@),
            plugins_index as int,
            plugins_end as int,
            items.deep_view(),
            enabled,
        ),
{
    let trailing_newline = ends_with_char_str(content, '\n');
    let ghost iv = items.deep_view();
    let mut items = items;
    let existing_item_index = find_item_exec(&items, HERMES_PLUGIN_INSTALL_NAME);
    proof {
        lemma_find_item_bounds(iv, 0, HERMES_PLUGIN_INSTALL_NAME@);
    }
    match (enabled, existing_item_index) {
        (true, Some(_)) => {
            return String::from_str(content);
        },
        (false, None) => {
            return String::from_str(content);
        },
        (true, None) => {
            let ghost before = items@;
            items.insert(0, String::from_str(HERMES_PLUGIN_INSTALL_NAME));
            proof {
                lemma_deep_view_insert(before, 0, items@[0]);
            }
        },
        (false, Some(index)) => {
            let ghost before = items@;
            items.remove(index);
            proof {
                lemma_deep_view_remove(before, index as int);
            }
        },
    }
    let replacement = hermes_flat_plugin_lines(items.as_slice());
    let lines = splice_lines(lines, plugins_index, plugins_end, replacement);
    join_yaml_lines(lines, trailing_newline)
}

fn edit_flat_list(
    content: &str,
    lines: Vec<String>,
    plugins_index: usize,
    flat_list_start: usize,
    plugins_end: usize,
    enabled: bool,
) -> (res: String)
    requires
        lines.deep_view() == text_lines(content@),
        plugins_index < flat_list_start < plugins_end <= lines.len(),
    ensures
        res@ == spec_edit_flat_list(
            content@,
            text_lines(content@),
            plugins_index as int,
            flat_list_start as int,
            plugins_end as int,
            enabled,
        ),
{
    let ghost ls = lines.deep_view();
    let mut lines = lines;
    let trailing_newline = ends_with_char_str(content, '\n');
    let existing_item_index = find_line_exec(
        &lines,
        plugins_index + 1,
        plugins_end,
        LineTest::FlatListsPlugin,
    );
    proof {
        lemma_find_line_bounds(ls, plugins_index + 1, plugins_end as int, LineTest::FlatListsPlugin);
    }
    match (enabled, existing_item_index) {
        (true, Some(_)) => {
            return String::from_str(content);
        },
        (false, None) => {
            return String::from_str(content);
        },
        (true, None) => {
            let ghost before = lines@;
            lines.insert(flat_list_start, String::from_str("  - herdr-agent-state"));
            proof {
                lemma_deep_view_insert(before, flat_list_start as int, lines@[flat_list_start as int]);
            }
        },
        (false, Some(index)) => {
            let ghost before = lines@;
            lines.remove(index);
            proof {
                lemma_deep_view_remove(before, index as int);
            }
        },
    }
    join_yaml_lines(lines, trailing_newline)
}

fn edit_plugins_section(content: &str, lines: Vec<String>, plugins_index: usize, enabled: bool) -> (res:
    String)
    requires
        lines.deep_view() == text_lines(content@),
        plugins_index < lines.len(),
    ensures
        res@ == spec_edit_plugins_section(content@, text_lines(content@), plugins_index as int, enabled),
{
    let ghost ls = lines.deep_view();
    let mut lines = lines;
    let trailing_newline = ends_with_char_str(content, '\n');
    let n = lines.len();
    let plugins_end = match next_top_level_yaml_key_index(lines.as_slice(), plugins_index + 1) {
        Some(e) => e,
        None => n,
    };
    proof {
        lemma_find_line_bounds(ls, plugins_index + 1, n as int, LineTest::TopLevelKey);
    }
    let plugins_inline_items = match yaml_key_value_at_indent(
        lines[plugins_index].as_str(),
        0,
        "plugins",
    ) {
        Some(v) => yaml_flow_sequence_items(v),
        None => None,
    };
    let enabled_index = find_line_exec(&lines, plugins_index + 1, plugins_end, LineTest::EnabledKey);
    let flat_list_start = find_line_exec(&lines, plugins_index + 1, plugins_end, LineTest::FlatItem);
    proof {
        lemma_find_line_bounds(ls, plugins_index + 1, plugins_end as int, LineTest::EnabledKey);
        lemma_find_line_bounds(ls, plugins_index + 1, plugins_end as int, LineTest::FlatItem);
    }
    if let Some(enabled_index) = enabled_index {
        return edit_enabled_list(content, lines, enabled_index, plugins_end, enabled);
    }
    if let Some(items) = plugins_inline_items {
        return edit_inline_list(content, lines, plugins_index, plugins_end, items, enabled);
    }
    if let Some(flat_list_start) = flat_list_start {
        return edit_flat_list(content, lines, plugins_index, flat_list_start, plugins_end, enabled);
    }
    if enabled {
        let ghost before = lines@;
        lines.insert(plugins_index + 1, String::from_str("  enabled:"));
        let ghost mid = lines@;
        assert(lines.len() == n + 1);
        lines.insert(plugins_index + 2, String::from_str("    - herdr-agent-state"));
        proof {
            lemma_deep_view_insert(before, plugins_index + 1, mid[plugins_index + 1]);
            lemma_deep_view_insert(mid, plugins_index + 2, lines@[plugins_index + 2]);
        }
        return join_yaml_lines(lines, trailing_newline);
    }
    String::from_str(content)
}

/// Adds the plugin to (`enabled`) or removes it from (`!enabled`) the enabled plugins of a
/// Hermes configuration, leaving every other line as it was.
pub fn update_hermes_enabled_plugin(content: &str, enabled: bool) -> (res: String)
    ensures
        res@ == spec_update_hermes_enabled_plugin(content@, enabled),
{
    let lines = split_lines(content);
    let ghost ls = lines.deep_view();
    let plugins_index = match top_level_yaml_key_index(lines.as_slice(), "plugins") {
        Some(i) => i,
        None => {
            if !enabled {
                return String::from_str(content);
            }
            let mut result = String::from_str(trim_newlines_end_str(content));
            if !result.as_str().is_empty() {
                push_char(&mut result, '\n');
            }
            result.append("plugins:\n  enabled:\n    - herdr-agent-state\n");
            return result;
        },
    };
    proof {
        lemma_find_top_level_key_bounds(ls, 0, "plugins"@);
    }
    edit_plugins_section(content, lines, plugins_index, enabled)
}

proof fn lemma_find_line_bounds(ls: Seq<Seq<char>>, from: int, to: int, t: LineTest)
    ensures
        find_line(ls, from, to, t) matches Some(i) ==> from <= i < to && line_test_holds(t, ls[i]),
    decreases to - from,
{
    if from < to && !line_test_holds(t, ls[from]) {
        lemma_find_line_bounds(ls, from + 1, to, t);
    }
}

proof fn lemma_find_top_level_key_bounds(ls: Seq<Seq<char>>, from: int, key: Seq<char>)
    ensures
        find_top_level_key(ls, from, key) matches Some(i) ==> from <= i < ls.len(),
    decreases ls.len() - from,
{
    if from < ls.len() && spec_yaml_key_at_indent(ls[from], 0) != Some(key) {
        lemma_find_top_level_key_bounds(ls, from + 1, key);
    }
}

proof fn lemma_find_item_bounds(items: Seq<Seq<char>>, from: int, value: Seq<char>)
    ensures
        find_item(items, from, value) matches Some(i) ==> from <= i < items.len(),
    decreases items.len() - from,
{
    if from < items.len() && items[from] != value {
        lemma_find_item_bounds(items, from + 1, value);
    }
}

/// Each character below `0x80` is one byte in UTF-8.
proof fn lemma_encode_ascii_len(s: Seq<char>)
    requires
        forall|i: int| 0 <= i < s.len() ==> (#[trigger] s[i] as u32) < 0x80,
    ensures
        vstd::utf8::encode_utf8(s).len() == s.len(),
    decreases s.len(),
{
    if s.len() > 0 {
        assert forall|i: int| 0 <= i < s.drop_first().len() implies (#[trigger] s.drop_first()[i]
            as u32) < 0x80 by {
            assert(s.drop_first()[i] == s[i + 1]);
        }
        lemma_encode_ascii_len(s.drop_first());
        assert((s[0] as u32) < 0x80);
    }
}

/// A line indented by `k` spaces before a character that is neither whitespace nor `#`.
proof fn lemma_yaml_spaced_line(line: Seq<char>, k: int)
    requires
        0 <= k < line.len(),
        forall|i: int| 0 <= i < k ==> #[trigger] line[i] == ' ',
        !is_ws(line[k]),
        line[k] != '#',
    ensures
        trim_start(line) == line.skip(k),
        spec_yaml_indent(line) == Some(k as nat),
{
    assert forall|i: int| 0 <= i < k implies is_ws(#[trigger] line[i]) by {
        assert(line[i] == ' ');
    }
    lemma_lead_ws_unique(line, k);
    assert forall|i: int| 0 <= i < line.take(k).len() implies (#[trigger] line.take(k)[i] as u32)
        < 0x80 by {
        assert(line.take(k)[i] == line[i]);
    }
    lemma_encode_ascii_len(line.take(k));
    assert(trim_start(line)[0] == line[k]);
}

/// A text that starts and ends with characters other than whitespace is its own trim.
proof fn lemma_trim_plain(s: Seq<char>)
    requires
        s.len() > 0,
        !is_ws(s[0]),
        !is_ws(s[s.len() - 1]),
    ensures
        trim(s) == s,
        trim_start(s) == s,
{
    lemma_lead_ws_unique(s, 0);
    assert(trim_start(s) =~= s);
    lemma_trail_ws_unique(s, s.len() as int);
    assert(trim(s) =~= s);
}

/// Without quotes or `#`, no comment starts.
proof fn lemma_comment_start_plain(v: Seq<char>, i: int, escaped: bool)
    requires
        0 <= i,
        forall|j: int| i <= j < v.len() ==> #[trigger] v[j] != '"' && v[j] != '\'' && v[j] != '#',
    ensures
        comment_start(v, i, None, escaped) is None,
    decreases v.len() - i,
{
    if i < v.len() {
        lemma_comment_start_plain(v, i + 1, escaped);
    }
}

/// The plugin's name read back as a scalar.
proof fn lemma_plugin_name_scalar()
    ensures
        spec_yaml_scalar_value(HERMES_PLUGIN_INSTALL_NAME@) == HERMES_PLUGIN_INSTALL_NAME@,
        HERMES_PLUGIN_INSTALL_NAME@.len() > 0,
        !is_ws(HERMES_PLUGIN_INSTALL_NAME@[0]),
        !is_ws(HERMES_PLUGIN_INSTALL_NAME@.last()),
        no_newline(HERMES_PLUGIN_INSTALL_NAME@),
{
    reveal_strlit("herdr-agent-state");
    let n = HERMES_PLUGIN_INSTALL_NAME@;
    lemma_comment_start_plain(n, 0, false);
    assert(spec_strip_yaml_inline_comment(n) == n);
    lemma_trim_plain(n);
}

/// A `- item` line for the plugin, indented by `k` spaces.
proof fn lemma_plugin_item_line(line: Seq<char>, k: int)
    requires
        k == 2 || k == 4,
        line == (if k == 2 {
            "  - herdr-agent-state"@
        } else {
            "    - herdr-agent-state"@
        }),
    ensures
        spec_yaml_indent(line) == Some(k as nat),
        spec_yaml_key_name(line) is None,
        spec_yaml_list_item_value(line) == Some(HERMES_PLUGIN_INSTALL_NAME@),
        spec_yaml_list_item_matches(line, HERMES_PLUGIN_INSTALL_NAME@),
        no_newline(line),
        line.len() > 0,
{
    reveal_strlit("  - herdr-agent-state");
    reveal_strlit("    - herdr-agent-state");
    reveal_strlit("herdr-agent-state");
    lemma_plugin_name_scalar();
    lemma_yaml_spaced_line(line, k);
    let t = line.skip(k);
    lemma_trail_ws_unique(line, line.len() as int);
    assert(trim(line) =~= t);
    assert(t.take(2) =~= seq!['-', ' ']);
    assert(t.skip(2) =~= HERMES_PLUGIN_INSTALL_NAME@);
    assert(spec_yaml_list_item_value(line) == Some(HERMES_PLUGIN_INSTALL_NAME@));
    assert(spec_yaml_scalar_value(HERMES_PLUGIN_INSTALL_NAME@) == HERMES_PLUGIN_INSTALL_NAME@);
}

/// The lines `plugins:` and `  enabled:` as the scan reads them.
proof fn lemma_plugins_and_enabled_lines()
    ensures
        spec_yaml_indent("plugins:"@) == Some(0nat),
        spec_yaml_key_name("plugins:"@) == Some("plugins"@),
        spec_yaml_key_at_indent("plugins:"@, 0) == Some("plugins"@),
        spec_yaml_key_value_at_indent("plugins:"@, 0, "plugins"@) == Some(Seq::<char>::empty()),
        spec_yaml_flow_sequence_items(Seq::<char>::empty()) is None,
        no_newline("plugins:"@),
        spec_yaml_indent("  enabled:"@) == Some(2nat),
        spec_yaml_key_at_indent("  enabled:"@, 2) == Some("enabled"@),
        trim("  enabled:"@) != "enabled: []"@,
        trim("  enabled:"@) != "enabled: [] # herdr"@,
        no_newline("  enabled:"@),
{
    reveal_strlit("plugins:");
    reveal_strlit("plugins");
    reveal_strlit("  enabled:");
    reveal_strlit("enabled");
    reveal_strlit("enabled: []");
    reveal_strlit("enabled: [] # herdr");
    let pl = "plugins:"@;
    lemma_yaml_spaced_line(pl, 0);
    assert(pl.skip(0) =~= pl);
    lemma_first_index_unique(pl, ':', 7);
    assert(pl.take(7) =~= "plugins"@);
    lemma_trim_plain("plugins"@);
    assert(pl.skip(8) =~= Seq::<char>::empty());
    let e = Seq::<char>::empty();
    lemma_lead_ws_unique(e, 0);
    lemma_trail_ws_unique(e, 0);
    assert(trim(e) =~= e);
    assert(comment_start(e, 0, None, false) is None);
    let en = "  enabled:"@;
    lemma_yaml_spaced_line(en, 2);
    let t = en.skip(2);
    lemma_first_index_unique(t, ':', 7);
    assert(t.take(7) =~= "enabled"@);
    lemma_trim_plain("enabled"@);
    lemma_trail_ws_unique(en, en.len() as int);
    assert(trim(en) =~= t);
    assert(t.len() == 8);
}

/// `find_line` gives the first line in the range that passes the test.
proof fn lemma_find_line_spec(ls: Seq<Seq<char>>, from: int, to: int, t: LineTest)
    ensures
        find_line(ls, from, to, t) matches Some(r) ==> from <= r < to && line_test_holds(t, ls[r])
            && forall|j: int| from <= j < r ==> !line_test_holds(t, #[trigger] ls[j]),
        find_line(ls, from, to, t) is None ==> forall|j: int|
            from <= j < to ==> !line_test_holds(t, #[trigger] ls[j]),
    decreases to - from,
{
    if from < to && !line_test_holds(t, ls[from]) {
        lemma_find_line_spec(ls, from + 1, to, t);
    }
}

/// The first line in the range that passes the test is what `find_line` gives.
proof fn lemma_find_line_at(ls: Seq<Seq<char>>, from: int, to: int, t: LineTest, r: int)
    requires
        from <= r < to,
        line_test_holds(t, ls[r]),
        forall|j: int| from <= j < r ==> !line_test_holds(t, #[trigger] ls[j]),
    ensures
        find_line(ls, from, to, t) == Some(r),
{
    lemma_find_line_spec(ls, from, to, t);
    match find_line(ls, from, to, t) {
        Some(q) => {
            if q < r {
                assert(!line_test_holds(t, ls[q]));
            } else if r < q {
                assert(!line_test_holds(t, ls[r]));
            }
        },
        None => {
            assert(!line_test_holds(t, ls[r]));
        },
    }
}

/// `find_top_level_key` gives the first top-level line with the key.
proof fn lemma_find_top_level_key_spec(ls: Seq<Seq<char>>, from: int, key: Seq<char>)
    requires
        0 <= from,
    ensures
        find_top_level_key(ls, from, key) matches Some(r) ==> from <= r < ls.len()
            && spec_yaml_key_at_indent(ls[r], 0) == Some(key) && forall|j: int|
            from <= j < r ==> spec_yaml_key_at_indent(#[trigger] ls[j], 0) != Some(key),
        find_top_level_key(ls, from, key) is None ==> forall|j: int|
            from <= j < ls.len() ==> spec_yaml_key_at_indent(#[trigger] ls[j], 0) != Some(key),
    decreases ls.len() - from,
{
    if from < ls.len() && spec_yaml_key_at_indent(ls[from], 0) != Some(key) {
        lemma_find_top_level_key_spec(ls, from + 1, key);
    }
}

/// The first top-level line with the key is what `find_top_level_key` gives.
proof fn lemma_find_top_level_key_at(ls: Seq<Seq<char>>, key: Seq<char>, r: int)
    requires
        0 <= r < ls.len(),
        spec_yaml_key_at_indent(ls[r], 0) == Some(key),
        forall|j: int| 0 <= j < r ==> spec_yaml_key_at_indent(#[trigger] ls[j], 0) != Some(key),
    ensures
        find_top_level_key(ls, 0, key) == Some(r),
{
    lemma_find_top_level_key_spec(ls, 0, key);
    match find_top_level_key(ls, 0, key) {
        Some(q) => {
            if q < r {
                assert(spec_yaml_key_at_indent(ls[q], 0) != Some(key));
            } else if r < q {
                assert(spec_yaml_key_at_indent(ls[r], 0) != Some(key));
            }
        },
        None => {
            assert(spec_yaml_key_at_indent(ls[r], 0) != Some(key));
        },
    }
}

/// A `- item` line indented by two spaces: no key, no top-level line.
proof fn lemma_item_line(item: Seq<char>)
    ensures
        !line_test_holds(LineTest::TopLevelKey, "  - "@ + item),
        !line_test_holds(LineTest::EnabledKey, "  - "@ + item),
        spec_yaml_key_at_indent("  - "@ + item, 0) is None,
        no_lf(item) ==> no_lf("  - "@ + item),
{
    reveal_strlit("  - ");
    let l = "  - "@ + item;
    assert(l[0] == ' ' && l[1] == ' ' && l[2] == '-');
    lemma_yaml_spaced_line(l, 2);
    assert(trim_start(l)[0] == '-');
    if no_lf(item) {
        assert forall|i: int| 0 <= i < l.len() implies #[trigger] l[i] != '\n' by {
            if i >= 4 {
                assert(l[i] == item[i - 4]);
            }
        }
    }
}

/// How the line tests read the lines that enabling the plugin writes.
proof fn lemma_written_line_tests()
    ensures
        line_test_holds(LineTest::TopLevelKey, "plugins:"@),
        line_test_holds(LineTest::EnabledKey, "  enabled:"@),
        !line_test_holds(LineTest::TopLevelKey, "  enabled:"@),
        spec_yaml_key_at_indent("  enabled:"@, 0) is None,
        line_test_holds(LineTest::ListsPlugin, "    - herdr-agent-state"@),
        !line_test_holds(LineTest::ListEnd, "    - herdr-agent-state"@),
        !line_test_holds(LineTest::TopLevelKey, "    - herdr-agent-state"@),
        !line_test_holds(LineTest::EnabledKey, "    - herdr-agent-state"@),
        spec_yaml_key_at_indent("    - herdr-agent-state"@, 0) is None,
        line_test_holds(LineTest::FlatItem, "  - herdr-agent-state"@),
        line_test_holds(LineTest::FlatListsPlugin, "  - herdr-agent-state"@),
        !line_test_holds(LineTest::TopLevelKey, "  - herdr-agent-state"@),
        !line_test_holds(LineTest::EnabledKey, "  - herdr-agent-state"@),
        no_newline("    - herdr-agent-state"@),
        no_newline("  - herdr-agent-state"@),
        "  - herdr-agent-state"@ == "  - "@ + HERMES_PLUGIN_INSTALL_NAME@,
{
    reveal_strlit("  - herdr-agent-state");
    reveal_strlit("herdr-agent-state");
    reveal_strlit("  - ");
    lemma_plugins_and_enabled_lines();
    lemma_plugin_item_line("    - herdr-agent-state"@, 4);
    lemma_plugin_item_line("  - herdr-agent-state"@, 2);
    assert("  - herdr-agent-state"@ =~= "  - "@ + HERMES_PLUGIN_INSTALL_NAME@);
}

/// Enabling the plugin changes nothing.
pub open spec fn hermes_plugin_enabled(content: Seq<char>) -> bool {
    spec_update_hermes_enabled_plugin(content, true) == content
}

/// A configuration whose `plugins` section starts with an `enabled:` list that lists the
/// plugin first: enabling the plugin changes nothing.
proof fn lemma_enabled_list_settled(content: Seq<char>, p: int, ei: int)
    requires
        find_top_level_key(text_lines(content), 0, "plugins"@) == Some(p),
        p < ei,
        ei + 1 < text_lines(content).len(),
        forall|j: int|
            p + 1 <= j < ei + 2 ==> !line_test_holds(
                LineTest::TopLevelKey,
                #[trigger] text_lines(content)[j],
            ),
        forall|j: int|
            p + 1 <= j < ei ==> !line_test_holds(
                LineTest::EnabledKey,
                #[trigger] text_lines(content)[j],
            ),
        line_test_holds(LineTest::EnabledKey, text_lines(content)[ei]),
        trim(text_lines(content)[ei]) != "enabled: []"@,
        trim(text_lines(content)[ei]) != "enabled: [] # herdr"@,
        text_lines(content)[ei + 1] == "    - herdr-agent-state"@,
    ensures
        hermes_plugin_enabled(content),
{
    lemma_written_line_tests();
    let l = text_lines(content);
    let n = l.len() as int;
    lemma_find_line_spec(l, p + 1, n, LineTest::TopLevelKey);
    let end = match find_line(l, p + 1, n, LineTest::TopLevelKey) {
        Some(e) => e,
        None => n,
    };
    assert(end >= ei + 2);
    lemma_find_line_at(l, p + 1, end, LineTest::EnabledKey, ei);
    lemma_find_line_spec(l, ei + 1, end, LineTest::ListEnd);
    let list_end = match find_line(l, ei + 1, end, LineTest::ListEnd) {
        Some(x) => x,
        None => end,
    };
    assert(list_end >= ei + 2);
    lemma_find_line_at(l, ei + 1, list_end, LineTest::ListsPlugin, ei + 1);
}

/// A configuration whose `plugins:` line has no inline list, with a section of `- item`
/// lines and no `enabled:` key, one of which lists the plugin: enabling the plugin changes
/// nothing.
proof fn lemma_flat_list_settled(content: Seq<char>, p: int, fs: int, k: int)
    requires
        find_top_level_key(text_lines(content), 0, "plugins"@) == Some(p),
        p < fs < k <= text_lines(content).len(),
        forall|j: int|
            p + 1 <= j < k ==> !line_test_holds(
                LineTest::TopLevelKey,
                #[trigger] text_lines(content)[j],
            ) && !line_test_holds(LineTest::EnabledKey, text_lines(content)[j]),
        k == text_lines(content).len() || line_test_holds(
            LineTest::TopLevelKey,
            text_lines(content)[k],
        ),
        match spec_yaml_key_value_at_indent(text_lines(content)[p], 0, "plugins"@) {
            Some(v) => spec_yaml_flow_sequence_items(v) is None,
            None => true,
        },
        text_lines(content)[fs] == "  - herdr-agent-state"@,
    ensures
        hermes_plugin_enabled(content),
{
    lemma_written_line_tests();
    let l = text_lines(content);
    let n = l.len() as int;
    if k < n {
        lemma_find_line_at(l, p + 1, n, LineTest::TopLevelKey, k);
    } else {
        lemma_find_line_spec(l, p + 1, n, LineTest::TopLevelKey);
    }
    lemma_find_line_spec(l, p + 1, k, LineTest::EnabledKey);
    lemma_find_line_spec(l, p + 1, k, LineTest::FlatItem);
    lemma_find_line_spec(l, p + 1, k, LineTest::FlatListsPlugin);
    assert(find_line(l, p + 1, k, LineTest::EnabledKey) is None);
    assert(find_line(l, p + 1, k, LineTest::FlatItem) is Some);
    assert(find_line(l, p + 1, k, LineTest::FlatListsPlugin) is Some);
}

/// Where the `plugins` section that starts at line `p` ends.
pub open spec fn hermes_section_end(ls: Seq<Seq<char>>, p: int) -> int {
    match find_line(ls, p + 1, ls.len() as int, LineTest::TopLevelKey) {
        Some(e) => e,
        None => ls.len() as int,
    }
}

/// The edit reads `a` as it reads `b`.
pub open spec fn reads_same(a: Seq<char>, b: Seq<char>) -> bool {
    &&& forall|t: LineTest| #[trigger] line_test_holds(t, a) == line_test_holds(t, b)
    &&& spec_yaml_key_at_indent(a, 0) == spec_yaml_key_at_indent(b, 0)
    &&& spec_yaml_key_value_at_indent(a, 0, "plugins"@) == spec_yaml_key_value_at_indent(
        b,
        0,
        "plugins"@,
    )
    &&& trim(a) == trim(b)
}

/// A line without its final carriage return reads as the line.
proof fn lemma_reads_same(a: Seq<char>, b: Seq<char>)
    requires
        a == b || a == strip_cr(b),
    ensures
        reads_same(a, b),
{
    lemma_yaml_strip_cr(b);
    lemma_trim_strip_cr(b);
}

/// The lines of the text that `join_yaml_lines` writes from lines without line feeds read as
/// those lines, and those without a final carriage return are the same.
proof fn lemma_written_lines_read_same(ls: Seq<Seq<char>>, trailing: bool)
    requires
        ls.len() > 0,
        forall|i: int| 0 <= i < ls.len() ==> no_lf(#[trigger] ls[i]),
        trailing || ls.last().len() > 0,
    ensures
        ({
            let lo = text_lines(spec_join_yaml_lines(ls, trailing));
            &&& lo.len() == ls.len()
            &&& forall|i: int| 0 <= i < ls.len() ==> reads_same(#[trigger] lo[i], ls[i])
            &&& forall|i: int|
                0 <= i < ls.len() && !ends_with_char(ls[i], '\r') ==> #[trigger] lo[i] == ls[i]
            &&& ends_with_char(spec_join_yaml_lines(ls, trailing), '\n') == trailing
        }),
{
    lemma_lines_of_joined_ended(ls, trailing);
    let out = join_lines_ended(ls, trailing);
    assert(spec_join_yaml_lines(ls, trailing) == out);
    let lo = text_lines(out);
    assert forall|i: int| 0 <= i < ls.len() implies reads_same(#[trigger] lo[i], ls[i]) by {
        assert(lo[i] == ls[i] || lo[i] == strip_cr(ls[i]));
        lemma_reads_same(lo[i], ls[i]);
    }
    assert forall|i: int| 0 <= i < ls.len() && !ends_with_char(ls[i], '\r') implies #[trigger] lo[i]
        == ls[i] by {
        assert(lo[i] == ls[i] || lo[i] == strip_cr(ls[i]));
    }
}

/// The facts of a configuration that has a `plugins` key, as the edit reads them.
proof fn lemma_hermes_section(content: Seq<char>, p: int)
    requires
        find_top_level_key(text_lines(content), 0, "plugins"@) == Some(p),
    ensures
        0 <= p < hermes_section_end(text_lines(content), p) <= text_lines(content).len(),
        forall|j: int| 0 <= j < p ==> spec_yaml_key_at_indent(#[trigger] text_lines(content)[j], 0)
            != Some("plugins"@),
        spec_yaml_key_at_indent(text_lines(content)[p], 0) == Some("plugins"@),
        forall|j: int|
            p + 1 <= j < hermes_section_end(text_lines(content), p) ==> !line_test_holds(
                LineTest::TopLevelKey,
                #[trigger] text_lines(content)[j],
            ),
        hermes_section_end(text_lines(content), p) == text_lines(content).len() || line_test_holds(
            LineTest::TopLevelKey,
            text_lines(content)[hermes_section_end(text_lines(content), p)],
        ),
        forall|j: int| 0 <= j < text_lines(content).len() ==> no_lf(#[trigger] text_lines(content)[j]),
        !ends_with_char(content, '\n') ==> text_lines(content).last().len() > 0,
{
    let ls = text_lines(content);
    lemma_find_top_level_key_spec(ls, 0, "plugins"@);
    lemma_find_line_spec(ls, p + 1, ls.len() as int, LineTest::TopLevelKey);
    lemma_lines_no_lf(content);
    if !ends_with_char(content, '\n') {
        if content.len() == 0 {
            assert(ls =~= Seq::<Seq<char>>::empty());
        }
        lemma_last_line_nonempty(content);
    }
}

/// The lines before the `plugins` key, kept: the key is still found where it was.
proof fn lemma_plugins_key_kept(
    ls: Seq<Seq<char>>,
    l2: Seq<Seq<char>>,
    lo: Seq<Seq<char>>,
    p: int,
)
    requires
        0 <= p < ls.len(),
        p < l2.len(),
        lo.len() == l2.len(),
        forall|j: int| 0 <= j < p ==> #[trigger] l2[j] == ls[j],
        forall|j: int| 0 <= j < p ==> spec_yaml_key_at_indent(#[trigger] ls[j], 0) != Some(
            "plugins"@,
        ),
        forall|i: int| 0 <= i < l2.len() ==> reads_same(#[trigger] lo[i], l2[i]),
        spec_yaml_key_at_indent(l2[p], 0) == Some("plugins"@),
    ensures
        find_top_level_key(lo, 0, "plugins"@) == Some(p),
{
    assert forall|j: int| 0 <= j < p implies spec_yaml_key_at_indent(#[trigger] lo[j], 0) != Some(
        "plugins"@,
    ) by {
        assert(reads_same(lo[j], l2[j]));
        assert(l2[j] == ls[j]);
    }
    assert(reads_same(lo[p], l2[p]));
    lemma_find_top_level_key_at(lo, "plugins"@, p);
}

/// After the plugin is added to an `enabled:` list (written `enabled: []` or with items),
/// enabling it again changes nothing.
#[verifier::spinoff_prover]
#[verifier::rlimit(40)]
proof fn lemma_ensure_into_enabled_list(content: Seq<char>, p: int, ei: int, empty_form: bool)
    requires
        find_top_level_key(text_lines(content), 0, "plugins"@) == Some(p),
        find_line(
            text_lines(content),
            p + 1,
            hermes_section_end(text_lines(content), p),
            LineTest::EnabledKey,
        ) == Some(ei),
        empty_form == (trim(text_lines(content)[ei]) == "enabled: []"@ || trim(
            text_lines(content)[ei],
        ) == "enabled: [] # herdr"@),
    ensures
        ({
            let ls = text_lines(content);
            let trailing = ends_with_char(content, '\n');
            let lp = "    - herdr-agent-state"@;
            let l2 = if empty_form {
                ls.update(ei, "  enabled:"@).insert(ei + 1, lp)
            } else {
                ls.insert(ei + 1, lp)
            };
            hermes_plugin_enabled(spec_join_yaml_lines(l2, trailing))
        }),
{
    lemma_written_line_tests();
    lemma_plugins_and_enabled_lines();
    lemma_hermes_section(content, p);
    let ls = text_lines(content);
    let n = ls.len() as int;
    let end = hermes_section_end(ls, p);
    let trailing = ends_with_char(content, '\n');
    let lp = "    - herdr-agent-state"@;
    let en = "  enabled:"@;
    lemma_find_line_spec(ls, p + 1, end, LineTest::EnabledKey);
    let l2 = if empty_form {
        ls.update(ei, en).insert(ei + 1, lp)
    } else {
        ls.insert(ei + 1, lp)
    };
    assert forall|i: int| 0 <= i < l2.len() implies no_lf(#[trigger] l2[i]) by {
        if i < ei {
            assert(l2[i] == ls[i]);
        } else if i > ei + 1 {
            assert(l2[i] == ls[i - 1]);
        } else if i == ei && !empty_form {
            assert(l2[i] == ls[i]);
        }
    }
    if !trailing {
        if ei + 1 < n {
            assert(l2.last() == ls.last());
        }
    }
    lemma_written_lines_read_same(l2, trailing);
    let out = spec_join_yaml_lines(l2, trailing);
    let lo = text_lines(out);
    assert forall|j: int| 0 <= j < p implies #[trigger] l2[j] == ls[j] by {}
    lemma_plugins_key_kept(ls, l2, lo, p);
    assert forall|j: int| p + 1 <= j < ei + 2 implies !line_test_holds(
        LineTest::TopLevelKey,
        #[trigger] lo[j],
    ) by {
        assert(reads_same(lo[j], l2[j]));
        if j < ei {
            assert(l2[j] == ls[j]);
        } else if j == ei && !empty_form {
            assert(l2[j] == ls[j]);
        }
    }
    assert forall|j: int| p + 1 <= j < ei implies !line_test_holds(
        LineTest::EnabledKey,
        #[trigger] lo[j],
    ) by {
        assert(reads_same(lo[j], l2[j]));
        assert(l2[j] == ls[j]);
    }
    assert(reads_same(lo[ei], l2[ei]));
    if !empty_form {
        assert(l2[ei] == ls[ei]);
    }
    assert(line_test_holds(LineTest::EnabledKey, lo[ei]));
    assert(l2[ei + 1] == lp);
    assert(lo[ei + 1] == lp);
    lemma_enabled_list_settled(out, p, ei);
}

/// Where the `enabled:` list that starts at line `ei` ends, inside the section ending at `end`.
pub open spec fn hermes_list_end(ls: Seq<Seq<char>>, ei: int, end: int) -> int {
    match find_line(ls, ei + 1, end, LineTest::ListEnd) {
        Some(x) => x,
        None => end,
    }
}

/// Disabling the plugin right after enabling it gives the text back, when the `plugins`
/// section has an `enabled:` list (not written `enabled: []`) that does not list the plugin,
/// and no carriage return ends a line of the text.
#[verifier::spinoff_prover]
#[verifier::rlimit(40)]
pub proof fn law_disable_after_enable_in_enabled_list(content: Seq<char>, p: int, ei: int)
    requires
        lines_end_cleanly(content),
        find_top_level_key(text_lines(content), 0, "plugins"@) == Some(p),
        find_line(
            text_lines(content),
            p + 1,
            hermes_section_end(text_lines(content), p),
            LineTest::EnabledKey,
        ) == Some(ei),
        trim(text_lines(content)[ei]) != "enabled: []"@,
        trim(text_lines(content)[ei]) != "enabled: [] # herdr"@,
        find_line(
            text_lines(content),
            ei + 1,
            hermes_list_end(
                text_lines(content),
                ei,
                hermes_section_end(text_lines(content), p),
            ),
            LineTest::ListsPlugin,
        ) is None,
    ensures
        spec_update_hermes_enabled_plugin(spec_update_hermes_enabled_plugin(content, true), false)
            == content,
{
    lemma_written_line_tests();
    lemma_plugins_and_enabled_lines();
    lemma_hermes_section(content, p);
    let ls = text_lines(content);
    let n = ls.len() as int;
    let end = hermes_section_end(ls, p);
    let trailing = ends_with_char(content, '\n');
    let lp = "    - herdr-agent-state"@;
    lemma_find_line_spec(ls, p + 1, end, LineTest::EnabledKey);
    let l2 = ls.insert(ei + 1, lp);
    let out = spec_join_yaml_lines(l2, trailing);
    assert(spec_update_hermes_enabled_plugin(content, true) == out);
    lemma_lines_plain(content);
    assert forall|i: int| 0 <= i < l2.len() implies no_lf(#[trigger] l2[i]) && !ends_with_char(
        l2[i],
        '\r',
    ) by {
        if i < ei + 1 {
            assert(l2[i] == ls[i]);
            assert(plain_line(ls[i]));
        } else if i > ei + 1 {
            assert(l2[i] == ls[i - 1]);
            assert(plain_line(ls[i - 1]));
        }
    }
    if !trailing {
        if ei + 1 < n {
            assert(l2.last() == ls.last());
        }
    }
    lemma_written_lines_read_same(l2, trailing);
    let lo = text_lines(out);
    assert forall|i: int| 0 <= i < l2.len() implies #[trigger] lo[i] == l2[i] by {
        assert(!ends_with_char(l2[i], '\r'));
    }
    assert(lo =~= l2);
    assert forall|j: int| 0 <= j < p implies #[trigger] l2[j] == ls[j] by {}
    lemma_plugins_key_kept(ls, l2, lo, p);
    let end2 = hermes_section_end(l2, p);
    lemma_find_line_spec(l2, p + 1, l2.len() as int, LineTest::TopLevelKey);
    if end2 < ei + 2 {
        if end2 <= ei {
            assert(l2[end2] == ls[end2]);
        }
        assert(false);
    }
    assert forall|j: int| p + 1 <= j < ei implies !line_test_holds(
        LineTest::EnabledKey,
        #[trigger] l2[j],
    ) by {
        assert(l2[j] == ls[j]);
    }
    assert(l2[ei] == ls[ei]);
    lemma_find_line_at(l2, p + 1, end2, LineTest::EnabledKey, ei);
    let list_end2 = hermes_list_end(l2, ei, end2);
    lemma_find_line_spec(l2, ei + 1, end2, LineTest::ListEnd);
    assert(list_end2 >= ei + 2);
    lemma_find_line_at(l2, ei + 1, list_end2, LineTest::ListsPlugin, ei + 1);
    assert(l2.remove(ei + 1) =~= ls);
    assert(spec_update_hermes_enabled_plugin(out, false) == spec_join_yaml_lines(ls, trailing));
    law_join_yaml_lines_restores_text(content);
}

/// Disabling the plugin right after enabling it gives the text back, when the `plugins` line
/// has no inline list and its section is a `- item` list without an `enabled:` key that does
/// not list the plugin, and no carriage return ends a line of the text.
#[verifier::spinoff_prover]
#[verifier::rlimit(40)]
pub proof fn law_disable_after_enable_in_flat_list(content: Seq<char>, p: int, fs: int)
    requires
        lines_end_cleanly(content),
        find_top_level_key(text_lines(content), 0, "plugins"@) == Some(p),
        find_line(
            text_lines(content),
            p + 1,
            hermes_section_end(text_lines(content), p),
            LineTest::EnabledKey,
        ) is None,
        match spec_yaml_key_value_at_indent(text_lines(content)[p], 0, "plugins"@) {
            Some(v) => spec_yaml_flow_sequence_items(v) is None,
            None => true,
        },
        find_line(
            text_lines(content),
            p + 1,
            hermes_section_end(text_lines(content), p),
            LineTest::FlatItem,
        ) == Some(fs),
        find_line(
            text_lines(content),
            p + 1,
            hermes_section_end(text_lines(content), p),
            LineTest::FlatListsPlugin,
        ) is None,
    ensures
        spec_update_hermes_enabled_plugin(spec_update_hermes_enabled_plugin(content, true), false)
            == content,
{
    lemma_written_line_tests();
    lemma_hermes_section(content, p);
    let ls = text_lines(content);
    let n = ls.len() as int;
    let end = hermes_section_end(ls, p);
    let trailing = ends_with_char(content, '\n');
    let fp = "  - herdr-agent-state"@;
    lemma_find_line_spec(ls, p + 1, end, LineTest::EnabledKey);
    lemma_find_line_spec(ls, p + 1, end, LineTest::FlatItem);
    lemma_find_line_spec(ls, p + 1, end, LineTest::FlatListsPlugin);
    let l2 = ls.insert(fs, fp);
    let out = spec_join_yaml_lines(l2, trailing);
    assert(spec_update_hermes_enabled_plugin(content, true) == out);
    lemma_lines_plain(content);
    assert forall|i: int| 0 <= i < l2.len() implies no_lf(#[trigger] l2[i]) && !ends_with_char(
        l2[i],
        '\r',
    ) by {
        if i < fs {
            assert(l2[i] == ls[i]);
            assert(plain_line(ls[i]));
        } else if i > fs {
            assert(l2[i] == ls[i - 1]);
            assert(plain_line(ls[i - 1]));
        }
    }
    if !trailing {
        if fs < n {
            assert(l2.last() == ls.last());
        }
    }
    lemma_written_lines_read_same(l2, trailing);
    let lo = text_lines(out);
    assert forall|i: int| 0 <= i < l2.len() implies #[trigger] lo[i] == l2[i] by {
        assert(!ends_with_char(l2[i], '\r'));
    }
    assert(lo =~= l2);
    assert forall|j: int| 0 <= j < p implies #[trigger] l2[j] == ls[j] by {}
    lemma_plugins_key_kept(ls, l2, lo, p);
    assert forall|j: int| p + 1 <= j < end + 1 implies !line_test_holds(
        LineTest::TopLevelKey,
        #[trigger] l2[j],
    ) && !line_test_holds(LineTest::EnabledKey, l2[j]) && (j != fs ==> !line_test_holds(
        LineTest::FlatListsPlugin,
        l2[j],
    )) by {
        if j < fs {
            assert(l2[j] == ls[j]);
        } else if j > fs {
            assert(l2[j] == ls[j - 1]);
        }
    }
    let n2 = l2.len() as int;
    if end < n {
        assert(l2[end + 1] == ls[end]);
        lemma_find_line_at(l2, p + 1, n2, LineTest::TopLevelKey, end + 1);
    } else {
        lemma_find_line_spec(l2, p + 1, n2, LineTest::TopLevelKey);
    }
    let end2 = hermes_section_end(l2, p);
    assert(end2 == end + 1);
    lemma_find_line_spec(l2, p + 1, end2, LineTest::EnabledKey);
    assert(find_line(l2, p + 1, end2, LineTest::EnabledKey) is None);
    assert(l2[p] == ls[p]);
    lemma_find_line_spec(l2, p + 1, end2, LineTest::FlatItem);
    assert(l2[fs] == fp);
    assert(find_line(l2, p + 1, end2, LineTest::FlatItem) is Some);
    lemma_find_line_at(l2, p + 1, end2, LineTest::FlatListsPlugin, fs);
    assert(l2.remove(fs) =~= ls);
    assert(spec_update_hermes_enabled_plugin(out, false) == spec_join_yaml_lines(ls, trailing));
    law_join_yaml_lines_restores_text(content);
}

/// After an `enabled:` list with the plugin is added under a `plugins:` key that had neither
/// list, enabling the plugin again changes nothing.
#[verifier::spinoff_prover]
#[verifier::rlimit(40)]
proof fn lemma_ensure_new_enabled_list(content: Seq<char>, p: int)
    requires
        find_top_level_key(text_lines(content), 0, "plugins"@) == Some(p),
    ensures
        ({
            let ls = text_lines(content);
            let trailing = ends_with_char(content, '\n');
            let l2 = ls.insert(p + 1, "  enabled:"@).insert(p + 2, "    - herdr-agent-state"@);
            hermes_plugin_enabled(spec_join_yaml_lines(l2, trailing))
        }),
{
    lemma_written_line_tests();
    lemma_plugins_and_enabled_lines();
    lemma_hermes_section(content, p);
    let ls = text_lines(content);
    let n = ls.len() as int;
    let trailing = ends_with_char(content, '\n');
    let lp = "    - herdr-agent-state"@;
    let en = "  enabled:"@;
    let l2 = ls.insert(p + 1, en).insert(p + 2, lp);
    assert forall|i: int| 0 <= i < l2.len() implies no_lf(#[trigger] l2[i]) by {
        if i < p + 1 {
            assert(l2[i] == ls[i]);
        } else if i > p + 2 {
            assert(l2[i] == ls[i - 2]);
        }
    }
    if !trailing {
        if p + 1 < n {
            assert(l2.last() == ls.last());
        }
    }
    lemma_written_lines_read_same(l2, trailing);
    let out = spec_join_yaml_lines(l2, trailing);
    let lo = text_lines(out);
    assert forall|j: int| 0 <= j < p implies #[trigger] l2[j] == ls[j] by {}
    assert(l2[p] == ls[p]);
    lemma_plugins_key_kept(ls, l2, lo, p);
    assert(l2[p + 1] == en);
    assert(l2[p + 2] == lp);
    assert(lo[p + 1] == en);
    assert(lo[p + 2] == lp);
    lemma_enabled_list_settled(out, p, p + 1);
}

/// After the plugin is added to a `- item` list written under `plugins:`, enabling it again
/// changes nothing.
#[verifier::spinoff_prover]
#[verifier::rlimit(40)]
proof fn lemma_ensure_into_flat_list(content: Seq<char>, p: int, fs: int)
    requires
        find_top_level_key(text_lines(content), 0, "plugins"@) == Some(p),
        find_line(
            text_lines(content),
            p + 1,
            hermes_section_end(text_lines(content), p),
            LineTest::EnabledKey,
        ) is None,
        match spec_yaml_key_value_at_indent(text_lines(content)[p], 0, "plugins"@) {
            Some(v) => spec_yaml_flow_sequence_items(v) is None,
            None => true,
        },
        find_line(
            text_lines(content),
            p + 1,
            hermes_section_end(text_lines(content), p),
            LineTest::FlatItem,
        ) == Some(fs),
    ensures
        ({
            let ls = text_lines(content);
            let trailing = ends_with_char(content, '\n');
            let l2 = ls.insert(fs, "  - herdr-agent-state"@);
            hermes_plugin_enabled(spec_join_yaml_lines(l2, trailing))
        }),
{
    lemma_written_line_tests();
    lemma_hermes_section(content, p);
    let ls = text_lines(content);
    let n = ls.len() as int;
    let end = hermes_section_end(ls, p);
    let trailing = ends_with_char(content, '\n');
    let fp = "  - herdr-agent-state"@;
    lemma_find_line_spec(ls, p + 1, end, LineTest::EnabledKey);
    lemma_find_line_spec(ls, p + 1, end, LineTest::FlatItem);
    let l2 = ls.insert(fs, fp);
    assert forall|i: int| 0 <= i < l2.len() implies no_lf(#[trigger] l2[i]) by {
        if i < fs {
            assert(l2[i] == ls[i]);
        } else if i > fs {
            assert(l2[i] == ls[i - 1]);
        }
    }
    if !trailing {
        if fs < n {
            assert(l2.last() == ls.last());
        }
    }
    lemma_written_lines_read_same(l2, trailing);
    let out = spec_join_yaml_lines(l2, trailing);
    let lo = text_lines(out);
    assert forall|j: int| 0 <= j < p implies #[trigger] l2[j] == ls[j] by {}
    assert(l2[p] == ls[p]);
    lemma_plugins_key_kept(ls, l2, lo, p);
    assert forall|j: int| p + 1 <= j < end + 1 implies !line_test_holds(
        LineTest::TopLevelKey,
        #[trigger] lo[j],
    ) && !line_test_holds(LineTest::EnabledKey, lo[j]) by {
        assert(reads_same(lo[j], l2[j]));
        if j < fs {
            assert(l2[j] == ls[j]);
        } else if j > fs {
            assert(l2[j] == ls[j - 1]);
        }
    }
    if end < n {
        assert(l2[end + 1] == ls[end]);
        assert(reads_same(lo[end + 1], l2[end + 1]));
    }
    assert(reads_same(lo[p], l2[p]));
    assert(l2[fs] == fp);
    assert(lo[fs] == fp);
    lemma_flat_list_settled(out, p, fs, end + 1);
}

/// After an inline `plugins: [...]` list is rewritten as a `- item` list that starts with the
/// plugin, enabling it again changes nothing.
#[verifier::spinoff_prover]
#[verifier::rlimit(40)]
proof fn lemma_ensure_inline_list(content: Seq<char>, p: int, items: Seq<Seq<char>>)
    requires
        find_top_level_key(text_lines(content), 0, "plugins"@) == Some(p),
        match spec_yaml_key_value_at_indent(text_lines(content)[p], 0, "plugins"@) {
            Some(v) => spec_yaml_flow_sequence_items(v) == Some(items),
            None => false,
        },
    ensures
        ({
            let ls = text_lines(content);
            let trailing = ends_with_char(content, '\n');
            let end = hermes_section_end(ls, p);
            let l2 = splice(
                ls,
                p,
                end,
                spec_hermes_flat_plugin_lines(items.insert(0, HERMES_PLUGIN_INSTALL_NAME@)),
            );
            hermes_plugin_enabled(spec_join_yaml_lines(l2, trailing))
        }),
{
    lemma_written_line_tests();
    lemma_plugins_and_enabled_lines();
    lemma_plugin_name_scalar();
    lemma_hermes_section(content, p);
    let ls = text_lines(content);
    let n = ls.len() as int;
    let end = hermes_section_end(ls, p);
    let trailing = ends_with_char(content, '\n');
    let name = HERMES_PLUGIN_INSTALL_NAME@;
    let v = spec_yaml_key_value_at_indent(ls[p], 0, "plugins"@)->0;
    assert(no_lf(ls[p]));
    lemma_key_value_no_lf(ls[p], 0, "plugins"@);
    assert(no_lf(v));
    lemma_flow_sequence_items_no_lf(v, items);
    let items2 = items.insert(0, name);
    assert forall|k: int| 0 <= k < items2.len() implies no_lf(#[trigger] items2[k]) by {
        if k > 0 {
            assert(items2[k] == items[k - 1]);
            assert(no_lf(items[k - 1]));
        } else {
            assert(items2[0] == name);
        }
    }
    let r = spec_hermes_flat_plugin_lines(items2);
    let mapped = items2.map_values(|item: Seq<char>| "  - "@ + item);
    assert(r == seq!["plugins:"@] + mapped);
    assert forall|k: int| 0 <= k < mapped.len() implies {
        &&& no_lf(#[trigger] mapped[k])
        &&& !line_test_holds(LineTest::TopLevelKey, mapped[k])
        &&& !line_test_holds(LineTest::EnabledKey, mapped[k])
        &&& mapped[k].len() > 0
    } by {
        lemma_item_line(items2[k]);
    }
    assert(mapped[0] == "  - herdr-agent-state"@);
    let l2 = splice(ls, p, end, r);
    let rl = r.len() as int;
    assert(l2.len() == n - end + p + rl);
    assert forall|j: int| 0 <= j < l2.len() implies no_lf(#[trigger] l2[j]) by {
        if j < p {
            assert(l2[j] == ls[j]);
        } else if j < p + rl {
            assert(l2[j] == r[j - p]);
            if j > p {
                assert(r[j - p] == mapped[j - p - 1]);
            }
        } else {
            assert(l2[j] == ls[j - p - rl + end]);
        }
    }
    if !trailing {
        if end < n {
            assert(l2.last() == ls.last());
        } else {
            assert(l2.last() == mapped.last());
        }
    }
    lemma_written_lines_read_same(l2, trailing);
    let out = spec_join_yaml_lines(l2, trailing);
    let lo = text_lines(out);
    assert forall|j: int| 0 <= j < p implies #[trigger] l2[j] == ls[j] by {}
    assert(l2[p] == "plugins:"@);
    lemma_plugins_key_kept(ls, l2, lo, p);
    assert forall|j: int| p + 1 <= j < p + rl implies !line_test_holds(
        LineTest::TopLevelKey,
        #[trigger] lo[j],
    ) && !line_test_holds(LineTest::EnabledKey, lo[j]) by {
        assert(reads_same(lo[j], l2[j]));
        assert(l2[j] == mapped[j - p - 1]);
    }
    if end < n {
        assert(l2[p + rl] == ls[end]);
        assert(reads_same(lo[p + rl], l2[p + rl]));
    }
    assert(l2[p + 1] == mapped[0]);
    assert(lo[p] == "plugins:"@);
    assert(lo[p + 1] == "  - herdr-agent-state"@);
    lemma_flat_list_settled(out, p, p + 1, p + rl);
}

/// After a `plugins` section with the plugin is added to a configuration that had none,
/// enabling the plugin again changes nothing.
#[verifier::spinoff_prover]
#[verifier::rlimit(40)]
proof fn lemma_ensure_new_section(content: Seq<char>)
    requires
        find_top_level_key(text_lines(content), 0, "plugins"@) is None,
    ensures
        ({
            let r = trim_newlines_end(content);
            hermes_plugin_enabled(
                (if r.len() == 0 {
                    r
                } else {
                    r.push('\n')
                }) + "plugins:\n  enabled:\n    - herdr-agent-state\n"@,
            )
        }),
{
    reveal_strlit("plugins:\n  enabled:\n    - herdr-agent-state\n");
    reveal_strlit("plugins:");
    reveal_strlit("  enabled:");
    reveal_strlit("    - herdr-agent-state");
    lemma_written_line_tests();
    lemma_plugins_and_enabled_lines();
    let ls = text_lines(content);
    let r = trim_newlines_end(content);
    let pl = "plugins:"@;
    let en = "  enabled:"@;
    let lp = "    - herdr-agent-state"@;
    let lit = "plugins:\n  enabled:\n    - herdr-agent-state\n"@;
    assert(lit =~= pl.push('\n') + (en.push('\n') + lp.push('\n')));
    lemma_lines_cons(pl, en.push('\n') + lp.push('\n'));
    lemma_lines_cons(en, lp.push('\n'));
    lemma_lines_single(lp);
    let tl = seq![pl, en, lp];
    assert(text_lines(lit) =~= tl);
    let out = (if r.len() == 0 {
        r
    } else {
        r.push('\n')
    }) + lit;
    lemma_trim_newlines_end(content);
    lemma_find_top_level_key_spec(ls, 0, "plugins"@);
    let rl = if r.len() == 0 {
        Seq::<Seq<char>>::empty()
    } else {
        text_lines(r.push('\n'))
    };
    if r.len() == 0 {
        assert(out =~= lit);
        assert(text_lines(out) =~= rl + tl);
    } else {
        assert(out =~= r.push('\n') + lit);
        lemma_lines_concat(r.push('\n'), lit);
        assert(text_lines(out) =~= rl + tl);
    }
    let l = text_lines(out);
    let m = rl.len() as int;
    assert forall|j: int| 0 <= j < m implies spec_yaml_key_at_indent(#[trigger] l[j], 0) != Some(
        "plugins"@,
    ) by {
        assert(l[j] == rl[j]);
        if r.len() < content.len() {
            let rest = content.skip(r.len() as int + 1);
            assert(content =~= r.push('\n') + rest);
            lemma_lines_concat(r.push('\n'), rest);
            assert(rl[j] == ls[j]);
        } else {
            assert(r =~= content);
            lemma_lines_push_newline_cr(r);
            lemma_reads_same(rl[j], ls[j]);
        }
    }
    assert(l[m] == pl);
    lemma_find_top_level_key_at(l, "plugins"@, m);
    assert(l[m + 1] == en);
    assert(l[m + 2] == lp);
    lemma_enabled_list_settled(out, m, m + 1);
}

/// Enabling the Hermes plugin a second time changes nothing.
#[verifier::spinoff_prover]
#[verifier::rlimit(40)]
pub proof fn law_ensure_hermes_plugin_idempotent(content: Seq<char>)
    ensures
        hermes_plugin_enabled(spec_update_hermes_enabled_plugin(content, true)),
{
    let ls = text_lines(content);
    let name = HERMES_PLUGIN_INSTALL_NAME@;
    match find_top_level_key(ls, 0, "plugins"@) {
        None => {
            lemma_ensure_new_section(content);
        },
        Some(p) => {
            lemma_hermes_section(content, p);
            let end = hermes_section_end(ls, p);
            let inline = match spec_yaml_key_value_at_indent(ls[p], 0, "plugins"@) {
                Some(v) => spec_yaml_flow_sequence_items(v),
                None => None,
            };
            if let Some(ei) = find_line(ls, p + 1, end, LineTest::EnabledKey) {
                let line = trim(ls[ei]);
                let empty_form = line == "enabled: []"@ || line == "enabled: [] # herdr"@;
                lemma_ensure_into_enabled_list(content, p, ei, empty_form);
                if !empty_form {
                    let list_end = match find_line(ls, ei + 1, end, LineTest::ListEnd) {
                        Some(x) => x,
                        None => end,
                    };
                    if find_line(ls, ei + 1, list_end, LineTest::ListsPlugin) is Some {
                        assert(spec_update_hermes_enabled_plugin(content, true) == content);
                    }
                }
            } else if let Some(items) = inline {
                if find_item(items, 0, name) is None {
                    lemma_ensure_inline_list(content, p, items);
                } else {
                    assert(spec_update_hermes_enabled_plugin(content, true) == content);
                }
            } else if let Some(fs) = find_line(ls, p + 1, end, LineTest::FlatItem) {
                if find_line(ls, p + 1, end, LineTest::FlatListsPlugin) is None {
                    lemma_ensure_into_flat_list(content, p, fs);
                } else {
                    assert(spec_update_hermes_enabled_plugin(content, true) == content);
                }
            } else {
                lemma_ensure_new_enabled_list(content, p);
            }
        },
    }
}


/// The first index from `from` on at which `items` holds `value` is what `find_item` gives.
proof fn lemma_find_item_at(items: Seq<Seq<char>>, from: int, value: Seq<char>, i: int)
    requires
        0 <= from <= i < items.len(),
        items[i] == value,
        forall|j: int| from <= j < i ==> #[trigger] items[j] != value,
    ensures
        find_item(items, from, value) == Some(i),
    decreases i - from,
{
    if from < i {
        lemma_find_item_at(items, from + 1, value, i);
    }
}

/// The lines of a text with one of its lines taken out and the rest joined again are the
/// text's lines without that one, when no carriage return ends a line of the text and the
/// text ends a line or the line taken out is not its last.
proof fn lemma_removed_line_lines(content: Seq<char>, k: int)
    requires
        lines_end_cleanly(content),
        0 <= k < text_lines(content).len(),
        text_lines(content).len() >= 2,
        ends_with_char(content, '\n') || k + 1 < text_lines(content).len(),
    ensures
        text_lines(
            spec_join_yaml_lines(text_lines(content).remove(k), ends_with_char(content, '\n')),
        ) == text_lines(content).remove(k),
{
    let ls = text_lines(content);
    let trailing = ends_with_char(content, '\n');
    let l2 = ls.remove(k);
    lemma_lines_plain(content);
    assert forall|i: int| 0 <= i < l2.len() implies no_lf(#[trigger] l2[i]) && !ends_with_char(
        l2[i],
        '\r',
    ) by {
        if i < k {
            assert(l2[i] == ls[i]);
            assert(plain_line(ls[i]));
        } else {
            assert(l2[i] == ls[i + 1]);
            assert(plain_line(ls[i + 1]));
        }
    }
    if !trailing {
        lemma_last_line_nonempty(content);
        assert(l2.last() == ls.last());
    }
    lemma_written_lines_read_same(l2, trailing);
    let lo = text_lines(spec_join_yaml_lines(l2, trailing));
    assert forall|i: int| 0 <= i < l2.len() implies #[trigger] lo[i] == l2[i] by {
        assert(!ends_with_char(l2[i], '\r'));
    }
    assert(lo =~= l2);
}

/// Disabling the plugin in a `plugins` section with an `enabled:` list (not written
/// `enabled: []`) takes out exactly the first line of that list that lists the plugin: the
/// text becomes its lines without that one, every other line kept in its place and order.
#[verifier::spinoff_prover]
#[verifier::rlimit(40)]
pub proof fn law_disable_removes_plugin_from_enabled_list(content: Seq<char>, p: int, ei: int, k: int)
    requires
        find_top_level_key(text_lines(content), 0, "plugins"@) == Some(p),
        find_line(
            text_lines(content),
            p + 1,
            hermes_section_end(text_lines(content), p),
            LineTest::EnabledKey,
        ) == Some(ei),
        trim(text_lines(content)[ei]) != "enabled: []"@,
        trim(text_lines(content)[ei]) != "enabled: [] # herdr"@,
        ei < k < hermes_list_end(
            text_lines(content),
            ei,
            hermes_section_end(text_lines(content), p),
        ),
        spec_yaml_list_item_matches(text_lines(content)[k], HERMES_PLUGIN_INSTALL_NAME@),
        forall|j: int|
            ei < j < k ==> !spec_yaml_list_item_matches(
                #[trigger] text_lines(content)[j],
                HERMES_PLUGIN_INSTALL_NAME@,
            ),
    ensures
        spec_update_hermes_enabled_plugin(content, false) == spec_join_yaml_lines(
            text_lines(content).remove(k),
            ends_with_char(content, '\n'),
        ),
        lines_end_cleanly(content) && (ends_with_char(content, '\n') || k + 1 < text_lines(
            content,
        ).len()) ==> text_lines(spec_update_hermes_enabled_plugin(content, false)) == text_lines(
            content,
        ).remove(k),
{
    let ls = text_lines(content);
    lemma_hermes_section(content, p);
    let end = hermes_section_end(ls, p);
    lemma_find_line_spec(ls, p + 1, end, LineTest::EnabledKey);
    let list_end = hermes_list_end(ls, ei, end);
    lemma_find_line_spec(ls, ei + 1, end, LineTest::ListEnd);
    assert forall|j: int| ei + 1 <= j < k implies !line_test_holds(
        LineTest::ListsPlugin,
        #[trigger] ls[j],
    ) by {}
    lemma_find_line_at(ls, ei + 1, list_end, LineTest::ListsPlugin, k);
    assert(spec_update_hermes_enabled_plugin(content, false) == spec_edit_enabled_list(
        content,
        ls,
        ei,
        end,
        false,
    ));
    if lines_end_cleanly(content) && (ends_with_char(content, '\n') || k + 1 < ls.len()) {
        lemma_removed_line_lines(content, k);
    }
}

/// Disabling the plugin in a `plugins: [...]` line (whose section has no `enabled:` key) takes
/// out exactly the first item that is the plugin: the line becomes a `- item` list of the
/// other items, in their order (`plugins: []` when none is left), and the lines around the
/// section are kept.
#[verifier::spinoff_prover]
#[verifier::rlimit(40)]
pub proof fn law_disable_removes_plugin_from_inline_list(
    content: Seq<char>,
    p: int,
    v: Seq<char>,
    items: Seq<Seq<char>>,
    i: int,
)
    requires
        find_top_level_key(text_lines(content), 0, "plugins"@) == Some(p),
        find_line(
            text_lines(content),
            p + 1,
            hermes_section_end(text_lines(content), p),
            LineTest::EnabledKey,
        ) is None,
        spec_yaml_key_value_at_indent(text_lines(content)[p], 0, "plugins"@) == Some(v),
        spec_yaml_flow_sequence_items(v) == Some(items),
        0 <= i < items.len(),
        items[i] == HERMES_PLUGIN_INSTALL_NAME@,
        forall|j: int| 0 <= j < i ==> #[trigger] items[j] != HERMES_PLUGIN_INSTALL_NAME@,
    ensures
        ({
            let ls = text_lines(content);
            let rest = items.remove(i);
            let section = if rest.len() == 0 {
                seq!["plugins: []"@]
            } else {
                seq!["plugins:"@] + rest.map_values(|item: Seq<char>| "  - "@ + item)
            };
            spec_update_hermes_enabled_plugin(content, false) == spec_join_yaml_lines(
                ls.subrange(0, p) + section + ls.subrange(
                    hermes_section_end(ls, p),
                    ls.len() as int,
                ),
                ends_with_char(content, '\n'),
            )
        }),
{
    let ls = text_lines(content);
    lemma_hermes_section(content, p);
    lemma_find_item_at(items, 0, HERMES_PLUGIN_INSTALL_NAME@, i);
    let end = hermes_section_end(ls, p);
    assert(spec_update_hermes_enabled_plugin(content, false) == spec_edit_inline_list(
        content,
        ls,
        p,
        end,
        items,
        false,
    ));
}


/// Disabling the plugin in a `plugins` section written as a `- item` list (no `enabled:` key,
/// no inline list) takes out exactly the first item line of the section that lists the plugin:
/// the text becomes its lines without that one, every other line kept in its place and order.
#[verifier::spinoff_prover]
#[verifier::rlimit(40)]
pub proof fn law_disable_removes_plugin_from_flat_list(content: Seq<char>, p: int, k: int)
    requires
        find_top_level_key(text_lines(content), 0, "plugins"@) == Some(p),
        find_line(
            text_lines(content),
            p + 1,
            hermes_section_end(text_lines(content), p),
            LineTest::EnabledKey,
        ) is None,
        match spec_yaml_key_value_at_indent(text_lines(content)[p], 0, "plugins"@) {
            Some(v) => spec_yaml_flow_sequence_items(v) is None,
            None => true,
        },
        p < k < hermes_section_end(text_lines(content), p),
        spec_yaml_list_item_matches_at_indent(
            text_lines(content)[k],
            2,
            HERMES_PLUGIN_INSTALL_NAME@,
        ),
        forall|j: int|
            p < j < k ==> !spec_yaml_list_item_matches_at_indent(
                #[trigger] text_lines(content)[j],
                2,
                HERMES_PLUGIN_INSTALL_NAME@,
            ),
    ensures
        spec_update_hermes_enabled_plugin(content, false) == spec_join_yaml_lines(
            text_lines(content).remove(k),
            ends_with_char(content, '\n'),
        ),
        lines_end_cleanly(content) && (ends_with_char(content, '\n') || k + 1 < text_lines(
            content,
        ).len()) ==> text_lines(spec_update_hermes_enabled_plugin(content, false)) == text_lines(
            content,
        ).remove(k),
{
    let ls = text_lines(content);
    lemma_hermes_section(content, p);
    let end = hermes_section_end(ls, p);
    assert forall|j: int| p + 1 <= j < k implies !line_test_holds(
        LineTest::FlatListsPlugin,
        #[trigger] ls[j],
    ) by {}
    lemma_find_line_at(ls, p + 1, end, LineTest::FlatListsPlugin, k);
    lemma_find_line_spec(ls, p + 1, end, LineTest::FlatItem);
    assert(find_line(ls, p + 1, end, LineTest::FlatItem) is Some) by {
        if find_line(ls, p + 1, end, LineTest::FlatItem) is None {
            assert(!line_test_holds(LineTest::FlatItem, ls[k]));
        }
    }
    let fs = find_line(ls, p + 1, end, LineTest::FlatItem)->Some_0;
    assert(spec_update_hermes_enabled_plugin(content, false) == spec_edit_flat_list(
        content,
        ls,
        p,
        fs,
        end,
        false,
    ));
    if lines_end_cleanly(content) && (ends_with_char(content, '\n') || k + 1 < ls.len()) {
        lemma_removed_line_lines(content, k);
    }
}

} // verus!
