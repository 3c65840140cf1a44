use vstd::prelude::*;

use crate::command::{hook_command, spec_hook_command};
use crate::constants::{
    kimi_hook_events, spec_kimi_hook_events, KIMI_CONFIG_BLOCK_BEGIN, KIMI_CONFIG_BLOCK_END,
};
use crate::platform::Platform;
use crate::text::{
    ends_with_char, ends_with_char_str, first_index, is_ws, join_lines, law_lines_join_roundtrip,
    lemma_first_index, lemma_join_ends_cleanly, lemma_lead_ws_unique, lemma_lines_concat,
    lemma_lines_cons, lemma_lines_no_lf, lemma_lines_of_joined, lemma_lines_of_joined_cr,
    lemma_lines_plain, lemma_lines_push_newline, lemma_lines_single, lemma_lines_single_cr,
    lemma_lines_trim_newlines_prefix, lemma_no_newline_concat, lemma_text_lines_nonempty,
    lemma_trail_ws_unique, lemma_trim_first, lemma_trim_newlines_end,
    lemma_trim_newlines_end_cleanly, lemma_trim_newlines_end_push, lemma_trim_strip_cr,
    lines_end_cleanly, no_lf, no_newline, plain_line, push_char, split_lines, str_eq, strip_cr,
    text_lines, trim, trim_newlines_end, trim_newlines_end_str, trim_start, trim_str,
};
use crate::toml_text::{
    join_toml_lines, lemma_basic_string_no_newline, lemma_tidy_end_lines, lemma_tidy_end_trim,
    spec_join_toml_lines, spec_tidy_end, spec_toml_basic_string, strip_blank_tail, tidy_end,
    toml_basic_string,
};

verus! {

/// The `[[hooks]]` table that runs the hook script for one Kimi event.
pub open spec fn spec_kimi_hook_table(
    event: Seq<char>,
    matcher: Option<&str>,
    hook_path: Seq<char>,
    action: &str,
    platform: Platform,
) -> Seq<char> {
    "[[hooks]]\nevent = "@ + spec_toml_basic_string(event) + "\n"@ + (match matcher {
        Some(m) => "matcher = "@ + spec_toml_basic_string(m@) + "\n"@,
        None => seq![],
    }) + "command = "@ + spec_toml_basic_string(spec_hook_command(hook_path, Some(action), platform))
        + "\ntimeout = 10\n\n"@
}

/// The tables of the first `n` Kimi hook events.
pub open spec fn spec_kimi_hook_tables(hook_path: Seq<char>, platform: Platform, n: int) -> Seq<char>
    decreases n,
{
    if n <= 0 {
        seq![]
    } else {
        let e = spec_kimi_hook_events()[n - 1];
        spec_kimi_hook_tables(hook_path, platform, n - 1) + spec_kimi_hook_table(
            e.0@,
            e.1,
            hook_path,
            e.2,
            platform,
        )
    }
}

/// The lines that stay when the managed blocks are cut out, scanning from line `i`.
pub open spec fn kimi_kept(ls: Seq<Seq<char>>, i: int, in_block: bool) -> Seq<Seq<char>>
    decreases ls.len() - i,
{
    if i < 0 || i >= ls.len() {
        seq![]
    } else {
        let t = trim(ls[i]);
        if t == KIMI_CONFIG_BLOCK_BEGIN@ {
            kimi_kept(ls, i + 1, true)
        } else if in_block {
            kimi_kept(ls, i + 1, t != KIMI_CONFIG_BLOCK_END@)
        } else {
            seq![ls[i]] + kimi_kept(ls, i + 1, false)
        }
    }
}

/// Some line, trimmed, is `marker`.
pub open spec fn has_marker_line(ls: Seq<Seq<char>>, marker: Seq<char>) -> bool {
    exists|i: int| 0 <= i < ls.len() && trim(#[trigger] ls[i]) == marker
}

/// The Kimi configuration without the blocks that the library manages.
pub open spec fn spec_remove_kimi_config_block(content: Seq<char>) -> Seq<char> {
    let ls = text_lines(content);
    if !has_marker_line(ls, KIMI_CONFIG_BLOCK_BEGIN@) {
        content
    } else {
        spec_tidy_end(spec_join_toml_lines(kimi_kept(ls, 0, false), ends_with_char(content, '\n')))
    }
}

/// The Kimi configuration with one managed block of hooks, at its end.
pub open spec fn spec_build_kimi_config_with_hooks(
    content: Seq<char>,
    hook_path: Seq<char>,
    platform: Platform,
) -> Seq<char> {
    let r = trim_newlines_end(spec_remove_kimi_config_block(content));
    (if r.len() == 0 {
        r
    } else {
        r.push('\n').push('\n')
    }) + spec_kimi_block(hook_path, platform)
}

/// The `[[hooks]]` table that runs the hook script for one Kimi event.
pub fn kimi_hook_table(
    event: &str,
    matcher: Option<&str>,
    hook_path: &str,
    action: &str,
    platform: Platform,
) -> (res: String)
    ensures
        res@ == spec_kimi_hook_table(event@, matcher, hook_path@, action, platform),
{
    let command = hook_command(hook_path, Some(action), platform);
    let mut result = String::from_str("[[hooks]]\nevent = ");
    result.append(toml_basic_string(event).as_str());
    result.append("\n");
    if let Some(m) = matcher {
        result.append("matcher = ");
        result.append(toml_basic_string(m).as_str());
        result.append("\n");
    }
    result.append("command = ");
    result.append(toml_basic_string(command.as_str()).as_str());
    result.append("\ntimeout = 10\n\n");
    proof {
        assert(result@ =~= spec_kimi_hook_table(event@, matcher, hook_path@, action, platform));
    }
    result
}

/// Cuts the managed blocks (from a begin marker line to the next end marker line) out of a
/// Kimi configuration.
pub fn remove_kimi_config_block(content: &str) -> (res: String)
    ensures
        res@ == spec_remove_kimi_config_block(content@),
{
    let trailing_newline = ends_with_char_str(content, '\n');
    let all = split_lines(content);
    let ghost ls = all.deep_view();
    let mut lines: Vec<String> = Vec::new();
    let mut in_block = false;
    let mut removed_block = false;
    let mut i: usize = 0;
    proof {
        assert(lines.deep_view() =~= Seq::<Seq<char>>::empty());
        assert(Seq::<Seq<char>>::empty() + kimi_kept(ls, 0, false) =~= kimi_kept(ls, 0, false));
    }
    while i < all.len()
        invariant
            ls == all.deep_view(),
            i <= all.len(),
            lines.deep_view() + kimi_kept(ls, i as int, in_block) == kimi_kept(ls, 0, false),
            removed_block == exists|j: int|
                0 <= j < i && trim(#[trigger] ls[j]) == KIMI_CONFIG_BLOCK_BEGIN@,
        decreases all.len() - i,
    {
        let line = all[i].as_str();
        let t = trim_str(line);
        let ghost old_lines = lines.deep_view();
        if str_eq(t, KIMI_CONFIG_BLOCK_BEGIN) {
            in_block = true;
            removed_block = true;
        } else if in_block {
            if str_eq(t, KIMI_CONFIG_BLOCK_END) {
                in_block = false;
            }
        } else {
            lines.push(String::from_str(line));
            proof {
                assert(lines.deep_view() =~= old_lines.push(ls[i as int]));
                assert(lines.deep_view() + kimi_kept(ls, i + 1, false) =~= old_lines + (seq![
                    ls[i as int],
                ] + kimi_kept(ls, i + 1, false)));
            }
        }
        i += 1;
    }
    proof {
        assert(kimi_kept(ls, i as int, in_block) =~= Seq::<Seq<char>>::empty());
        assert(lines.deep_view() + kimi_kept(ls, i as int, in_block) =~= lines.deep_view());
    }
    if !removed_block {
        return String::from_str(content);
    }
    tidy_end(join_toml_lines(lines, trailing_newline))
}

/// Replaces the managed block of a Kimi configuration with the hooks of every Kimi event.
pub fn build_kimi_config_with_hooks(content: &str, hook_path: &str, platform: Platform) -> (res:
    String)
    ensures
        res@ == spec_build_kimi_config_with_hooks(content@, hook_path@, platform),
{
    let unmanaged = remove_kimi_config_block(content);
    let mut result = String::from_str(trim_newlines_end_str(unmanaged.as_str()));
    if !result.as_str().is_empty() {
        push_char(&mut result, '\n');
        push_char(&mut result, '\n');
    }
    result.append(KIMI_CONFIG_BLOCK_BEGIN);
    result.append("\n");
    let ghost head = result@;
    let events = kimi_hook_events();
    let mut i: usize = 0;
    proof {
        assert(result@ =~= head + spec_kimi_hook_tables(hook_path@, platform, 0));
    }
    while i < events.len()
        invariant
            events@ == spec_kimi_hook_events(),
            i <= events.len(),
            result@ == head + spec_kimi_hook_tables(hook_path@, platform, i as int),
        decreases events.len() - i,
    {
        let (event, matcher, action) = events[i];
        let table = kimi_hook_table(event, matcher, hook_path, action, platform);
        result.append(table.as_str());
        proof {
            assert(result@ =~= head + spec_kimi_hook_tables(hook_path@, platform, i + 1));
        }
        i += 1;
    }
    result.append(KIMI_CONFIG_BLOCK_END);
    result.append("\n");
    proof {
        assert(result@ =~= spec_build_kimi_config_with_hooks(content@, hook_path@, platform));
    }
    result
}


/// A line that, trimmed, is neither managed marker.
pub open spec fn kimi_plain_line(l: Seq<char>) -> bool {
    trim(l) != KIMI_CONFIG_BLOCK_BEGIN@ && trim(l) != KIMI_CONFIG_BLOCK_END@
}

/// What the user wrote in a Kimi configuration: the text without the managed blocks and
/// without its final line endings.
pub open spec fn kimi_user_part(content: Seq<char>) -> Seq<char> {
    trim_newlines_end(spec_remove_kimi_config_block(content))
}

proof fn lemma_kimi_markers()
    ensures
        KIMI_CONFIG_BLOCK_BEGIN@.len() > 0,
        KIMI_CONFIG_BLOCK_BEGIN@[0] == '#',
        KIMI_CONFIG_BLOCK_END@.len() > 0,
        KIMI_CONFIG_BLOCK_END@[0] == '#',
        KIMI_CONFIG_BLOCK_BEGIN@ != KIMI_CONFIG_BLOCK_END@,
        no_newline(KIMI_CONFIG_BLOCK_BEGIN@),
        no_newline(KIMI_CONFIG_BLOCK_END@),
        trim(KIMI_CONFIG_BLOCK_BEGIN@) == KIMI_CONFIG_BLOCK_BEGIN@,
        trim(KIMI_CONFIG_BLOCK_END@) == KIMI_CONFIG_BLOCK_END@,
{
    reveal_strlit("# >>> herdr kimi hooks >>>");
    reveal_strlit("# <<< herdr kimi hooks <<<");
    let b = KIMI_CONFIG_BLOCK_BEGIN@;
    let e = KIMI_CONFIG_BLOCK_END@;
    assert(b[2] != e[2]);
    lemma_lead_ws_unique(b, 0);
    lemma_trail_ws_unique(b, b.len() as int);
    assert(trim_start(b) =~= b);
    assert(trim(b) =~= b);
    lemma_lead_ws_unique(e, 0);
    lemma_trail_ws_unique(e, e.len() as int);
    assert(trim_start(e) =~= e);
    assert(trim(e) =~= e);
}

/// An empty line, or one that starts with a character other than whitespace or `#`, is no
/// marker line.
proof fn lemma_kimi_plain_line(l: Seq<char>)
    requires
        l.len() == 0 || (!is_ws(l[0]) && l[0] != '#'),
    ensures
        kimi_plain_line(l),
{
    lemma_kimi_markers();
    if l.len() == 0 {
        assert(trim(l).len() == 0);
    } else {
        lemma_trim_first(l);
    }
}

/// Outside a block and without a begin marker, every line stays.
proof fn lemma_kimi_kept_outside(ls: Seq<Seq<char>>, i: int, n: int)
    requires
        0 <= i <= n <= ls.len(),
        forall|j: int| i <= j < n ==> trim(#[trigger] ls[j]) != KIMI_CONFIG_BLOCK_BEGIN@,
    ensures
        kimi_kept(ls, i, false) == ls.subrange(i, n) + kimi_kept(ls, n, false),
    decreases n - i,
{
    if i < n {
        assert(trim(ls[i]) != KIMI_CONFIG_BLOCK_BEGIN@);
        lemma_kimi_kept_outside(ls, i + 1, n);
        assert(ls.subrange(i, n) =~= seq![ls[i]] + ls.subrange(i + 1, n));
    } else {
        assert(ls.subrange(i, n) =~= Seq::<Seq<char>>::empty());
    }
}

/// Inside a block, every line up to the end marker goes.
proof fn lemma_kimi_kept_inside(ls: Seq<Seq<char>>, i: int, n: int)
    requires
        0 <= i <= n < ls.len(),
        forall|j: int| i <= j < n ==> kimi_plain_line(#[trigger] ls[j]),
        trim(ls[n]) == KIMI_CONFIG_BLOCK_END@,
    ensures
        kimi_kept(ls, i, true) == kimi_kept(ls, n + 1, false),
    decreases n - i,
{
    lemma_kimi_markers();
    if i < n {
        assert(kimi_plain_line(ls[i]));
        lemma_kimi_kept_inside(ls, i + 1, n);
    }
}

/// The kept lines are lines of the text: none is a begin marker, and each has what every line
/// of the text has.
proof fn lemma_kimi_kept_lines(
    ls: Seq<Seq<char>>,
    i: int,
    in_block: bool,
    prop: spec_fn(Seq<char>) -> bool,
)
    ensures
        forall|j: int|
            0 <= j < kimi_kept(ls, i, in_block).len() ==> trim(
                #[trigger] kimi_kept(ls, i, in_block)[j],
            ) != KIMI_CONFIG_BLOCK_BEGIN@,
        (forall|k: int| 0 <= k < ls.len() ==> prop(#[trigger] ls[k])) ==> forall|j: int|
            0 <= j < kimi_kept(ls, i, in_block).len() ==> prop(
                #[trigger] kimi_kept(ls, i, in_block)[j],
            ),
    decreases ls.len() - i,
{
    if 0 <= i < ls.len() {
        let t = trim(ls[i]);
        if t == KIMI_CONFIG_BLOCK_BEGIN@ {
            lemma_kimi_kept_lines(ls, i + 1, true, prop);
            assert(kimi_kept(ls, i, in_block) == kimi_kept(ls, i + 1, true));
        } else if in_block {
            lemma_kimi_kept_lines(ls, i + 1, t != KIMI_CONFIG_BLOCK_END@, prop);
            assert(kimi_kept(ls, i, in_block) == kimi_kept(ls, i + 1, t != KIMI_CONFIG_BLOCK_END@));
        } else {
            lemma_kimi_kept_lines(ls, i + 1, false, prop);
            let k = kimi_kept(ls, i, in_block);
            let r = kimi_kept(ls, i + 1, false);
            assert(k == seq![ls[i]] + r);
            assert forall|j: int| 0 <= j < k.len() implies trim(#[trigger] k[j])
                != KIMI_CONFIG_BLOCK_BEGIN@ by {
                if j > 0 {
                    assert(k[j] == r[j - 1]);
                }
            }
            if forall|m: int| 0 <= m < ls.len() ==> prop(#[trigger] ls[m]) {
                assert forall|j: int| 0 <= j < k.len() implies prop(#[trigger] k[j]) by {
                    if j > 0 {
                        assert(k[j] == r[j - 1]);
                    } else {
                        assert(prop(ls[i]));
                    }
                }
            }
        }
    }
}

/// One hook table is its lines, each ended.
proof fn lemma_kimi_hook_table_shape(
    event: Seq<char>,
    matcher: Option<&str>,
    hook_path: Seq<char>,
    action: &str,
    platform: Platform,
)
    ensures
        spec_kimi_hook_table(event, matcher, hook_path, action, platform) == "[[hooks]]"@.push('\n')
            + ("event = "@ + spec_toml_basic_string(event)).push('\n') + (match matcher {
            Some(m) => ("matcher = "@ + spec_toml_basic_string(m@)).push('\n'),
            None => seq![],
        }) + ("command = "@ + spec_toml_basic_string(
            spec_hook_command(hook_path, Some(action), platform),
        )).push('\n') + "timeout = 10"@.push('\n') + seq!['\n'],
{
    reveal_strlit("[[hooks]]\nevent = ");
    reveal_strlit("[[hooks]]");
    reveal_strlit("event = ");
    reveal_strlit("\n");
    reveal_strlit("\ntimeout = 10\n\n");
    reveal_strlit("timeout = 10");
    let e = spec_toml_basic_string(event);
    let c = spec_toml_basic_string(spec_hook_command(hook_path, Some(action), platform));
    let m = match matcher {
        Some(m) => "matcher = "@ + spec_toml_basic_string(m@) + "\n"@,
        None => seq![],
    };
    let p1 = "[[hooks]]"@.push('\n');
    let p2 = ("event = "@ + e).push('\n');
    assert("[[hooks]]\nevent = "@ + e + "\n"@ =~= p1 + p2);
    let x = p1 + p2 + m;
    let tail = "command = "@ + c + "\ntimeout = 10\n\n"@;
    assert(tail =~= ("command = "@ + c).push('\n') + "timeout = 10"@.push('\n') + seq!['\n']);
    assert(x + "command = "@ + c + "\ntimeout = 10\n\n"@ =~= x + tail);
    assert(x + tail =~= x + ("command = "@ + c).push('\n') + "timeout = 10"@.push('\n') + seq![
        '\n',
    ]);
    match matcher {
        Some(mm) => {
            assert(m =~= ("matcher = "@ + spec_toml_basic_string(mm@)).push('\n'));
        },
        None => {},
    }
}

/// The lines of one hook table: none is a marker line.
proof fn lemma_kimi_hook_table_lines(
    event: Seq<char>,
    matcher: Option<&str>,
    hook_path: Seq<char>,
    action: &str,
    platform: Platform,
)
    ensures
        ends_with_char(spec_kimi_hook_table(event, matcher, hook_path, action, platform), '\n'),
        forall|j: int|
            0 <= j < text_lines(spec_kimi_hook_table(event, matcher, hook_path, action, platform)).len()
                ==> kimi_plain_line(
                #[trigger] text_lines(
                    spec_kimi_hook_table(event, matcher, hook_path, action, platform),
                )[j],
            ),
{
    reveal_strlit("[[hooks]]");
    reveal_strlit("event = ");
    reveal_strlit("matcher = ");
    reveal_strlit("command = ");
    reveal_strlit("timeout = 10");
    lemma_kimi_hook_table_shape(event, matcher, hook_path, action, platform);
    let table = spec_kimi_hook_table(event, matcher, hook_path, action, platform);
    let cmd = spec_hook_command(hook_path, Some(action), platform);
    let a = "[[hooks]]"@;
    let b = "event = "@ + spec_toml_basic_string(event);
    let c = "command = "@ + spec_toml_basic_string(cmd);
    let d = "timeout = 10"@;
    let empty = Seq::<char>::empty();
    lemma_basic_string_no_newline(event);
    lemma_basic_string_no_newline(cmd);
    assert(no_newline("event = "@));
    assert(no_newline("command = "@));
    lemma_no_newline_concat("event = "@, spec_toml_basic_string(event));
    lemma_no_newline_concat("command = "@, spec_toml_basic_string(cmd));
    assert(no_newline(a));
    assert(no_newline(d));
    lemma_lines_single(a);
    lemma_lines_single(b);
    lemma_lines_single(c);
    lemma_lines_single(d);
    lemma_lines_single(empty);
    assert(empty.push('\n') =~= seq!['\n']);
    lemma_kimi_plain_line(a);
    lemma_kimi_plain_line(b);
    lemma_kimi_plain_line(c);
    lemma_kimi_plain_line(d);
    lemma_kimi_plain_line(empty);
    let x1 = a.push('\n') + b.push('\n');
    lemma_lines_concat(a.push('\n'), b.push('\n'));
    let (x2, ml) = match matcher {
        Some(m) => {
            let mm = "matcher = "@ + spec_toml_basic_string(m@);
            lemma_basic_string_no_newline(m@);
            assert(no_newline("matcher = "@));
            lemma_no_newline_concat("matcher = "@, spec_toml_basic_string(m@));
            lemma_kimi_plain_line(mm);
            lemma_lines_single(mm);
            lemma_lines_concat(x1, mm.push('\n'));
            (x1 + mm.push('\n'), seq![mm])
        },
        None => {
            assert(x1 + Seq::<char>::empty() =~= x1);
            (x1, Seq::<Seq<char>>::empty())
        },
    };
    assert(text_lines(x2) =~= seq![a, b] + ml);
    assert(ends_with_char(x2, '\n'));
    let x3 = x2 + c.push('\n');
    lemma_lines_concat(x2, c.push('\n'));
    let x4 = x3 + d.push('\n');
    lemma_lines_concat(x3, d.push('\n'));
    let x5 = x4 + seq!['\n'];
    lemma_lines_concat(x4, seq!['\n']);
    assert(table == x5);
    let all = seq![a, b] + ml + seq![c, d, empty];
    assert(text_lines(table) =~= all);
    assert forall|j: int| 0 <= j < all.len() implies kimi_plain_line(#[trigger] all[j]) by {
        if j < 2 {
            if j == 0 {
            } else {
            }
        } else if j < 2 + ml.len() {
            assert(all[j] == ml[j - 2]);
        } else if j == 2 + ml.len() {
        } else if j == 3 + ml.len() {
        } else {
        }
    }
}

/// The lines of the first `n` hook tables: none is a marker line.
proof fn lemma_kimi_hook_tables_lines(hook_path: Seq<char>, platform: Platform, n: int)
    requires
        0 <= n <= spec_kimi_hook_events().len(),
    ensures
        n > 0 ==> ends_with_char(spec_kimi_hook_tables(hook_path, platform, n), '\n'),
        forall|j: int|
            0 <= j < text_lines(spec_kimi_hook_tables(hook_path, platform, n)).len()
                ==> kimi_plain_line(
                #[trigger] text_lines(spec_kimi_hook_tables(hook_path, platform, n))[j],
            ),
    decreases n,
{
    if n > 0 {
        let e = spec_kimi_hook_events()[n - 1];
        let prev = spec_kimi_hook_tables(hook_path, platform, n - 1);
        let table = spec_kimi_hook_table(e.0@, e.1, hook_path, e.2, platform);
        let all = spec_kimi_hook_tables(hook_path, platform, n);
        assert(all == prev + table);
        lemma_kimi_hook_tables_lines(hook_path, platform, n - 1);
        lemma_kimi_hook_table_lines(e.0@, e.1, hook_path, e.2, platform);
        if n == 1 {
            assert(all =~= table);
        } else {
            lemma_lines_concat(prev, table);
            assert forall|j: int| 0 <= j < text_lines(all).len() implies kimi_plain_line(
                #[trigger] text_lines(all)[j],
            ) by {
                if j < text_lines(prev).len() {
                    assert(text_lines(all)[j] == text_lines(prev)[j]);
                } else {
                    assert(text_lines(all)[j] == text_lines(table)[j - text_lines(prev).len()]);
                }
            }
        }
        assert(all.last() == table.last());
    } else {
        assert(text_lines(spec_kimi_hook_tables(hook_path, platform, n)) =~= Seq::<
            Seq<char>,
        >::empty());
    }
}

/// The managed block that `build_kimi_config_with_hooks` writes.
pub open spec fn spec_kimi_block(hook_path: Seq<char>, platform: Platform) -> Seq<char> {
    KIMI_CONFIG_BLOCK_BEGIN@ + "\n"@ + spec_kimi_hook_tables(
        hook_path,
        platform,
        spec_kimi_hook_events().len() as int,
    ) + KIMI_CONFIG_BLOCK_END@ + "\n"@
}

/// The lines of the managed block: the begin marker, lines that are no markers, the end
/// marker.
proof fn lemma_kimi_block_lines(hook_path: Seq<char>, platform: Platform)
    ensures
        ends_with_char(spec_kimi_block(hook_path, platform), '\n'),
        text_lines(spec_kimi_block(hook_path, platform)) == seq![KIMI_CONFIG_BLOCK_BEGIN@]
            + text_lines(
            spec_kimi_hook_tables(hook_path, platform, spec_kimi_hook_events().len() as int),
        ) + seq![KIMI_CONFIG_BLOCK_END@],
        forall|j: int|
            0 <= j < text_lines(
                spec_kimi_hook_tables(hook_path, platform, spec_kimi_hook_events().len() as int),
            ).len() ==> kimi_plain_line(
                #[trigger] text_lines(
                    spec_kimi_hook_tables(
                        hook_path,
                        platform,
                        spec_kimi_hook_events().len() as int,
                    ),
                )[j],
            ),
{
    reveal_strlit("\n");
    lemma_kimi_markers();
    let n = spec_kimi_hook_events().len() as int;
    let t = spec_kimi_hook_tables(hook_path, platform, n);
    let b = KIMI_CONFIG_BLOCK_BEGIN@;
    let e = KIMI_CONFIG_BLOCK_END@;
    lemma_kimi_hook_tables_lines(hook_path, platform, n);
    let block = spec_kimi_block(hook_path, platform);
    assert(block =~= b.push('\n') + (t + e.push('\n')));
    lemma_lines_cons(b, t + e.push('\n'));
    lemma_lines_concat(t, e.push('\n'));
    lemma_lines_single(e);
    assert(text_lines(block) =~= seq![b] + text_lines(t) + seq![e]);
}

/// What the user wrote, once the managed blocks are cut out: no marker begins a block in it,
/// no carriage return ends one of its lines and it does not end a line.
proof fn lemma_kimi_user_part(content: Seq<char>)
    requires
        lines_end_cleanly(content),
    ensures
        lines_end_cleanly(kimi_user_part(content)),
        !ends_with_char(kimi_user_part(content), '\n'),
        forall|j: int|
            0 <= j < text_lines(kimi_user_part(content)).len() ==> trim(
                #[trigger] text_lines(kimi_user_part(content))[j],
            ) != KIMI_CONFIG_BLOCK_BEGIN@,
{
    let r = kimi_user_part(content);
    let ls = text_lines(content);
    lemma_trim_newlines_end(spec_remove_kimi_config_block(content));
    if !has_marker_line(ls, KIMI_CONFIG_BLOCK_BEGIN@) {
        lemma_trim_newlines_end_cleanly(content);
        lemma_lines_trim_newlines_prefix(content);
        assert forall|j: int| 0 <= j < text_lines(r).len() implies trim(
            #[trigger] text_lines(r)[j],
        ) != KIMI_CONFIG_BLOCK_BEGIN@ by {
            assert(text_lines(r)[j] == ls[j]);
        }
    } else {
        let k = kimi_kept(ls, 0, false);
        let x = spec_join_toml_lines(k, ends_with_char(content, '\n'));
        let y = join_lines(k).push('\n');
        lemma_tidy_end_trim(x);
        lemma_trim_newlines_end_push(join_lines(k));
        assert(trim_newlines_end(x) == trim_newlines_end(y));
        assert(r == trim_newlines_end(y));
        lemma_lines_plain(content);
        lemma_kimi_kept_lines(ls, 0, false, |l: Seq<char>| plain_line(l));
        lemma_join_ends_cleanly(k);
        lemma_trim_newlines_end(y);
        lemma_trim_newlines_end_cleanly(y);
        if k.len() == 0 {
            assert(join_lines(k) =~= Seq::<char>::empty());
            assert(y =~= seq!['\n']);
            assert(y.drop_last() =~= Seq::<char>::empty());
            assert(r =~= Seq::<char>::empty());
            assert(text_lines(r) =~= Seq::<Seq<char>>::empty());
        } else {
            lemma_lines_of_joined(k);
            lemma_lines_trim_newlines_prefix(y);
            assert forall|j: int| 0 <= j < text_lines(r).len() implies trim(
                #[trigger] text_lines(r)[j],
            ) != KIMI_CONFIG_BLOCK_BEGIN@ by {
                assert(text_lines(r)[j] == k[j]);
            }
        }
    }
}

/// Cutting the managed block out of a configuration that `build_kimi_config_with_hooks`
/// wrote gives back what the user wrote, ended by one line ending (nothing when the user
/// wrote nothing), when no carriage return ends a line of the configuration it was given.
pub proof fn law_remove_kimi_block_after_build(
    content: Seq<char>,
    hook_path: Seq<char>,
    platform: Platform,
)
    requires
        lines_end_cleanly(content),
    ensures
        spec_remove_kimi_config_block(
            spec_build_kimi_config_with_hooks(content, hook_path, platform),
        ) == (if kimi_user_part(content).len() == 0 {
            kimi_user_part(content)
        } else {
            kimi_user_part(content).push('\n')
        }),
{
    let r = kimi_user_part(content);
    let built = spec_build_kimi_config_with_hooks(content, hook_path, platform);
    let block = spec_kimi_block(hook_path, platform);
    let b = KIMI_CONFIG_BLOCK_BEGIN@;
    let e = KIMI_CONFIG_BLOCK_END@;
    let tl = text_lines(
        spec_kimi_hook_tables(hook_path, platform, spec_kimi_hook_events().len() as int),
    );
    lemma_kimi_markers();
    lemma_kimi_user_part(content);
    lemma_kimi_block_lines(hook_path, platform);
    let empty = Seq::<char>::empty();
    if r.len() == 0 {
        assert(built =~= block);
        let ls = text_lines(built);
        assert(ls == seq![b] + tl + seq![e]);
        assert(ls[0] == b);
        assert(has_marker_line(ls, b));
        let n = tl.len() as int + 1;
        assert(ls[n] == e);
        assert forall|j: int| 1 <= j < n implies kimi_plain_line(#[trigger] ls[j]) by {
            assert(ls[j] == tl[j - 1]);
        }
        lemma_kimi_kept_inside(ls, 1, n);
        assert(kimi_kept(ls, 0, false) == kimi_kept(ls, 1, true));
        assert(kimi_kept(ls, n + 1, false) =~= Seq::<Seq<char>>::empty());
        assert(built.last() == block.last());
        assert(join_lines(Seq::<Seq<char>>::empty()) =~= empty);
        assert(spec_join_toml_lines(Seq::<Seq<char>>::empty(), true) =~= seq!['\n']);
        assert(strip_blank_tail(seq!['\n']) == seq!['\n']);
    } else {
        let lr = text_lines(r);
        let p1 = r.push('\n');
        assert(built =~= p1 + (empty.push('\n') + block));
        lemma_lines_concat(p1, empty.push('\n') + block);
        lemma_lines_push_newline(r);
        lemma_lines_cons(empty, block);
        let ls = text_lines(built);
        assert(ls =~= lr + seq![empty] + (seq![b] + tl + seq![e]));
        let n = lr.len() as int;
        assert forall|j: int| 0 <= j < n + 1 implies trim(#[trigger] ls[j]) != b by {
            if j < n {
                assert(ls[j] == lr[j]);
            } else {
                assert(ls[j] == empty);
                assert(trim(empty).len() == 0);
            }
        }
        lemma_kimi_kept_outside(ls, 0, n + 1);
        assert(ls[n + 1] == b);
        assert(has_marker_line(ls, b));
        assert(kimi_kept(ls, n + 1, false) == kimi_kept(ls, n + 2, true));
        let m = n + 2 + tl.len();
        assert(ls[m] == e);
        assert forall|j: int| n + 2 <= j < m implies kimi_plain_line(#[trigger] ls[j]) by {
            assert(ls[j] == tl[j - n - 2]);
        }
        lemma_kimi_kept_inside(ls, n + 2, m);
        assert(kimi_kept(ls, m + 1, false) =~= Seq::<Seq<char>>::empty());
        let k = kimi_kept(ls, 0, false);
        assert(k =~= lr.push(empty));
        assert(built.last() == block.last());
        lemma_text_lines_nonempty(r);
        law_lines_join_roundtrip(r);
        assert(join_lines(lr) =~= r);
        assert(k.drop_last() =~= lr);
        assert(join_lines(k) == join_lines(lr) + seq!['\n'] + empty);
        let x = r.push('\n').push('\n');
        assert(spec_join_toml_lines(k, true) =~= x);
        assert(x.drop_last() =~= p1);
        assert(strip_blank_tail(x) == strip_blank_tail(p1));
        assert(p1[p1.len() - 2] == r.last());
        assert(strip_blank_tail(p1) == p1);
    }
}

/// Building the Kimi configuration a second time changes nothing, when no carriage return
/// ends a line of the configuration first given.
pub proof fn law_build_kimi_config_idempotent(
    content: Seq<char>,
    hook_path: Seq<char>,
    platform: Platform,
)
    requires
        lines_end_cleanly(content),
    ensures
        spec_build_kimi_config_with_hooks(
            spec_build_kimi_config_with_hooks(content, hook_path, platform),
            hook_path,
            platform,
        ) == spec_build_kimi_config_with_hooks(content, hook_path, platform),
{
    let r = kimi_user_part(content);
    let built = spec_build_kimi_config_with_hooks(content, hook_path, platform);
    law_remove_kimi_block_after_build(content, hook_path, platform);
    lemma_kimi_user_part(content);
    lemma_trim_newlines_end(spec_remove_kimi_config_block(content));
    if r.len() > 0 {
        lemma_trim_newlines_end_push(r);
    }
    assert(kimi_user_part(built) == r);
}

/// Cutting the managed blocks out of a Kimi configuration a second time changes nothing.
pub proof fn law_remove_kimi_config_block_idempotent(content: Seq<char>)
    ensures
        spec_remove_kimi_config_block(spec_remove_kimi_config_block(content))
            == spec_remove_kimi_config_block(content),
{
    law_remove_kimi_config_block_leaves_no_marker(content);
}

/// No line of a Kimi configuration with its managed blocks cut out is, trimmed, the begin
/// marker.
pub proof fn law_remove_kimi_config_block_leaves_no_marker(content: Seq<char>)
    ensures
        !has_marker_line(
            text_lines(spec_remove_kimi_config_block(content)),
            KIMI_CONFIG_BLOCK_BEGIN@,
        ),
{
    let ls = text_lines(content);
    if has_marker_line(ls, KIMI_CONFIG_BLOCK_BEGIN@) {
        let k = kimi_kept(ls, 0, false);
        let trailing = ends_with_char(content, '\n');
        let x = spec_join_toml_lines(k, trailing);
        let out = spec_tidy_end(x);
        assert(spec_remove_kimi_config_block(content) == out);
        lemma_lines_no_lf(content);
        lemma_kimi_kept_lines(ls, 0, false, |l: Seq<char>| no_lf(l));
        lemma_tidy_end_lines(x);
        let lx = text_lines(x);
        assert forall|j: int| 0 <= j < lx.len() implies trim(#[trigger] lx[j])
            != KIMI_CONFIG_BLOCK_BEGIN@ by {
            lemma_kimi_markers();
            let j0 = join_lines(k);
            if k.len() == 0 {
                assert(j0 =~= Seq::<char>::empty());
                assert(x =~= seq!['\n']);
                let e = Seq::<char>::empty();
                lemma_lines_single_cr(e);
                assert(e.push('\n') =~= seq!['\n']);
                assert(lx[j] == strip_cr(e));
                assert(trim(e).len() == 0);
            } else if x == j0.push('\n') {
                lemma_lines_of_joined_cr(k);
                assert(lx[j] == strip_cr(k[j]));
                lemma_trim_strip_cr(k[j]);
            } else if k.len() == 1 {
                assert(x == k[0]);
                assert(no_lf(k[0]));
                lemma_first_index(x, '\n');
                if first_index(x, '\n') < x.len() {
                    assert(x[first_index(x, '\n') as int] == '\n');
                }
                assert(lx == seq![x]);
            } else {
                let d = k.drop_last();
                let last = k.last();
                assert forall|i: int| 0 <= i < d.len() implies no_lf(#[trigger] d[i]) by {
                    assert(d[i] == k[i]);
                }
                lemma_lines_of_joined_cr(d);
                assert(x == join_lines(d) + seq!['\n'] + last);
                assert(x =~= join_lines(d).push('\n') + last);
                lemma_lines_concat(join_lines(d).push('\n'), last);
                let ld = d.map_values(|l: Seq<char>| strip_cr(l));
                if j < ld.len() {
                    assert(lx[j] == strip_cr(d[j]));
                    assert(d[j] == k[j]);
                    lemma_trim_strip_cr(k[j]);
                } else {
                    assert(no_lf(k[k.len() - 1]));
                    lemma_first_index(last, '\n');
                    if first_index(last, '\n') < last.len() {
                        assert(last[first_index(last, '\n') as int] == '\n');
                    }
                    if last.len() == 0 {
                        assert(text_lines(last) =~= Seq::<Seq<char>>::empty());
                    } else {
                        assert(text_lines(last) == seq![last]);
                    }
                    assert(lx[j] == last);
                    assert(k[k.len() - 1] == last);
                }
            }
        }
        let lo = text_lines(out);
        if has_marker_line(lo, KIMI_CONFIG_BLOCK_BEGIN@) {
            let w = choose|w: int| 0 <= w < lo.len() && trim(#[trigger] lo[w])
                == KIMI_CONFIG_BLOCK_BEGIN@;
            assert(lo[w] == lx[w]);
        }
    }
}

} // verus!
