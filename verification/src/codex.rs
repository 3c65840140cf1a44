use vstd::prelude::*;

use crate::text::{
    ends_with_char, ends_with_char_str, join_lines, law_lines_join_roundtrip,
    lemma_join_ends_cleanly, lemma_lead_ws_unique, lemma_lines_concat, lemma_lines_cons,
    lemma_lines_of_joined, lemma_lines_plain, lemma_lines_push_newline, lemma_lines_single,
    lemma_lines_trim_newlines_prefix, lemma_trail_ws_unique, lemma_trim_newlines_end,
    lemma_trim_newlines_end_cleanly, lines_end_cleanly, no_cr, no_newline, plain_line, push_char,
    split_lines, starts_with, str_eq, text_lines, trim, trim_newlines_end, trim_newlines_end_str,
    trim_start,
};
use crate::toml_text::{
    is_toml_key, join_toml_lines, lemma_first_bracket_at, spec_is_toml_key, spec_join_toml_lines,
    spec_toml_table_header, toml_table_header,
};

verus! {

/// What a pass over the first `i` lines of a Codex configuration finds: whether the last table
/// header was `[features]`, the first `[features]` header, the last `hooks = ...` line and the
/// `codex_hooks = ...` lines inside `[features]` tables.
pub open spec fn codex_scan(ls: Seq<Seq<char>>, i: int) -> (bool, Option<int>, Option<int>, Seq<int>)
    decreases i,
{
    if i <= 0 {
        (false, None, None, seq![])
    } else {
        let (in_features, header, hooks, deprecated) = codex_scan(ls, i - 1);
        let line = ls[i - 1];
        match spec_toml_table_header(line) {
            Some(h) => {
                let now = h == "[features]"@;
                (
                    now,
                    if now && header is None {
                        Some(i - 1)
                    } else {
                        header
                    },
                    hooks,
                    deprecated,
                )
            },
            None => if !in_features {
                (in_features, header, hooks, deprecated)
            } else if spec_is_toml_key(line, "codex_hooks"@) {
                (in_features, header, hooks, deprecated.push(i - 1))
            } else if spec_is_toml_key(line, "hooks"@) {
                (in_features, header, Some(i - 1), deprecated)
            } else {
                (in_features, header, hooks, deprecated)
            },
        }
    }
}

/// `ls` without the lines at `idx`, removed from the last index to the first.
pub open spec fn remove_indexes(ls: Seq<Seq<char>>, idx: Seq<int>) -> Seq<Seq<char>>
    decreases idx.len(),
{
    if idx.len() == 0 {
        ls
    } else {
        remove_indexes(ls.remove(idx.last()), idx.drop_last())
    }
}

/// The Codex configuration with `hooks = true` in its `[features]` table and no
/// `codex_hooks` key there.
pub open spec fn spec_build_codex_config_with_hooks(content: Seq<char>) -> Seq<char> {
    let ls = text_lines(content);
    let trailing = ends_with_char(content, '\n');
    let (_, header, hooks, deprecated) = codex_scan(ls, ls.len() as int);
    let ls1 = match hooks {
        Some(h) => ls.update(h, "hooks = true"@),
        None => ls,
    };
    let ls2 = remove_indexes(ls1, deprecated);
    match hooks {
        Some(_) => spec_join_toml_lines(ls2, trailing),
        None => match header {
            Some(f) => spec_join_toml_lines(ls2.insert(f + 1, "hooks = true"@), trailing),
            None => {
                let r = trim_newlines_end(content);
                (if r.len() == 0 {
                    r
                } else {
                    r.push('\n').push('\n')
                }) + "[features]\nhooks = true\n"@
            },
        },
    }
}

/// The facts about `codex_scan` that keep its indexes in range.
pub proof fn lemma_codex_scan(ls: Seq<Seq<char>>, i: int)
    requires
        0 <= i <= ls.len(),
    ensures
        ({
            let (in_features, header, hooks, deprecated) = codex_scan(ls, i);
            &&& in_features ==> header is Some
            &&& header matches Some(f) ==> 0 <= f < i
            &&& hooks matches Some(h) ==> 0 <= h < i
            &&& deprecated.len() > 0 ==> header is Some
            &&& forall|j: int|
                0 <= j < deprecated.len() ==> #[trigger] deprecated[j] + (deprecated.len() - j)
                    <= i
            &&& forall|j: int|
                0 <= j < deprecated.len() ==> (header matches Some(f) && #[trigger] deprecated[j]
                    >= j + 1 + f)
            &&& forall|j: int, k: int|
                0 <= j < k < deprecated.len() ==> deprecated[j] < deprecated[k]
        }),
    decreases i,
{
    if i > 0 {
        lemma_codex_scan(ls, i - 1);
        let (in_features, header, hooks, deprecated) = codex_scan(ls, i - 1);
        let (_, _, _, d2) = codex_scan(ls, i);
        if d2.len() > deprecated.len() {
            assert(d2 == deprecated.push(i - 1));
            if deprecated.len() > 0 {
                assert(deprecated[deprecated.len() - 1] + 1 <= i - 1);
            }
        }
    }
}

/// Sets `hooks = true` in the first `[features]` table of a Codex configuration (replacing an
/// existing `hooks` setting, or adding the table at the end when there is none) and drops the
/// deprecated `codex_hooks` settings from `[features]` tables.
pub fn build_codex_config_with_hooks(content: &str) -> (res: String)
    ensures
        res@ == spec_build_codex_config_with_hooks(content@),
{
    let mut lines = split_lines(content);
    let ghost ls = lines.deep_view();
    let trailing_newline = ends_with_char_str(content, '\n');
    let mut in_top_level_features = false;
    let mut features_header_index: Option<usize> = None;
    let mut hooks_index: Option<usize> = None;
    let mut deprecated_hooks_indexes: Vec<usize> = Vec::new();
    let mut index: usize = 0;
    while index < lines.len()
        invariant
            ls == lines.deep_view(),
            index <= lines.len(),
            codex_scan(ls, index as int) == (
                in_top_level_features,
                match features_header_index {
                    Some(f) => Some(f as int),
                    None => None::<int>,
                },
                match hooks_index {
                    Some(h) => Some(h as int),
                    None => None::<int>,
                },
                deprecated_hooks_indexes@.map_values(|x: usize| x as int),
            ),
        decreases lines.len() - index,
    {
        let ghost old_dep = deprecated_hooks_indexes@;
        let line = lines[index].as_str();
        if let Some(header) = toml_table_header(line) {
            in_top_level_features = str_eq(header, "[features]");
            if in_top_level_features && features_header_index.is_none() {
                features_header_index = Some(index);
            }
        } else if in_top_level_features {
            if is_toml_key(line, "codex_hooks") {
                deprecated_hooks_indexes.push(index);
                proof {
                    assert(deprecated_hooks_indexes@.map_values(|x: usize| x as int) =~= old_dep.map_values(
                        |x: usize| x as int,
                    ).push(index as int));
                }
            } else if is_toml_key(line, "hooks") {
                hooks_index = Some(index);
            }
        }
        index += 1;
    }
    let ghost dep = deprecated_hooks_indexes@.map_values(|x: usize| x as int);
    proof {
        lemma_codex_scan(ls, ls.len() as int);
    }
    if let Some(index) = hooks_index {
        lines.set(index, String::from_str("hooks = true"));
        proof {
            assert(lines.deep_view() =~= ls.update(index as int, "hooks = true"@));
        }
    }
    let ghost ls1 = lines.deep_view();
    let n = lines.len();
    let d = deprecated_hooks_indexes.len();
    let mut k = d;
    proof {
        assert(dep.take(d as int) =~= dep);
    }
    while k > 0
        invariant
            dep == deprecated_hooks_indexes@.map_values(|x: usize| x as int),
            d == dep.len(),
            k <= d,
            n == ls1.len(),
            lines.len() == n - (d - k),
            remove_indexes(ls1, dep) == remove_indexes(lines.deep_view(), dep.take(k as int)),
            forall|j: int| 0 <= j < dep.len() ==> #[trigger] dep[j] + (dep.len() - j) <= n,
            forall|j: int| 0 <= j < dep.len() ==> 0 <= #[trigger] dep[j],
            features_header_index matches Some(f) ==> f < n && forall|j: int|
                0 <= j < dep.len() ==> #[trigger] dep[j] >= j + 1 + f,
        decreases k,
    {
        k -= 1;
        let at = deprecated_hooks_indexes[k];
        proof {
            assert(dep[k as int] == at as int);
        }
        let ghost before = lines@;
        let ghost before_dv = lines.deep_view();
        lines.remove(at);
        proof {
            assert(lines.deep_view() =~= before_dv.remove(at as int));
            assert(dep.take(k + 1).drop_last() =~= dep.take(k as int));
            assert(dep.take(k + 1).last() == at as int);
        }
    }
    proof {
        assert(dep.take(0) =~= Seq::<int>::empty());
    }
    if hooks_index.is_none() {
        if let Some(index) = features_header_index {
            proof {
                if d > 0 {
                    assert(dep[d - 1] >= d - 1 + 1 + index);
                    assert(dep[d - 1] + 1 <= n);
                }
            }
            let ghost before_dv = lines.deep_view();
            lines.insert(index + 1, String::from_str("hooks = true"));
            proof {
                assert(lines.deep_view() =~= before_dv.insert(index + 1, "hooks = true"@));
            }
            return join_toml_lines(lines, trailing_newline);
        }
        let mut result = String::from_str(trim_newlines_end_str(content));
        if !result.as_str().is_empty() {
            push_char(&mut result, '\n');
            push_char(&mut result, '\n');
        }
        result.append("[features]\nhooks = true\n");
        return result;
    }
    join_toml_lines(lines, trailing_newline)
}

/// The line that turns the hooks on.
pub open spec fn hooks_on_line() -> Seq<char> {
    "hooks = true"@
}

/// What the Codex configuration scan makes of the lines that `build_codex_config_with_hooks`
/// writes: `hooks = true` is a `hooks` key and no table header, `[features]` is a header, and
/// an empty line is neither.
proof fn lemma_codex_written_lines()
    ensures
        spec_toml_table_header(hooks_on_line()) is None,
        !spec_is_toml_key(hooks_on_line(), "codex_hooks"@),
        spec_is_toml_key(hooks_on_line(), "hooks"@),
        spec_toml_table_header("[features]"@) == Some("[features]"@),
        spec_toml_table_header(Seq::<char>::empty()) is None,
        !spec_is_toml_key(Seq::<char>::empty(), "codex_hooks"@),
        !spec_is_toml_key(Seq::<char>::empty(), "hooks"@),
        no_newline(hooks_on_line()),
        no_newline("[features]"@),
{
    reveal_strlit("hooks = true");
    reveal_strlit("codex_hooks");
    reveal_strlit("hooks");
    reveal_strlit("[features]");
    let ht = hooks_on_line();
    lemma_lead_ws_unique(ht, 0);
    lemma_trail_ws_unique(ht, ht.len() as int);
    assert(trim_start(ht) =~= ht);
    assert(trim(ht) =~= ht);
    assert(!starts_with("hooks = true"@, "codex_hooks"@));
    assert(ht.take(5) =~= "hooks"@);
    let rest = ht.skip(5);
    assert(rest[0] == ' ' && rest[1] == '=');
    lemma_lead_ws_unique(rest, 1);
    assert(trim_start(rest)[0] == '=');
    let ft = "[features]"@;
    lemma_lead_ws_unique(ft, 0);
    assert(trim_start(ft) =~= ft);
    assert(!starts_with(ft, seq!['[', '[']));
    lemma_first_bracket_at(ft, 0, 9);
    assert(ft.skip(10) =~= Seq::<char>::empty());
    lemma_lead_ws_unique(Seq::<char>::empty(), 0);
    assert(ft.take(10) =~= ft);
    let e = Seq::<char>::empty();
    lemma_lead_ws_unique(e, 0);
    lemma_trail_ws_unique(e, 0);
    assert(trim(e) =~= e);
}

/// The scan of a Codex configuration without line numbers: whether the last header was
/// `[features]`, whether a `[features]` header was seen, the last `hooks` line inside
/// `[features]` tables and how many `codex_hooks` lines were found there.
pub struct CodexRun {
    pub in_features: bool,
    pub seen_features: bool,
    pub hooks_line: Option<Seq<char>>,
    pub codex_lines: nat,
}

/// The run before any line.
pub open spec fn codex_run_start() -> CodexRun {
    CodexRun { in_features: false, seen_features: false, hooks_line: None, codex_lines: 0 }
}

/// What one more line does to the run.
pub open spec fn codex_step(st: CodexRun, line: Seq<char>) -> CodexRun {
    match spec_toml_table_header(line) {
        Some(h) => CodexRun {
            in_features: h == "[features]"@,
            seen_features: st.seen_features || h == "[features]"@,
            ..st
        },
        None => if !st.in_features {
            st
        } else if spec_is_toml_key(line, "codex_hooks"@) {
            CodexRun { codex_lines: st.codex_lines + 1, ..st }
        } else if spec_is_toml_key(line, "hooks"@) {
            CodexRun { hooks_line: Some(line), ..st }
        } else {
            st
        },
    }
}

/// The run over the lines `ls`, from `st`.
pub open spec fn codex_run(st: CodexRun, ls: Seq<Seq<char>>) -> CodexRun
    decreases ls.len(),
{
    if ls.len() == 0 {
        st
    } else {
        codex_step(codex_run(st, ls.drop_last()), ls.last())
    }
}

/// The run that `codex_scan` makes, without its line numbers.
pub open spec fn codex_scan_run(ls: Seq<Seq<char>>, i: int) -> CodexRun {
    let (in_features, header, hooks, deprecated) = codex_scan(ls, i);
    CodexRun {
        in_features,
        seen_features: header is Some,
        hooks_line: match hooks {
            Some(h) => Some(ls[h]),
            None => None,
        },
        codex_lines: deprecated.len(),
    }
}

proof fn lemma_codex_run_concat(st: CodexRun, a: Seq<Seq<char>>, b: Seq<Seq<char>>)
    ensures
        codex_run(st, a + b) == codex_run(codex_run(st, a), b),
    decreases b.len(),
{
    if b.len() == 0 {
        assert(a + b =~= a);
    } else {
        assert((a + b).drop_last() =~= a + b.drop_last());
        assert((a + b).last() == b.last());
        lemma_codex_run_concat(st, a, b.drop_last());
    }
}

proof fn lemma_codex_scan_run(ls: Seq<Seq<char>>, i: int)
    requires
        0 <= i <= ls.len(),
    ensures
        codex_run(codex_run_start(), ls.take(i)) == codex_scan_run(ls, i),
    decreases i,
{
    if i > 0 {
        lemma_codex_scan_run(ls, i - 1);
        assert(ls.take(i).drop_last() =~= ls.take(i - 1));
        assert(ls.take(i).last() == ls[i - 1]);
        lemma_codex_scan(ls, i - 1);
    } else {
        assert(ls.take(0) =~= Seq::<Seq<char>>::empty());
    }
}

/// A run keeps that `[features]` was seen whenever it is in such a table or has found a
/// `hooks` or `codex_hooks` line; and once seen, it stays seen.
proof fn lemma_codex_run_seen(st: CodexRun, ls: Seq<Seq<char>>)
    ensures
        st.seen_features ==> codex_run(st, ls).seen_features,
        (st.in_features ==> st.seen_features) && (st.hooks_line is Some ==> st.seen_features) && (
        st.codex_lines > 0 ==> st.seen_features) ==> {
            let r = codex_run(st, ls);
            &&& r.in_features ==> r.seen_features
            &&& r.hooks_line is Some ==> r.seen_features
            &&& r.codex_lines > 0 ==> r.seen_features
        },
    decreases ls.len(),
{
    if ls.len() > 0 {
        lemma_codex_run_seen(st, ls.drop_last());
    }
}

/// The `hooks` line that a run starts with matters only when no later line replaces it.
proof fn lemma_codex_run_hooks_split(st: CodexRun, ls: Seq<Seq<char>>)
    ensures
        ({
            let r = codex_run(CodexRun { hooks_line: None, ..st }, ls);
            codex_run(st, ls) == CodexRun {
                hooks_line: if r.hooks_line is Some {
                    r.hooks_line
                } else {
                    st.hooks_line
                },
                ..r
            }
        }),
    decreases ls.len(),
{
    if ls.len() > 0 {
        lemma_codex_run_hooks_split(st, ls.drop_last());
    }
}

/// The `codex_hooks` lines counted before a run add to those it counts.
proof fn lemma_codex_run_count(st: CodexRun, ls: Seq<Seq<char>>)
    ensures
        ({
            let r = codex_run(CodexRun { codex_lines: 0, ..st }, ls);
            codex_run(st, ls) == CodexRun { codex_lines: r.codex_lines + st.codex_lines, ..r }
        }),
    decreases ls.len(),
{
    if ls.len() > 0 {
        lemma_codex_run_count(st, ls.drop_last());
    }
}

/// Line `k` of `ls` is a `codex_hooks` line inside a `[features]` table.
pub open spec fn codex_hooks_line_at(ls: Seq<Seq<char>>, k: int) -> bool {
    &&& 0 <= k < ls.len()
    &&& codex_run(codex_run_start(), ls.take(k)).in_features
    &&& spec_toml_table_header(ls[k]) is None
    &&& spec_is_toml_key(ls[k], "codex_hooks"@)
}

/// Line `k` of `ls` is a `hooks` line inside a `[features]` table.
pub open spec fn hooks_line_at(ls: Seq<Seq<char>>, k: int) -> bool {
    &&& 0 <= k < ls.len()
    &&& codex_run(codex_run_start(), ls.take(k)).in_features
    &&& spec_toml_table_header(ls[k]) is None
    &&& !spec_is_toml_key(ls[k], "codex_hooks"@)
    &&& spec_is_toml_key(ls[k], "hooks"@)
}

/// Dropping one `codex_hooks` line leaves the run as it was, with one such line fewer.
proof fn lemma_codex_remove_one(ls: Seq<Seq<char>>, k: int)
    requires
        codex_hooks_line_at(ls, k),
    ensures
        ({
            let r = codex_run(codex_run_start(), ls);
            let q = codex_run(codex_run_start(), ls.remove(k));
            &&& q == CodexRun { codex_lines: q.codex_lines, ..r }
            &&& q.codex_lines + 1 == r.codex_lines
        }),
{
    let a = ls.take(k);
    let b = ls.skip(k + 1);
    assert(ls =~= a + seq![ls[k]] + b);
    assert(ls.remove(k) =~= a + b);
    lemma_codex_run_concat(codex_run_start(), a + seq![ls[k]], b);
    lemma_codex_run_concat(codex_run_start(), a, seq![ls[k]]);
    lemma_codex_run_concat(codex_run_start(), a, b);
    let s = codex_run(codex_run_start(), a);
    assert(seq![ls[k]].drop_last() =~= Seq::<Seq<char>>::empty());
    assert(codex_run(s, seq![ls[k]].drop_last()) == s);
    assert(codex_run(s, seq![ls[k]]) == codex_step(s, ls[k]));
    let s1 = codex_step(s, ls[k]);
    assert(s1 == CodexRun { codex_lines: s.codex_lines + 1, ..s });
    lemma_codex_run_count(s1, b);
    lemma_codex_run_count(s, b);
    assert(CodexRun { codex_lines: 0, ..s1 } == CodexRun { codex_lines: 0, ..s });
}

/// Lines before the first removed index stay where they were.
proof fn lemma_remove_indexes_take(ls: Seq<Seq<char>>, idx: Seq<int>, p: int)
    requires
        0 <= p <= ls.len(),
        forall|j: int| 0 <= j < idx.len() ==> p <= #[trigger] idx[j] < ls.len() - (idx.len() - 1 - j),
        forall|j: int, k: int| 0 <= j < k < idx.len() ==> idx[j] < idx[k],
    ensures
        remove_indexes(ls, idx).len() == ls.len() - idx.len(),
        remove_indexes(ls, idx).take(p) == ls.take(p),
        (forall|i: int| 0 <= i < ls.len() ==> plain_line(#[trigger] ls[i])) ==> forall|i: int|
            0 <= i < remove_indexes(ls, idx).len() ==> plain_line(
                #[trigger] remove_indexes(ls, idx)[i],
            ),
    decreases idx.len(),
{
    if idx.len() > 0 {
        let l = idx.last();
        let d = idx.drop_last();
        assert forall|j: int| 0 <= j < d.len() implies p <= #[trigger] d[j] < ls.remove(l).len() - (
        d.len() - 1 - j) by {
            assert(d[j] == idx[j]);
            assert(idx[j] < idx[idx.len() - 1]);
        }
        lemma_remove_indexes_take(ls.remove(l), d, p);
        assert(ls.remove(l).take(p) =~= ls.take(p));
        if forall|i: int| 0 <= i < ls.len() ==> plain_line(#[trigger] ls[i]) {
            assert forall|i: int| 0 <= i < ls.remove(l).len() implies plain_line(
                #[trigger] ls.remove(l)[i],
            ) by {
                if i < l {
                    assert(ls.remove(l)[i] == ls[i]);
                } else {
                    assert(ls.remove(l)[i] == ls[i + 1]);
                }
            }
        }
    }
}

/// Dropping `codex_hooks` lines, from the last to the first, leaves the run as it was with
/// that many such lines fewer.
proof fn lemma_codex_remove_indexes(ls: Seq<Seq<char>>, idx: Seq<int>)
    requires
        forall|j: int| 0 <= j < idx.len() ==> codex_hooks_line_at(ls, #[trigger] idx[j]),
        forall|j: int, k: int| 0 <= j < k < idx.len() ==> idx[j] < idx[k],
    ensures
        ({
            let r = codex_run(codex_run_start(), ls);
            let q = codex_run(codex_run_start(), remove_indexes(ls, idx));
            &&& q == CodexRun { codex_lines: q.codex_lines, ..r }
            &&& q.codex_lines + idx.len() == r.codex_lines
        }),
    decreases idx.len(),
{
    if idx.len() > 0 {
        let l = idx.last();
        let d = idx.drop_last();
        assert(codex_hooks_line_at(ls, idx[idx.len() - 1]));
        lemma_codex_remove_one(ls, l);
        let ls2 = ls.remove(l);
        assert forall|j: int| 0 <= j < d.len() implies codex_hooks_line_at(ls2, #[trigger] d[j]) by {
            assert(d[j] == idx[j]);
            assert(idx[j] < idx[idx.len() - 1]);
            assert(codex_hooks_line_at(ls, idx[j]));
            assert(ls2.take(d[j]) =~= ls.take(d[j]));
            assert(ls2[d[j]] == ls[d[j]]);
        }
        lemma_codex_remove_indexes(ls2, d);
    }
}

/// What `codex_scan` found is where it says: each `codex_hooks` index is such a line, the
/// `hooks` index is a `hooks` line with none after it, and the `[features]` index is a
/// `[features]` header with none before it.
proof fn lemma_codex_scan_found(ls: Seq<Seq<char>>, i: int)
    requires
        0 <= i <= ls.len(),
    ensures
        ({
            let (in_features, header, hooks, deprecated) = codex_scan(ls, i);
            &&& forall|j: int|
                0 <= j < deprecated.len() ==> codex_hooks_line_at(ls, #[trigger] deprecated[j])
            &&& hooks matches Some(h) ==> hooks_line_at(ls, h) && h < i
            &&& hooks matches Some(h) ==> forall|k: int| h < k < i ==> !hooks_line_at(ls, k)
            &&& hooks is None ==> forall|k: int| 0 <= k < i ==> !hooks_line_at(ls, k)
            &&& hooks is Some ==> header is Some
            &&& header matches Some(f) ==> spec_toml_table_header(ls[f]) == Some("[features]"@)
                && codex_scan(ls, f).1 is None
        }),
    decreases i,
{
    if i > 0 {
        lemma_codex_scan_found(ls, i - 1);
        lemma_codex_scan_run(ls, i - 1);
        lemma_codex_scan(ls, i - 1);
        let (in_features, header, hooks, deprecated) = codex_scan(ls, i - 1);
        let (_, header2, hooks2, d2) = codex_scan(ls, i);
        if d2.len() > deprecated.len() {
            assert(d2 == deprecated.push(i - 1));
            assert forall|j: int| 0 <= j < d2.len() implies codex_hooks_line_at(
                ls,
                #[trigger] d2[j],
            ) by {
                if j < deprecated.len() {
                    assert(d2[j] == deprecated[j]);
                }
            }
        } else {
            assert(d2 == deprecated);
        }
        if header2 != header {
            assert(header is None);
        }
    }
}

/// A run that meets no `hooks` line inside `[features]` finds none.
proof fn lemma_codex_run_no_hooks(st: CodexRun, b: Seq<Seq<char>>)
    requires
        st.hooks_line is None,
        forall|t: int|
            0 <= t < b.len() ==> !(codex_run(st, #[trigger] b.take(t)).in_features
                && spec_toml_table_header(b[t]) is None && !spec_is_toml_key(b[t], "codex_hooks"@)
                && spec_is_toml_key(b[t], "hooks"@)),
    ensures
        codex_run(st, b).hooks_line is None,
    decreases b.len(),
{
    if b.len() > 0 {
        let d = b.drop_last();
        assert forall|t: int| 0 <= t < d.len() implies !(codex_run(st, #[trigger] d.take(t)).in_features
            && spec_toml_table_header(d[t]) is None && !spec_is_toml_key(d[t], "codex_hooks"@)
            && spec_is_toml_key(d[t], "hooks"@)) by {
            assert(d.take(t) =~= b.take(t));
            assert(d[t] == b[t]);
        }
        lemma_codex_run_no_hooks(st, d);
        assert(b.take(b.len() - 1) =~= d);
    }
}

/// Putting `hooks = true` in place of a `hooks` line inside `[features]` changes only which
/// `hooks` line the run ends with; when no such line follows, it ends with `hooks = true`.
proof fn lemma_codex_replace_hooks(ls: Seq<Seq<char>>, h: int)
    requires
        hooks_line_at(ls, h),
    ensures
        ({
            let f = codex_run(codex_run_start(), ls);
            let g = codex_run(codex_run_start(), ls.update(h, hooks_on_line()));
            &&& g.in_features == f.in_features
            &&& g.seen_features == f.seen_features
            &&& g.codex_lines == f.codex_lines
            &&& (forall|k: int| h < k < ls.len() ==> !hooks_line_at(ls, k)) ==> g.hooks_line == Some(
                hooks_on_line(),
            )
        }),
{
    lemma_codex_written_lines();
    let ht = hooks_on_line();
    let a = ls.take(h);
    let b = ls.skip(h + 1);
    let ls2 = ls.update(h, ht);
    assert(ls =~= a + seq![ls[h]] + b);
    assert(ls2 =~= a + seq![ht] + b);
    let s = codex_run(codex_run_start(), a);
    lemma_codex_run_concat(codex_run_start(), a + seq![ls[h]], b);
    lemma_codex_run_concat(codex_run_start(), a, seq![ls[h]]);
    lemma_codex_run_concat(codex_run_start(), a + seq![ht], b);
    lemma_codex_run_concat(codex_run_start(), a, seq![ht]);
    assert(seq![ls[h]].drop_last() =~= Seq::<Seq<char>>::empty());
    assert(seq![ht].drop_last() =~= Seq::<Seq<char>>::empty());
    assert(codex_run(s, seq![ls[h]].drop_last()) == s);
    assert(codex_run(s, seq![ht].drop_last()) == s);
    let s1 = codex_step(s, ls[h]);
    let s2 = codex_step(s, ht);
    assert(codex_run(s, seq![ls[h]]) == s1);
    assert(codex_run(s, seq![ht]) == s2);
    assert(s1 == CodexRun { hooks_line: Some(ls[h]), ..s });
    assert(s2 == CodexRun { hooks_line: Some(ht), ..s });
    lemma_codex_run_hooks_split(s1, b);
    lemma_codex_run_hooks_split(s2, b);
    let s0 = CodexRun { hooks_line: None, ..s };
    assert(CodexRun { hooks_line: None, ..s1 } == s0);
    assert(CodexRun { hooks_line: None, ..s2 } == s0);
    if forall|k: int| h < k < ls.len() ==> !hooks_line_at(ls, k) {
        assert forall|t: int| 0 <= t < b.len() implies !(codex_run(s0, #[trigger] b.take(t)).in_features
            && spec_toml_table_header(b[t]) is None && !spec_is_toml_key(b[t], "codex_hooks"@)
            && spec_is_toml_key(b[t], "hooks"@)) by {
            lemma_codex_run_hooks_split(s1, b.take(t));
            lemma_codex_run_concat(codex_run_start(), a + seq![ls[h]], b.take(t));
            assert(ls.take(h + 1 + t) =~= a + seq![ls[h]] + b.take(t));
            assert(b[t] == ls[h + 1 + t]);
            assert(!hooks_line_at(ls, h + 1 + t));
        }
        lemma_codex_run_no_hooks(s0, b);
    }
}

/// A run over an empty line changes nothing.
proof fn lemma_codex_run_empty_last(ls: Seq<Seq<char>>)
    requires
        ls.len() > 0,
        ls.last() == Seq::<char>::empty(),
    ensures
        codex_run(codex_run_start(), ls) == codex_run(codex_run_start(), ls.drop_last()),
{
    lemma_codex_written_lines();
}

/// The lines of a text that `join_toml_lines` wrote from lines without line endings: those
/// lines, or all but a last empty one.
proof fn lemma_lines_of_join_toml(ls: Seq<Seq<char>>, trailing: bool)
    requires
        ls.len() > 0,
        forall|i: int| 0 <= i < ls.len() ==> plain_line(#[trigger] ls[i]),
    ensures
        lines_end_cleanly(spec_join_toml_lines(ls, trailing)),
        spec_join_toml_lines(ls, trailing).len() > 0,
        text_lines(spec_join_toml_lines(ls, trailing)) == ls || (ls.last() == Seq::<char>::empty()
            && text_lines(spec_join_toml_lines(ls, trailing)) == ls.drop_last()),
{
    let j = join_lines(ls);
    let out = spec_join_toml_lines(ls, trailing);
    lemma_join_ends_cleanly(ls);
    if trailing || j.len() == 0 {
        lemma_lines_of_joined(ls);
    } else if !ends_with_char(j, '\n') {
        lemma_lines_of_joined(ls);
        lemma_lines_push_newline(j);
    } else {
        let last = ls.last();
        assert(plain_line(ls[ls.len() - 1]));
        if ls.len() == 1 {
            assert(j == ls[0]);
            assert(j[j.len() - 1] == '\n');
        } else {
            let d = ls.drop_last();
            assert(j == join_lines(d) + seq!['\n'] + last);
            if last.len() > 0 {
                assert(j[j.len() - 1] == last[last.len() - 1]);
            }
            assert(last =~= Seq::<char>::empty());
            assert(j =~= join_lines(d).push('\n'));
            assert forall|i: int| 0 <= i < d.len() implies plain_line(#[trigger] d[i]) by {
                assert(d[i] == ls[i]);
            }
            lemma_lines_of_joined(d);
        }
    }
}

/// A text whose lines end cleanly, cut into lines and joined again as `join_toml_lines` does,
/// ending as it ended: the text itself.
proof fn lemma_join_toml_lines_roundtrip(s: Seq<char>)
    requires
        lines_end_cleanly(s),
        s.len() > 0,
    ensures
        spec_join_toml_lines(text_lines(s), ends_with_char(s, '\n')) == s,
{
    law_lines_join_roundtrip(s);
    if ends_with_char(s, '\n') {
        assert(join_lines(text_lines(s)).push('\n') =~= join_lines(text_lines(s)) + seq!['\n']);
    } else {
        assert(join_lines(text_lines(s)) + Seq::<char>::empty() =~= join_lines(text_lines(s)));
    }
}

/// Where the scan of a configuration without a `[features]` header stands after some of its
/// first lines: where it started.
proof fn lemma_codex_run_unseen(ls: Seq<Seq<char>>, m: int)
    requires
        0 <= m <= ls.len(),
        !codex_run(codex_run_start(), ls).seen_features,
    ensures
        codex_run(codex_run_start(), ls.take(m)) == codex_run_start(),
{
    assert(ls =~= ls.take(m) + ls.skip(m));
    lemma_codex_run_concat(codex_run_start(), ls.take(m), ls.skip(m));
    let r = codex_run(codex_run_start(), ls.take(m));
    lemma_codex_run_seen(r, ls.skip(m));
    lemma_codex_run_seen(codex_run_start(), ls.take(m));
}

/// The scan ends with `hooks = true` inside `[features]` and finds no `codex_hooks` there.
pub open spec fn codex_settled(out: Seq<char>) -> bool {
    let r = codex_run(codex_run_start(), text_lines(out));
    &&& lines_end_cleanly(out)
    &&& out.len() > 0
    &&& r.hooks_line == Some(hooks_on_line())
    &&& r.codex_lines == 0
}

/// The lines written when the configuration already has a `hooks` line in `[features]`.
proof fn lemma_codex_built_with_hooks(content: Seq<char>)
    requires
        lines_end_cleanly(content),
        codex_scan(text_lines(content), text_lines(content).len() as int).2 is Some,
    ensures
        codex_settled(spec_build_codex_config_with_hooks(content)),
{
    lemma_codex_written_lines();
    let ht = hooks_on_line();
    let ls = text_lines(content);
    let n = ls.len() as int;
    let trailing = ends_with_char(content, '\n');
    let (_, header, hooks, dep) = codex_scan(ls, n);
    let h = hooks->0;
    let out = spec_build_codex_config_with_hooks(content);
    lemma_codex_scan(ls, n);
    lemma_codex_scan_found(ls, n);
    lemma_codex_scan_run(ls, n);
    assert(ls.take(n) =~= ls);
    lemma_lines_plain(content);
    let f = codex_run(codex_run_start(), ls);
    assert(f.codex_lines == dep.len());
    let ls1 = ls.update(h, ht);
    lemma_codex_replace_hooks(ls, h);
    assert forall|j: int| 0 <= j < dep.len() implies codex_hooks_line_at(ls1, #[trigger] dep[j]) by {
        let k = dep[j];
        assert(codex_hooks_line_at(ls, k));
        assert(k != h);
        assert(ls1[k] == ls[k]);
        if k > h {
            let p = ls.take(k);
            assert(p.take(h) =~= ls.take(h));
            assert(hooks_line_at(p, h));
            lemma_codex_replace_hooks(p, h);
            assert(p.update(h, ht) =~= ls1.take(k));
        } else {
            assert(ls1.take(k) =~= ls.take(k));
        }
    }
    lemma_codex_remove_indexes(ls1, dep);
    let ls2 = remove_indexes(ls1, dep);
    assert forall|i: int| 0 <= i < ls1.len() implies plain_line(#[trigger] ls1[i]) by {
        if i != h {
            assert(ls1[i] == ls[i]);
        }
    }
    assert forall|j: int| 0 <= j < dep.len() implies 0 <= #[trigger] dep[j] < ls1.len() - (dep.len()
        - 1 - j) by {
        assert(dep[j] + (dep.len() - j) <= n);
        assert(codex_hooks_line_at(ls, dep[j]));
    }
    lemma_remove_indexes_take(ls1, dep, 0);
    assert(ls2.len() > 0);
    lemma_lines_of_join_toml(ls2, trailing);
    assert(out == spec_join_toml_lines(ls2, trailing));
    if text_lines(out) != ls2 {
        lemma_codex_run_empty_last(ls2);
    }
}

/// The lines written when the configuration has a `[features]` table without `hooks`.
proof fn lemma_codex_built_in_features(content: Seq<char>)
    requires
        lines_end_cleanly(content),
        codex_scan(text_lines(content), text_lines(content).len() as int).2 is None,
        codex_scan(text_lines(content), text_lines(content).len() as int).1 is Some,
    ensures
        codex_settled(spec_build_codex_config_with_hooks(content)),
{
    lemma_codex_written_lines();
    let ht = hooks_on_line();
    let ls = text_lines(content);
    let n = ls.len() as int;
    let trailing = ends_with_char(content, '\n');
    let (_, header, hooks, dep) = codex_scan(ls, n);
    let fh = header->0;
    let out = spec_build_codex_config_with_hooks(content);
    lemma_codex_scan(ls, n);
    lemma_codex_scan_found(ls, n);
    lemma_codex_scan_run(ls, n);
    assert(ls.take(n) =~= ls);
    lemma_lines_plain(content);
    let ls2 = remove_indexes(ls, dep);
    lemma_codex_remove_indexes(ls, dep);
    assert forall|j: int| 0 <= j < dep.len() implies fh + 1 <= #[trigger] dep[j] < ls.len() - (
    dep.len() - 1 - j) by {
        assert(dep[j] + (dep.len() - j) <= n);
    }
    lemma_remove_indexes_take(ls, dep, fh + 1);
    if dep.len() > 0 {
        assert(dep[dep.len() - 1] + 1 <= n);
        assert(dep[dep.len() - 1] >= dep.len() - 1 + 1 + fh);
    }
    let l2 = ls2.insert(fh + 1, ht);
    lemma_codex_scan(ls, fh);
    lemma_codex_scan_found(ls, fh);
    lemma_codex_scan_run(ls, fh + 1);
    let s = codex_run(codex_run_start(), ls.take(fh + 1));
    assert(s == CodexRun {
        in_features: true,
        seen_features: true,
        hooks_line: None,
        codex_lines: 0,
    });
    let b = ls2.skip(fh + 1);
    assert(ls2 =~= ls2.take(fh + 1) + b);
    assert(l2 =~= ls2.take(fh + 1) + seq![ht] + b);
    lemma_codex_run_concat(codex_run_start(), ls2.take(fh + 1), b);
    lemma_codex_run_concat(codex_run_start(), ls2.take(fh + 1) + seq![ht], b);
    lemma_codex_run_concat(codex_run_start(), ls2.take(fh + 1), seq![ht]);
    assert(seq![ht].drop_last() =~= Seq::<Seq<char>>::empty());
    assert(codex_run(s, seq![ht].drop_last()) == s);
    let s2 = codex_step(s, ht);
    assert(codex_run(s, seq![ht]) == s2);
    lemma_codex_run_hooks_split(s2, b);
    assert(CodexRun { hooks_line: None, ..s2 } == s);
    assert forall|i: int| 0 <= i < l2.len() implies plain_line(#[trigger] l2[i]) by {
        if i < fh + 1 {
            assert(l2[i] == ls2[i]);
        } else if i > fh + 1 {
            assert(l2[i] == ls2[i - 1]);
        }
    }
    lemma_lines_of_join_toml(l2, trailing);
    assert(out == spec_join_toml_lines(l2, trailing));
    if text_lines(out) != l2 {
        lemma_codex_run_empty_last(l2);
    }
}

/// The lines of the `[features]` table that is added at the end.
proof fn lemma_codex_features_tail()
    ensures
        text_lines("[features]\nhooks = true\n"@) == seq!["[features]"@, hooks_on_line()],
        codex_run(codex_run_start(), seq!["[features]"@, hooks_on_line()]) == (CodexRun {
            in_features: true,
            seen_features: true,
            hooks_line: Some(hooks_on_line()),
            codex_lines: 0,
        }),
        no_cr("[features]\nhooks = true\n"@),
{
    lemma_codex_written_lines();
    reveal_strlit("[features]\nhooks = true\n");
    reveal_strlit("hooks = true");
    reveal_strlit("[features]");
    let ht = hooks_on_line();
    let ft = "[features]"@;
    let tail = "[features]\nhooks = true\n"@;
    assert(tail =~= ft.push('\n') + ht.push('\n'));
    lemma_lines_cons(ft, ht.push('\n'));
    lemma_lines_single(ht);
    let tl = seq![ft, ht];
    let st1 = CodexRun { in_features: true, seen_features: true, hooks_line: None, codex_lines: 0 };
    assert(codex_step(codex_run_start(), ft) == st1);
    assert(tl.drop_last() =~= seq![ft]);
    assert(seq![ft].drop_last() =~= Seq::<Seq<char>>::empty());
    assert(codex_run(codex_run_start(), seq![ft].drop_last()) == codex_run_start());
    assert(codex_run(codex_run_start(), seq![ft]) == st1);
}

/// The lines written when the configuration has no `[features]` table.
proof fn lemma_codex_built_fresh(content: Seq<char>)
    requires
        lines_end_cleanly(content),
        codex_scan(text_lines(content), text_lines(content).len() as int).2 is None,
        codex_scan(text_lines(content), text_lines(content).len() as int).1 is None,
    ensures
        codex_settled(spec_build_codex_config_with_hooks(content)),
{
    lemma_codex_written_lines();
    lemma_codex_features_tail();
    let ls = text_lines(content);
    let n = ls.len() as int;
    let out = spec_build_codex_config_with_hooks(content);
    lemma_codex_scan_run(ls, n);
    assert(ls.take(n) =~= ls);
    let f = codex_run(codex_run_start(), ls);
    let r = trim_newlines_end(content);
    let tail = "[features]\nhooks = true\n"@;
    let tl = seq!["[features]"@, hooks_on_line()];
    let e = Seq::<char>::empty();
    lemma_trim_newlines_end(content);
    lemma_trim_newlines_end_cleanly(content);
    if r.len() == 0 {
        assert(out =~= tail);
    } else {
        lemma_lines_trim_newlines_prefix(content);
        let m = text_lines(r).len() as int;
        assert(!f.seen_features);
        lemma_codex_run_unseen(ls, m);
        assert(ls.take(m) == text_lines(r));
        let rest = e.push('\n') + tail;
        assert(out =~= r.push('\n') + rest);
        lemma_lines_concat(r.push('\n'), rest);
        lemma_lines_push_newline(r);
        lemma_lines_cons(e, tail);
        assert(text_lines(out) =~= text_lines(r) + (seq![e] + tl));
        lemma_codex_run_concat(codex_run_start(), text_lines(r), seq![e] + tl);
        lemma_codex_run_concat(codex_run_start(), seq![e], tl);
        assert(seq![e].drop_last() =~= Seq::<Seq<char>>::empty());
        assert(codex_run(codex_run_start(), seq![e].drop_last()) == codex_run_start());
        assert(codex_run(codex_run_start(), seq![e]) == codex_run_start());
        assert forall|i: int| 0 <= i < out.len() && #[trigger] out[i] == '\r' implies i + 1
            < out.len() && out[i + 1] != '\n' by {
            if i < r.len() {
                assert(out[i] == r[i]);
                if i + 1 < r.len() {
                    assert(out[i + 1] == r[i + 1]);
                } else {
                    assert(r[r.len() - 1] != '\r');
                }
            } else if i > r.len() + 1 {
                assert(out[i] == tail[i - r.len() - 2]);
            }
        }
    }
}

/// After `build_codex_config_with_hooks`, the last `hooks` setting inside `[features]` tables
/// is `hooks = true` and no `codex_hooks` setting is left there, when no carriage return ends a
/// line of the configuration it was given.
pub proof fn law_build_codex_config_turns_hooks_on(content: Seq<char>)
    requires
        lines_end_cleanly(content),
    ensures
        codex_settled(spec_build_codex_config_with_hooks(content)),
{
    let ls = text_lines(content);
    let (_, header, hooks, _) = codex_scan(ls, ls.len() as int);
    if hooks is Some {
        lemma_codex_built_with_hooks(content);
    } else if header is Some {
        lemma_codex_built_in_features(content);
    } else {
        lemma_codex_built_fresh(content);
    }
}

/// Building the Codex configuration a second time changes nothing, when no carriage return
/// ends a line of the configuration first given.
pub proof fn law_build_codex_config_idempotent(content: Seq<char>)
    requires
        lines_end_cleanly(content),
    ensures
        spec_build_codex_config_with_hooks(spec_build_codex_config_with_hooks(content))
            == spec_build_codex_config_with_hooks(content),
{
    let out = spec_build_codex_config_with_hooks(content);
    law_build_codex_config_turns_hooks_on(content);
    let l = text_lines(out);
    let n = l.len() as int;
    lemma_codex_scan_run(l, n);
    lemma_codex_scan(l, n);
    assert(l.take(n) =~= l);
    let (_, header, hooks, dep) = codex_scan(l, n);
    let h = hooks->0;
    assert(l[h] == hooks_on_line());
    assert(dep =~= Seq::<int>::empty());
    assert(l.update(h, hooks_on_line()) =~= l);
    lemma_join_toml_lines_roundtrip(out);
}

} // verus!
