use vstd::prelude::*;

use crate::text::{
    chars_of, ends_with_char, find_char_from, is_whitespace, is_ws, join_lines, join_newline,
    lead_ws, lemma_lead_ws, lemma_no_lf_subrange, lemma_no_lf_trim, no_lf, push_char, split_once,
    starts_with, starts_with_char, starts_with_char_str, str_eq, strip_cr, trim, trim_end,
    trim_end_str, trim_start, trim_start_str, trim_str,
};

verus! {

/// The UTF-8 encoding of a concatenation is the concatenation of the encodings.
pub proof fn lemma_encode_utf8_add(a: Seq<char>, b: Seq<char>)
    ensures
        vstd::utf8::encode_utf8(a + b) == vstd::utf8::encode_utf8(a) + vstd::utf8::encode_utf8(b),
    decreases a.len(),
{
    if a.len() == 0 {
        assert(a + b =~= b);
        assert(vstd::utf8::encode_utf8(a) =~= Seq::<u8>::empty());
        assert(vstd::utf8::encode_utf8(a) + vstd::utf8::encode_utf8(b) =~= vstd::utf8::encode_utf8(
            b,
        ));
    } else {
        assert((a + b).drop_first() =~= a.drop_first() + b);
        assert((a + b)[0] == a[0]);
        lemma_encode_utf8_add(a.drop_first(), b);
        assert(vstd::utf8::encode_utf8(a + b) =~= vstd::utf8::encode_utf8(a)
            + vstd::utf8::encode_utf8(b));
    }
}

/// The trimmed line is blank or a comment.
pub open spec fn blank_or_comment(t: Seq<char>) -> bool {
    t.len() == 0 || t[0] == '#'
}

/// Bytes of leading whitespace (in UTF-8) of a line that holds content, else `None`.
pub open spec fn spec_yaml_indent(line: Seq<char>) -> Option<nat> {
    let t = trim_start(line);
    if blank_or_comment(t) {
        None
    } else {
        Some(vstd::utf8::encode_utf8(line.take(lead_ws(line) as int)).len())
    }
}

/// The key of a `key: value` line, trimmed; `None` for blank, comment and list lines and
/// for lines without a colon or with an empty key.
pub open spec fn spec_yaml_key_name(line: Seq<char>) -> Option<Seq<char>> {
    let t = trim_start(line);
    if blank_or_comment(t) || t[0] == '-' {
        None
    } else {
        match split_once(t, ':') {
            Some((k, _)) => if trim(k).len() == 0 {
                None
            } else {
                Some(trim(k))
            },
            None => None,
        }
    }
}

/// The key of a line whose indentation is `indent` bytes.
pub open spec fn spec_yaml_key_at_indent(line: Seq<char>, indent: nat) -> Option<Seq<char>> {
    match spec_yaml_indent(line) {
        Some(i) => if i == indent {
            spec_yaml_key_name(line)
        } else {
            None
        },
        None => None,
    }
}

/// The trimmed value of a `key: value` line with the given key and indentation.
pub open spec fn spec_yaml_key_value_at_indent(line: Seq<char>, indent: nat, key: Seq<char>) -> Option<
    Seq<char>,
> {
    match spec_yaml_indent(line) {
        Some(i) => if i != indent {
            None
        } else {
            let t = trim_start(line);
            if blank_or_comment(t) || t[0] == '-' {
                None
            } else {
                match split_once(t, ':') {
                    Some((k, v)) => if trim(k) == key {
                        Some(trim(v))
                    } else {
                        None
                    },
                    None => None,
                }
            }
        },
        None => None,
    }
}

/// The trimmed item of a `- item` line.
pub open spec fn spec_yaml_list_item_value(line: Seq<char>) -> Option<Seq<char>> {
    let t = trim(line);
    if starts_with(t, seq!['-', ' ']) {
        Some(trim(t.skip(2)))
    } else {
        None
    }
}

/// The item of a `- item` line whose indentation is `indent` bytes.
pub open spec fn spec_yaml_list_item_value_at_indent(line: Seq<char>, indent: nat) -> Option<Seq<char>> {
    match spec_yaml_indent(line) {
        Some(i) => if i == indent {
            spec_yaml_list_item_value(line)
        } else {
            None
        },
        None => None,
    }
}

/// Index where an inline comment begins, scanning from `i` in the given quoting state.
pub open spec fn comment_start(v: Seq<char>, i: int, quote: Option<char>, escaped: bool) -> Option<
    int,
>
    decreases v.len() - i,
{
    if i < 0 || i >= v.len() {
        None
    } else {
        let ch = v[i];
        match quote {
            Some(q) => if q == '"' && ch == '\\' && !escaped {
                comment_start(v, i + 1, quote, true)
            } else if ch == q && !escaped {
                comment_start(v, i + 1, None, false)
            } else {
                comment_start(v, i + 1, quote, false)
            },
            None => if ch == '"' || ch == '\'' {
                comment_start(v, i + 1, Some(ch), escaped)
            } else if ch == '#' && (i == 0 || is_ws(v[i - 1])) {
                Some(i)
            } else {
                comment_start(v, i + 1, None, escaped)
            },
        }
    }
}

/// `value` without a `#` comment that starts a word outside quotes, trailing whitespace trimmed.
pub open spec fn spec_strip_yaml_inline_comment(value: Seq<char>) -> Seq<char> {
    match comment_start(value, 0, None, false) {
        Some(i) => trim_end(value.take(i)),
        None => value,
    }
}

/// The text of a scalar: comment stripped, trimmed, one pair of matching quotes removed.
pub open spec fn spec_yaml_scalar_value(value: Seq<char>) -> Seq<char> {
    let v = trim(spec_strip_yaml_inline_comment(value));
    if v.len() >= 2 && ((v[0] == '"' && v.last() == '"') || (v[0] == '\'' && v.last() == '\'')) {
        v.subrange(1, v.len() - 1)
    } else {
        v
    }
}

/// Whether a `- item` line lists `value`.
pub open spec fn spec_yaml_list_item_matches(line: Seq<char>, value: Seq<char>) -> bool {
    match spec_yaml_list_item_value(line) {
        Some(item) => spec_yaml_scalar_value(item) == value,
        None => false,
    }
}

/// Whether a `- item` line at the given indentation lists `value`.
pub open spec fn spec_yaml_list_item_matches_at_indent(line: Seq<char>, indent: nat, value: Seq<char>) -> bool {
    match spec_yaml_list_item_value_at_indent(line, indent) {
        Some(item) => spec_yaml_scalar_value(item) == value,
        None => false,
    }
}

/// Lines joined by `"\n"`, with a final `"\n"` when asked for or when the text would be empty.
pub open spec fn spec_join_yaml_lines(ls: Seq<Seq<char>>, trailing_newline: bool) -> Seq<char> {
    let r = join_lines(ls);
    if trailing_newline || r.len() == 0 {
        r.push('\n')
    } else {
        r
    }
}

pub fn yaml_indent(line: &str) -> (res: Option<usize>)
    ensures
        res matches Some(n) ==> spec_yaml_indent(line@) == Some(n as nat),
        res is None ==> spec_yaml_indent(line@) is None,
{
    let trimmed = trim_start_str(line);
    if trimmed.is_empty() || starts_with_char_str(trimmed, '#') {
        return None;
    }
    proof {
        lemma_lead_ws(line@);
        let k = lead_ws(line@) as int;
        assert(line@ =~= line@.take(k) + trimmed@);
        lemma_encode_utf8_add(line@.take(k), trimmed@);
    }
    let total = line.as_bytes().len();
    let rest = trimmed.as_bytes().len();
    Some(total - rest)
}

pub fn yaml_key_name(line: &str) -> (res: Option<&str>)
    ensures
        res matches Some(k) ==> spec_yaml_key_name(line@) == Some(k@),
        res is None ==> spec_yaml_key_name(line@) is None,
{
    let trimmed = trim_start_str(line);
    if trimmed.is_empty() || starts_with_char_str(trimmed, '#') || starts_with_char_str(trimmed, '-') {
        return None;
    }
    let v = chars_of(trimmed);
    let c = find_char_from(&v, ':', 0);
    proof {
        assert(v@.skip(0) =~= v@);
    }
    if c == v.len() {
        return None;
    }
    let key = trim_str(trimmed.substring_char(0, c));
    proof {
        assert(trimmed@.subrange(0, c as int) =~= trimmed@.take(c as int));
    }
    if key.is_empty() {
        None
    } else {
        Some(key)
    }
}

pub fn yaml_key_at_indent(line: &str, indent: usize) -> (res: Option<&str>)
    ensures
        res matches Some(k) ==> spec_yaml_key_at_indent(line@, indent as nat) == Some(k@),
        res is None ==> spec_yaml_key_at_indent(line@, indent as nat) is None,
{
    match yaml_indent(line) {
        Some(i) => if i != indent {
            None
        } else {
            yaml_key_name(line)
        },
        None => None,
    }
}

pub fn yaml_key_value_at_indent<'a>(line: &'a str, indent: usize, key: &str) -> (res: Option<&'a str>)
    ensures
        res matches Some(v) ==> spec_yaml_key_value_at_indent(line@, indent as nat, key@) == Some(v@),
        res is None ==> spec_yaml_key_value_at_indent(line@, indent as nat, key@) is None,
{
    match yaml_indent(line) {
        Some(i) => if i != indent {
            return None;
        },
        None => {
            return None;
        },
    }
    let trimmed = trim_start_str(line);
    if trimmed.is_empty() || starts_with_char_str(trimmed, '#') || starts_with_char_str(trimmed, '-') {
        return None;
    }
    let v = chars_of(trimmed);
    let c = find_char_from(&v, ':', 0);
    proof {
        assert(v@.skip(0) =~= v@);
    }
    if c == v.len() {
        return None;
    }
    let line_key = trim_str(trimmed.substring_char(0, c));
    let value = trim_str(trimmed.substring_char(c + 1, v.len()));
    proof {
        assert(trimmed@.subrange(0, c as int) =~= trimmed@.take(c as int));
        assert(trimmed@.subrange(c + 1, v.len() as int) =~= trimmed@.skip(c + 1));
    }
    if str_eq(line_key, key) {
        Some(value)
    } else {
        None
    }
}

pub fn yaml_list_item_value(line: &str) -> (res: Option<&str>)
    ensures
        res matches Some(v) ==> spec_yaml_list_item_value(line@) == Some(v@),
        res is None ==> spec_yaml_list_item_value(line@) is None,
{
    let t = trim_str(line);
    let v = chars_of(t);
    if v.len() >= 2 && v[0] == '-' && v[1] == ' ' {
        proof {
            assert(t@.take(2) =~= seq!['-', ' ']);
        }
        let rest = t.substring_char(2, v.len());
        proof {
            assert(t@.subrange(2, v.len() as int) =~= t@.skip(2));
        }
        Some(trim_str(rest))
    } else {
        proof {
            if starts_with(t@, seq!['-', ' ']) {
                assert(t@.take(2)[0] == '-');
                assert(t@.take(2)[1] == ' ');
            }
        }
        None
    }
}

pub fn yaml_list_item_value_at_indent(line: &str, indent: usize) -> (res: Option<&str>)
    ensures
        res matches Some(v) ==> spec_yaml_list_item_value_at_indent(line@, indent as nat) == Some(v@),
        res is None ==> spec_yaml_list_item_value_at_indent(line@, indent as nat) is None,
{
    match yaml_indent(line) {
        Some(i) => if i != indent {
            None
        } else {
            yaml_list_item_value(line)
        },
        None => None,
    }
}

pub fn strip_yaml_inline_comment(value: &str) -> (res: &str)
    ensures
        res@ == spec_strip_yaml_inline_comment(value@),
{
    let v = chars_of(value);
    let mut quote: Option<char> = None;
    let mut escaped = false;
    let mut i: usize = 0;
    while i < v.len()
        invariant
            v@ == value@,
            i <= v.len(),
            comment_start(value@, 0, None, false) == comment_start(value@, i as int, quote, escaped),
        decreases v.len() - i,
    {
        let ch = v[i];
        if let Some(quote_char) = quote {
            if quote_char == '"' && ch == '\\' && !escaped {
                escaped = true;
                i += 1;
                continue;
            }
            if ch == quote_char && !escaped {
                quote = None;
            }
            escaped = false;
            i += 1;
            continue;
        }
        if ch == '"' || ch == '\'' {
            quote = Some(ch);
        } else if ch == '#' && (i == 0 || is_whitespace(v[i - 1])) {
            let head = value.substring_char(0, i);
            proof {
                assert(value@.subrange(0, i as int) =~= value@.take(i as int));
            }
            return trim_end_str(head);
        }
        i += 1;
    }
    value
}

pub fn yaml_scalar_value(value: &str) -> (res: String)
    ensures
        res@ == spec_yaml_scalar_value(value@),
{
    let v = trim_str(strip_yaml_inline_comment(value));
    let c = chars_of(v);
    let n = c.len();
    if n >= 2 {
        let quoted = (c[0] == '"' && c[n - 1] == '"') || (c[0] == '\'' && c[n - 1] == '\'');
        if quoted {
            return String::from_str(v.substring_char(1, n - 1));
        }
    }
    String::from_str(v)
}

pub fn yaml_list_item_matches(line: &str, value: &str) -> (res: bool)
    ensures
        res == spec_yaml_list_item_matches(line@, value@),
{
    match yaml_list_item_value(line) {
        Some(item) => {
            let s = yaml_scalar_value(item);
            str_eq(s.as_str(), value)
        },
        None => false,
    }
}

pub fn yaml_list_item_matches_at_indent(line: &str, indent: usize, value: &str) -> (res: bool)
    ensures
        res == spec_yaml_list_item_matches_at_indent(line@, indent as nat, value@),
{
    match yaml_list_item_value_at_indent(line, indent) {
        Some(item) => {
            let s = yaml_scalar_value(item);
            str_eq(s.as_str(), value)
        },
        None => false,
    }
}

pub fn join_yaml_lines(lines: Vec<String>, trailing_newline: bool) -> (res: String)
    ensures
        res@ == spec_join_yaml_lines(lines.deep_view(), trailing_newline),
{
    let mut result = join_newline(&lines);
    if trailing_newline || result.as_str().is_empty() {
        push_char(&mut result, '\n');
    }
    result
}

/// The items of a flow sequence body, scanning from `i` with the current item starting at `start`.
pub open spec fn flow_items_from(s: Seq<char>, i: int, start: int, quote: Option<char>, escaped: bool) -> Option<
    Seq<Seq<char>>,
>
    decreases s.len() - i,
{
    if i < 0 || i >= s.len() {
        if quote is Some {
            None
        } else {
            Some(seq![spec_yaml_scalar_value(s.subrange(start, s.len() as int))])
        }
    } else {
        let ch = s[i];
        match quote {
            Some(q) => if q == '"' && ch == '\\' && !escaped {
                flow_items_from(s, i + 1, start, quote, true)
            } else if ch == q && !escaped {
                flow_items_from(s, i + 1, start, None, false)
            } else {
                flow_items_from(s, i + 1, start, quote, false)
            },
            None => if ch == '"' || ch == '\'' {
                flow_items_from(s, i + 1, start, Some(ch), escaped)
            } else if ch == ',' {
                match flow_items_from(s, i + 1, i + 1, None, escaped) {
                    Some(rest) => Some(seq![spec_yaml_scalar_value(s.subrange(start, i))] + rest),
                    None => None,
                }
            } else {
                flow_items_from(s, i + 1, start, None, escaped)
            },
        }
    }
}

/// The items of an inline `[a, b, ...]` sequence, each read as a scalar; `None` when the value
/// is not bracketed or a quote is left open.
pub open spec fn spec_yaml_flow_sequence_items(value: Seq<char>) -> Option<Seq<Seq<char>>> {
    let v = trim(spec_strip_yaml_inline_comment(value));
    if !starts_with_char(v, '[') {
        None
    } else {
        let a = v.drop_first();
        if !ends_with_char(a, ']') {
            None
        } else {
            let inner = trim(a.drop_last());
            if inner.len() == 0 {
                Some(seq![])
            } else {
                flow_items_from(inner, 0, 0, None, false)
            }
        }
    }
}

pub open spec fn prepend_items(items: Seq<Seq<char>>, rest: Option<Seq<Seq<char>>>) -> Option<Seq<Seq<char>>> {
    match rest {
        Some(r) => Some(items + r),
        None => None,
    }
}

pub fn yaml_flow_sequence_items(value: &str) -> (res: Option<Vec<String>>)
    ensures
        res matches Some(items) ==> spec_yaml_flow_sequence_items(value@) == Some(items.deep_view()),
        res is None ==> spec_yaml_flow_sequence_items(value@) is None,
{
    let value = trim_str(strip_yaml_inline_comment(value));
    let vc = chars_of(value);
    if vc.len() == 0 || vc[0] != '[' {
        return None;
    }
    let n = vc.len();
    if n < 2 || vc[n - 1] != ']' {
        proof {
            let a = value@.drop_first();
            if a.len() > 0 {
                assert(a.last() == vc@[n - 1]);
            }
        }
        return None;
    }
    let inner = trim_str(value.substring_char(1, n - 1));
    proof {
        assert(value@.subrange(1, n - 1) =~= value@.drop_first().drop_last());
    }
    let s = chars_of(inner);
    if s.len() == 0 {
        let empty: Vec<String> = Vec::new();
        proof {
            assert(empty.deep_view() =~= Seq::<Seq<char>>::empty());
        }
        return Some(empty);
    }
    let mut items: Vec<String> = Vec::new();
    let mut start: usize = 0;
    let mut quote: Option<char> = None;
    let mut escaped = false;
    let mut i: usize = 0;
    proof {
        assert(items.deep_view() =~= Seq::<Seq<char>>::empty());
        assert(prepend_items(Seq::<Seq<char>>::empty(), flow_items_from(inner@, 0, 0, None, false))
            =~= flow_items_from(inner@, 0, 0, None, false));
    }
    while i < s.len()
        invariant
            s@ == inner@,
            start <= i <= s.len(),
            flow_items_from(inner@, 0, 0, None, false) == prepend_items(
                items.deep_view(),
                flow_items_from(inner@, i as int, start as int, quote, escaped),
            ),
        decreases s.len() - i,
    {
        let ch = s[i];
        if let Some(quote_char) = quote {
            if quote_char == '"' && ch == '\\' && !escaped {
                escaped = true;
                i += 1;
                continue;
            }
            if ch == quote_char && !escaped {
                quote = None;
            }
            escaped = false;
            i += 1;
            continue;
        }
        if ch == '"' || ch == '\'' {
            quote = Some(ch);
        } else if ch == ',' {
            let item = yaml_scalar_value(inner.substring_char(start, i));
            let ghost old_items = items.deep_view();
            items.push(item);
            proof {
                assert(items.deep_view() =~= old_items.push(item@));
                let r = flow_items_from(inner@, i + 1, i + 1, None, escaped);
                if let Some(rest) = r {
                    assert(old_items + (seq![item@] + rest) =~= items.deep_view() + rest);
                }
            }
            start = i + 1;
        }
        i += 1;
    }
    if quote.is_some() {
        return None;
    }
    let item = yaml_scalar_value(inner.substring_char(start, s.len()));
    let ghost old_items = items.deep_view();
    items.push(item);
    proof {
        assert(items.deep_view() =~= old_items + seq![item@]);
    }
    Some(items)
}

/// A nonempty text in which no carriage return stands before a line feed, cut into lines and
/// joined again by `join_yaml_lines` (ending with a line ending when the text did), is the text.
pub proof fn law_join_yaml_lines_restores_text(content: Seq<char>)
    requires
        content.len() > 0,
        crate::text::no_cr_before_lf(content),
    ensures
        spec_join_yaml_lines(
            crate::text::text_lines(content),
            crate::text::ends_with_char(content, '\n'),
        ) == content,
{
    crate::text::law_lines_join_roundtrip(content);
    let r = join_lines(crate::text::text_lines(content));
    if crate::text::ends_with_char(content, '\n') {
        assert(r.push('\n') =~= r + seq!['\n']);
    } else {
        assert(r + Seq::<char>::empty() =~= r);
    }
}

proof fn lemma_comment_start_bounds(v: Seq<char>, i: int, quote: Option<char>, escaped: bool)
    ensures
        comment_start(v, i, quote, escaped) matches Some(k) ==> 0 <= k < v.len(),
    decreases v.len() - i,
{
    if 0 <= i < v.len() {
        let ch = v[i];
        match quote {
            Some(q) => if q == '"' && ch == '\\' && !escaped {
                lemma_comment_start_bounds(v, i + 1, quote, true);
            } else if ch == q && !escaped {
                lemma_comment_start_bounds(v, i + 1, None, false);
            } else {
                lemma_comment_start_bounds(v, i + 1, quote, false);
            },
            None => if ch == '"' || ch == '\'' {
                lemma_comment_start_bounds(v, i + 1, Some(ch), escaped);
            } else if ch == '#' && (i == 0 || is_ws(v[i - 1])) {
            } else {
                lemma_comment_start_bounds(v, i + 1, None, escaped);
            },
        }
    }
}

/// A scalar read from text without line feeds has none.
pub proof fn lemma_scalar_no_lf(value: Seq<char>)
    requires
        no_lf(value),
    ensures
        no_lf(spec_strip_yaml_inline_comment(value)),
        no_lf(spec_yaml_scalar_value(value)),
{
    lemma_comment_start_bounds(value, 0, None, false);
    match comment_start(value, 0, None, false) {
        Some(i) => {
            lemma_no_lf_subrange(value, 0, i);
            assert(value.take(i) =~= value.subrange(0, i));
            lemma_no_lf_trim(value.take(i));
        },
        None => {},
    }
    let v = trim(spec_strip_yaml_inline_comment(value));
    lemma_no_lf_trim(spec_strip_yaml_inline_comment(value));
    if v.len() >= 2 {
        lemma_no_lf_subrange(v, 1, v.len() - 1);
    }
}

/// The items of a flow sequence body without line feeds have none.
proof fn lemma_flow_items_no_lf(
    s: Seq<char>,
    i: int,
    start: int,
    quote: Option<char>,
    escaped: bool,
)
    requires
        no_lf(s),
        0 <= start <= i,
        start <= s.len(),
    ensures
        flow_items_from(s, i, start, quote, escaped) matches Some(items) ==> forall|k: int|
            0 <= k < items.len() ==> no_lf(#[trigger] items[k]),
    decreases s.len() - i,
{
    if i < 0 || i >= s.len() {
        lemma_no_lf_subrange(s, start, s.len() as int);
        lemma_scalar_no_lf(s.subrange(start, s.len() as int));
    } else {
        let ch = s[i];
        match quote {
            Some(q) => if q == '"' && ch == '\\' && !escaped {
                lemma_flow_items_no_lf(s, i + 1, start, quote, true);
            } else if ch == q && !escaped {
                lemma_flow_items_no_lf(s, i + 1, start, None, false);
            } else {
                lemma_flow_items_no_lf(s, i + 1, start, quote, false);
            },
            None => if ch == '"' || ch == '\'' {
                lemma_flow_items_no_lf(s, i + 1, start, Some(ch), escaped);
            } else if ch == ',' {
                lemma_flow_items_no_lf(s, i + 1, i + 1, None, escaped);
                lemma_no_lf_subrange(s, start, i);
                lemma_scalar_no_lf(s.subrange(start, i));
                match flow_items_from(s, i + 1, i + 1, None, escaped) {
                    Some(rest) => {
                        let items = seq![spec_yaml_scalar_value(s.subrange(start, i))] + rest;
                        assert forall|k: int| 0 <= k < items.len() implies no_lf(
                            #[trigger] items[k],
                        ) by {
                            if k > 0 {
                                assert(items[k] == rest[k - 1]);
                            }
                        }
                    },
                    None => {},
                }
            } else {
                lemma_flow_items_no_lf(s, i + 1, start, None, escaped);
            },
        }
    }
}

/// The items of an inline sequence written without line feeds have none.
pub proof fn lemma_flow_sequence_items_no_lf(value: Seq<char>, items: Seq<Seq<char>>)
    requires
        no_lf(value),
        spec_yaml_flow_sequence_items(value) == Some(items),
    ensures
        forall|k: int| 0 <= k < items.len() ==> no_lf(#[trigger] items[k]),
{
    lemma_scalar_no_lf(value);
    let v = trim(spec_strip_yaml_inline_comment(value));
    lemma_no_lf_trim(spec_strip_yaml_inline_comment(value));
    if starts_with_char(v, '[') {
        let a = v.drop_first();
        lemma_no_lf_subrange(v, 1, v.len() as int);
        assert(a =~= v.subrange(1, v.len() as int));
        if ends_with_char(a, ']') {
            lemma_no_lf_subrange(a, 0, a.len() - 1);
            assert(a.drop_last() =~= a.subrange(0, a.len() - 1));
            let inner = trim(a.drop_last());
            lemma_no_lf_trim(a.drop_last());
            if inner.len() > 0 {
                lemma_flow_items_no_lf(inner, 0, 0, None, false);
                let found = flow_items_from(inner, 0, 0, None, false);
                assert(found == Some(items));
                assert forall|k: int| 0 <= k < items.len() implies no_lf(#[trigger] items[k]) by {
                    assert(items[k] == found->0[k]);
                }
            }
        }
    }
}

/// The value of a `key: value` line without line feeds has none.
pub proof fn lemma_key_value_no_lf(line: Seq<char>, indent: nat, key: Seq<char>)
    requires
        no_lf(line),
    ensures
        spec_yaml_key_value_at_indent(line, indent, key) matches Some(v) ==> no_lf(v),
{
    let t = trim_start(line);
    lemma_no_lf_trim(line);
    crate::text::lemma_first_index(t, ':');
    let i = crate::text::first_index(t, ':') as int;
    if i < t.len() {
        lemma_no_lf_subrange(t, i + 1, t.len() as int);
        assert(t.skip(i + 1) =~= t.subrange(i + 1, t.len() as int));
        lemma_no_lf_trim(t.skip(i + 1));
    }
}

/// How a line begins, once a final carriage return is dropped: the same whitespace, then the
/// same text without that carriage return (or nothing, for a blank line).
proof fn lemma_trim_start_strip_cr(l: Seq<char>)
    requires
        ends_with_char(l, '\r'),
    ensures
        ({
            let m = l.drop_last();
            &&& lead_ws(m) < m.len() ==> lead_ws(l) == lead_ws(m) && trim_start(l) == trim_start(
                m,
            ).push('\r')
            &&& lead_ws(m) >= m.len() ==> trim_start(l).len() == 0 && trim_start(m).len() == 0
        }),
{
    let m = l.drop_last();
    assert(l =~= m.push('\r'));
    lemma_lead_ws(m);
    lemma_lead_ws(l);
    if lead_ws(m) < m.len() {
        crate::text::lemma_lead_ws_unique(l, lead_ws(m) as int);
        assert(trim_start(l) =~= trim_start(m).push('\r'));
    } else {
        assert forall|i: int| 0 <= i < l.len() implies is_ws(#[trigger] l[i]) by {
            if i < m.len() {
                assert(l[i] == m[i]);
            }
        }
        crate::text::lemma_lead_ws_unique(l, l.len() as int);
    }
}

/// Splitting at the first `:` ignores a carriage return after the text.
proof fn lemma_split_colon_push_cr(t: Seq<char>)
    ensures
        ({
            let u = t.push('\r');
            &&& (split_once(u, ':') is None) == (split_once(t, ':') is None)
            &&& split_once(t, ':') matches Some((k, v)) ==> split_once(u, ':') == Some(
                (k, v.push('\r')),
            )
        }),
{
    let u = t.push('\r');
    crate::text::lemma_first_index(t, ':');
    let i = crate::text::first_index(t, ':');
    if i < t.len() {
        crate::text::lemma_first_index_concat(t, seq!['\r'], ':');
        assert(u =~= t + seq!['\r']);
        assert(u.take(i as int) =~= t.take(i as int));
        assert(u.skip(i as int + 1) =~= t.skip(i as int + 1).push('\r'));
    } else {
        assert forall|j: int| 0 <= j < u.len() implies #[trigger] u[j] != ':' by {
            if j < t.len() {
                assert(u[j] == t[j]);
            }
        }
        crate::text::lemma_first_index_unique(u, ':', u.len() as int);
    }
}

/// Nothing that the YAML line readers give changes when a final carriage return is dropped.
pub proof fn lemma_yaml_strip_cr(l: Seq<char>)
    ensures
        spec_yaml_indent(strip_cr(l)) == spec_yaml_indent(l),
        spec_yaml_key_name(strip_cr(l)) == spec_yaml_key_name(l),
        forall|ind: nat|
            spec_yaml_key_at_indent(strip_cr(l), ind) == #[trigger] spec_yaml_key_at_indent(l, ind),
        forall|ind: nat, key: Seq<char>|
            spec_yaml_key_value_at_indent(strip_cr(l), ind, key)
                == #[trigger] spec_yaml_key_value_at_indent(l, ind, key),
        spec_yaml_list_item_value(strip_cr(l)) == spec_yaml_list_item_value(l),
        forall|ind: nat|
            spec_yaml_list_item_value_at_indent(strip_cr(l), ind)
                == #[trigger] spec_yaml_list_item_value_at_indent(l, ind),
        forall|v: Seq<char>|
            spec_yaml_list_item_matches(strip_cr(l), v) == #[trigger] spec_yaml_list_item_matches(
                l,
                v,
            ),
        forall|ind: nat, v: Seq<char>|
            spec_yaml_list_item_matches_at_indent(strip_cr(l), ind, v)
                == #[trigger] spec_yaml_list_item_matches_at_indent(l, ind, v),
{
    crate::text::lemma_trim_strip_cr(l);
    if ends_with_char(l, '\r') {
        let m = l.drop_last();
        assert(strip_cr(l) == m);
        lemma_trim_start_strip_cr(l);
        let tl = trim_start(l);
        let tm = trim_start(m);
        if lead_ws(m) < m.len() {
            assert(tl[0] == tm[0]);
            assert(l.take(lead_ws(l) as int) =~= m.take(lead_ws(m) as int));
            lemma_split_colon_push_cr(tm);
            match split_once(tm, ':') {
                Some((k, v)) => {
                    crate::text::lemma_trim_strip_cr(v.push('\r'));
                    assert(v.push('\r').drop_last() =~= v);
                    assert(strip_cr(v.push('\r')) == v);
                },
                None => {},
            }
        }
    }
}

/// Where a comment starts, from `i` on: a `#` at or after `i`.
proof fn lemma_comment_start_found(v: Seq<char>, i: int, quote: Option<char>, escaped: bool)
    ensures
        comment_start(v, i, quote, escaped) matches Some(k) ==> i <= k < v.len() && v[k] == '#',
    decreases v.len() - i,
{
    if 0 <= i < v.len() {
        let ch = v[i];
        match quote {
            Some(q) => if q == '"' && ch == '\\' && !escaped {
                lemma_comment_start_found(v, i + 1, quote, true);
            } else if ch == q && !escaped {
                lemma_comment_start_found(v, i + 1, None, false);
            } else {
                lemma_comment_start_found(v, i + 1, quote, false);
            },
            None => if ch == '"' || ch == '\'' {
                lemma_comment_start_found(v, i + 1, Some(ch), escaped);
            } else if ch == '#' && (i == 0 || is_ws(v[i - 1])) {
            } else {
                lemma_comment_start_found(v, i + 1, None, escaped);
            },
        }
    }
}

/// Scanning the first `k` characters finds the comment that the whole text has, when it
/// starts before `k`, and nothing otherwise.
proof fn lemma_comment_start_prefix(
    v: Seq<char>,
    k: int,
    i: int,
    quote: Option<char>,
    escaped: bool,
)
    requires
        0 <= i <= k <= v.len(),
    ensures
        comment_start(v.take(k), i, quote, escaped) == match comment_start(v, i, quote, escaped) {
            Some(x) => if x < k {
                Some(x)
            } else {
                None
            },
            None => None,
        },
    decreases k - i,
{
    lemma_comment_start_found(v, i, quote, escaped);
    let p = v.take(k);
    if i < k {
        let ch = v[i];
        assert(p[i] == ch);
        if i > 0 {
            assert(p[i - 1] == v[i - 1]);
        }
        match quote {
            Some(q) => if q == '"' && ch == '\\' && !escaped {
                lemma_comment_start_prefix(v, k, i + 1, quote, true);
            } else if ch == q && !escaped {
                lemma_comment_start_prefix(v, k, i + 1, None, false);
            } else {
                lemma_comment_start_prefix(v, k, i + 1, quote, false);
            },
            None => if ch == '"' || ch == '\'' {
                lemma_comment_start_prefix(v, k, i + 1, Some(ch), escaped);
            } else if ch == '#' && (i == 0 || is_ws(v[i - 1])) {
            } else {
                lemma_comment_start_prefix(v, k, i + 1, None, escaped);
            },
        }
    }
}

/// Stripping an inline comment keeps a first part of the value; stripping again changes
/// nothing; and where something was cut, what was cut starts, after whitespace, with `#`.
pub proof fn law_strip_yaml_inline_comment(value: Seq<char>)
    ensures
        spec_strip_yaml_inline_comment(value).len() <= value.len(),
        value.take(spec_strip_yaml_inline_comment(value).len() as int)
            == spec_strip_yaml_inline_comment(value),
        spec_strip_yaml_inline_comment(spec_strip_yaml_inline_comment(value))
            == spec_strip_yaml_inline_comment(value),
        spec_strip_yaml_inline_comment(value) != value ==> starts_with_char(
            trim_start(value.skip(spec_strip_yaml_inline_comment(value).len() as int)),
            '#',
        ),
{
    lemma_comment_start_found(value, 0, None, false);
    match comment_start(value, 0, None, false) {
        Some(i) => {
            let t = value.take(i);
            crate::text::lemma_trail_ws(t);
            let k = t.len() - crate::text::trail_ws(t);
            let r = spec_strip_yaml_inline_comment(value);
            assert(r =~= value.take(k));
            lemma_comment_start_prefix(value, k, 0, None, false);
            assert(spec_strip_yaml_inline_comment(r) == r);
            let rest = value.skip(k);
            assert forall|j: int| 0 <= j < i - k implies is_ws(#[trigger] rest[j]) by {
                assert(rest[j] == t[k + j]);
            }
            assert(rest[i - k] == value[i]);
            crate::text::lemma_lead_ws_unique(rest, i - k);
            assert(trim_start(rest)[0] == value[i]);
        },
        None => {},
    }
}

} // verus!
