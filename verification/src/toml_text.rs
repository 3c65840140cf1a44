use vstd::prelude::*;

use crate::text::{
    chars_of, ends_with_char, join_lines, join_newline, lemma_lines_concat, lemma_no_newline_concat,
    lines_end_cleanly, no_newline, push_char, starts_with, starts_with_char, starts_with_char_str,
    starts_with_str, text_lines, trim, trim_newlines_end, trim_start, trim_start_str, trim_str,
};

verus! {

/// An upper-case hexadecimal digit.
pub open spec fn hex_digit(d: nat) -> char {
    if d == 0 {
        '0'
    } else if d == 1 {
        '1'
    } else if d == 2 {
        '2'
    } else if d == 3 {
        '3'
    } else if d == 4 {
        '4'
    } else if d == 5 {
        '5'
    } else if d == 6 {
        '6'
    } else if d == 7 {
        '7'
    } else if d == 8 {
        '8'
    } else if d == 9 {
        '9'
    } else if d == 10 {
        'A'
    } else if d == 11 {
        'B'
    } else if d == 12 {
        'C'
    } else if d == 13 {
        'D'
    } else if d == 14 {
        'E'
    } else {
        'F'
    }
}

/// How a TOML basic string writes one character.
pub open spec fn toml_escape(c: char) -> Seq<char> {
    let n = c as u32;
    if c == '"' {
        seq!['\\', '"']
    } else if c == '\\' {
        seq!['\\', '\\']
    } else if n == 8 {
        seq!['\\', 'b']
    } else if c == '\t' {
        seq!['\\', 't']
    } else if c == '\n' {
        seq!['\\', 'n']
    } else if n == 12 {
        seq!['\\', 'f']
    } else if c == '\r' {
        seq!['\\', 'r']
    } else if n <= 0x1f || n == 0x7f {
        seq![
            '\\',
            'u',
            hex_digit(((n / 4096) % 16) as nat),
            hex_digit(((n / 256) % 16) as nat),
            hex_digit(((n / 16) % 16) as nat),
            hex_digit((n % 16) as nat),
        ]
    } else {
        seq![c]
    }
}

/// Every character of `s` written as a TOML basic string writes it.
pub open spec fn toml_escape_all(s: Seq<char>) -> Seq<char>
    decreases s.len(),
{
    if s.len() == 0 {
        seq![]
    } else {
        toml_escape_all(s.drop_last()) + toml_escape(s.last())
    }
}

/// `value` as a TOML basic string.
pub open spec fn spec_toml_basic_string(value: Seq<char>) -> Seq<char> {
    seq!['"'] + toml_escape_all(value) + seq!['"']
}

/// Index of the first `]]` in `s`, or the length of `s`.
pub open spec fn first_double_bracket(s: Seq<char>, from: int) -> int
    decreases s.len() - from,
{
    if from < 0 || from + 1 >= s.len() {
        s.len() as int
    } else if s[from] == ']' && s[from + 1] == ']' {
        from
    } else {
        first_double_bracket(s, from + 1)
    }
}

/// Index of the first `]` in `s`, or the length of `s`.
pub open spec fn first_bracket(s: Seq<char>, from: int) -> int
    decreases s.len() - from,
{
    if from < 0 || from >= s.len() {
        s.len() as int
    } else if s[from] == ']' {
        from
    } else {
        first_bracket(s, from + 1)
    }
}

/// The `[table]` or `[[array]]` header of a line, when the line is one (a trailing comment
/// allowed).
pub open spec fn spec_toml_table_header(line: Seq<char>) -> Option<Seq<char>> {
    let t = trim_start(line);
    if starts_with_char(t, '#') || !starts_with_char(t, '[') {
        None
    } else {
        let end = if starts_with(t, seq!['[', '[']) {
            let i = first_double_bracket(t, 0);
            if i < t.len() {
                Some(i + 2)
            } else {
                None
            }
        } else {
            let i = first_bracket(t, 0);
            if i < t.len() {
                Some(i + 1)
            } else {
                None
            }
        };
        match end {
            None => None,
            Some(e) => {
                let rest = trim_start(t.skip(e));
                if rest.len() != 0 && !starts_with_char(rest, '#') {
                    None
                } else {
                    Some(t.take(e))
                }
            },
        }
    }
}

/// Whether the line assigns `key` (`key = ...`), outside a comment.
pub open spec fn spec_is_toml_key(line: Seq<char>, key: Seq<char>) -> bool {
    let t = trim(line);
    if starts_with_char(t, '#') || !starts_with(t, key) {
        false
    } else {
        starts_with_char(trim_start(t.skip(key.len() as int)), '=')
    }
}

/// Lines joined by `"\n"`, with a final `"\n"` when asked for or when the text would be empty.
pub open spec fn spec_join_toml_lines(ls: Seq<Seq<char>>, trailing_newline: bool) -> Seq<char> {
    let r = join_lines(ls);
    if trailing_newline || r.len() == 0 {
        r.push('\n')
    } else {
        r
    }
}

fn hex_digit_exec(d: u32) -> (c: char)
    requires
        d < 16,
    ensures
        c == hex_digit(d as nat),
{
    if d == 0 {
        '0'
    } else if d == 1 {
        '1'
    } else if d == 2 {
        '2'
    } else if d == 3 {
        '3'
    } else if d == 4 {
        '4'
    } else if d == 5 {
        '5'
    } else if d == 6 {
        '6'
    } else if d == 7 {
        '7'
    } else if d == 8 {
        '8'
    } else if d == 9 {
        '9'
    } else if d == 10 {
        'A'
    } else if d == 11 {
        'B'
    } else if d == 12 {
        'C'
    } else if d == 13 {
        'D'
    } else if d == 14 {
        'E'
    } else {
        'F'
    }
}

fn push_escaped(result: &mut String, ch: char)
    ensures
        final(result)@ == old(result)@ + toml_escape(ch),
{
    let n = ch as u32;
    if ch == '"' {
        push_char(result, '\\');
        push_char(result, '"');
    } else if ch == '\\' {
        push_char(result, '\\');
        push_char(result, '\\');
    } else if n == 8 {
        push_char(result, '\\');
        push_char(result, 'b');
    } else if ch == '\t' {
        push_char(result, '\\');
        push_char(result, 't');
    } else if ch == '\n' {
        push_char(result, '\\');
        push_char(result, 'n');
    } else if n == 12 {
        push_char(result, '\\');
        push_char(result, 'f');
    } else if ch == '\r' {
        push_char(result, '\\');
        push_char(result, 'r');
    } else if n <= 0x1f || n == 0x7f {
        push_char(result, '\\');
        push_char(result, 'u');
        push_char(result, hex_digit_exec((n / 4096) % 16));
        push_char(result, hex_digit_exec((n / 256) % 16));
        push_char(result, hex_digit_exec((n / 16) % 16));
        push_char(result, hex_digit_exec(n % 16));
    } else {
        push_char(result, ch);
    }
    proof {
        assert(final(result)@ =~= old(result)@ + toml_escape(ch));
    }
}

/// `value` written as a TOML basic string: in double quotes, with `"`, `\` and the control
/// characters escaped.
pub fn toml_basic_string(value: &str) -> (res: String)
    ensures
        res@ == spec_toml_basic_string(value@),
{
    let v = chars_of(value);
    let mut result = String::new();
    push_char(&mut result, '"');
    let mut i: usize = 0;
    proof {
        assert(value@.take(0) =~= Seq::<char>::empty());
        assert(result@ =~= seq!['"'] + toml_escape_all(value@.take(0)));
    }
    while i < v.len()
        invariant
            v@ == value@,
            i <= v.len(),
            result@ == seq!['"'] + toml_escape_all(value@.take(i as int)),
        decreases v.len() - i,
    {
        push_escaped(&mut result, v[i]);
        proof {
            assert(value@.take(i + 1).drop_last() =~= value@.take(i as int));
            assert(value@.take(i + 1).last() == v@[i as int]);
        }
        i += 1;
    }
    push_char(&mut result, '"');
    proof {
        assert(value@.take(v.len() as int) =~= value@);
    }
    result
}

/// Lines joined by `"\n"`, ending with `"\n"` when asked for or when nothing else is there.
pub fn join_toml_lines(lines: Vec<String>, trailing_newline: bool) -> (res: String)
    ensures
        res@ == spec_join_toml_lines(lines.deep_view(), trailing_newline),
{
    let mut result = join_newline(&lines);
    if trailing_newline || result.as_str().is_empty() {
        push_char(&mut result, '\n');
    }
    result
}

/// The header of a `[table]` or `[[array]]` line.
pub fn toml_table_header(line: &str) -> (res: Option<&str>)
    ensures
        res matches Some(h) ==> spec_toml_table_header(line@) == Some(h@),
        res is None ==> spec_toml_table_header(line@) is None,
{
    let trimmed = trim_start_str(line);
    if starts_with_char_str(trimmed, '#') || !starts_with_char_str(trimmed, '[') {
        return None;
    }
    let t = chars_of(trimmed);
    let n = t.len();
    let double = n >= 2 && t[1] == '[';
    proof {
        if starts_with(trimmed@, seq!['[', '[']) {
            assert(trimmed@.take(2)[1] == trimmed@[1]);
        }
        if double {
            assert(trimmed@.take(2) =~= seq!['[', '[']);
        }
    }
    let mut i: usize = 0;
    let header_end: usize;
    if double {
        while i < n - 1 && !(t[i] == ']' && t[i + 1] == ']')
            invariant
                t@ == trimmed@,
                n == t.len(),
                n >= 2,
                i <= n,
                first_double_bracket(trimmed@, 0) == first_double_bracket(trimmed@, i as int),
            decreases n - i,
        {
            i += 1;
        }
        if i >= n - 1 {
            return None;
        }
        header_end = i + 2;
    } else {
        while i < n && t[i] != ']'
            invariant
                t@ == trimmed@,
                n == t.len(),
                i <= n,
                first_bracket(trimmed@, 0) == first_bracket(trimmed@, i as int),
            decreases n - i,
        {
            i += 1;
        }
        if i >= n {
            return None;
        }
        header_end = i + 1;
    }
    let header = trimmed.substring_char(0, header_end);
    let rest = trim_start_str(trimmed.substring_char(header_end, n));
    proof {
        assert(trimmed@.subrange(0, header_end as int) =~= trimmed@.take(header_end as int));
        assert(trimmed@.subrange(header_end as int, n as int) =~= trimmed@.skip(header_end as int));
    }
    if !rest.is_empty() && !starts_with_char_str(rest, '#') {
        return None;
    }
    Some(header)
}

/// Whether the line assigns `key`.
pub fn is_toml_key(line: &str, key: &str) -> (res: bool)
    ensures
        res == spec_is_toml_key(line@, key@),
{
    let trimmed = trim_str(line);
    if starts_with_char_str(trimmed, '#') || !starts_with_str(trimmed, key) {
        return false;
    }
    let t = chars_of(trimmed);
    let k = chars_of(key);
    let rest = trim_start_str(trimmed.substring_char(k.len(), t.len()));
    proof {
        assert(trimmed@.subrange(k.len() as int, t.len() as int) =~= trimmed@.skip(key@.len() as int));
    }
    starts_with_char_str(rest, '=')
}

/// `s` without the extra `'\n'` of a blank last line, repeatedly.
pub open spec fn strip_blank_tail(s: Seq<char>) -> Seq<char>
    decreases s.len(),
{
    if s.len() >= 2 && s.last() == '\n' && s[s.len() - 2] == '\n' {
        strip_blank_tail(s.drop_last())
    } else {
        s
    }
}

/// An edited file: blank lines at its end dropped, and nothing left of a lone line ending.
pub open spec fn spec_tidy_end(s: Seq<char>) -> Seq<char> {
    let r = strip_blank_tail(s);
    if r == seq!['\n'] {
        seq![]
    } else {
        r
    }
}

/// Drops blank lines at the end of an edited file, and a lone line ending.
pub fn tidy_end(s: String) -> (res: String)
    ensures
        res@ == spec_tidy_end(s@),
{
    let v = chars_of(s.as_str());
    let mut n = v.len();
    proof {
        assert(s@.take(n as int) =~= s@);
    }
    while n >= 2 && v[n - 1] == '\n' && v[n - 2] == '\n'
        invariant
            v@ == s@,
            n <= v.len(),
            strip_blank_tail(s@) == strip_blank_tail(s@.take(n as int)),
        decreases n,
    {
        proof {
            assert(s@.take(n as int).drop_last() =~= s@.take(n - 1));
        }
        n -= 1;
    }
    if n == 1 && v[0] == '\n' {
        proof {
            assert(s@.take(1) =~= seq!['\n']);
        }
        return String::new();
    }
    proof {
        if s@.take(n as int) == seq!['\n'] {
            assert(s@.take(n as int)[0] == v@[0]);
        }
    }
    String::from_str(s.as_str().substring_char(0, n))
}

/// A nonempty text in which no carriage return stands before a line feed, cut into lines and
/// joined again by `join_toml_lines` (ending with a line ending when the text did), is the text.
pub proof fn law_join_toml_lines_restores_text(content: Seq<char>)
    requires
        content.len() > 0,
        crate::text::no_cr_before_lf(content),
    ensures
        spec_join_toml_lines(
            crate::text::text_lines(content),
            crate::text::ends_with_char(content, '\n'),
        ) == content,
{
    crate::text::law_lines_join_roundtrip(content);
    let r = join_lines(crate::text::text_lines(content));
    if crate::text::ends_with_char(content, '\n') {
        assert(r.push('\n') =~= r + seq!['\n']);
    } else {
        assert(r + Seq::<char>::empty() =~= r);
    }
}


/// No character written by `toml_escape` is a line ending.
pub proof fn lemma_escape_no_newline(c: char)
    ensures
        no_newline(toml_escape(c)),
{
    let n = c as u32;
    if n <= 0x1f || n == 0x7f {
        if c != '"' && c != '\\' && n != 8 && c != '\t' && c != '\n' && n != 12 && c != '\r' {
            let e = toml_escape(c);
            assert forall|i: int| 0 <= i < e.len() implies #[trigger] e[i] != '\n' && e[i]
                != '\r' by {
                if i >= 2 {
                    let d = if i == 2 {
                        ((n / 4096) % 16) as nat
                    } else if i == 3 {
                        ((n / 256) % 16) as nat
                    } else if i == 4 {
                        ((n / 16) % 16) as nat
                    } else {
                        (n % 16) as nat
                    };
                    assert(e[i] == hex_digit(d));
                }
            }
        }
    }
}

/// A TOML basic string holds no line ending.
pub proof fn lemma_basic_string_no_newline(value: Seq<char>)
    ensures
        no_newline(toml_escape_all(value)),
        no_newline(spec_toml_basic_string(value)),
    decreases value.len(),
{
    if value.len() > 0 {
        lemma_basic_string_no_newline(value.drop_last());
        lemma_escape_no_newline(value.last());
        lemma_no_newline_concat(toml_escape_all(value.drop_last()), toml_escape(value.last()));
    }
    lemma_no_newline_concat(seq!['"'], toml_escape_all(value));
    lemma_no_newline_concat(seq!['"'] + toml_escape_all(value), seq!['"']);
}

/// `first_bracket` finds the first `]` from where it starts.
pub proof fn lemma_first_bracket_at(s: Seq<char>, from: int, k: int)
    requires
        0 <= from <= k < s.len(),
        s[k] == ']',
        forall|j: int| from <= j < k ==> s[j] != ']',
    ensures
        first_bracket(s, from) == k,
    decreases k - from,
{
    if from < k {
        lemma_first_bracket_at(s, from + 1, k);
    }
}

/// Tidying the end of a text keeps a first part of its lines.
pub proof fn lemma_tidy_end_lines(s: Seq<char>)
    ensures
        text_lines(spec_tidy_end(s)).len() <= text_lines(s).len(),
        forall|j: int|
            0 <= j < text_lines(spec_tidy_end(s)).len() ==> #[trigger] text_lines(spec_tidy_end(s))[j]
                == text_lines(s)[j],
{
    lemma_strip_blank_tail_shape(s);
    let r = strip_blank_tail(s);
    if r == seq!['\n'] {
        assert(text_lines(Seq::<char>::empty()) =~= Seq::<Seq<char>>::empty());
    } else if r.len() < s.len() {
        let m = r.len() as int;
        assert(s =~= r + s.skip(m));
        lemma_lines_concat(r, s.skip(m));
    } else {
        assert(r =~= s);
    }
}

/// Dropping blank lines at the end keeps a first part of the text, which ends a line when it
/// is shorter.
pub proof fn lemma_strip_blank_tail_shape(s: Seq<char>)
    ensures
        strip_blank_tail(s).len() <= s.len(),
        strip_blank_tail(s) == s.take(strip_blank_tail(s).len() as int),
        strip_blank_tail(s).len() < s.len() ==> ends_with_char(strip_blank_tail(s), '\n'),
    decreases s.len(),
{
    if s.len() >= 2 && s.last() == '\n' && s[s.len() - 2] == '\n' {
        let d = s.drop_last();
        lemma_strip_blank_tail_shape(d);
        let r = strip_blank_tail(d);
        assert(d.take(r.len() as int) =~= s.take(r.len() as int));
        if r.len() == d.len() {
            assert(r =~= d);
            assert(r.last() == s[s.len() - 2]);
        }
    } else {
        assert(s.take(s.len() as int) =~= s);
    }
}

/// No character of `s` is a control character that a TOML basic string must escape.
pub open spec fn no_control_char(s: Seq<char>) -> bool {
    forall|i: int| 0 <= i < s.len() ==> (#[trigger] s[i] as u32) > 0x1f && (s[i] as u32) != 0x7f
}

proof fn lemma_escape_no_control(c: char)
    ensures
        no_control_char(toml_escape(c)),
{
    let n = c as u32;
    let e = toml_escape(c);
    if n <= 0x1f || n == 0x7f {
        if c != '"' && c != '\\' && n != 8 && c != '\t' && c != '\n' && n != 12 && c != '\r' {
            assert forall|i: int| 0 <= i < e.len() implies (#[trigger] e[i] as u32) > 0x1f && (e[i]
                as u32) != 0x7f by {
                if i >= 2 {
                    let d = if i == 2 {
                        ((n / 4096) % 16) as nat
                    } else if i == 3 {
                        ((n / 256) % 16) as nat
                    } else if i == 4 {
                        ((n / 16) % 16) as nat
                    } else {
                        (n % 16) as nat
                    };
                    assert(e[i] == hex_digit(d));
                }
            }
        }
    }
}

proof fn lemma_no_control_concat(a: Seq<char>, b: Seq<char>)
    requires
        no_control_char(a),
        no_control_char(b),
    ensures
        no_control_char(a + b),
{
    assert forall|i: int| 0 <= i < (a + b).len() implies (#[trigger] (a + b)[i] as u32) > 0x1f && ((a
        + b)[i] as u32) != 0x7f by {
        if i < a.len() {
            assert((a + b)[i] == a[i]);
        } else {
            assert((a + b)[i] == b[i - a.len()]);
        }
    }
}

proof fn lemma_escape_all_no_control(value: Seq<char>)
    ensures
        no_control_char(toml_escape_all(value)),
    decreases value.len(),
{
    if value.len() > 0 {
        lemma_escape_all_no_control(value.drop_last());
        lemma_escape_no_control(value.last());
        lemma_no_control_concat(toml_escape_all(value.drop_last()), toml_escape(value.last()));
    }
}

/// A TOML basic string starts and ends with `"` and holds no control character that TOML
/// requires to be escaped.
pub proof fn law_toml_basic_string_is_quoted(value: Seq<char>)
    ensures
        spec_toml_basic_string(value).len() >= 2,
        spec_toml_basic_string(value)[0] == '"',
        spec_toml_basic_string(value).last() == '"',
        no_control_char(spec_toml_basic_string(value)),
{
    lemma_escape_all_no_control(value);
    lemma_no_control_concat(seq!['"'], toml_escape_all(value));
    lemma_no_control_concat(seq!['"'] + toml_escape_all(value), seq!['"']);
}

/// Tidying the end of a text whose lines end cleanly leaves a text whose lines do too.
pub proof fn lemma_tidy_end_cleanly(s: Seq<char>)
    requires
        lines_end_cleanly(s),
    ensures
        lines_end_cleanly(spec_tidy_end(s)),
{
    lemma_strip_blank_tail_shape(s);
    let r = strip_blank_tail(s);
    let k = r.len() as int;
    assert forall|i: int| 0 <= i < r.len() && #[trigger] r[i] == '\r' implies i + 1 < r.len() && r[i
        + 1] != '\n' by {
        assert(r[i] == s[i]);
        if i + 1 < r.len() {
            assert(r[i + 1] == s[i + 1]);
        } else if k < s.len() {
            assert(r.last() == '\n');
        }
    }
}


/// Dropping blank lines at the end of a text, or a lone line ending, leaves the text without
/// its final line endings as it was, and ends it with at most one line ending.
pub proof fn lemma_tidy_end_trim(s: Seq<char>)
    ensures
        crate::text::trim_newlines_end(spec_tidy_end(s)) == crate::text::trim_newlines_end(s),
        crate::text::trim_newlines_end(spec_tidy_end(s)) == spec_tidy_end(s)
            || crate::text::trim_newlines_end(spec_tidy_end(s)).push('\n') == spec_tidy_end(s),
{
    lemma_strip_blank_tail_trim(s);
    let r = strip_blank_tail(s);
    if r == seq!['\n'] {
        assert(r.drop_last() =~= Seq::<char>::empty());
        assert(crate::text::trim_newlines_end(Seq::<char>::empty()) == Seq::<char>::empty());
    } else if crate::text::ends_with_char(r, '\n') {
        let d = r.drop_last();
        assert(!crate::text::ends_with_char(d, '\n')) by {
            if d.len() > 0 {
                assert(d.last() == r[r.len() - 2]);
            }
        }
        assert(crate::text::trim_newlines_end(r) == crate::text::trim_newlines_end(d));
        assert(d.push('\n') =~= r);
    }
}

/// Dropping blank lines at the end of a text leaves it as it was without final line endings,
/// and with no blank line at its end.
proof fn lemma_strip_blank_tail_trim(s: Seq<char>)
    ensures
        crate::text::trim_newlines_end(strip_blank_tail(s)) == crate::text::trim_newlines_end(s),
        !(strip_blank_tail(s).len() >= 2 && strip_blank_tail(s).last() == '\n' && strip_blank_tail(
            s,
        )[strip_blank_tail(s).len() - 2] == '\n'),
    decreases s.len(),
{
    if s.len() >= 2 && s.last() == '\n' && s[s.len() - 2] == '\n' {
        lemma_strip_blank_tail_trim(s.drop_last());
        assert(crate::text::ends_with_char(s, '\n'));
    }
}

/// Lines joined by `join_toml_lines` read, without final line endings, as the lines joined by
/// `"\n"`.
pub proof fn lemma_join_toml_lines_trim(ls: Seq<Seq<char>>, trailing_newline: bool)
    ensures
        crate::text::trim_newlines_end(spec_join_toml_lines(ls, trailing_newline))
            == crate::text::trim_newlines_end(join_lines(ls)),
{
    let r = join_lines(ls);
    if trailing_newline || r.len() == 0 {
        assert(crate::text::ends_with_char(r.push('\n'), '\n'));
        assert(r.push('\n').drop_last() =~= r);
    }
}

} // verus!
