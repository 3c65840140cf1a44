use vstd::prelude::*;

verus! {

/// Unicode `White_Space`, the property that `char::is_whitespace` tests.
pub open spec fn is_ws(c: char) -> bool {
    let n = c as u32;
    ||| 9 <= n <= 13
    ||| n == 32
    ||| n == 0x85
    ||| n == 0xA0
    ||| n == 0x1680
    ||| 0x2000 <= n <= 0x200A
    ||| n == 0x2028
    ||| n == 0x2029
    ||| n == 0x202F
    ||| n == 0x205F
    ||| n == 0x3000
}

/// Number of whitespace characters at the start of `s`.
pub open spec fn lead_ws(s: Seq<char>) -> nat
    decreases s.len(),
{
    if s.len() > 0 && is_ws(s[0]) {
        1 + lead_ws(s.drop_first())
    } else {
        0
    }
}

/// Number of whitespace characters at the end of `s`.
pub open spec fn trail_ws(s: Seq<char>) -> nat
    decreases s.len(),
{
    if s.len() > 0 && is_ws(s.last()) {
        1 + trail_ws(s.drop_last())
    } else {
        0
    }
}

/// `str::trim_start`.
pub open spec fn trim_start(s: Seq<char>) -> Seq<char> {
    s.skip(lead_ws(s) as int)
}

/// `str::trim_end`.
pub open spec fn trim_end(s: Seq<char>) -> Seq<char> {
    s.take(s.len() - trail_ws(s))
}

/// `str::trim`.
pub open spec fn trim(s: Seq<char>) -> Seq<char> {
    trim_end(trim_start(s))
}

/// `s` begins with `p`.
pub open spec fn starts_with(s: Seq<char>, p: Seq<char>) -> bool {
    p.len() <= s.len() && s.take(p.len() as int) == p
}

/// `s` is not empty and begins with `c`.
pub open spec fn starts_with_char(s: Seq<char>, c: char) -> bool {
    s.len() > 0 && s[0] == c
}

/// `s` is not empty and ends with `c`.
pub open spec fn ends_with_char(s: Seq<char>, c: char) -> bool {
    s.len() > 0 && s.last() == c
}

/// Index of the first `c` in `s`, or the length of `s` when there is none.
pub open spec fn first_index(s: Seq<char>, c: char) -> nat
    decreases s.len(),
{
    if s.len() == 0 {
        0
    } else if s[0] == c {
        0
    } else {
        1 + first_index(s.drop_first(), c)
    }
}

/// `str::split_once` with a character pattern.
pub open spec fn split_once(s: Seq<char>, c: char) -> Option<(Seq<char>, Seq<char>)> {
    let i = first_index(s, c);
    if i < s.len() {
        Some((s.take(i as int), s.skip(i as int + 1)))
    } else {
        None
    }
}

/// Drops one `'\r'` at the end of a line.
pub open spec fn strip_cr(l: Seq<char>) -> Seq<char> {
    if ends_with_char(l, '\r') {
        l.drop_last()
    } else {
        l
    }
}

/// `str::lines`: the text cut at each `"\n"` or `"\r\n"`; a last line ending is optional.
pub open spec fn text_lines(s: Seq<char>) -> Seq<Seq<char>>
    decreases s.len(),
{
    if s.len() == 0 {
        seq![]
    } else {
        let i = first_index(s, '\n');
        if i >= s.len() {
            seq![s]
        } else {
            seq![strip_cr(s.take(i as int))] + text_lines(s.skip(i + 1 as int))
        }
    }
}

/// The lines joined with `"\n"` between them.
pub open spec fn join_lines(ls: Seq<Seq<char>>) -> Seq<char>
    decreases ls.len(),
{
    if ls.len() == 0 {
        seq![]
    } else if ls.len() == 1 {
        ls[0]
    } else {
        join_lines(ls.drop_last()) + seq!['\n'] + ls.last()
    }
}

/// `s` with every `'\n'` at its end removed (`trim_end_matches('\n')`).
pub open spec fn trim_newlines_end(s: Seq<char>) -> Seq<char>
    decreases s.len(),
{
    if ends_with_char(s, '\n') {
        trim_newlines_end(s.drop_last())
    } else {
        s
    }
}

pub proof fn lemma_lead_ws(s: Seq<char>)
    ensures
        lead_ws(s) <= s.len(),
        forall|i: int| 0 <= i < lead_ws(s) ==> is_ws(#[trigger] s[i]),
        lead_ws(s) < s.len() ==> !is_ws(s[lead_ws(s) as int]),
    decreases s.len(),
{
    if s.len() > 0 && is_ws(s[0]) {
        lemma_lead_ws(s.drop_first());
        assert forall|i: int| 0 <= i < lead_ws(s) implies is_ws(#[trigger] s[i]) by {
            if i > 0 {
                assert(s[i] == s.drop_first()[i - 1]);
            }
        }
    }
}

pub proof fn lemma_trail_ws(s: Seq<char>)
    ensures
        trail_ws(s) <= s.len(),
        forall|i: int| s.len() - trail_ws(s) <= i < s.len() ==> is_ws(#[trigger] s[i]),
        trail_ws(s) < s.len() ==> !is_ws(s[s.len() - trail_ws(s) - 1]),
    decreases s.len(),
{
    if s.len() > 0 && is_ws(s.last()) {
        lemma_trail_ws(s.drop_last());
        assert forall|i: int| s.len() - trail_ws(s) <= i < s.len() implies is_ws(#[trigger] s[i]) by {
            if i < s.len() - 1 {
                assert(s[i] == s.drop_last()[i]);
            }
        }
    }
}

pub proof fn lemma_first_index(s: Seq<char>, c: char)
    ensures
        first_index(s, c) <= s.len(),
        forall|i: int| 0 <= i < first_index(s, c) ==> #[trigger] s[i] != c,
        first_index(s, c) < s.len() ==> s[first_index(s, c) as int] == c,
    decreases s.len(),
{
    if s.len() > 0 && s[0] != c {
        lemma_first_index(s.drop_first(), c);
        assert forall|i: int| 0 <= i < first_index(s, c) implies #[trigger] s[i] != c by {
            if i > 0 {
                assert(s[i] == s.drop_first()[i - 1]);
            }
        }
    }
}

/// `first_index` is fixed by the two facts that `lemma_first_index` states.
pub proof fn lemma_first_index_unique(s: Seq<char>, c: char, k: int)
    requires
        0 <= k <= s.len(),
        forall|i: int| 0 <= i < k ==> #[trigger] s[i] != c,
        k < s.len() ==> s[k] == c,
    ensures
        first_index(s, c) == k,
{
    lemma_first_index(s, c);
    let f = first_index(s, c) as int;
    if f < k {
        assert(s[f] != c);
    } else if k < f {
        assert(s[k] != c);
    }
}

pub proof fn lemma_lead_ws_unique(s: Seq<char>, k: int)
    requires
        0 <= k <= s.len(),
        forall|i: int| 0 <= i < k ==> is_ws(#[trigger] s[i]),
        k < s.len() ==> !is_ws(s[k]),
    ensures
        lead_ws(s) == k,
{
    lemma_lead_ws(s);
    let f = lead_ws(s) as int;
    if f < k {
        assert(is_ws(s[f]));
    } else if k < f {
        assert(is_ws(s[k]));
    }
}

pub proof fn lemma_trail_ws_unique(s: Seq<char>, k: int)
    requires
        0 <= k <= s.len(),
        forall|i: int| k <= i < s.len() ==> is_ws(#[trigger] s[i]),
        k > 0 ==> !is_ws(s[k - 1]),
    ensures
        trail_ws(s) == s.len() - k,
{
    lemma_trail_ws(s);
    let f = s.len() - trail_ws(s);
    if f < k {
        assert(is_ws(s[f - 1]));
    } else if k < f {
        assert(is_ws(s[k]));
    }
}

/// `char::is_whitespace`.
pub fn is_whitespace(c: char) -> (b: bool)
    ensures
        b == is_ws(c),
{
    let n = c as u32;
    (9 <= n && n <= 13) || n == 32 || n == 0x85 || n == 0xA0 || n == 0x1680 || (0x2000 <= n && n
        <= 0x200A) || n == 0x2028 || n == 0x2029 || n == 0x202F || n == 0x205F || n == 0x3000
}

/// The characters of `s`.
pub fn chars_of(s: &str) -> (res: Vec<char>)
    ensures
        res@ == s@,
{
    broadcast use vstd::string::group_string_axioms;

    let mut res: Vec<char> = Vec::new();
    for c in it: s.chars()
        invariant
            res@ == it.seq().take(it.index()),
            it.seq() == s@,
    {
        res.push(c);
    }
    res
}

/// Calls `String::push`. Trusted: the text afterwards is the old one followed by `c`.
#[verifier::external_body]
pub(crate) fn push_char(s: &mut String, c: char)
    ensures
        final(s)@ == old(s)@.push(c),
{
    s.push(c);
}

/// Whether two texts hold the same characters.
pub fn str_eq(a: &str, b: &str) -> (res: bool)
    ensures
        res == (a@ == b@),
{
    let x = chars_of(a);
    let y = chars_of(b);
    if x.len() != y.len() {
        return false;
    }
    let mut i: usize = 0;
    while i < x.len()
        invariant
            x@ == a@,
            y@ == b@,
            x.len() == y.len(),
            i <= x.len(),
            forall|j: int| 0 <= j < i ==> x@[j] == y@[j],
        decreases x.len() - i,
    {
        if x[i] != y[i] {
            return false;
        }
        i += 1;
    }
    assert(x@ =~= y@);
    true
}

/// Number of whitespace characters at the start of `v`.
pub fn count_lead_ws(v: &Vec<char>) -> (k: usize)
    ensures
        k == lead_ws(v@),
{
    let mut i: usize = 0;
    while i < v.len() && is_whitespace(v[i])
        invariant
            i <= v.len(),
            forall|j: int| 0 <= j < i ==> is_ws(#[trigger] v@[j]),
        decreases v.len() - i,
    {
        i += 1;
    }
    proof {
        lemma_lead_ws_unique(v@, i as int);
    }
    i
}

/// Number of whitespace characters at the end of `v`.
pub fn count_trail_ws(v: &Vec<char>) -> (k: usize)
    ensures
        k == trail_ws(v@),
{
    let mut i: usize = v.len();
    while i > 0 && is_whitespace(v[i - 1])
        invariant
            i <= v.len(),
            forall|j: int| i <= j < v.len() ==> is_ws(#[trigger] v@[j]),
        decreases i,
    {
        i -= 1;
    }
    proof {
        lemma_trail_ws_unique(v@, i as int);
    }
    v.len() - i
}

/// `str::trim_start`.
pub fn trim_start_str(s: &str) -> (res: &str)
    ensures
        res@ == trim_start(s@),
{
    let v = chars_of(s);
    let k = count_lead_ws(&v);
    proof {
        lemma_lead_ws(s@);
    }
    s.substring_char(k, v.len())
}

/// `str::trim_end`.
pub fn trim_end_str(s: &str) -> (res: &str)
    ensures
        res@ == trim_end(s@),
{
    let v = chars_of(s);
    let k = count_trail_ws(&v);
    proof {
        lemma_trail_ws(s@);
    }
    s.substring_char(0, v.len() - k)
}

/// `str::trim`.
pub fn trim_str(s: &str) -> (res: &str)
    ensures
        res@ == trim(s@),
{
    trim_end_str(trim_start_str(s))
}

/// Whether `s` begins with `c`.
pub fn starts_with_char_str(s: &str, c: char) -> (res: bool)
    ensures
        res == starts_with_char(s@, c),
{
    let v = chars_of(s);
    v.len() > 0 && v[0] == c
}

/// Whether `s` ends with `c`.
pub fn ends_with_char_str(s: &str, c: char) -> (res: bool)
    ensures
        res == ends_with_char(s@, c),
{
    let v = chars_of(s);
    v.len() > 0 && v[v.len() - 1] == c
}

/// Whether `s` begins with `p`.
pub fn starts_with_str(s: &str, p: &str) -> (res: bool)
    ensures
        res == starts_with(s@, p@),
{
    let x = chars_of(s);
    let y = chars_of(p);
    if y.len() > x.len() {
        return false;
    }
    let mut i: usize = 0;
    while i < y.len()
        invariant
            x@ == s@,
            y@ == p@,
            y.len() <= x.len(),
            i <= y.len(),
            forall|j: int| 0 <= j < i ==> x@[j] == y@[j],
        decreases y.len() - i,
    {
        if x[i] != y[i] {
            assert(s@.take(p@.len() as int)[i as int] != p@[i as int]);
            return false;
        }
        i += 1;
    }
    assert(s@.take(p@.len() as int) =~= p@);
    true
}

/// Index of the first `c` in `v` at or after `from`, or the length of `v`.
pub fn find_char_from(v: &Vec<char>, c: char, from: usize) -> (k: usize)
    requires
        from <= v.len(),
    ensures
        k == from + first_index(v@.skip(from as int), c),
        from <= k <= v.len(),
{
    let mut i: usize = from;
    while i < v.len() && v[i] != c
        invariant
            from <= i <= v.len(),
            forall|j: int| from <= j < i ==> v@[j] != c,
        decreases v.len() - i,
    {
        i += 1;
    }
    proof {
        let t = v@.skip(from as int);
        assert forall|j: int| 0 <= j < i - from implies #[trigger] t[j] != c by {
            assert(t[j] == v@[from + j]);
        }
        lemma_first_index_unique(t, c, i - from);
    }
    i
}

/// `s` with every `'\n'` at its end removed.
pub fn trim_newlines_end_str(s: &str) -> (res: &str)
    ensures
        res@ == trim_newlines_end(s@),
{
    let v = chars_of(s);
    let mut i: usize = v.len();
    assert(s@.take(i as int) =~= s@);
    while i > 0 && v[i - 1] == '\n'
        invariant
            i <= v.len(),
            v@ == s@,
            trim_newlines_end(s@) == trim_newlines_end(s@.take(i as int)),
        decreases i,
    {
        proof {
            assert(s@.take(i as int).drop_last() =~= s@.take(i - 1));
        }
        i -= 1;
    }
    proof {
        assert(!ends_with_char(s@.take(i as int), '\n'));
    }
    s.substring_char(0, i)
}

/// `str::lines`, each line as a new `String`.
pub fn split_lines(content: &str) -> (res: Vec<String>)
    ensures
        res.deep_view() == text_lines(content@),
{
    let v = chars_of(content);
    let mut res: Vec<String> = Vec::new();
    let mut pos: usize = 0;
    proof {
        assert(v@.skip(0) =~= v@);
        assert(res.deep_view() =~= Seq::<Seq<char>>::empty());
    }
    while pos < v.len()
        invariant
            v@ == content@,
            pos <= v.len(),
            res.deep_view() + text_lines(v@.skip(pos as int)) == text_lines(content@),
        decreases v.len() - pos,
    {
        let ghost t = v@.skip(pos as int);
        let j = find_char_from(&v, '\n', pos);
        proof {
            lemma_first_index(t, '\n');
        }
        let ghost old_dv = res.deep_view();
        if j == v.len() {
            let line = String::from_str(content.substring_char(pos, v.len()));
            res.push(line);
            proof {
                assert(t =~= content@.subrange(pos as int, v.len() as int));
                assert(res.deep_view() =~= old_dv.push(t));
                assert(v@.skip(v.len() as int) =~= Seq::<char>::empty());
                assert(text_lines(t) == seq![t]);
                assert(text_lines(v@.skip(v.len() as int)) =~= Seq::<Seq<char>>::empty());
                assert(res.deep_view() + text_lines(v@.skip(v.len() as int)) =~= old_dv + text_lines(t));
            }
            pos = v.len();
        } else {
            let end = if j > pos && v[j - 1] == '\r' {
                j - 1
            } else {
                j
            };
            let line = String::from_str(content.substring_char(pos, end));
            res.push(line);
            proof {
                let i = (j - pos) as int;
                assert(t.take(i) =~= content@.subrange(pos as int, j as int));
                assert(strip_cr(t.take(i)) =~= content@.subrange(pos as int, end as int));
                assert(t.skip(i + 1) =~= v@.skip(j + 1));
                assert(res.deep_view() =~= old_dv.push(strip_cr(t.take(i))));
                assert(text_lines(t) == seq![strip_cr(t.take(i))] + text_lines(t.skip(i + 1)));
                assert(res.deep_view() + text_lines(v@.skip(j + 1)) =~= old_dv + text_lines(t));
            }
            pos = j + 1;
        }
    }
    proof {
        assert(text_lines(v@.skip(pos as int)) =~= Seq::<Seq<char>>::empty());
        assert(res.deep_view() + text_lines(v@.skip(pos as int)) =~= res.deep_view());
    }
    res
}

/// The lines joined with `"\n"` between them (`[String]::join("\n")`).
pub fn join_newline(ls: &Vec<String>) -> (res: String)
    ensures
        res@ == join_lines(ls.deep_view()),
{
    let ghost dv = ls.deep_view();
    let mut res = String::new();
    proof {
        reveal_strlit("\n");
        assert(dv.take(0) =~= Seq::<Seq<char>>::empty());
    }
    let mut i: usize = 0;
    while i < ls.len()
        invariant
            dv == ls.deep_view(),
            i <= ls.len(),
            res@ == join_lines(dv.take(i as int)),
        decreases ls.len() - i,
    {
        proof {
            reveal_strlit("\n");
        }
        if i > 0 {
            res.append("\n");
        }
        res.append(ls[i].as_str());
        proof {
            assert(dv.take(i + 1).drop_last() =~= dv.take(i as int));
            assert(dv[i as int] == ls[i as int]@);
            if i == 0 {
                assert(res@ =~= dv.take(1)[0]);
            }
        }
        i += 1;
    }
    proof {
        assert(dv.take(ls.len() as int) =~= dv);
    }
    res
}

/// `s` holds no carriage return.
pub open spec fn no_cr(s: Seq<char>) -> bool {
    forall|i: int| 0 <= i < s.len() ==> s[i] != '\r'
}

/// No carriage return ends a line of `s`: each one is followed by a character other than a
/// line feed.
pub open spec fn lines_end_cleanly(s: Seq<char>) -> bool {
    forall|i: int|
        0 <= i < s.len() && #[trigger] s[i] == '\r' ==> i + 1 < s.len() && s[i + 1] != '\n'
}

/// No carriage return in `s` stands right before a line feed.
pub open spec fn no_cr_before_lf(s: Seq<char>) -> bool {
    forall|i: int| 0 <= i && i + 1 < s.len() && #[trigger] s[i] == '\r' ==> s[i + 1] != '\n'
}

/// A line as `str::lines` gives it back: no line feed in it and no carriage return at its end.
pub open spec fn plain_line(l: Seq<char>) -> bool {
    (forall|i: int| 0 <= i < l.len() ==> #[trigger] l[i] != '\n') && !ends_with_char(l, '\r')
}

pub proof fn lemma_join_lines_prepend(a: Seq<char>, ls: Seq<Seq<char>>)
    requires
        ls.len() >= 1,
    ensures
        join_lines(seq![a] + ls) == a + seq!['\n'] + join_lines(ls),
    decreases ls.len(),
{
    let l = seq![a] + ls;
    if ls.len() == 1 {
        assert(l.drop_last() =~= seq![a]);
        assert(join_lines(seq![a]) == a);
        assert(l.last() == ls[0]);
        assert(join_lines(ls) == ls[0]);
        assert(join_lines(l) == join_lines(l.drop_last()) + seq!['\n'] + l.last());
    } else {
        assert(l.last() == ls.last());
        assert(join_lines(l) == join_lines(l.drop_last()) + seq!['\n'] + l.last());
        assert(l.drop_last() =~= seq![a] + ls.drop_last());
        lemma_join_lines_prepend(a, ls.drop_last());
        assert(join_lines(l) =~= a + seq!['\n'] + join_lines(ls));
    }
}

pub proof fn lemma_text_lines_nonempty(s: Seq<char>)
    requires
        s.len() > 0,
    ensures
        text_lines(s).len() >= 1,
{
}

/// What follows a point of a text ends its lines as cleanly as the text.
pub proof fn lemma_lines_end_cleanly_skip(s: Seq<char>, n: int)
    requires
        lines_end_cleanly(s),
        0 <= n <= s.len(),
    ensures
        lines_end_cleanly(s.skip(n)),
{
    let r = s.skip(n);
    assert forall|k: int| 0 <= k < r.len() && #[trigger] r[k] == '\r' implies k + 1 < r.len() && r[k
        + 1] != '\n' by {
        assert(r[k] == s[n + k]);
        if k + 1 < r.len() {
            assert(r[k + 1] == s[n + k + 1]);
        }
    }
}

/// Cutting a text into lines and joining them again, with a final line ending when the text
/// had one, gives the text back, when no carriage return stands before a line feed in it.
pub proof fn law_lines_join_roundtrip(s: Seq<char>)
    requires
        no_cr_before_lf(s),
    ensures
        join_lines(text_lines(s)) + (if ends_with_char(s, '\n') {
            seq!['\n']
        } else {
            seq![]
        }) == s,
        s.len() > 0 && !ends_with_char(s, '\n') ==> join_lines(text_lines(s)).len() > 0,
    decreases s.len(),
{
    if s.len() == 0 {
        assert(join_lines(text_lines(s)) =~= s);
    } else {
        let i = first_index(s, '\n');
        lemma_first_index(s, '\n');
        if i >= s.len() {
            assert(text_lines(s) == seq![s]);
            assert(join_lines(seq![s]) == s);
            assert(!ends_with_char(s, '\n'));
            assert(join_lines(text_lines(s)) + Seq::<char>::empty() =~= s);
        } else {
            let head = s.take(i as int);
            let rest = s.skip(i as int + 1);
            if i > 0 {
                assert(s[i - 1] != '\r');
                assert(head.last() == s[i - 1]);
            }
            assert(!ends_with_char(head, '\r'));
            assert(strip_cr(head) == head);
            assert(text_lines(s) == seq![head] + text_lines(rest));
            assert forall|k: int| 0 <= k && k + 1 < rest.len() && #[trigger] rest[k] == '\r' implies rest[k
                + 1] != '\n' by {
                assert(rest[k] == s[i + 1 + k]);
                assert(rest[k + 1] == s[i + 1 + k + 1]);
            }
            if rest.len() == 0 {
                assert(text_lines(rest) =~= Seq::<Seq<char>>::empty());
                assert(seq![head] + text_lines(rest) =~= seq![head]);
                assert(join_lines(seq![head]) == head);
                assert(i == s.len() - 1);
                assert(head + seq!['\n'] =~= s);
            } else {
                law_lines_join_roundtrip(rest);
                lemma_text_lines_nonempty(rest);
                lemma_join_lines_prepend(head, text_lines(rest));
                assert(ends_with_char(s, '\n') == ends_with_char(rest, '\n'));
                let t = if ends_with_char(s, '\n') {
                    seq!['\n']
                } else {
                    Seq::<char>::empty()
                };
                assert(join_lines(text_lines(s)) + t =~= head + seq!['\n'] + (join_lines(
                    text_lines(rest),
                ) + t));
                assert(head + seq!['\n'] + rest =~= s);
            }
        }
    }
}

/// `s` holds no line ending character.
pub open spec fn no_newline(s: Seq<char>) -> bool {
    forall|i: int| 0 <= i < s.len() ==> s[i] != '\n' && s[i] != '\r'
}

pub proof fn lemma_first_index_concat(x: Seq<char>, y: Seq<char>, c: char)
    requires
        first_index(x, c) < x.len(),
    ensures
        first_index(x + y, c) == first_index(x, c),
{
    lemma_first_index(x, c);
    let k = first_index(x, c) as int;
    assert forall|i: int| 0 <= i < k implies #[trigger] (x + y)[i] != c by {
        assert((x + y)[i] == x[i]);
    }
    assert((x + y)[k] == x[k]);
    lemma_first_index_unique(x + y, c, k);
}

/// The lines of a text that ends a line, followed by more text, are the lines of each.
pub proof fn lemma_lines_concat(x: Seq<char>, y: Seq<char>)
    requires
        ends_with_char(x, '\n'),
    ensures
        text_lines(x + y) == text_lines(x) + text_lines(y),
    decreases x.len(),
{
    lemma_first_index(x, '\n');
    assert(x[x.len() - 1] == '\n');
    if first_index(x, '\n') >= x.len() {
        assert(false);
    }
    let i = first_index(x, '\n') as int;
    lemma_first_index_concat(x, y, '\n');
    let xy = x + y;
    assert(xy.take(i) =~= x.take(i));
    assert(xy.skip(i + 1) =~= x.skip(i + 1) + y);
    let rest = x.skip(i + 1);
    if rest.len() == 0 {
        assert(x.skip(i + 1) + y =~= y);
        assert(text_lines(rest) =~= Seq::<Seq<char>>::empty());
        assert(text_lines(x) =~= seq![strip_cr(x.take(i))]);
        assert(text_lines(xy) =~= text_lines(x) + text_lines(y));
    } else {
        assert(rest.last() == x.last());
        lemma_lines_concat(rest, y);
        assert(text_lines(xy) =~= text_lines(x) + text_lines(y));
    }
}

/// A line without line endings, ended: one line.
pub proof fn lemma_lines_single(l: Seq<char>)
    requires
        plain_line(l),
    ensures
        text_lines(l.push('\n')) == seq![l],
{
    let s = l.push('\n');
    assert forall|i: int| 0 <= i < l.len() implies #[trigger] s[i] != '\n' by {
        assert(s[i] == l[i]);
    }
    lemma_first_index_unique(s, '\n', l.len() as int);
    assert(s.take(l.len() as int) =~= l);
    assert(s.skip(l.len() as int + 1) =~= Seq::<char>::empty());
    if l.len() > 0 {
        assert(l.last() != '\r');
    }
    assert(strip_cr(l) == l);
    let e = s.skip(l.len() as int + 1);
    assert(text_lines(e) =~= Seq::<Seq<char>>::empty());
    assert(text_lines(s) == seq![strip_cr(s.take(l.len() as int))] + text_lines(e));
    assert(text_lines(s) =~= seq![l]);
}

/// Lines without line endings, joined and ended, give back the lines.
pub proof fn lemma_lines_of_joined(ls: Seq<Seq<char>>)
    requires
        ls.len() > 0,
        forall|i: int| 0 <= i < ls.len() ==> plain_line(#[trigger] ls[i]),
    ensures
        text_lines(join_lines(ls).push('\n')) == ls,
    decreases ls.len(),
{
    if ls.len() == 1 {
        assert(join_lines(ls) == ls[0]);
        lemma_lines_single(ls[0]);
    } else {
        let d = ls.drop_last();
        assert forall|i: int| 0 <= i < d.len() implies plain_line(#[trigger] d[i]) by {
            assert(d[i] == ls[i]);
        }
        lemma_lines_of_joined(d);
        let x = join_lines(d).push('\n');
        let last = ls.last();
        assert(join_lines(ls).push('\n') =~= x + last.push('\n'));
        lemma_lines_concat(x, last.push('\n'));
        lemma_lines_single(last);
        assert(d + seq![last] =~= ls);
    }
}

/// Ending a line that was not ended changes nothing of the lines.
pub proof fn lemma_lines_push_newline(s: Seq<char>)
    requires
        s.len() > 0,
        !ends_with_char(s, '\n'),
        lines_end_cleanly(s),
    ensures
        text_lines(s.push('\n')) == text_lines(s),
    decreases s.len(),
{
    let i = first_index(s, '\n');
    lemma_first_index(s, '\n');
    let t = s.push('\n');
    if i >= s.len() {
        assert forall|k: int| 0 <= k < s.len() implies #[trigger] s[k] != '\n' by {
            if s[k] == '\n' {
                assert(k >= i);
            }
        }
        assert(s[s.len() - 1] != '\r');
        assert(plain_line(s));
        lemma_lines_single(s);
        assert(text_lines(s) == seq![s]);
    } else {
        assert(i < s.len() - 1);
        lemma_first_index_concat(s, seq!['\n'], '\n');
        assert(t =~= s + seq!['\n']);
        assert(t.take(i as int) =~= s.take(i as int));
        let rest = s.skip(i as int + 1);
        assert(t.skip(i as int + 1) =~= rest.push('\n'));
        assert(rest.last() == s.last());
        lemma_lines_end_cleanly_skip(s, i as int + 1);
        lemma_lines_push_newline(rest);
    }
}

/// `s` is the text without its final line endings, followed by them.
pub proof fn lemma_trim_newlines_end(s: Seq<char>)
    ensures
        trim_newlines_end(s).len() <= s.len(),
        s.take(trim_newlines_end(s).len() as int) == trim_newlines_end(s),
        forall|i: int| trim_newlines_end(s).len() <= i < s.len() ==> #[trigger] s[i] == '\n',
        !ends_with_char(trim_newlines_end(s), '\n'),
    decreases s.len(),
{
    if ends_with_char(s, '\n') {
        lemma_trim_newlines_end(s.drop_last());
        let t = trim_newlines_end(s);
        assert(s.take(t.len() as int) =~= s.drop_last().take(t.len() as int));
        assert forall|i: int| t.len() <= i < s.len() implies #[trigger] s[i] == '\n' by {
            if i < s.len() - 1 {
                assert(s[i] == s.drop_last()[i]);
            }
        }
    } else {
        assert(s.take(s.len() as int) =~= s);
    }
}

/// The lines of a text without its final line endings start its lines.
pub proof fn lemma_lines_trim_newlines_prefix(s: Seq<char>)
    requires
        lines_end_cleanly(s),
    ensures
        text_lines(trim_newlines_end(s)).len() <= text_lines(s).len(),
        text_lines(s).take(text_lines(trim_newlines_end(s)).len() as int) == text_lines(
            trim_newlines_end(s),
        ),
{
    lemma_trim_newlines_end(s);
    let t = trim_newlines_end(s);
    if t.len() == 0 {
        assert(text_lines(t) =~= Seq::<Seq<char>>::empty());
        assert(text_lines(s).take(0) =~= Seq::<Seq<char>>::empty());
    } else if t.len() == s.len() {
        assert(t =~= s);
        assert(text_lines(s).take(text_lines(s).len() as int) =~= text_lines(s));
    } else {
        let tail = s.skip(t.len() as int + 1);
        assert(s =~= t.push('\n') + tail);
        lemma_trim_newlines_end_cleanly(s);
        lemma_lines_push_newline(t);
        lemma_lines_concat(t.push('\n'), tail);
        assert(text_lines(s).take(text_lines(t).len() as int) =~= text_lines(t));
    }
}

/// Dropping more line endings at the end changes nothing once they are all dropped.
pub proof fn lemma_trim_newlines_end_push(s: Seq<char>)
    ensures
        trim_newlines_end(s.push('\n')) == trim_newlines_end(s),
{
    assert(s.push('\n').drop_last() =~= s);
}


/// Both parts without line endings: the whole has none.
pub proof fn lemma_no_newline_concat(a: Seq<char>, b: Seq<char>)
    requires
        no_newline(a),
        no_newline(b),
    ensures
        no_newline(a + b),
{
    assert forall|i: int| 0 <= i < (a + b).len() implies #[trigger] (a + b)[i] != '\n' && (a
        + b)[i] != '\r' by {
        if i < a.len() {
            assert((a + b)[i] == a[i]);
        } else {
            assert((a + b)[i] == b[i - a.len()]);
        }
    }
}

/// A line without line endings, ended, in front of more text: one more line in front.
pub proof fn lemma_lines_cons(l: Seq<char>, rest: Seq<char>)
    requires
        plain_line(l),
    ensures
        text_lines(l.push('\n') + rest) == seq![l] + text_lines(rest),
{
    lemma_lines_single(l);
    lemma_lines_concat(l.push('\n'), rest);
}

/// A line that starts with a character other than whitespace keeps it first when trimmed.
pub proof fn lemma_trim_first(l: Seq<char>)
    requires
        l.len() > 0,
        !is_ws(l[0]),
    ensures
        trim(l).len() > 0,
        trim(l)[0] == l[0],
{
    lemma_lead_ws_unique(l, 0);
    assert(trim_start(l) =~= l);
    lemma_trail_ws(l);
    if trail_ws(l) >= l.len() {
        assert(is_ws(l[0]));
    }
}

/// A text that does not end a line has a last line that is not empty.
pub proof fn lemma_last_line_nonempty(s: Seq<char>)
    requires
        s.len() > 0,
        !ends_with_char(s, '\n'),
    ensures
        text_lines(s).len() > 0,
        text_lines(s).last().len() > 0,
    decreases s.len(),
{
    let i = first_index(s, '\n');
    lemma_first_index(s, '\n');
    if i < s.len() {
        let rest = s.skip(i as int + 1);
        assert(rest.len() > 0);
        assert(rest.last() == s.last());
        lemma_last_line_nonempty(rest);
        assert(text_lines(s) == seq![strip_cr(s.take(i as int))] + text_lines(rest));
    }
}

/// A part of a text without line feeds has none either.
pub proof fn lemma_no_lf_subrange(s: Seq<char>, a: int, b: int)
    requires
        no_lf(s),
        0 <= a <= b <= s.len(),
    ensures
        no_lf(s.subrange(a, b)),
{
    assert forall|i: int| 0 <= i < s.subrange(a, b).len() implies #[trigger] s.subrange(a, b)[i]
        != '\n' by {
        assert(s.subrange(a, b)[i] == s[a + i]);
    }
}

/// Trimming a text without line feeds leaves none.
pub proof fn lemma_no_lf_trim(s: Seq<char>)
    requires
        no_lf(s),
    ensures
        no_lf(trim_start(s)),
        no_lf(trim_end(s)),
        no_lf(trim(s)),
{
    lemma_lead_ws(s);
    assert(trim_start(s) =~= s.subrange(lead_ws(s) as int, s.len() as int));
    lemma_no_lf_subrange(s, lead_ws(s) as int, s.len() as int);
    lemma_trail_ws(s);
    assert(trim_end(s) =~= s.subrange(0, s.len() - trail_ws(s)));
    lemma_no_lf_subrange(s, 0, s.len() - trail_ws(s));
    let t = trim_start(s);
    lemma_trail_ws(t);
    assert(trim(s) =~= t.subrange(0, t.len() - trail_ws(t)));
    lemma_no_lf_subrange(t, 0, t.len() - trail_ws(t));
}

/// Dropping the final line endings of a text that ends its lines cleanly leaves a text that
/// does too.
pub proof fn lemma_trim_newlines_end_cleanly(s: Seq<char>)
    requires
        lines_end_cleanly(s),
    ensures
        lines_end_cleanly(trim_newlines_end(s)),
{
    lemma_trim_newlines_end(s);
    let t = trim_newlines_end(s);
    assert forall|i: int| 0 <= i < t.len() && #[trigger] t[i] == '\r' implies i + 1 < t.len() && t[i
        + 1] != '\n' by {
        assert(t[i] == s[i]);
        if i + 1 < t.len() {
            assert(t[i + 1] == s[i + 1]);
        } else {
            assert(s[i + 1] == '\n');
        }
    }
}

/// Plain lines joined: no carriage return ends a line.
pub proof fn lemma_join_ends_cleanly(ls: Seq<Seq<char>>)
    requires
        forall|i: int| 0 <= i < ls.len() ==> plain_line(#[trigger] ls[i]),
    ensures
        lines_end_cleanly(join_lines(ls)),
        lines_end_cleanly(join_lines(ls).push('\n')),
    decreases ls.len(),
{
    let j = join_lines(ls);
    if ls.len() == 1 {
        assert(plain_line(ls[0]));
        assert(j == ls[0]);
    } else if ls.len() > 1 {
        let d = ls.drop_last();
        assert forall|i: int| 0 <= i < d.len() implies plain_line(#[trigger] d[i]) by {
            assert(d[i] == ls[i]);
        }
        lemma_join_ends_cleanly(d);
        let l = ls.last();
        assert(plain_line(ls[ls.len() - 1]));
        let a = join_lines(d);
        assert(j == a + seq!['\n'] + l);
        assert forall|i: int| 0 <= i < j.len() && #[trigger] j[i] == '\r' implies i + 1 < j.len()
            && j[i + 1] != '\n' by {
            if i < a.len() {
                assert(j[i] == a[i]);
                assert(a.push('\n')[i] == a[i]);
                if i + 1 < a.len() {
                    assert(j[i + 1] == a[i + 1]);
                } else {
                    assert(a.push('\n')[i + 1] == '\n');
                }
            } else if i > a.len() {
                assert(j[i] == l[i - a.len() - 1]);
                if i + 1 < j.len() {
                    assert(j[i + 1] == l[i - a.len()]);
                } else {
                    assert(l[l.len() - 1] == j[i]);
                }
            }
        }
    }
    let jp = j.push('\n');
    assert forall|i: int| 0 <= i < jp.len() && #[trigger] jp[i] == '\r' implies i + 1 < jp.len()
        && jp[i + 1] != '\n' by {
        assert(jp[i] == j[i]);
        if i + 1 < j.len() {
            assert(jp[i + 1] == j[i + 1]);
        }
    }
}

/// The lines of a text that ends its lines cleanly are plain.
pub proof fn lemma_lines_plain(s: Seq<char>)
    requires
        lines_end_cleanly(s),
    ensures
        forall|j: int| 0 <= j < text_lines(s).len() ==> plain_line(#[trigger] text_lines(s)[j]),
    decreases s.len(),
{
    if s.len() > 0 {
        let i = first_index(s, '\n');
        lemma_first_index(s, '\n');
        if i >= s.len() {
            assert(text_lines(s) == seq![s]);
            assert forall|k: int| 0 <= k < s.len() implies #[trigger] s[k] != '\n' by {
                if s[k] == '\n' {
                    assert(k >= i);
                }
            }
            assert(s[s.len() - 1] != '\r');
        } else {
            let head = s.take(i as int);
            let rest = s.skip(i as int + 1);
            lemma_lines_end_cleanly_skip(s, i as int + 1);
            lemma_lines_plain(rest);
            if i > 0 {
                assert(s[i - 1] != '\r');
                assert(head.last() == s[i - 1]);
            }
            assert(!ends_with_char(head, '\r'));
            assert(strip_cr(head) == head);
            assert forall|k: int| 0 <= k < head.len() implies #[trigger] head[k] != '\n' by {
                assert(head[k] == s[k]);
            }
            assert(text_lines(s) == seq![head] + text_lines(rest));
            assert forall|j: int| 0 <= j < text_lines(s).len() implies plain_line(
                #[trigger] text_lines(s)[j],
            ) by {
                if j > 0 {
                    assert(text_lines(s)[j] == text_lines(rest)[j - 1]);
                }
            }
        }
    }
}

/// `s` holds no line feed.
pub open spec fn no_lf(s: Seq<char>) -> bool {
    forall|i: int| 0 <= i < s.len() ==> #[trigger] s[i] != '\n'
}

/// No line of a text holds a line feed.
pub proof fn lemma_lines_no_lf(s: Seq<char>)
    ensures
        forall|j: int| 0 <= j < text_lines(s).len() ==> no_lf(#[trigger] text_lines(s)[j]),
    decreases s.len(),
{
    if s.len() > 0 {
        let i = first_index(s, '\n');
        lemma_first_index(s, '\n');
        if i >= s.len() {
            assert(text_lines(s) == seq![s]);
            assert forall|k: int| 0 <= k < s.len() implies #[trigger] s[k] != '\n' by {
                if s[k] == '\n' {
                    assert(k >= i);
                }
            }
        } else {
            let head = s.take(i as int);
            let rest = s.skip(i as int + 1);
            lemma_lines_no_lf(rest);
            assert forall|k: int| 0 <= k < strip_cr(head).len() implies #[trigger] strip_cr(
                head,
            )[k] != '\n' by {
                assert(strip_cr(head)[k] == s[k]);
            }
            assert(text_lines(s) == seq![strip_cr(head)] + text_lines(rest));
            assert forall|j: int| 0 <= j < text_lines(s).len() implies no_lf(
                #[trigger] text_lines(s)[j],
            ) by {
                if j > 0 {
                    assert(text_lines(s)[j] == text_lines(rest)[j - 1]);
                }
            }
        }
    }
}

/// A line without line feed, ended: one line, without its final carriage return.
pub proof fn lemma_lines_single_cr(l: Seq<char>)
    requires
        no_lf(l),
    ensures
        text_lines(l.push('\n')) == seq![strip_cr(l)],
{
    let s = l.push('\n');
    assert forall|i: int| 0 <= i < l.len() implies #[trigger] s[i] != '\n' by {
        assert(s[i] == l[i]);
    }
    lemma_first_index_unique(s, '\n', l.len() as int);
    assert(s.take(l.len() as int) =~= l);
    let e = s.skip(l.len() as int + 1);
    assert(e =~= Seq::<char>::empty());
    assert(text_lines(e) =~= Seq::<Seq<char>>::empty());
    assert(text_lines(s) == seq![strip_cr(s.take(l.len() as int))] + text_lines(e));
    assert(text_lines(s) =~= seq![strip_cr(l)]);
}

/// Lines without line feeds, joined and ended: the lines, each without a final carriage
/// return.
pub proof fn lemma_lines_of_joined_cr(ls: Seq<Seq<char>>)
    requires
        ls.len() > 0,
        forall|i: int| 0 <= i < ls.len() ==> no_lf(#[trigger] ls[i]),
    ensures
        text_lines(join_lines(ls).push('\n')) == ls.map_values(|l: Seq<char>| strip_cr(l)),
    decreases ls.len(),
{
    if ls.len() == 1 {
        assert(join_lines(ls) == ls[0]);
        lemma_lines_single_cr(ls[0]);
        assert(ls.map_values(|l: Seq<char>| strip_cr(l)) =~= seq![strip_cr(ls[0])]);
    } else {
        let d = ls.drop_last();
        assert forall|i: int| 0 <= i < d.len() implies no_lf(#[trigger] d[i]) by {
            assert(d[i] == ls[i]);
        }
        lemma_lines_of_joined_cr(d);
        let x = join_lines(d).push('\n');
        let last = ls.last();
        assert(no_lf(ls[ls.len() - 1]));
        assert(join_lines(ls).push('\n') =~= x + last.push('\n'));
        lemma_lines_concat(x, last.push('\n'));
        lemma_lines_single_cr(last);
        assert(ls.map_values(|l: Seq<char>| strip_cr(l)) =~= d.map_values(
            |l: Seq<char>| strip_cr(l),
        ) + seq![strip_cr(last)]);
    }
}

/// A final carriage return is trimmed away with the rest of the whitespace.
pub proof fn lemma_trim_strip_cr(l: Seq<char>)
    ensures
        trim(strip_cr(l)) == trim(l),
{
    if ends_with_char(l, '\r') {
        let m = l.drop_last();
        assert(l =~= m.push('\r'));
        lemma_lead_ws(m);
        lemma_lead_ws(l);
        if lead_ws(m) < m.len() {
            lemma_lead_ws_unique(l, lead_ws(m) as int);
            let t = trim_start(m);
            assert(trim_start(l) =~= t.push('\r'));
            assert(t.push('\r').drop_last() =~= t);
            let u = t.push('\r');
            assert(is_ws('\r'));
            assert(u.last() == '\r');
            assert(trail_ws(u) == 1 + trail_ws(u.drop_last()));
            assert(trail_ws(u) == 1 + trail_ws(t));
            lemma_trail_ws(t);
            assert(trim_end(u) =~= trim_end(t));
            assert(trim(l) == trim_end(u));
        } else {
            assert forall|i: int| 0 <= i < l.len() implies is_ws(#[trigger] l[i]) by {
                if i < m.len() {
                    assert(l[i] == m[i]);
                }
            }
            lemma_lead_ws_unique(l, l.len() as int);
            assert(trim_start(l) =~= Seq::<char>::empty());
            assert(trim_start(m) =~= Seq::<char>::empty());
            lemma_trail_ws_unique(Seq::<char>::empty(), 0);
            assert(trim(l) =~= Seq::<char>::empty());
            assert(trim(m) =~= Seq::<char>::empty());
        }
    }
}

/// A text without line feeds is one line.
pub proof fn lemma_lines_one(x: Seq<char>)
    requires
        no_lf(x),
        x.len() > 0,
    ensures
        text_lines(x) == seq![x],
{
    lemma_first_index(x, '\n');
    if first_index(x, '\n') < x.len() {
        assert(x[first_index(x, '\n') as int] == '\n');
    }
}

/// Lines joined by `"\n"`, with a final `"\n"` when asked for or when the text would be empty.
pub open spec fn join_lines_ended(ls: Seq<Seq<char>>, trailing: bool) -> Seq<char> {
    let j = join_lines(ls);
    if trailing || j.len() == 0 {
        j.push('\n')
    } else {
        j
    }
}

/// The lines of joined lines without line feeds, ended when asked (or when nothing would be
/// left): the same lines, but for a final carriage return that a line ending drops.
pub proof fn lemma_lines_of_joined_ended(ls: Seq<Seq<char>>, trailing: bool)
    requires
        ls.len() > 0,
        forall|i: int| 0 <= i < ls.len() ==> no_lf(#[trigger] ls[i]),
        trailing || ls.last().len() > 0,
    ensures
        text_lines(join_lines_ended(ls, trailing)).len() == ls.len(),
        forall|i: int|
            0 <= i < ls.len() ==> #[trigger] text_lines(join_lines_ended(ls, trailing))[i] == ls[i]
                || text_lines(join_lines_ended(ls, trailing))[i] == strip_cr(ls[i]),
        ends_with_char(join_lines_ended(ls, trailing), '\n') == trailing,
{
    let j = join_lines(ls);
    if trailing || j.len() == 0 {
        lemma_lines_of_joined_cr(ls);
        if !trailing {
            assert(ls.len() > 1 || j == ls[0]);
            if ls.len() > 1 {
                assert(j == join_lines(ls.drop_last()) + seq!['\n'] + ls.last());
            }
        }
    } else {
        let last = ls.last();
        assert(no_lf(ls[ls.len() - 1]));
        if ls.len() == 1 {
            assert(j == ls[0]);
            lemma_lines_one(j);
        } else {
            let d = ls.drop_last();
            assert forall|i: int| 0 <= i < d.len() implies no_lf(#[trigger] d[i]) by {
                assert(d[i] == ls[i]);
            }
            lemma_lines_of_joined_cr(d);
            assert(j == join_lines(d) + seq!['\n'] + last);
            assert(j =~= join_lines(d).push('\n') + last);
            lemma_lines_concat(join_lines(d).push('\n'), last);
            lemma_lines_one(last);
            assert forall|i: int| 0 <= i < ls.len() implies #[trigger] text_lines(j)[i] == ls[i]
                || text_lines(j)[i] == strip_cr(ls[i]) by {
                if i < d.len() {
                    assert(text_lines(j)[i] == strip_cr(d[i]));
                    assert(d[i] == ls[i]);
                }
            }
        }
        assert(j.last() == last.last());
    }
}

/// Ending a text that did not end a line keeps its lines, but for a final carriage return that
/// the line ending drops from the last one.
pub proof fn lemma_lines_push_newline_cr(s: Seq<char>)
    requires
        s.len() > 0,
        !ends_with_char(s, '\n'),
    ensures
        text_lines(s.push('\n')).len() == text_lines(s).len(),
        forall|i: int|
            0 <= i < text_lines(s).len() ==> #[trigger] text_lines(s.push('\n'))[i] == text_lines(
                s,
            )[i] || text_lines(s.push('\n'))[i] == strip_cr(text_lines(s)[i]),
    decreases s.len(),
{
    let i = first_index(s, '\n');
    lemma_first_index(s, '\n');
    let t = s.push('\n');
    if i >= s.len() {
        assert forall|k: int| 0 <= k < s.len() implies #[trigger] s[k] != '\n' by {
            if s[k] == '\n' {
                assert(k >= i);
            }
        }
        lemma_lines_single_cr(s);
        assert(text_lines(s) == seq![s]);
    } else {
        assert(i < s.len() - 1);
        lemma_first_index_concat(s, seq!['\n'], '\n');
        assert(t =~= s + seq!['\n']);
        assert(t.take(i as int) =~= s.take(i as int));
        let rest = s.skip(i as int + 1);
        assert(t.skip(i as int + 1) =~= rest.push('\n'));
        assert(rest.last() == s.last());
        lemma_lines_push_newline_cr(rest);
        let a = text_lines(t);
        let b = text_lines(s);
        assert(a == seq![strip_cr(s.take(i as int))] + text_lines(rest.push('\n')));
        assert(b == seq![strip_cr(s.take(i as int))] + text_lines(rest));
        assert forall|k: int| 0 <= k < b.len() implies #[trigger] a[k] == b[k] || a[k] == strip_cr(
            b[k],
        ) by {
            if k > 0 {
                assert(a[k] == text_lines(rest.push('\n'))[k - 1]);
                assert(b[k] == text_lines(rest)[k - 1]);
            }
        }
    }
}

} // verus!
