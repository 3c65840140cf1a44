use vstd::prelude::*;

use crate::text::str_eq;

verus! {

/// A JSON number as the settings file holds it.
#[derive(Debug, PartialEq)]
pub enum JsonNumber {
    /// A non-negative integer.
    PosInt(u64),
    /// A negative integer.
    NegInt(i64),
    /// Any other number, by its text.
    Float(String),
}

/// A JSON value.
#[derive(Debug, PartialEq)]
pub enum JsonValue {
    Null,
    Bool(bool),
    Number(JsonNumber),
    String(String),
    Array(Vec<JsonValue>),
    Object(JsonObject),
}

/// A JSON object: its members in order; where a key occurs more than once, the last occurrence
/// counts.
#[derive(Debug, PartialEq)]
pub struct JsonObject {
    pub entries: Vec<(String, JsonValue)>,
}

/// The mathematical value of a JSON value.
pub enum Json {
    Null,
    Bool(bool),
    Number(JsonNumber),
    Str(Seq<char>),
    Array(Seq<Json>),
    Object(Map<Seq<char>, Json>),
}

pub open spec fn json_view(v: JsonValue) -> Json
    decreases v,
{
    match v {
        JsonValue::Null => Json::Null,
        JsonValue::Bool(b) => Json::Bool(b),
        JsonValue::Number(n) => Json::Number(n),
        JsonValue::String(s) => Json::Str(s@),
        JsonValue::Array(items) => Json::Array(json_seq_view(items@)),
        JsonValue::Object(o) => Json::Object(json_entries_view(o.entries@)),
    }
}

pub open spec fn json_seq_view(s: Seq<JsonValue>) -> Seq<Json>
    decreases s,
{
    if s.len() == 0 {
        seq![]
    } else {
        json_seq_view(s.drop_last()).push(json_view(s.last()))
    }
}

pub open spec fn json_entries_view(s: Seq<(String, JsonValue)>) -> Map<Seq<char>, Json>
    decreases s,
{
    if s.len() == 0 {
        Map::empty()
    } else {
        json_entries_view(s.drop_last()).insert(s.last().0@, json_view(s.last().1))
    }
}

impl View for JsonValue {
    type V = Json;

    open spec fn view(&self) -> Json {
        json_view(*self)
    }
}

impl View for JsonObject {
    type V = Map<Seq<char>, Json>;

    open spec fn view(&self) -> Map<Seq<char>, Json> {
        json_entries_view(self.entries@)
    }
}

/// The member `key` of a JSON value, when it is an object that has one.
pub open spec fn json_get(v: Json, key: Seq<char>) -> Option<Json> {
    match v {
        Json::Object(m) => if m.contains_key(key) {
            Some(m[key])
        } else {
            None
        },
        _ => None,
    }
}

/// The text of a JSON string.
pub open spec fn json_str(v: Option<Json>) -> Option<Seq<char>> {
    match v {
        Some(Json::Str(s)) => Some(s),
        _ => None,
    }
}

/// The member `key` of `v` is the string `s`.
pub open spec fn member_is(v: Json, key: Seq<char>, s: Seq<char>) -> bool {
    json_str(json_get(v, key)) == Some(s)
}

pub proof fn lemma_entries_view_push(s: Seq<(String, JsonValue)>, e: (String, JsonValue))
    ensures
        json_entries_view(s.push(e)) == json_entries_view(s).insert(e.0@, json_view(e.1)),
{
    assert(s.push(e).drop_last() =~= s);
}

pub proof fn lemma_seq_view_push(s: Seq<JsonValue>, v: JsonValue)
    ensures
        json_seq_view(s.push(v)) == json_seq_view(s).push(json_view(v)),
{
    assert(s.push(v).drop_last() =~= s);
}

pub proof fn lemma_seq_view_len(s: Seq<JsonValue>)
    ensures
        json_seq_view(s).len() == s.len(),
        forall|i: int| 0 <= i < s.len() ==> #[trigger] json_seq_view(s)[i] == json_view(s[i]),
    decreases s.len(),
{
    if s.len() > 0 {
        lemma_seq_view_len(s.drop_last());
        assert forall|i: int| 0 <= i < s.len() implies #[trigger] json_seq_view(s)[i] == json_view(
            s[i],
        ) by {
            if i < s.len() - 1 {
                assert(s.drop_last()[i] == s[i]);
            }
        }
    }
}

impl JsonObject {
    /// An object without members.
    pub fn new() -> (res: JsonObject)
        ensures
            res@ == Map::<Seq<char>, Json>::empty(),
    {
        JsonObject { entries: Vec::new() }
    }

    /// The member `key`.
    pub fn get(&self, key: &str) -> (res: Option<&JsonValue>)
        ensures
            res is Some <==> self@.contains_key(key@),
            res matches Some(v) ==> v@ == self@[key@],
    {
        let ghost s = self.entries@;
        let mut found: Option<usize> = None;
        let mut i: usize = 0;
        proof {
            assert(s.take(0) =~= Seq::<(String, JsonValue)>::empty());
        }
        while i < self.entries.len()
            invariant
                s == self.entries@,
                i <= s.len(),
                found is Some <==> json_entries_view(s.take(i as int)).contains_key(key@),
                found matches Some(j) ==> j < i && json_view(s[j as int].1) == json_entries_view(
                    s.take(i as int),
                )[key@],
            decreases s.len() - i,
        {
            proof {
                assert(s.take(i + 1) =~= s.take(i as int).push(s[i as int]));
                lemma_entries_view_push(s.take(i as int), s[i as int]);
            }
            if str_eq(self.entries[i].0.as_str(), key) {
                found = Some(i);
            }
            i += 1;
        }
        proof {
            assert(s.take(i as int) =~= s);
        }
        match found {
            Some(j) => Some(&self.entries[j].1),
            None => None,
        }
    }

    /// Removes the member `key` and hands back its value.
    pub fn remove(&mut self, key: &str) -> (res: Option<JsonValue>)
        ensures
            final(self)@ == old(self)@.remove(key@),
            res is Some <==> old(self)@.contains_key(key@),
            res matches Some(v) ==> v@ == old(self)@[key@],
    {
        let ghost s = self.entries@;
        let mut rest: Vec<(String, JsonValue)> = Vec::new();
        std::mem::swap(&mut rest, &mut self.entries);
        let mut found: Option<JsonValue> = None;
        let mut i: usize = 0;
        let n = rest.len();
        proof {
            assert(s.take(0) =~= Seq::<(String, JsonValue)>::empty());
            assert(rest@ =~= s.skip(0));
        }
        while i < n
            invariant
                n == s.len(),
                i <= n,
                rest@ == s.skip(i as int),
                json_entries_view(self.entries@) == json_entries_view(s.take(i as int)).remove(key@),
                found is Some <==> json_entries_view(s.take(i as int)).contains_key(key@),
                found matches Some(v) ==> json_view(v) == json_entries_view(s.take(i as int))[key@],
            decreases n - i,
        {
            let e = rest.remove(0);
            proof {
                assert(e == s[i as int]);
                assert(s.skip(i as int).drop_first() =~= s.skip(i + 1));
                assert(s.take(i + 1) =~= s.take(i as int).push(s[i as int]));
                lemma_entries_view_push(s.take(i as int), s[i as int]);
            }
            if str_eq(e.0.as_str(), key) {
                found = Some(e.1);
                proof {
                    assert(json_entries_view(s.take(i + 1)).remove(key@) =~= json_entries_view(
                        s.take(i as int),
                    ).remove(key@));
                }
            } else {
                let ghost before = self.entries@;
                self.entries.push(e);
                proof {
                    lemma_entries_view_push(before, e);
                    assert(json_entries_view(s.take(i + 1)).remove(key@) =~= json_entries_view(
                        s.take(i as int),
                    ).remove(key@).insert(e.0@, json_view(e.1)));
                }
            }
            i += 1;
        }
        proof {
            assert(s.take(n as int) =~= s);
        }
        found
    }

    /// Sets the member `key` to `value`.
    pub fn insert(&mut self, key: String, value: JsonValue)
        ensures
            final(self)@ == old(self)@.insert(key@, value@),
    {
        let _ = self.remove(key.as_str());
        let ghost before = self.entries@;
        let ghost e = (key, value);
        self.entries.push((key, value));
        proof {
            lemma_entries_view_push(before, e);
            assert(json_entries_view(self.entries@) =~= old(self)@.insert(e.0@, json_view(e.1)));
        }
    }
}

impl JsonValue {
    /// The member `key`, when this is an object that has one (`Value::get`).
    pub fn get(&self, key: &str) -> (res: Option<&JsonValue>)
        ensures
            match res {
                Some(v) => json_get(self@, key@) == Some(v@),
                None => json_get(self@, key@) is None,
            },
    {
        match self {
            JsonValue::Object(o) => o.get(key),
            _ => None,
        }
    }

    /// The text, when this is a string (`Value::as_str`).
    pub fn as_str(&self) -> (res: Option<&str>)
        ensures
            match res {
                Some(s) => self@ == Json::Str(s@),
                None => !(self@ is Str),
            },
    {
        match self {
            JsonValue::String(s) => Some(s.as_str()),
            _ => None,
        }
    }
}

/// Whether the member `key` of `value` is the string `s`.
pub fn member_is_exec(value: &JsonValue, key: &str, s: &str) -> (res: bool)
    ensures
        res == member_is(value@, key@, s@),
{
    match value.get(key) {
        Some(v) => match v.as_str() {
            Some(t) => str_eq(t, s),
            None => false,
        },
        None => false,
    }
}


/// Changing the value of the last entry with key `k` sets the member `k`.
pub proof fn lemma_entries_view_update_last(s: Seq<(String, JsonValue)>, j: int, v: JsonValue)
    requires
        0 <= j < s.len(),
        forall|i: int| j < i < s.len() ==> (#[trigger] s[i]).0@ != s[j].0@,
    ensures
        json_entries_view(s.update(j, (s[j].0, v))) == json_entries_view(s).insert(
            s[j].0@,
            json_view(v),
        ),
    decreases s.len(),
{
    let t = s.update(j, (s[j].0, v));
    if j == s.len() - 1 {
        assert(t.drop_last() =~= s.drop_last());
        assert(json_entries_view(t) =~= json_entries_view(s).insert(s[j].0@, json_view(v)));
    } else {
        assert(t.drop_last() =~= s.drop_last().update(j, (s[j].0, v)));
        lemma_entries_view_update_last(s.drop_last(), j, v);
        assert(json_entries_view(t) =~= json_entries_view(s).insert(s[j].0@, json_view(v)));
    }
}

impl JsonObject {
    /// The member `key`, to change in place (`Map::get_mut`).
    pub fn get_mut(&mut self, key: &str) -> (res: Option<&mut JsonValue>)
        ensures
            res is Some <==> old(self)@.contains_key(key@),
            match res {
                Some(r) => r@ == old(self)@[key@] && final(self)@ == old(self)@.insert(
                    key@,
                    final(r)@,
                ) && (final(r)@ == r@ ==> final(self)@ == old(self)@),
                None => final(self)@ == old(self)@,
            },
    {
        let ghost s = self.entries@;
        let mut found: Option<usize> = None;
        let mut i: usize = 0;
        proof {
            assert(s.take(0) =~= Seq::<(String, JsonValue)>::empty());
        }
        while i < self.entries.len()
            invariant
                s == self.entries@,
                i <= s.len(),
                found is Some <==> json_entries_view(s.take(i as int)).contains_key(key@),
                found matches Some(j) ==> j < i && s[j as int].0@ == key@ && json_view(
                    s[j as int].1,
                ) == json_entries_view(s.take(i as int))[key@] && forall|m: int|
                    j < m < i ==> (#[trigger] s[m]).0@ != key@,
                found is None ==> forall|m: int| 0 <= m < i ==> (#[trigger] s[m]).0@ != key@,
            decreases s.len() - i,
        {
            proof {
                assert(s.take(i + 1) =~= s.take(i as int).push(s[i as int]));
                lemma_entries_view_push(s.take(i as int), s[i as int]);
            }
            if str_eq(self.entries[i].0.as_str(), key) {
                found = Some(i);
            }
            i += 1;
        }
        proof {
            assert(s.take(i as int) =~= s);
        }
        match found {
            Some(j) => {
                let r = &mut self.entries[j];
                proof {
                    lemma_entries_view_update_last(s, j as int, final(r).1);
                    let m = json_entries_view(s);
                    assert(m.insert(key@, m[key@]) =~= m);
                }
                Some(&mut r.1)
            },
            None => None,
        }
    }
}

} // verus!
