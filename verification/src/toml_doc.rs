use vstd::prelude::*;

verus! {

/// A TOML value, variant by variant: strings, integers, booleans, arrays and tables with
/// their contents; floats and datetimes without their contents, which this library never reads.
pub enum TomlValue {
    Str(String),
    Integer(i64),
    Boolean(bool),
    Float,
    Datetime,
    Array(Vec<TomlValue>),
    Table(Vec<(String, TomlValue)>),
}

/// The mathematical value of a TOML value.
pub enum Toml {
    Str(Seq<char>),
    Integer(i64),
    Boolean(bool),
    Float,
    Datetime,
    Array(Seq<Toml>),
    Table(Seq<(Seq<char>, Toml)>),
}

pub open spec fn toml_view(v: TomlValue) -> Toml
    decreases v,
{
    match v {
        TomlValue::Str(s) => Toml::Str(s@),
        TomlValue::Integer(n) => Toml::Integer(n),
        TomlValue::Boolean(b) => Toml::Boolean(b),
        TomlValue::Float => Toml::Float,
        TomlValue::Datetime => Toml::Datetime,
        TomlValue::Array(items) => Toml::Array(toml_seq_view(items@)),
        TomlValue::Table(entries) => Toml::Table(toml_entries_view(entries@)),
    }
}

pub open spec fn toml_seq_view(s: Seq<TomlValue>) -> Seq<Toml>
    decreases s,
{
    if s.len() == 0 {
        seq![]
    } else {
        toml_seq_view(s.drop_last()).push(toml_view(s.last()))
    }
}

pub open spec fn toml_entries_view(s: Seq<(String, TomlValue)>) -> Seq<(Seq<char>, Toml)>
    decreases s,
{
    if s.len() == 0 {
        seq![]
    } else {
        toml_entries_view(s.drop_last()).push((s.last().0@, toml_view(s.last().1)))
    }
}

impl View for TomlValue {
    type V = Toml;

    open spec fn view(&self) -> Toml {
        toml_view(*self)
    }
}

/// The views of a sequence of values, element by element.
pub proof fn lemma_toml_seq_view(s: Seq<TomlValue>)
    ensures
        toml_seq_view(s).len() == s.len(),
        forall|i: int| 0 <= i < s.len() ==> #[trigger] toml_seq_view(s)[i] == toml_view(s[i]),
    decreases s.len(),
{
    if s.len() > 0 {
        lemma_toml_seq_view(s.drop_last());
        assert forall|i: int| 0 <= i < s.len() implies #[trigger] toml_seq_view(s)[i] == toml_view(
            s[i],
        ) by {
            if i < s.len() - 1 {
                assert(s.drop_last()[i] == s[i]);
            }
        }
    }
}

/// The views of the entries of a table, entry by entry.
pub proof fn lemma_toml_entries_view(s: Seq<(String, TomlValue)>)
    ensures
        toml_entries_view(s).len() == s.len(),
        forall|i: int|
            0 <= i < s.len() ==> #[trigger] toml_entries_view(s)[i] == (s[i].0@, toml_view(s[i].1)),
    decreases s.len(),
{
    if s.len() > 0 {
        lemma_toml_entries_view(s.drop_last());
        assert forall|i: int| 0 <= i < s.len() implies #[trigger] toml_entries_view(s)[i] == (
        s[i].0@,
        toml_view(s[i].1),
        ) by {
            if i < s.len() - 1 {
                assert(s.drop_last()[i] == s[i]);
            }
        }
    }
}

/// What `toml::from_str::<toml::Value>` makes of a text: the document's value, or the parse
/// error's message (its `Display`) when the text is not a TOML document.
pub uninterp spec fn toml_parse(content: Seq<char>) -> Result<Toml, Seq<char>>;

/// The document a text holds, or `None` when it is not a TOML document.
pub open spec fn toml_document(content: Seq<char>) -> Option<Toml> {
    match toml_parse(content) {
        Ok(doc) => Some(doc),
        Err(_) => None,
    }
}

/// The message of the error that parsing a text that is not a TOML document gives.
pub open spec fn toml_parse_message(content: Seq<char>) -> Seq<char> {
    match toml_parse(content) {
        Ok(_) => seq![],
        Err(message) => message,
    }
}

#[verifier::external_type_specification]
#[verifier::external_body]
pub struct ExTomlValue(toml::Value);

/// Calls `toml::from_str::<toml::Value>` on the text; converts the document variant by variant
/// and the error to its message (`Display`). Trusted: the result is what `toml_parse` names.
#[verifier::external_body]
pub(crate) fn parse_toml_document(content: &str) -> (res: Result<TomlValue, String>)
    ensures
        match res {
            Ok(doc) => toml_parse(content@) == Ok::<Toml, Seq<char>>(doc@),
            Err(message) => toml_parse(content@) == Err::<Toml, Seq<char>>(message@),
        },
{
    match toml::from_str::<toml::Value>(content) {
        Ok(doc) => Ok(toml_value_from(&doc)),
        Err(err) => Err(err.to_string()),
    }
}

/// Converts a `toml::Value` into the library's value, one arm per variant, recursing into
/// arrays and tables; only `parse_toml_document` calls it, and its contract covers the result.
#[verifier::external_body]
fn toml_value_from(v: &toml::Value) -> TomlValue {
    match v {
        toml::Value::String(s) => TomlValue::Str(s.clone()),
        toml::Value::Integer(n) => TomlValue::Integer(*n),
        toml::Value::Boolean(b) => TomlValue::Boolean(*b),
        toml::Value::Float(_) => TomlValue::Float,
        toml::Value::Datetime(_) => TomlValue::Datetime,
        toml::Value::Array(items) => TomlValue::Array(items.iter().map(toml_value_from).collect()),
        toml::Value::Table(t) => {
            TomlValue::Table(t.iter().map(|(k, x)| (k.clone(), toml_value_from(x))).collect())
        },
    }
}

} // verus!
