//! TOML values as plain data, and the reading of a document's text into them.

use crate::nesting::too_deep;
use vstd::prelude::*;

verus! {

/// A TOML value. A table keeps its entries in the order the parser hands
/// them out; where a key occurs more than once the last entry counts.
#[derive(Debug)]
pub enum TomlValue {
    String(String),
    Integer(i64),
    /// A real number, in the decimal text that `f64`'s `Display` gives it
    /// (`NaN`, `inf` and `-inf` for what is no number).
    Float(String),
    Boolean(bool),
    /// A date or time, in the text form TOML gives it.
    Datetime(String),
    Array(Vec<TomlValue>),
    Table(Vec<(String, TomlValue)>),
}

/// `toml::Value`, what the parser builds from a text. Nothing is said of
/// what is inside; `plain` moves it into a `TomlValue`.
#[verifier::external_type_specification]
#[verifier::external_body]
pub struct ExTomlValue(toml::Value);

/// What the TOML parser (`toml::from_str`) makes of `text`: the value it
/// reads, as plain data, or the words in which it refuses the text.
/// Nothing more is claimed of it than that it depends on the text alone.
pub uninterp spec fn toml_document(text: Seq<char>) -> Result<TomlValue, Seq<char>>;

/// Moves a parsed `toml::Value` into plain data, variant by variant: a
/// float and a datetime by their `Display` text, a table's entries in the
/// order in which the table iterates.
#[verifier::external_body]
fn plain(value: toml::Value) -> TomlValue {
    match value {
        toml::Value::String(s) => TomlValue::String(s),
        toml::Value::Integer(i) => TomlValue::Integer(i),
        toml::Value::Float(x) => TomlValue::Float(x.to_string()),
        toml::Value::Boolean(b) => TomlValue::Boolean(b),
        toml::Value::Datetime(d) => TomlValue::Datetime(d.to_string()),
        toml::Value::Array(a) => TomlValue::Array(a.into_iter().map(plain).collect()),
        toml::Value::Table(t) => {
            TomlValue::Table(t.into_iter().map(|(k, v)| (k, plain(v))).collect())
        },
    }
}

/// Calls `toml::from_str` for a `toml::Value`, and gives the value as
/// plain data or the parser's error as its `Display` text. The parser
/// reads nothing but `text`, so what comes back is a function of the text:
/// it is what `toml_document` names.
///
/// The parser goes one call deeper for each array and inline table inside
/// another and for each part of a dotted key or table header, without a
/// limit of its own; so a text must not be `too_deep`. The tokens that
/// `too_deep` sees are those of the parser's tokenizer: a string opens with
/// `"` or `'`, three of them open a multi-line string, a backslash takes
/// the next character with it in a basic string, three quotes and up to
/// two more close a multi-line string, a comment runs to the end of its
/// line, and a string of one line that meets the end of the line ends
/// the parse.
#[verifier::external_body]
pub(crate) fn read_document(text: &str) -> (r: Result<TomlValue, String>)
    requires
        !too_deep(text@),
    ensures
        match r {
            Ok(value) => toml_document(text@) == Ok::<TomlValue, Seq<char>>(value),
            Err(message) => toml_document(text@) == Err::<TomlValue, Seq<char>>(message@),
        },
{
    toml::from_str::<toml::Value>(text).map(plain).map_err(|e| e.to_string())
}

/// The last entry of `table` under `key`, if there is one.
pub open spec fn field(table: Seq<(String, TomlValue)>, key: Seq<char>) -> Option<TomlValue>
    decreases table.len(),
{
    if table.len() == 0 {
        None
    } else if table.last().0@ == key {
        Some(table.last().1)
    } else {
        field(table.drop_last(), key)
    }
}

/// Looks `key` up in `table`.
pub fn lookup<'a>(table: &'a Vec<(String, TomlValue)>, key: &str) -> (r: Option<&'a TomlValue>)
    ensures
        match r {
            Some(value) => field(table@, key@) == Some(*value),
            None => field(table@, key@) is None,
        },
{
    let mut i: usize = table.len();
    assert(table@.take(i as int) == table@);
    while i > 0
        invariant
            i <= table@.len(),
            field(table@, key@) == field(table@.take(i as int), key@),
        decreases i,
    {
        let ghost upto = table@.take(i as int);
        assert(upto.last() == table@[i - 1]);
        assert(upto.drop_last() == table@.take(i - 1));
        i -= 1;
        if table[i].0.as_str().eq(key) {
            return Some(&table[i].1);
        }
    }
    None
}

} // verus!
