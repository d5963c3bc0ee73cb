//! JSON values as the protocol handlers read them.
//!
//! JSON and TOML text are parsed by `serde_json` and `toml`
//! ([`parse_json_document`], [`parse_toml_document`]); encoding JSON text
//! belongs to the caller.
use vstd::prelude::*;
use serde_json::Value as SerdeValue;
use toml::Value as TomlValue;

verus! {

/// A JSON number, by the integer forms it has.
#[derive(Debug)]
pub struct JsonNumber {
    /// The number as a `u64`, when it is a non-negative integer that fits.
    pub as_u64: Option<u64>,
    /// The number as an `i64`, when it is an integer that fits.
    pub as_i64: Option<i64>,
}

/// A JSON value. An object lists its members in order, no key twice.
#[derive(Debug)]
pub enum JsonValue {
    Null,
    Bool(bool),
    Number(JsonNumber),
    String(String),
    Array(Vec<JsonValue>),
    Object(Vec<(String, JsonValue)>),
}

/// The first member named `key`.
pub open spec fn lookup(fields: Seq<(String, JsonValue)>, key: Seq<char>) -> Option<JsonValue>
    decreases fields.len(),
{
    if fields.len() == 0 {
        None
    } else if fields[0].0@ == key {
        Some(fields[0].1)
    } else {
        lookup(fields.drop_first(), key)
    }
}

/// Looking a key up finds the value of the first member with that name, and
/// nothing exactly when no member has that name.
pub proof fn lemma_lookup_first(fields: Seq<(String, JsonValue)>, key: Seq<char>)
    ensures
        lookup(fields, key) is None <==> forall|i: int| 0 <= i < fields.len() ==> (#[trigger] fields[i]).0@ != key,
        lookup(fields, key) is Some ==> exists|i: int| {
            &&& 0 <= i < fields.len()
            &&& (#[trigger] fields[i]).0@ == key
            &&& lookup(fields, key) == Some(fields[i].1)
            &&& forall|j: int| 0 <= j < i ==> (#[trigger] fields[j]).0@ != key
        },
    decreases fields.len(),
{
    if fields.len() > 0 {
        let rest = fields.drop_first();
        lemma_lookup_first(rest, key);
        if fields[0].0@ == key {
            assert(fields[0].0@ == key && lookup(fields, key) == Some(fields[0].1));
        } else {
            if lookup(rest, key) is None {
                assert forall|i: int| 0 <= i < fields.len() implies (#[trigger] fields[i]).0@ != key by {
                    if i > 0 {
                        assert(fields[i] == rest[i - 1]);
                    }
                }
            } else {
                let i = choose|i: int| {
                    &&& 0 <= i < rest.len()
                    &&& (#[trigger] rest[i]).0@ == key
                    &&& lookup(rest, key) == Some(rest[i].1)
                    &&& forall|j: int| 0 <= j < i ==> (#[trigger] rest[j]).0@ != key
                };
                assert(fields[i + 1] == rest[i]);
                assert forall|j: int| 0 <= j < i + 1 implies (#[trigger] fields[j]).0@ != key by {
                    if j > 0 {
                        assert(fields[j] == rest[j - 1]);
                    }
                }
            }
        }
    }
}

/// The member `key` of an object (nothing for other values).
pub open spec fn member(v: JsonValue, key: Seq<char>) -> Option<JsonValue> {
    match v {
        JsonValue::Object(fs) => lookup(fs@, key),
        _ => None,
    }
}

/// Element `i` of an array (nothing for other values or past the end).
pub open spec fn element(v: JsonValue, i: int) -> Option<JsonValue> {
    match v {
        JsonValue::Array(xs) => if 0 <= i < xs@.len() { Some(xs@[i]) } else { None },
        _ => None,
    }
}

/// The string of a string value.
pub open spec fn string_of_value(v: JsonValue) -> Option<Seq<char>> {
    match v {
        JsonValue::String(s) => Some(s@),
        _ => None,
    }
}

/// The `u64` of a number value.
pub open spec fn u64_of_value(v: JsonValue) -> Option<u64> {
    match v {
        JsonValue::Number(n) => n.as_u64,
        _ => None,
    }
}

/// The name of a value's type in messages.
pub open spec fn kind_name_of(v: JsonValue) -> Seq<char> {
    match v {
        JsonValue::String(_) => "string"@,
        JsonValue::Array(_) => "array"@,
        JsonValue::Object(_) => "object"@,
        JsonValue::Bool(_) => "boolean"@,
        JsonValue::Number(_) => "number"@,
        JsonValue::Null => "unknown"@,
    }
}

/// Position of the first member named `key`, if any.
fn position_of(fields: &Vec<(String, JsonValue)>, key: &str) -> (r: Option<usize>)
    ensures
        match r {
            Some(i) => i < fields@.len() && lookup(fields@, key@) == Some(fields@[i as int].1),
            None => lookup(fields@, key@) is None,
        },
{
    let mut i: usize = 0;
    proof {
        assert(fields@.skip(0) =~= fields@);
    }
    while i < fields.len()
        invariant
            i <= fields@.len(),
            lookup(fields@, key@) == lookup(fields@.skip(i as int), key@),
        decreases fields@.len() - i,
    {
        proof {
            assert(fields@.skip(i as int)[0] == fields@[i as int]);
            assert(fields@.skip(i as int).drop_first() =~= fields@.skip(i + 1));
        }
        if crate::text::str_eq(fields[i].0.as_str(), key) {
            return Some(i);
        }
        i += 1;
    }
    proof {
        assert(fields@.skip(i as int) =~= Seq::<(String, JsonValue)>::empty());
    }
    None
}

impl JsonValue {
    /// The member `key` of an object (`None` for other values).
    pub fn get(&self, key: &str) -> (r: Option<&JsonValue>)
        ensures
            match r {
                Some(v) => member(*self, key@) == Some(*v),
                None => member(*self, key@) is None,
            },
    {
        match self {
            JsonValue::Object(fields) => match position_of(fields, key) {
                Some(i) => Some(&fields[i].1),
                None => None,
            },
            _ => None,
        }
    }

    /// Element `i` of an array (`None` for other values or past the end).
    pub fn at(&self, i: usize) -> (r: Option<&JsonValue>)
        ensures
            match r {
                Some(x) => element(*self, i as int) == Some(*x),
                None => element(*self, i as int) is None,
            },
    {
        match self {
            JsonValue::Array(xs) => if i < xs.len() { Some(&xs[i]) } else { None },
            _ => None,
        }
    }

    /// The string of a string value.
    pub fn as_str(&self) -> (r: Option<&str>)
        ensures
            match r {
                Some(s) => string_of_value(*self) == Some(s@),
                None => string_of_value(*self) is None,
            },
    {
        match self {
            JsonValue::String(s) => Some(s.as_str()),
            _ => None,
        }
    }

    /// The `u64` of a number value that has one.
    pub fn as_u64(&self) -> (r: Option<u64>)
        ensures
            r == u64_of_value(*self),
    {
        match self {
            JsonValue::Number(n) => n.as_u64,
            _ => None,
        }
    }

    /// Whether the value is an object.
    pub fn is_object(&self) -> (r: bool)
        ensures
            r == (*self is Object),
    {
        match self {
            JsonValue::Object(_) => true,
            _ => false,
        }
    }

    /// Whether the value is an array.
    pub fn is_array(&self) -> (r: bool)
        ensures
            r == (*self is Array),
    {
        match self {
            JsonValue::Array(_) => true,
            _ => false,
        }
    }

    /// Whether the value is a string.
    pub fn is_string(&self) -> (r: bool)
        ensures
            r == (*self is String),
    {
        match self {
            JsonValue::String(_) => true,
            _ => false,
        }
    }

    /// Whether the value is a number.
    pub fn is_number(&self) -> (r: bool)
        ensures
            r == (*self is Number),
    {
        match self {
            JsonValue::Number(_) => true,
            _ => false,
        }
    }

    /// Whether the value is a boolean.
    pub fn is_boolean(&self) -> (r: bool)
        ensures
            r == (*self is Bool),
    {
        match self {
            JsonValue::Bool(_) => true,
            _ => false,
        }
    }
}

/// The name of a value's type in messages: string, array, object, boolean,
/// number, or unknown (null).
pub fn value_type_name(v: &JsonValue) -> (r: &'static str)
    ensures
        r@ == kind_name_of(*v),
{
    match v {
        JsonValue::String(_) => "string",
        JsonValue::Array(_) => "array",
        JsonValue::Object(_) => "object",
        JsonValue::Bool(_) => "boolean",
        JsonValue::Number(_) => "number",
        JsonValue::Null => "unknown",
    }
}

// ---------------------------------------------------------------------------
// Parsing JSON and TOML text
// ---------------------------------------------------------------------------

#[verifier::external_type_specification]
#[verifier::external_body]
pub struct ExSerdeJsonValue(serde_json::Value);

#[verifier::external_type_specification]
#[verifier::external_body]
pub struct ExTomlValue(toml::Value);

/// What `serde_json::from_str::<serde_json::Value>` makes of `text`, as a
/// JSON value, or its error message.
pub uninterp spec fn json_document_of(text: Seq<char>) -> Result<JsonValue, Seq<char>>;

/// What `toml::Value`'s `FromStr` (`toml::from_str`) makes of `text`, as a
/// JSON value, or its error message.
pub uninterp spec fn toml_document_of(text: Seq<char>) -> Result<JsonValue, Seq<char>>;

/// A `serde_json` value as a JSON value, one arm per variant (numbers by
/// `as_u64` and `as_i64`), arrays and objects member by member in order.
#[verifier::external_body]
fn json_of_serde(v: &serde_json::Value) -> JsonValue {
    match v {
        SerdeValue::Null => JsonValue::Null,
        SerdeValue::Bool(b) => JsonValue::Bool(*b),
        SerdeValue::Number(n) => JsonValue::Number(JsonNumber { as_u64: n.as_u64(), as_i64: n.as_i64() }),
        SerdeValue::String(s) => JsonValue::String(s.clone()),
        SerdeValue::Array(a) => JsonValue::Array(a.iter().map(json_of_serde).collect()),
        SerdeValue::Object(o) => JsonValue::Object(o.iter().map(|(k, x)| (k.clone(), json_of_serde(x))).collect()),
    }
}

/// A `toml` value as a JSON value, one arm per variant: an integer by its
/// `u64` and `i64` forms, a float as a number with no integer form, a
/// datetime by its text, arrays and tables member by member in order.
#[verifier::external_body]
fn json_of_toml(v: &toml::Value) -> JsonValue {
    match v {
        TomlValue::String(s) => JsonValue::String(s.clone()),
        TomlValue::Integer(i) => JsonValue::Number(JsonNumber { as_u64: u64::try_from(*i).ok(), as_i64: Some(*i) }),
        TomlValue::Float(_) => JsonValue::Number(JsonNumber { as_u64: None, as_i64: None }),
        TomlValue::Boolean(b) => JsonValue::Bool(*b),
        TomlValue::Datetime(d) => JsonValue::String(d.to_string()),
        TomlValue::Array(a) => JsonValue::Array(a.iter().map(json_of_toml).collect()),
        TomlValue::Table(t) => JsonValue::Object(t.iter().map(|(k, x)| (k.clone(), json_of_toml(x))).collect()),
    }
}

/// `serde_json::from_str::<serde_json::Value>`: the parsed document as a
/// JSON value (converted by `json_of_serde`), or the error's message. Claimed:
/// the result is `json_document_of` of the text.
#[verifier::external_body]
pub(crate) fn parse_json_document(text: &str) -> (r: Result<JsonValue, String>)
    ensures
        match r {
            Ok(v) => json_document_of(text@) == Ok::<JsonValue, Seq<char>>(v),
            Err(e) => json_document_of(text@) == Err::<JsonValue, Seq<char>>(e@),
        },
{
    match serde_json::from_str::<serde_json::Value>(text) {
        Ok(v) => Ok(json_of_serde(&v)),
        Err(e) => Err(e.to_string()),
    }
}

/// `str::parse::<toml::Value>`: the parsed document as a JSON value
/// (converted by `json_of_toml`), or the error's message. Claimed: the result
/// is `toml_document_of` of the text.
#[verifier::external_body]
pub(crate) fn parse_toml_document(text: &str) -> (r: Result<JsonValue, String>)
    ensures
        match r {
            Ok(v) => toml_document_of(text@) == Ok::<JsonValue, Seq<char>>(v),
            Err(e) => toml_document_of(text@) == Err::<JsonValue, Seq<char>>(e@),
        },
{
    match text.parse::<toml::Value>() {
        Ok(v) => Ok(json_of_toml(&v)),
        Err(e) => Err(e.to_string()),
    }
}

} // verus!
