//! JSON documents, read and rendered by `serde_json`.

use vstd::prelude::*;

use crate::arith::{Double, SIGN};
use crate::double::{exponent_field, FRACTION_UNIT};
use crate::text::is_blank;

verus! {

/// `serde_json::Value`, a JSON value.
#[verifier::external_type_specification]
#[verifier::external_body]
pub struct ExValue(serde_json::Value);

/// `serde_json::Map`, the fields of a JSON object.
#[verifier::external_type_specification]
#[verifier::external_body]
#[verifier::reject_recursive_types(K)]
#[verifier::reject_recursive_types(V)]
pub struct ExMap<K, V>(serde_json::Map<K, V>);

/// `serde_json::Error`, why a text was not read or a value not rendered.
#[verifier::external_type_specification]
#[verifier::external_body]
pub struct ExError(serde_json::Error);

/// A JSON number: an integer that is not negative, one that is, or a double, by
/// its bit pattern.
pub enum JsonNumber {
    Count(u64),
    Negative(i64),
    Float(u64),
}

impl JsonNumber {
    /// The bit pattern of the nearest double.
    pub open spec fn double(self) -> u64 {
        match self {
            JsonNumber::Count(n) => Double::of(n as int).bits,
            JsonNumber::Negative(n) => Double::of(n as int).bits,
            JsonNumber::Float(bits) => bits,
        }
    }
}

/// What a JSON value holds.
pub enum Json {
    Null,
    Bool(bool),
    Number(JsonNumber),
    Text(Seq<char>),
    Array(Seq<Json>),
    Object(Map<Seq<char>, Json>),
}

/// What a `serde_json::Value` holds.
pub uninterp spec fn json_of(value: serde_json::Value) -> Json;

/// The fields that a `serde_json::Map` holds.
pub uninterp spec fn fields_of(
    fields: serde_json::Map<String, serde_json::Value>,
) -> Map<Seq<char>, Json>;

/// The pretty-printed text of an object with these fields. The order of the
/// fields is the map's own.
pub uninterp spec fn pretty_text(
    fields: serde_json::Map<String, serde_json::Value>,
) -> Seq<char>;

/// What `serde_json::from_str` reads in a text as a value.
pub uninterp spec fn json_reading(text: Seq<char>) -> Option<Json>;

/// What `serde_json::from_str` reads in a text as the fields of an object.
pub uninterp spec fn fields_reading(text: Seq<char>) -> Option<Map<Seq<char>, Json>>;

/// The fields of an empty object.
pub open spec fn empty_fields() -> Map<Seq<char>, Json> {
    Map::empty()
}

/// A character that a JSON text can begin with.
pub open spec fn may_begin_json(c: char) -> bool {
    ||| c == ' ' || c == '\n' || c == '\t' || c == '\r'
    ||| c == '{' || c == '[' || c == '"' || c == '-' || ('0' <= c && c <= '9')
    ||| c == 'n' || c == 't' || c == 'f'
}

/// A text that is no JSON on the face of it: blank, or with a beginning that no
/// JSON text has.
pub open spec fn holds_no_json(text: Seq<char>) -> bool {
    is_blank(text) || (text.len() > 0 && !may_begin_json(text[0]))
}

/// What a text holds as JSON.
pub open spec fn reading_of(text: Seq<char>) -> Option<Json> {
    if holds_no_json(text) {
        None
    } else {
        json_reading(text)
    }
}

/// What an optional value holds.
pub open spec fn json_of_option(value: Option<serde_json::Value>) -> Option<Json> {
    match value {
        Some(v) => Some(json_of(v)),
        None => None,
    }
}

/// Calls `serde_json::from_str` for a `Value`. A text that is blank, or that
/// begins with no character of JSON, is refused; what is read in any other
/// depends on the text alone.
#[verifier::external_body]
pub(crate) fn read_json(text: &str) -> (res: Result<serde_json::Value, serde_json::Error>)
    ensures
        match res {
            Ok(value) => !holds_no_json(text@) && json_reading(text@) == Some(json_of(value)),
            Err(_) => holds_no_json(text@) || json_reading(text@) is None,
        },
{
    serde_json::from_str::<serde_json::Value>(text)
}

/// Calls `serde_json::from_str` for a `Map`. What it reads depends on the
/// text alone; it is nested no deeper than the reader goes, and its numbers are
/// finite doubles.
#[verifier::external_body]
pub(crate) fn read_fields(text: &str) -> (res: Result<
    serde_json::Map<String, serde_json::Value>,
    serde_json::Error,
>)
    ensures
        match res {
            Ok(fields) => fields_reading(text@) == Some(fields_of(fields)) && are_readable(
                fields_of(fields),
                2047,
            ),
            Err(_) => fields_reading(text@) is None,
        },
{
    serde_json::from_str::<serde_json::Map<String, serde_json::Value>>(text)
}

/// Calls `serde_json::Value::get` with a key: the field of that name, where
/// the value is an object that has one.
#[verifier::external_body]
pub(crate) fn get_field<'a>(value: &'a serde_json::Value, key: &str) -> (field: Option<
    &'a serde_json::Value,
>)
    ensures
        match (json_of(*value), field) {
            (Json::Object(fields), Some(f)) => fields.contains_key(key@) && fields[key@]
                == json_of(*f),
            (Json::Object(fields), None) => !fields.contains_key(key@),
            (_, f) => f is None,
        },
{
    value.get(key)
}

/// Calls `serde_json::Value::as_f64`, and hands on the bits of the double: that
/// nearest to an integer, a double as it is, and `None` where the value is no
/// number.
#[verifier::external_body]
pub(crate) fn number_bits(value: &serde_json::Value) -> (bits: Option<u64>)
    ensures
        bits == (match json_of(*value) {
            Json::Number(number) => Some(number.double()),
            _ => None,
        }),
{
    value.as_f64().map(|number| number.to_bits())
}

/// Calls `serde_json::Value::as_str`: the text, where the value is a string.
#[verifier::external_body]
pub(crate) fn text_of<'a>(value: &'a serde_json::Value) -> (text: Option<&'a str>)
    ensures
        match text {
            Some(t) => json_of(*value) == Json::Text(t@),
            None => !(json_of(*value) is Text),
        },
{
    value.as_str()
}

/// Calls `serde_json::Map::new`: no fields.
#[verifier::external_body]
pub(crate) fn no_fields() -> (fields: serde_json::Map<String, serde_json::Value>)
    ensures
        fields_of(fields) == empty_fields(),
{
    serde_json::Map::new()
}

/// Calls `serde_json::Map::insert`: the field of that name becomes `value`,
/// and the others stay.
#[verifier::external_body]
pub(crate) fn insert_field(
    fields: &mut serde_json::Map<String, serde_json::Value>,
    name: String,
    value: serde_json::Value,
)
    ensures
        fields_of(*final(fields)) == fields_of(*old(fields)).insert(name@, json_of(value)),
{
    fields.insert(name, value);
}

/// A value with objects and arrays no more than `depth` deep, all of whose
/// doubles have an exponent field below `limit`.
pub open spec fn is_readable(value: Json, depth: nat, limit: nat) -> bool
    decreases depth,
{
    match value {
        Json::Number(JsonNumber::Float(bits)) => exponent_field(bits) < limit,
        Json::Array(items) => depth > 0 && forall|i: int|
            0 <= i < items.len() ==> is_readable(#[trigger] items[i], (depth - 1) as nat, limit),
        Json::Object(fields) => depth > 0 && forall|name: Seq<char>| #[trigger]
            fields.contains_key(name) ==> is_readable(fields[name], (depth - 1) as nat, limit),
        _ => true,
    }
}

/// Fields with objects and arrays no more than 126 deep, all of whose doubles
/// have an exponent field below `limit`.
pub open spec fn are_readable(fields: Map<Seq<char>, Json>, limit: nat) -> bool {
    forall|name: Seq<char>| #[trigger]
        fields.contains_key(name) ==> is_readable(fields[name], 126, limit)
}

/// The same number; a double may be up to `steps` doubles away.
pub open spec fn near(a: JsonNumber, b: JsonNumber, steps: nat) -> bool {
    match (a, b) {
        (JsonNumber::Count(x), JsonNumber::Count(y)) => x == y,
        (JsonNumber::Negative(x), JsonNumber::Negative(y)) => x == y,
        (JsonNumber::Float(x), JsonNumber::Float(y)) => {
            &&& x >= SIGN <==> y >= SIGN
            &&& x <= y + steps
            &&& y <= x + steps
        },
        _ => false,
    }
}

/// The same value; the doubles in it may be up to `steps` doubles away.
pub open spec fn alike(a: Json, b: Json, steps: nat) -> bool
    decreases a,
{
    match (a, b) {
        (Json::Null, Json::Null) => true,
        (Json::Bool(x), Json::Bool(y)) => x == y,
        (Json::Number(x), Json::Number(y)) => near(x, y, steps),
        (Json::Text(x), Json::Text(y)) => x == y,
        (Json::Array(x), Json::Array(y)) => x.len() == y.len() && forall|i: int|
            0 <= i < x.len() ==> alike(#[trigger] x[i], y[i], steps),
        (Json::Object(x), Json::Object(y)) => x.dom() == y.dom() && forall|name: Seq<char>|
            #[trigger] x.contains_key(name) ==> alike(x[name], y[name], steps),
        _ => false,
    }
}

/// The same fields; the doubles in them may be up to `steps` doubles away.
pub open spec fn alike_fields(
    a: Map<Seq<char>, Json>,
    b: Map<Seq<char>, Json>,
    steps: nat,
) -> bool {
    a.dom() == b.dom() && forall|name: Seq<char>| #[trigger]
        a.contains_key(name) ==> alike(a[name], b[name], steps)
}

/// What is read in a text: where anything is, it has the names of `fields`; and
/// where `fields` can be read, it is those fields, with doubles no more than
/// eight doubles away.
pub open spec fn reads_back(text: Seq<char>, fields: Map<Seq<char>, Json>) -> bool {
    &&& fields_reading(text) matches Some(back) ==> back.dom() == fields.dom()
    &&& are_readable(fields, 2046) ==> (fields_reading(text) matches Some(back) && alike_fields(
        back,
        fields,
        8,
    ))
}

/// Calls `serde_json::to_string_pretty` on the object with these fields. It
/// does not fail: the names are strings, and each kind of value has a form.
/// The text depends on the fields alone. It is read again where the fields are
/// nested no deeper than the reader goes and no double is at the end of its
/// range. Names, texts, integers, booleans and nulls are then the same. A double
/// is written as the shortest decimal that is nearest to it; the reader makes it
/// of an integer and powers of ten, in five steps at most that each may be off by
/// one double, so it comes back no more than eight doubles away.
#[verifier::external_body]
pub(crate) fn render_pretty(fields: serde_json::Map<String, serde_json::Value>) -> (res: Result<
    String,
    serde_json::Error,
>)
    ensures
        match res {
            Ok(text) => text@ == pretty_text(fields) && reads_back(text@, fields_of(fields)),
            Err(_) => false,
        },
{
    serde_json::to_string_pretty(&serde_json::Value::Object(fields))
}

/// What can be read within a limit can be read within a greater one.
pub proof fn lemma_readable_further(value: Json, depth: nat, limit: nat, greater: nat)
    requires
        is_readable(value, depth, limit),
        limit <= greater,
    ensures
        is_readable(value, depth, greater),
    decreases depth,
{
    match value {
        Json::Array(items) => {
            assert forall|i: int| 0 <= i < items.len() implies is_readable(
                #[trigger] items[i],
                (depth - 1) as nat,
                greater,
            ) by {
                lemma_readable_further(items[i], (depth - 1) as nat, limit, greater);
            }
        },
        Json::Object(fields) => {
            assert forall|name: Seq<char>| #[trigger] fields.contains_key(name) implies is_readable(
                fields[name],
                (depth - 1) as nat,
                greater,
            ) by {
                lemma_readable_further(fields[name], (depth - 1) as nat, limit, greater);
            }
        },
        _ => {},
    }
}

/// A value that is like one that can be read can be read itself.
pub proof fn lemma_alike_readable(a: Json, b: Json, depth: nat, limit: nat)
    requires
        alike(a, b, 8),
        is_readable(b, depth, limit),
        limit <= 2046,
    ensures
        is_readable(a, depth, limit + 1),
    decreases depth,
{
    match (a, b) {
        (Json::Number(JsonNumber::Float(x)), Json::Number(JsonNumber::Float(y))) => {
            let (p, q) = (x / FRACTION_UNIT, y / FRACTION_UNIT);
            assert(p <= q + 1);
            assert(p >= 2048 <==> q >= 2048);
            assert(p < 4096 && q < 4096);
        },
        (Json::Array(x), Json::Array(y)) => {
            assert forall|i: int| 0 <= i < x.len() implies is_readable(
                #[trigger] x[i],
                (depth - 1) as nat,
                limit + 1,
            ) by {
                assert(is_readable(y[i], (depth - 1) as nat, limit));
                lemma_alike_readable(x[i], y[i], (depth - 1) as nat, limit);
            }
        },
        (Json::Object(x), Json::Object(y)) => {
            assert forall|name: Seq<char>| #[trigger] x.contains_key(name) implies is_readable(
                x[name],
                (depth - 1) as nat,
                limit + 1,
            ) by {
                assert(y.contains_key(name));
                lemma_alike_readable(x[name], y[name], (depth - 1) as nat, limit);
            }
        },
        _ => {},
    }
}

/// A value is like itself.
pub proof fn lemma_alike_reflexive(a: Json, steps: nat)
    ensures
        alike(a, a, steps),
    decreases a,
{
    match a {
        Json::Array(x) => {
            assert forall|i: int| 0 <= i < x.len() implies alike(#[trigger] x[i], x[i], steps) by {
                lemma_alike_reflexive(x[i], steps);
            }
        },
        Json::Object(x) => {
            assert forall|name: Seq<char>| #[trigger] x.contains_key(name) implies alike(
                x[name],
                x[name],
                steps,
            ) by {
                lemma_alike_reflexive(x[name], steps);
            }
        },
        _ => {},
    }
}

/// What a value is like is like it.
pub proof fn lemma_alike_symmetric(a: Json, b: Json, steps: nat)
    requires
        alike(a, b, steps),
    ensures
        alike(b, a, steps),
    decreases a,
{
    match (a, b) {
        (Json::Array(x), Json::Array(y)) => {
            assert forall|i: int| 0 <= i < y.len() implies alike(#[trigger] y[i], x[i], steps) by {
                assert(alike(x[i], y[i], steps));
                lemma_alike_symmetric(x[i], y[i], steps);
            }
        },
        (Json::Object(x), Json::Object(y)) => {
            assert forall|name: Seq<char>| #[trigger] y.contains_key(name) implies alike(
                y[name],
                x[name],
                steps,
            ) by {
                assert(x.contains_key(name));
                lemma_alike_symmetric(x[name], y[name], steps);
            }
        },
        _ => {},
    }
}

/// Two values that are like a third are alike; the distances add up.
pub proof fn lemma_alike_transitive(a: Json, b: Json, c: Json, first: nat, second: nat)
    requires
        alike(a, b, first),
        alike(b, c, second),
    ensures
        alike(a, c, first + second),
    decreases a,
{
    match (a, b, c) {
        (Json::Array(x), Json::Array(y), Json::Array(z)) => {
            assert forall|i: int| 0 <= i < x.len() implies alike(
                #[trigger] x[i],
                z[i],
                first + second,
            ) by {
                assert(alike(y[i], z[i], second));
                lemma_alike_transitive(x[i], y[i], z[i], first, second);
            }
        },
        (Json::Object(x), Json::Object(y), Json::Object(z)) => {
            assert forall|name: Seq<char>| #[trigger] x.contains_key(name) implies alike(
                x[name],
                z[name],
                first + second,
            ) by {
                assert(y.contains_key(name));
                lemma_alike_transitive(x[name], y[name], z[name], first, second);
            }
        },
        _ => {},
    }
}

} // verus!
