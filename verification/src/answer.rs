//! The number that an answer gives: in a field of a JSON document, before the
//! word `minutes`, or as the last number of the text.

use vstd::prelude::*;

use crate::arith::Double;
use crate::extract::{
    extract_last_number, extract_number_before_minutes, last_number, minutes_number,
};
use crate::json::{
    get_field, json_of, json_of_option, number_bits, read_json, reading_of, text_of, Json,
};
use crate::literal::{float_literal, is_float_literal};
use crate::reading::law_blank_names_no_number;
use crate::text::{is_blank, to_chars};

verus! {

/// A number as it was found.
pub enum FoundNumber {
    /// A JSON number, as the bit pattern of a double.
    Json(u64),
    /// A text that reads as a double-precision number.
    Literal(String),
}

/// What a `FoundNumber` holds.
pub enum NumberView {
    Json(u64),
    Literal(Seq<char>),
}

impl View for FoundNumber {
    type V = NumberView;

    open spec fn view(&self) -> NumberView {
        match self {
            FoundNumber::Json(bits) => NumberView::Json(*bits),
            FoundNumber::Literal(text) => NumberView::Literal(text@),
        }
    }
}

/// The view of an optional number.
pub open spec fn number_view(number: Option<FoundNumber>) -> Option<NumberView> {
    match number {
        Some(n) => Some(n@),
        None => None,
    }
}

/// An optional text as a number.
pub open spec fn literal_view(text: Option<Seq<char>>) -> Option<NumberView> {
    match text {
        Some(t) => Some(NumberView::Literal(t)),
        None => None,
    }
}

/// The number that a JSON field gives: a number itself, or a text that reads
/// as one.
pub open spec fn field_number(field: Json) -> Option<NumberView> {
    match field {
        Json::Number(number) => Some(NumberView::Json(number.double())),
        Json::Text(text) => if is_float_literal(text) {
            Some(NumberView::Literal(text))
        } else {
            None
        },
        _ => None,
    }
}

/// The number that the field `key` of an object gives.
pub open spec fn keyed_number(fields: Map<Seq<char>, Json>, key: Seq<char>) -> Option<NumberView> {
    if fields.contains_key(key) {
        field_number(fields[key])
    } else {
        None
    }
}

/// The number that an object gives: that of `value`, else that of `answer`,
/// else that of `average_trip_duration_minutes`.
pub open spec fn object_number(fields: Map<Seq<char>, Json>) -> Option<NumberView> {
    if keyed_number(fields, "value"@) is Some {
        keyed_number(fields, "value"@)
    } else if keyed_number(fields, "answer"@) is Some {
        keyed_number(fields, "answer"@)
    } else {
        keyed_number(fields, "average_trip_duration_minutes"@)
    }
}

/// The number that a document gives; only an object gives one.
pub open spec fn document_number(reading: Option<Json>) -> Option<NumberView> {
    match reading {
        Some(Json::Object(fields)) => object_number(fields),
        _ => None,
    }
}

/// The number in `text`, of which `reading` is what it holds as JSON: that of
/// the document, else the one before `minutes`, else the last one.
pub open spec fn number_in(text: Seq<char>, reading: Option<Json>) -> Option<NumberView> {
    if document_number(reading) is Some {
        document_number(reading)
    } else if minutes_number(text) is Some {
        literal_view(minutes_number(text))
    } else {
        literal_view(last_number(text))
    }
}

/// The number that the field `key` of `value` gives.
fn keyed_value(value: &serde_json::Value, key: &str) -> (number: Option<FoundNumber>)
    ensures
        number_view(number) == (match json_of(*value) {
            Json::Object(fields) => keyed_number(fields, key@),
            _ => None,
        }),
{
    let field = match get_field(value, key) {
        Some(f) => f,
        None => {
            return None;
        },
    };
    match number_bits(field) {
        Some(bits) => {
            return Some(FoundNumber::Json(bits));
        },
        None => {},
    }
    match text_of(field) {
        Some(text) => {
            let chars = to_chars(text);
            if float_literal(&chars) {
                Some(FoundNumber::Literal(text.to_owned()))
            } else {
                None
            }
        },
        None => None,
    }
}

/// The number that an object's fields give.
pub fn object_value(value: &serde_json::Value) -> (number: Option<FoundNumber>)
    ensures
        number_view(number) == document_number(Some(json_of(*value))),
{
    let first = keyed_value(value, "value");
    if first.is_some() {
        return first;
    }
    let second = keyed_value(value, "answer");
    if second.is_some() {
        return second;
    }
    keyed_value(value, "average_trip_duration_minutes")
}

/// The number in `text`, of which `document` is what it holds as JSON.
pub fn value_of(text: &str, document: Option<serde_json::Value>) -> (number: Option<FoundNumber>)
    ensures
        number_view(number) == number_in(text@, json_of_option(document)),
{
    match document {
        Some(value) => {
            let number = object_value(&value);
            if number.is_some() {
                return number;
            }
        },
        None => {},
    }
    match extract_number_before_minutes(text) {
        Some(literal) => {
            return Some(FoundNumber::Literal(literal));
        },
        None => {},
    }
    match extract_last_number(text) {
        Some(literal) => Some(FoundNumber::Literal(literal)),
        None => None,
    }
}

/// The number in `text`. A blank text has none.
pub fn parse_value(text: &str) -> (number: Option<FoundNumber>)
    ensures
        number_view(number) == number_in(text@, reading_of(text@)),
        is_blank(text@) ==> number is None,
{
    let document = match read_json(text) {
        Ok(value) => Some(value),
        Err(_) => None,
    };
    proof {
        if is_blank(text@) {
            law_blank_names_no_number(text@);
        }
    }
    value_of(text, document)
}

/// The double nearest to 0.01, by its bit pattern.
pub const TOLERANCE: u64 = 4_576_918_229_304_087_675;

/// A value rounded to two places.
pub open spec fn cents_of(value: Double) -> Double {
    value.times(Double::of(100)).whole().over(Double::of(100))
}

/// Rounds a value to two places.
pub fn to_cents(value: &Double) -> (cents: Double)
    ensures
        cents == cents_of(*value),
{
    let hundred = Double::from_u128(100);
    value.multiply(&hundred).round().divide(&hundred)
}

/// A value is the expected one: rounded to two places, it is no more than
/// `TOLERANCE` away.
pub open spec fn meets(value: Double, expected: Double) -> bool {
    cents_of(value).minus(expected).unsigned().at_most(Double { bits: TOLERANCE })
}

/// Whether a value is the expected one.
pub fn is_expected(value: &Double, expected: &Double) -> (yes: bool)
    ensures
        yes == meets(*value, *expected),
{
    to_cents(value).subtract(expected).abs().is_at_most(&Double { bits: TOLERANCE })
}

} // verus!
