//! Reading and writing JSON messages.
use crate::double::Double;
use serde_json::{Number, Value};
use vstd::prelude::*;

verus! {

/// One field of a JSON object: its name, and its value as text, as an unsigned
/// integer, as a number and as the numbers of a nested object, as far as it is
/// one.
#[derive(Debug, PartialEq)]
pub struct JsonField {
    pub name: String,
    pub text: Option<String>,
    pub unsigned: Option<u64>,
    pub number: Option<Double>,
    pub components: Option<Vec<(String, Option<Double>)>>,
}

/// A JSON value: its text or its fields, as far as it is a string or an object.
#[derive(Debug, PartialEq)]
pub struct JsonDocument {
    pub text: Option<String>,
    pub fields: Option<Vec<JsonField>>,
}

/// What a JSON field holds.
#[verifier::ext_equal]
pub struct FieldView {
    pub name: Seq<char>,
    pub text: Option<Seq<char>>,
    pub unsigned: Option<u64>,
    pub number: Option<Double>,
    pub components: Option<Seq<(Seq<char>, Option<Double>)>>,
}

/// What a JSON value holds.
#[verifier::ext_equal]
pub struct DocumentView {
    pub text: Option<Seq<char>>,
    pub fields: Option<Seq<FieldView>>,
}

pub open spec fn text_view(text: Option<String>) -> Option<Seq<char>> {
    match text {
        Some(text) => Some(text@),
        None => None,
    }
}

pub open spec fn components_view(components: Option<Vec<(String, Option<Double>)>>) -> Option<
    Seq<(Seq<char>, Option<Double>)>,
> {
    match components {
        Some(list) => Some(Seq::new(list@.len(), |i: int| (list@[i].0@, list@[i].1))),
        None => None,
    }
}

impl JsonField {
    pub open spec fn view(&self) -> FieldView {
        FieldView {
            name: self.name@,
            text: text_view(self.text),
            unsigned: self.unsigned,
            number: self.number,
            components: components_view(self.components),
        }
    }
}

impl JsonDocument {
    pub open spec fn view(&self) -> DocumentView {
        DocumentView {
            text: text_view(self.text),
            fields: match self.fields {
                Some(fields) => Some(Seq::new(fields@.len(), |i: int| fields@[i]@)),
                None => None,
            },
        }
    }
}

/// What `serde_json::from_slice` makes of a payload: the value it holds, or
/// what is wrong with it.
pub uninterp spec fn json_of(payload: Seq<u8>) -> Result<DocumentView, Seq<char>>;

/// Reads a payload with `serde_json::from_slice`. The result is a function of
/// the payload alone; each field is taken as `Value::as_str`, `as_u64`,
/// `as_f64` and `as_object` give it.
#[verifier::external_body]
pub(crate) fn read_json(payload: &[u8]) -> (result: Result<JsonDocument, String>)
    ensures
        match result {
            Ok(document) => json_of(payload@) == Ok::<DocumentView, Seq<char>>(document@),
            Err(reason) => json_of(payload@) == Err::<DocumentView, Seq<char>>(reason@),
        },
{
    let value: Value = serde_json::from_slice(payload).map_err(|e| e.to_string())?;
    let number = |value: &Value| Some(Double { bits: value.as_f64()?.to_bits() });
    let fields = value.as_object().map(|fields| fields.iter().map(|(name, value)| JsonField {
        name: name.clone(),
        text: value.as_str().map(String::from),
        unsigned: value.as_u64(),
        number: number(value),
        components: value.as_object().map(|components|
            components.iter().map(|(name, value)| (name.clone(), number(value))).collect())
    }).collect());
    Ok(JsonDocument { text: value.as_str().map(String::from), fields })
}

/// A plain JSON value to be written; a number is given by its decimal digits.
#[derive(Debug, PartialEq, Eq)]
pub enum JsonScalar {
    Null,
    Text(String),
    Whole(u64),
    Decimal(String),
}

/// A value of the object to be written.
#[derive(Debug, PartialEq, Eq)]
pub enum JsonItem {
    Scalar(JsonScalar),
    Object(Vec<(String, JsonScalar)>),
}

/// What a plain value is to show.
pub enum ScalarView {
    Null,
    Text(Seq<char>),
    Whole(u64),
    Decimal(Seq<char>),
}

/// What a value is to show.
pub enum ItemView {
    Scalar(ScalarView),
    Object(Seq<(Seq<char>, ScalarView)>),
}

impl JsonScalar {
    pub open spec fn view(&self) -> ScalarView {
        match self {
            JsonScalar::Null => ScalarView::Null,
            JsonScalar::Text(text) => ScalarView::Text(text@),
            JsonScalar::Whole(number) => ScalarView::Whole(*number),
            JsonScalar::Decimal(text) => ScalarView::Decimal(text@),
        }
    }
}

pub open spec fn scalars_view(list: Seq<(String, JsonScalar)>) -> Seq<(Seq<char>, ScalarView)> {
    Seq::new(list.len(), |i: int| (list[i].0@, list[i].1@))
}

impl JsonItem {
    pub open spec fn view(&self) -> ItemView {
        match self {
            JsonItem::Scalar(scalar) => ItemView::Scalar(scalar@),
            JsonItem::Object(list) => ItemView::Object(scalars_view(list@)),
        }
    }
}

pub open spec fn items_view(list: Seq<(String, JsonItem)>) -> Seq<(Seq<char>, ItemView)> {
    Seq::new(list.len(), |i: int| (list[i].0@, list[i].1@))
}

/// What `serde_json::to_vec` writes for an object with these fields, or what is
/// wrong with it.
pub uninterp spec fn json_bytes(fields: Seq<(Seq<char>, ItemView)>) -> Result<
    Seq<u8>,
    Seq<char>,
>;

/// Writes an object with `serde_json::to_vec`. The result is a function of the
/// fields alone; a decimal is read with `str::parse`, and is null where that gives
/// no number that `serde_json::Number` can hold.
#[verifier::external_body]
pub(crate) fn write_json(fields: &Vec<(String, JsonItem)>) -> (result: Result<Vec<u8>, String>)
    ensures
        match result {
            Ok(bytes) => json_bytes(items_view(fields@)) == Ok::<Seq<u8>, Seq<char>>(bytes@),
            Err(reason) => json_bytes(items_view(fields@)) == Err::<Seq<u8>, Seq<char>>(reason@),
        },
{
    let scalar = |value: &JsonScalar| match value {
        JsonScalar::Null => Value::Null,
        JsonScalar::Text(text) => Value::from(text.as_str()),
        JsonScalar::Whole(number) => Value::from(*number),
        JsonScalar::Decimal(text) => Value::from(text.parse().ok().and_then(Number::from_f64)),
    };
    let item = |value: &JsonItem| match value {
        JsonItem::Scalar(value) => scalar(value),
        JsonItem::Object(list) => list.iter().map(|(name, value)| (name, scalar(value))).collect(),
    };
    let object: Value = fields.iter().map(|(name, value)| (name, item(value))).collect();
    serde_json::to_vec(&object).map_err(|error| error.to_string())
}

} // verus!
