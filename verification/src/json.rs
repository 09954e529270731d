//! JSON values, as `serde_json` holds, reads and writes them.
//!
//! A [`serde_json::Value`] is opaque to proofs. What it holds is a [`JsonModel`], named by
//! [`value_model`]; the functions of `serde_json` that the parsers call are wrapped here, each
//! with a contract over that model.
use serde_json::Value;
use vstd::prelude::*;

verus! {

/// A JSON number: an integer, or a floating-point number by the decimal text in which
/// `serde_json` writes it.
pub enum NumberModel {
    Integer(int),
    Float(Seq<char>),
}

/// What a JSON value holds.
pub enum JsonModel {
    Null,
    Bool(bool),
    Number(NumberModel),
    Text(Seq<char>),
    Array(Seq<JsonModel>),
    Object(Map<Seq<char>, JsonModel>),
}

/// The members of an object, by key.
pub type Members = Map<Seq<char>, JsonModel>;

/// The object without members.
pub open spec fn no_members() -> Members {
    Map::empty()
}

/// The object with the one member `key`.
pub open spec fn one_member(key: Seq<char>, value: JsonModel) -> Members {
    no_members().insert(key, value)
}

/// The object that results from inserting `pairs` one after the other: of two pairs with one
/// key, the later stays.
pub open spec fn members_of(pairs: Seq<(Seq<char>, JsonModel)>) -> Members
    decreases pairs.len(),
{
    if pairs.len() == 0 {
        no_members()
    } else {
        members_of(pairs.drop_last()).insert(pairs.last().0, pairs.last().1)
    }
}

/// The member `key` of `value`, if `value` is an object that has it.
pub open spec fn member(value: JsonModel, key: Seq<char>) -> Option<JsonModel> {
    match value {
        JsonModel::Object(m) => if m.contains_key(key) {
            Some(m[key])
        } else {
            None
        },
        _ => None,
    }
}

/// A JSON scalar, to be turned into a [`serde_json::Value`].
pub enum Scalar {
    Null,
    Bool(bool),
    Integer(i64),
    Text(String),
}

impl Scalar {
    /// What the value holds.
    pub open spec fn model(self) -> JsonModel {
        match self {
            Scalar::Null => JsonModel::Null,
            Scalar::Bool(b) => JsonModel::Bool(b),
            Scalar::Integer(n) => JsonModel::Number(NumberModel::Integer(n as int)),
            Scalar::Text(s) => JsonModel::Text(s@),
        }
    }
}

/// The kinds of JSON value.
#[derive(Clone, Copy, PartialEq, Eq, Structural)]
pub enum Kind {
    Null,
    Bool,
    Number,
    Text,
    Array,
    Object,
}

/// The kind of a value.
pub open spec fn kind_of(value: JsonModel) -> Kind {
    match value {
        JsonModel::Null => Kind::Null,
        JsonModel::Bool(_) => Kind::Bool,
        JsonModel::Number(_) => Kind::Number,
        JsonModel::Text(_) => Kind::Text,
        JsonModel::Array(_) => Kind::Array,
        JsonModel::Object(_) => Kind::Object,
    }
}

/// The value of `serde_json`.
#[verifier::external_type_specification]
#[verifier::external_body]
pub struct ExValue(serde_json::Value);

/// The object of `serde_json`, a map that is kept in the order of its keys.
#[verifier::external_type_specification]
#[verifier::external_body]
#[verifier::reject_recursive_types(K)]
#[verifier::reject_recursive_types(V)]
pub struct ExMap<K, V>(serde_json::Map<K, V>);

/// What a [`serde_json::Value`] holds.
pub uninterp spec fn value_model(value: serde_json::Value) -> JsonModel;

/// What a [`serde_json::Map`] holds.
pub uninterp spec fn object_model(
    object: serde_json::Map<String, serde_json::Value>,
) -> Map<Seq<char>, JsonModel>;

/// What `serde_json::from_str::<Value>` makes of `text`: the value, or the text of the error.
pub uninterp spec fn parsed_json(text: Seq<char>) -> Result<JsonModel, Seq<char>>;

/// The text that `serde_json::to_string` writes for a value.
pub uninterp spec fn json_text(value: JsonModel) -> Seq<char>;

/// The number that `text` is read as by `str::parse` for a floating-point number and that
/// `serde_json::Number::from_f64` then admits.
pub uninterp spec fn float_number(text: Seq<char>) -> Option<NumberModel>;

/// Whether two values are equal by the `PartialEq` of [`serde_json::Value`].
pub uninterp spec fn values_equal(a: JsonModel, b: JsonModel) -> bool;

/// `serde_json::from_str::<Value>`: reads a value from the whole of `text`, or gives the text
/// of the error. What it makes of a text is a function of the text.
#[verifier::external_body]
pub(crate) fn read_json(text: &str) -> (r: Result<Value, String>)
    ensures
        match r {
            Ok(value) => parsed_json(text@) == Ok::<_, Seq<char>>(value_model(value)),
            Err(message) => parsed_json(text@) == Err::<JsonModel, _>(message@),
        },
{
    serde_json::from_str(text).map_err(|e| e.to_string())
}

/// `serde_json::to_string` of a value: writes it without line breaks, an object's members in
/// the order of their keys. The writing of a `Value` into a string does not fail.
#[verifier::external_body]
pub(crate) fn write_json(value: &Value) -> (r: Result<String, String>)
    ensures
        r is Ok,
        r->Ok_0@ == json_text(value_model(*value)),
{
    serde_json::to_string(value).map_err(|e| e.to_string())
}

/// The variants `Null`, `Bool`, `Number` (from an `i64`) and `String` of
/// [`serde_json::Value`], with what they are given.
#[verifier::external_body]
pub(crate) fn scalar(value: Scalar) -> (r: Value)
    ensures
        value_model(r) == value.model(),
{
    match value {
        Scalar::Null => Value::Null,
        Scalar::Bool(b) => Value::Bool(b),
        Scalar::Integer(n) => Value::Number(n.into()),
        Scalar::Text(s) => Value::String(s),
    }
}

/// `serde_json::Number::from_f64` of the number that `str::parse` reads, as a value. What
/// comes out is a function of the text.
#[verifier::external_body]
pub(crate) fn read_float(text: &str) -> (r: Option<Value>)
    ensures
        match r {
            Some(value) => {
                &&& float_number(text@) matches Some(n)
                &&& value_model(value) == JsonModel::Number(n)
            },
            None => float_number(text@) is None,
        },
{
    text.parse().ok().and_then(serde_json::Number::from_f64).map(Value::Number)
}

/// Tells the variants of [`serde_json::Value`] apart.
#[verifier::external_body]
pub(crate) fn kind(value: &Value) -> (r: Kind)
    ensures
        r == kind_of(value_model(*value)),
{
    match value {
        Value::Null => Kind::Null,
        Value::Bool(_) => Kind::Bool,
        Value::Number(_) => Kind::Number,
        Value::String(_) => Kind::Text,
        Value::Array(_) => Kind::Array,
        Value::Object(_) => Kind::Object,
    }
}

/// `serde_json::Value::is_f64`: whether the value is a number that is held as a floating-point
/// number.
#[verifier::external_body]
pub(crate) fn is_float(value: &Value) -> (r: bool)
    ensures
        r == (value_model(*value) matches JsonModel::Number(n) && n is Float),
{
    value.is_f64()
}

/// `serde_json::Value::get` with a string: the member of that key, of an object.
#[verifier::external_body]
pub(crate) fn get<'a>(value: &'a Value, key: &str) -> (r: Option<&'a Value>)
    ensures
        match r {
            Some(found) => member(value_model(*value), key@) == Some(value_model(*found)),
            None => member(value_model(*value), key@) is None,
        },
{
    value.get(key)
}

/// `serde_json::Value::as_str`: the text of a string.
#[verifier::external_body]
pub(crate) fn as_str<'a>(value: &'a Value) -> (r: Option<&'a str>)
    ensures
        match r {
            Some(text) => value_model(*value) == JsonModel::Text(text@),
            None => !(value_model(*value) is Text),
        },
{
    value.as_str()
}

/// The `Clone` of [`serde_json::Value`]: a value that holds the same.
#[verifier::external_body]
pub(crate) fn copy_value(value: &Value) -> (r: Value)
    ensures
        value_model(r) == value_model(*value),
{
    value.clone()
}

/// The `PartialEq` of [`serde_json::Value`], a function of what the two values hold. Values
/// that hold the same are equal.
#[verifier::external_body]
pub(crate) fn equal(a: &Value, b: &Value) -> (r: bool)
    ensures
        r == values_equal(value_model(*a), value_model(*b)),
        value_model(*a) == value_model(*b) ==> r,
{
    a == b
}

/// `serde_json::Map::new`: an object without members.
#[verifier::external_body]
pub(crate) fn object_new() -> (r: serde_json::Map<String, Value>)
    ensures
        object_model(r) == no_members(),
{
    serde_json::Map::new()
}

/// `serde_json::Map::insert`: the object gets the member `key`, in place of one that it may
/// have had under that key.
#[verifier::external_body]
pub(crate) fn object_insert(
    object: &mut serde_json::Map<String, Value>,
    key: String,
    value: Value,
)
    ensures
        object_model(*final(object)) == object_model(*old(object)).insert(
            key@,
            value_model(value),
        ),
{
    object.insert(key, value);
}

/// The variant `Object` of [`serde_json::Value`], with the object that it is given.
#[verifier::external_body]
pub(crate) fn object_value(object: serde_json::Map<String, Value>) -> (r: Value)
    ensures
        value_model(r) == JsonModel::Object(object_model(object)),
{
    Value::Object(object)
}

} // verus!
