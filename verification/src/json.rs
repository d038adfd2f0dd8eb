//! JSON values: the library's own plain representation, its model, and the
//! boundary to `serde_json`, which reads and prints the text.

use serde_json::Value;
use vstd::prelude::*;

use crate::text;
use crate::text::same_text;

verus! {

/// A JSON value.
#[derive(Debug, PartialEq, Eq)]
pub enum Json {
    Null,
    Bool(bool),
    /// A number from 0 to 2^64 - 1 without fraction or exponent.
    Number(u64),
    /// A number from -2^63 to -1 without fraction or exponent.
    Negative(i64),
    /// Any other number, as text.
    Decimal(String),
    Str(String),
    Array(Vec<Json>),
    /// Fields in the order they were put in; of two with one key the later
    /// counts.
    Object(Vec<(String, Json)>),
}

/// What a [`Json`] stands for.
#[verifier::ext_equal]
pub enum JsonValue {
    Null,
    Bool(bool),
    Number(u64),
    Negative(i64),
    Decimal(Seq<char>),
    Str(Seq<char>),
    Array(Seq<JsonValue>),
    Object(Map<Seq<char>, JsonValue>),
}

/// The model of a JSON value.
pub open spec fn model(j: Json) -> JsonValue
    decreases j,
{
    match j {
        Json::Null => JsonValue::Null,
        Json::Bool(b) => JsonValue::Bool(b),
        Json::Number(n) => JsonValue::Number(n),
        Json::Negative(n) => JsonValue::Negative(n),
        Json::Decimal(s) => JsonValue::Decimal(s@),
        Json::Str(s) => JsonValue::Str(s@),
        Json::Array(items) => JsonValue::Array(items_model(items@)),
        Json::Object(fields) => JsonValue::Object(fields_model(fields@)),
    }
}

/// The models of a list of values.
pub open spec fn items_model(items: Seq<Json>) -> Seq<JsonValue>
    decreases items,
{
    if items.len() == 0 {
        Seq::empty()
    } else {
        items_model(items.drop_last()).push(model(items.last()))
    }
}

/// The map that a list of fields stands for: a later field replaces an
/// earlier one with the same key.
pub open spec fn fields_model(fields: Seq<(String, Json)>) -> Map<Seq<char>, JsonValue>
    decreases fields,
{
    if fields.len() == 0 {
        Map::empty()
    } else {
        fields_model(fields.drop_last()).insert(fields.last().0@, model(fields.last().1))
    }
}

impl View for Json {
    type V = JsonValue;

    open spec fn view(&self) -> JsonValue {
        model(*self)
    }
}

/// The field of an object; `None` where there is none or the value is no
/// object.
pub open spec fn field(j: JsonValue, key: Seq<char>) -> Option<JsonValue> {
    match j {
        JsonValue::Object(m) => if m.contains_key(key) {
            Some(m[key])
        } else {
            None
        },
        _ => None,
    }
}

/// The text of a string value.
pub open spec fn string_in(v: Option<JsonValue>) -> Option<Seq<char>> {
    match v {
        Some(JsonValue::Str(s)) => Some(s),
        _ => None,
    }
}

/// The number of a number value.
pub open spec fn number_in(v: Option<JsonValue>) -> Option<u64> {
    match v {
        Some(JsonValue::Number(n)) => Some(n),
        _ => None,
    }
}

/// A key that does not begin with `$`: `serde_json` keeps some of those to
/// itself.
pub open spec fn is_plain_key(k: Seq<char>) -> bool {
    k.len() == 0 || k[0] != '$'
}

/// At most `n` arrays and objects are nested in each other, every number is a
/// whole one, with a sign where it is below zero, and every key is plain.
pub open spec fn is_printable(j: JsonValue, n: nat) -> bool
    decreases n,
{
    match j {
        JsonValue::Decimal(_) => false,
        JsonValue::Negative(k) => k < 0,
        JsonValue::Array(items) => n > 0 && forall|i: int|
            0 <= i < items.len() ==> is_printable(#[trigger] items[i], (n - 1) as nat),
        JsonValue::Object(m) => n > 0 && forall|k: Seq<char>| #[trigger]
            m.contains_key(k) ==> is_plain_key(k) && is_printable(m[k], (n - 1) as nat),
        _ => true,
    }
}

// ---------------------------------------------------------------------------
// The boundary to serde_json
// ---------------------------------------------------------------------------

/// `serde_json::Value`.
#[verifier::external_type_specification]
#[verifier::external_body]
pub struct ExValue(serde_json::Value);

/// What a `serde_json::Value` holds.
pub uninterp spec fn value_model(v: serde_json::Value) -> JsonValue;

/// What `serde_json::from_str::<serde_json::Value>` makes of a text: the value,
/// or the error as it prints.
pub uninterp spec fn json_parse(text: Seq<char>) -> Result<JsonValue, Seq<char>>;

/// The text is the JSON of the value.
pub open spec fn reads_as(text: Seq<char>, v: JsonValue) -> bool {
    json_parse(text) == Ok::<JsonValue, Seq<char>>(v)
}

/// What `serde_json::to_string_pretty` prints for a value.
pub uninterp spec fn json_pretty(v: JsonValue) -> Seq<char>;

/// What `serde_json::to_string` prints for a value.
pub uninterp spec fn json_compact(v: JsonValue) -> Seq<char>;

/// `serde_json::from_str::<serde_json::Value>`: its result, an error by its
/// text, is a function of the text that was read.
#[verifier::external_body]
fn read_value(text: &str) -> (r: Result<Value, String>)
    ensures
        match r {
            Ok(v) => json_parse(text@) == Ok::<JsonValue, Seq<char>>(value_model(v)),
            Err(m) => json_parse(text@) == Err::<JsonValue, Seq<char>>(m@),
        },
{
    match serde_json::from_str::<Value>(text) {
        Ok(v) => Ok(v),
        Err(e) => Err(e.to_string()),
    }
}

/// Converts a `serde_json::Value`, variant by variant. A number is told apart
/// by `Number::as_u64` and `Number::as_i64`; any other one keeps its text.
#[verifier::external_body]
fn json_of_value(v: &Value) -> (r: Json)
    ensures
        r@ == value_model(*v),
{
    match v {
        Value::Null => Json::Null,
        Value::Bool(b) => Json::Bool(*b),
        Value::Number(n) => match (n.as_u64(), n.as_i64()) {
            (Some(u), _) => Json::Number(u),
            (None, Some(i)) => Json::Negative(i),
            (None, None) => Json::Decimal(n.to_string()),
        },
        Value::String(s) => Json::Str(s.clone()),
        Value::Array(a) => Json::Array(a.iter().map(json_of_value).collect()),
        Value::Object(o) => {
            Json::Object(o.iter().map(|(k, x)| (k.clone(), json_of_value(x))).collect())
        }
    }
}

/// Builds the `serde_json::Value` of a printable [`Json`], variant by variant.
/// `serde_json::Map` keeps the later of two fields with one key; the earlier one
/// is built and dropped, whatever it holds.
#[verifier::external_body]
fn value_of_json(j: &Json) -> (r: Value)
    requires
        is_printable(j@, 127),
    ensures
        value_model(r) == j@,
{
    match j {
        Json::Null | Json::Decimal(_) => Value::Null,
        Json::Bool(b) => Value::Bool(*b),
        Json::Number(n) => Value::Number((*n).into()),
        Json::Negative(n) => Value::Number((*n).into()),
        Json::Str(s) => Value::String(s.clone()),
        Json::Array(a) => Value::Array(a.iter().map(value_of_json).collect()),
        Json::Object(o) => Value::Object(
            o.iter().map(|(k, x)| (k.clone(), value_of_json(x))).collect()),
    }
}

/// `serde_json::to_string_pretty` on a value: a function of what the value
/// holds, and `serde_json::from_str` reads the same value back from it (its
/// nesting limit of 127 is not reached, and no key is one of those by which it
/// tells its own `RawValue` and `Number` from an object).
#[verifier::external_body]
fn pretty_text(v: &Value) -> (r: String)
    requires
        is_printable(value_model(*v), 127),
    ensures
        r@ == json_pretty(value_model(*v)),
        reads_as(r@, value_model(*v)),
{
    serde_json::to_string_pretty(v).unwrap_or_default()
}

/// `serde_json::to_string` on a value: a function of what the value holds, and
/// `serde_json::from_str` reads the same value back from it (its nesting limit
/// of 127 is not reached, and no key is one of those by which it tells its own
/// `RawValue` and `Number` from an object). The text has no line break in it,
/// and that of an object begins with a brace.
#[verifier::external_body]
fn compact_text(v: &Value) -> (r: String)
    requires
        is_printable(value_model(*v), 127),
    ensures
        r@ == json_compact(value_model(*v)),
        reads_as(r@, value_model(*v)),
        !r@.contains('\n'),
        value_model(*v) is Object ==> r@.len() > 0 && r@[0] == '{',
{
    serde_json::to_string(v).unwrap_or_default()
}

/// The view of a reading result.
pub open spec fn parsed(r: Result<Json, String>) -> Result<JsonValue, Seq<char>> {
    match r {
        Ok(j) => Ok(j@),
        Err(m) => Err(m@),
    }
}

/// Read a JSON text.
pub fn parse_json(text: &str) -> (r: Result<Json, String>)
    ensures
        parsed(r) == json_parse(text@),
{
    match read_value(text) {
        Ok(v) => Ok(json_of_value(&v)),
        Err(m) => Err(m),
    }
}

/// Print a value over several lines, indented by two spaces.
pub fn print_pretty(j: &Json) -> (r: String)
    requires
        is_printable(j@, 127),
    ensures
        r@ == json_pretty(j@),
        reads_as(r@, j@),
{
    pretty_text(&value_of_json(j))
}

/// Print a value on one line.
pub fn print_compact(j: &Json) -> (r: String)
    requires
        is_printable(j@, 127),
    ensures
        r@ == json_compact(j@),
        reads_as(r@, j@),
        !r@.contains('\n'),
        j@ is Object ==> r@.len() > 0 && r@[0] == '{',
{
    compact_text(&value_of_json(j))
}

// ---------------------------------------------------------------------------
// What can be printed
// ---------------------------------------------------------------------------

/// Every field of an object is printable, and its key is plain.
pub open spec fn fields_printable(m: Map<Seq<char>, JsonValue>, n: nat) -> bool {
    forall|k: Seq<char>| #[trigger]
        m.contains_key(k) ==> is_plain_key(k) && is_printable(m[k], n)
}

/// An object stays printable when a printable field is put in under a plain
/// key.
pub broadcast proof fn lemma_put_printable(
    m: Map<Seq<char>, JsonValue>,
    key: Seq<char>,
    v: JsonValue,
    n: nat,
)
    requires
        fields_printable(m, n),
        is_plain_key(key),
        is_printable(v, n),
    ensures
        #[trigger] fields_printable(m.insert(key, v), n),
{
    let all = m.insert(key, v);
    assert forall|k: Seq<char>| #[trigger] all.contains_key(k) implies is_plain_key(k)
        && is_printable(all[k], n) by {
        if k != key {
            assert(m.contains_key(k));
        }
    }
}

/// What nests no deeper than a bound nests no deeper than a larger one.
pub proof fn lemma_printable_deeper(j: JsonValue, n: nat, m: nat)
    requires
        is_printable(j, n),
        n <= m,
    ensures
        is_printable(j, m),
    decreases m,
{
    match j {
        JsonValue::Array(items) => {
            assert forall|i: int| 0 <= i < items.len() implies is_printable(
                #[trigger] items[i],
                (m - 1) as nat,
            ) by {
                lemma_printable_deeper(items[i], (n - 1) as nat, (m - 1) as nat);
            }
        },
        JsonValue::Object(fields) => {
            assert forall|k: Seq<char>| #[trigger] fields.contains_key(k) implies is_plain_key(k)
                && is_printable(fields[k], (m - 1) as nat) by {
                lemma_printable_deeper(fields[k], (n - 1) as nat, (m - 1) as nat);
            }
        },
        _ => {},
    }
}

// ---------------------------------------------------------------------------
// Reading and building values
// ---------------------------------------------------------------------------

/// The models of a list, one by one.
pub proof fn lemma_items_model(items: Seq<Json>)
    ensures
        items_model(items).len() == items.len(),
        forall|i: int| 0 <= i < items.len() ==> #[trigger] items_model(items)[i] == model(items[i]),
    decreases items.len(),
{
    if items.len() > 0 {
        lemma_items_model(items.drop_last());
        assert forall|i: int| 0 <= i < items.len() implies #[trigger] items_model(items)[i] == model(
            items[i],
        ) by {
            if i < items.len() - 1 {
                assert(items_model(items)[i] == items_model(items.drop_last())[i]);
            }
        }
    }
}

impl Json {
    /// The field of an object.
    pub fn get(&self, key: &str) -> (r: Option<&Json>)
        ensures
            match r {
                Some(v) => field(self@, key@) == Some(v@),
                None => field(self@, key@) is None,
            },
    {
        match self {
            Json::Object(fields) => {
                let ghost all = fields@;
                let mut i: usize = fields.len();
                assert(all.take(i as int) =~= all);
                while i > 0
                    invariant
                        i <= fields.len(),
                        all == fields@,
                        self@ == JsonValue::Object(fields_model(all)),
                        fields_model(all).contains_key(key@) == fields_model(
                            all.take(i as int),
                        ).contains_key(key@),
                        fields_model(all).contains_key(key@) ==> fields_model(all)[key@]
                            == fields_model(all.take(i as int))[key@],
                    decreases i,
                {
                    let ghost here = all.take(i as int);
                    assert(here.drop_last() =~= all.take(i - 1));
                    assert(here.last() == fields@[i - 1]);
                    i -= 1;
                    if same_text(fields[i].0.as_str(), key) {
                        return Some(&fields[i].1);
                    }
                }
                None
            },
            _ => None,
        }
    }

    /// The text of a string value.
    pub fn as_str(&self) -> (r: Option<&str>)
        ensures
            match r {
                Some(s) => self@ == JsonValue::Str(s@),
                None => !(self@ is Str),
            },
    {
        match self {
            Json::Str(s) => Some(s.as_str()),
            _ => None,
        }
    }

    /// The number of a whole-number value.
    pub fn as_u64(&self) -> (r: Option<u64>)
        ensures
            match r {
                Some(n) => self@ == JsonValue::Number(n),
                None => !(self@ is Number),
            },
    {
        match self {
            Json::Number(n) => Some(*n),
            _ => None,
        }
    }

    /// The string in a field.
    pub fn str_field(&self, key: &str) -> (r: Option<&str>)
        ensures
            match r {
                Some(s) => string_in(field(self@, key@)) == Some(s@),
                None => string_in(field(self@, key@)) is None,
            },
    {
        match self.get(key) {
            Some(v) => v.as_str(),
            None => None,
        }
    }

    /// The number in a field.
    pub fn u64_field(&self, key: &str) -> (r: Option<u64>)
        ensures
            r == number_in(field(self@, key@)),
    {
        match self.get(key) {
            Some(v) => v.as_u64(),
            None => None,
        }
    }

    /// A string value.
    pub fn text(s: &str) -> (r: Json)
        ensures
            r@ == JsonValue::Str(s@),
    {
        Json::Str(s.to_string())
    }
}

impl Clone for Json {
    fn clone(&self) -> (r: Json)
        ensures
            r@ == self@,
        decreases self,
    {
        match self {
            Json::Null => Json::Null,
            Json::Bool(b) => Json::Bool(*b),
            Json::Number(n) => Json::Number(*n),
            Json::Negative(n) => Json::Negative(*n),
            Json::Decimal(s) => Json::Decimal(s.clone()),
            Json::Str(s) => Json::Str(s.clone()),
            Json::Array(items) => {
                let mut out: Vec<Json> = Vec::new();
                let mut i: usize = 0;
                while i < items.len()
                    invariant
                        i <= items.len(),
                        *self == Json::Array(*items),
                        items_model(out@) == items_model(items@.take(i as int)),
                    decreases items.len() - i,
                {
                    let ghost had = out@;
                    assert(decreases_to!(self => self->Array_0));
                    assert(decreases_to!(items => items@));
                    assert(decreases_to!(items@ => items@[i as int]));
                    let item = items[i].clone();
                    out.push(item);
                    i += 1;
                    assert(out@.drop_last() =~= had);
                    assert(items@.take(i as int).drop_last() =~= items@.take(i - 1));
                }
                assert(items@.take(i as int) =~= items@);
                Json::Array(out)
            },
            Json::Object(fields) => {
                let mut out: Vec<(String, Json)> = Vec::new();
                let mut i: usize = 0;
                while i < fields.len()
                    invariant
                        i <= fields.len(),
                        *self == Json::Object(*fields),
                        fields_model(out@) == fields_model(fields@.take(i as int)),
                    decreases fields.len() - i,
                {
                    let ghost had = out@;
                    assert(decreases_to!(self => self->Object_0));
                    assert(decreases_to!(fields => fields@));
                    assert(decreases_to!(fields@ => fields@[i as int]));
                    assert(decreases_to!(fields@[i as int] => fields@[i as int].1));
                    let value = fields[i].1.clone();
                    out.push((fields[i].0.clone(), value));
                    i += 1;
                    assert(out@.drop_last() =~= had);
                    assert(fields@.take(i as int).drop_last() =~= fields@.take(i - 1));
                }
                assert(fields@.take(i as int) =~= fields@);
                Json::Object(out)
            },
        }
    }
}

/// A copy of a list of values.
pub fn copy_items(items: &Vec<Json>) -> (r: Vec<Json>)
    ensures
        items_model(r@) == items_model(items@),
{
    let mut out: Vec<Json> = Vec::new();
    let mut i: usize = 0;
    while i < items.len()
        invariant
            i <= items.len(),
            items_model(out@) == items_model(items@.take(i as int)),
        decreases items.len() - i,
    {
        let ghost had = out@;
        out.push(items[i].clone());
        i += 1;
        assert(out@.drop_last() =~= had);
        assert(items@.take(i as int).drop_last() =~= items@.take(i - 1));
    }
    assert(items@.take(i as int) =~= items@);
    out
}

/// Put a field into an object under construction.
pub fn put(fields: &mut Vec<(String, Json)>, key: &str, v: Json)
    ensures
        fields_model(final(fields)@) == fields_model(old(fields)@).insert(key@, v@),
{
    fields.push((key.to_string(), v));
    assert(fields@.drop_last() =~= old(fields)@);
}

/// Put a string field into an object under construction.
pub fn put_text(fields: &mut Vec<(String, Json)>, key: &str, s: &str)
    ensures
        fields_model(final(fields)@) == fields_model(old(fields)@).insert(
            key@,
            JsonValue::Str(s@),
        ),
{
    put(fields, key, Json::text(s));
}

/// An array of the strings given.
pub fn text_array(v: &Vec<String>) -> (r: Json)
    ensures
        r@ == text_items(text::strings(v@)),
{
    let mut out: Vec<Json> = Vec::new();
    let mut i: usize = 0;
    while i < v.len()
        invariant
            i <= v.len(),
            items_model(out@) == text::strings(v@).take(i as int).map_values(
                |s: Seq<char>| JsonValue::Str(s),
            ),
        decreases v.len() - i,
    {
        let ghost before = out@;
        out.push(Json::text(v[i].as_str()));
        i += 1;
        assert(out@.drop_last() =~= before);
        assert(items_model(out@) =~= text::strings(v@).take(i as int).map_values(
            |s: Seq<char>| JsonValue::Str(s),
        ));
    }
    assert(text::strings(v@).take(i as int) =~= text::strings(v@));
    Json::Array(out)
}

/// Lists of strings print without loss.
pub proof fn lemma_text_items_printable(v: Seq<Seq<char>>, n: nat)
    requires
        n >= 1,
    ensures
        is_printable(text_items(v), n),
{
    let items = v.map_values(|s: Seq<char>| JsonValue::Str(s));
    assert forall|i: int| 0 <= i < items.len() implies is_printable(
        #[trigger] items[i],
        (n - 1) as nat,
    ) by {
        assert(items[i] == JsonValue::Str(v[i]));
    }
}

/// The array value of a list of strings.
pub open spec fn text_items(v: Seq<Seq<char>>) -> JsonValue {
    JsonValue::Array(v.map_values(|s: Seq<char>| JsonValue::Str(s)))
}

} // verus!
