//! JSON values as plain data, read and rendered by `serde_json`.
use vstd::prelude::*;

use crate::text::same;

verus! {

/// A JSON value. Numbers keep the three forms that `serde_json` tells apart; a
/// fraction or an exponent is kept as its text. An object read from text has its
/// keys in ascending order, each once.
pub enum Json {
    Null,
    Bool(bool),
    UInt(u64),
    NegInt(i64),
    Real(String),
    Str(String),
    Array(Vec<Json>),
    Object(Vec<(String, Json)>),
}

/// Model of [`Json`].
#[verifier::ext_equal]
pub enum JsonView {
    Null,
    Bool(bool),
    UInt(u64),
    NegInt(i64),
    Real(Seq<char>),
    Str(Seq<char>),
    Array(Seq<JsonView>),
    Object(Seq<(Seq<char>, JsonView)>),
}

impl Json {
    /// The value's model.
    pub open spec fn model(&self) -> JsonView
        decreases self,
    {
        match self {
            Json::Null => JsonView::Null,
            Json::Bool(b) => JsonView::Bool(*b),
            Json::UInt(n) => JsonView::UInt(*n),
            Json::NegInt(n) => JsonView::NegInt(*n),
            Json::Real(t) => JsonView::Real(t@),
            Json::Str(t) => JsonView::Str(t@),
            Json::Array(v) => JsonView::Array(
                Seq::new(
                    v@.len(),
                    |i: int|
                        if 0 <= i < v@.len() {
                            v@[i].model()
                        } else {
                            JsonView::Null
                        },
                ),
            ),
            Json::Object(v) => JsonView::Object(
                Seq::new(
                    v@.len(),
                    |i: int|
                        if 0 <= i < v@.len() {
                            (v@[i].0@, v@[i].1.model())
                        } else {
                            (Seq::empty(), JsonView::Null)
                        },
                ),
            ),
        }
    }
}

impl View for Json {
    type V = JsonView;

    open spec fn view(&self) -> JsonView {
        self.model()
    }
}

/// The models of an array's elements.
pub open spec fn items(v: Seq<Json>) -> Seq<JsonView> {
    v.map_values(|e: Json| e@)
}

/// The models of an object's fields, in order.
pub open spec fn fields(v: Seq<(String, Json)>) -> Seq<(Seq<char>, JsonView)> {
    v.map_values(|e: (String, Json)| (e.0@, e.1@))
}

/// The model of an array is the array of the models.
pub broadcast proof fn lemma_array_model(v: Vec<Json>)
    ensures
        #[trigger] Json::Array(v).view() == JsonView::Array(items(v@)),
{
    assert(Json::Array(v)@->Array_0 =~= items(v@));
}

/// The model of an object is the object of the models.
pub broadcast proof fn lemma_object_model(v: Vec<(String, Json)>)
    ensures
        #[trigger] Json::Object(v).view() == JsonView::Object(fields(v@)),
{
    assert(Json::Object(v)@->Object_0 =~= fields(v@));
}

/// The value of the first field named `key`.
pub open spec fn field_of(fs: Seq<(Seq<char>, JsonView)>, key: Seq<char>) -> Option<JsonView>
    decreases fs.len(),
{
    if fs.len() == 0 {
        None
    } else if fs[0].0 == key {
        Some(fs[0].1)
    } else {
        field_of(fs.drop_first(), key)
    }
}

/// The field `key` of an object; nothing for any other value.
pub open spec fn get(v: JsonView, key: Seq<char>) -> Option<JsonView> {
    match v {
        JsonView::Object(fs) => field_of(fs, key),
        _ => None,
    }
}

/// The text of a string value.
pub open spec fn as_str(v: JsonView) -> Option<Seq<char>> {
    match v {
        JsonView::Str(t) => Some(t),
        _ => None,
    }
}

/// The text of the field `key`, when it is a string.
pub open spec fn get_str(v: JsonView, key: Seq<char>) -> Option<Seq<char>> {
    match get(v, key) {
        Some(x) => as_str(x),
        None => None,
    }
}

impl Json {
    /// The field `key` of an object.
    pub fn get(&self, key: &str) -> (r: Option<&Json>)
        ensures
            match r {
                Some(x) => get(self@, key@) == Some(x@),
                None => get(self@, key@) is None,
            },
    {
        broadcast use lemma_object_model;

        match self {
            Json::Object(v) => {
                let ghost fs = fields(v@);
                let mut i: usize = 0;
                assert(fs.skip(0) == fs);
                while i < v.len()
                    invariant
                        i <= v.len(),
                        fs == fields(v@),
                        get(self@, key@) == field_of(fs, key@),
                        field_of(fs.skip(i as int), key@) == field_of(fs, key@),
                    decreases v.len() - i,
                {
                    assert(fs.skip(i as int)[0] == fs[i as int]);
                    assert(fs.skip(i as int).drop_first() == fs.skip(i + 1));
                    if same(v[i].0.as_str(), key) {
                        return Some(&v[i].1);
                    }
                    i += 1;
                }
                None
            },
            _ => None,
        }
    }

    /// The text of a string value.
    pub fn as_str(&self) -> (r: Option<&str>)
        ensures
            crate::text::opt_view(r) == as_str(self@),
    {
        match self {
            Json::Str(t) => Some(t.as_str()),
            _ => None,
        }
    }

    /// The text of the field `key`, when it is a string.
    pub fn get_str(&self, key: &str) -> (r: Option<&str>)
        ensures
            crate::text::opt_view(r) == get_str(self@, key@),
    {
        match self.get(key) {
            Some(x) => x.as_str(),
            None => None,
        }
    }
}

/// `fs` with one more field.
pub fn with_field(fs: Vec<(String, Json)>, key: &str, value: Json) -> (r: Vec<(String, Json)>)
    ensures
        fields(r@) == fields(fs@).push((key@, value@)),
{
    let mut r = fs;
    r.push((key.to_owned(), value));
    assert(fields(r@) =~= fields(fs@).push((key@, value@)));
    r
}

/// An object of the given fields.
pub fn object(fs: Vec<(String, Json)>) -> (r: Json)
    ensures
        r@ == JsonView::Object(fields(fs@)),
{
    broadcast use lemma_object_model;

    Json::Object(fs)
}

/// An object without fields yet.
pub fn no_fields() -> (r: Vec<(String, Json)>)
    ensures
        fields(r@) == Seq::<(Seq<char>, JsonView)>::empty(),
{
    let r: Vec<(String, Json)> = Vec::new();
    assert(fields(r@) =~= Seq::<(Seq<char>, JsonView)>::empty());
    r
}

/// A string value.
pub fn string(s: &str) -> (r: Json)
    ensures
        r@ == JsonView::Str(s@),
{
    Json::Str(s.to_owned())
}

/// An array of string values.
pub fn string_array(v: &Vec<String>) -> (r: Json)
    ensures
        r@ == JsonView::Array(v@.map_values(|s: String| JsonView::Str(s@))),
{
    broadcast use lemma_array_model;

    let mut out: Vec<Json> = Vec::new();
    let mut i: usize = 0;
    while i < v.len()
        invariant
            i <= v.len(),
            items(out@) == v@.take(i as int).map_values(|s: String| JsonView::Str(s@)),
        decreases v.len() - i,
    {
        let ghost before = out@;
        out.push(string(v[i].as_str()));
        assert(items(out@) =~= items(before).push(JsonView::Str(v@[i as int]@)));
        assert(v@.take(i + 1) =~= v@.take(i as int).push(v@[i as int]));
        i += 1;
        assert(items(out@) =~= v@.take(i as int).map_values(|s: String| JsonView::Str(s@)));
    }
    assert(v@.take(i as int) =~= v@);
    Json::Array(out)
}

/// The value tree of `serde_json`; opaque here.
#[verifier::external_type_specification]
#[verifier::external_body]
pub struct ExValue(serde_json::Value);

/// Turns a `serde_json::Value` into a [`Json`], variant by variant.
#[verifier::external_body]
fn from_value(v: serde_json::Value) -> (r: Json) {
    match v {
        serde_json::Value::Null => Json::Null,
        serde_json::Value::Bool(b) => Json::Bool(b),
        serde_json::Value::Number(n) => match (n.as_u64(), n.as_i64()) {
            (Some(u), _) => Json::UInt(u),
            (None, Some(i)) => Json::NegInt(i),
            (None, None) => Json::Real(n.to_string()),
        },
        serde_json::Value::String(s) => Json::Str(s),
        serde_json::Value::Array(a) => Json::Array(a.into_iter().map(from_value).collect()),
        serde_json::Value::Object(m) => Json::Object(m.into_iter().map(|(k, x)| (k, from_value(x))).collect()),
    }
}

/// Turns a [`Json`] into a `serde_json::Value`, variant by variant.
#[verifier::external_body]
fn to_value(v: &Json) -> (r: serde_json::Value) {
    match v {
        Json::Null => serde_json::Value::Null,
        Json::Bool(b) => serde_json::Value::from(*b),
        Json::UInt(n) => serde_json::Value::from(*n),
        Json::NegInt(n) => serde_json::Value::from(*n),
        Json::Real(t) => serde_json::from_str(t).unwrap_or_default(),
        Json::Str(t) => serde_json::Value::from(t.as_str()),
        Json::Array(a) => serde_json::Value::Array(a.iter().map(to_value).collect()),
        Json::Object(m) => serde_json::Value::Object(m.iter().map(|(k, x)| (k.clone(), to_value(x))).collect()),
    }
}

/// What `serde_json::from_str` reads from a text: a value, or the error's text.
pub uninterp spec fn json_parsed(text: Seq<char>) -> Result<JsonView, Seq<char>>;

/// What `serde_json::Value::to_string` writes for a value.
pub uninterp spec fn json_rendered(v: JsonView) -> Seq<char>;

/// Reads a JSON text with `serde_json::from_str`. Claimed: the value, or the
/// text of the error, is a function of the input text.
#[verifier::external_body]
pub(crate) fn parse_json(text: &str) -> (r: Result<Json, String>)
    ensures
        match r {
            Ok(v) => json_parsed(text@) == Ok::<JsonView, Seq<char>>(v@),
            Err(e) => json_parsed(text@) == Err::<JsonView, Seq<char>>(e@),
        },
{
    match serde_json::from_str::<serde_json::Value>(text) {
        Ok(v) => Ok(from_value(v)),
        Err(e) => Err(e.to_string()),
    }
}

/// Renders a JSON value with `serde_json::Value::to_string`. Claimed: the text
/// is a function of the value.
#[verifier::external_body]
pub(crate) fn render_json(v: &Json) -> (r: String)
    ensures
        r@ == json_rendered(v@),
{
    to_value(v).to_string()
}

/// A field is found under its name: the first of that name, and none where no field has it.
pub proof fn law_fields_are_found(fs: Seq<(Seq<char>, JsonView)>, key: Seq<char>, k: int)
    ensures
        0 <= k < fs.len() && fs[k].0 == key && (forall|j: int|
            0 <= j < k ==> (#[trigger] fs[j]).0 != key) ==> get(JsonView::Object(fs), key) == Some(
            fs[k].1,
        ),
        (forall|j: int| 0 <= j < fs.len() ==> (#[trigger] fs[j]).0 != key) ==> get(
            JsonView::Object(fs),
            key,
        ) is None,
        0 <= k < fs.len() && fs[k].0 == key && (forall|j: int|
            0 <= j < k ==> (#[trigger] fs[j]).0 != key) ==> get_str(JsonView::Object(fs), key) == (
        match fs[k].1 {
            JsonView::Str(t) => Some(t),
            _ => None,
        }),
    decreases fs.len(),
{
    if fs.len() > 0 && fs[0].0 != key {
        let t = fs.drop_first();
        law_fields_are_found(t, key, k - 1);
        if forall|j: int| 0 <= j < fs.len() ==> (#[trigger] fs[j]).0 != key {
            assert forall|j: int| 0 <= j < t.len() implies (#[trigger] t[j]).0 != key by {
                assert(fs[j + 1].0 != key);
            }
        }
        if 0 <= k < fs.len() && fs[k].0 == key && (forall|j: int|
            0 <= j < k ==> (#[trigger] fs[j]).0 != key) {
            assert forall|j: int| 0 <= j < k - 1 implies (#[trigger] t[j]).0 != key by {
                assert(fs[j + 1].0 != key);
            }
            assert(t[k - 1] == fs[k]);
        }
    } else if fs.len() > 0 {
        assert(fs[0].0 == key);
    }
}

}
