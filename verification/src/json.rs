//! JSON values.
use vstd::prelude::*;
use crate::strings::str_eq;

verus! {

/// A JSON value. A number that is not an integer is kept as its text.
pub enum Json {
    Null,
    Bool(bool),
    Unsigned(u64),
    Signed(i64),
    Real(String),
    Str(String),
    Array(Vec<Json>),
    Object(Vec<(String, Json)>),
}

/// A JSON value with characters and sequences in place of strings and vectors.
pub enum JsonView {
    Null,
    Bool(bool),
    Unsigned(u64),
    Signed(i64),
    Real(Seq<char>),
    Str(Seq<char>),
    Array(Seq<JsonView>),
    Object(Seq<(Seq<char>, JsonView)>),
}

pub open spec fn json_view(j: Json) -> JsonView
    decreases j,
{
    match j {
        Json::Null => JsonView::Null,
        Json::Bool(b) => JsonView::Bool(b),
        Json::Unsigned(n) => JsonView::Unsigned(n),
        Json::Signed(n) => JsonView::Signed(n),
        Json::Real(s) => JsonView::Real(s@),
        Json::Str(s) => JsonView::Str(s@),
        Json::Array(v) => JsonView::Array(json_views(v@)),
        Json::Object(v) => JsonView::Object(field_views(v@)),
    }
}

pub open spec fn json_views(v: Seq<Json>) -> Seq<JsonView>
    decreases v,
{
    if v.len() == 0 {
        Seq::empty()
    } else {
        json_views(v.drop_last()).push(json_view(v[v.len() - 1]))
    }
}

pub open spec fn field_views(v: Seq<(String, Json)>) -> Seq<(Seq<char>, JsonView)>
    decreases v,
{
    if v.len() == 0 {
        Seq::empty()
    } else {
        field_views(v.drop_last()).push((v[v.len() - 1].0@, json_view(v[v.len() - 1].1)))
    }
}

impl View for Json {
    type V = JsonView;

    open spec fn view(&self) -> JsonView {
        json_view(*self)
    }
}

pub open spec fn opt_json(o: Option<&Json>) -> Option<JsonView> {
    match o {
        Some(j) => Some(j@),
        None => None,
    }
}

/// The value of the last field with this name.
pub open spec fn field_of(fs: Seq<(Seq<char>, JsonView)>, key: Seq<char>) -> Option<JsonView>
    decreases fs.len(),
{
    if fs.len() == 0 {
        None
    } else if fs.last().0 == key {
        Some(fs.last().1)
    } else {
        field_of(fs.drop_last(), key)
    }
}

impl JsonView {
    /// A field of an object; nothing else has fields.
    pub open spec fn field(self, key: Seq<char>) -> Option<JsonView> {
        match self {
            JsonView::Object(fs) => field_of(fs, key),
            _ => None,
        }
    }

    pub open spec fn text(self) -> Option<Seq<char>> {
        match self {
            JsonView::Str(s) => Some(s),
            _ => None,
        }
    }

    pub open spec fn items(self) -> Option<Seq<JsonView>> {
        match self {
            JsonView::Array(v) => Some(v),
            _ => None,
        }
    }

    /// The number, if it is a non-negative integer.
    pub open spec fn number(self) -> Option<u64> {
        match self {
            JsonView::Unsigned(n) => Some(n),
            JsonView::Signed(n) => if n >= 0 { Some(n as u64) } else { None },
            _ => None,
        }
    }

    /// The number, if it is an integer that an `i64` can hold.
    pub open spec fn integer(self) -> Option<i64> {
        match self {
            JsonView::Unsigned(n) => if n <= i64::MAX { Some(n as i64) } else { None },
            JsonView::Signed(n) => Some(n),
            _ => None,
        }
    }

    pub open spec fn truth(self) -> Option<bool> {
        match self {
            JsonView::Bool(b) => Some(b),
            _ => None,
        }
    }

    /// The text of a field.
    pub open spec fn text_field(self, key: Seq<char>) -> Option<Seq<char>> {
        match self.field(key) {
            Some(v) => v.text(),
            None => None,
        }
    }

    pub open spec fn number_field(self, key: Seq<char>) -> Option<u64> {
        match self.field(key) {
            Some(v) => v.number(),
            None => None,
        }
    }
}

pub proof fn lemma_json_views(v: Seq<Json>)
    ensures
        json_views(v).len() == v.len(),
        forall|i: int| 0 <= i < v.len() ==> #[trigger] json_views(v)[i] == v[i]@,
    decreases v.len(),
{
    if v.len() > 0 {
        lemma_json_views(v.drop_last());
        assert forall|i: int| 0 <= i < v.len() implies #[trigger] json_views(v)[i] == v[i]@ by {
            if i < v.len() - 1 {
                assert(json_views(v.drop_last())[i] == v.drop_last()[i]@);
            }
        }
    }
}

pub proof fn lemma_field_views(v: Seq<(String, Json)>)
    ensures
        field_views(v).len() == v.len(),
        forall|i: int| 0 <= i < v.len() ==> #[trigger] field_views(v)[i] == (v[i].0@, v[i].1@),
    decreases v.len(),
{
    if v.len() > 0 {
        lemma_field_views(v.drop_last());
        assert forall|i: int| 0 <= i < v.len() implies #[trigger] field_views(v)[i] == (
            v[i].0@,
            v[i].1@,
        ) by {
            if i < v.len() - 1 {
                assert(field_views(v.drop_last())[i] == (
                    v.drop_last()[i].0@,
                    v.drop_last()[i].1@,
                ));
            }
        }
    }
}

impl Json {
    /// A field of an object.
    pub fn get(&self, key: &str) -> (r: Option<&Json>)
        ensures
            opt_json(r) == self@.field(key@),
    {
        match self {
            Json::Object(fields) => {
                let mut n: usize = fields.len();
                assert(fields@.take(n as int) =~= fields@);
                while n > 0
                    invariant
                        n <= fields@.len(),
                        field_of(field_views(fields@.take(n as int)), key@) == field_of(
                            field_views(fields@),
                            key@,
                        ),
                        self@ == JsonView::Object(field_views(fields@)),
                    decreases n,
                {
                    let ghost cur = fields@.take(n as int);
                    assert(cur.drop_last() =~= fields@.take(n - 1));
                    assert(field_views(cur).drop_last() =~= field_views(cur.drop_last()));
                    if str_eq(fields[n - 1].0.as_str(), key) {
                        return Some(&fields[n - 1].1);
                    }
                    n -= 1;
                }
                None
            },
            _ => None,
        }
    }

    pub fn as_str(&self) -> (r: Option<&str>)
        ensures
            r is Some <==> self@.text() is Some,
            r matches Some(s) ==> self@.text() == Some(s@),
    {
        match self {
            Json::Str(s) => Some(s.as_str()),
            _ => None,
        }
    }

    pub fn as_array(&self) -> (r: Option<&Vec<Json>>)
        ensures
            r is Some <==> self@.items() is Some,
            r matches Some(v) ==> self@.items() == Some(json_views(v@)),
    {
        match self {
            Json::Array(v) => Some(v),
            _ => None,
        }
    }

    pub fn as_u64(&self) -> (r: Option<u64>)
        ensures
            r == self@.number(),
    {
        match self {
            Json::Unsigned(n) => Some(*n),
            Json::Signed(n) => {
                if *n >= 0 {
                    Some(*n as u64)
                } else {
                    None
                }
            },
            _ => None,
        }
    }

    pub fn as_i64(&self) -> (r: Option<i64>)
        ensures
            r == self@.integer(),
    {
        match self {
            Json::Unsigned(n) => {
                if *n <= i64::MAX as u64 {
                    Some(*n as i64)
                } else {
                    None
                }
            },
            Json::Signed(n) => Some(*n),
            _ => None,
        }
    }

    pub fn as_bool(&self) -> (r: Option<bool>)
        ensures
            r == self@.truth(),
    {
        match self {
            Json::Bool(b) => Some(*b),
            _ => None,
        }
    }

    /// The text of a field.
    pub fn get_str(&self, key: &str) -> (r: Option<&str>)
        ensures
            r is Some <==> self@.text_field(key@) is Some,
            r matches Some(s) ==> self@.text_field(key@) == Some(s@),
    {
        match self.get(key) {
            Some(v) => v.as_str(),
            None => None,
        }
    }

    pub fn get_u64(&self, key: &str) -> (r: Option<u64>)
        ensures
            r == self@.number_field(key@),
    {
        match self.get(key) {
            Some(v) => v.as_u64(),
            None => None,
        }
    }

    /// An object without fields.
    pub fn object() -> (r: Json)
        ensures
            r@ == JsonView::Object(Seq::empty()),
    {
        Json::Object(Vec::new())
    }

    /// The object with one more field.
    pub fn with(self, key: &str, value: Json) -> (r: Json)
        requires
            self is Object,
        ensures
            r is Object,
            r@ == JsonView::Object(self@->Object_0.push((key@, value@))),
    {
        match self {
            Json::Object(mut fields) => {
                let ghost before = fields@;
                fields.push((key.to_owned(), value));
                assert(fields@.drop_last() =~= before);
                Json::Object(fields)
            },
            other => other,
        }
    }

    /// An array of one value.
    pub fn singleton(value: Json) -> (r: Json)
        ensures
            r@ == JsonView::Array(seq![value@]),
    {
        let mut v: Vec<Json> = Vec::new();
        v.push(value);
        proof {
            reveal_with_fuel(json_views, 2);
            assert(v@.drop_last() =~= Seq::<Json>::empty());
            assert(json_views(v@) =~= seq![value@]);
        }
        Json::Array(v)
    }

    pub fn string(s: &str) -> (r: Json)
        ensures
            r@ == JsonView::Str(s@),
    {
        Json::Str(s.to_owned())
    }
}

/// A copy of a value.
pub fn copy_json(j: &Json) -> (r: Json)
    ensures
        r@ == j@,
    decreases *j,
{
    match j {
        Json::Null => Json::Null,
        Json::Bool(b) => Json::Bool(*b),
        Json::Unsigned(n) => Json::Unsigned(*n),
        Json::Signed(n) => Json::Signed(*n),
        Json::Real(s) => Json::Real(s.clone()),
        Json::Str(s) => Json::Str(s.clone()),
        Json::Array(v) => {
            let mut w: Vec<Json> = Vec::new();
            let mut i: usize = 0;
            assert(v@.take(0) =~= Seq::<Json>::empty());
            while i < v.len()
                invariant
                    i <= v@.len(),
                    *j == Json::Array(*v),
                    json_views(w@) == json_views(v@.take(i as int)),
                decreases v@.len() - i,
            {
                assert(decreases_to!(*j => j->Array_0));
                assert(decreases_to!(v@ => v@[i as int]));
                let c = copy_json(&v[i]);
                let ghost before = w@;
                w.push(c);
                assert(w@.drop_last() =~= before);
                assert(v@.take(i + 1).drop_last() =~= v@.take(i as int));
                i += 1;
            }
            assert(v@.take(i as int) =~= v@);
            Json::Array(w)
        },
        Json::Object(v) => {
            let mut w: Vec<(String, Json)> = Vec::new();
            let mut i: usize = 0;
            assert(v@.take(0) =~= Seq::<(String, Json)>::empty());
            while i < v.len()
                invariant
                    i <= v@.len(),
                    *j == Json::Object(*v),
                    field_views(w@) == field_views(v@.take(i as int)),
                decreases v@.len() - i,
            {
                assert(decreases_to!(*j => j->Object_0));
                assert(decreases_to!(v@ => v@[i as int]));
                assert(decreases_to!(v@[i as int] => v@[i as int].1));
                let c = copy_json(&v[i].1);
                let ghost before = w@;
                w.push((v[i].0.clone(), c));
                assert(w@.drop_last() =~= before);
                assert(v@.take(i + 1).drop_last() =~= v@.take(i as int));
                i += 1;
            }
            assert(v@.take(i as int) =~= v@);
            Json::Object(w)
        },
    }
}

// ---------------------------------------------------------------------------
// The serde_json crate
// ---------------------------------------------------------------------------

#[verifier::external_type_specification]
#[verifier::external_body]
pub struct ExValue(serde_json::Value);

/// The value that `serde_json::from_slice` reads from bytes, or the text of its
/// error when they are not JSON.
pub uninterp spec fn parsed_json(bytes: Seq<u8>) -> Result<JsonView, Seq<char>>;

/// The bytes that `serde_json::to_vec` writes for a value.
pub uninterp spec fn json_bytes(value: JsonView) -> Seq<u8>;

/// A `serde_json::Value` as a value of this library, variant by variant.
#[verifier::external_body]
fn json_of_value(v: serde_json::Value) -> Json {
    match v {
        serde_json::Value::Null => Json::Null,
        serde_json::Value::Bool(b) => Json::Bool(b),
        serde_json::Value::Number(n) => match (n.as_u64(), n.as_i64()) {
            (Some(u), _) => Json::Unsigned(u),
            (_, Some(i)) => Json::Signed(i),
            _ => Json::Real(n.to_string()),
        },
        serde_json::Value::String(s) => Json::Str(s),
        serde_json::Value::Array(a) => Json::Array(a.into_iter().map(json_of_value).collect()),
        serde_json::Value::Object(m) => Json::Object(
            m.into_iter().map(|(k, x)| (k, json_of_value(x))).collect(),
        ),
    }
}

/// A value of this library as a `serde_json::Value`, variant by variant.
#[verifier::external_body]
fn value_of_json(j: &Json) -> serde_json::Value {
    match j {
        Json::Null => serde_json::Value::Null,
        Json::Bool(b) => serde_json::Value::from(*b),
        Json::Unsigned(n) => serde_json::Value::from(*n),
        Json::Signed(n) => serde_json::Value::from(*n),
        Json::Real(s) => serde_json::from_str(s).unwrap_or_default(),
        Json::Str(s) => serde_json::Value::from(s.as_str()),
        Json::Array(v) => v.iter().map(value_of_json).collect(),
        Json::Object(v) => v.iter().map(|f| (f.0.clone(), value_of_json(&f.1))).collect(),
    }
}

/// `serde_json::from_slice`: the JSON value that `bytes` hold, or the error's
/// text.
#[verifier::external_body]
pub(crate) fn json_from_slice(bytes: &[u8]) -> (r: Result<Json, String>)
    ensures
        match r {
            Ok(v) => parsed_json(bytes@) == Ok::<JsonView, Seq<char>>(v@),
            Err(e) => parsed_json(bytes@) == Err::<JsonView, Seq<char>>(e@),
        },
{
    match serde_json::from_slice(bytes) {
        Ok(v) => Ok(json_of_value(v)),
        Err(e) => Err(e.to_string()),
    }
}

/// `serde_json::to_vec`: a value as JSON text.
#[verifier::external_body]
pub(crate) fn json_to_vec(value: &Json) -> (r: Vec<u8>)
    ensures
        r@ == json_bytes(value@),
{
    serde_json::to_vec(&value_of_json(value)).unwrap_or_default()
}

/// The last field of a name counts, and a name that no field has is not found.
pub proof fn the_last_field_of_a_name_counts(
    fs: Seq<(Seq<char>, JsonView)>,
    k: int,
    key: Seq<char>,
)
    ensures
        0 <= k < fs.len() && fs[k].0 == key && (forall|j: int|
            k < j < fs.len() ==> (#[trigger] fs[j]).0 != key) ==> field_of(fs, key) == Some(fs[k].1),
        (forall|j: int| 0 <= j < fs.len() ==> (#[trigger] fs[j]).0 != key) ==> field_of(fs, key)
            is None,
    decreases fs.len(),
{
    if fs.len() > 0 {
        let t = fs.drop_last();
        the_last_field_of_a_name_counts(t, k, key);
        assert(fs.last() == fs[fs.len() - 1]);
        if (forall|j: int| 0 <= j < fs.len() ==> (#[trigger] fs[j]).0 != key) {
            assert forall|j: int| 0 <= j < t.len() implies (#[trigger] t[j]).0 != key by {
                assert(t[j] == fs[j]);
            }
        }
        if 0 <= k < fs.len() && fs[k].0 == key && (forall|j: int|
            k < j < fs.len() ==> (#[trigger] fs[j]).0 != key) {
            if k < t.len() {
                assert(t[k] == fs[k]);
                assert forall|j: int| k < j < t.len() implies (#[trigger] t[j]).0 != key by {
                    assert(t[j] == fs[j]);
                }
            }
        }
    }
}

/// A number is read from either kind of integer, and none from a negative one.
pub proof fn integers_are_numbers(n: u64, m: i64)
    ensures
        JsonView::Unsigned(n).number() == Some(n),
        m >= 0 ==> JsonView::Signed(m).number() == Some(m as u64),
        m < 0 ==> JsonView::Signed(m).number() is None,
        JsonView::Signed(m).integer() == Some(m),
        n <= i64::MAX ==> JsonView::Unsigned(n).integer() == Some(n as i64),
        n > i64::MAX ==> JsonView::Unsigned(n).integer() is None,
{
}

}
