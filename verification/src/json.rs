//! JSON values.

use vstd::prelude::*;
use vstd::string::*;

use crate::ieee::scalar::Double;
use crate::text::same_text;

verus! {

/// What a JSON value is, apart from how it is stored.
pub enum JsonModel {
    Null,
    Bool(bool),
    Unsigned(u64),
    Negative(i64),
    Float { value: Double, text: Seq<char> },
    Text(Seq<char>),
    Array(Seq<JsonModel>),
    Object(Seq<(Seq<char>, JsonModel)>),
}

/// A JSON value.
#[derive(Debug)]
pub enum Json {
    Null,
    Bool(bool),
    /// A whole number that is not negative.
    Unsigned(u64),
    /// A negative whole number.
    Negative(i64),
    /// A number with a fraction or an exponent, and its shortest notation.
    Float { value: Double, text: String },
    Text(String),
    Array(Vec<Json>),
    /// The members, in the order of their names.
    Object(Vec<(String, Json)>),
}

impl View for Json {
    type V = JsonModel;

    open spec fn view(&self) -> JsonModel {
        self.model()
    }
}

impl Json {
    pub open spec fn model(self) -> JsonModel
        decreases self, 0int,
    {
        match self {
            Json::Null => JsonModel::Null,
            Json::Bool(b) => JsonModel::Bool(b),
            Json::Unsigned(n) => JsonModel::Unsigned(n),
            Json::Negative(n) => JsonModel::Negative(n),
            Json::Float { value, text } => JsonModel::Float { value, text: text@ },
            Json::Text(s) => JsonModel::Text(s@),
            Json::Array(items) => JsonModel::Array(array_model(items@)),
            Json::Object(members) => JsonModel::Object(object_model(members@)),
        }
    }
}

pub open spec fn array_model(items: Seq<Json>) -> Seq<JsonModel>
    decreases items, items.len(),
{
    if items.len() == 0 {
        seq![]
    } else {
        array_model(items.drop_last()).push(items.last().model())
    }
}

pub open spec fn object_model(members: Seq<(String, Json)>) -> Seq<(Seq<char>, JsonModel)>
    decreases members, members.len(),
{
    if members.len() == 0 {
        seq![]
    } else {
        object_model(members.drop_last()).push((members.last().0@, members.last().1.model()))
    }
}

pub proof fn lemma_array_model(items: Seq<Json>)
    ensures
        array_model(items).len() == items.len(),
        forall|i: int|
            0 <= i < items.len() ==> #[trigger] array_model(items)[i] == items[i].model(),
    decreases items.len(),
{
    if items.len() > 0 {
        lemma_array_model(items.drop_last());
    }
}

pub proof fn lemma_object_model(members: Seq<(String, Json)>)
    ensures
        object_model(members).len() == members.len(),
        forall|i: int|
            0 <= i < members.len() ==> #[trigger] object_model(members)[i] == (
                members[i].0@,
                members[i].1.model(),
            ),
    decreases members.len(),
{
    if members.len() > 0 {
        lemma_object_model(members.drop_last());
    }
}

impl JsonModel {
    /// An object without members.
    pub open spec fn object() -> JsonModel {
        JsonModel::Object(seq![])
    }

    /// The object with one more member at its end.
    pub open spec fn with(self, name: Seq<char>, value: JsonModel) -> JsonModel {
        match self {
            JsonModel::Object(members) => JsonModel::Object(members.push((name, value))),
            _ => self,
        }
    }

    /// A list without items.
    pub open spec fn list() -> JsonModel {
        JsonModel::Array(seq![])
    }

    /// The list with one more item at its end.
    pub open spec fn and(self, value: JsonModel) -> JsonModel {
        match self {
            JsonModel::Array(items) => JsonModel::Array(items.push(value)),
            _ => self,
        }
    }

    /// The member of a name, where the value is an object that has one.
    pub open spec fn get(self, name: Seq<char>) -> Option<JsonModel> {
        match self {
            JsonModel::Object(members) => member(members, name),
            _ => None,
        }
    }
}

/// The first member of a name.
pub open spec fn member(members: Seq<(Seq<char>, JsonModel)>, name: Seq<char>) -> Option<JsonModel>
    decreases members.len(),
{
    if members.len() == 0 {
        None
    } else {
        match member(members.drop_last(), name) {
            Some(j) => Some(j),
            None => if members.last().0 == name {
                Some(members.last().1)
            } else {
                None
            },
        }
    }
}

/// The first of the first `n` members that has the name.
pub fn find_member(members: &Vec<(String, Json)>, name: &str, n: usize) -> (r: Option<usize>)
    requires
        n <= members@.len(),
    ensures
        match r {
            Some(i) => i < n && member(object_model(members@).take(n as int), name@) == Some(
                members@[i as int].1@,
            ),
            None => member(object_model(members@).take(n as int), name@) is None,
        },
{
    let ghost models = object_model(members@);
    proof {
        lemma_object_model(members@);
    }
    let mut found: Option<usize> = None;
    let mut i: usize = 0;
    while i < n
        invariant
            i <= n <= members@.len(),
            models.len() == members@.len(),
            forall|k: int|
                0 <= k < models.len() ==> #[trigger] models[k] == (members@[k].0@, members@[k].1@),
            match found {
                Some(k) => k < i && member(models.take(i as int), name@) == Some(
                    members@[k as int].1@,
                ),
                None => member(models.take(i as int), name@) is None,
            },
        decreases n - i,
    {
        assert(models.take(i + 1).drop_last() =~= models.take(i as int));
        assert(models[i as int] == (members@[i as int].0@, members@[i as int].1@));
        if found.is_none() && same_text(&members[i].0, name) {
            found = Some(i);
        }
        i = i + 1;
    }
    found
}

impl Json {
    /// A text.
    pub fn text(s: &str) -> (r: Json)
        ensures
            r@ == JsonModel::Text(s@),
    {
        Json::Text(s.to_owned())
    }

    /// An object without members.
    pub fn object() -> (r: Json)
        ensures
            r@ == JsonModel::object(),
    {
        Json::Object(Vec::new())
    }

    /// The object with one more member at its end.
    pub fn with(self, name: &str, value: Json) -> (r: Json)
        ensures
            r@ == self@.with(name@, value@),
    {
        match self {
            Json::Object(members) => {
                let ghost given = members@;
                let ghost last = (name@, value@);
                let mut members = members;
                members.push((name.to_owned(), value));
                assert(members@.drop_last() =~= given);
                Json::Object(members)
            },
            other => other,
        }
    }

    /// A list without items.
    pub fn list() -> (r: Json)
        ensures
            r@ == JsonModel::list(),
    {
        Json::Array(Vec::new())
    }

    /// The list with one more item at its end.
    pub fn and(self, value: Json) -> (r: Json)
        ensures
            r@ == self@.and(value@),
    {
        match self {
            Json::Array(items) => {
                let ghost given = items@;
                let mut items = items;
                items.push(value);
                assert(items@.drop_last() =~= given);
                Json::Array(items)
            },
            other => other,
        }
    }

    /// The member of a name, where the value is an object that has one.
    pub fn get(&self, name: &str) -> (r: Option<&Json>)
        ensures
            match r {
                Some(j) => self@.get(name@) == Some(j@),
                None => self@.get(name@) is None,
            },
    {
        match self {
            Json::Object(members) => {
                proof {
                    lemma_object_model(members@);
                    assert(object_model(members@).take(members@.len() as int) =~= object_model(
                        members@,
                    ));
                }
                match find_member(members, name, members.len()) {
                    Some(i) => Some(&members[i].1),
                    None => None,
                }
            },
            _ => None,
        }
    }

    /// The value once more.
    fn copied(&self) -> (r: Json)
        ensures
            r@ == self@,
        decreases self@,
    {
        match self {
            Json::Null => Json::Null,
            Json::Bool(b) => Json::Bool(*b),
            Json::Unsigned(n) => Json::Unsigned(*n),
            Json::Negative(n) => Json::Negative(*n),
            Json::Float { value, text } => Json::Float { value: *value, text: text.clone() },
            Json::Text(s) => Json::Text(s.clone()),
            Json::Array(items) => {
                let mut out: Vec<Json> = Vec::new();
                let mut i: usize = 0;
                assert(items@.take(0) =~= seq![]);
                while i < items.len()
                    invariant
                        self == Json::Array(*items),
                        i <= items@.len(),
                        array_model(out@) == array_model(items@.take(i as int)),
                    decreases items@.len() - i,
                {
                    proof {
                        lemma_array_model(items@);
                        assert(self@->Array_0[i as int] == items@[i as int]@);
                    }
                    let next = items[i].copied();
                    assert(items@.take(i + 1).drop_last() =~= items@.take(i as int));
                    assert(out@.push(next).drop_last() =~= out@);
                    out.push(next);
                    i = i + 1;
                }
                assert(items@.take(i as int) =~= items@);
                Json::Array(out)
            },
            Json::Object(members) => {
                let mut out: Vec<(String, Json)> = Vec::new();
                let mut i: usize = 0;
                assert(members@.take(0) =~= seq![]);
                while i < members.len()
                    invariant
                        self == Json::Object(*members),
                        i <= members@.len(),
                        object_model(out@) == object_model(members@.take(i as int)),
                    decreases members@.len() - i,
                {
                    proof {
                        lemma_object_model(members@);
                        assert(self@->Object_0[i as int].1 == members@[i as int].1@);
                        assert(decreases_to!(self@ => self@->Object_0[i as int].1));
                    }
                    let next = (members[i].0.clone(), members[i].1.copied());
                    assert(members@.take(i + 1).drop_last() =~= members@.take(i as int));
                    assert(out@.push(next).drop_last() =~= out@);
                    out.push(next);
                    i = i + 1;
                }
                assert(members@.take(i as int) =~= members@);
                Json::Object(out)
            },
        }
    }
}

impl Clone for Json {
    fn clone(&self) -> (r: Json)
        ensures
            r@ == self@,
    {
        self.copied()
    }
}

/// An error of the JSON reader.
#[verifier::external_type_specification]
#[verifier::external_body]
pub struct ExReaderError(serde_json::Error);

/// A value of the JSON reader.
#[verifier::external_type_specification]
#[verifier::external_body]
pub struct ExReaderValue(serde_json::Value);

/// What a value of the JSON reader holds.
pub uninterp spec fn held(v: serde_json::Value) -> JsonModel;

/// What `serde_json::from_str` reads a text as; nothing where it refuses the text.
pub uninterp spec fn reading(text: Seq<char>) -> Option<JsonModel>;

/// One level of a value of the JSON reader.
pub enum Level {
    Null,
    Bool(bool),
    /// A number, which is left closed.
    Number(serde_json::Value),
    Text(String),
    Array(Vec<serde_json::Value>),
    Object(Vec<(String, serde_json::Value)>),
}

/// No two members have the same name.
pub open spec fn are_distinct(members: Seq<(Seq<char>, JsonModel)>) -> bool {
    forall|a: int, b: int|
        0 <= a < b < members.len() ==> (#[trigger] members[a]).0 != (#[trigger] members[b]).0
}

/// If it is an object, no two members have the same name.
pub open spec fn has_distinct_names(j: JsonModel) -> bool {
    match j {
        JsonModel::Object(members) => are_distinct(members),
        _ => true,
    }
}

/// One level of what a value holds.
pub open spec fn is_level(r: Level, model: JsonModel) -> bool {
    match r {
        Level::Null => model == JsonModel::Null,
        Level::Bool(b) => model == JsonModel::Bool(b),
        Level::Number(n) => model == held(n) && (model is Unsigned || model is Negative
            || model is Float),
        Level::Text(s) => model == JsonModel::Text(s@),
        Level::Array(items) => model is Array && model->Array_0.len() == items@.len() && forall|
            k: int,
        |
            0 <= k < items@.len() ==> #[trigger] model->Array_0[k] == held(items@[k]),
        Level::Object(members) => model is Object && model->Object_0.len() == members@.len()
            && has_distinct_names(model) && forall|k: int|
            0 <= k < members@.len() ==> #[trigger] model->Object_0[k] == (
                members@[k].0@,
                held(members@[k].1),
            ),
    }
}

/// Reads a text with `serde_json::from_str` as any JSON value. The result depends on the text
/// alone; what it is takes the grammar of JSON to say and is given a name.
#[verifier::external_body]
fn read_value(text: &str) -> (r: Result<serde_json::Value, serde_json::Error>)
    ensures
        match r {
            Ok(v) => reading(text@) == Some(held(v)),
            Err(_) => reading(text@) is None,
        },
{
    serde_json::from_str(text)
}

/// Takes the outermost level off a `serde_json::Value`: the variant it is, and what that variant
/// holds. The members of an object come in the order in which its map hands them out, each name
/// once.
#[verifier::external_body]
fn open_value(v: serde_json::Value) -> (r: Level)
    ensures
        is_level(r, held(v)),
{
    match v {
        serde_json::Value::Null => Level::Null,
        serde_json::Value::Bool(b) => Level::Bool(b),
        serde_json::Value::Number(n) => Level::Number(serde_json::Value::Number(n)),
        serde_json::Value::String(s) => Level::Text(s),
        serde_json::Value::Array(items) => Level::Array(items),
        serde_json::Value::Object(members) => Level::Object(members.into_iter().collect()),
    }
}

/// `serde_json::Value::as_u64` gives a whole number that is not negative, and nothing for any other
/// value.
pub assume_specification[ serde_json::Value::as_u64 ](v: &serde_json::Value) -> (r: Option<u64>)
    ensures
        r == match held(*v) {
            JsonModel::Unsigned(n) => Some(n),
            _ => None,
        },
;

/// `serde_json::Value::as_i64` gives a whole number that an `i64` can hold, and nothing for any
/// other value.
pub assume_specification[ serde_json::Value::as_i64 ](v: &serde_json::Value) -> (r: Option<i64>)
    ensures
        r == match held(*v) {
            JsonModel::Unsigned(n) => if n <= i64::MAX {
                Some(n as i64)
            } else {
                None
            },
            JsonModel::Negative(n) => Some(n),
            _ => None,
        },
;

/// The bits of what `serde_json::Value::as_f64` gives: of a number that is not whole, its own. What
/// it gives for whole numbers is left unsaid.
#[verifier::external_body]
fn float_bits(v: &serde_json::Value) -> (r: Option<u64>)
    ensures
        held(*v) matches JsonModel::Float { value, .. } ==> r == Some(value.bits),
{
    v.as_f64().map(|x| x.to_bits())
}

/// The text that `Display` gives a `serde_json::Value`: of a number that is not whole, its shortest
/// notation. What it gives for other values is left unsaid.
#[verifier::external_body]
fn notation(v: &serde_json::Value) -> (r: String)
    ensures
        held(*v) matches JsonModel::Float { text, .. } ==> r@ == text,
{
    v.to_string()
}

/// A number of the JSON reader, in the first form that holds it exactly.
fn number_of(v: &serde_json::Value) -> (r: Json)
    requires
        held(*v) is Unsigned || held(*v) is Negative || held(*v) is Float,
    ensures
        r@ == held(*v),
{
    if let Some(n) = v.as_u64() {
        return Json::Unsigned(n);
    }
    if let Some(n) = v.as_i64() {
        return Json::Negative(n);
    }
    match float_bits(v) {
        Some(bits) => Json::Float { value: Double::from_bits(bits), text: notation(v) },
        None => Json::Null,
    }
}

/// What a value of the JSON reader holds, as a value of the library.
fn value_of(v: serde_json::Value) -> (r: Json)
    ensures
        r@ == held(v),
        has_distinct_names(r@),
    decreases held(v),
{
    let ghost model = held(v);
    match open_value(v) {
        Level::Null => Json::Null,
        Level::Bool(b) => Json::Bool(b),
        Level::Number(n) => number_of(&n),
        Level::Text(s) => Json::Text(s),
        Level::Array(items) => {
            let ghost given = items@;
            let mut out: Vec<Json> = Vec::new();
            for item in it: items
                invariant
                    model == held(v),
                    model is Array,
                    model->Array_0.len() == given.len(),
                    forall|k: int|
                        0 <= k < given.len() ==> #[trigger] model->Array_0[k] == held(given[k]),
                    it.seq() == given,
                    out@.len() == it.index(),
                    array_model(out@) =~= model->Array_0.take(it.index() as int),
            {
                let ghost n = out@.len() as int;
                assert(item == given[n]);
                assert(model->Array_0[n] == held(item));
                let next = value_of(item);
                assert(out@.push(next).drop_last() =~= out@);
                out.push(next);
            }
            assert(model->Array_0.take(given.len() as int) =~= model->Array_0);
            Json::Array(out)
        },
        Level::Object(members) => {
            let ghost given = members@;
            let mut out: Vec<(String, Json)> = Vec::new();
            for member in it: members
                invariant
                    model == held(v),
                    model is Object,
                    has_distinct_names(model),
                    model->Object_0.len() == given.len(),
                    forall|k: int|
                        0 <= k < given.len() ==> #[trigger] model->Object_0[k] == (
                            given[k].0@,
                            held(given[k].1),
                        ),
                    it.seq() == given,
                    out@.len() == it.index(),
                    object_model(out@) =~= model->Object_0.take(it.index() as int),
            {
                let ghost n = out@.len() as int;
                assert(member == given[n]);
                let (name, value) = member;
                assert(model->Object_0[n] == (name@, held(value)));
                assert(decreases_to!(model => model->Object_0[n].1));
                let next = (name, value_of(value));
                assert(out@.push(next).drop_last() =~= out@);
                out.push(next);
            }
            assert(model->Object_0.take(given.len() as int) =~= model->Object_0);
            assert(Json::Object(out)@ == model);
            Json::Object(out)
        },
    }
}

/// What a text holds in JSON notation; nothing where it is not JSON.
pub fn parse_json(text: &str) -> (r: Option<Json>)
    ensures
        match r {
            Some(j) => reading(text@) == Some(j@) && has_distinct_names(j@),
            None => reading(text@) is None,
        },
{
    match read_value(text) {
        Ok(v) => Some(value_of(v)),
        Err(_) => None,
    }
}

} // verus!
