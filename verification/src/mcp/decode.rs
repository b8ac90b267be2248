//! Taking arguments out of JSON values: which values fit, and what is said of those that do not.

use vstd::prelude::*;
use vstd::string::*;

use crate::decimal::{digits, push_count, push_integer};
use crate::ieee::scalar::Single;
use crate::json::{find_member, Json, JsonModel};
use crate::json::{lemma_array_model, lemma_object_model, member, object_model};
use crate::rows::rows_view;
use crate::text::same_text;
use crate::json::are_distinct;

verus! {

/// The Rust notation of a text, in quotes, with what is not printable escaped.
pub uninterp spec fn quotation(text: Seq<char>) -> Seq<char>;

/// A text in the notation that `format!` gives it for `{:?}`. It depends on the text alone; what
/// is escaped, and how, takes the tables of printable characters to say.
#[verifier::external_body]
fn quoted(text: &str) -> (r: String)
    ensures
        r@ == quotation(text@),
{
    format!("{:?}", text)
}

/// What an argument has to be.
#[derive(Clone, Copy)]
pub enum Kind {
    Text,
    /// Anything; `null` counts as absent.
    Anything,
    Count,
    Flag,
    Numbers,
    NumberRows,
    /// Rows of numbers; `null` counts as absent.
    OptionalNumberRows,
}

/// An argument: its name, what it has to be, and whether it may be left out where the arguments
/// are the members of an object, and where they are the items of an array.
pub struct Field {
    pub name: &'static str,
    pub kind: Kind,
    pub required_in_object: bool,
    pub required_in_array: bool,
}

pub struct FieldModel {
    pub name: Seq<char>,
    pub kind: Kind,
    pub required_in_object: bool,
    pub required_in_array: bool,
}

impl View for Field {
    type V = FieldModel;

    open spec fn view(&self) -> FieldModel {
        FieldModel {
            name: self.name@,
            kind: self.kind,
            required_in_object: self.required_in_object,
            required_in_array: self.required_in_array,
        }
    }
}

/// A list of arguments under a title.
pub struct Signature {
    pub title: &'static str,
    pub fields: Vec<Field>,
}

pub struct SignatureModel {
    pub title: Seq<char>,
    pub fields: Seq<FieldModel>,
}

impl View for Signature {
    type V = SignatureModel;

    open spec fn view(&self) -> SignatureModel {
        SignatureModel { title: self.title@, fields: self.fields@.map_values(|f: Field| f@) }
    }
}

pub open spec fn signed_digits(n: int) -> Seq<char> {
    if n < 0 {
        "-"@ + digits((-n) as nat)
    } else {
        digits(n as nat)
    }
}

/// What a value is called in a complaint.
pub open spec fn description(j: JsonModel) -> Seq<char> {
    match j {
        JsonModel::Null => "null"@,
        JsonModel::Bool(b) => if b {
            "boolean `true`"@
        } else {
            "boolean `false`"@
        },
        JsonModel::Unsigned(n) => "integer `"@ + digits(n as nat) + "`"@,
        JsonModel::Negative(n) => "integer `"@ + signed_digits(n as int) + "`"@,
        JsonModel::Float { text, .. } => "floating point `"@ + text + "`"@,
        JsonModel::Text(s) => "string "@ + quotation(s),
        JsonModel::Array(_) => "sequence"@,
        JsonModel::Object(_) => "map"@,
    }
}

pub open spec fn wrong_type(j: JsonModel, wanted: Seq<char>) -> Seq<char> {
    "invalid type: "@ + description(j) + ", expected "@ + wanted
}

pub open spec fn wrong_value(j: JsonModel, wanted: Seq<char>) -> Seq<char> {
    "invalid value: "@ + description(j) + ", expected "@ + wanted
}

pub open spec fn is_number(j: JsonModel) -> bool {
    j is Unsigned || j is Negative || j is Float
}

/// What is wrong with a value as a number.
pub open spec fn number_fault(j: JsonModel) -> Option<Seq<char>> {
    if is_number(j) {
        None
    } else {
        Some(wrong_type(j, "f32"@))
    }
}

/// What is wrong with the first item that is not a number.
pub open spec fn first_number_fault(items: Seq<JsonModel>) -> Option<Seq<char>>
    decreases items.len(),
{
    if items.len() == 0 {
        None
    } else {
        match first_number_fault(items.drop_last()) {
            Some(fault) => Some(fault),
            None => number_fault(items.last()),
        }
    }
}

/// What is wrong with a value as a list of numbers.
pub open spec fn numbers_fault(j: JsonModel) -> Option<Seq<char>> {
    match j {
        JsonModel::Array(items) => first_number_fault(items),
        _ => Some(wrong_type(j, "a sequence"@)),
    }
}

/// What is wrong with the first item that is not a list of numbers.
pub open spec fn first_row_fault(items: Seq<JsonModel>) -> Option<Seq<char>>
    decreases items.len(),
{
    if items.len() == 0 {
        None
    } else {
        match first_row_fault(items.drop_last()) {
            Some(fault) => Some(fault),
            None => numbers_fault(items.last()),
        }
    }
}

/// What is wrong with a value as rows of numbers.
pub open spec fn rows_fault(j: JsonModel) -> Option<Seq<char>> {
    match j {
        JsonModel::Array(items) => first_row_fault(items),
        _ => Some(wrong_type(j, "a sequence"@)),
    }
}

/// What is wrong with a value as a count.
pub open spec fn count_fault(j: JsonModel) -> Option<Seq<char>> {
    match j {
        JsonModel::Unsigned(n) => if n <= usize::MAX {
            None
        } else {
            Some(wrong_value(j, "usize"@))
        },
        JsonModel::Negative(n) => if 0 <= n <= usize::MAX {
            None
        } else {
            Some(wrong_value(j, "usize"@))
        },
        _ => Some(wrong_type(j, "usize"@)),
    }
}

/// What is wrong with a value as an argument of some kind.
pub open spec fn fault(kind: Kind, j: JsonModel) -> Option<Seq<char>> {
    match kind {
        Kind::Text => if j is Text {
            None
        } else {
            Some(wrong_type(j, "a string"@))
        },
        Kind::Anything => None,
        Kind::Count => count_fault(j),
        Kind::Flag => if j is Bool {
            None
        } else {
            Some(wrong_type(j, "a boolean"@))
        },
        Kind::Numbers => numbers_fault(j),
        Kind::NumberRows => rows_fault(j),
        Kind::OptionalNumberRows => if j is Null {
            None
        } else {
            rows_fault(j)
        },
    }
}

pub open spec fn wrong_length(n: nat, wanted: Seq<char>) -> Seq<char> {
    "invalid length "@ + digits(n) + ", expected "@ + wanted
}

/// The title and the number of arguments.
pub open spec fn shape(s: SignatureModel) -> Seq<char> {
    "struct "@ + s.title + " with "@ + digits(s.fields.len()) + if s.fields.len() == 1 {
        " element"@
    } else {
        " elements"@
    }
}

/// What is wrong with the first `n` arguments, taken from an array in order.
pub open spec fn items_fault(s: SignatureModel, items: Seq<JsonModel>, n: int) -> Option<Seq<char>>
    decreases n,
{
    if n <= 0 {
        None
    } else {
        match items_fault(s, items, n - 1) {
            Some(fault) => Some(fault),
            None => if n - 1 < items.len() {
                fault(s.fields[n - 1].kind, items[n - 1])
            } else if s.fields[n - 1].required_in_array {
                Some(wrong_length((n - 1) as nat, shape(s)))
            } else {
                None
            },
        }
    }
}

/// Where the argument of a name stands in the list.
pub open spec fn position(fields: Seq<FieldModel>, name: Seq<char>) -> Option<int>
    decreases fields.len(),
{
    if fields.len() == 0 {
        None
    } else {
        match position(fields.drop_last(), name) {
            Some(i) => Some(i),
            None => if fields.last().name == name {
                Some(fields.len() - 1)
            } else {
                None
            },
        }
    }
}

/// What is wrong with the first `n` members of an object: a known name comes twice, or its value
/// does not fit. Unknown names are passed over.
pub open spec fn members_fault(
    s: SignatureModel,
    members: Seq<(Seq<char>, JsonModel)>,
    n: int,
) -> Option<Seq<char>>
    decreases n,
{
    if n <= 0 {
        None
    } else {
        match members_fault(s, members, n - 1) {
            Some(fault) => Some(fault),
            None => match position(s.fields, members[n - 1].0) {
                None => None,
                Some(i) => if member(members.take(n - 1), members[n - 1].0) is Some {
                    Some("duplicate field `"@ + members[n - 1].0 + "`"@)
                } else {
                    fault(s.fields[i].kind, members[n - 1].1)
                },
            },
        }
    }
}

/// The first of the first `n` arguments that an object must have and does not.
pub open spec fn absence(
    s: SignatureModel,
    members: Seq<(Seq<char>, JsonModel)>,
    n: int,
) -> Option<Seq<char>>
    decreases n,
{
    if n <= 0 {
        None
    } else {
        match absence(s, members, n - 1) {
            Some(fault) => Some(fault),
            None => if s.fields[n - 1].required_in_object && member(
                members,
                s.fields[n - 1].name,
            ) is None {
                Some("missing field `"@ + s.fields[n - 1].name + "`"@)
            } else {
                None
            },
        }
    }
}

/// What is wrong with a value as a list of arguments.
pub open spec fn complaint(s: SignatureModel, j: JsonModel) -> Option<Seq<char>> {
    match j {
        JsonModel::Array(items) => match items_fault(s, items, s.fields.len() as int) {
            Some(fault) => Some(fault),
            None => if items.len() > s.fields.len() {
                Some(wrong_length(items.len(), "fewer elements in array"@))
            } else {
                None
            },
        },
        JsonModel::Object(members) => match members_fault(s, members, members.len() as int) {
            Some(fault) => Some(fault),
            None => absence(s, members, s.fields.len() as int),
        },
        _ => Some(wrong_type(j, "struct "@ + s.title)),
    }
}

/// The value that is given for argument `i`.
pub open spec fn argument(s: SignatureModel, j: JsonModel, i: int) -> Option<JsonModel> {
    match j {
        JsonModel::Array(items) => if i < items.len() {
            Some(items[i])
        } else {
            None
        },
        JsonModel::Object(members) => member(members, s.fields[i].name),
        _ => None,
    }
}

/// Whether an outcome is what a complaint says, if there is one.
pub open spec fn reports(r: Result<(), String>, complaint: Option<Seq<char>>) -> bool {
    match complaint {
        Some(text) => r matches Err(m) && m@ == text,
        None => r is Ok,
    }
}

fn describe(j: &Json) -> (r: String)
    ensures
        r@ == description(j@),
{
    match j {
        Json::Null => "null".to_owned(),
        Json::Bool(b) => if *b {
            "boolean `true`".to_owned()
        } else {
            "boolean `false`".to_owned()
        },
        Json::Unsigned(n) => {
            let mut t = "integer `".to_owned();
            push_integer(&mut t, *n as u128);
            t.append("`");
            t
        },
        Json::Negative(n) => {
            let mut t = "integer `".to_owned();
            if *n < 0 {
                let size = (-(*n as i128)) as u128;
                let mut d = "-".to_owned();
                push_integer(&mut d, size);
                t.append(&d);
            } else {
                push_integer(&mut t, *n as u128);
            }
            t.append("`");
            t
        },
        Json::Float { text, .. } => {
            let mut t = "floating point `".to_owned();
            t.append(text);
            t.append("`");
            t
        },
        Json::Text(s) => {
            let mut t = "string ".to_owned();
            t.append(&quoted(s));
            t
        },
        Json::Array(_) => "sequence".to_owned(),
        Json::Object(_) => "map".to_owned(),
    }
}

/// The complaint about a value that is of the wrong type, `found` being what it is called.
pub fn type_complaint(found: &str, wanted: &str) -> (r: String)
    ensures
        r@ == "invalid type: "@ + found@ + ", expected "@ + wanted@,
{
    let mut t = "invalid type: ".to_owned();
    t.append(found);
    t.append(", expected ");
    t.append(wanted);
    t
}

fn value_complaint(j: &Json, wanted: &str) -> (r: String)
    ensures
        r@ == wrong_value(j@, wanted@),
{
    let mut t = "invalid value: ".to_owned();
    t.append(&describe(j));
    t.append(", expected ");
    t.append(wanted);
    t
}

fn check_number(j: &Json) -> (r: Result<(), String>)
    ensures
        reports(r, number_fault(j@)),
{
    match j {
        Json::Unsigned(_) => Ok(()),
        Json::Negative(_) => Ok(()),
        Json::Float { .. } => Ok(()),
        _ => Err(type_complaint(&describe(j), "f32")),
    }
}

fn check_numbers(j: &Json) -> (r: Result<(), String>)
    ensures
        reports(r, numbers_fault(j@)),
{
    match j {
        Json::Array(items) => {
            let ghost models = j@->Array_0;
            proof {
                lemma_array_model(items@);
            }
            let mut i: usize = 0;
            assert(models.take(0) =~= seq![]);
            while i < items.len()
                invariant
                    i <= items@.len() == models.len(),
                    j@ == JsonModel::Array(models),
                    forall|k: int| 0 <= k < models.len() ==> #[trigger] models[k] == items@[k]@,
                    first_number_fault(models.take(i as int)) is None,
                decreases items@.len() - i,
            {
                assert(models.take(i + 1).drop_last() =~= models.take(i as int));
                assert(models[i as int] == items@[i as int]@);
                let r = check_number(&items[i]);
                if r.is_err() {
                    proof {
                        lemma_first_number_fault(models, i as int);
                    }
                    return r;
                }
                i = i + 1;
            }
            assert(models.take(i as int) =~= models);
            Ok(())
        },
        _ => Err(type_complaint(&describe(j), "a sequence")),
    }
}

proof fn lemma_first_number_fault(items: Seq<JsonModel>, i: int)
    requires
        0 <= i < items.len(),
        first_number_fault(items.take(i)) is None,
        number_fault(items[i]) is Some,
    ensures
        first_number_fault(items) == number_fault(items[i]),
    decreases items.len(),
{
    if i == items.len() - 1 {
        assert(items.take(i) =~= items.drop_last());
    } else {
        assert(items.drop_last().take(i) =~= items.take(i));
        lemma_first_number_fault(items.drop_last(), i);
    }
}

fn check_rows(j: &Json) -> (r: Result<(), String>)
    ensures
        reports(r, rows_fault(j@)),
{
    match j {
        Json::Array(items) => {
            let ghost models = j@->Array_0;
            proof {
                lemma_array_model(items@);
            }
            let mut i: usize = 0;
            assert(models.take(0) =~= seq![]);
            while i < items.len()
                invariant
                    i <= items@.len() == models.len(),
                    j@ == JsonModel::Array(models),
                    forall|k: int| 0 <= k < models.len() ==> #[trigger] models[k] == items@[k]@,
                    first_row_fault(models.take(i as int)) is None,
                decreases items@.len() - i,
            {
                assert(models.take(i + 1).drop_last() =~= models.take(i as int));
                assert(models[i as int] == items@[i as int]@);
                let r = check_numbers(&items[i]);
                if r.is_err() {
                    proof {
                        lemma_first_row_fault(models, i as int);
                    }
                    return r;
                }
                i = i + 1;
            }
            assert(models.take(i as int) =~= models);
            Ok(())
        },
        _ => Err(type_complaint(&describe(j), "a sequence")),
    }
}

proof fn lemma_first_row_fault(items: Seq<JsonModel>, i: int)
    requires
        0 <= i < items.len(),
        first_row_fault(items.take(i)) is None,
        numbers_fault(items[i]) is Some,
    ensures
        first_row_fault(items) == numbers_fault(items[i]),
    decreases items.len(),
{
    if i == items.len() - 1 {
        assert(items.take(i) =~= items.drop_last());
    } else {
        assert(items.drop_last().take(i) =~= items.take(i));
        lemma_first_row_fault(items.drop_last(), i);
    }
}

fn check_count(j: &Json) -> (r: Result<(), String>)
    ensures
        reports(r, count_fault(j@)),
{
    match j {
        Json::Unsigned(n) => if *n <= usize::MAX as u64 {
            Ok(())
        } else {
            Err(value_complaint(j, "usize"))
        },
        Json::Negative(n) => if *n >= 0 && *n as u64 <= usize::MAX as u64 {
            Ok(())
        } else {
            Err(value_complaint(j, "usize"))
        },
        _ => Err(type_complaint(&describe(j), "usize")),
    }
}

fn check_value(kind: Kind, j: &Json) -> (r: Result<(), String>)
    ensures
        reports(r, fault(kind, j@)),
{
    match kind {
        Kind::Text => match j {
            Json::Text(_) => Ok(()),
            _ => Err(type_complaint(&describe(j), "a string")),
        },
        Kind::Anything => Ok(()),
        Kind::Count => check_count(j),
        Kind::Flag => match j {
            Json::Bool(_) => Ok(()),
            _ => Err(type_complaint(&describe(j), "a boolean")),
        },
        Kind::Numbers => check_numbers(j),
        Kind::NumberRows => check_rows(j),
        Kind::OptionalNumberRows => match j {
            Json::Null => Ok(()),
            _ => check_rows(j),
        },
    }
}

fn length_complaint(n: usize, wanted: &str) -> (r: String)
    ensures
        r@ == wrong_length(n as nat, wanted@),
{
    let mut t = "invalid length ".to_owned();
    push_count(&mut t, n);
    t.append(", expected ");
    t.append(wanted);
    t
}

fn check_items(s: &Signature, items: &Vec<Json>) -> (r: Result<(), String>)
    ensures
        reports(r, complaint(s@, Json::Array(*items)@)),
{
    let ghost models = Json::Array(*items)@->Array_0;
    proof {
        lemma_array_model(items@);
    }
    let mut i: usize = 0;
    while i < s.fields.len()
        invariant
            i <= s.fields@.len(),
            models.len() == items@.len(),
            models == Json::Array(*items)@->Array_0,
            forall|k: int| 0 <= k < models.len() ==> #[trigger] models[k] == items@[k]@,
            items_fault(s@, models, i as int) is None,
        decreases s.fields@.len() - i,
    {
        let field = &s.fields[i];
        assert(s@.fields[i as int] == field@);
        if i < items.len() {
            assert(models[i as int] == items@[i as int]@);
            let r = check_value(field.kind, &items[i]);
            if r.is_err() {
                proof {
                    lemma_items_fault(s@, models, i + 1, s@.fields.len() as int);
                }
                return r;
            }
        } else if field.required_in_array {
            let mut wanted = "struct ".to_owned();
            wanted.append(s.title);
            wanted.append(" with ");
            push_count(&mut wanted, s.fields.len());
            wanted.append(
                if s.fields.len() == 1 {
                    " element"
                } else {
                    " elements"
                },
            );
            proof {
                lemma_items_fault(s@, models, i + 1, s@.fields.len() as int);
            }
            return Err(length_complaint(i, &wanted));
        }
        i = i + 1;
    }
    if items.len() > s.fields.len() {
        return Err(length_complaint(items.len(), "fewer elements in array"));
    }
    Ok(())
}

proof fn lemma_items_fault(s: SignatureModel, items: Seq<JsonModel>, n: int, m: int)
    requires
        items_fault(s, items, n) is Some,
        n <= m,
    ensures
        items_fault(s, items, m) == items_fault(s, items, n),
    decreases m - n,
{
    if n < m {
        lemma_items_fault(s, items, n, m - 1);
    }
}

proof fn lemma_members_fault(
    s: SignatureModel,
    members: Seq<(Seq<char>, JsonModel)>,
    n: int,
    m: int,
)
    requires
        members_fault(s, members, n) is Some,
        n <= m,
    ensures
        members_fault(s, members, m) == members_fault(s, members, n),
    decreases m - n,
{
    if n < m {
        lemma_members_fault(s, members, n, m - 1);
    }
}

proof fn lemma_absence(s: SignatureModel, members: Seq<(Seq<char>, JsonModel)>, n: int, m: int)
    requires
        absence(s, members, n) is Some,
        n <= m,
    ensures
        absence(s, members, m) == absence(s, members, n),
    decreases m - n,
{
    if n < m {
        lemma_absence(s, members, n, m - 1);
    }
}

fn find_field(s: &Signature, name: &str) -> (r: Option<usize>)
    ensures
        match r {
            Some(i) => i < s.fields@.len() && position(s@.fields, name@) == Some(i as int),
            None => position(s@.fields, name@) is None,
        },
{
    let ghost fields = s@.fields;
    let mut found: Option<usize> = None;
    let mut i: usize = 0;
    while i < s.fields.len()
        invariant
            i <= s.fields@.len() == fields.len(),
            fields == s@.fields,
            match found {
                Some(k) => k < i && position(fields.take(i as int), name@) == Some(k as int),
                None => position(fields.take(i as int), name@) is None,
            },
        decreases s.fields@.len() - i,
    {
        assert(fields.take(i + 1).drop_last() =~= fields.take(i as int));
        assert(fields[i as int] == s.fields@[i as int]@);
        if found.is_none() && same_text(s.fields[i].name, name) {
            found = Some(i);
        }
        i = i + 1;
    }
    assert(fields.take(i as int) =~= fields);
    found
}

fn check_members(s: &Signature, members: &Vec<(String, Json)>) -> (r: Result<(), String>)
    ensures
        reports(r, complaint(s@, Json::Object(*members)@)),
{
    let ghost models = Json::Object(*members)@->Object_0;
    proof {
        lemma_object_model(members@);
    }
    let mut i: usize = 0;
    while i < members.len()
        invariant
            i <= members@.len() == models.len(),
            models == object_model(members@),
            models == Json::Object(*members)@->Object_0,
            forall|k: int|
                0 <= k < models.len() ==> #[trigger] models[k] == (members@[k].0@, members@[k].1@),
            members_fault(s@, models, i as int) is None,
        decreases members@.len() - i,
    {
        let name = &members[i].0;
        assert(models[i as int] == (members@[i as int].0@, members@[i as int].1@));
        if let Some(k) = find_field(s, name) {
            assert(s@.fields[k as int] == s.fields@[k as int]@);
            if find_member(members, name, i).is_some() {
                let mut t = "duplicate field `".to_owned();
                t.append(name);
                t.append("`");
                proof {
                    lemma_members_fault(s@, models, i + 1, models.len() as int);
                }
                return Err(t);
            }
            let r = check_value(s.fields[k].kind, &members[i].1);
            if r.is_err() {
                proof {
                    lemma_members_fault(s@, models, i + 1, models.len() as int);
                }
                return r;
            }
        }
        i = i + 1;
    }
    let mut n: usize = 0;
    assert(models.take(models.len() as int) =~= models);
    while n < s.fields.len()
        invariant
            n <= s.fields@.len(),
            models.len() == members@.len(),
            models == object_model(members@),
            models == Json::Object(*members)@->Object_0,
            models.take(models.len() as int) == models,
            members_fault(s@, models, models.len() as int) is None,
            absence(s@, models, n as int) is None,
        decreases s.fields@.len() - n,
    {
        let field = &s.fields[n];
        assert(s@.fields[n as int] == field@);
        if field.required_in_object && find_member(members, field.name, members.len()).is_none() {
            let mut t = "missing field `".to_owned();
            t.append(field.name);
            t.append("`");
            proof {
                lemma_absence(s@, models, n + 1, s@.fields.len() as int);
            }
            return Err(t);
        }
        n = n + 1;
    }
    Ok(())
}

/// Whether a value can be taken as the arguments of a signature, or else what is wrong with it.
pub fn check_arguments(s: &Signature, j: &Json) -> (r: Result<(), String>)
    ensures
        reports(r, complaint(s@, j@)),
{
    match j {
        Json::Array(items) => check_items(s, items),
        Json::Object(members) => check_members(s, members),
        _ => {
            let mut wanted = "struct ".to_owned();
            wanted.append(s.title);
            Err(type_complaint(&describe(j), &wanted))
        },
    }
}

/// The value that is given for argument `i`.
pub fn find_argument<'a>(s: &Signature, j: &'a Json, i: usize) -> (r: Option<&'a Json>)
    requires
        i < s.fields@.len(),
    ensures
        match r {
            Some(v) => argument(s@, j@, i as int) == Some(v@),
            None => argument(s@, j@, i as int) is None,
        },
{
    match j {
        Json::Array(items) => {
            proof {
                lemma_array_model(items@);
            }
            if i < items.len() {
                Some(&items[i])
            } else {
                None
            }
        },
        Json::Object(members) => {
            assert(s@.fields[i as int] == s.fields@[i as int]@);
            proof {
                lemma_object_model(members@);
                assert(object_model(members@).take(members@.len() as int) =~= object_model(
                    members@,
                ));
            }
            match find_member(members, s.fields[i].name, members.len()) {
                Some(k) => Some(&members[k].1),
                None => None,
            }
        },
        _ => None,
    }
}

/// The number nearest to what a value says.
pub open spec fn number_in(j: JsonModel) -> Single {
    match j {
        JsonModel::Unsigned(n) => Single::from_integer_spec(n as int),
        JsonModel::Negative(n) => Single::from_integer_spec(n as int),
        JsonModel::Float { value, .. } => value.narrowed(),
        _ => Single::zero(),
    }
}

/// The numbers of a list.
pub open spec fn numbers_in(j: JsonModel) -> Seq<Single> {
    match j {
        JsonModel::Array(items) => items.map_values(|x: JsonModel| number_in(x)),
        _ => seq![],
    }
}

/// The rows of numbers of a list of lists.
pub open spec fn rows_in(j: JsonModel) -> Seq<Seq<Single>> {
    match j {
        JsonModel::Array(items) => items.map_values(|x: JsonModel| numbers_in(x)),
        _ => seq![],
    }
}

/// The count that a value says.
pub open spec fn count_in(j: JsonModel) -> int {
    match j {
        JsonModel::Unsigned(n) => n as int,
        JsonModel::Negative(n) => n as int,
        _ => 0,
    }
}

fn number_from(j: &Json) -> (r: Single)
    ensures
        r == number_in(j@),
{
    match j {
        Json::Unsigned(n) => Single::from_unsigned(*n),
        Json::Negative(n) => Single::from_signed(*n),
        Json::Float { value, .. } => value.narrowed(),
        _ => Single::zero(),
    }
}

pub fn numbers_from(j: &Json) -> (r: Vec<Single>)
    ensures
        r@ == numbers_in(j@),
{
    let mut r: Vec<Single> = Vec::new();
    match j {
        Json::Array(items) => {
            proof {
                lemma_array_model(items@);
            }
            let mut i: usize = 0;
            while i < items.len()
                invariant
                    i <= items@.len(),
                    r@.len() == i,
                    forall|k: int| 0 <= k < i ==> r@[k] == number_in(items@[k]@),
                decreases items@.len() - i,
            {
                r.push(number_from(&items[i]));
                i = i + 1;
            }
        },
        _ => {},
    }
    assert(r@ =~= numbers_in(j@));
    r
}

pub fn rows_from(j: &Json) -> (r: Vec<Vec<Single>>)
    ensures
        rows_view(r@) == rows_in(j@),
{
    let mut r: Vec<Vec<Single>> = Vec::new();
    match j {
        Json::Array(items) => {
            proof {
                lemma_array_model(items@);
            }
            let mut i: usize = 0;
            while i < items.len()
                invariant
                    i <= items@.len(),
                    r@.len() == i,
                    forall|k: int| 0 <= k < i ==> (#[trigger] r@[k])@ == numbers_in(items@[k]@),
                decreases items@.len() - i,
            {
                r.push(numbers_from(&items[i]));
                i = i + 1;
            }
        },
        _ => {},
    }
    assert(rows_view(r@) =~= rows_in(j@));
    r
}

/// The count that a value says.
pub fn count_from(j: &Json) -> (r: usize)
    requires
        count_fault(j@) is None,
    ensures
        r == count_in(j@),
{
    match j {
        Json::Unsigned(n) => *n as usize,
        Json::Negative(n) => *n as usize,
        _ => 0,
    }
}

/// A value reads as a number.
pub open spec fn says_number(j: JsonModel) -> bool {
    j is Unsigned || j is Negative || j is Float
}

/// A value reads as a list of numbers.
pub open spec fn says_numbers(j: JsonModel) -> bool {
    j is Array && forall|i: int| 0 <= i < j->Array_0.len() ==> says_number(#[trigger] j->Array_0[i])
}

/// A value reads as a list of lists of numbers.
pub open spec fn says_rows(j: JsonModel) -> bool {
    j is Array && forall|i: int| 0 <= i < j->Array_0.len() ==> says_numbers(#[trigger] j->Array_0[i])
}

proof fn lemma_numbers_fit(items: Seq<JsonModel>)
    ensures
        first_number_fault(items) is None <==> forall|i: int|
            0 <= i < items.len() ==> says_number(#[trigger] items[i]),
    decreases items.len(),
{
    if items.len() > 0 {
        let t = items.drop_last();
        lemma_numbers_fit(t);
        let n = items.len() - 1;
        if forall|i: int| 0 <= i < items.len() ==> says_number(#[trigger] items[i]) {
            assert(says_number(items[n]));
            assert forall|i: int| 0 <= i < t.len() implies says_number(#[trigger] t[i]) by {
                assert(says_number(items[i]));
            }
        }
        if first_number_fault(items) is None {
            assert forall|i: int| 0 <= i < items.len() implies says_number(#[trigger] items[i]) by {
                if i < n {
                    assert(says_number(t[i]));
                }
            }
        }
    }
}

proof fn lemma_rows_fit(items: Seq<JsonModel>)
    ensures
        first_row_fault(items) is None <==> forall|i: int|
            0 <= i < items.len() ==> says_numbers(#[trigger] items[i]),
    decreases items.len(),
{
    if items.len() > 0 {
        let t = items.drop_last();
        lemma_rows_fit(t);
        let n = items.len() - 1;
        if items[n] is Array {
            lemma_numbers_fit(items[n]->Array_0);
        }
        if forall|i: int| 0 <= i < items.len() ==> says_numbers(#[trigger] items[i]) {
            assert(says_numbers(items[n]));
            assert forall|i: int| 0 <= i < t.len() implies says_numbers(#[trigger] t[i]) by {
                assert(says_numbers(items[i]));
            }
        }
        if first_row_fault(items) is None {
            assert forall|i: int| 0 <= i < items.len() implies says_numbers(
                #[trigger] items[i],
            ) by {
                if i < n {
                    assert(says_numbers(t[i]));
                }
            }
        }
    }
}

/// Which values fit: a text as a text, a switch as a switch, a whole number that is not negative and
/// that the machine can count to as a count, a list of nothing but numbers as numbers, a list of such
/// lists as rows, and anything at all where anything goes.
pub proof fn law_values_that_fit(kind: Kind, j: JsonModel)
    ensures
        fault(kind, j) is None <==> match kind {
            Kind::Text => j is Text,
            Kind::Anything => true,
            Kind::Count => (j is Unsigned && j->Unsigned_0 <= usize::MAX) || (j is Negative && 0
                <= j->Negative_0 <= usize::MAX),
            Kind::Flag => j is Bool,
            Kind::Numbers => says_numbers(j),
            Kind::NumberRows => says_rows(j),
            Kind::OptionalNumberRows => j is Null || says_rows(j),
        },
{
    if j is Array {
        lemma_numbers_fit(j->Array_0);
        lemma_rows_fit(j->Array_0);
    }
}

/// What values say: a whole number is read as the number nearest to it, a fraction is narrowed, and
/// lists are read item by item, in order.
pub proof fn law_numbers_are_read_in_order(j: JsonModel, i: int, k: int)
    ensures
        j is Unsigned ==> number_in(j) == Single::from_integer_spec(j->Unsigned_0 as int)
            && count_in(j) == j->Unsigned_0,
        j is Negative ==> number_in(j) == Single::from_integer_spec(j->Negative_0 as int)
            && count_in(j) == j->Negative_0,
        j is Float ==> number_in(j) == j->value.narrowed(),
        j is Array ==> numbers_in(j).len() == j->Array_0.len() && rows_in(j).len()
            == j->Array_0.len(),
        j is Array && 0 <= i < j->Array_0.len() ==> numbers_in(j)[i] == number_in(j->Array_0[i]),
        j is Array && 0 <= i < j->Array_0.len() && j->Array_0[i] is Array && 0 <= k
            < j->Array_0[i]->Array_0.len() ==> rows_in(j)[i].len() == j->Array_0[i]->Array_0.len()
            && rows_in(j)[i][k] == number_in(j->Array_0[i]->Array_0[k]),
{
}

proof fn lemma_member_is(members: Seq<(Seq<char>, JsonModel)>, k: int)
    requires
        are_distinct(members),
        0 <= k < members.len(),
    ensures
        member(members, members[k].0) == Some(members[k].1),
    decreases members.len(),
{
    let t = members.drop_last();
    let n = members.len() - 1;
    assert(are_distinct(t)) by {
        assert forall|a: int, b: int| 0 <= a < b < t.len() implies (#[trigger] t[a]).0 != (
        #[trigger] t[b]).0 by {
            assert(members[a].0 != members[b].0);
        }
    }
    if k < n {
        lemma_member_is(t, k);
        assert(t[k] == members[k]);
    } else {
        assert forall|i: int| 0 <= i < t.len() implies (#[trigger] t[i]).0 != members[n].0 by {
            assert(members[i].0 != members[n].0);
        }
        lemma_member_absent(t, members[n].0);
    }
}

proof fn lemma_member_absent(members: Seq<(Seq<char>, JsonModel)>, name: Seq<char>)
    requires
        forall|i: int| 0 <= i < members.len() ==> (#[trigger] members[i]).0 != name,
    ensures
        member(members, name) is None,
    decreases members.len(),
{
    if members.len() > 0 {
        let t = members.drop_last();
        assert forall|i: int| 0 <= i < t.len() implies (#[trigger] t[i]).0 != name by {
            assert(members[i].0 != name);
        }
        lemma_member_absent(t, name);
        assert(members[members.len() - 1].0 != name);
    }
}

/// A member of an object is found under its name, and a name that no member has under none.
pub proof fn law_member_is_found(members: Seq<(Seq<char>, JsonModel)>, name: Seq<char>)
    requires
        are_distinct(members),
    ensures
        forall|k: int|
            0 <= k < members.len() && (#[trigger] members[k]).0 == name ==> member(members, name)
                == Some(members[k].1),
        (forall|k: int| 0 <= k < members.len() ==> (#[trigger] members[k]).0 != name) ==> member(
            members,
            name,
        ) is None,
{
    assert forall|k: int| 0 <= k < members.len() && (#[trigger] members[k]).0 == name implies member(
        members,
        name,
    ) == Some(members[k].1) by {
        lemma_member_is(members, k);
    }
    if forall|k: int| 0 <= k < members.len() ==> (#[trigger] members[k]).0 != name {
        lemma_member_absent(members, name);
    }
}

/// No two arguments of a signature have the same name.
pub open spec fn has_distinct_fields(s: SignatureModel) -> bool {
    forall|a: int, b: int|
        0 <= a < b < s.fields.len() ==> (#[trigger] s.fields[a]).name != (
        #[trigger] s.fields[b]).name
}

proof fn lemma_position_is(fields: Seq<FieldModel>, name: Seq<char>)
    ensures
        match position(fields, name) {
            Some(i) => 0 <= i < fields.len() && fields[i].name == name,
            None => forall|i: int| 0 <= i < fields.len() ==> (#[trigger] fields[i]).name != name,
        },
    decreases fields.len(),
{
    if fields.len() > 0 {
        let t = fields.drop_last();
        lemma_position_is(t, name);
        if position(fields, name) is None {
            assert forall|i: int| 0 <= i < fields.len() implies (#[trigger] fields[i]).name
                != name by {
                if i < t.len() {
                    assert(t[i].name != name);
                }
            }
        }
    }
}

proof fn lemma_members_fit(s: SignatureModel, members: Seq<(Seq<char>, JsonModel)>, n: int)
    requires
        has_distinct_fields(s),
        are_distinct(members),
        0 <= n <= members.len(),
    ensures
        members_fault(s, members, n) is None <==> forall|k: int, i: int|
            0 <= k < n && 0 <= i < s.fields.len() && (#[trigger] members[k]).0 == (
            #[trigger] s.fields[i]).name ==> fault(s.fields[i].kind, members[k].1) is None,
    decreases n,
{
    if n > 0 {
        lemma_members_fit(s, members, n - 1);
        let name = members[n - 1].0;
        lemma_position_is(s.fields, name);
        let before = members.take(n - 1);
        assert forall|i: int| 0 <= i < before.len() implies (#[trigger] before[i]).0 != name by {
            assert(members[i].0 != members[n - 1].0);
        }
        lemma_member_absent(before, name);
        if members_fault(s, members, n) is None {
            assert forall|k: int, i: int|
                0 <= k < n && 0 <= i < s.fields.len() && (#[trigger] members[k]).0 == (
                #[trigger] s.fields[i]).name implies fault(s.fields[i].kind, members[k].1) is None by {
                if k == n - 1 {
                    let p = position(s.fields, name)->Some_0;
                    if i < p {
                        assert(s.fields[i].name != s.fields[p].name);
                    } else if p < i {
                        assert(s.fields[p].name != s.fields[i].name);
                    }
                }
            }
        }
        if forall|k: int, i: int|
            0 <= k < n && 0 <= i < s.fields.len() && (#[trigger] members[k]).0 == (
            #[trigger] s.fields[i]).name ==> fault(s.fields[i].kind, members[k].1) is None {
            if let Some(p) = position(s.fields, name) {
                assert(members[n - 1].0 == s.fields[p].name);
            }
        }
    }
}

proof fn lemma_all_present(s: SignatureModel, members: Seq<(Seq<char>, JsonModel)>, n: int)
    requires
        are_distinct(members),
        0 <= n <= s.fields.len(),
    ensures
        absence(s, members, n) is None <==> forall|i: int|
            0 <= i < n && (#[trigger] s.fields[i]).required_in_object ==> exists|k: int|
                0 <= k < members.len() && (#[trigger] members[k]).0 == s.fields[i].name,
    decreases n,
{
    if n > 0 {
        lemma_all_present(s, members, n - 1);
        law_member_is_found(members, s.fields[n - 1].name);
    }
}

/// An object is accepted as arguments exactly where every member that has the name of an argument fits
/// it and every argument that must be there has a member; members of other names are passed over. The
/// value of an argument is that of the member of its name.
pub proof fn law_objects_as_arguments(
    s: SignatureModel,
    members: Seq<(Seq<char>, JsonModel)>,
    i: int,
)
    requires
        has_distinct_fields(s),
        are_distinct(members),
        0 <= i < s.fields.len(),
    ensures
        complaint(s, JsonModel::Object(members)) is None <==> (forall|k: int, m: int|
            0 <= k < members.len() && 0 <= m < s.fields.len() && (#[trigger] members[k]).0 == (
            #[trigger] s.fields[m]).name ==> fault(s.fields[m].kind, members[k].1) is None) && (
        forall|m: int|
            0 <= m < s.fields.len() && (#[trigger] s.fields[m]).required_in_object ==> exists|k: int|
                0 <= k < members.len() && (#[trigger] members[k]).0 == s.fields[m].name),
        forall|k: int|
            0 <= k < members.len() && (#[trigger] members[k]).0 == s.fields[i].name ==> argument(
                s,
                JsonModel::Object(members),
                i,
            ) == Some(members[k].1),
        (forall|k: int| 0 <= k < members.len() ==> (#[trigger] members[k]).0 != s.fields[i].name)
            ==> argument(s, JsonModel::Object(members), i) is None,
{
    lemma_members_fit(s, members, members.len() as int);
    lemma_all_present(s, members, s.fields.len() as int);
    law_member_is_found(members, s.fields[i].name);
}

/// A list is accepted as arguments exactly where each item fits the argument of its place, there are no
/// more items than arguments, and no argument that must be there is missing. The value of an argument is
/// the item of its place.
pub proof fn law_lists_as_arguments(s: SignatureModel, items: Seq<JsonModel>, i: int)
    requires
        0 <= i < s.fields.len(),
    ensures
        complaint(s, JsonModel::Array(items)) is None <==> items.len() <= s.fields.len() && (forall|
            m: int,
        |
            0 <= m < items.len() && m < s.fields.len() ==> fault(
                (#[trigger] s.fields[m]).kind,
                items[m],
            ) is None) && (forall|m: int|
            items.len() <= m < s.fields.len() ==> !(#[trigger] s.fields[m]).required_in_array),
        i < items.len() ==> argument(s, JsonModel::Array(items), i) == Some(items[i]),
        i >= items.len() ==> argument(s, JsonModel::Array(items), i) is None,
{
    lemma_items_fit(s, items, s.fields.len() as int);
}

proof fn lemma_items_fit(s: SignatureModel, items: Seq<JsonModel>, n: int)
    requires
        0 <= n <= s.fields.len(),
    ensures
        items_fault(s, items, n) is None <==> (forall|m: int|
            0 <= m < items.len() && m < n ==> fault(
                (#[trigger] s.fields[m]).kind,
                items[m],
            ) is None) && (forall|m: int|
            items.len() <= m < n ==> !(#[trigger] s.fields[m]).required_in_array),
    decreases n,
{
    if n > 0 {
        lemma_items_fit(s, items, n - 1);
        let f = s.fields[n - 1];
    }
}

/// What is said of a value that does not fit: what it is, and what was expected.
pub proof fn law_words_of_complaints(j: JsonModel, wanted: Seq<char>)
    ensures
        ({
            let said = match j {
                JsonModel::Null => "null"@,
                JsonModel::Bool(b) => if b {
                    "boolean `true`"@
                } else {
                    "boolean `false`"@
                },
                JsonModel::Unsigned(n) => "integer `"@ + digits(n as nat) + "`"@,
                JsonModel::Negative(n) => if n < 0 {
                    "integer `"@ + ("-"@ + digits((-n) as nat)) + "`"@
                } else {
                    "integer `"@ + digits(n as nat) + "`"@
                },
                JsonModel::Float { value, text } => "floating point `"@ + text + "`"@,
                JsonModel::Text(s) => "string "@ + quotation(s),
                JsonModel::Array(_) => "sequence"@,
                JsonModel::Object(_) => "map"@,
            };
            &&& wrong_type(j, wanted) == "invalid type: "@ + said + ", expected "@ + wanted
            &&& wrong_value(j, wanted) == "invalid value: "@ + said + ", expected "@ + wanted
            &&& !(j is Text) ==> fault(Kind::Text, j) == Some(
                "invalid type: "@ + said + ", expected "@ + "a string"@,
            )
            &&& !(j is Bool) ==> fault(Kind::Flag, j) == Some(
                "invalid type: "@ + said + ", expected "@ + "a boolean"@,
            )
            &&& !(j is Array) ==> fault(Kind::Numbers, j) == Some(
                "invalid type: "@ + said + ", expected "@ + "a sequence"@,
            )
        }),
{
}

/// The first item that is no number is the one that is named.
pub proof fn law_first_wrong_item_is_named(items: Seq<JsonModel>, i: int)
    requires
        0 <= i < items.len(),
        !says_number(items[i]),
        forall|k: int| 0 <= k < i ==> says_number(#[trigger] items[k]),
    ensures
        numbers_fault(JsonModel::Array(items)) == Some(wrong_type(items[i], "f32"@)),
    decreases items.len(),
{
    let t = items.drop_last();
    if i < t.len() {
        assert forall|k: int| 0 <= k < i implies says_number(#[trigger] t[k]) by {
            assert(says_number(items[k]));
        }
        law_first_wrong_item_is_named(t, i);
        assert(t[i] == items[i]);
    } else {
        lemma_numbers_fit(t);
        assert forall|k: int| 0 <= k < t.len() implies says_number(#[trigger] t[k]) by {
            assert(says_number(items[k]));
        }
    }
}

/// An object whose members all fit lacks the first argument, in the order of the list, that must be there
/// and that no member names.
pub proof fn law_first_missing_argument_is_named(
    s: SignatureModel,
    members: Seq<(Seq<char>, JsonModel)>,
    i: int,
)
    requires
        has_distinct_fields(s),
        are_distinct(members),
        0 <= i < s.fields.len(),
        forall|k: int, m: int|
            0 <= k < members.len() && 0 <= m < s.fields.len() && (#[trigger] members[k]).0 == (
            #[trigger] s.fields[m]).name ==> fault(s.fields[m].kind, members[k].1) is None,
        s.fields[i].required_in_object,
        forall|k: int| 0 <= k < members.len() ==> (#[trigger] members[k]).0 != s.fields[i].name,
        forall|m: int|
            0 <= m < i && (#[trigger] s.fields[m]).required_in_object ==> exists|k: int|
                0 <= k < members.len() && (#[trigger] members[k]).0 == s.fields[m].name,
    ensures
        complaint(s, JsonModel::Object(members)) == Some(
            "missing field `"@ + s.fields[i].name + "`"@,
        ),
{
    lemma_members_fit(s, members, members.len() as int);
    lemma_all_present(s, members, i);
    law_member_is_found(members, s.fields[i].name);
    lemma_absence_stays(s, members, i, s.fields.len() as int);
}

proof fn lemma_absence_stays(
    s: SignatureModel,
    members: Seq<(Seq<char>, JsonModel)>,
    i: int,
    n: int,
)
    requires
        0 <= i < n <= s.fields.len(),
        absence(s, members, i) is None,
        s.fields[i].required_in_object,
        member(members, s.fields[i].name) is None,
    ensures
        absence(s, members, n) == Some("missing field `"@ + s.fields[i].name + "`"@),
    decreases n,
{
    if n > i + 1 {
        lemma_absence_stays(s, members, i, n - 1);
    }
}

/// Of the members of an object the first one that does not fit its argument is the one that is
/// complained of, before anything that is missing.
pub proof fn law_first_wrong_member_is_named(
    s: SignatureModel,
    members: Seq<(Seq<char>, JsonModel)>,
    k: int,
    i: int,
)
    requires
        has_distinct_fields(s),
        are_distinct(members),
        0 <= k < members.len(),
        0 <= i < s.fields.len(),
        members[k].0 == s.fields[i].name,
        fault(s.fields[i].kind, members[k].1) is Some,
        forall|a: int, m: int|
            0 <= a < k && 0 <= m < s.fields.len() && (#[trigger] members[a]).0 == (
            #[trigger] s.fields[m]).name ==> fault(s.fields[m].kind, members[a].1) is None,
    ensures
        complaint(s, JsonModel::Object(members)) == fault(s.fields[i].kind, members[k].1),
{
    lemma_members_fit(s, members, k);
    lemma_position_is(s.fields, members[k].0);
    let p = position(s.fields, members[k].0)->Some_0;
    if i < p {
        assert(s.fields[i].name != s.fields[p].name);
    } else if p < i {
        assert(s.fields[p].name != s.fields[i].name);
    }
    let before = members.take(k);
    assert forall|a: int| 0 <= a < before.len() implies (#[trigger] before[a]).0 != members[k].0 by {
        assert(members[a].0 != members[k].0);
    }
    lemma_member_absent(before, members[k].0);
    lemma_fault_stays(s, members, k + 1, members.len() as int);
}

proof fn lemma_fault_stays(s: SignatureModel, members: Seq<(Seq<char>, JsonModel)>, m: int, n: int)
    requires
        0 <= m <= n <= members.len(),
        members_fault(s, members, m) is Some,
    ensures
        members_fault(s, members, n) == members_fault(s, members, m),
    decreases n,
{
    if n > m {
        lemma_fault_stays(s, members, m, n - 1);
    }
}

/// Lists that are too short or too long, and values that are neither a list nor an object.
pub proof fn law_lists_of_the_wrong_length(s: SignatureModel, j: JsonModel)
    ensures
        !(j is Array) && !(j is Object) ==> complaint(s, j) == Some(
            wrong_type(j, "struct "@ + s.title),
        ),
        j matches JsonModel::Array(items) ==> items.len() > s.fields.len() && items_fault(
            s,
            items,
            s.fields.len() as int,
        ) is None ==> complaint(s, j) == Some(
            "invalid length "@ + digits(items.len()) + ", expected "@ + "fewer elements in array"@,
        ),
        j matches JsonModel::Array(items) ==> items.len() < s.fields.len()
            && s.fields[items.len() as int].required_in_array && items_fault(
            s,
            items,
            items.len() as int,
        ) is None ==> complaint(s, j) == Some(
            "invalid length "@ + digits(items.len()) + ", expected "@ + ("struct "@ + s.title
                + " with "@ + digits(s.fields.len()) + (if s.fields.len() == 1 {
                " element"@
            } else {
                " elements"@
            })),
        ),
{
    if let JsonModel::Array(items) = j {
        let n = items.len() as int;
        if n < s.fields.len() && s.fields[n].required_in_array && items_fault(s, items, n) is None {
            lemma_items_fault_stays(s, items, n + 1, s.fields.len() as int);
        }
    }
}

proof fn lemma_items_fault_stays(s: SignatureModel, items: Seq<JsonModel>, m: int, n: int)
    requires
        m <= n,
        items_fault(s, items, m) is Some,
    ensures
        items_fault(s, items, n) == items_fault(s, items, m),
    decreases n - m,
{
    if n > m {
        lemma_items_fault_stays(s, items, m, n - 1);
    }
}

} // verus!
