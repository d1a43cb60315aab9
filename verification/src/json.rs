//! JSON as the rest of the library reads it.

use crate::text::{cat2, same, text_before, text_less, views, Text};
use vstd::prelude::*;

verus! {

/// A number, by what is ever asked of it.
#[derive(Debug, PartialEq)]
pub struct Number {
    /// As JSON prints it.
    pub text: String,
    /// The value as a double, truncated to whole units.
    pub whole: i64,
    /// The value, when it was written as a whole number that is not negative
    /// and fits.
    pub natural: Option<u64>,
}

#[derive(Debug, PartialEq)]
pub enum Json {
    Null,
    Bool(bool),
    Number(Number),
    Text(String),
    Array(Vec<Json>),
    /// Members, ascending by name when read from text.
    Object(Vec<(String, Json)>),
}

#[verifier::ext_equal]
pub ghost struct NumberV {
    pub text: Text,
    pub whole: int,
    pub natural: Option<u64>,
}

#[verifier::ext_equal]
pub ghost enum JsonV {
    Null,
    Bool(bool),
    Number(NumberV),
    Text(Text),
    Array(Seq<JsonV>),
    Object(Seq<(Text, JsonV)>),
}

impl View for Number {
    type V = NumberV;

    open spec fn view(&self) -> NumberV {
        NumberV { text: self.text@, whole: self.whole as int, natural: self.natural }
    }
}

impl Json {
    pub open spec fn model(self) -> JsonV
        decreases self,
    {
        match self {
            Json::Null => JsonV::Null,
            Json::Bool(b) => JsonV::Bool(b),
            Json::Number(n) => JsonV::Number(n@),
            Json::Text(s) => JsonV::Text(s@),
            Json::Array(v) => JsonV::Array(
                Seq::new(
                    v@.len(),
                    |i: int|
                        if 0 <= i < v@.len() {
                            v@[i].model()
                        } else {
                            JsonV::Null
                        },
                ),
            ),
            Json::Object(v) => JsonV::Object(
                Seq::new(
                    v@.len(),
                    |i: int|
                        if 0 <= i < v@.len() {
                            (v@[i].0@, v@[i].1.model())
                        } else {
                            (Seq::empty(), JsonV::Null)
                        },
                ),
            ),
        }
    }
}

impl View for Json {
    type V = JsonV;

    open spec fn view(&self) -> JsonV {
        self.model()
    }
}

pub open spec fn members(v: Seq<(String, Json)>) -> Seq<(Text, JsonV)> {
    Seq::new(v.len(), |i: int| (v[i].0@, v[i].1@))
}

/// An array is modelled by the models of its items.
pub broadcast proof fn array_model(v: Vec<Json>)
    ensures
        #[trigger] Json::Array(v).model() == JsonV::Array(views(v@)),
{
    assert(Json::Array(v).model()->Array_0 =~= views(v@));
}

/// An object is modelled by its members.
pub broadcast proof fn object_model(v: Vec<(String, Json)>)
    ensures
        #[trigger] Json::Object(v).model() == JsonV::Object(members(v@)),
{
    assert(Json::Object(v).model()->Object_0 =~= members(v@));
}

// ── Trusted parts of serde_json ───────────────────────────────────────────

/// `serde_json::Value`, carried through unread.
#[verifier::external_type_specification]
#[verifier::external_body]
pub struct ExValue(serde_json::Value);

/// What a `serde_json::Value` holds.
pub uninterp spec fn value_model(v: serde_json::Value) -> JsonV;

/// What `serde_json::from_str` makes of a text: what the value holds, or the
/// error as it prints.
pub uninterp spec fn parsed(text: Seq<char>) -> Result<JsonV, Seq<char>>;

/// What the `serde_json::Value` built of a value holds.
pub uninterp spec fn rebuilt(v: JsonV) -> JsonV;

/// What a `serde_json::Value` prints as by its `Display`, by what it holds.
pub uninterp spec fn displayed(v: JsonV) -> Seq<char>;

/// What a value prints as: compact JSON.
pub open spec fn compact(v: JsonV) -> Text {
    displayed(rebuilt(v))
}

/// Calls `serde_json::from_str` for a `Value`. Its outcome is a function of
/// the text; the error is kept as its `Display` text.
#[verifier::external_body]
fn value_of_text(text: &str) -> (r: Result<serde_json::Value, String>)
    ensures
        match r {
            Ok(v) => parsed(text@) == Ok::<JsonV, Seq<char>>(value_model(v)),
            Err(e) => parsed(text@) == Err::<JsonV, Seq<char>>(e@),
        },
{
    serde_json::from_str::<serde_json::Value>(text).map_err(|e| e.to_string())
}

/// Reads a `serde_json::Value` into a `Json`, variant by variant. A number
/// is read by `Number::to_string`, by `Number::as_f64` truncated to whole
/// units, and by `Number::as_u64`.
#[verifier::external_body]
fn json_of_value(v: serde_json::Value) -> (r: Json)
    ensures
        r@ == value_model(v),
{
    match v {
        serde_json::Value::Null => Json::Null,
        serde_json::Value::Bool(b) => Json::Bool(b),
        serde_json::Value::Number(n) => {
            let (text, natural) = (n.to_string(), n.as_u64());
            Json::Number(Number { text, whole: n.as_f64().map_or(0, |x| x as i64), natural })
        },
        serde_json::Value::String(s) => Json::Text(s),
        serde_json::Value::Array(a) => Json::Array(a.into_iter().map(json_of_value).collect()),
        serde_json::Value::Object(o) => Json::Object(
            o.into_iter().map(|(k, x)| (k, json_of_value(x))).collect(),
        ),
    }
}

/// Builds the `serde_json::Value` of a `Json`, variant by variant; a number
/// is read by `Number::from_str`. What it holds is a function of the value.
/// That it holds the same is not claimed: a number's text need not be one
/// that parses.
#[verifier::external_body]
fn value_of_json(v: &Json) -> (r: serde_json::Value)
    ensures
        value_model(r) == rebuilt(v@),
{
    match v {
        Json::Null => serde_json::Value::Null,
        Json::Bool(b) => serde_json::Value::Bool(*b),
        Json::Number(n) => n.text.parse().map_or(
            serde_json::Value::Null,
            serde_json::Value::Number,
        ),
        Json::Text(s) => serde_json::Value::String(s.clone()),
        Json::Array(a) => serde_json::Value::Array(a.iter().map(value_of_json).collect()),
        Json::Object(o) => serde_json::Value::Object(
            o.iter().map(|(k, x)| (k.clone(), value_of_json(x))).collect(),
        ),
    }
}

/// Calls `to_string` on a `serde_json::Value`. The text is a function of what
/// the value holds.
#[verifier::external_body]
fn print_value(v: &serde_json::Value) -> (r: String)
    ensures
        r@ == displayed(value_model(*v)),
{
    v.to_string()
}

/// A value as compact JSON.
pub fn compact_text(v: &Json) -> (r: String)
    ensures
        r@ == compact(v@),
{
    print_value(&value_of_json(v))
}

/// What `serde_json::to_string_pretty` makes of a `serde_json::Value`, by what
/// it holds: the text, or the error as it prints.
pub uninterp spec fn indented(v: JsonV) -> Result<Seq<char>, Seq<char>>;

/// Calls `serde_json::to_string_pretty` on a `serde_json::Value`. Its outcome
/// is a function of what the value holds; the error is kept as its `Display`
/// text.
#[verifier::external_body]
fn indent_value(v: &serde_json::Value) -> (r: Result<String, String>)
    ensures
        match r {
            Ok(s) => indented(value_model(*v)) == Ok::<Seq<char>, Seq<char>>(s@),
            Err(e) => indented(value_model(*v)) == Err::<Seq<char>, Seq<char>>(e@),
        },
{
    serde_json::to_string_pretty(v).map_err(|e| e.to_string())
}

/// What is shown of a value, given the outcome of indenting it.
pub open spec fn shown_document(outcome: Result<Text, Text>) -> Text {
    match outcome {
        Ok(s) => s,
        Err(e) => "could not render document: "@ + e,
    }
}

/// A value as indented JSON.
pub open spec fn pretty_printed(v: JsonV) -> Text {
    shown_document(indented(rebuilt(v)))
}

/// What is shown of a value, from the outcome of indenting it.
pub fn document_from(outcome: Result<String, String>) -> (r: String)
    ensures
        r@ == shown_document(
            match outcome {
                Ok(s) => Ok(s@),
                Err(e) => Err(e@),
            },
        ),
{
    match outcome {
        Ok(s) => s,
        Err(e) => cat2("could not render document: ", e.as_str()),
    }
}

/// A value as indented JSON.
pub fn pretty_text(v: &Json) -> (r: String)
    ensures
        r@ == pretty_printed(v@),
{
    document_from(indent_value(&value_of_json(v)))
}

/// What `serde_json::from_str` makes of a text read as a list of strings: the
/// strings, or the error as it prints.
pub uninterp spec fn parsed_texts(text: Seq<char>) -> Result<Seq<Seq<char>>, Seq<char>>;

/// Calls `serde_json::from_str` for a `Vec<String>`. Its outcome is a function
/// of the text; the error is kept as its `Display` text.
#[verifier::external_body]
pub(crate) fn texts_of_json(text: &str) -> (r: Result<Vec<String>, String>)
    ensures
        match r {
            Ok(v) => parsed_texts(text@) == Ok::<Seq<Seq<char>>, Seq<char>>(views(v@)),
            Err(e) => parsed_texts(text@) == Err::<Seq<Seq<char>>, Seq<char>>(e@),
        },
{
    serde_json::from_str::<Vec<String>>(text).map_err(|e| e.to_string())
}

/// Parses JSON text.
pub fn parse(text: &str) -> (r: Result<Json, String>)
    ensures
        match r {
            Ok(v) => parsed(text@) == Ok::<JsonV, Seq<char>>(v@),
            Err(e) => parsed(text@) == Err::<JsonV, Seq<char>>(e@),
        },
{
    match value_of_text(text) {
        Ok(v) => Ok(json_of_value(v)),
        Err(e) => Err(e),
    }
}

// ── Reading ───────────────────────────────────────────────────────────────

/// The first member of that name.
pub open spec fn member(ms: Seq<(Text, JsonV)>, name: Text) -> Option<JsonV>
    decreases ms.len(),
{
    if ms.len() == 0 {
        None
    } else if ms[0].0 == name {
        Some(ms[0].1)
    } else {
        member(ms.drop_first(), name)
    }
}

impl JsonV {
    pub open spec fn get(self, name: Text) -> Option<JsonV> {
        match self {
            JsonV::Object(ms) => member(ms, name),
            _ => None,
        }
    }

    pub open spec fn as_text(self) -> Option<Text> {
        match self {
            JsonV::Text(s) => Some(s),
            _ => None,
        }
    }

    pub open spec fn as_array(self) -> Option<Seq<JsonV>> {
        match self {
            JsonV::Array(a) => Some(a),
            _ => None,
        }
    }

    pub open spec fn as_natural(self) -> Option<u64> {
        match self {
            JsonV::Number(n) => n.natural,
            _ => None,
        }
    }

    /// The text under a name.
    pub open spec fn text_at(self, name: Text) -> Option<Text> {
        match self.get(name) {
            Some(v) => v.as_text(),
            None => None,
        }
    }

    /// The array under a name.
    pub open spec fn array_at(self, name: Text) -> Option<Seq<JsonV>> {
        match self.get(name) {
            Some(v) => v.as_array(),
            None => None,
        }
    }
}

/// The first member of a list with that name.
pub fn find_member<'a>(ms: &'a Vec<(String, Json)>, name: &str) -> (r: Option<&'a Json>)
    ensures
        match r {
            Some(v) => member(members(ms@), name@) == Some(v@),
            None => member(members(ms@), name@) is None,
        },
{
    let ghost all = members(ms@);
    let mut i: usize = 0;
    assert(all.skip(0) =~= all);
    while i < ms.len()
        invariant
            i <= ms@.len(),
            all == members(ms@),
            member(all, name@) == member(all.skip(i as int), name@),
        decreases ms@.len() - i,
    {
        assert(all.skip(i as int)[0] == all[i as int]);
        assert(all.skip(i as int).drop_first() =~= all.skip(i + 1));
        if same(ms[i].0.as_str(), name) {
            return Some(&ms[i].1);
        }
        i = i + 1;
    }
    None
}

impl Json {
    pub fn get(&self, name: &str) -> (r: Option<&Json>)
        ensures
            match r {
                Some(v) => self@.get(name@) == Some(v@),
                None => self@.get(name@) is None,
            },
    {
        match self {
            Json::Object(ms) => {
                proof {
                    object_model(*ms);
                }
                find_member(ms, name)
            },
            _ => None,
        }
    }

    pub fn as_text(&self) -> (r: Option<&String>)
        ensures
            match r {
                Some(s) => self@.as_text() == Some(s@),
                None => self@.as_text() is None,
            },
    {
        match self {
            Json::Text(s) => Some(s),
            _ => None,
        }
    }

    pub fn as_array(&self) -> (r: Option<&Vec<Json>>)
        ensures
            match r {
                Some(a) => self@.as_array() == Some(views(a@)),
                None => self@.as_array() is None,
            },
    {
        match self {
            Json::Array(a) => {
                proof {
                    array_model(*a);
                }
                Some(a)
            },
            _ => None,
        }
    }

    pub fn as_natural(&self) -> (r: Option<u64>)
        ensures
            r == self@.as_natural(),
    {
        match self {
            Json::Number(n) => n.natural,
            _ => None,
        }
    }

    /// The text under a name.
    pub fn text_at(&self, name: &str) -> (r: Option<&String>)
        ensures
            match r {
                Some(s) => self@.text_at(name@) == Some(s@),
                None => self@.text_at(name@) is None,
            },
    {
        match self.get(name) {
            Some(v) => v.as_text(),
            None => None,
        }
    }

    /// The array under a name.
    pub fn array_at(&self, name: &str) -> (r: Option<&Vec<Json>>)
        ensures
            match r {
                Some(a) => self@.array_at(name@) == Some(views(a@)),
                None => self@.array_at(name@) is None,
            },
    {
        match self.get(name) {
            Some(v) => v.as_array(),
            None => None,
        }
    }
}

impl Json {
    pub fn copy(&self) -> (r: Json)
        ensures
            r@ == self@,
        decreases self,
    {
        match self {
            Json::Null => Json::Null,
            Json::Bool(b) => Json::Bool(*b),
            Json::Number(n) => Json::Number(
                Number { text: n.text.clone(), whole: n.whole, natural: n.natural },
            ),
            Json::Text(s) => Json::Text(s.clone()),
            Json::Array(v) => {
                let mut out: Vec<Json> = Vec::new();
                let mut i: usize = 0;
                while i < v.len()
                    invariant
                        i <= v@.len(),
                        self == Json::Array(*v),
                        out@.len() == i,
                        forall|k: int| 0 <= k < i ==> (#[trigger] out@[k])@ == v@[k]@,
                    decreases v@.len() - i,
                {
                    assert(decreases_to!(self => self->Array_0));
                    assert(decreases_to!(v@ => v@[i as int]));
                    out.push(v[i].copy());
                    i = i + 1;
                }
                proof {
                    array_model(out);
                    array_model(*v);
                    assert(views(out@) =~= views(v@));
                }
                Json::Array(out)
            },
            Json::Object(v) => {
                let mut out: Vec<(String, Json)> = Vec::new();
                let mut i: usize = 0;
                while i < v.len()
                    invariant
                        i <= v@.len(),
                        self == Json::Object(*v),
                        out@.len() == i,
                        forall|k: int| 0 <= k < i ==> (#[trigger] out@[k]).0@ == v@[k].0@,
                        forall|k: int| 0 <= k < i ==> (#[trigger] out@[k]).1@ == v@[k].1@,
                    decreases v@.len() - i,
                {
                    assert(decreases_to!(self => self->Object_0));
                    assert(decreases_to!(v@ => v@[i as int]));
                    assert(decreases_to!(v@[i as int] => v@[i as int].1));
                    out.push((v[i].0.clone(), v[i].1.copy()));
                    i = i + 1;
                }
                proof {
                    object_model(out);
                    object_model(*v);
                    assert(members(out@) =~= members(v@));
                }
                Json::Object(out)
            },
        }
    }
}

// ── Building ──────────────────────────────────────────────────────────────

/// Members ascending by name, with `name` set to `v`.
pub open spec fn with_member(ms: Seq<(Text, JsonV)>, name: Text, v: JsonV) -> Seq<(Text, JsonV)>
    decreases ms.len(),
{
    if ms.len() == 0 {
        seq![(name, v)]
    } else if ms[0].0 == name {
        ms.update(0, (name, v))
    } else if text_less(name, ms[0].0) {
        seq![(name, v)] + ms
    } else {
        seq![ms[0]] + with_member(ms.drop_first(), name, v)
    }
}

/// After a member is set it reads back, and the others read as before.
pub proof fn with_member_reads(ms: Seq<(Text, JsonV)>, name: Text, v: JsonV, other: Text)
    ensures
        member(with_member(ms, name, v), name) == Some(v),
        other != name ==> member(with_member(ms, name, v), other) == member(ms, other),
    decreases ms.len(),
{
    let r = with_member(ms, name, v);
    if ms.len() == 0 {
        assert(r.drop_first() =~= ms);
    } else if ms[0].0 == name {
        assert(r.drop_first() =~= ms.drop_first());
    } else if text_less(name, ms[0].0) {
        assert(r.drop_first() =~= ms);
    } else {
        with_member_reads(ms.drop_first(), name, v, other);
        assert(r.drop_first() =~= with_member(ms.drop_first(), name, v));
    }
}

/// Sets a member, keeping the members ascending by name.
pub fn set_member(ms: &mut Vec<(String, Json)>, name: String, v: Json)
    ensures
        members(final(ms)@) == with_member(members(old(ms)@), name@, v@),
{
    let ghost all = members(ms@);
    let mut i: usize = 0;
    assert(all.skip(0) =~= all);
    assert(all.take(0) + with_member(all, name@, v@) =~= with_member(all, name@, v@));
    while i < ms.len()
        invariant
            i <= ms@.len(),
            all == members(ms@),
            all == members(old(ms)@),
            all.take(i as int) + with_member(all.skip(i as int), name@, v@) == with_member(
                all,
                name@,
                v@,
            ),
        decreases ms@.len() - i,
    {
        let ghost rest = all.skip(i as int);
        assert(rest[0] == all[i as int]);
        if same(ms[i].0.as_str(), name.as_str()) {
            let ghost pair = (name@, v@);
            ms.set(i, (name, v));
            assert(members(ms@) =~= all.take(i as int) + rest.update(0, pair));
            return;
        }
        if text_before(name.as_str(), ms[i].0.as_str()) {
            let ghost pair = (name@, v@);
            ms.insert(i, (name, v));
            assert(members(ms@) =~= all.take(i as int) + (seq![pair] + rest));
            return;
        }
        assert(rest.drop_first() =~= all.skip(i + 1));
        assert(all.take(i + 1) + with_member(all.skip(i + 1), name@, v@) =~= all.take(i as int) + (
        seq![rest[0]] + with_member(all.skip(i + 1), name@, v@)));
        i = i + 1;
    }
    let ghost pair = (name@, v@);
    ms.push((name, v));
    assert(all.skip(i as int) =~= Seq::empty());
    assert(members(ms@) =~= all.take(i as int) + seq![pair]);
}

/// A member is part of the members it was found in.
pub proof fn member_inside(ms: Seq<(Text, JsonV)>, name: Text)
    ensures
        member(ms, name) is Some ==> exists|i: int|
            0 <= i < ms.len() && #[trigger] ms[i] == (name, member(ms, name)->0),
    decreases ms.len(),
{
    if ms.len() > 0 && ms[0].0 != name {
        member_inside(ms.drop_first(), name);
        if member(ms, name) is Some {
            let i = choose|i: int|
                0 <= i < ms.drop_first().len() && #[trigger] ms.drop_first()[i] == (
                    name,
                    member(ms, name)->0,
                );
            assert(ms[i + 1] == (name, member(ms, name)->0));
        }
    }
}

/// What an object holds is smaller than the object.
pub proof fn get_smaller(v: JsonV, name: Text)
    ensures
        v.get(name) is Some ==> decreases_to!(v => v.get(name)->0),
{
    if v.get(name) is Some {
        let ms = v->Object_0;
        member_inside(ms, name);
        let i = choose|i: int| 0 <= i < ms.len() && #[trigger] ms[i] == (name, member(ms, name)->0);
        assert(decreases_to!(v => v->Object_0));
        assert(decreases_to!(ms => ms[i]));
        assert(decreases_to!(ms[i] => ms[i].1));
    }
}

/// What stands under a name is the first member of that name, and nothing
/// where there is none or where the value is no object.
pub proof fn the_first_member_is_read(v: JsonV, ms: Seq<(Text, JsonV)>, name: Text, i: int)
    requires
        0 <= i <= ms.len(),
        forall|j: int| 0 <= j < i ==> (#[trigger] ms[j]).0 != name,
    ensures
        v == JsonV::Object(ms) && i < ms.len() && ms[i].0 == name ==> v.get(name) == Some(ms[i].1),
        v == JsonV::Object(ms) && i == ms.len() ==> v.get(name) is None,
        !(v is Object) ==> v.get(name) is None,
{
    first_member(ms, name, i);
}

proof fn first_member(ms: Seq<(Text, JsonV)>, name: Text, i: int)
    requires
        0 <= i <= ms.len(),
        forall|j: int| 0 <= j < i ==> (#[trigger] ms[j]).0 != name,
    ensures
        i < ms.len() && ms[i].0 == name ==> member(ms, name) == Some(ms[i].1),
        i == ms.len() ==> member(ms, name) is None,
    decreases i,
{
    if i > 0 {
        let rest = ms.drop_first();
        assert(ms[0].0 != name);
        assert forall|j: int| 0 <= j < i - 1 implies (#[trigger] rest[j]).0 != name by {
            assert(rest[j] == ms[j + 1]);
        }
        first_member(rest, name, i - 1);
    }
}

/// A value is read as what it is and as nothing else.
pub proof fn values_are_read_as_they_are(
    v: JsonV,
    name: Text,
    t: Text,
    a: Seq<JsonV>,
    n: NumberV,
)
    ensures
        v.get(name) == Some(JsonV::Text(t)) ==> v.text_at(name) == Some(t),
        v.get(name) == Some(JsonV::Array(a)) ==> v.array_at(name) == Some(a),
        v == JsonV::Number(n) ==> v.as_natural() == n.natural,
        v.get(name) is None ==> v.text_at(name) is None && v.array_at(name) is None,
        v.get(name) matches Some(x) ==> (!(x is Text) ==> v.text_at(name) is None) && (!(
        x is Array) ==> v.array_at(name) is None),
        !(v is Number) ==> v.as_natural() is None,
{
}

/// A document that was indented is shown so; one that could not be says why.
pub proof fn documents_are_shown_indented(s: Text, e: Text)
    ensures
        shown_document(Ok(s)) == s,
        shown_document(Err(e)) == "could not render document: "@ + e,
{
}

} // verus!
