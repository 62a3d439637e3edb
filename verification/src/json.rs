//! JSON: the values that transcript entries hold, and the reading and writing of JSON text.

use crate::text::same_text;
use serde_json::Value;
use vstd::prelude::*;

verus! {

/// A JSON value. A number is kept as it is written; an object's members have distinct keys.
#[derive(Debug, PartialEq)]
pub enum Json {
    Null,
    Bool(bool),
    Number(String),
    Text(String),
    Array(Vec<Json>),
    Object(Vec<(String, Json)>),
}

/// A JSON value as the contracts see it.
pub enum JsonView {
    Null,
    Bool(bool),
    Number(Seq<char>),
    Text(Seq<char>),
    Array(Seq<JsonView>),
    Object(Seq<(Seq<char>, JsonView)>),
}

impl Json {
    /// The value as the contracts see it.
    pub open spec fn view(self) -> JsonView
        decreases self,
    {
        match self {
            Json::Null => JsonView::Null,
            Json::Bool(b) => JsonView::Bool(b),
            Json::Number(s) => JsonView::Number(s@),
            Json::Text(s) => JsonView::Text(s@),
            Json::Array(items) => JsonView::Array(
                Seq::new(
                    items@.len(),
                    |i: int|
                        if 0 <= i < items@.len() {
                            items@[i].view()
                        } else {
                            arbitrary()
                        },
                ),
            ),
            Json::Object(members) => JsonView::Object(
                Seq::new(
                    members@.len(),
                    |i: int|
                        if 0 <= i < members@.len() {
                            (members@[i].0@, members@[i].1.view())
                        } else {
                            arbitrary()
                        },
                ),
            ),
        }
    }
}

/// The member of a key among an object's members.
pub open spec fn member(members: Seq<(Seq<char>, JsonView)>, key: Seq<char>) -> Option<JsonView>
    decreases members.len(),
{
    if members.len() == 0 {
        None
    } else if members[0].0 == key {
        Some(members[0].1)
    } else {
        member(members.drop_first(), key)
    }
}

/// The text that a value has under a key: where it is an object whose member of that key is a
/// text.
pub open spec fn text_under(v: JsonView, key: Seq<char>) -> Option<Seq<char>> {
    match v {
        JsonView::Object(members) => match member(members, key) {
            Some(JsonView::Text(s)) => Some(s),
            _ => None,
        },
        _ => None,
    }
}

impl Json {
    /// The member of a key, where the value is an object that has one.
    pub fn get(&self, key: &str) -> (r: Option<&Json>)
        ensures
            match self@ {
                JsonView::Object(members) => match r {
                    Some(v) => member(members, key@) == Some(v@),
                    None => member(members, key@) is None,
                },
                _ => r is None,
            },
    {
        match self {
            Json::Object(members) => {
                let ghost all = self@->Object_0;
                let mut i: usize = 0;
                assert(all.skip(0) =~= all);
                while i < members.len()
                    invariant
                        i <= members@.len(),
                        *self == Json::Object(*members),
                        self@ == JsonView::Object(all),
                        all.len() == members@.len(),
                        member(all, key@) == member(all.skip(i as int), key@),
                    decreases members@.len() - i,
                {
                    assert(all[i as int] == (members@[i as int].0@, members@[i as int].1@));
                    if same_text(members[i].0.as_str(), key) {
                        return Some(&members[i].1);
                    }
                    assert(all.skip(i as int).drop_first() =~= all.skip(i + 1));
                    i = i + 1;
                }
                None
            },
            _ => None,
        }
    }

    /// The text, where the value is one.
    pub fn as_str(&self) -> (r: Option<&String>)
        ensures
            match self@ {
                JsonView::Text(s) => r matches Some(t) && t@ == s,
                _ => r is None,
            },
    {
        match self {
            Json::Text(s) => Some(s),
            _ => None,
        }
    }

    /// The text that the value has under a key.
    pub fn text_under(&self, key: &str) -> (r: Option<&String>)
        ensures
            match r {
                Some(s) => text_under(self@, key@) == Some(s@),
                None => text_under(self@, key@) is None,
            },
    {
        match self.get(key) {
            Some(v) => v.as_str(),
            None => None,
        }
    }
}

/// `serde_json::Value`: a JSON value as serde_json holds it.
#[verifier::external_type_specification]
#[verifier::external_body]
pub struct ExValue(serde_json::Value);

/// What a `serde_json::Value` holds. Its objects hold their members in the order in which they hand
/// them out; its numbers are as they write themselves.
pub uninterp spec fn value_view(v: Value) -> JsonView;

/// One level of a `serde_json::Value`.
enum Layer {
    Null,
    Bool(bool),
    Number(String),
    Text(String),
    Array(Vec<Value>),
    Object(Vec<(String, Value)>),
}

/// Takes one level off a `serde_json::Value`: the variant that it is and what that variant holds. A
/// number is written by `Number::to_string`, and an object hands its members out by
/// `Map::into_iter`. Nothing is said of what either gives but that it is what the value holds.
#[verifier::external_body]
fn layer_of(v: Value) -> (r: Layer)
    ensures
        match r {
            Layer::Null => value_view(v) == JsonView::Null,
            Layer::Bool(b) => value_view(v) == JsonView::Bool(b),
            Layer::Number(s) => value_view(v) == JsonView::Number(s@),
            Layer::Text(s) => value_view(v) == JsonView::Text(s@),
            Layer::Array(items) => value_view(v) == JsonView::Array(
                items@.map_values(|x: Value| value_view(x)),
            ),
            Layer::Object(members) => value_view(v) == JsonView::Object(
                members@.map_values(|m: (String, Value)| (m.0@, value_view(m.1))),
            ),
        },
{
    match v {
        Value::Null => Layer::Null,
        Value::Bool(b) => Layer::Bool(b),
        Value::Number(n) => Layer::Number(n.to_string()),
        Value::String(s) => Layer::Text(s),
        Value::Array(items) => Layer::Array(items),
        Value::Object(members) => Layer::Object(members.into_iter().collect()),
    }
}

/// The JSON value that a `serde_json::Value` holds.
pub fn json_of(v: Value) -> (r: Json)
    ensures
        r@ == value_view(v),
    decreases value_view(v),
{
    let ghost whole = value_view(v);
    match layer_of(v) {
        Layer::Null => Json::Null,
        Layer::Bool(b) => Json::Bool(b),
        Layer::Number(s) => Json::Number(s),
        Layer::Text(s) => Json::Text(s),
        Layer::Array(items) => {
            let ghost all = items@;
            let mut r: Vec<Json> = Vec::new();
            for item in it: items
                invariant
                    it.seq() == all,
                    whole == value_view(v),
                    whole == JsonView::Array(all.map_values(|x: Value| value_view(x))),
                    r@.len() == it.index(),
                    forall|i: int| 0 <= i < r@.len() ==> (#[trigger] r@[i])@ == value_view(all[i]),
            {
                assert(whole->Array_0[it.index() as int] == value_view(item));
                r.push(json_of(item));
            }
            let r = Json::Array(r);
            assert(r@->Array_0 =~= whole->Array_0);
            r
        },
        Layer::Object(members) => {
            let ghost all = members@;
            let mut r: Vec<(String, Json)> = Vec::new();
            for m in it: members
                invariant
                    it.seq() == all,
                    whole == value_view(v),
                    whole == JsonView::Object(
                        all.map_values(|m: (String, Value)| (m.0@, value_view(m.1))),
                    ),
                    r@.len() == it.index(),
                    forall|i: int|
                        0 <= i < r@.len() ==> (#[trigger] r@[i]).0@ == all[i].0@ && r@[i].1@
                            == value_view(all[i].1),
            {
                assert(whole->Object_0[it.index() as int].1 == value_view(m.1));
                let value = json_of(m.1);
                r.push((m.0, value));
            }
            let r = Json::Object(r);
            assert(r@->Object_0 =~= whole->Object_0);
            r
        },
    }
}

/// What `serde_json::from_str` reads in a text: `None` where the text is not JSON.
pub uninterp spec fn json_value(s: Seq<char>) -> Option<JsonView>;

/// Calls `serde_json::from_str` for a `Value`. What the value holds is a function of the text alone.
#[verifier::external_body]
fn serde_parse(s: &str) -> (r: Option<Value>)
    ensures
        match r {
            Some(v) => json_value(s@) == Some(value_view(v)),
            None => json_value(s@) is None,
        },
{
    serde_json::from_str::<Value>(s).ok()
}

/// The JSON value that a text gives.
pub fn parse_json(s: &str) -> (r: Option<Json>)
    ensures
        match r {
            Some(v) => json_value(s@) == Some(v@),
            None => json_value(s@) is None,
        },
{
    match serde_parse(s) {
        Some(v) => Some(json_of(v)),
        None => None,
    }
}

/// The members of a JSON object, each a text or null.
pub type Members = Vec<(String, Option<String>)>;

/// A text that may be missing.
pub open spec fn text_view(s: Option<String>) -> Option<Seq<char>> {
    match s {
        Some(s) => Some(s@),
        None => None,
    }
}

/// The members of an object as the contracts see them.
pub open spec fn members_view(m: Seq<(String, Option<String>)>) -> Seq<(Seq<char>, Option<Seq<char>>)> {
    m.map_values(|p: (String, Option<String>)| (p.0@, text_view(p.1)))
}

/// The objects of a list as the contracts see them.
pub open spec fn objects_view(v: Seq<Members>) -> Seq<Seq<(Seq<char>, Option<Seq<char>>)>> {
    v.map_values(|m: Members| members_view(m@))
}

/// What `serde_json::to_string_pretty` writes for an array of objects, whose members are texts or
/// null.
pub uninterp spec fn json_pretty(objects: Seq<Seq<(Seq<char>, Option<Seq<char>>)>>) -> Seq<char>;

/// Calls `serde_json::to_string_pretty` on an array of objects, whose members are texts, or null
/// where a text is missing. The result is a function of the objects alone.
#[verifier::external_body]
pub(crate) fn to_json_pretty(objects: &Vec<Members>) -> (r: String)
    ensures
        r@ == json_pretty(objects_view(objects@)),
{
    let values: Vec<Value> = objects
        .iter()
        .map(|m| m.iter().map(|(k, v)| (k.clone(), Value::from(v.clone()))).collect())
        .collect();
    serde_json::to_string_pretty(&values).unwrap()
}

/// A value is seen as it is, at every depth.
pub proof fn law_values_are_seen_whole(v: Json)
    ensures
        match v {
            Json::Null => v@ == JsonView::Null,
            Json::Bool(b) => v@ == JsonView::Bool(b),
            Json::Number(s) => v@ == JsonView::Number(s@),
            Json::Text(s) => v@ == JsonView::Text(s@),
            Json::Array(items) => v@ matches JsonView::Array(seen) && seen.len() == items@.len()
                && forall|i: int| 0 <= i < seen.len() ==> #[trigger] seen[i] == items@[i]@,
            Json::Object(members) => v@ matches JsonView::Object(seen) && seen.len() == members@.len()
                && forall|i: int|
                0 <= i < seen.len() ==> #[trigger] seen[i] == (members@[i].0@, members@[i].1@),
        },
{
}

/// The first member with a key is the member of that key.
pub proof fn law_first_member_of_key(members: Seq<(Seq<char>, JsonView)>, key: Seq<char>, i: int)
    requires
        0 <= i < members.len(),
        members[i].0 == key,
        forall|j: int| 0 <= j < i ==> (#[trigger] members[j]).0 != key,
    ensures
        member(members, key) == Some(members[i].1),
    decreases members.len(),
{
    if i > 0 {
        let rest = members.drop_first();
        assert(members[0].0 != key);
        assert forall|j: int| 0 <= j < i - 1 implies (#[trigger] rest[j]).0 != key by {
            assert(rest[j] == members[j + 1]);
        }
        law_first_member_of_key(rest, key, i - 1);
    }
}

/// Where no member has a key, there is no member of that key.
pub proof fn law_no_member_of_key(members: Seq<(Seq<char>, JsonView)>, key: Seq<char>)
    requires
        forall|j: int| 0 <= j < members.len() ==> (#[trigger] members[j]).0 != key,
    ensures
        member(members, key) is None,
    decreases members.len(),
{
    if members.len() > 0 {
        let rest = members.drop_first();
        assert(members[0].0 != key);
        assert forall|j: int| 0 <= j < rest.len() implies (#[trigger] rest[j]).0 != key by {
            assert(rest[j] == members[j + 1]);
        }
        law_no_member_of_key(rest, key);
    }
}

/// The text under a key is that of an object's member, where that is a text; nothing else has any.
pub proof fn law_text_under_key(members: Seq<(Seq<char>, JsonView)>, key: Seq<char>, v: JsonView)
    ensures
        member(members, key) matches Some(JsonView::Text(s)) ==> text_under(
            JsonView::Object(members),
            key,
        ) == Some(s),
        !(member(members, key) matches Some(JsonView::Text(_))) ==> text_under(
            JsonView::Object(members),
            key,
        ) is None,
        !(v is Object) ==> text_under(v, key) is None,
{
}

/// A text that is there is seen, and one that is missing is not.
pub proof fn law_text_that_may_be_missing(s: String)
    ensures
        text_view(Some(s)) == Some(s@),
        text_view(None) is None,
{
}

/// The objects to be written are seen with all their members, in order.
pub proof fn law_objects_are_seen_whole(objects: Seq<Members>, i: int, j: int)
    requires
        0 <= i < objects.len(),
        0 <= j < objects[i]@.len(),
    ensures
        objects_view(objects).len() == objects.len(),
        objects_view(objects)[i].len() == objects[i]@.len(),
        objects_view(objects)[i][j].0 == objects[i]@[j].0@,
        objects_view(objects)[i][j].1 == text_view(objects[i]@[j].1),
{
}

} // verus!
