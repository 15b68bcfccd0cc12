//! JSON documents, as far as the daemons read them.

use vstd::prelude::*;

use serde_json::Value;

use crate::text::same_text;

verus! {

/// A JSON value. Of a number only what it is as an unsigned 64-bit integer
/// is kept; an object's members stand in the order of their keys.
#[derive(Debug)]
pub enum Json {
    Null,
    Bool(bool),
    Number(Option<u64>),
    Text(String),
    List(Vec<Json>),
    Object(Vec<(String, Json)>),
}

/// The document that a text holds; none where it is no JSON.
pub uninterp spec fn json_document(text: Seq<char>) -> Option<Json>;

/// `serde_json::from_str`, with the value that comes back taken apart into
/// a [`Json`]. Nested values are handed through their own text, which
/// `serde_json` writes and reads back unchanged. The result is a function of
/// the text; what it is for a given text is the JSON grammar and is not
/// stated.
#[verifier::external_body]
pub(crate) fn parse_json(text: &str) -> (r: Option<Json>)
    ensures
        r == json_document(text@),
{
    Some(match serde_json::from_str::<Value>(text).ok()? {
        Value::Null => Json::Null,
        Value::Bool(b) => Json::Bool(b),
        Value::Number(n) => Json::Number(n.as_u64()),
        Value::String(s) => Json::Text(s),
        Value::Array(items) => Json::List(
            items.iter().map(|v| parse_json(&v.to_string())).collect::<Option<Vec<Json>>>()?,
        ),
        Value::Object(members) => Json::Object(
            members.iter().map(|(k, v)| Some((k.clone(), parse_json(&v.to_string())?))).collect::<
                Option<Vec<(String, Json)>>,
            >()?,
        ),
    })
}

/// The member of an object under a key.
pub open spec fn find_member(members: Seq<(String, Json)>, key: Seq<char>) -> Option<Json>
    decreases members.len(),
{
    if members.len() == 0 {
        None
    } else if members[0].0@ == key {
        Some(members[0].1)
    } else {
        find_member(members.skip(1), key)
    }
}

/// What stands under a key; nothing where the value is no object.
pub open spec fn member(v: Json, key: Seq<char>) -> Option<Json> {
    match v {
        Json::Object(members) => find_member(members@, key),
        _ => None,
    }
}

/// The text under a key; empty where there is none.
pub open spec fn text_member(v: Json, key: Seq<char>) -> Seq<char> {
    match member(v, key) {
        Some(Json::Text(s)) => s@,
        _ => Seq::empty(),
    }
}

/// The number under a key, where it is an unsigned integer.
pub open spec fn number_member(v: Json, key: Seq<char>) -> Option<u64> {
    match member(v, key) {
        Some(Json::Number(n)) => n,
        _ => None,
    }
}

/// The number under a key; 0 where there is none.
pub open spec fn count_member(v: Json, key: Seq<char>) -> u64 {
    match number_member(v, key) {
        Some(n) => n,
        None => 0,
    }
}

/// The truth value under a key.
pub open spec fn flag_member(v: Json, key: Seq<char>, otherwise: bool) -> bool {
    match member(v, key) {
        Some(Json::Bool(b)) => b,
        _ => otherwise,
    }
}

/// What stands under a key; `Null` where nothing does.
pub open spec fn part_member(v: Json, key: Seq<char>) -> Json {
    match member(v, key) {
        Some(part) => part,
        None => Json::Null,
    }
}

/// The members of the object under a key; none where there is no object.
pub open spec fn members_at(v: Json, key: Seq<char>) -> Seq<(String, Json)> {
    match member(v, key) {
        Some(Json::Object(members)) => members@,
        _ => Seq::empty(),
    }
}

/// The items of a list; none where the value is no list.
pub open spec fn items_of(v: Json) -> Seq<Json> {
    match v {
        Json::List(items) => items@,
        _ => Seq::empty(),
    }
}

impl Json {
    pub fn get(&self, key: &str) -> (r: Option<&Json>)
        ensures
            match r {
                Some(v) => member(*self, key@) == Some(*v),
                None => member(*self, key@) is None,
            },
    {
        match self {
            Json::Object(members) => {
                let mut i: usize = 0;
                assert(members@.skip(0) =~= members@);
                while i < members.len()
                    invariant
                        i <= members@.len(),
                        *self == Json::Object(*members),
                        find_member(members@, key@) == find_member(members@.skip(i as int), key@),
                    decreases members@.len() - i,
                {
                    assert(members@.skip(i as int)[0] == members@[i as int]);
                    assert(members@.skip(i as int).skip(1) =~= members@.skip(i + 1));
                    if same_text(members[i].0.as_str(), key) {
                        return Some(&members[i].1);
                    }
                    i = i + 1;
                }
                None
            },
            _ => None,
        }
    }

    pub fn text(&self, key: &str) -> (r: String)
        ensures
            r@ == text_member(*self, key@),
    {
        match self.get(key) {
            Some(Json::Text(s)) => s.clone(),
            _ => String::new(),
        }
    }

    pub fn number(&self, key: &str) -> (r: Option<u64>)
        ensures
            r == number_member(*self, key@),
    {
        match self.get(key) {
            Some(Json::Number(n)) => *n,
            _ => None,
        }
    }

    pub fn num(&self, key: &str) -> (r: u64)
        ensures
            r == count_member(*self, key@),
    {
        match self.number(key) {
            Some(n) => n,
            None => 0,
        }
    }

    pub fn flag(&self, key: &str, otherwise: bool) -> (r: bool)
        ensures
            r == flag_member(*self, key@, otherwise),
    {
        match self.get(key) {
            Some(Json::Bool(b)) => *b,
            _ => otherwise,
        }
    }
}

} // verus!
