//! JSON values as the format converters read and write them.
//!
//! The converters only ever ask a JSON value for its kind, for a member of
//! an object, for a string, for a list, or for a number that is a
//! non-negative integer. A number is therefore held either as such an
//! integer or as the text of any other number, which is passed through
//! untouched. An object keeps its members in order; a member is looked up
//! by its first occurrence.

use vstd::prelude::*;
use crate::text::{str_eq, to_string};

verus! {

/// A JSON value.
#[derive(Debug)]
pub enum JsonValue {
    Null,
    Bool(bool),
    /// A number that is an integer from 0 to `u64::MAX`.
    UInt(u64),
    /// Any other number, as its JSON text.
    OtherNumber(String),
    Str(String),
    Array(Vec<JsonValue>),
    Object(Vec<(String, JsonValue)>),
}

/// A JSON value, as plain values.
pub enum JsonModel {
    Null,
    Bool(bool),
    UInt(u64),
    OtherNumber(Seq<char>),
    Str(Seq<char>),
    Array(Seq<JsonModel>),
    Object(Seq<(Seq<char>, JsonModel)>),
}

/// The plain value of a JSON value.
pub open spec fn json_view(v: JsonValue) -> JsonModel
    decreases v,
{
    match v {
        JsonValue::Null => JsonModel::Null,
        JsonValue::Bool(b) => JsonModel::Bool(b),
        JsonValue::UInt(n) => JsonModel::UInt(n),
        JsonValue::OtherNumber(s) => JsonModel::OtherNumber(s@),
        JsonValue::Str(s) => JsonModel::Str(s@),
        JsonValue::Array(items) => JsonModel::Array(
            Seq::new(
                items@.len(),
                |i: int|
                    if 0 <= i < items@.len() {
                        json_view(items@[i])
                    } else {
                        JsonModel::Null
                    },
            ),
        ),
        JsonValue::Object(entries) => JsonModel::Object(
            Seq::new(
                entries@.len(),
                |i: int|
                    if 0 <= i < entries@.len() {
                        (entries@[i].0@, json_view(entries@[i].1))
                    } else {
                        (Seq::empty(), JsonModel::Null)
                    },
            ),
        ),
    }
}

impl View for JsonValue {
    type V = JsonModel;

    open spec fn view(&self) -> JsonModel {
        json_view(*self)
    }
}

/// The plain values of a list of JSON values.
pub open spec fn json_seq_view(items: Seq<JsonValue>) -> Seq<JsonModel> {
    Seq::new(items.len(), |i: int| json_view(items[i]))
}

/// The plain values of a list of object members.
pub open spec fn json_entries_view(entries: Seq<(String, JsonValue)>) -> Seq<(Seq<char>, JsonModel)> {
    Seq::new(entries.len(), |i: int| (entries[i].0@, json_view(entries[i].1)))
}

/// The first member of an object named `key`.
pub open spec fn spec_entries_get(entries: Seq<(Seq<char>, JsonModel)>, key: Seq<char>) -> Option<JsonModel>
    decreases entries.len(),
{
    if entries.len() == 0 {
        None
    } else if entries[0].0 == key {
        Some(entries[0].1)
    } else {
        spec_entries_get(entries.drop_first(), key)
    }
}

/// The member `key` of a value that is an object; nothing for any other
/// value.
pub open spec fn spec_get(v: JsonModel, key: Seq<char>) -> Option<JsonModel> {
    match v {
        JsonModel::Object(entries) => spec_entries_get(entries, key),
        _ => None,
    }
}

/// The integer of a value that is a non-negative integer.
pub open spec fn spec_as_u64(v: JsonModel) -> Option<u64> {
    match v {
        JsonModel::UInt(n) => Some(n),
        _ => None,
    }
}

/// The characters of a value that is a string.
pub open spec fn spec_as_str(v: JsonModel) -> Option<Seq<char>> {
    match v {
        JsonModel::Str(s) => Some(s),
        _ => None,
    }
}

/// The items of a value that is an array.
pub open spec fn spec_as_array(v: JsonModel) -> Option<Seq<JsonModel>> {
    match v {
        JsonModel::Array(items) => Some(items),
        _ => None,
    }
}

/// `f` applied to the member `key`, when there is one.
pub open spec fn spec_get_u64(v: JsonModel, key: Seq<char>) -> Option<u64> {
    match spec_get(v, key) {
        Some(m) => spec_as_u64(m),
        None => None,
    }
}

/// The string member `key`, when there is one and it is a string.
pub open spec fn spec_get_str(v: JsonModel, key: Seq<char>) -> Option<Seq<char>> {
    match spec_get(v, key) {
        Some(m) => spec_as_str(m),
        None => None,
    }
}

/// Viewing a list with one more item.
pub proof fn lemma_seq_view_push(items: Seq<JsonValue>, x: JsonValue)
    ensures
        json_seq_view(items.push(x)) == json_seq_view(items).push(json_view(x)),
{
    assert(json_seq_view(items.push(x)) =~= json_seq_view(items).push(json_view(x)));
}

/// Viewing a list of members with one more member.
pub proof fn lemma_entries_view_push(entries: Seq<(String, JsonValue)>, k: String, x: JsonValue)
    ensures
        json_entries_view(entries.push((k, x))) == json_entries_view(entries).push((k@, json_view(x))),
{
    assert(json_entries_view(entries.push((k, x))) =~= json_entries_view(entries).push(
        (k@, json_view(x)),
    ));
}

/// The view of an array is the view of its items; that of an object, of
/// its members.
pub proof fn lemma_view_containers(v: JsonValue)
    ensures
        v matches JsonValue::Array(items) ==> json_view(v) == JsonModel::Array(json_seq_view(items@)),
        v matches JsonValue::Object(entries) ==> json_view(v) == JsonModel::Object(
            json_entries_view(entries@),
        ),
{
    match v {
        JsonValue::Array(items) => {
            assert(json_view(v)->Array_0 =~= json_seq_view(items@));
        },
        JsonValue::Object(entries) => {
            assert(json_view(v)->Object_0 =~= json_entries_view(entries@));
        },
        _ => {},
    }
}

proof fn lemma_entries_view_skip(entries: Seq<(String, JsonValue)>, k: int)
    requires
        0 <= k <= entries.len(),
    ensures
        json_entries_view(entries).skip(k) == json_entries_view(entries.skip(k)),
{
    assert(json_entries_view(entries).skip(k) =~= json_entries_view(entries.skip(k)));
}

impl JsonValue {
    /// The member `key` of an object; nothing for any other value.
    pub fn get(&self, key: &str) -> (res: Option<&JsonValue>)
        ensures
            match spec_get(self@, key@) {
                Some(m) => res matches Some(r) && r@ == m,
                None => res is None,
            },
    {
        match self {
            JsonValue::Object(entries) => {
                let ghost ev = json_entries_view(entries@);
                assert(json_view(*self) is Object);
                assert(json_view(*self)->Object_0 =~= ev);
                assert(self@ == JsonModel::Object(ev));
                assert(ev.skip(0) =~= ev);
                let mut i: usize = 0;
                while i < entries.len()
                    invariant
                        i <= entries@.len(),
                        ev == json_entries_view(entries@),
                        self@ == JsonModel::Object(ev),
                        spec_entries_get(ev, key@) == spec_entries_get(ev.skip(i as int), key@),
                    decreases entries@.len() - i,
                {
                    proof {
                        let rest = ev.skip(i as int);
                        assert(rest.drop_first() =~= ev.skip(i + 1));
                        assert(rest[0] == (entries@[i as int].0@, json_view(entries@[i as int].1)));
                    }
                    if str_eq(entries[i].0.as_str(), key) {
                        return Some(&entries[i].1);
                    }
                    i = i + 1;
                }
                assert(ev.skip(i as int).len() == 0);
                None
            },
            _ => None,
        }
    }

    /// The integer of a non-negative integer number.
    pub fn as_u64(&self) -> (res: Option<u64>)
        ensures
            res == spec_as_u64(self@),
    {
        match self {
            JsonValue::UInt(n) => Some(*n),
            _ => None,
        }
    }

    /// The string of a string value.
    pub fn as_str(&self) -> (res: Option<&str>)
        ensures
            match spec_as_str(self@) {
                Some(s) => res matches Some(r) && r@ == s,
                None => res is None,
            },
    {
        match self {
            JsonValue::Str(s) => Some(s.as_str()),
            _ => None,
        }
    }

    /// The items of an array value.
    pub fn as_array(&self) -> (res: Option<&Vec<JsonValue>>)
        ensures
            match spec_as_array(self@) {
                Some(items) => res matches Some(r) && json_seq_view(r@) == items,
                None => res is None,
            },
    {
        match self {
            JsonValue::Array(items) => {
                assert(json_seq_view(items@) =~= spec_as_array(self@)->Some_0);
                Some(items)
            },
            _ => None,
        }
    }

    /// Whether the value is an object.
    pub fn is_object(&self) -> (res: bool)
        ensures
            res == (self@ is Object),
    {
        match self {
            JsonValue::Object(_) => true,
            _ => false,
        }
    }
}

/// A copy of a JSON value.
pub fn json_clone(v: &JsonValue) -> (res: JsonValue)
    ensures
        res@ == v@,
    decreases v,
{
    proof {
        lemma_view_containers(*v);
    }
    match v {
        JsonValue::Null => JsonValue::Null,
        JsonValue::Bool(b) => JsonValue::Bool(*b),
        JsonValue::UInt(n) => JsonValue::UInt(*n),
        JsonValue::OtherNumber(s) => JsonValue::OtherNumber(to_string(s.as_str())),
        JsonValue::Str(s) => JsonValue::Str(to_string(s.as_str())),
        JsonValue::Array(items) => {
            let mut out: Vec<JsonValue> = Vec::new();
            let mut i: usize = 0;
            while i < items.len()
                invariant
                    i <= items@.len(),
                    *v == JsonValue::Array(*items),
                    json_seq_view(out@) == json_seq_view(items@).take(i as int),
                decreases items@.len() - i,
            {
                assert(decreases_to!(*v => (*v)->Array_0));
                assert((*v)->Array_0 == *items);
                assert(decreases_to!((*v)->Array_0 => (*v)->Array_0@));
                assert(decreases_to!(items@ => items@[i as int]));
                assert(decreases_to!(*v => items@[i as int]));
                let c = json_clone(&items[i]);
                let ghost before = out@;
                out.push(c);
                proof {
                    lemma_seq_view_push(before, c);
                    assert(json_seq_view(out@) =~= json_seq_view(items@).take(i + 1));
                }
                i = i + 1;
            }
            assert(json_seq_view(items@).take(items@.len() as int) =~= json_seq_view(items@));
            let res = JsonValue::Array(out);
            proof {
                lemma_view_containers(res);
            }
            res
        },
        JsonValue::Object(entries) => {
            let mut out: Vec<(String, JsonValue)> = Vec::new();
            let mut i: usize = 0;
            while i < entries.len()
                invariant
                    i <= entries@.len(),
                    *v == JsonValue::Object(*entries),
                    json_entries_view(out@) == json_entries_view(entries@).take(i as int),
                decreases entries@.len() - i,
            {
                assert(decreases_to!(*v => (*v)->Object_0));
                assert((*v)->Object_0 == *entries);
                assert(decreases_to!((*v)->Object_0 => (*v)->Object_0@));
                assert(decreases_to!(entries@ => entries@[i as int]));
                assert(decreases_to!(entries@[i as int] => entries@[i as int].1));
                assert(decreases_to!(*v => entries@[i as int].1));
                let c = json_clone(&entries[i].1);
                let k = to_string(entries[i].0.as_str());
                let ghost before = out@;
                out.push((k, c));
                proof {
                    lemma_entries_view_push(before, k, c);
                    assert(json_entries_view(out@) =~= json_entries_view(entries@).take(i + 1));
                }
                i = i + 1;
            }
            assert(json_entries_view(entries@).take(entries@.len() as int) =~= json_entries_view(entries@));
            let res = JsonValue::Object(out);
            proof {
                lemma_view_containers(res);
            }
            res
        },
    }
}

/// An object member.
pub fn member(key: &str, value: JsonValue) -> (res: (String, JsonValue))
    ensures
        res.0@ == key@,
        res.1 == value,
{
    (to_string(key), value)
}

} // verus!
