//! A JSON document as the Upbit API returns it, and the searches that pull the
//! notice fields and the notice list out of it without relying on its exact
//! shape.
use vstd::prelude::*;
use crate::text::eq_str;

verus! {

/// A parsed JSON value. An object keeps its members in the order the parser
/// yields them, each key once.
#[derive(Debug)]
pub enum JsonValue {
    Null,
    Bool(bool),
    /// A number, with its value when it is an integer that fits in `i64`.
    Number(Option<i64>),
    Str(String),
    Array(Vec<JsonValue>),
    Object(Vec<(String, JsonValue)>),
}

/// The value of the first member of `members` named `key`.
pub open spec fn member(members: Seq<(String, JsonValue)>, key: Seq<char>) -> Option<JsonValue>
    decreases members.len(),
{
    if members.len() == 0 {
        None
    } else if members[0].0@ == key {
        Some(members[0].1)
    } else {
        member(members.subrange(1, members.len() as int), key)
    }
}

/// `v[key]` for an object `v`; nothing for any other value.
pub open spec fn get(v: JsonValue, key: Seq<char>) -> Option<JsonValue> {
    match v {
        JsonValue::Object(members) => member(members@, key),
        _ => None,
    }
}

/// The first string value stored under `key` anywhere in `v`, depth-first: an
/// object's own member first, then its members' values in order; an array's
/// items in order.
pub open spec fn string_field(v: JsonValue, key: Seq<char>) -> Option<Seq<char>>
    decreases v,
{
    match v {
        JsonValue::Object(members) => match member(members@, key) {
            Some(JsonValue::Str(s)) => Some(s@),
            _ => string_field_in_members(members@, key),
        },
        JsonValue::Array(items) => string_field_in_items(items@, key),
        _ => None,
    }
}

/// `string_field` of the first member value that has one.
pub open spec fn string_field_in_members(members: Seq<(String, JsonValue)>, key: Seq<char>) -> Option<
    Seq<char>,
>
    decreases members,
{
    if members.len() == 0 {
        None
    } else {
        match string_field(members[0].1, key) {
            Some(s) => Some(s),
            None => string_field_in_members(members.subrange(1, members.len() as int), key),
        }
    }
}

/// `string_field` of the first item that has one.
pub open spec fn string_field_in_items(items: Seq<JsonValue>, key: Seq<char>) -> Option<Seq<char>>
    decreases items,
{
    if items.len() == 0 {
        None
    } else {
        match string_field(items[0], key) {
            Some(s) => Some(s),
            None => string_field_in_items(items.subrange(1, items.len() as int), key),
        }
    }
}

/// The first array stored under `key` anywhere in `v`, in the same order as
/// `string_field`.
pub open spec fn array_field(v: JsonValue, key: Seq<char>) -> Option<Vec<JsonValue>>
    decreases v,
{
    match v {
        JsonValue::Object(members) => match member(members@, key) {
            Some(JsonValue::Array(a)) => Some(a),
            _ => array_field_in_members(members@, key),
        },
        JsonValue::Array(items) => array_field_in_items(items@, key),
        _ => None,
    }
}

/// `array_field` of the first member value that has one.
pub open spec fn array_field_in_members(members: Seq<(String, JsonValue)>, key: Seq<char>) -> Option<
    Vec<JsonValue>,
>
    decreases members,
{
    if members.len() == 0 {
        None
    } else {
        match array_field(members[0].1, key) {
            Some(a) => Some(a),
            None => array_field_in_members(members.subrange(1, members.len() as int), key),
        }
    }
}

/// `array_field` of the first item that has one.
pub open spec fn array_field_in_items(items: Seq<JsonValue>, key: Seq<char>) -> Option<
    Vec<JsonValue>,
>
    decreases items,
{
    if items.len() == 0 {
        None
    } else {
        match array_field(items[0], key) {
            Some(a) => Some(a),
            None => array_field_in_items(items.subrange(1, items.len() as int), key),
        }
    }
}

/// An object with an integer `id` (fitting in `i64`) and a string `title`.
pub open spec fn is_notice(v: JsonValue) -> bool {
    &&& get(v, "id"@) matches Some(JsonValue::Number(Some(_)))
    &&& get(v, "title"@) matches Some(JsonValue::Str(_))
}

/// Some item of `items` looks like a notice.
pub open spec fn any_notice(items: Seq<JsonValue>) -> bool {
    exists|i: int| 0 <= i < items.len() && is_notice(#[trigger] items[i])
}

/// The first array anywhere in `v` (the outermost first, then depth-first)
/// with an item that looks like a notice.
pub open spec fn notice_like_array(v: JsonValue) -> Option<Vec<JsonValue>>
    decreases v,
{
    match v {
        JsonValue::Array(items) => if any_notice(items@) {
            Some(items)
        } else {
            notice_like_in_items(items@)
        },
        JsonValue::Object(members) => notice_like_in_members(members@),
        _ => None,
    }
}

/// `notice_like_array` of the first member value that has one.
pub open spec fn notice_like_in_members(members: Seq<(String, JsonValue)>) -> Option<Vec<JsonValue>>
    decreases members,
{
    if members.len() == 0 {
        None
    } else {
        match notice_like_array(members[0].1) {
            Some(a) => Some(a),
            None => notice_like_in_members(members.subrange(1, members.len() as int)),
        }
    }
}

/// `notice_like_array` of the first item that has one.
pub open spec fn notice_like_in_items(items: Seq<JsonValue>) -> Option<Vec<JsonValue>>
    decreases items,
{
    if items.len() == 0 {
        None
    } else {
        match notice_like_array(items[0]) {
            Some(a) => Some(a),
            None => notice_like_in_items(items.subrange(1, items.len() as int)),
        }
    }
}

/// The notices array of a list response: an array under a key literally named
/// `"notices"` if there is one, else the first array that looks like notices.
pub open spec fn notices_array(v: JsonValue) -> Option<Vec<JsonValue>> {
    match array_field(v, "notices"@) {
        Some(a) => Some(a),
        None => notice_like_array(v),
    }
}

/// The view of an optional string.
pub open spec fn opt_view(o: Option<String>) -> Option<Seq<char>> {
    match o {
        Some(s) => Some(s@),
        None => None,
    }
}

/// An optional reference to an array, as a value.
pub open spec fn opt_array(o: Option<&Vec<JsonValue>>) -> Option<Vec<JsonValue>> {
    match o {
        Some(a) => Some(*a),
        None => None,
    }
}

/// The value of the first member named `key`.
pub fn lookup<'a>(members: &'a Vec<(String, JsonValue)>, key: &str) -> (r: Option<&'a JsonValue>)
    ensures
        match r {
            Some(x) => member(members@, key@) == Some(*x),
            None => member(members@, key@) is None,
        },
{
    let n = members.len();
    let mut i: usize = 0;
    assert(members@.subrange(0, n as int) =~= members@);
    while i < n
        invariant
            n == members.len(),
            i <= n,
            member(members@, key@) == member(members@.subrange(i as int, n as int), key@),
        decreases n - i,
    {
        let ghost rest = members@.subrange(i as int, n as int);
        assert(rest.subrange(1, rest.len() as int) =~= members@.subrange(i + 1, n as int));
        if eq_str(members[i].0.as_str(), key) {
            return Some(&members[i].1);
        }
        i = i + 1;
    }
    None
}

/// `v[key]`: the member named `key` of an object, nothing for other values.
pub fn get_exec<'a>(v: &'a JsonValue, key: &str) -> (r: Option<&'a JsonValue>)
    ensures
        match r {
            Some(x) => get(*v, key@) == Some(*x),
            None => get(*v, key@) is None,
        },
{
    match v {
        JsonValue::Object(members) => lookup(members, key),
        _ => None,
    }
}

/// The first string value for `key` anywhere in the document (depth-first).
pub fn find_field(v: &JsonValue, key: &str) -> (r: Option<String>)
    ensures
        opt_view(r) == string_field(*v, key@),
    decreases v,
{
    match v {
        JsonValue::Object(members) => {
            match lookup(members, key) {
                Some(JsonValue::Str(s)) => {
                    return Some(s.clone());
                },
                _ => {},
            }
            let n = members.len();
            let mut i: usize = 0;
            assert(members@.subrange(0, n as int) =~= members@);
            while i < n
                invariant
                    n == members.len(),
                    i <= n,
                    string_field(*v, key@) == string_field_in_members(
                        members@.subrange(i as int, n as int),
                        key@,
                    ),
                    *v == JsonValue::Object(*members),
                decreases n - i,
            {
                let ghost rest = members@.subrange(i as int, n as int);
                assert(rest.subrange(1, rest.len() as int) =~= members@.subrange(i + 1, n as int));
                assert(rest[0] == members@[i as int]);
                let found = find_field(&members[i].1, key);
                if found.is_some() {
                    return found;
                }
                i = i + 1;
            }
            None
        },
        JsonValue::Array(items) => {
            let n = items.len();
            let mut i: usize = 0;
            assert(items@.subrange(0, n as int) =~= items@);
            while i < n
                invariant
                    n == items.len(),
                    i <= n,
                    string_field(*v, key@) == string_field_in_items(
                        items@.subrange(i as int, n as int),
                        key@,
                    ),
                    *v == JsonValue::Array(*items),
                decreases n - i,
            {
                let ghost rest = items@.subrange(i as int, n as int);
                assert(rest.subrange(1, rest.len() as int) =~= items@.subrange(i + 1, n as int));
                assert(rest[0] == items@[i as int]);
                let found = find_field(&items[i], key);
                if found.is_some() {
                    return found;
                }
                i = i + 1;
            }
            None
        },
        _ => None,
    }
}

/// The first array for `key` anywhere in the document (depth-first).
pub fn find_array_by_key<'a>(v: &'a JsonValue, key: &str) -> (r: Option<&'a Vec<JsonValue>>)
    ensures
        opt_array(r) == array_field(*v, key@),
    decreases v,
{
    match v {
        JsonValue::Object(members) => {
            match lookup(members, key) {
                Some(JsonValue::Array(a)) => {
                    return Some(a);
                },
                _ => {},
            }
            let n = members.len();
            let mut i: usize = 0;
            assert(members@.subrange(0, n as int) =~= members@);
            while i < n
                invariant
                    n == members.len(),
                    i <= n,
                    array_field(*v, key@) == array_field_in_members(
                        members@.subrange(i as int, n as int),
                        key@,
                    ),
                    *v == JsonValue::Object(*members),
                decreases n - i,
            {
                let ghost rest = members@.subrange(i as int, n as int);
                assert(rest.subrange(1, rest.len() as int) =~= members@.subrange(i + 1, n as int));
                assert(rest[0] == members@[i as int]);
                let found = find_array_by_key(&members[i].1, key);
                if found.is_some() {
                    return found;
                }
                i = i + 1;
            }
            None
        },
        JsonValue::Array(items) => {
            let n = items.len();
            let mut i: usize = 0;
            assert(items@.subrange(0, n as int) =~= items@);
            while i < n
                invariant
                    n == items.len(),
                    i <= n,
                    array_field(*v, key@) == array_field_in_items(
                        items@.subrange(i as int, n as int),
                        key@,
                    ),
                    *v == JsonValue::Array(*items),
                decreases n - i,
            {
                let ghost rest = items@.subrange(i as int, n as int);
                assert(rest.subrange(1, rest.len() as int) =~= items@.subrange(i + 1, n as int));
                assert(rest[0] == items@[i as int]);
                let found = find_array_by_key(&items[i], key);
                if found.is_some() {
                    return found;
                }
                i = i + 1;
            }
            None
        },
        _ => None,
    }
}

/// Whether `v` is an object with an integer `id` and a string `title`.
pub fn is_notice_obj(v: &JsonValue) -> (r: bool)
    ensures
        r == is_notice(*v),
{
    let id_ok = match get_exec(v, "id") {
        Some(JsonValue::Number(Some(_))) => true,
        _ => false,
    };
    let title_ok = match get_exec(v, "title") {
        Some(JsonValue::Str(_)) => true,
        _ => false,
    };
    id_ok && title_ok
}

/// Whether some item looks like a notice.
fn any_notice_exec(items: &Vec<JsonValue>) -> (r: bool)
    ensures
        r == any_notice(items@),
{
    let n = items.len();
    for i in 0..n
        invariant
            n == items.len(),
            forall|k: int| 0 <= k < i ==> !is_notice(#[trigger] items@[k]),
    {
        if is_notice_obj(&items[i]) {
            return true;
        }
    }
    false
}

/// The first array, outermost first, with an item that looks like a notice.
pub fn find_notice_like_array(v: &JsonValue) -> (r: Option<&Vec<JsonValue>>)
    ensures
        opt_array(r) == notice_like_array(*v),
    decreases v,
{
    match v {
        JsonValue::Array(items) => {
            if any_notice_exec(items) {
                return Some(items);
            }
            let n = items.len();
            let mut i: usize = 0;
            assert(items@.subrange(0, n as int) =~= items@);
            while i < n
                invariant
                    n == items.len(),
                    i <= n,
                    notice_like_array(*v) == notice_like_in_items(
                        items@.subrange(i as int, n as int),
                    ),
                    *v == JsonValue::Array(*items),
                decreases n - i,
            {
                let ghost rest = items@.subrange(i as int, n as int);
                assert(rest.subrange(1, rest.len() as int) =~= items@.subrange(i + 1, n as int));
                assert(rest[0] == items@[i as int]);
                let found = find_notice_like_array(&items[i]);
                if found.is_some() {
                    return found;
                }
                i = i + 1;
            }
            None
        },
        JsonValue::Object(members) => {
            let n = members.len();
            let mut i: usize = 0;
            assert(members@.subrange(0, n as int) =~= members@);
            while i < n
                invariant
                    n == members.len(),
                    i <= n,
                    notice_like_array(*v) == notice_like_in_members(
                        members@.subrange(i as int, n as int),
                    ),
                    *v == JsonValue::Object(*members),
                decreases n - i,
            {
                let ghost rest = members@.subrange(i as int, n as int);
                assert(rest.subrange(1, rest.len() as int) =~= members@.subrange(i + 1, n as int));
                assert(rest[0] == members@[i as int]);
                let found = find_notice_like_array(&members[i].1);
                if found.is_some() {
                    return found;
                }
                i = i + 1;
            }
            None
        },
        _ => None,
    }
}

/// Locates the notices array: an array under a key literally named
/// `"notices"` if there is one, else the first array whose items look like
/// notices.
pub fn find_notices_array(v: &JsonValue) -> (r: Option<&Vec<JsonValue>>)
    ensures
        opt_array(r) == notices_array(*v),
{
    match find_array_by_key(v, "notices") {
        Some(a) => Some(a),
        None => find_notice_like_array(v),
    }
}

/// serde_json's value type, carried only between the parse and its conversion.
#[verifier::external_type_specification]
#[verifier::external_body]
pub struct ExSerdeJsonValue(serde_json::Value);

/// What `serde_json::from_str::<serde_json::Value>` makes of a text, as a
/// `JsonValue` (an object's members in the order serde_json's map yields them,
/// a number with `Number::as_i64`); `None` when the text is not JSON.
pub uninterp spec fn json_of(text: Seq<char>) -> Option<JsonValue>;

/// Parses `text` with `serde_json::from_str` into a `serde_json::Value` and
/// converts it to a `JsonValue`. The contract claims that the result is
/// `json_of(text)`, a function of the text alone, and that an error comes
/// exactly when the text is not JSON; the error message is serde_json's and
/// is left unsaid.
#[verifier::external_body]
pub fn parse_json(text: &str) -> (r: Result<JsonValue, String>)
    ensures
        match r {
            Ok(v) => json_of(text@) == Some(v),
            Err(_) => json_of(text@) is None,
        },
{
    match serde_json::from_str::<serde_json::Value>(text) {
        Ok(v) => Ok(from_serde(v)),
        Err(e) => Err(e.to_string()),
    }
}

/// Moves a `serde_json::Value` into a `JsonValue`, variant by variant; a
/// number keeps `Number::as_i64`. Only `parse_json` calls it, and its result is
/// covered by the name `json_of` there.
#[verifier::external_body]
fn from_serde(v: serde_json::Value) -> JsonValue {
    match v {
        serde_json::Value::Null => JsonValue::Null,
        serde_json::Value::Bool(b) => JsonValue::Bool(b),
        serde_json::Value::Number(n) => JsonValue::Number(n.as_i64()),
        serde_json::Value::String(s) => JsonValue::Str(s),
        serde_json::Value::Array(a) => JsonValue::Array(a.into_iter().map(from_serde).collect()),
        serde_json::Value::Object(m) => JsonValue::Object(
            m.into_iter().map(|(k, x)| (k, from_serde(x))).collect(),
        ),
    }
}

/// The first string value for `key` anywhere in a JSON text; nothing when the
/// text is not JSON.
pub open spec fn text_field(text: Seq<char>, key: Seq<char>) -> Option<Seq<char>> {
    match json_of(text) {
        Some(v) => string_field(v, key),
        None => None,
    }
}

/// First string value for `key` anywhere in the JSON body (depth-first).
pub fn json_field(body: &str, key: &str) -> (r: Option<String>)
    ensures
        opt_view(r) == text_field(body@, key@),
{
    match parse_json(body) {
        Ok(v) => find_field(&v, key),
        Err(_) => None,
    }
}

} // verus!
