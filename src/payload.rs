//! Normalization of the type-specific payload objects that clients post.
//! The payloads are JSON documents whose content the server does not
//! interpret; only the transient `response` member is removed.

use vstd::prelude::*;
use serde_json::Value;

verus! {

#[verifier::external_type_specification]
#[verifier::external_body]
pub struct ExValue(serde_json::Value);

/// Whether a JSON value is an object.
pub uninterp spec fn is_object(v: Value) -> bool;

/// The member names of a JSON object.
pub uninterp spec fn member_names(v: Value) -> Set<Seq<char>>;

/// The member of a JSON object with the name, if there is one.
pub uninterp spec fn member_of(v: Value, key: Seq<char>) -> Option<Value>;

/// The items of a JSON list, or `None` for a value that is no list.
pub uninterp spec fn list_items(v: Value) -> Option<Seq<Value>>;

/// The compact JSON text of a value.
pub uninterp spec fn json_text_of(v: Value) -> Seq<char>;

/// Relies on serde_json::Value::as_object_mut and Map::remove: drops the
/// member from an object; other values stay as they are.
#[verifier::external_body]
fn remove_member(v: &mut Value, key: &str)
    ensures
        is_object(*old(v)) ==> is_object(*final(v)) && member_names(*final(v)) == member_names(*old(v)).remove(key@)
            && member_of(*final(v), key@) is None
            && forall|k: Seq<char>| k != key@ ==> #[trigger] member_of(*final(v), k) == member_of(*old(v), k),
        !is_object(*old(v)) ==> *final(v) == *old(v),
{
    if let Some(o) = v.as_object_mut() {
        o.remove(key);
    }
}

/// Relies on serde_json::Value::is_object: whether the value is an object.
#[verifier::external_body]
fn value_is_object(v: &Value) -> (r: bool)
    ensures
        r == is_object(*v),
{
    v.is_object()
}

/// Relies on serde_json::Value::as_object_mut and Map::remove: takes the
/// member out of an object.
#[verifier::external_body]
fn take_member(v: &mut Value, key: &str) -> (r: Option<Value>)
    ensures
        is_object(*old(v)) ==> {
            &&& r == member_of(*old(v), key@)
            &&& (r is Some <==> member_names(*old(v)).contains(key@))
            &&& is_object(*final(v))
            &&& member_names(*final(v)) == member_names(*old(v)).remove(key@)
            &&& member_of(*final(v), key@) is None
            &&& forall|k: Seq<char>| k != key@ ==> #[trigger] member_of(*final(v), k) == member_of(*old(v), k)
        },
        !is_object(*old(v)) ==> r is None && *final(v) == *old(v),
{
    match v.as_object_mut() {
        Some(o) => o.remove(key),
        None => None,
    }
}

/// Relies on serde_json::Value::as_object_mut and Map::insert: sets the
/// member of an object.
#[verifier::external_body]
fn put_member(v: &mut Value, key: &str, item: Value)
    ensures
        is_object(*old(v)) ==> is_object(*final(v)) && member_names(*final(v)) == member_names(*old(v)).insert(key@)
            && member_of(*final(v), key@) == Some(item)
            && forall|k: Seq<char>| k != key@ ==> #[trigger] member_of(*final(v), k) == member_of(*old(v), k),
        !is_object(*old(v)) ==> *final(v) == *old(v),
{
    if let Some(o) = v.as_object_mut() {
        o.insert(key.to_string(), item);
    }
}

/// Relies on the `Value::Array` variant: the items of a list, or the value
/// back when it is no list.
#[verifier::external_body]
fn into_list(v: Value) -> (r: Result<Vec<Value>, Value>)
    ensures
        match r {
            Ok(items) => list_items(v) == Some(items@),
            Err(o) => list_items(v) is None && o == v,
        },
{
    match v {
        Value::Array(items) => Ok(items),
        other => Err(other),
    }
}

/// Relies on the `Value::Array` variant: a list of the items.
#[verifier::external_body]
fn from_list(items: Vec<Value>) -> (r: Value)
    ensures
        list_items(r) == Some(items@),
{
    Value::Array(items)
}

/// Relies on serde_json's `Display` for `Value`: the compact JSON text.
#[verifier::external_body]
fn to_json_text(v: &Value) -> (r: String)
    ensures
        r@ == json_text_of(*v),
{
    v.to_string()
}

/// A list whose entries are all objects; a value that is no list passes.
pub open spec fn list_acceptable(v: Value) -> bool {
    list_items(v) is Some ==> forall|i: int| 0 <= i < list_items(v)->Some_0.len()
        ==> is_object(#[trigger] list_items(v)->Some_0[i])
}

/// A payload is an object whose `uris` member, if it is a list, holds
/// objects only.
pub open spec fn payload_acceptable(v: Value) -> bool {
    &&& is_object(v)
    &&& member_of(v, "uris"@) is Some ==> list_acceptable(member_of(v, "uris"@)->Some_0)
}

/// `b` is the object `a` without its `response` member, every other
/// member kept with its value.
pub open spec fn without_response(a: Value, b: Value) -> bool {
    &&& is_object(a)
    &&& is_object(b)
    &&& member_names(b) == member_names(a).remove("response"@)
    &&& member_of(b, "response"@) is None
    &&& forall|k: Seq<char>| k != "response"@ ==> #[trigger] member_of(b, k) == member_of(a, k)
}

/// `b` is the list `a` with every entry without its `response` member; a
/// value that is no list stays as it is.
pub open spec fn list_cleaned(a: Value, b: Value) -> bool {
    match list_items(a) {
        Some(xs) => list_items(b) is Some && list_items(b)->Some_0.len() == xs.len()
            && forall|i: int| 0 <= i < xs.len() ==> without_response(#[trigger] xs[i], list_items(b)->Some_0[i]),
        None => b == a,
    }
}

/// `b` is the payload `a` without its `response` member and with every
/// entry of its `uris` list cleaned the same way; every other member keeps
/// its value.
pub open spec fn payload_cleaned(a: Value, b: Value) -> bool {
    &&& is_object(b)
    &&& member_names(b) == member_names(a).remove("response"@)
    &&& member_of(b, "response"@) is None
    &&& forall|k: Seq<char>| k != "response"@ && k != "uris"@ ==> #[trigger] member_of(b, k) == member_of(a, k)
    &&& match member_of(a, "uris"@) {
        Some(u) => member_of(b, "uris"@) is Some && list_cleaned(u, member_of(b, "uris"@)->Some_0),
        None => member_of(b, "uris"@) is None,
    }
}

/// Removes the `response` member from every object of a list, keeping the
/// order of the items; a value that is no list is returned as it is. A
/// list with an entry that is no object is refused (`None`).
pub fn clean_cipher_data(v: Value) -> (r: Option<Value>)
    ensures
        r is Some <==> list_acceptable(v),
        r is Some ==> list_cleaned(v, r->Some_0),
{
    proof { reveal_strlit("response"); }
    match into_list(v) {
        Err(other) => Some(other),
        Ok(items) => {
            let ghost orig = items@;
            let mut items = items;
            let mut reversed: Vec<Value> = Vec::new();
            while items.len() > 0
                invariant
                    list_items(v) == Some(orig),
                    items@ == orig.subrange(0, items@.len() as int),
                    reversed@.len() + items@.len() == orig.len(),
                    forall|j: int| 0 <= j < reversed@.len() ==> without_response(orig[orig.len() - 1 - j], #[trigger] reversed@[j]),
                decreases items@.len(),
            {
                let ghost r0 = reversed@;
                let mut item = items.pop().unwrap();
                let ghost m = items@.len() as int;
                assert(item == orig[m]);
                if !value_is_object(&item) {
                    assert(!list_acceptable(v)) by {
                        assert(list_items(v)->Some_0[m] == orig[m]);
                        assert(!is_object(list_items(v)->Some_0[m]));
                    }
                    return None;
                }
                let ghost before = item;
                remove_member(&mut item, "response");
                assert(without_response(before, item));
                reversed.push(item);
                assert(items@ =~= orig.subrange(0, items@.len() as int));
                assert forall|j: int| 0 <= j < reversed@.len() implies without_response(orig[orig.len() - 1 - j], #[trigger] reversed@[j]) by {
                    if j < r0.len() {
                        assert(reversed@[j] == r0[j]);
                    } else {
                        assert(orig.len() - 1 - j == m);
                    }
                }
            }
            let ghost rev = reversed@;
            let mut out: Vec<Value> = Vec::new();
            while reversed.len() > 0
                invariant
                    reversed@ == rev.subrange(0, reversed@.len() as int),
                    rev.len() == orig.len(),
                    out@.len() + reversed@.len() == orig.len(),
                    forall|j: int| 0 <= j < rev.len() ==> without_response(orig[orig.len() - 1 - j], #[trigger] rev[j]),
                    forall|j: int| 0 <= j < out@.len() ==> without_response(#[trigger] orig[j], out@[j]),
                decreases reversed@.len(),
            {
                let ghost o0 = out@;
                let item = reversed.pop().unwrap();
                assert(item == rev[reversed@.len() as int]);
                out.push(item);
                assert(reversed@ =~= rev.subrange(0, reversed@.len() as int));
                assert forall|j: int| 0 <= j < out@.len() implies without_response(#[trigger] orig[j], out@[j]) by {
                    if j < o0.len() {
                        assert(out@[j] == o0[j]);
                    } else {
                        assert(out@[j] == rev[reversed@.len() as int]);
                        assert(orig.len() - 1 - reversed@.len() == j);
                    }
                }
            }
            assert(list_acceptable(v)) by {
                assert forall|i: int| 0 <= i < orig.len() implies is_object(#[trigger] orig[i]) by {
                    let j = orig.len() - 1 - i;
                    assert(without_response(orig[orig.len() - 1 - j], rev[j]));
                }
            }
            Some(from_list(out))
        },
    }
}

/// Removes the `response` member from the payload object and from each
/// entry of its `uris` list; a payload that is no object, or whose `uris`
/// list holds an entry that is no object, is refused (`None`).
pub fn clean_payload(v: Value) -> (r: Option<Value>)
    ensures
        r is Some <==> payload_acceptable(v),
        r is Some ==> payload_cleaned(v, r->Some_0),
{
    proof {
        reveal_strlit("uris");
        reveal_strlit("response");
        assert("uris"@ != "response"@) by {
            assert("uris"@.len() != "response"@.len());
        }
    }
    if !value_is_object(&v) {
        return None;
    }
    let ghost v0 = v;
    let mut v = v;
    remove_member(&mut v, "response");
    let ghost v1 = v;
    match take_member(&mut v, "uris") {
        Some(uris) => {
            let cleaned = match clean_cipher_data(uris) {
                Some(c) => c,
                None => return None,
            };
            put_member(&mut v, "uris", cleaned);
            assert(member_names(v) =~= member_names(v1)) by {
                assert(member_names(v1).contains("uris"@));
            }
        },
        None => {
            assert(member_names(v) =~= member_names(v1)) by {
                assert(!member_names(v1).contains("uris"@));
            }
        },
    }
    Some(v)
}

/// The stored text of a payload: the cleaned payload as compact JSON, or
/// `None` for a payload that is refused.
pub fn payload_text(v: Value) -> (r: Option<String>)
    ensures
        r is Some <==> payload_acceptable(v),
        r is Some ==> exists|p: Value| payload_cleaned(v, p) && r->Some_0@ == json_text_of(p),
{
    match clean_payload(v) {
        Some(p) => Some(to_json_text(&p)),
        None => None,
    }
}

/// The stored text of a list of custom fields: each entry without its
/// `response` member, as compact JSON, or `None` for a list with an entry
/// that is no object.
pub fn fields_text(v: Value) -> (r: Option<String>)
    ensures
        r is Some <==> list_acceptable(v),
        r is Some ==> exists|p: Value| list_cleaned(v, p) && r->Some_0@ == json_text_of(p),
{
    match clean_cipher_data(v) {
        Some(p) => Some(to_json_text(&p)),
        None => None,
    }
}

/// The stored text of a password history: the value as compact JSON.
pub fn history_text(v: Value) -> (r: String)
    ensures
        r@ == json_text_of(v),
{
    to_json_text(&v)
}

} // verus!
