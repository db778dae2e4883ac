//! What the library reads of JSON documents, and the calls into `serde_json` that read it.
use vstd::prelude::*;

verus! {

/// What can be told apart of a JSON value: an integer that fits in a `u64`, an object with its
/// members in the order in which they are walked, or anything else.
pub enum Json {
    Unsigned(u64),
    Object(Seq<(Seq<char>, Json)>),
    Other,
}

#[verifier::external_type_specification]
#[verifier::external_body]
pub struct ExJsonValue(serde_json::Value);

#[verifier::external_type_specification]
#[verifier::external_body]
#[verifier::reject_recursive_types(K)]
#[verifier::reject_recursive_types(V)]
pub struct ExJsonMap<K, V>(serde_json::Map<K, V>);

/// What a JSON value holds.
pub uninterp spec fn json_tree(value: serde_json::Value) -> Json;

/// The members that a JSON object holds, in the order in which they are walked.
pub uninterp spec fn json_members(
    object: serde_json::Map<String, serde_json::Value>,
) -> Seq<(Seq<char>, Json)>;

/// The member called `name`, if there is one.
pub open spec fn member(members: Seq<(Seq<char>, Json)>, name: Seq<char>) -> Option<Json>
    decreases members.len(),
{
    if members.len() == 0 {
        None
    } else if members[0].0 == name {
        Some(members[0].1)
    } else {
        member(members.drop_first(), name)
    }
}

/// `serde_json::Value::as_object`: an object gives the map of its members, any other value
/// gives nothing.
pub assume_specification[ serde_json::Value::as_object ](
    value: &serde_json::Value,
) -> (object: Option<&serde_json::Map<String, serde_json::Value>>)
    ensures
        match object {
            Some(map) => json_tree(*value) == Json::Object(json_members(*map)),
            None => !(json_tree(*value) is Object),
        },
;

/// `serde_json::Value::as_u64`: an integer that fits in a `u64` gives that integer, any other
/// value gives nothing.
pub assume_specification[ serde_json::Value::as_u64 ](
    value: &serde_json::Value,
) -> (number: Option<u64>)
    ensures
        match number {
            Some(n) => json_tree(*value) == Json::Unsigned(n),
            None => !(json_tree(*value) is Unsigned),
        },
;

/// `serde_json::Map::get`: the value of the member with the given name, if the object has such
/// a member.
#[verifier::external_body]
pub(crate) fn get_member<'a>(
    object: &'a serde_json::Map<String, serde_json::Value>,
    name: &str,
) -> (value: Option<&'a serde_json::Value>)
    ensures
        match value {
            Some(v) => member(json_members(*object), name@) == Some(json_tree(*v)),
            None => member(json_members(*object), name@) is None,
        },
{
    object.get(name)
}

/// `serde_json::Map::values`: the values of all members, one each, in the order in which the
/// object is walked.
#[verifier::external_body]
pub(crate) fn member_values<'a>(
    object: &'a serde_json::Map<String, serde_json::Value>,
) -> (values: Vec<&'a serde_json::Value>)
    ensures
        values@.len() == json_members(*object).len(),
        forall|i: int|
            0 <= i < values@.len() ==> json_tree(*(#[trigger] values@[i])) == json_members(*object)[i].1,
{
    object.values().collect()
}

/// The member called by a name is the first one that has it, and there is none exactly if no member
/// has it.
pub proof fn law_member_has_name(members: Seq<(Seq<char>, Json)>, name: Seq<char>, value: Json)
    ensures
        member(members, name) == Some(value) <==> exists|j: int|
            0 <= j < members.len() && #[trigger] members[j] == (name, value) && forall|i: int|
                0 <= i < j ==> (#[trigger] members[i]).0 != name,
        member(members, name) is None <==> forall|i: int|
            0 <= i < members.len() ==> (#[trigger] members[i]).0 != name,
    decreases members.len(),
{
    if members.len() > 0 {
        let rest = members.drop_first();
        law_member_has_name(rest, name, value);
        if members[0].0 != name {
            assert forall|i: int| 0 < i < members.len() implies #[trigger] members[i] == rest[i
                - 1] by {}
            if member(members, name) == Some(value) {
                let j = choose|j: int|
                    0 <= j < rest.len() && #[trigger] rest[j] == (name, value) && forall|i: int|
                        0 <= i < j ==> (#[trigger] rest[i]).0 != name;
                assert(members[j + 1] == (name, value));
                assert forall|i: int| 0 <= i < j + 1 implies (#[trigger] members[i]).0
                    != name by {
                    if i > 0 {
                        assert(rest[i - 1].0 != name);
                    }
                }
            }
            if exists|j: int|
                0 <= j < members.len() && #[trigger] members[j] == (name, value) && forall|i: int|
                    0 <= i < j ==> (#[trigger] members[i]).0 != name {
                let j = choose|j: int|
                    0 <= j < members.len() && #[trigger] members[j] == (name, value) && forall|
                        i: int,
                    |
                        0 <= i < j ==> (#[trigger] members[i]).0 != name;
                assert(rest[j - 1] == (name, value));
                assert forall|i: int| 0 <= i < j - 1 implies (#[trigger] rest[i]).0 != name by {
                    assert(members[i + 1].0 != name);
                }
            }
            if member(members, name) is None {
                assert forall|i: int| 0 <= i < members.len() implies (#[trigger] members[i]).0
                    != name by {
                    if i > 0 {
                        assert(rest[i - 1].0 != name);
                    }
                }
            } else {
                let i = choose|i: int| 0 <= i < rest.len() && (#[trigger] rest[i]).0 == name;
                assert(members[i + 1].0 == name);
            }
        } else {
            assert(members[0] == (name, members[0].1));
        }
    }
}

} // verus!
