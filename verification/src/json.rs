//! The decoded form of a document's JSON source, as the indexing worker
//! reads it: only what the projection logic needs — nulls, numbers (kept
//! as an optional integer reading plus the raw bits of the double
//! reading), strings, arrays and objects.

use vstd::prelude::*;

verus! {

/// One JSON value. A number carries both readings the worker may take of
/// it: `int_val` when it is exactly an `i64`, and the IEEE-754 bits of its
/// double reading.
pub enum JsonValue {
    Null,
    Bool(bool),
    Num { int_val: Option<i64>, float_bits: u64 },
    Str(String),
    Arr(Vec<JsonValue>),
    Obj(Vec<(String, JsonValue)>),
}

/// First value of key `name` among an object's fields, if any.
pub open spec fn spec_obj_get(fields: Seq<(String, JsonValue)>, name: Seq<char>) -> Option<
    JsonValue,
>
    decreases fields.len(),
{
    if fields.len() == 0 {
        None
    } else if fields[0].0@ == name {
        Some(fields[0].1)
    } else {
        spec_obj_get(fields.drop_first(), name)
    }
}

/// The member `name` of `src`, when `src` is an object that has it.
pub open spec fn spec_lookup(src: JsonValue, name: Seq<char>) -> Option<JsonValue> {
    match src {
        JsonValue::Obj(fields) => spec_obj_get(fields@, name),
        _ => None,
    }
}

/// Looks a member up, exactly as [`spec_lookup`] reads it.
pub fn json_lookup<'a>(src: &'a JsonValue, name: &String) -> (r: Option<&'a JsonValue>)
    ensures
        match r {
            Some(v) => spec_lookup(*src, name@) == Some(*v),
            None => spec_lookup(*src, name@) is None,
        },
{
    match src {
        JsonValue::Obj(fields) => {
            let mut i: usize = 0;
            while i < fields.len()
                invariant
                    i <= fields@.len(),
                    spec_lookup(*src, name@) == spec_obj_get(fields@, name@),
                    forall|j: int| 0 <= j < i ==> (#[trigger] fields@[j]).0@ != name@,
                decreases fields@.len() - i,
            {
                if fields[i].0.eq(name) {
                    proof {
                        lemma_obj_get_at(fields@, name@, i as int);
                    }
                    return Some(&fields[i].1);
                }
                i = i + 1;
            }
            proof {
                lemma_obj_get_none(fields@, name@);
            }
            None
        },
        _ => None,
    }
}

/// If entry `i` is the first with key `name`, the lookup returns it.
proof fn lemma_obj_get_at(fields: Seq<(String, JsonValue)>, name: Seq<char>, i: int)
    requires
        0 <= i < fields.len(),
        fields[i].0@ == name,
        forall|j: int| 0 <= j < i ==> (#[trigger] fields[j]).0@ != name,
    ensures
        spec_obj_get(fields, name) == Some(fields[i].1),
    decreases i,
{
    if i > 0 {
        let rest = fields.drop_first();
        assert forall|j: int| 0 <= j < i - 1 implies (#[trigger] rest[j]).0@ != name by {
            assert(rest[j] == fields[j + 1]);
        }
        assert(rest[i - 1] == fields[i]);
        lemma_obj_get_at(rest, name, i - 1);
    }
}

/// If no entry has key `name`, the lookup misses.
proof fn lemma_obj_get_none(fields: Seq<(String, JsonValue)>, name: Seq<char>)
    requires
        forall|j: int| 0 <= j < fields.len() ==> (#[trigger] fields[j]).0@ != name,
    ensures
        spec_obj_get(fields, name) is None,
    decreases fields.len(),
{
    if fields.len() > 0 {
        let rest = fields.drop_first();
        assert forall|j: int| 0 <= j < rest.len() implies (#[trigger] rest[j]).0@ != name by {
            assert(rest[j] == fields[j + 1]);
        }
        lemma_obj_get_none(rest, name);
    }
}

} // verus!
