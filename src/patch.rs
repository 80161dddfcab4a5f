//! Applying a delta to a document, and reverting one.
use crate::delta::{invert_pairs, pairs_model, Change, ChangeModel, Delta};
use crate::path::{lemma_split_nonempty, split_dots, split_path, views};
use crate::value::{empty_object_model, entries_model, take_key, JsonModel, Value};
use vstd::prelude::*;

verus! {

/// The view of an optional value.
pub open spec fn opt_model(o: Option<Value>) -> Option<JsonModel> {
    match o {
        Some(v) => Some(v.model()),
        None => None,
    }
}

/// The document after setting (`Some`) or removing (`None`) the value at the
/// place that `segs` names.
///
/// On the way down, a node that is not an object is replaced by an empty
/// object, and a missing key gets an empty object. The last segment is set
/// or removed only where its parent is an object; elsewhere nothing happens.
pub open spec fn set_at(v: JsonModel, segs: Seq<Seq<char>>, val: Option<JsonModel>) -> JsonModel
    decreases segs.len(),
{
    if segs.len() <= 1 {
        match v {
            JsonModel::Object(m) => if segs.len() == 1 {
                match val {
                    Some(x) => JsonModel::Object(m.insert(segs[0], x)),
                    None => JsonModel::Object(m.remove(segs[0])),
                }
            } else {
                v
            },
            _ => v,
        }
    } else {
        let m = match v {
            JsonModel::Object(m) => m,
            _ => Map::empty(),
        };
        let child = if m.contains_key(segs[0]) {
            m[segs[0]]
        } else {
            empty_object_model()
        };
        JsonModel::Object(m.insert(segs[0], set_at(child, segs.drop_first(), val)))
    }
}

/// The document after each pair of path and change, in order: an addition or
/// a modification sets the path to its new value, a removal removes it.
pub open spec fn apply_pairs(v: JsonModel, s: Seq<(Seq<char>, ChangeModel)>) -> JsonModel
    decreases s.len(),
{
    if s.len() == 0 {
        v
    } else {
        set_at(apply_pairs(v, s.drop_last()), split_dots(s.last().0), s.last().1.target())
    }
}

/// Applying a delta with no change leaves a document as it is.
pub proof fn lemma_apply_empty(v: JsonModel)
    ensures
        apply_pairs(v, Seq::empty()) == v,
{
}

/// Sets or removes the value at the place that the segments from `i` on name.
fn set_path(v: Value, segs: &Vec<String>, i: usize, val: Option<Value>) -> (r: Value)
    requires
        i < segs.len(),
    ensures
        r.model() == set_at(v.model(), views(segs@).skip(i as int), opt_model(val)),
    decreases segs.len() - i,
{
    let ghost rest_segs = views(segs@).skip(i as int);
    assert(rest_segs[0] == segs@[i as int]@);
    let key = &segs[i];
    if i + 1 == segs.len() {
        match v {
            Value::Object(entries) => {
                let ghost m = entries_model(entries@);
                let (rest, _) = take_key(entries, key);
                let mut rest = rest;
                match val {
                    Some(x) => {
                        let ghost xm = x.model();
                        let ghost before = rest@;
                        rest.push((key.clone(), x));
                        proof {
                            assert(rest@.drop_last() == before);
                            assert(entries_model(rest@) =~= m.insert(key@, xm));
                        }
                    },
                    None => {},
                }
                Value::Object(rest)
            },
            other => other,
        }
    } else {
        let entries = match v {
            Value::Object(e) => e,
            _ => Vec::new(),
        };
        let ghost m = entries_model(entries@);
        proof {
            assert(views(segs@).skip(i + 1) =~= rest_segs.drop_first());
            if !(v.model() is Object) {
                assert(m =~= Map::empty());
            }
        }
        let (mut rest, child) = take_key(entries, key);
        let child = match child {
            Some(c) => c,
            None => Value::empty_object(),
        };
        let new_child = set_path(child, segs, i + 1, val);
        let ghost cm = new_child.model();
        let ghost before = rest@;
        rest.push((key.clone(), new_child));
        assert(rest@.drop_last() == before);
        proof {
            assert(entries_model(rest@) =~= m.insert(key@, cm));
        }
        Value::Object(rest)
    }
}

/// Applies `delta` to a copy of `original`: each path, in ascending order,
/// is set to the new value of its change, or removed for a removal.
/// `original` is left as it is.
pub fn apply(original: &Value, delta: &Delta) -> (r: Value)
    ensures
        r.model() == apply_pairs(original.model(), delta.model()),
{
    let mut result = original.deep_copy();
    let pairs = delta.pairs();
    let ghost s = pairs_model(pairs@);
    let mut i: usize = 0;
    while i < pairs.len()
        invariant
            i <= pairs.len(),
            s == pairs_model(pairs@),
            s == delta.model(),
            result.model() == apply_pairs(original.model(), s.take(i as int)),
        decreases pairs.len() - i,
    {
        let change = &pairs[i].1;
        let value = match change {
            Change::Add(v) => Some(v.deep_copy()),
            Change::Remove(_) => None,
            Change::Modify { after, .. } => Some(after.deep_copy()),
        };
        let segs = split_path(pairs[i].0.as_str());
        proof {
            lemma_split_nonempty(pairs@[i as int].0@);
            assert(s.take(i + 1).drop_last() == s.take(i as int));
            assert(views(segs@).skip(0) == views(segs@));
        }
        result = set_path(result, &segs, 0, value);
        i = i + 1;
    }
    assert(s.take(pairs.len() as int) == s);
    result
}

/// Reverts `delta` on `original`: applies the delta whose changes are those
/// of `delta`, each inverted, at the same paths.
pub fn revert(original: &Value, delta: &Delta) -> (r: Value)
    ensures
        r.model() == apply_pairs(original.model(), invert_pairs(delta.model())),
{
    let inverse = delta.inverted();
    apply(original, &inverse)
}

} // verus!
