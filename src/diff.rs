//! Computing the delta between two documents.
use crate::delta::{map_of, Change, ChangeModel, Delta};
use crate::path::{child_path, extend_path};
use crate::value::{entries_model, find_key, lemma_entries_model, JsonModel, Value};
use vstd::prelude::*;

verus! {

/// The path string of a list of keys, as the differ builds it: each key is
/// appended after a dot, except that the first is the path on its own.
pub open spec fn join_path(q: Seq<Seq<char>>) -> Seq<char>
    decreases q.len(),
{
    if q.len() == 0 {
        Seq::empty()
    } else {
        child_path(join_path(q.drop_last()), q.last())
    }
}

/// What the differ records at the place below the root that the keys `q`
/// lead to, comparing `a` with `b`.
///
/// Nothing where the two are equal. Where both are objects, the walk goes
/// on by the next key: into both values where both have it; a key that only
/// one side has is recorded there, as removed or added, with its whole value.
/// Where the two differ and are not both objects, the whole pair is recorded
/// as a modification, and nothing below it.
pub open spec fn change_at(a: JsonModel, b: JsonModel, q: Seq<Seq<char>>) -> Option<ChangeModel>
    decreases q.len(),
{
    if a == b {
        None
    } else if q.len() == 0 {
        if a is Object && b is Object {
            None
        } else {
            Some(ChangeModel::Modify(a, b))
        }
    } else {
        match (a, b) {
            (JsonModel::Object(ma), JsonModel::Object(mb)) => {
                let k = q[0];
                if ma.contains_key(k) && mb.contains_key(k) {
                    change_at(ma[k], mb[k], q.drop_first())
                } else if ma.contains_key(k) && q.len() == 1 {
                    Some(ChangeModel::Remove(ma[k]))
                } else if mb.contains_key(k) && q.len() == 1 {
                    Some(ChangeModel::Add(mb[k]))
                } else {
                    None
                }
            },
            _ => None,
        }
    }
}

/// The keys `q`, below `prefix`, lead to a change between `a` and `b` whose
/// path is `s`.
pub open spec fn reaches(
    prefix: Seq<Seq<char>>,
    a: JsonModel,
    b: JsonModel,
    q: Seq<Seq<char>>,
    s: Seq<char>,
) -> bool {
    join_path(prefix + q) == s && change_at(a, b, q) is Some
}

/// `d` is `d0` with the changes between `a` and `b`, found below `prefix`,
/// recorded at their paths. Where two places share a path, the change of
/// one of them is kept.
pub open spec fn covers(
    d0: Map<Seq<char>, ChangeModel>,
    d: Map<Seq<char>, ChangeModel>,
    prefix: Seq<Seq<char>>,
    a: JsonModel,
    b: JsonModel,
) -> bool {
    &&& forall|s: Seq<char>| #[trigger]
        d.contains_key(s) <==> d0.contains_key(s) || exists|q: Seq<Seq<char>>|
            #[trigger] reaches(prefix, a, b, q, s)
    &&& forall|s: Seq<char>| #[trigger]
        d.contains_key(s) ==> (d0.contains_key(s) && d[s] == d0[s]) || exists|q: Seq<Seq<char>>|
            #[trigger] reaches(prefix, a, b, q, s) && change_at(a, b, q) == Some(d[s])
}

/// As `covers`, for the places whose first key is in `keys`.
pub open spec fn covers_keys(
    d0: Map<Seq<char>, ChangeModel>,
    d: Map<Seq<char>, ChangeModel>,
    prefix: Seq<Seq<char>>,
    a: JsonModel,
    b: JsonModel,
    keys: Set<Seq<char>>,
) -> bool {
    &&& forall|s: Seq<char>| #[trigger]
        d.contains_key(s) <==> d0.contains_key(s) || exists|q: Seq<Seq<char>>|
            #[trigger] reaches(prefix, a, b, q, s) && q.len() > 0 && keys.contains(q[0])
    &&& forall|s: Seq<char>| #[trigger]
        d.contains_key(s) ==> (d0.contains_key(s) && d[s] == d0[s]) || exists|q: Seq<Seq<char>>|
            #[trigger] reaches(prefix, a, b, q, s) && q.len() > 0 && keys.contains(q[0])
                && change_at(a, b, q) == Some(d[s])
}

/// `d` is the delta between `a` and `b`: it holds a path exactly where some
/// place with that path has a change, and then the change of such a place.
pub open spec fn is_diff(d: Map<Seq<char>, ChangeModel>, a: JsonModel, b: JsonModel) -> bool {
    &&& forall|s: Seq<char>| #[trigger]
        d.contains_key(s) <==> exists|q: Seq<Seq<char>>|
            join_path(q) == s && #[trigger] change_at(a, b, q) is Some
    &&& forall|s: Seq<char>| #[trigger]
        d.contains_key(s) ==> exists|q: Seq<Seq<char>>|
            join_path(q) == s && #[trigger] change_at(a, b, q) == Some(d[s])
}


/// Below two different objects that both have `k`, the places that start
/// with `k` are the places below their values at `k`.
pub proof fn lemma_descend(
    ma: Map<Seq<char>, JsonModel>,
    mb: Map<Seq<char>, JsonModel>,
    k: Seq<char>,
    q2: Seq<Seq<char>>,
    prefix: Seq<Seq<char>>,
)
    requires
        ma != mb,
        ma.contains_key(k),
        mb.contains_key(k),
    ensures
        change_at(JsonModel::Object(ma), JsonModel::Object(mb), seq![k] + q2) == change_at(
            ma[k],
            mb[k],
            q2,
        ),
        prefix.push(k) + q2 == prefix + (seq![k] + q2),
        (seq![k] + q2)[0] == k,
        (seq![k] + q2).len() > 0,
{
    let q = seq![k] + q2;
    assert(q[0] == k);
    assert(q.drop_first() =~= q2);
    assert(prefix.push(k) + q2 =~= prefix + q);
}

/// The path of `k` below `prefix`.
proof fn lemma_join_push(prefix: Seq<Seq<char>>, k: Seq<char>)
    ensures
        join_path(prefix.push(k)) == child_path(join_path(prefix), k),
        prefix + seq![k] == prefix.push(k),
{
    assert(prefix.push(k).drop_last() =~= prefix);
    assert(prefix + seq![k] =~= prefix.push(k));
}

/// Recording the changes below key `k`, which both objects have.
proof fn lemma_step_child(
    d0: Map<Seq<char>, ChangeModel>,
    d1: Map<Seq<char>, ChangeModel>,
    d2: Map<Seq<char>, ChangeModel>,
    prefix: Seq<Seq<char>>,
    ma: Map<Seq<char>, JsonModel>,
    mb: Map<Seq<char>, JsonModel>,
    keys: Set<Seq<char>>,
    k: Seq<char>,
)
    requires
        ma != mb,
        ma.contains_key(k),
        mb.contains_key(k),
        covers_keys(d0, d1, prefix, JsonModel::Object(ma), JsonModel::Object(mb), keys),
        covers(d1, d2, prefix.push(k), ma[k], mb[k]),
    ensures
        covers_keys(d0, d2, prefix, JsonModel::Object(ma), JsonModel::Object(mb), keys.insert(k)),
{
    let a = JsonModel::Object(ma);
    let b = JsonModel::Object(mb);
    let ks = keys.insert(k);
    assert forall|s: Seq<char>| #[trigger]
        d2.contains_key(s) <==> d0.contains_key(s) || exists|q: Seq<Seq<char>>|
            #[trigger] reaches(prefix, a, b, q, s) && q.len() > 0 && ks.contains(q[0]) by {
        if d2.contains_key(s) && !d1.contains_key(s) {
            let q2 = choose|q2: Seq<Seq<char>>| #[trigger] reaches(prefix.push(k), ma[k], mb[k], q2, s);
            lemma_descend(ma, mb, k, q2, prefix);
            assert(reaches(prefix, a, b, seq![k] + q2, s));
        }
        if d2.contains_key(s) && d1.contains_key(s) && !d0.contains_key(s) {
            let q = choose|q: Seq<Seq<char>>|
                #[trigger] reaches(prefix, a, b, q, s) && q.len() > 0 && keys.contains(q[0]);
            assert(ks.contains(q[0]));
        }
        if exists|q: Seq<Seq<char>>|
            #[trigger] reaches(prefix, a, b, q, s) && q.len() > 0 && ks.contains(q[0]) {
            let q = choose|q: Seq<Seq<char>>|
                #[trigger] reaches(prefix, a, b, q, s) && q.len() > 0 && ks.contains(q[0]);
            if q[0] == k {
                let q2 = q.drop_first();
                assert(q =~= seq![k] + q2);
                lemma_descend(ma, mb, k, q2, prefix);
                assert(reaches(prefix.push(k), ma[k], mb[k], q2, s));
            } else {
                assert(keys.contains(q[0]));
                assert(d1.contains_key(s));
            }
        }
        if d0.contains_key(s) {
            assert(d1.contains_key(s));
        }
    }
    assert forall|s: Seq<char>| #[trigger] d2.contains_key(s) implies (d0.contains_key(s) && d2[s]
        == d0[s]) || exists|q: Seq<Seq<char>>|
        #[trigger] reaches(prefix, a, b, q, s) && q.len() > 0 && ks.contains(q[0]) && change_at(
            a,
            b,
            q,
        ) == Some(d2[s]) by {
        if d1.contains_key(s) && d2[s] == d1[s] {
            if !(d0.contains_key(s) && d1[s] == d0[s]) {
                let q = choose|q: Seq<Seq<char>>|
                    #[trigger] reaches(prefix, a, b, q, s) && q.len() > 0 && keys.contains(q[0])
                        && change_at(a, b, q) == Some(d1[s]);
                assert(ks.contains(q[0]));
            }
        } else {
            let q2 = choose|q2: Seq<Seq<char>>|
                #[trigger] reaches(prefix.push(k), ma[k], mb[k], q2, s) && change_at(ma[k], mb[k], q2)
                    == Some(d2[s]);
            lemma_descend(ma, mb, k, q2, prefix);
            assert(reaches(prefix, a, b, seq![k] + q2, s));
        }
    }
}

/// Recording the change at key `k`, which one object has and the other not.
proof fn lemma_step_leaf(
    d0: Map<Seq<char>, ChangeModel>,
    d1: Map<Seq<char>, ChangeModel>,
    prefix: Seq<Seq<char>>,
    ma: Map<Seq<char>, JsonModel>,
    mb: Map<Seq<char>, JsonModel>,
    keys: Set<Seq<char>>,
    k: Seq<char>,
    c: ChangeModel,
)
    requires
        ma != mb,
        ma.contains_key(k) != mb.contains_key(k),
        c == (if ma.contains_key(k) {
            ChangeModel::Remove(ma[k])
        } else {
            ChangeModel::Add(mb[k])
        }),
        covers_keys(d0, d1, prefix, JsonModel::Object(ma), JsonModel::Object(mb), keys),
    ensures
        covers_keys(
            d0,
            d1.insert(join_path(prefix.push(k)), c),
            prefix,
            JsonModel::Object(ma),
            JsonModel::Object(mb),
            keys.insert(k),
        ),
{
    let a = JsonModel::Object(ma);
    let b = JsonModel::Object(mb);
    let ks = keys.insert(k);
    let d2 = d1.insert(join_path(prefix.push(k)), c);
    let q1 = seq![k];
    assert(q1.drop_first() =~= Seq::<Seq<char>>::empty());
    assert(prefix + q1 =~= prefix.push(k));
    assert(change_at(a, b, q1) == Some(c));
    assert(reaches(prefix, a, b, q1, join_path(prefix.push(k))));
    assert forall|q: Seq<Seq<char>>| q.len() > 0 && q[0] == k && #[trigger] change_at(a, b, q) is Some
        implies q == q1 by {
        assert(q.len() == 1);
        assert(q =~= q1);
    }
    assert forall|s: Seq<char>| #[trigger]
        d2.contains_key(s) <==> d0.contains_key(s) || exists|q: Seq<Seq<char>>|
            #[trigger] reaches(prefix, a, b, q, s) && q.len() > 0 && ks.contains(q[0]) by {
        if d2.contains_key(s) && d1.contains_key(s) && !d0.contains_key(s) {
            let q = choose|q: Seq<Seq<char>>|
                #[trigger] reaches(prefix, a, b, q, s) && q.len() > 0 && keys.contains(q[0]);
            assert(ks.contains(q[0]));
        }
        if exists|q: Seq<Seq<char>>|
            #[trigger] reaches(prefix, a, b, q, s) && q.len() > 0 && ks.contains(q[0]) {
            let q = choose|q: Seq<Seq<char>>|
                #[trigger] reaches(prefix, a, b, q, s) && q.len() > 0 && ks.contains(q[0]);
            if q[0] != k {
                assert(keys.contains(q[0]));
            }
        }
    }
    assert forall|s: Seq<char>| #[trigger] d2.contains_key(s) implies (d0.contains_key(s) && d2[s]
        == d0[s]) || exists|q: Seq<Seq<char>>|
        #[trigger] reaches(prefix, a, b, q, s) && q.len() > 0 && ks.contains(q[0]) && change_at(
            a,
            b,
            q,
        ) == Some(d2[s]) by {
        if s == join_path(prefix.push(k)) {
            assert(ks.contains(q1[0]));
        } else if !(d0.contains_key(s) && d1[s] == d0[s]) {
            let q = choose|q: Seq<Seq<char>>|
                #[trigger] reaches(prefix, a, b, q, s) && q.len() > 0 && keys.contains(q[0])
                    && change_at(a, b, q) == Some(d1[s]);
            assert(ks.contains(q[0]));
        }
    }
}

/// Once every key of either object has been walked, all changes below the
/// two objects are recorded.
proof fn lemma_keys_done(
    d0: Map<Seq<char>, ChangeModel>,
    d: Map<Seq<char>, ChangeModel>,
    prefix: Seq<Seq<char>>,
    ma: Map<Seq<char>, JsonModel>,
    mb: Map<Seq<char>, JsonModel>,
    keys: Set<Seq<char>>,
)
    requires
        covers_keys(d0, d, prefix, JsonModel::Object(ma), JsonModel::Object(mb), keys),
        forall|k: Seq<char>| ma.contains_key(k) || mb.contains_key(k) ==> keys.contains(k),
    ensures
        covers(d0, d, prefix, JsonModel::Object(ma), JsonModel::Object(mb)),
{
    let a = JsonModel::Object(ma);
    let b = JsonModel::Object(mb);
    assert forall|q: Seq<Seq<char>>| #[trigger] change_at(a, b, q) is Some implies q.len() > 0
        && keys.contains(q[0]) by {
        if q.len() > 0 {
            assert(ma.contains_key(q[0]) || mb.contains_key(q[0]));
        }
    }
}

/// The delta between `before` and `after`: for every place below the root
/// where the two differ, as `change_at` says, the change at its dotted path.
/// Equal documents give the empty delta.
pub fn diff(before: &Value, after: &Value) -> (r: Delta)
    ensures
        r.wf(),
        is_diff(r.map(), before.model(), after.model()),
        before.model() == after.model() ==> r.model().len() == 0,
{
    let mut d = Delta::new();
    let ghost d0 = d.map();
    let path = String::new();
    proof {
        assert(d0 =~= Map::empty());
    }
    compare(&mut d, Ghost(Seq::empty()), &path, before, after);
    proof {
        let a = before.model();
        let b = after.model();
        assert forall|q: Seq<Seq<char>>| #[trigger] (Seq::<Seq<char>>::empty() + q) == q by {
            assert(Seq::<Seq<char>>::empty() + q =~= q);
        }
        assert forall|s: Seq<char>| #[trigger] d.map().contains_key(s) <==> exists|q: Seq<Seq<char>>|
            join_path(q) == s && #[trigger] change_at(a, b, q) is Some by {
            if exists|q: Seq<Seq<char>>| join_path(q) == s && #[trigger] change_at(a, b, q) is Some {
                let q = choose|q: Seq<Seq<char>>| join_path(q) == s && #[trigger] change_at(a, b, q) is Some;
                assert(Seq::<Seq<char>>::empty() + q == q);
                assert(reaches(Seq::empty(), a, b, q, s));
            }
        }
        assert forall|s: Seq<char>| #[trigger] d.map().contains_key(s) implies exists|q: Seq<Seq<char>>|
            join_path(q) == s && #[trigger] change_at(a, b, q) == Some(d.map()[s]) by {
            let q = choose|q: Seq<Seq<char>>|
                #[trigger] reaches(Seq::empty(), a, b, q, s) && change_at(a, b, q) == Some(d.map()[s]);
            assert(Seq::<Seq<char>>::empty() + q == q);
        }
        if a == b && d.model().len() > 0 {
            let k = d.model()[0].0;
            assert(map_of(d.model()).contains_key(k));
            let q = choose|q: Seq<Seq<char>>| #[trigger] reaches(Seq::empty(), a, b, q, k);
        }
    }
    d
}

/// Records in `delta` the changes between `a` and `b`, which stand at the
/// place that `prefix` names, whose path is `path`.
fn compare(
    delta: &mut Delta,
    Ghost(prefix): Ghost<Seq<Seq<char>>>,
    path: &String,
    a: &Value,
    b: &Value,
)
    requires
        old(delta).wf(),
        path@ == join_path(prefix),
    ensures
        final(delta).wf(),
        covers(old(delta).map(), final(delta).map(), prefix, a.model(), b.model()),
    decreases a,
{
    if a.same_value(b) {
        return;
    }
    match (a, b) {
        (Value::Object(ea), Value::Object(eb)) => {
            compare_entries(delta, Ghost(prefix), path, ea, eb);
        },
        _ => {
            let ghost d1 = delta.map();
            let c = Change::Modify { before: a.deep_copy(), after: b.deep_copy() };
            delta.insert(path.clone(), c);
            proof {
                let am = a.model();
                let bm = b.model();
                assert(!(am is Object && bm is Object));
                assert(prefix + Seq::<Seq<char>>::empty() =~= prefix);
                assert(reaches(prefix, am, bm, Seq::empty(), path@));
                assert forall|q: Seq<Seq<char>>| #[trigger] change_at(am, bm, q) is Some implies q
                    == Seq::<Seq<char>>::empty() by {
                    assert(q.len() == 0);
                }
            }
        },
    }
}

/// `compare` for two objects, given by their entries, that differ.
fn compare_entries(
    delta: &mut Delta,
    Ghost(prefix): Ghost<Seq<Seq<char>>>,
    path: &String,
    ea: &Vec<(String, Value)>,
    eb: &Vec<(String, Value)>,
)
    requires
        old(delta).wf(),
        path@ == join_path(prefix),
        entries_model(ea@) != entries_model(eb@),
    ensures
        final(delta).wf(),
        covers(
            old(delta).map(),
            final(delta).map(),
            prefix,
            JsonModel::Object(entries_model(ea@)),
            JsonModel::Object(entries_model(eb@)),
        ),
    decreases ea,
{
    let ghost ma = entries_model(ea@);
    let ghost mb = entries_model(eb@);
    let ghost d0 = delta.map();
    let ghost mut keys = Set::<Seq<char>>::empty();
    let mut i: usize = 0;
    while i < ea.len()
        invariant
            delta.wf(),
            i <= ea.len(),
            path@ == join_path(prefix),
            ma == entries_model(ea@),
            mb == entries_model(eb@),
            ma != mb,
            covers_keys(d0, delta.map(), prefix, JsonModel::Object(ma), JsonModel::Object(mb), keys),
            forall|j: int| 0 <= j < i ==> keys.contains((#[trigger] ea@[j]).0@),
        decreases ea.len() - i,
    {
        let k = &ea[i].0;
        let ghost d1 = delta.map();
        proof {
            lemma_entries_model(ea@);
            lemma_join_push(prefix, k@);
        }
        let x = find_key(ea, k);
        match x {
            Some(x) => {
                let child = extend_path(path, k);
                match find_key(eb, k) {
                    Some(y) => {
                        assert(decreases_to!(*ea => ea[x as int]));
                        compare(delta, Ghost(prefix.push(k@)), &child, &ea[x].1, &eb[y].1);
                        proof {
                            lemma_step_child(d0, d1, delta.map(), prefix, ma, mb, keys, k@);
                        }
                    },
                    None => {
                        let c = Change::Remove(ea[x].1.deep_copy());
                        delta.insert(child, c);
                        proof {
                            lemma_step_leaf(d0, d1, prefix, ma, mb, keys, k@, ChangeModel::Remove(ma[k@]));
                        }
                    },
                }
            },
            None => {
                assert(ma.contains_key(ea@[i as int].0@));
            },
        }
        proof {
            keys = keys.insert(k@);
        }
        i = i + 1;
    }
    proof {
        lemma_entries_model(ea@);
        assert forall|k: Seq<char>| ma.contains_key(k) implies keys.contains(k) by {
            let l = choose|l: int| 0 <= l < ea.len() && (#[trigger] ea@[l]).0@ == k;
        }
    }
    let mut j: usize = 0;
    while j < eb.len()
        invariant
            delta.wf(),
            j <= eb.len(),
            path@ == join_path(prefix),
            ma == entries_model(ea@),
            mb == entries_model(eb@),
            ma != mb,
            covers_keys(d0, delta.map(), prefix, JsonModel::Object(ma), JsonModel::Object(mb), keys),
            forall|k: Seq<char>| ma.contains_key(k) ==> keys.contains(k),
            forall|l: int| 0 <= l < j ==> keys.contains((#[trigger] eb@[l]).0@),
        decreases eb.len() - j,
    {
        let k = &eb[j].0;
        let ghost d1 = delta.map();
        proof {
            lemma_entries_model(eb@);
            lemma_join_push(prefix, k@);
        }
        if find_key(ea, k).is_none() {
            match find_key(eb, k) {
                Some(y) => {
                    let child = extend_path(path, k);
                    let c = Change::Add(eb[y].1.deep_copy());
                    delta.insert(child, c);
                    proof {
                        lemma_step_leaf(d0, d1, prefix, ma, mb, keys, k@, ChangeModel::Add(mb[k@]));
                    }
                },
                None => {
                    assert(mb.contains_key(eb@[j as int].0@));
                },
            }
        }
        proof {
            keys = keys.insert(k@);
        }
        j = j + 1;
    }
    proof {
        lemma_entries_model(ea@);
        lemma_entries_model(eb@);
        assert forall|k: Seq<char>| ma.contains_key(k) || mb.contains_key(k) implies keys.contains(k) by {
            if mb.contains_key(k) && !ma.contains_key(k) {
                let l = choose|l: int| 0 <= l < eb.len() && (#[trigger] eb@[l]).0@ == k;
            }
        }
        lemma_keys_done(d0, delta.map(), prefix, ma, mb, keys);
    }
}

} // verus!
