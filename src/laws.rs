//! Laws that relate the differ, the patcher and inversion.
use crate::delta::{invert_pairs, lemma_ascending_distinct, lemma_map_of, ChangeModel, Delta};
use crate::diff::{change_at, is_diff, join_path, lemma_descend};
use crate::patch::{apply_pairs, set_at};
use crate::path::{lemma_split_nonempty, split_dots};
use crate::value::{empty_object_model, JsonModel};
use vstd::prelude::*;

verus! {

/// Two different documents have a change at some place.
pub proof fn lemma_differ(a: JsonModel, b: JsonModel)
    requires
        a != b,
    ensures
        exists|q: Seq<Seq<char>>| #[trigger] change_at(a, b, q) is Some,
    decreases a,
{
    match (a, b) {
        (JsonModel::Object(ma), JsonModel::Object(mb)) => {
            if exists|k: Seq<char>| ma.contains_key(k) != mb.contains_key(k) {
                let k = choose|k: Seq<char>| ma.contains_key(k) != mb.contains_key(k);
                let q = seq![k];
                assert(q[0] == k && q.len() == 1);
                assert(change_at(a, b, q) is Some);
            } else {
                if forall|k: Seq<char>| ma.contains_key(k) ==> ma[k] == mb[k] {
                    assert(ma =~= mb);
                }
                let k = choose|k: Seq<char>| ma.contains_key(k) && ma[k] != mb[k];
                lemma_differ(ma[k], mb[k]);
                let q2 = choose|q2: Seq<Seq<char>>| #[trigger] change_at(ma[k], mb[k], q2) is Some;
                lemma_descend(ma, mb, k, q2, Seq::empty());
                assert(change_at(a, b, seq![k] + q2) is Some);
            }
        },
        _ => {
            assert(change_at(a, b, Seq::empty()) is Some);
        },
    }
}

/// What a map holds at a key.
pub open spec fn get_opt(m: Map<Seq<char>, JsonModel>, k: Seq<char>) -> Option<JsonModel> {
    if m.contains_key(k) {
        Some(m[k])
    } else {
        None
    }
}

/// The map with `k` set to the value, or removed for `None`.
pub open spec fn set_opt(m: Map<Seq<char>, JsonModel>, k: Seq<char>, o: Option<JsonModel>) -> Map<
    Seq<char>,
    JsonModel,
> {
    match o {
        Some(x) => m.insert(k, x),
        None => m.remove(k),
    }
}

/// What setting the keys `rest` below a key does to the key's value `o`.
pub open spec fn step(o: Option<JsonModel>, rest: Seq<Seq<char>>, val: Option<JsonModel>) -> Option<
    JsonModel,
> {
    if rest.len() == 0 {
        val
    } else {
        Some(
            set_at(
                match o {
                    Some(x) => x,
                    None => empty_object_model(),
                },
                rest,
                val,
            ),
        )
    }
}

/// Setting a path in an object acts on the value at its first key alone.
pub proof fn lemma_set_at_object(m: Map<Seq<char>, JsonModel>, segs: Seq<Seq<char>>, val: Option<JsonModel>)
    requires
        segs.len() >= 1,
    ensures
        set_at(JsonModel::Object(m), segs, val) == JsonModel::Object(
            set_opt(m, segs[0], step(get_opt(m, segs[0]), segs.drop_first(), val)),
        ),
{
}

/// Setting each path of a list, in order.
pub open spec fn apply_segs(v: JsonModel, e: Seq<(Seq<Seq<char>>, Option<JsonModel>)>) -> JsonModel
    decreases e.len(),
{
    if e.len() == 0 {
        v
    } else {
        set_at(apply_segs(v, e.drop_last()), e.last().0, e.last().1)
    }
}

/// The entries of `e` whose path starts with `k`, that key taken off.
pub open spec fn tails_for(e: Seq<(Seq<Seq<char>>, Option<JsonModel>)>, k: Seq<char>) -> Seq<
    (Seq<Seq<char>>, Option<JsonModel>),
>
    decreases e.len(),
{
    if e.len() == 0 {
        e
    } else {
        let t = tails_for(e.drop_last(), k);
        if e.last().0[0] == k {
            t.push((e.last().0.drop_first(), e.last().1))
        } else {
            t
        }
    }
}

/// What setting each of the entries does to the value `o` at one key.
pub open spec fn fold_opt(o: Option<JsonModel>, t: Seq<(Seq<Seq<char>>, Option<JsonModel>)>) -> Option<
    JsonModel,
>
    decreases t.len(),
{
    if t.len() == 0 {
        o
    } else {
        step(fold_opt(o, t.drop_last()), t.last().0, t.last().1)
    }
}

/// Every entry has a non-empty path.
pub open spec fn all_nonempty(e: Seq<(Seq<Seq<char>>, Option<JsonModel>)>) -> bool {
    forall|i: int| 0 <= i < e.len() ==> (#[trigger] e[i]).0.len() > 0
}

/// Setting paths in an object, key by key.
pub proof fn lemma_split_fold(m: Map<Seq<char>, JsonModel>, e: Seq<(Seq<Seq<char>>, Option<JsonModel>)>)
    requires
        all_nonempty(e),
    ensures
        apply_segs(JsonModel::Object(m), e) is Object,
        forall|k: Seq<char>|
            #[trigger] get_opt(apply_segs(JsonModel::Object(m), e)->Object_0, k) == fold_opt(
                get_opt(m, k),
                tails_for(e, k),
            ),
    decreases e.len(),
{
    if e.len() > 0 {
        let init = e.drop_last();
        assert forall|i: int| 0 <= i < init.len() implies (#[trigger] init[i]).0.len() > 0 by {
            assert(init[i] == e[i]);
        }
        lemma_split_fold(m, init);
        let prev = apply_segs(JsonModel::Object(m), init)->Object_0;
        let last = e.last();
        assert(last == e[e.len() - 1]);
        lemma_set_at_object(prev, last.0, last.1);
        let k0 = last.0[0];
        let o = step(get_opt(prev, k0), last.0.drop_first(), last.1);
        let res = set_opt(prev, k0, o);
        assert(apply_segs(JsonModel::Object(m), e) == JsonModel::Object(res));
        assert forall|k: Seq<char>| #[trigger] get_opt(res, k) == fold_opt(get_opt(m, k), tails_for(e, k)) by {
            let t = tails_for(init, k);
            assert(get_opt(prev, k) == fold_opt(get_opt(m, k), t));
            if k == k0 {
                let tp = t.push((last.0.drop_first(), last.1));
                assert(tails_for(e, k) == tp);
                assert(tp.drop_last() =~= t);
                assert(fold_opt(get_opt(m, k), tp) == step(fold_opt(get_opt(m, k), t), tp.last().0, tp.last().1));
            } else {
                assert(tails_for(e, k) == t);
            }
        }
    }
}

/// Setting paths that are all longer than one key, in a value, is setting
/// them in the document that is that value.
pub proof fn lemma_fold_some(x: JsonModel, t: Seq<(Seq<Seq<char>>, Option<JsonModel>)>)
    requires
        all_nonempty(t),
    ensures
        fold_opt(Some(x), t) == Some(apply_segs(x, t)),
    decreases t.len(),
{
    if t.len() > 0 {
        let init = t.drop_last();
        assert forall|i: int| 0 <= i < init.len() implies (#[trigger] init[i]).0.len() > 0 by {
            assert(init[i] == t[i]);
        }
        lemma_fold_some(x, init);
        assert(t.last() == t[t.len() - 1]);
    }
}

/// The entries below `k` are those of `e` that start with `k`.
pub proof fn lemma_tails_for(e: Seq<(Seq<Seq<char>>, Option<JsonModel>)>, k: Seq<char>)
    requires
        all_nonempty(e),
    ensures
        forall|j: int|
            0 <= j < tails_for(e, k).len() ==> exists|i: int|
                0 <= i < e.len() && (#[trigger] e[i]).0 == seq![k] + (#[trigger] tails_for(e, k)[j]).0
                    && e[i].1 == tails_for(e, k)[j].1,
        forall|i: int|
            0 <= i < e.len() && (#[trigger] e[i]).0[0] == k ==> exists|j: int|
                0 <= j < tails_for(e, k).len() && (#[trigger] tails_for(e, k)[j]).0 == e[i].0.drop_first(),
        (forall|i: int, l: int|
            0 <= i < e.len() && 0 <= l < e.len() && i != l ==> (#[trigger] e[i]).0 != (#[trigger] e[l]).0)
            ==> (forall|j: int, l: int|
            0 <= j < tails_for(e, k).len() && 0 <= l < tails_for(e, k).len() && j != l
                ==> (#[trigger] tails_for(e, k)[j]).0 != (#[trigger] tails_for(e, k)[l]).0),
    decreases e.len(),
{
    if e.len() > 0 {
        let init = e.drop_last();
        assert forall|i: int| 0 <= i < init.len() implies (#[trigger] init[i]).0.len() > 0 by {
            assert(init[i] == e[i]);
        }
        lemma_tails_for(init, k);
        let t0 = tails_for(init, k);
        let t = tails_for(e, k);
        let n = e.len() - 1;
        let last = e[n];
        assert(e.last() == last);
        assert(last.0.len() > 0);
        if last.0[0] == k {
            assert(last.0 =~= seq![k] + last.0.drop_first());
        }
        assert forall|j: int| 0 <= j < t.len() implies exists|i: int|
            0 <= i < e.len() && (#[trigger] e[i]).0 == seq![k] + (#[trigger] t[j]).0 && e[i].1
                == t[j].1 by {
            if j < t0.len() {
                assert(t[j] == t0[j]);
                let i = choose|i: int|
                    0 <= i < init.len() && (#[trigger] init[i]).0 == seq![k] + (#[trigger] t0[j]).0
                        && init[i].1 == t0[j].1;
                assert(e[i] == init[i]);
            } else {
                assert(e[n].0 == seq![k] + t[j].0);
            }
        }
        assert forall|i: int| 0 <= i < e.len() && (#[trigger] e[i]).0[0] == k implies exists|j: int|
            0 <= j < t.len() && (#[trigger] t[j]).0 == e[i].0.drop_first() by {
            if i < n {
                assert(e[i] == init[i]);
                let j = choose|j: int| 0 <= j < t0.len() && (#[trigger] t0[j]).0 == init[i].0.drop_first();
                assert(t[j] == t0[j]);
            } else {
                assert(t[t.len() - 1].0 == e[i].0.drop_first());
            }
        }
        if forall|i: int, l: int|
            0 <= i < e.len() && 0 <= l < e.len() && i != l ==> (#[trigger] e[i]).0 != (#[trigger] e[l]).0 {
            assert forall|i: int, l: int|
                0 <= i < init.len() && 0 <= l < init.len() && i != l implies (#[trigger] init[i]).0
                != (#[trigger] init[l]).0 by {
                assert(init[i] == e[i] && init[l] == e[l]);
            }
            assert forall|j: int, l: int|
                0 <= j < t.len() && 0 <= l < t.len() && j != l implies (#[trigger] t[j]).0
                != (#[trigger] t[l]).0 by {
                if j < t0.len() && l < t0.len() {
                    assert(t[j] == t0[j] && t[l] == t0[l]);
                } else if j < t0.len() || l < t0.len() {
                    let jj = if j < t0.len() { j } else { l };
                    let i = choose|i: int|
                        0 <= i < init.len() && (#[trigger] init[i]).0 == seq![k] + (#[trigger] t0[jj]).0
                            && init[i].1 == t0[jj].1;
                    assert(t[jj] == t0[jj]);
                    assert(e[i] == init[i]);
                    if t[j].0 == t[l].0 {
                        assert(e[i].0 == e[n].0);
                    }
                }
            }
        }
    }
}


/// The entries are the changes between `a` and `b`: each changed place once,
/// with the value that its change leaves there.
pub open spec fn exact_changes(a: JsonModel, b: JsonModel, e: Seq<(Seq<Seq<char>>, Option<JsonModel>)>) -> bool {
    &&& all_nonempty(e)
    &&& forall|i: int|
        0 <= i < e.len() ==> #[trigger] change_at(a, b, e[i].0) is Some && e[i].1 == change_at(
            a,
            b,
            e[i].0,
        )->0.target()
    &&& forall|q: Seq<Seq<char>>| #[trigger]
        change_at(a, b, q) is Some ==> exists|i: int| 0 <= i < e.len() && (#[trigger] e[i]).0 == q
    &&& forall|i: int, l: int|
        0 <= i < e.len() && 0 <= l < e.len() && i != l ==> (#[trigger] e[i]).0 != (#[trigger] e[l]).0
}

/// Where no place below key `k` has a change, setting the entries leaves
/// the value at `k` alone.
proof fn lemma_key_unchanged(
    a: JsonModel,
    b: JsonModel,
    e: Seq<(Seq<Seq<char>>, Option<JsonModel>)>,
    k: Seq<char>,
    o: Option<JsonModel>,
)
    requires
        exact_changes(a, b, e),
        forall|rest: Seq<Seq<char>>| #[trigger] change_at(a, b, seq![k] + rest) is None,
    ensures
        fold_opt(o, tails_for(e, k)) == o,
{
    lemma_tails_for(e, k);
    let t = tails_for(e, k);
    if t.len() > 0 {
        let i = choose|i: int|
            0 <= i < e.len() && (#[trigger] e[i]).0 == seq![k] + (#[trigger] t[0]).0 && e[i].1 == t[0].1;
        assert(change_at(a, b, e[i].0) is Some);
        assert(change_at(a, b, seq![k] + t[0].0) is None);
    }
}

/// Where the only changed place below key `k` is `k` itself, setting the
/// entries leaves there what that change leaves.
proof fn lemma_key_replaced(
    a: JsonModel,
    b: JsonModel,
    e: Seq<(Seq<Seq<char>>, Option<JsonModel>)>,
    k: Seq<char>,
    o: Option<JsonModel>,
)
    requires
        exact_changes(a, b, e),
        change_at(a, b, seq![k]) is Some,
        forall|rest: Seq<Seq<char>>| rest.len() > 0 ==> #[trigger] change_at(a, b, seq![k] + rest) is None,
    ensures
        fold_opt(o, tails_for(e, k)) == change_at(a, b, seq![k])->0.target(),
{
    lemma_tails_for(e, k);
    let t = tails_for(e, k);
    assert forall|j: int| 0 <= j < t.len() implies (#[trigger] t[j]).0.len() == 0 by {
        let i = choose|i: int|
            0 <= i < e.len() && (#[trigger] e[i]).0 == seq![k] + (#[trigger] t[j]).0 && e[i].1 == t[j].1;
        assert(change_at(a, b, e[i].0) is Some);
    }
    let q1 = seq![k];
    let i1 = choose|i: int| 0 <= i < e.len() && (#[trigger] e[i]).0 == q1;
    assert(e[i1].0[0] == k);
    let j1 = choose|j: int| 0 <= j < t.len() && (#[trigger] t[j]).0 == e[i1].0.drop_first();
    if t.len() > 1 {
        let other = if j1 == 0 { 1int } else { 0int };
        assert(t[other].0 =~= t[j1].0);
    }
    assert(t.len() == 1);
    let i = choose|i: int|
        0 <= i < e.len() && (#[trigger] e[i]).0 == seq![k] + (#[trigger] t[0]).0 && e[i].1 == t[0].1;
    assert(t[0].0 =~= Seq::<Seq<char>>::empty());
    assert(seq![k] + t[0].0 =~= q1);
    assert(t.drop_last() =~= Seq::<(Seq<Seq<char>>, Option<JsonModel>)>::empty());
    assert(t.last() == t[0]);
}

/// Setting exactly the changes between `a` and `b` in `a`, in any order,
/// gives `b`.
pub proof fn lemma_apply_exact(a: JsonModel, b: JsonModel, e: Seq<(Seq<Seq<char>>, Option<JsonModel>)>)
    requires
        exact_changes(a, b, e),
    ensures
        apply_segs(a, e) == b,
    decreases a,
{
    if e.len() == 0 {
        if a != b {
            lemma_differ(a, b);
            let q = choose|q: Seq<Seq<char>>| #[trigger] change_at(a, b, q) is Some;
        }
    } else {
        let q0 = e[0].0;
        assert(change_at(a, b, q0) is Some);
        assert(q0.len() > 0);
        match (a, b) {
            (JsonModel::Object(ma), JsonModel::Object(mb)) => {
                lemma_split_fold(ma, e);
                let r = apply_segs(a, e)->Object_0;
                assert forall|k: Seq<char>| #[trigger] get_opt(r, k) == get_opt(mb, k) by {
                    let t = tails_for(e, k);
                    assert(get_opt(r, k) == fold_opt(get_opt(ma, k), t));
                    assert forall|rest: Seq<Seq<char>>| #![all_triggers]
                        ma.contains_key(k) && mb.contains_key(k) ==> change_at(a, b, seq![k] + rest)
                            == change_at(ma[k], mb[k], rest) by {
                        if ma.contains_key(k) && mb.contains_key(k) {
                            lemma_descend(ma, mb, k, rest, Seq::empty());
                        }
                    }
                    assert forall|rest: Seq<Seq<char>>| #![all_triggers]
                        !(ma.contains_key(k) && mb.contains_key(k)) && rest.len() > 0
                            implies change_at(a, b, seq![k] + rest) is None by {
                        let q = seq![k] + rest;
                        assert(q[0] == k);
                        assert(q.len() > 1);
                    }
                    let q1 = seq![k];
                    assert(q1[0] == k && q1.len() == 1);
                    if ma.contains_key(k) && mb.contains_key(k) {
                        assert(q1.drop_first() =~= Seq::<Seq<char>>::empty());
                        assert(seq![k] + Seq::<Seq<char>>::empty() =~= q1);
                        if ma[k] == mb[k] {
                            lemma_key_unchanged(a, b, e, k, get_opt(ma, k));
                        } else if !(ma[k] is Object && mb[k] is Object) {
                            assert forall|rest: Seq<Seq<char>>| rest.len() > 0 implies #[trigger] change_at(
                                a,
                                b,
                                seq![k] + rest,
                            ) is None by {
                                assert(change_at(a, b, seq![k] + rest) == change_at(ma[k], mb[k], rest));
                            }
                            assert(change_at(a, b, q1) == change_at(ma[k], mb[k], Seq::empty()));
                            lemma_key_replaced(a, b, e, k, get_opt(ma, k));
                        } else {
                            lemma_tails_for(e, k);
                            assert forall|j: int| 0 <= j < t.len() implies (#[trigger] t[j]).0.len() > 0
                                && change_at(ma[k], mb[k], t[j].0) is Some && t[j].1 == change_at(
                                ma[k],
                                mb[k],
                                t[j].0,
                            )->0.target() by {
                                let i = choose|i: int|
                                    0 <= i < e.len() && (#[trigger] e[i]).0 == seq![k] + (#[trigger] t[j]).0
                                        && e[i].1 == t[j].1;
                                assert(change_at(a, b, e[i].0) is Some);
                                assert(change_at(a, b, seq![k] + t[j].0) == change_at(ma[k], mb[k], t[j].0));
                                if t[j].0.len() == 0 {
                                    assert(change_at(ma[k], mb[k], t[j].0) is None);
                                }
                            }
                            assert forall|q: Seq<Seq<char>>| #[trigger]
                                change_at(ma[k], mb[k], q) is Some implies exists|j: int|
                                0 <= j < t.len() && (#[trigger] t[j]).0 == q by {
                                assert(change_at(a, b, seq![k] + q) == change_at(ma[k], mb[k], q));
                                let i = choose|i: int| 0 <= i < e.len() && (#[trigger] e[i]).0 == seq![k] + q;
                                assert((seq![k] + q)[0] == k);
                                assert((seq![k] + q).drop_first() =~= q);
                            }
                            assert(exact_changes(ma[k], mb[k], t));
                            lemma_apply_exact(ma[k], mb[k], t);
                            lemma_fold_some(ma[k], t);
                        }
                    } else if ma.contains_key(k) || mb.contains_key(k) {
                        assert(change_at(a, b, q1) is Some);
                        lemma_key_replaced(a, b, e, k, get_opt(ma, k));
                    } else {
                        assert forall|rest: Seq<Seq<char>>| #[trigger] change_at(a, b, seq![k] + rest)
                            is None by {
                            let q = seq![k] + rest;
                            assert(q[0] == k);
                        }
                        lemma_key_unchanged(a, b, e, k, get_opt(ma, k));
                    }
                }
                assert forall|k: Seq<char>| #[trigger] r.contains_key(k) == mb.contains_key(k) by {
                    assert(get_opt(r, k) == get_opt(mb, k));
                }
                assert forall|k: Seq<char>| #[trigger] r.contains_key(k) implies r[k] == mb[k] by {
                    assert(get_opt(r, k) == get_opt(mb, k));
                }
                assert(r =~= mb);
            },
            _ => {
                assert(change_at(a, b, q0) is None);
            },
        }
    }
}


/// The pairs of a delta as key lists, each with the value that its change
/// leaves.
pub open spec fn seg_pairs(s: Seq<(Seq<char>, ChangeModel)>) -> Seq<(Seq<Seq<char>>, Option<JsonModel>)> {
    s.map_values(|p: (Seq<char>, ChangeModel)| (split_dots(p.0), p.1.target()))
}

/// Applying the pairs of a delta is setting their key lists in order.
pub proof fn lemma_apply_segs(v: JsonModel, s: Seq<(Seq<char>, ChangeModel)>)
    ensures
        apply_pairs(v, s) == apply_segs(v, seg_pairs(s)),
    decreases s.len(),
{
    if s.len() > 0 {
        lemma_apply_segs(v, s.drop_last());
        assert(seg_pairs(s).drop_last() =~= seg_pairs(s.drop_last()));
    }
}

/// A change, inverted.
pub open spec fn opt_inverse(o: Option<ChangeModel>) -> Option<ChangeModel> {
    match o {
        Some(c) => Some(c.inverse()),
        None => None,
    }
}

/// Comparing the other way round gives the inverse change at each place.
pub proof fn lemma_change_swap(a: JsonModel, b: JsonModel, q: Seq<Seq<char>>)
    ensures
        change_at(b, a, q) == opt_inverse(change_at(a, b, q)),
    decreases q.len(),
{
    if a != b && q.len() > 0 {
        match (a, b) {
            (JsonModel::Object(ma), JsonModel::Object(mb)) => {
                let k = q[0];
                if ma.contains_key(k) && mb.contains_key(k) {
                    lemma_change_swap(ma[k], mb[k], q.drop_first());
                }
            },
            _ => {},
        }
    }
}

/// Every changed place between `a` and `b` has a path that splits back into
/// its keys. This fails where a key holds a dot, where the roots differ and
/// are not both objects (the root's path is empty, which splits into one
/// empty key), and where an empty key at the root leads further down.
pub open spec fn paths_read_back(a: JsonModel, b: JsonModel) -> bool {
    forall|q: Seq<Seq<char>>| #[trigger] change_at(a, b, q) is Some ==> split_dots(join_path(q)) == q
}

/// The pairs of the delta between `a` and `b`, read as key lists, are the
/// changed places, each once.
proof fn lemma_delta_places(a: JsonModel, b: JsonModel, d: Delta)
    requires
        d.wf(),
        is_diff(d.map(), a, b),
        paths_read_back(a, b),
    ensures
        forall|i: int|
            0 <= i < d.model().len() ==> change_at(a, b, #[trigger] split_dots(d.model()[i].0)) == Some(
                d.model()[i].1,
            ) && split_dots(d.model()[i].0).len() > 0,
        forall|q: Seq<Seq<char>>| #[trigger]
            change_at(a, b, q) is Some ==> exists|i: int|
                0 <= i < d.model().len() && #[trigger] split_dots(d.model()[i].0) == q,
        forall|i: int, l: int|
            0 <= i < d.model().len() && 0 <= l < d.model().len() && i != l ==> #[trigger] split_dots(
                d.model()[i].0,
            ) != #[trigger] split_dots(d.model()[l].0),
{
    let s = d.model();
    lemma_ascending_distinct(s);
    lemma_map_of(s);
    assert forall|i: int| 0 <= i < s.len() implies change_at(a, b, #[trigger] split_dots(s[i].0)) == Some(
        s[i].1,
    ) && split_dots(s[i].0).len() > 0 && join_path(split_dots(s[i].0)) == s[i].0 by {
        assert(d.map().contains_key(s[i].0));
        let q = choose|q: Seq<Seq<char>>|
            join_path(q) == s[i].0 && #[trigger] change_at(a, b, q) == Some(d.map()[s[i].0]);
        lemma_split_nonempty(s[i].0);
    }
    assert forall|q: Seq<Seq<char>>| #[trigger] change_at(a, b, q) is Some implies exists|i: int|
        0 <= i < s.len() && #[trigger] split_dots(s[i].0) == q by {
        assert(d.map().contains_key(join_path(q)));
        let i = choose|i: int| 0 <= i < s.len() && s[i].0 == join_path(q);
        assert(split_dots(s[i].0) == q);
    }
    assert forall|i: int, l: int|
        0 <= i < s.len() && 0 <= l < s.len() && i != l implies #[trigger] split_dots(s[i].0)
        != #[trigger] split_dots(s[l].0) by {
        if split_dots(s[i].0) == split_dots(s[l].0) {
            assert(change_at(a, b, split_dots(s[i].0)) is Some);
            assert(change_at(a, b, split_dots(s[l].0)) is Some);
        }
    }
}

/// Round trip: applying `diff(before, after)` to `before` gives `after`,
/// wherever every changed place's path splits back into its keys.
pub proof fn law_round_trip(before: JsonModel, after: JsonModel, d: Delta)
    requires
        d.wf(),
        is_diff(d.map(), before, after),
        paths_read_back(before, after),
    ensures
        apply_pairs(before, d.model()) == after,
{
    let s = d.model();
    let e = seg_pairs(s);
    lemma_delta_places(before, after, d);
    assert forall|i: int| 0 <= i < e.len() implies #[trigger] change_at(before, after, e[i].0) is Some
        && e[i].1 == change_at(before, after, e[i].0)->0.target() && e[i].0.len() > 0 by {
        assert(e[i].0 == split_dots(s[i].0));
    }
    assert forall|q: Seq<Seq<char>>| #[trigger] change_at(before, after, q) is Some implies exists|i: int|
        0 <= i < e.len() && (#[trigger] e[i]).0 == q by {
        let i = choose|i: int| 0 <= i < s.len() && #[trigger] split_dots(s[i].0) == q;
        assert(e[i].0 == split_dots(s[i].0));
    }
    assert forall|i: int, l: int|
        0 <= i < e.len() && 0 <= l < e.len() && i != l implies (#[trigger] e[i]).0 != (#[trigger] e[l]).0 by {
        assert(e[i].0 == split_dots(s[i].0));
        assert(e[l].0 == split_dots(s[l].0));
    }
    lemma_apply_exact(before, after, e);
    lemma_apply_segs(before, s);
}

/// Inverse round trip: reverting `diff(before, after)` on `after` gives
/// `before`, wherever every changed place's path splits back into its keys.
pub proof fn law_inverse_round_trip(before: JsonModel, after: JsonModel, d: Delta)
    requires
        d.wf(),
        is_diff(d.map(), before, after),
        paths_read_back(before, after),
    ensures
        apply_pairs(after, invert_pairs(d.model())) == before,
{
    let s = d.model();
    let si = invert_pairs(s);
    let e = seg_pairs(si);
    lemma_delta_places(before, after, d);
    assert forall|q: Seq<Seq<char>>| #![all_triggers] true implies change_at(after, before, q) == opt_inverse(
        change_at(before, after, q),
    ) by {
        lemma_change_swap(before, after, q);
    }
    assert forall|i: int| 0 <= i < e.len() implies #[trigger] change_at(after, before, e[i].0) is Some
        && e[i].1 == change_at(after, before, e[i].0)->0.target() && e[i].0.len() > 0 by {
        assert(e[i].0 == split_dots(s[i].0));
        assert(e[i].1 == s[i].1.inverse().target());
    }
    assert forall|q: Seq<Seq<char>>| #[trigger] change_at(after, before, q) is Some implies exists|i: int|
        0 <= i < e.len() && (#[trigger] e[i]).0 == q by {
        assert(change_at(before, after, q) is Some);
        let i = choose|i: int| 0 <= i < s.len() && #[trigger] split_dots(s[i].0) == q;
        assert(e[i].0 == split_dots(s[i].0));
    }
    assert forall|i: int, l: int|
        0 <= i < e.len() && 0 <= l < e.len() && i != l implies (#[trigger] e[i]).0 != (#[trigger] e[l]).0 by {
        assert(e[i].0 == split_dots(s[i].0));
        assert(e[l].0 == split_dots(s[l].0));
    }
    lemma_apply_exact(after, before, e);
    lemma_apply_segs(after, si);
}

} // verus!
