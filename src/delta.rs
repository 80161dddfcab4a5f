//! Changes and deltas: what differs at one path, and the set of all such
//! differences, kept in ascending order of path.
use crate::value::{JsonModel, Value};
use core::cmp::Ordering;
use vstd::prelude::*;

verus! {

/// The view of a `Change`.
pub enum ChangeModel {
    Add(JsonModel),
    Remove(JsonModel),
    Modify(JsonModel, JsonModel),
}

impl ChangeModel {
    /// Adds and removes trade places; a modification swaps its two sides.
    pub open spec fn inverse(self) -> ChangeModel {
        match self {
            ChangeModel::Add(v) => ChangeModel::Remove(v),
            ChangeModel::Remove(v) => ChangeModel::Add(v),
            ChangeModel::Modify(a, b) => ChangeModel::Modify(b, a),
        }
    }

    /// The value that the change leaves at its path, if any.
    pub open spec fn target(self) -> Option<JsonModel> {
        match self {
            ChangeModel::Add(v) => Some(v),
            ChangeModel::Remove(_) => None,
            ChangeModel::Modify(_, b) => Some(b),
        }
    }
}

/// Inverting a change twice gives the change back.
pub proof fn lemma_inverse_involution(c: ChangeModel)
    ensures
        c.inverse().inverse() == c,
{
}

/// What differs at one path.
#[derive(Debug)]
pub enum Change {
    /// The path holds a value only in the target document.
    Add(Value),
    /// The path holds a value only in the source document.
    Remove(Value),
    /// The path holds different values in the two documents.
    Modify { before: Value, after: Value },
}

impl Change {
    pub open spec fn model(self) -> ChangeModel {
        match self {
            Change::Add(v) => ChangeModel::Add(v.model()),
            Change::Remove(v) => ChangeModel::Remove(v.model()),
            Change::Modify { before, after } => ChangeModel::Modify(before.model(), after.model()),
        }
    }

    /// The change that undoes this one.
    pub fn inverse(self) -> (r: Change)
        ensures
            r.model() == self.model().inverse(),
    {
        match self {
            Change::Add(v) => Change::Remove(v),
            Change::Remove(v) => Change::Add(v),
            Change::Modify { before, after } => Change::Modify { before: after, after: before },
        }
    }

    /// A deep copy with the same view.
    pub fn deep_copy(&self) -> (r: Change)
        ensures
            r.model() == self.model(),
    {
        match self {
            Change::Add(v) => Change::Add(v.deep_copy()),
            Change::Remove(v) => Change::Remove(v.deep_copy()),
            Change::Modify { before, after } => Change::Modify {
                before: before.deep_copy(),
                after: after.deep_copy(),
            },
        }
    }

    /// Equality of views.
    pub fn same_change(&self, o: &Change) -> (r: bool)
        ensures
            r == (self.model() == o.model()),
    {
        match (self, o) {
            (Change::Add(x), Change::Add(y)) => x.same_value(y),
            (Change::Remove(x), Change::Remove(y)) => x.same_value(y),
            (
                Change::Modify { before: a, after: b },
                Change::Modify { before: c, after: d },
            ) => a.same_value(c) && b.same_value(d),
            _ => false,
        }
    }
}

impl PartialEq for Change {
    fn eq(&self, o: &Change) -> (r: bool) {
        self.same_change(o)
    }
}

impl vstd::std_specs::cmp::PartialEqSpecImpl for Change {
    open spec fn obeys_eq_spec() -> bool {
        true
    }

    open spec fn eq_spec(&self, o: &Change) -> bool {
        self.model() == o.model()
    }
}

/// Lexicographic order of character sequences, by code point.
pub open spec fn chars_cmp(a: Seq<char>, b: Seq<char>) -> Ordering
    decreases a.len(),
{
    if a.len() == 0 {
        if b.len() == 0 {
            Ordering::Equal
        } else {
            Ordering::Less
        }
    } else if b.len() == 0 {
        Ordering::Greater
    } else if a[0] < b[0] {
        Ordering::Less
    } else if a[0] > b[0] {
        Ordering::Greater
    } else {
        chars_cmp(a.drop_first(), b.drop_first())
    }
}

/// Relies on `Ord for str`: strings are ordered lexicographically by their
/// UTF-8 bytes, which orders them as their sequences of code points.
#[verifier::external_body]
fn compare_str(a: &str, b: &str) -> (r: Ordering)
    ensures
        r == chars_cmp(a@, b@),
{
    a.cmp(b)
}

pub proof fn lemma_cmp_equal(a: Seq<char>, b: Seq<char>)
    ensures
        (chars_cmp(a, b) == Ordering::Equal) == (a == b),
    decreases a.len(),
{
    if a.len() > 0 && b.len() > 0 {
        lemma_cmp_equal(a.drop_first(), b.drop_first());
        if a[0] == b[0] && a.drop_first() == b.drop_first() {
            assert forall|i: int| 0 <= i < a.len() implies a[i] == b[i] by {
                if i > 0 {
                    assert(a[i] == a.drop_first()[i - 1]);
                    assert(b[i] == b.drop_first()[i - 1]);
                }
            }
            assert(a =~= b);
        }
        if a == b {
            assert(a.drop_first() == b.drop_first());
            assert(a[0] == b[0]);
            assert(chars_cmp(a, b) == chars_cmp(a.drop_first(), b.drop_first()));
        }
        if chars_cmp(a, b) == Ordering::Equal {
            assert(!(a[0] < b[0]) && !(a[0] > b[0]));
            assert(a[0] == b[0]);
        }
    } else if a.len() == 0 && b.len() == 0 {
        assert(a =~= b);
    }
}

pub proof fn lemma_cmp_flip(a: Seq<char>, b: Seq<char>)
    ensures
        (chars_cmp(a, b) == Ordering::Less) == (chars_cmp(b, a) == Ordering::Greater),
    decreases a.len(),
{
    if a.len() > 0 && b.len() > 0 {
        lemma_cmp_flip(a.drop_first(), b.drop_first());
    }
}

pub proof fn lemma_cmp_trans(a: Seq<char>, b: Seq<char>, c: Seq<char>)
    requires
        chars_cmp(a, b) == Ordering::Less,
        chars_cmp(b, c) == Ordering::Less,
    ensures
        chars_cmp(a, c) == Ordering::Less,
    decreases a.len(),
{
    if a.len() > 0 && b.len() > 0 && c.len() > 0 {
        if a[0] == b[0] && b[0] == c[0] {
            lemma_cmp_trans(a.drop_first(), b.drop_first(), c.drop_first());
        }
    }
}

/// Paths in strictly ascending order.
pub open spec fn strictly_ascending(s: Seq<(Seq<char>, ChangeModel)>) -> bool {
    forall|i: int, j: int|
        0 <= i < j < s.len() ==> chars_cmp(#[trigger] s[i].0, #[trigger] s[j].0) == Ordering::Less
}

/// The map from path to change that a list of distinct paths denotes.
pub open spec fn map_of(s: Seq<(Seq<char>, ChangeModel)>) -> Map<Seq<char>, ChangeModel> {
    Map::new(
        |k: Seq<char>| exists|i: int| 0 <= i < s.len() && s[i].0 == k,
        |k: Seq<char>| s[choose|i: int| 0 <= i < s.len() && s[i].0 == k].1,
    )
}

/// No two entries share a path.
pub open spec fn distinct_paths(s: Seq<(Seq<char>, ChangeModel)>) -> bool {
    forall|i: int, j: int|
        0 <= i < s.len() && 0 <= j < s.len() && i != j ==> #[trigger] s[i].0 != #[trigger] s[j].0
}

pub proof fn lemma_ascending_distinct(s: Seq<(Seq<char>, ChangeModel)>)
    requires
        strictly_ascending(s),
    ensures
        distinct_paths(s),
{
    assert forall|i: int, j: int|
        0 <= i < s.len() && 0 <= j < s.len() && i != j implies #[trigger] s[i].0
        != #[trigger] s[j].0 by {
        if i < j {
            lemma_cmp_equal(s[i].0, s[j].0);
        } else {
            lemma_cmp_equal(s[j].0, s[i].0);
        }
    }
}

/// With distinct paths, the map holds each entry's change at its path.
pub proof fn lemma_map_of(s: Seq<(Seq<char>, ChangeModel)>)
    requires
        distinct_paths(s),
    ensures
        forall|i: int| 0 <= i < s.len() ==> #[trigger] map_of(s).contains_key(s[i].0) && map_of(s)[s[i].0] == s[i].1,
        forall|k: Seq<char>| #[trigger] map_of(s).contains_key(k) <==> exists|i: int| 0 <= i < s.len() && s[i].0 == k,
{
    assert forall|i: int| 0 <= i < s.len() implies #[trigger] map_of(s).contains_key(s[i].0) && map_of(s)[s[i].0] == s[i].1 by {
        let k = s[i].0;
        assert(map_of(s).dom().contains(k));
        let j = choose|j: int| 0 <= j < s.len() && s[j].0 == k;
        assert(i == j);
    }
}

/// Replacing the entry at `p`, whose path is `k`, sets `k` in the map.
proof fn lemma_replace_at(
    s: Seq<(Seq<char>, ChangeModel)>,
    p: int,
    k: Seq<char>,
    c: ChangeModel,
    t: Seq<(Seq<char>, ChangeModel)>,
)
    requires
        strictly_ascending(s),
        0 <= p < s.len(),
        chars_cmp(s[p].0, k) == Ordering::Equal,
        t == s.update(p, (k, c)),
    ensures
        strictly_ascending(t),
        map_of(t) == map_of(s).insert(k, c),
{
    lemma_cmp_equal(s[p].0, k);
    assert(t =~= s.update(p, (k, c)));
    lemma_ascending_distinct(s);
    assert(strictly_ascending(t));
    lemma_ascending_distinct(t);
    lemma_map_of(s);
    lemma_map_of(t);
    assert forall|k2: Seq<char>| #[trigger] map_of(t).contains_key(k2) <==> map_of(s).insert(k, c).contains_key(k2) by {
        if map_of(s).contains_key(k2) {
            let i = choose|i: int| 0 <= i < s.len() && s[i].0 == k2;
            assert(t[i].0 == k2);
        }
    }
    assert forall|k2: Seq<char>| #[trigger] map_of(t).contains_key(k2) implies map_of(t)[k2] == map_of(s).insert(k, c)[k2] by {
        let i = choose|i: int| 0 <= i < t.len() && t[i].0 == k2;
        if i != p {
            assert(s[i] == t[i]);
        }
    }
    assert(map_of(t) =~= map_of(s).insert(k, c));
}

/// Inserting `k` at the place where it keeps the order sets `k` in the map.
proof fn lemma_insert_at(
    s: Seq<(Seq<char>, ChangeModel)>,
    p: int,
    k: Seq<char>,
    c: ChangeModel,
    t: Seq<(Seq<char>, ChangeModel)>,
)
    requires
        strictly_ascending(s),
        0 <= p <= s.len(),
        forall|i: int| 0 <= i < p ==> chars_cmp(#[trigger] s[i].0, k) == Ordering::Less,
        p < s.len() ==> chars_cmp(s[p].0, k) == Ordering::Greater,
        t == s.insert(p, (k, c)),
    ensures
        strictly_ascending(t),
        map_of(t) == map_of(s).insert(k, c),
{
    assert(t =~= s.insert(p, (k, c)));
    assert forall|i: int, j: int| 0 <= i < j < t.len() implies chars_cmp(#[trigger] t[i].0, #[trigger] t[j].0) == Ordering::Less by {
        if j == p {
            assert(t[i] == s[i]);
        } else if i == p {
            assert(t[j] == s[j - 1]);
            lemma_cmp_flip(k, s[p].0);
            if j - 1 > p {
                lemma_cmp_trans(k, s[p].0, s[j - 1].0);
            }
        } else if j < p {
            assert(t[i] == s[i] && t[j] == s[j]);
        } else if i < p {
            assert(t[i] == s[i] && t[j] == s[j - 1]);
        } else {
            assert(t[i] == s[i - 1] && t[j] == s[j - 1]);
        }
    }
    lemma_ascending_distinct(s);
    lemma_ascending_distinct(t);
    lemma_map_of(s);
    lemma_map_of(t);
    assert(t[p].0 == k);
    assert forall|k2: Seq<char>| #[trigger] map_of(t).contains_key(k2) <==> map_of(s).insert(k, c).contains_key(k2) by {
        if map_of(s).contains_key(k2) {
            let i = choose|i: int| 0 <= i < s.len() && s[i].0 == k2;
            if i < p {
                assert(t[i].0 == k2);
            } else {
                assert(t[i + 1].0 == k2);
            }
        }
        if map_of(t).contains_key(k2) && k2 != k {
            let i = choose|i: int| 0 <= i < t.len() && t[i].0 == k2;
            if i < p {
                assert(s[i].0 == k2);
            } else {
                assert(s[i - 1].0 == k2);
            }
        }
    }
    assert forall|k2: Seq<char>| #[trigger] map_of(t).contains_key(k2) implies map_of(t)[k2] == map_of(s).insert(k, c)[k2] by {
        let i = choose|i: int| 0 <= i < t.len() && t[i].0 == k2;
        if i < p {
            assert(s[i] == t[i]);
        } else if i > p {
            assert(s[i - 1] == t[i]);
        }
    }
    assert(map_of(t) =~= map_of(s).insert(k, c));
}

/// Every change of the list inverted, paths kept.
pub open spec fn invert_pairs(s: Seq<(Seq<char>, ChangeModel)>) -> Seq<(Seq<char>, ChangeModel)> {
    s.map_values(|p: (Seq<char>, ChangeModel)| (p.0, p.1.inverse()))
}

/// The views of a list of path and change pairs.
pub open spec fn pairs_model(s: Seq<(String, Change)>) -> Seq<(Seq<char>, ChangeModel)> {
    Seq::new(s.len(), |i: int| (s[i].0@, s[i].1.model()))
}

/// A set of changes keyed by path, walked in ascending order of path. A
/// path is the `.`-joined list of object keys from the root.
#[derive(Debug)]
pub struct Delta {
    entries: Vec<(String, Change)>,
}

impl Delta {
    /// The pairs of path and change, in ascending order of path.
    pub closed spec fn model(&self) -> Seq<(Seq<char>, ChangeModel)> {
        pairs_model(self.entries@)
    }

    /// The delta as a map from path to change.
    pub open spec fn map(&self) -> Map<Seq<char>, ChangeModel> {
        map_of(self.model())
    }

    /// Well-formed: paths in strictly ascending order, hence distinct.
    pub open spec fn wf(&self) -> bool {
        strictly_ascending(self.model())
    }

    /// An empty delta.
    pub fn new() -> (r: Delta)
        ensures
            r.wf(),
            r.model() == Seq::<(Seq<char>, ChangeModel)>::empty(),
    {
        let r = Delta { entries: Vec::new() };
        assert(r.model() =~= Seq::<(Seq<char>, ChangeModel)>::empty());
        r
    }

    /// The number of paths.
    pub fn len(&self) -> (r: usize)
        ensures
            r == self.model().len(),
    {
        self.entries.len()
    }

    /// Whether the delta holds no change.
    pub fn is_empty(&self) -> (r: bool)
        ensures
            r == (self.model().len() == 0),
    {
        self.entries.len() == 0
    }

    /// Sets the change at `path`, in place of any change that it had.
    pub fn insert(&mut self, path: String, change: Change)
        requires
            old(self).wf(),
        ensures
            final(self).wf(),
            final(self).map() == old(self).map().insert(path@, change.model()),
    {
        let ghost s = self.model();
        let n = self.entries.len();
        let mut p: usize = 0;
        let mut done = false;
        let mut found = false;
        while p < n && !done
            invariant
                p <= n,
                n == self.entries.len(),
                s == pairs_model(self.entries@),
                forall|i: int| 0 <= i < p ==> chars_cmp(#[trigger] s[i].0, path@) == Ordering::Less,
                done ==> p < n,
                done && found ==> chars_cmp(s[p as int].0, path@) == Ordering::Equal,
                done && !found ==> chars_cmp(s[p as int].0, path@) == Ordering::Greater,
                !done ==> !found,
            decreases 2 * (n - p) + if done {
                0int
            } else {
                1int
            },
        {
            let o = compare_str(self.entries[p].0.as_str(), path.as_str());
            match o {
                Ordering::Less => {
                    p = p + 1;
                },
                Ordering::Equal => {
                    found = true;
                    done = true;
                },
                Ordering::Greater => {
                    done = true;
                },
            }
        }
        let ghost k = path@;
        let ghost c = change.model();
        if found {
            let _ = self.entries.remove(p);
            self.entries.insert(p, (path, change));
            proof {
                assert(self.model() =~= s.update(p as int, (k, c)));
                lemma_replace_at(s, p as int, k, c, self.model());
            }
        } else {
            self.entries.insert(p, (path, change));
            proof {
                assert(self.model() =~= s.insert(p as int, (k, c)));
                lemma_insert_at(s, p as int, k, c, self.model());
            }
        }
    }

    /// The change at `path`, if there is one.
    pub fn get(&self, path: &str) -> (r: Option<&Change>)
        requires
            self.wf(),
        ensures
            r is Some <==> self.map().contains_key(path@),
            r is Some ==> r->0.model() == self.map()[path@],
    {
        let mut i: usize = 0;
        while i < self.entries.len()
            invariant
                self.wf(),
                i <= self.entries.len(),
                forall|j: int| 0 <= j < i ==> (#[trigger] self.model()[j]).0 != path@,
            decreases self.entries.len() - i,
        {
            if let Ordering::Equal = compare_str(self.entries[i].0.as_str(), path) {
                proof {
                    lemma_cmp_equal(self.entries@[i as int].0@, path@);
                    assert(self.model()[i as int].0 == path@);
                    lemma_ascending_distinct(self.model());
                    lemma_map_of(self.model());
                }
                return Some(&self.entries[i].1);
            }
            proof {
                lemma_cmp_equal(self.entries@[i as int].0@, path@);
            }
            i = i + 1;
        }
        proof {
            lemma_ascending_distinct(self.model());
            lemma_map_of(self.model());
        }
        None
    }

    /// Equality of the lists of paths and changes.
    pub fn same_delta(&self, o: &Delta) -> (r: bool)
        ensures
            r == (self.model() == o.model()),
    {
        if self.entries.len() != o.entries.len() {
            assert(self.model().len() != o.model().len());
            return false;
        }
        let mut i: usize = 0;
        while i < self.entries.len()
            invariant
                i <= self.entries.len(),
                self.entries.len() == o.entries.len(),
                forall|j: int| 0 <= j < i ==> #[trigger] self.model()[j] == o.model()[j],
            decreases self.entries.len() - i,
        {
            if self.entries[i].0 != o.entries[i].0 || !self.entries[i].1.same_change(&o.entries[i].1) {
                assert(self.model()[i as int] != o.model()[i as int]);
                return false;
            }
            i = i + 1;
        }
        assert(self.model() =~= o.model());
        true
    }

    /// The delta with every change inverted, at the same paths.
    pub fn inverted(&self) -> (r: Delta)
        ensures
            r.model() == invert_pairs(self.model()),
            self.wf() ==> r.wf(),
    {
        let mut out: Vec<(String, Change)> = Vec::new();
        let mut i: usize = 0;
        while i < self.entries.len()
            invariant
                i <= self.entries.len(),
                out.len() == i,
                pairs_model(out@) == invert_pairs(self.model().take(i as int)),
            decreases self.entries.len() - i,
        {
            let c = self.entries[i].1.deep_copy().inverse();
            let ghost before = out@;
            out.push((self.entries[i].0.clone(), c));
            proof {
                assert forall|j: int| 0 <= j < i + 1 implies #[trigger] pairs_model(out@)[j]
                    == invert_pairs(self.model().take(i + 1))[j] by {
                    if j < i {
                        assert(out@[j] == before[j]);
                        assert(pairs_model(before)[j] == invert_pairs(self.model().take(i as int))[j]);
                    }
                }
                assert(pairs_model(out@) =~= invert_pairs(self.model().take(i + 1)));
            }
            i = i + 1;
        }
        assert(self.model().take(self.entries.len() as int) == self.model());
        let r = Delta { entries: out };
        r
    }

    /// The pairs of path and change, in ascending order of path.
    pub fn pairs(&self) -> (r: &Vec<(String, Change)>)
        ensures
            pairs_model(r@) == self.model(),
    {
        &self.entries
    }
}

impl PartialEq for Delta {
    fn eq(&self, o: &Delta) -> (r: bool) {
        self.same_delta(o)
    }
}

impl vstd::std_specs::cmp::PartialEqSpecImpl for Delta {
    open spec fn obeys_eq_spec() -> bool {
        true
    }

    open spec fn eq_spec(&self, o: &Delta) -> bool {
        self.model() == o.model()
    }
}

} // verus!
