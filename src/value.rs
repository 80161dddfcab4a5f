//! The document model: JSON values held as plain data, with a mathematical
//! view in which objects are maps from keys to values.
use vstd::prelude::*;

verus! {

broadcast use vstd::std_specs::vec::axiom_vec_index_decreases;

/// Bit pattern of the IEEE-754 negative zero.
pub const NEG_ZERO_BITS: u64 = 0x8000_0000_0000_0000;

/// A JSON number. A non-negative integer, a negative integer, or a
/// floating-point number held by its IEEE-754 bit pattern.
#[derive(Debug, Clone, Copy)]
pub enum Number {
    PosInt(u64),
    NegInt(i64),
    Float(u64),
}

impl View for Number {
    type V = Number;

    /// Two floats that differ only in the sign of zero compare equal, so the
    /// view takes negative zero to positive zero.
    open spec fn view(&self) -> Number {
        match *self {
            Number::Float(bits) => if bits == NEG_ZERO_BITS {
                Number::Float(0)
            } else {
                *self
            },
            _ => *self,
        }
    }
}

/// A JSON document node.
///
/// An object is a list of entries; where a key occurs more than once, the
/// last entry holds its value.
#[derive(Debug)]
pub enum Value {
    Null,
    Bool(bool),
    Number(Number),
    String(String),
    Array(Vec<Value>),
    Object(Vec<(String, Value)>),
}

/// The mathematical view of a `Value`: objects are maps, strings are
/// sequences of characters.
pub enum JsonModel {
    Null,
    Bool(bool),
    Number(Number),
    Str(Seq<char>),
    Array(Seq<JsonModel>),
    Object(Map<Seq<char>, JsonModel>),
}

/// The map that a list of object entries denotes: later entries win.
pub open spec fn entries_model(entries: Seq<(String, Value)>) -> Map<Seq<char>, JsonModel>
    decreases entries,
{
    if entries.len() == 0 {
        Map::empty()
    } else {
        let last = entries.last();
        entries_model(entries.drop_last()).insert(last.0@, last.1.model())
    }
}

/// The views of a list of values, in order.
pub open spec fn items_model(items: Seq<Value>) -> Seq<JsonModel>
    decreases items,
{
    if items.len() == 0 {
        Seq::empty()
    } else {
        items_model(items.drop_last()).push(items.last().model())
    }
}

impl Value {
    pub open spec fn model(self) -> JsonModel
        decreases self,
    {
        match self {
            Value::Null => JsonModel::Null,
            Value::Bool(b) => JsonModel::Bool(b),
            Value::Number(n) => JsonModel::Number(n@),
            Value::String(s) => JsonModel::Str(s@),
            Value::Array(items) => JsonModel::Array(items_model(items@)),
            Value::Object(entries) => JsonModel::Object(entries_model(entries@)),
        }
    }
}


/// Every index below `items.len()` of the list has its element's view in
/// the list's view.
pub proof fn lemma_items_model(items: Seq<Value>)
    ensures
        items_model(items).len() == items.len(),
        forall|i: int| 0 <= i < items.len() ==> #[trigger] items_model(items)[i] == items[i].model(),
    decreases items.len(),
{
    if items.len() > 0 {
        lemma_items_model(items.drop_last());
    }
}

/// A key is in the map of a list of entries exactly when some entry has it,
/// and its value is that of the last such entry.
pub proof fn lemma_entries_model(entries: Seq<(String, Value)>)
    ensures
        forall|k: Seq<char>| #[trigger]
            entries_model(entries).contains_key(k) <==> exists|i: int|
                0 <= i < entries.len() && (#[trigger] entries[i]).0@ == k,
        forall|i: int|
            0 <= i < entries.len() && (forall|j: int|
                i < j < entries.len() ==> (#[trigger] entries[j]).0@ != entries[i].0@)
                ==> entries_model(entries)[(#[trigger] entries[i]).0@] == entries[i].1.model(),
    decreases entries.len(),
{
    if entries.len() > 0 {
        let init = entries.drop_last();
        lemma_entries_model(init);
        assert forall|k: Seq<char>| #[trigger]
            entries_model(entries).contains_key(k) <==> exists|i: int|
                0 <= i < entries.len() && (#[trigger] entries[i]).0@ == k by {
            if entries_model(init).contains_key(k) {
                let i = choose|i: int| 0 <= i < init.len() && (#[trigger] init[i]).0@ == k;
                assert(entries[i] == init[i]);
            }
            if exists|i: int| 0 <= i < entries.len() && (#[trigger] entries[i]).0@ == k {
                let i = choose|i: int| 0 <= i < entries.len() && (#[trigger] entries[i]).0@ == k;
                if i < init.len() {
                    assert(init[i] == entries[i]);
                }
            }
        }
        assert forall|i: int|
            0 <= i < entries.len() && (forall|j: int|
                i < j < entries.len() ==> (#[trigger] entries[j]).0@ != entries[i].0@)
                implies entries_model(entries)[(#[trigger] entries[i]).0@] == entries[i].1.model() by {
            if i < init.len() {
                assert(entries[entries.len() - 1].0@ != entries[i].0@);
                assert forall|j: int| i < j < init.len() implies (#[trigger] init[j]).0@ != init[i].0@ by {
                    assert(init[j] == entries[j]);
                }
                assert(init[i] == entries[i]);
            }
        }
    }
}

/// The list of entries without those whose key is `k`, order kept.
pub open spec fn without_key(entries: Seq<(String, Value)>, k: Seq<char>) -> Seq<(String, Value)>
    decreases entries.len(),
{
    if entries.len() == 0 {
        entries
    } else if entries.last().0@ == k {
        without_key(entries.drop_last(), k)
    } else {
        without_key(entries.drop_last(), k).push(entries.last())
    }
}

/// Dropping the entries of one key removes that key from the map.
pub proof fn lemma_without_key(entries: Seq<(String, Value)>, k: Seq<char>)
    ensures
        entries_model(without_key(entries, k)) == entries_model(entries).remove(k),
    decreases entries.len(),
{
    if entries.len() > 0 {
        lemma_without_key(entries.drop_last(), k);
        let w = without_key(entries, k);
        if entries.last().0@ != k {
            assert(w.drop_last() == without_key(entries.drop_last(), k));
        }
        assert(entries_model(without_key(entries, k)) =~= entries_model(entries).remove(k));
    }
}

/// An empty object.
pub open spec fn empty_object_model() -> JsonModel {
    JsonModel::Object(Map::empty())
}

impl Value {
    /// A fresh object with no entries.
    pub fn empty_object() -> (r: Value)
        ensures
            r.model() == empty_object_model(),
    {
        let entries: Vec<(String, Value)> = Vec::new();
        let r = Value::Object(entries);
        assert(r.model()->Object_0 =~= Map::empty());
        r
    }

    /// A deep copy: a new value, sharing nothing, with the same view.
    #[verifier::loop_isolation(false)]
    pub fn deep_copy(&self) -> (r: Value)
        ensures
            r.model() == self.model(),
        decreases self,
    {
        match self {
            Value::Null => Value::Null,
            Value::Bool(b) => Value::Bool(*b),
            Value::Number(n) => Value::Number(*n),
            Value::String(s) => Value::String(s.clone()),
            Value::Array(items) => {
                let mut out: Vec<Value> = Vec::new();
                let mut i: usize = 0;
                while i < items.len()
                    invariant
                        i <= items.len(),
                        items_model(out@) == items_model(items@.take(i as int)),
                    decreases items.len() - i,
                {
                    assert(decreases_to!(*items => items[i as int]));
                    let c = items[i].deep_copy();
                    proof {
                        let ghost prev = out@;
                        assert(items@.take(i + 1).drop_last() == items@.take(i as int));
                        assert(out@.push(c).drop_last() == prev);
                    }
                    out.push(c);
                    i = i + 1;
                }
                assert(items@.take(items.len() as int) == items@);
                Value::Array(out)
            },
            Value::Object(entries) => {
                let mut out: Vec<(String, Value)> = Vec::new();
                let mut i: usize = 0;
                while i < entries.len()
                    invariant
                        i <= entries.len(),
                        entries_model(out@) == entries_model(entries@.take(i as int)),
                    decreases entries.len() - i,
                {
                    assert(decreases_to!(*entries => entries[i as int]));
                    let c = entries[i].1.deep_copy();
                    let k = entries[i].0.clone();
                    proof {
                        let ghost prev = out@;
                        assert(entries@.take(i + 1).drop_last() == entries@.take(i as int));
                        assert(out@.push((k, c)).drop_last() == prev);
                    }
                    out.push((k, c));
                    i = i + 1;
                }
                assert(entries@.take(entries.len() as int) == entries@);
                Value::Object(out)
            },
        }
    }
}


/// The index of the last entry with key `key`, which holds the key's value.
pub fn find_key(entries: &Vec<(String, Value)>, key: &String) -> (r: Option<usize>)
    ensures
        r is None <==> !entries_model(entries@).contains_key(key@),
        r is Some ==> r->0 < entries.len() && entries@[r->0 as int].0@ == key@
            && entries_model(entries@)[key@] == entries@[r->0 as int].1.model(),
{
    proof {
        lemma_entries_model(entries@);
    }
    let mut i: usize = entries.len();
    while i > 0
        invariant
            i <= entries.len(),
            forall|j: int| i <= j < entries.len() ==> (#[trigger] entries@[j]).0@ != key@,
        decreases i,
    {
        i = i - 1;
        if entries[i].0 == *key {
            proof {
                lemma_entries_model(entries@);
                assert(entries@[i as int].0@ == key@);
            }
            return Some(i);
        }
    }
    proof {
        assert forall|k: Seq<char>| k == key@ implies !entries_model(entries@).contains_key(k) by {
            if entries_model(entries@).contains_key(k) {
                let j = choose|j: int| 0 <= j < entries.len() && (#[trigger] entries@[j]).0@ == k;
            }
        }
    }
    None
}

/// Removes every entry with key `key`; hands back the rest, in order, and
/// the value that the key had.
pub fn take_key(entries: Vec<(String, Value)>, key: &String) -> (r: (
    Vec<(String, Value)>,
    Option<Value>,
))
    ensures
        entries_model(r.0@) == entries_model(entries@).remove(key@),
        r.1 is None <==> !entries_model(entries@).contains_key(key@),
        r.1 is Some ==> r.1->0.model() == entries_model(entries@)[key@],
{
    let ghost all = entries@;
    let total: usize = entries.len();
    let mut rest = entries;
    let mut out: Vec<(String, Value)> = Vec::new();
    let mut found: Option<Value> = None;
    let mut n: usize = 0;
    while rest.len() > 0
        invariant
            n <= all.len(),
            all.len() == total,
            n + rest.len() == all.len(),
            rest@ == all.skip(n as int),
            out@ == without_key(all.take(n as int), key@),
            found is None <==> !entries_model(all.take(n as int)).contains_key(key@),
            found is Some ==> found->0.model() == entries_model(all.take(n as int))[key@],
        decreases rest.len(),
    {
        let e = rest.remove(0);
        proof {
            assert(all.take(n + 1).drop_last() == all.take(n as int));
            assert(all.take(n + 1).last() == e);
            assert(rest@ == all.skip(n + 1));
        }
        if e.0 == *key {
            found = Some(e.1);
        } else {
            out.push(e);
        }
        n = n + 1;
    }
    proof {
        assert(all.take(n as int) == all);
        lemma_without_key(all, key@);
    }
    (out, found)
}

impl Value {
    /// The value at `key`, where this is an object that has the key.
    pub fn get(&self, key: &str) -> (r: Option<&Value>)
        ensures
            r is Some <==> (self.model() is Object && self.model()->Object_0.contains_key(key@)),
            r is Some ==> r->0.model() == self.model()->Object_0[key@],
    {
        match self {
            Value::Object(entries) => {
                let k = key.to_owned();
                match find_key(entries, &k) {
                    Some(i) => Some(&entries[i].1),
                    None => None,
                }
            },
            _ => None,
        }
    }
}

impl Number {
    /// Equality of numbers: the same integer, or floats with the same bit
    /// pattern up to the sign of zero.
    pub fn same_number(&self, o: &Number) -> (r: bool)
        ensures
            r == (self@ == o@),
    {
        match (*self, *o) {
            (Number::PosInt(x), Number::PosInt(y)) => x == y,
            (Number::NegInt(x), Number::NegInt(y)) => x == y,
            (Number::Float(x), Number::Float(y)) => {
                let cx = if x == NEG_ZERO_BITS {
                    0
                } else {
                    x
                };
                let cy = if y == NEG_ZERO_BITS {
                    0
                } else {
                    y
                };
                cx == cy
            },
            _ => false,
        }
    }
}

impl PartialEq for Number {
    fn eq(&self, o: &Number) -> (r: bool) {
        self.same_number(o)
    }
}

impl vstd::std_specs::cmp::PartialEqSpecImpl for Number {
    open spec fn obeys_eq_spec() -> bool {
        true
    }

    open spec fn eq_spec(&self, o: &Number) -> bool {
        self@ == o@
    }
}

impl Value {
    /// Deep equality: the two values have the same view. Objects are equal
    /// when they map the same keys to equal values, whatever the order of
    /// their entries.
    pub fn same_value(&self, o: &Value) -> (r: bool)
        ensures
            r == (self.model() == o.model()),
        decreases self,
    {
        match (self, o) {
            (Value::Null, Value::Null) => true,
            (Value::Bool(x), Value::Bool(y)) => *x == *y,
            (Value::Number(x), Value::Number(y)) => x.same_number(y),
            (Value::String(x), Value::String(y)) => *x == *y,
            (Value::Array(x), Value::Array(y)) => same_items(x, y),
            (Value::Object(ea), Value::Object(eb)) => same_entries(ea, eb),
            _ => false,
        }
    }
}

/// Element-wise equality of two lists of values.
pub fn same_items(x: &Vec<Value>, y: &Vec<Value>) -> (r: bool)
    ensures
        r == (items_model(x@) == items_model(y@)),
    decreases x,
{
    proof {
        lemma_items_model(x@);
        lemma_items_model(y@);
    }
    if x.len() != y.len() {
        return false;
    }
    let mut i: usize = 0;
    while i < x.len()
        invariant
            i <= x.len(),
            x.len() == y.len(),
            forall|j: int| 0 <= j < i ==> (#[trigger] x@[j]).model() == y@[j].model(),
        decreases x.len() - i,
    {
        assert(decreases_to!(*x => x[i as int]));
        if !x[i].same_value(&y[i]) {
            proof {
                lemma_items_model(x@);
                lemma_items_model(y@);
            }
            assert(items_model(x@)[i as int] != items_model(y@)[i as int]);
            return false;
        }
        i = i + 1;
    }
    proof {
        lemma_items_model(x@);
        lemma_items_model(y@);
    }
    assert(items_model(x@) =~= items_model(y@));
    true
}

/// Equality of the maps that two lists of entries denote.
pub fn same_entries(ea: &Vec<(String, Value)>, eb: &Vec<(String, Value)>) -> (r: bool)
    ensures
        r == (entries_model(ea@) == entries_model(eb@)),
    decreases ea,
{
    let ghost ma = entries_model(ea@);
    let ghost mb = entries_model(eb@);
    let mut i: usize = 0;
    while i < ea.len()
        invariant
            i <= ea.len(),
            ma == entries_model(ea@),
            mb == entries_model(eb@),
            forall|j: int|
                0 <= j < i ==> mb.contains_key((#[trigger] ea@[j]).0@) && ma.contains_key(
                    ea@[j].0@,
                ) && ma[ea@[j].0@]
                    == mb[ea@[j].0@],
        decreases ea.len() - i,
    {
        let x = find_key(ea, &ea[i].0);
        let y = find_key(eb, &ea[i].0);
        match (x, y) {
            (Some(x), Some(y)) => {
                assert(decreases_to!(*ea => ea[x as int]));
                if !ea[x].1.same_value(&eb[y].1) {
                    return false;
                }
            },
            _ => {
                proof {
                    lemma_entries_model(ea@);
                    assert(ma.contains_key(ea@[i as int].0@));
                }
                return false;
            },
        }
        i = i + 1;
    }
    let mut j: usize = 0;
    while j < eb.len()
        invariant
            j <= eb.len(),
            ma == entries_model(ea@),
            mb == entries_model(eb@),
            forall|l: int| 0 <= l < j ==> ma.contains_key((#[trigger] eb@[l]).0@),
        decreases eb.len() - j,
    {
        if find_key(ea, &eb[j].0).is_none() {
            proof {
                lemma_entries_model(eb@);
                assert(mb.contains_key(eb@[j as int].0@));
            }
            return false;
        }
        j = j + 1;
    }
    proof {
        lemma_entries_model(ea@);
        lemma_entries_model(eb@);
    }
    assert forall|k: Seq<char>| ma.contains_key(k) implies mb.contains_key(k) && ma[k]
        == mb[k] by {
        let l = choose|l: int| 0 <= l < ea.len() && (#[trigger] ea@[l]).0@ == k;
    }
    assert forall|k: Seq<char>| mb.contains_key(k) implies ma.contains_key(k) by {
        let l = choose|l: int| 0 <= l < eb.len() && (#[trigger] eb@[l]).0@ == k;
    }
    assert(ma =~= mb);
    true
}

impl PartialEq for Value {
    fn eq(&self, o: &Value) -> (r: bool) {
        self.same_value(o)
    }
}

impl vstd::std_specs::cmp::PartialEqSpecImpl for Value {
    open spec fn obeys_eq_spec() -> bool {
        true
    }

    open spec fn eq_spec(&self, o: &Value) -> bool {
        self.model() == o.model()
    }
}

} // verus!
