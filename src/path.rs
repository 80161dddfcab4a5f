//! Dotted paths: a path names a place in a document by the object keys
//! that lead to it from the root, joined by `.`.
use vstd::prelude::*;

verus! {

/// The views of a list of strings.
pub open spec fn views(s: Seq<String>) -> Seq<Seq<char>> {
    s.map_values(|x: String| x@)
}

/// The pieces of `s` between its dots, in order. A string without a dot is
/// one piece; the empty string is one empty piece.
pub open spec fn split_dots(s: Seq<char>) -> Seq<Seq<char>>
    decreases s.len(),
{
    if s.len() == 0 {
        seq![Seq::empty()]
    } else {
        let init = split_dots(s.drop_last());
        if s.last() == '.' {
            init.push(Seq::empty())
        } else {
            init.update(init.len() - 1, init.last().push(s.last()))
        }
    }
}

/// A path has at least one segment.
pub proof fn lemma_split_nonempty(s: Seq<char>)
    ensures
        split_dots(s).len() >= 1,
    decreases s.len(),
{
    if s.len() > 0 {
        lemma_split_nonempty(s.drop_last());
    }
}

/// The path of a key under the place named by `path`: the key alone at the
/// root (named by the empty path), else the path, a dot and the key.
pub open spec fn child_path(path: Seq<char>, key: Seq<char>) -> Seq<char> {
    if path.len() == 0 {
        key
    } else {
        path + seq!['.'] + key
    }
}

/// Relies on `str::split` with a `char` pattern: the substrings of `path`
/// between the occurrences of `.`, in order, including empty ones.
#[verifier::external_body]
pub(crate) fn split_path(path: &str) -> (r: Vec<String>)
    ensures
        views(r@) == split_dots(path@),
{
    path.split('.').map(|p| p.to_string()).collect()
}

/// The path of `key` under `path`.
pub fn extend_path(path: &String, key: &String) -> (r: String)
    ensures
        r@ == child_path(path@, key@),
{
    if path.as_str().is_empty() {
        key.clone()
    } else {
        let mut r = path.clone();
        r.append(".");
        r.append(key.as_str());
        proof {
            reveal_strlit(".");
        }
        r
    }
}

} // verus!
