use crate::labels::{lview, lookup, sorted_unique, str_bytes, lemma_lt_asym};
use indexmap::IndexMap;
use vstd::prelude::*;

verus! {

#[verifier::external_type_specification]
#[verifier::external_body]
#[verifier::reject_recursive_types(K)]
#[verifier::reject_recursive_types(V)]
#[verifier::reject_recursive_types(S)]
pub struct ExIndexMap<K, V, S>(IndexMap<K, V, S>);

/// What a label map holds: its `(key bytes, value bytes)` pairs, in the
/// map's own iteration order (insertion order).
pub uninterp spec fn label_entries(m: IndexMap<String, String>) -> Seq<(Seq<u8>, Seq<u8>)>;

/// Relies on indexmap's `IndexMap::new`: a fresh map holds no entries.
#[verifier::external_body]
pub fn label_map_new() -> (m: IndexMap<String, String>)
    ensures
        label_entries(m) == Seq::<(Seq<u8>, Seq<u8>)>::empty(),
{
    IndexMap::new()
}

/// Relies on indexmap's `IndexMap::insert`: a key that is not yet present
/// is appended, with its value, at the end of the map's order.
#[verifier::external_body]
pub fn label_map_insert(m: &mut IndexMap<String, String>, k: String, v: String)
    requires
        lookup(label_entries(*old(m)), str_bytes(k@)) is None,
    ensures
        label_entries(*final(m)) == label_entries(*old(m)).push((str_bytes(k@), str_bytes(v@))),
{
    m.insert(k, v);
}

/// Relies on indexmap's `PartialEq`: two maps are equal when they hold the
/// same key-value pairs; for key-sorted maps with unique keys that is
/// equality of the entry sequences.
#[verifier::external_body]
pub fn label_map_eq(a: &IndexMap<String, String>, b: &IndexMap<String, String>) -> (r: bool)
    requires
        sorted_unique(label_entries(*a)),
        sorted_unique(label_entries(*b)),
    ensures
        r == (label_entries(*a) == label_entries(*b)),
{
    a == b
}

/// Relies on indexmap's `Clone`: the copy holds the same entries in the
/// same order.
#[verifier::external_body]
pub fn label_map_clone(m: &IndexMap<String, String>) -> (r: IndexMap<String, String>)
    ensures
        label_entries(r) == label_entries(*m),
{
    m.clone()
}

/// Relies on indexmap's iteration: entries come out in the map's order.
#[verifier::external_body]
pub fn label_map_pairs(m: &IndexMap<String, String>) -> (r: Vec<(String, String)>)
    ensures
        lview(r@) == label_entries(*m),
{
    m.iter().map(|(k, v)| (k.clone(), v.clone())).collect()
}

/// A key that differs from every key of `s` is not found.
proof fn lemma_lookup_absent(s: Seq<(Seq<u8>, Seq<u8>)>, k: Seq<u8>)
    requires
        forall|j: int| 0 <= j < s.len() ==> (#[trigger] s[j].0) != k,
    ensures
        lookup(s, k) is None,
    decreases s.len(),
{
    if s.len() > 0 {
        assert(forall|j: int|
            0 <= j < s.drop_first().len() ==> (#[trigger] s.drop_first()[j].0) != k);
        lemma_lookup_absent(s.drop_first(), k);
    }
}

/// Build a label map from a key-sorted pair list; the map then holds
/// exactly those entries, in that order.
#[verifier::loop_isolation(false)]
pub fn label_map_from_sorted(v: &Vec<(String, String)>) -> (m: IndexMap<String, String>)
    requires
        sorted_unique(lview(v@)),
    ensures
        label_entries(m) == lview(v@),
{
    let ghost target = lview(v@);
    let mut m = label_map_new();
    let mut i: usize = 0;
    while i < v.len()
        invariant
            i <= v.len(),
            label_entries(m) == target.subrange(0, i as int),
        decreases v.len() - i,
    {
        let pr: &(String, String) = vstd::slice::slice_index_get(v.as_slice(), i);
        let k = pr.0.clone();
        let val = pr.1.clone();
        proof {
            assert(target[i as int] == crate::labels::lpair(v@[i as int]));
            assert(str_bytes(k@) == target[i as int].0);
            assert forall|j: int| 0 <= j < label_entries(m).len() implies (#[trigger] label_entries(
                m,
            )[j].0) != str_bytes(k@) by {
                assert(label_entries(m)[j] == target[j]);
                lemma_lt_asym(target[j].0, target[i as int].0);
            }
            lemma_lookup_absent(label_entries(m), str_bytes(k@));
        }
        label_map_insert(&mut m, k, val);
        proof {
            assert(label_entries(m) =~= target.subrange(0, i + 1));
        }
        i += 1;
    }
    proof {
        assert(target.subrange(0, v@.len() as int) =~= target);
    }
    m
}

} // verus!
