//! Sets of state numbers that remember the order of insertion, so that a
//! state number leads to its place in a table in constant time.

use vstd::prelude::*;

verus! {

/// `indexmap::IndexSet`, a hash set that keeps its items in the order of
/// insertion.
#[verifier::external_type_specification]
#[verifier::external_body]
#[verifier::reject_recursive_types(T)]
#[verifier::reject_recursive_types(S)]
pub struct ExIndexSet<T, S>(indexmap::IndexSet<T, S>);

/// A set of state numbers in the order of insertion.
pub type NodeSet = indexmap::IndexSet<u64>;

/// The state numbers of a set, in the order of insertion.
pub uninterp spec fn node_seq(s: NodeSet) -> Seq<u64>;

/// `IndexSet::new`: a set without items.
#[verifier::external_body]
pub(crate) fn node_set_new() -> (r: NodeSet)
    ensures
        node_seq(r) == Seq::<u64>::empty(),
{
    indexmap::IndexSet::new()
}

/// `IndexSet::insert_full`: where the item is in the set already, the set
/// stays as it is and the call returns the item's place and `false`;
/// otherwise the item is added at the end and the call returns that place
/// and `true`.
#[verifier::external_body]
pub(crate) fn node_set_insert(s: &mut NodeSet, x: u64) -> (r: (usize, bool))
    ensures
        node_seq(*old(s)).contains(x) ==> !r.1 && node_seq(*final(s)) == node_seq(*old(s)) && r.0
            < node_seq(*old(s)).len() && node_seq(*old(s))[r.0 as int] == x,
        !node_seq(*old(s)).contains(x) ==> r.1 && r.0 == node_seq(*old(s)).len() && node_seq(
            *final(s),
        ) == node_seq(*old(s)).push(x),
{
    s.insert_full(x)
}

/// `IndexSet::get_index_of`: the place of an item, if it is in the set.
#[verifier::external_body]
pub(crate) fn node_set_index_of(s: &NodeSet, x: u64) -> (r: Option<usize>)
    ensures
        match r {
            Some(i) => i < node_seq(*s).len() && node_seq(*s)[i as int] == x,
            None => !node_seq(*s).contains(x),
        },
{
    s.get_index_of(&x)
}

/// The first place of `k` in `keys`, or the length of `keys` where it is
/// not among them.
pub open spec fn key_slot(keys: Seq<u64>, k: u64) -> int
    decreases keys.len(),
{
    if keys.len() == 0 {
        0
    } else {
        let p = key_slot(keys.drop_last(), k);
        if p < keys.len() - 1 {
            p
        } else if keys.last() == k {
            keys.len() - 1
        } else {
            keys.len() as int
        }
    }
}

/// The slot of a key lies in the list or at its end, holds the key unless it
/// is the end, and no earlier place holds the key.
pub proof fn lemma_key_slot(keys: Seq<u64>, k: u64)
    ensures
        0 <= key_slot(keys, k) <= keys.len(),
        key_slot(keys, k) < keys.len() ==> keys[key_slot(keys, k)] == k,
        forall|j: int| 0 <= j < key_slot(keys, k) ==> keys[j] != k,
        key_slot(keys, k) < keys.len() <==> keys.contains(k),
    decreases keys.len(),
{
    if keys.len() > 0 {
        let t = keys.drop_last();
        lemma_key_slot(t, k);
        assert forall|j: int| 0 <= j < key_slot(keys, k) implies keys[j] != k by {
            if j < t.len() {
                assert(t[j] == keys[j]);
            }
        }
        if key_slot(keys, k) < keys.len() {
            assert(keys[key_slot(keys, k)] == k);
        }
        if keys.contains(k) {
            let i = choose|i: int| 0 <= i < keys.len() && keys[i] == k;
        }
    } else {
        if keys.contains(k) {
            let i = choose|i: int| 0 <= i < keys.len() && keys[i] == k;
        }
    }
}

} // verus!
