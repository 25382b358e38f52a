//! The priority queue of the warm-up pass, and what is taken on trust about
//! it.
//!
//! The queue is `pheap::PairingHeap` with node indices as keys and `u128`
//! priorities. It is a min-heap. The functions below are the only place
//! where it is touched; their contracts restate its documentation and are
//! not proved.

use pheap::PairingHeap;
use vstd::multiset::Multiset;
use vstd::prelude::*;

verus! {

/// `pheap::PairingHeap`, declared as a type of which nothing is seen from
/// inside: all that is known of a heap is what the functions below say.
#[verifier::external_type_specification]
#[verifier::external_body]
#[verifier::reject_recursive_types(K)]
#[verifier::reject_recursive_types(P)]
pub struct ExPairingHeap<K, P>(PairingHeap<K, P>);

/// The pairs of key and priority that a pairing heap holds.
pub uninterp spec fn pairing_entries(heap: PairingHeap<u32, u128>) -> Multiset<(u32, u128)>;

/// `PairingHeap::new`: an empty heap.
#[verifier::external_body]
pub(crate) fn pairing_new() -> (heap: PairingHeap<u32, u128>)
    ensures
        pairing_entries(heap) == Multiset::<(u32, u128)>::empty(),
{
    PairingHeap::new()
}

/// `PairingHeap::insert`: adds one pair.
#[verifier::external_body]
pub(crate) fn pairing_insert(heap: &mut PairingHeap<u32, u128>, key: u32, priority: u128)
    ensures
        pairing_entries(*final(heap)) == pairing_entries(*old(heap)).insert((key, priority)),
{
    heap.insert(key, priority)
}

/// `PairingHeap::delete_min`: removes a pair with the least priority; on an
/// empty heap it returns nothing and changes nothing. Which of several pairs
/// with the least priority leaves is not stated.
#[verifier::external_body]
pub(crate) fn pairing_delete_min(heap: &mut PairingHeap<u32, u128>) -> (least: Option<(u32, u128)>)
    ensures
        match least {
            None => {
                &&& pairing_entries(*old(heap)).len() == 0
                &&& pairing_entries(*final(heap)) == pairing_entries(*old(heap))
            },
            Some((key, priority)) => {
                &&& pairing_entries(*old(heap)).contains((key, priority))
                &&& pairing_entries(*final(heap)) == pairing_entries(*old(heap)).remove(
                    (key, priority),
                )
                &&& forall|other: (u32, u128)| #[trigger]
                    pairing_entries(*old(heap)).contains(other) ==> priority <= other.1
            },
        },
{
    heap.delete_min()
}

/// `PairingHeap::is_empty`: whether the heap holds no pair.
#[verifier::external_body]
pub(crate) fn pairing_is_empty(heap: &PairingHeap<u32, u128>) -> (empty: bool)
    ensures
        empty == (pairing_entries(*heap).len() == 0),
{
    heap.is_empty()
}

} // verus!
