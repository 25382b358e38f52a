//! The monotone priority queue under the search, and what is taken on trust
//! about it.
//!
//! The queue is `radix_heap::RadixHeapMap` with `u32` keys and `u32` values.
//! It is a max-heap that only accepts keys up to the key it popped last. The
//! functions below are the only place where it is touched; their contracts
//! restate its documentation and are not proved.

use radix_heap::RadixHeapMap;
use vstd::multiset::Multiset;
use vstd::prelude::*;

verus! {

/// `radix_heap::RadixHeapMap`, declared as a type of which nothing is seen
/// from inside: all that is known of a queue is what the functions below
/// say.
#[verifier::external_type_specification]
#[verifier::external_body]
#[verifier::reject_recursive_types(K)]
#[verifier::reject_recursive_types(V)]
pub struct ExRadixHeapMap<K, V>(RadixHeapMap<K, V>);

/// The key-value pairs that a queue holds.
pub uninterp spec fn heap_entries(heap: RadixHeapMap<u32, u32>) -> Multiset<(u32, u32)>;

/// The largest key that a queue still accepts: the key it popped last, or
/// nothing before the first pop.
pub uninterp spec fn heap_top(heap: RadixHeapMap<u32, u32>) -> Option<u32>;

/// Whether `key` may be pushed onto `heap`.
pub open spec fn accepts(heap: RadixHeapMap<u32, u32>, key: u32) -> bool {
    heap_top(heap) is Some ==> key <= heap_top(heap)->0
}

/// `RadixHeapMap::new`: an empty queue that accepts every key.
#[verifier::external_body]
pub(crate) fn radix_new() -> (heap: RadixHeapMap<u32, u32>)
    ensures
        heap_entries(heap) == Multiset::<(u32, u32)>::empty(),
        heap_top(heap) is None,
{
    RadixHeapMap::new()
}

/// `RadixHeapMap::push`: adds one pair and leaves the top key alone. The
/// outside function panics on a key above the top key, which `requires`
/// rules out.
#[verifier::external_body]
pub(crate) fn radix_push(heap: &mut RadixHeapMap<u32, u32>, key: u32, value: u32)
    requires
        accepts(*old(heap), key),
    ensures
        heap_entries(*final(heap)) == heap_entries(*old(heap)).insert((key, value)),
        heap_top(*final(heap)) == heap_top(*old(heap)),
{
    heap.push(key, value)
}

/// `RadixHeapMap::pop`: removes a pair with the greatest key and makes that
/// key the top key; on an empty queue it returns nothing and changes
/// nothing. Which of several pairs with the greatest key leaves is not
/// stated.
#[verifier::external_body]
pub(crate) fn radix_pop(heap: &mut RadixHeapMap<u32, u32>) -> (popped: Option<(u32, u32)>)
    ensures
        match popped {
            None => {
                &&& heap_entries(*old(heap)).len() == 0
                &&& heap_entries(*final(heap)) == heap_entries(*old(heap))
                &&& heap_top(*final(heap)) == heap_top(*old(heap))
            },
            Some((key, value)) => {
                &&& heap_entries(*old(heap)).contains((key, value))
                &&& heap_entries(*final(heap)) == heap_entries(*old(heap)).remove((key, value))
                &&& heap_top(*final(heap)) == Some(key)
                &&& forall|other: (u32, u32)| #[trigger]
                    heap_entries(*old(heap)).contains(other) ==> other.0 <= key
            },
        },
{
    heap.pop()
}

/// `RadixHeapMap::is_empty`: whether the queue holds no pair.
#[verifier::external_body]
pub(crate) fn radix_is_empty(heap: &RadixHeapMap<u32, u32>) -> (empty: bool)
    ensures
        empty == (heap_entries(*heap).len() == 0),
{
    heap.is_empty()
}

/// `RadixHeapMap::clear`: drops every pair and forgets the top key.
#[verifier::external_body]
pub(crate) fn radix_clear(heap: &mut RadixHeapMap<u32, u32>)
    ensures
        heap_entries(*final(heap)) == Multiset::<(u32, u32)>::empty(),
        heap_top(*final(heap)) is None,
{
    heap.clear()
}

/// `RadixHeapMap::iter`: every pair of the queue, in no stated order.
#[verifier::external_body]
pub(crate) fn radix_entries(heap: &RadixHeapMap<u32, u32>) -> (entries: Vec<(u32, u32)>)
    ensures
        entries@.to_multiset() == heap_entries(*heap),
{
    heap.iter().copied().collect()
}

/// `RadixHeapMap::top`: the largest key that the queue still accepts.
#[verifier::external_body]
pub(crate) fn radix_top(heap: &RadixHeapMap<u32, u32>) -> (top: Option<u32>)
    ensures
        top == heap_top(*heap),
{
    heap.top()
}

} // verus!
