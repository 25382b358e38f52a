//! Fixed-size, index-addressed slot arrays.

use vstd::prelude::*;

verus! {

/// The values of the filled slots of `slots`, in slot order.
pub open spec fn initialized<T>(slots: Seq<Option<T>>) -> Seq<T>
    decreases slots.len(),
{
    if slots.len() == 0 {
        Seq::empty()
    } else if slots.last() is Some {
        initialized(slots.drop_last()).push(slots.last()->0)
    } else {
        initialized(slots.drop_last())
    }
}

/// Whether every slot of `slots` is filled.
pub open spec fn all_filled<T>(slots: Seq<Option<T>>) -> bool {
    forall|i: int| 0 <= i < slots.len() ==> (#[trigger] slots[i]) is Some
}

/// Where every slot is filled, the initialized values are the slots' values.
pub proof fn lemma_initialized_of_full<T>(slots: Seq<Option<T>>)
    requires
        all_filled(slots),
    ensures
        initialized(slots).len() == slots.len(),
        forall|i: int| 0 <= i < slots.len() ==> (#[trigger] initialized(slots)[i]) == slots[i]->0,
    decreases slots.len(),
{
    if slots.len() > 0 {
        let front = slots.drop_last();
        assert forall|i: int| 0 <= i < front.len() implies (#[trigger] front[i]) is Some by {
            assert(front[i] == slots[i]);
        }
        lemma_initialized_of_full(front);
        assert forall|i: int| 0 <= i < slots.len() implies (#[trigger] initialized(slots)[i])
            == slots[i]->0 by {
            if i < front.len() {
                assert(front[i] == slots[i]);
            }
        }
    }
}

/// A slot array whose size is fixed when it is made. Each slot is empty
/// until a value is inserted at its index.
pub struct ParallelList<T> {
    pub data: Vec<Option<T>>,
}

impl<T> View for ParallelList<T> {
    type V = Seq<Option<T>>;

    open spec fn view(&self) -> Seq<Option<T>> {
        self.data@
    }
}

impl<T> ParallelList<T> {
    /// A list of `size` empty slots.
    pub fn new(size: usize) -> (list: Self)
        ensures
            list@.len() == size,
            forall|i: int| 0 <= i < size ==> (#[trigger] list@[i]) is None,
    {
        let mut data: Vec<Option<T>> = Vec::new();
        let mut i: usize = 0;
        while i < size
            invariant
                i <= size,
                data@.len() == i,
                forall|j: int| 0 <= j < i ==> (#[trigger] data@[j]) is None,
            decreases size - i,
        {
            data.push(None);
            i = i + 1;
        }
        ParallelList { data }
    }

    /// The number of slots.
    pub fn len(&self) -> (n: usize)
        ensures
            n == self@.len(),
    {
        self.data.len()
    }

    /// Whether the slot at `index` holds a value.
    pub fn is_filled(&self, index: usize) -> (filled: bool)
        ensures
            filled == (index < self@.len() && self@[index as int] is Some),
    {
        index < self.data.len() && self.data[index].is_some()
    }

    /// Whether every slot holds a value.
    pub fn is_full(&self) -> (full: bool)
        ensures
            full == all_filled(self@),
    {
        let mut i: usize = 0;
        while i < self.data.len()
            invariant
                i <= self.data@.len(),
                forall|j: int| 0 <= j < i ==> (#[trigger] self.data@[j]) is Some,
            decreases self.data@.len() - i,
        {
            if self.data[i].is_none() {
                return false;
            }
            i = i + 1;
        }
        true
    }

    /// Fills the slot at `index`, replacing what it held.
    pub fn insert(&mut self, value: T, index: usize)
        requires
            index < old(self)@.len(),
        ensures
            final(self)@ == old(self)@.update(index as int, Some(value)),
    {
        self.data[index] = Some(value);
    }

    /// The value in the slot at `index`.
    pub fn get(&self, index: usize) -> (value: &T)
        requires
            index < self@.len(),
            self@[index as int] is Some,
        ensures
            *value == self@[index as int]->0,
    {
        self.data[index].as_ref().unwrap()
    }

    /// Exclusive access to the value in the slot at `index`.
    pub fn get_mut(&mut self, index: usize) -> (value: &mut T)
        requires
            index < old(self)@.len(),
            old(self)@[index as int] is Some,
        ensures
            *value == old(self)@[index as int]->0,
            final(self)@ == old(self)@.update(index as int, Some(*final(value))),
    {
        self.data[index].as_mut().unwrap()
    }

    /// The values of a list in which every slot is filled, in slot order.
    pub fn into_vec(self) -> (values: Vec<T>)
        requires
            all_filled(self@),
        ensures
            values@.len() == self@.len(),
            forall|i: int| 0 <= i < values@.len() ==> (#[trigger] values@[i]) == self@[i]->0,
    {
        let mut slots = self.data;
        let ghost all = slots@;
        let mut reversed: Vec<T> = Vec::new();
        while slots.len() > 0
            invariant
                slots@.len() + reversed@.len() == all.len(),
                forall|i: int| 0 <= i < slots@.len() ==> (#[trigger] slots@[i]) == all[i],
                forall|i: int| 0 <= i < all.len() ==> (#[trigger] all[i]) is Some,
                forall|i: int|
                    0 <= i < reversed@.len() ==> (#[trigger] reversed@[i]) == all[all.len() - 1
                        - i]->0,
            decreases slots@.len(),
        {
            let ghost last = slots@.len() - 1;
            match slots.pop() {
                Some(Some(value)) => {
                    reversed.push(value);
                },
                _ => {
                    assert(all[last] is Some);
                },
            }
        }
        let mut values: Vec<T> = Vec::new();
        while reversed.len() > 0
            invariant
                values@.len() + reversed@.len() == all.len(),
                forall|i: int|
                    0 <= i < reversed@.len() ==> (#[trigger] reversed@[i]) == all[all.len() - 1
                        - i]->0,
                forall|i: int| 0 <= i < values@.len() ==> (#[trigger] values@[i]) == all[i]->0,
            decreases reversed@.len(),
        {
            match reversed.pop() {
                Some(value) => {
                    values.push(value);
                },
                None => {},
            }
        }
        values
    }

    /// The values of all filled slots, in slot order.
    pub fn as_slice(&self) -> (values: Vec<&T>)
        ensures
            values@.len() == initialized(self@).len(),
            forall|i: int| 0 <= i < values@.len()
                ==> *(#[trigger] values@[i]) == initialized(self@)[i],
    {
        let mut values: Vec<&T> = Vec::new();
        let mut i: usize = 0;
        proof {
            assert(self.data@.subrange(0, 0) =~= Seq::<Option<T>>::empty());
        }
        while i < self.data.len()
            invariant
                i <= self.data@.len(),
                values@.len() == initialized(self.data@.subrange(0, i as int)).len(),
                forall|j: int|
                    0 <= j < values@.len() ==> *(#[trigger] values@[j]) == initialized(
                        self.data@.subrange(0, i as int),
                    )[j],
            decreases self.data@.len() - i,
        {
            proof {
                assert(self.data@.subrange(0, i + 1).drop_last() =~= self.data@.subrange(
                    0,
                    i as int,
                ));
            }
            match &self.data[i] {
                Some(value) => {
                    values.push(value);
                },
                None => {},
            }
            i = i + 1;
        }
        proof {
            assert(self.data@.subrange(0, i as int) =~= self.data@);
        }
        values
    }
}

/// A slot array with `N` slots.
pub struct ParallelConstantList<T, const N: usize> {
    pub data: Vec<Option<T>>,
}

impl<T, const N: usize> View for ParallelConstantList<T, N> {
    type V = Seq<Option<T>>;

    open spec fn view(&self) -> Seq<Option<T>> {
        self.data@
    }
}

impl<T, const N: usize> ParallelConstantList<T, N> {
    /// A list of `N` empty slots.
    pub fn new() -> (list: Self)
        ensures
            list@.len() == N,
            forall|i: int| 0 <= i < N ==> (#[trigger] list@[i]) is None,
    {
        let mut data: Vec<Option<T>> = Vec::new();
        let mut i: usize = 0;
        while i < N
            invariant
                i <= N,
                data@.len() == i,
                forall|j: int| 0 <= j < i ==> (#[trigger] data@[j]) is None,
            decreases N - i,
        {
            data.push(None);
            i = i + 1;
        }
        ParallelConstantList { data }
    }

    /// The number of filled slots.
    pub fn len(&self) -> (n: usize)
        ensures
            n == initialized(self@).len(),
    {
        let mut n: usize = 0;
        let mut i: usize = 0;
        proof {
            assert(self.data@.subrange(0, 0) =~= Seq::<Option<T>>::empty());
        }
        while i < self.data.len()
            invariant
                i <= self.data@.len(),
                n <= i,
                n == initialized(self.data@.subrange(0, i as int)).len(),
            decreases self.data@.len() - i,
        {
            proof {
                assert(self.data@.subrange(0, i + 1).drop_last() =~= self.data@.subrange(
                    0,
                    i as int,
                ));
            }
            if self.data[i].is_some() {
                n = n + 1;
            }
            i = i + 1;
        }
        proof {
            assert(self.data@.subrange(0, i as int) =~= self.data@);
        }
        n
    }

    /// Fills the slot at `index`, replacing what it held.
    pub fn insert(&mut self, value: T, index: usize)
        requires
            index < old(self)@.len(),
        ensures
            final(self)@ == old(self)@.update(index as int, Some(value)),
    {
        self.data[index] = Some(value);
    }

    /// The value in the slot at `index`.
    pub fn get(&self, index: usize) -> (value: &T)
        requires
            index < self@.len(),
            self@[index as int] is Some,
        ensures
            *value == self@[index as int]->0,
    {
        self.data[index].as_ref().unwrap()
    }

    /// Exclusive access to the value in the slot at `index`.
    pub fn get_mut(&mut self, index: usize) -> (value: &mut T)
        requires
            index < old(self)@.len(),
            old(self)@[index as int] is Some,
        ensures
            *value == old(self)@[index as int]->0,
            final(self)@ == old(self)@.update(index as int, Some(*final(value))),
    {
        self.data[index].as_mut().unwrap()
    }
}

} // verus!
