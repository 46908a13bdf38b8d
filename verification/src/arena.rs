//! Arena allocator that backs the tree: a growable array of slots whose free
//! slots are threaded into a last-in, first-out free list.

use vstd::prelude::*;

verus! {

/// One slot of the arena: either free, remembering the next free slot, or
/// occupied by a value.
#[derive(Debug, Clone, Copy, PartialEq, Eq)]
pub enum Entry<T> {
    /// The slot holds nothing; `next_free` is the slot that was freed before it.
    Free { next_free: Option<usize> },
    /// The slot holds a value.
    Occupied(T),
}

impl<T> Entry<T> {
    /// The value held by the slot, if any.
    pub open spec fn value(self) -> Option<T> {
        match self {
            Entry::Free { .. } => None,
            Entry::Occupied(value) => Some(value),
        }
    }

    /// Marks the slot as free, linking it to `next_free`, and returns what it held.
    pub fn take(&mut self, next_free: Option<usize>) -> (previous: Self)
        ensures
            previous == *old(self),
            *final(self) == (Entry::<T>::Free { next_free }),
    {
        let mut entry = Entry::Free { next_free };
        std::mem::swap(self, &mut entry);
        entry
    }

    /// Stores `val` in the slot and returns what it held.
    pub fn replace(&mut self, val: T) -> (previous: Self)
        ensures
            previous == *old(self),
            *final(self) == Entry::Occupied(val),
    {
        let mut entry = Entry::Occupied(val);
        std::mem::swap(self, &mut entry);
        entry
    }

    /// Whether the slot holds a value.
    pub fn is_occupied(&self) -> (occupied: bool)
        ensures
            occupied == (self is Occupied),
    {
        match self {
            Entry::Free { .. } => false,
            Entry::Occupied(_) => true,
        }
    }

    /// A reference to the value, or `None` for a free slot.
    pub fn as_ref(&self) -> (value: Option<&T>)
        ensures
            value == match *self {
                Entry::Free { .. } => None::<&T>,
                Entry::Occupied(v) => Some(&v),
            },
    {
        match self {
            Entry::Free { .. } => None,
            Entry::Occupied(value) => Some(value),
        }
    }

    /// A mutable reference to the value, or `None` for a free slot. Whatever is
    /// written through the reference is what the slot holds afterwards.
    pub fn as_mut(&mut self) -> (value: Option<&mut T>)
        ensures
            match *old(self) {
                Entry::Free { .. } => value is None && *final(self) == *old(self),
                Entry::Occupied(v) => value is Some && *value.unwrap() == v && *final(self)
                    == Entry::Occupied(*final(value.unwrap())),
            },
    {
        match self {
            Entry::Free { .. } => None,
            Entry::Occupied(value) => Some(value),
        }
    }

    /// Consumes the slot, giving its value, or `None` for a free slot.
    pub fn some(self) -> (value: Option<T>)
        ensures
            value == self.value(),
    {
        match self {
            Entry::Free { .. } => None,
            Entry::Occupied(value) => Some(value),
        }
    }

    /// Consumes an occupied slot, giving its value.
    pub fn expect(self) -> (value: T)
        requires
            self is Occupied,
        ensures
            self == Entry::Occupied(value),
    {
        match self {
            Entry::Free { .. } => vstd::pervasive::unreached(),
            Entry::Occupied(value) => value,
        }
    }

    /// A reference to the value of an occupied slot.
    pub fn expect_ref(&self) -> (value: &T)
        requires
            self is Occupied,
        ensures
            *self == Entry::Occupied(*value),
    {
        match self {
            Entry::Free { .. } => vstd::pervasive::unreached(),
            Entry::Occupied(value) => value,
        }
    }

    /// A mutable reference to the value of an occupied slot.
    pub fn expect_mut(&mut self) -> (value: &mut T)
        requires
            *old(self) is Occupied,
        ensures
            *old(self) == Entry::Occupied(*value),
            *final(self) == Entry::Occupied(*final(value)),
    {
        match self {
            Entry::Free { .. } => vstd::pervasive::unreached(),
            Entry::Occupied(value) => value,
        }
    }

    /// The link that a free slot holds to the slot freed before it.
    pub fn expect_free(&self) -> (next_free: Option<usize>)
        requires
            self is Free,
        ensures
            *self == (Entry::<T>::Free { next_free }),
    {
        match self {
            Entry::Free { next_free } => *next_free,
            Entry::Occupied(_) => vstd::pervasive::unreached(),
        }
    }

    /// Applies `f` to the value of an occupied slot.
    pub fn map_ref<'a, U, F>(&'a self, f: F) -> (mapped: Option<U>) where F: FnOnce(&'a T) -> U
        requires
            self is Occupied ==> f.requires((&self->Occupied_0,)),
        ensures
            self is Free ==> mapped is None,
            self is Occupied ==> mapped is Some && f.ensures(
                (&self->Occupied_0,),
                mapped.unwrap(),
            ),
    {
        match self {
            Entry::Free { .. } => None,
            Entry::Occupied(value) => Some(f(value)),
        }
    }

    /// Applies `f` to a mutable reference to the value of an occupied slot, and
    /// gives what `f` returns: `f` is handed the value that the slot holds,
    /// and what `f` leaves there is what the slot holds afterwards. A free slot
    /// is left as it is.
    pub fn map_mut<'a, U, F>(&'a mut self, f: F) -> (mapped: Option<U>) where
        F: FnOnce(&'a mut T) -> U,

        requires
            forall|value: &'a mut T| *value == (*old(self))->Occupied_0 ==> f.requires((value,)),
        ensures
            *old(self) is Free ==> mapped is None && *final(self) == *old(self),
            *old(self) is Occupied ==> mapped is Some && *final(self) is Occupied,
            *old(self) is Occupied ==> exists|value: &'a mut T|
                #[trigger] f.ensures((value,), mapped.unwrap()) && *value == (*old(
                    self,
                ))->Occupied_0 && *final(value) == (*final(self))->Occupied_0,
    {
        if self.is_occupied() {
            let value = self.expect_mut();
            let result = call_on(value, f);
            let mapped = Some(result);
            assert(mapped.unwrap() == result);
            assert(exists|value: &'a mut T|
                #[trigger] f.ensures((value,), mapped.unwrap()) && *value == (*old(
                    self,
                ))->Occupied_0 && *final(value) == (*final(self))->Occupied_0);
            mapped
        } else {
            None
        }
    }
}

/// Calls `f` on `value`: `f` is handed what `value` points to, and what `f`
/// leaves there is what `value` points to afterwards.
fn call_on<'a, T, U, F: FnOnce(&'a mut T) -> U>(value: &'a mut T, f: F) -> (result: U)
    requires
        forall|given: &'a mut T| *given == *old(value) ==> f.requires((given,)),
    ensures
        exists|given: &'a mut T|
            #[trigger] f.ensures((given,), result) && *given == *old(value) && *final(given)
                == *final(value),
{
    f(value)
}

/// What an arena holds: the content of each slot, and the stack of free slots
/// with the most recently freed one first.
pub struct StoreView<T> {
    pub slots: Seq<Option<T>>,
    pub free: Seq<usize>,
}

impl<T> StoreView<T> {
    /// The slot `index` exists and holds a value.
    pub open spec fn is_occupied(self, index: usize) -> bool {
        index < self.slots.len() && self.slots[index as int] is Some
    }

    /// The free stack lists each empty slot exactly once, and nothing else.
    pub open spec fn wf(self) -> bool {
        &&& self.slots.len() <= usize::MAX
        &&& self.free.no_duplicates()
        &&& forall|k: int|
            0 <= k < self.free.len() ==> (#[trigger] self.free[k]) < self.slots.len()
                && self.slots[self.free[k] as int] is None
        &&& forall|i: usize|
            i < self.slots.len() && self.slots[i as int] is None ==> #[trigger] self.free.contains(i)
    }

    /// The slot that the next allocation fills: the most recently freed one, or
    /// a new slot at the end when none is free.
    pub open spec fn next_index(self) -> usize {
        if self.free.len() > 0 {
            self.free[0]
        } else {
            self.slots.len() as usize
        }
    }

    /// The arena after `value` has been allocated.
    pub open spec fn allocate(self, value: T) -> Self {
        if self.free.len() > 0 {
            StoreView {
                slots: self.slots.update(self.free[0] as int, Some(value)),
                free: self.free.drop_first(),
            }
        } else {
            StoreView { slots: self.slots.push(Some(value)), free: self.free }
        }
    }

    /// The arena after the occupied slot `index` has been freed.
    pub open spec fn release(self, index: usize) -> Self {
        StoreView { slots: self.slots.update(index as int, None), free: seq![index] + self.free }
    }

    /// Freeing keeps the arena well formed and the number of slots unchanged,
    /// and the freed slot is the one that the very next allocation fills.
    pub proof fn lemma_release_then_allocate(self, index: usize, value: T)
        requires
            self.wf(),
            self.is_occupied(index),
        ensures
            self.release(index).wf(),
            self.release(index).slots.len() == self.slots.len(),
            self.release(index).next_index() == index,
            self.release(index).allocate(value).slots == self.slots.update(
                index as int,
                Some(value),
            ),
            self.release(index).allocate(value).free == self.free,
    {
        let released = self.release(index);
        assert forall|k: int| 0 <= k < released.free.len() implies (#[trigger] released.free[k])
            < released.slots.len() && released.slots[released.free[k] as int] is None by {
            if k > 0 {
                assert(released.free[k] == self.free[k - 1]);
            }
        }
        assert forall|i: usize|
            i < released.slots.len() && released.slots[i as int] is None implies #[trigger] released.free.contains(
            i,
        ) by {
            if i == index {
                assert(released.free[0] == i);
            } else {
                assert(self.free.contains(i));
                let k = choose|k: int| 0 <= k < self.free.len() && self.free[k] == i;
                assert(released.free[k + 1] == i);
            }
        }
        assert(released.free.drop_first() =~= self.free);
        assert(released.slots.update(index as int, Some(value)) =~= self.slots.update(
            index as int,
            Some(value),
        ));
    }

    /// Allocation keeps the arena well formed, fills exactly the slot
    /// `next_index`, and never lowers the number of slots.
    pub proof fn lemma_allocate(self, value: T)
        requires
            self.wf(),
            self.slots.len() < usize::MAX,
        ensures
            self.allocate(value).wf(),
            self.allocate(value).is_occupied(self.next_index()),
            self.allocate(value).slots[self.next_index() as int] == Some(value),
            !self.is_occupied(self.next_index()),
            self.allocate(value).slots.len() >= self.slots.len(),
            forall|i: usize|
                i != self.next_index() ==> self.allocate(value).is_occupied(i)
                    == self.is_occupied(i),
            forall|i: usize|
                self.is_occupied(i) ==> self.allocate(value).slots[i as int]
                    == self.slots[i as int],
    {
        let after = self.allocate(value);
        if self.free.len() > 0 {
            assert forall|k: int| 0 <= k < after.free.len() implies (#[trigger] after.free[k])
                < after.slots.len() && after.slots[after.free[k] as int] is None by {
                assert(after.free[k] == self.free[k + 1]);
            }
            assert forall|i: usize|
                i < after.slots.len() && after.slots[i as int] is None implies #[trigger] after.free.contains(
                i,
            ) by {
                assert(self.free.contains(i));
                let k = choose|k: int| 0 <= k < self.free.len() && self.free[k] == i;
                assert(k != 0);
                assert(after.free[k - 1] == i);
            }
        } else {
            assert forall|i: usize|
                i < after.slots.len() && after.slots[i as int] is None implies #[trigger] after.free.contains(
                i,
            ) by {
                assert(self.slots[i as int] is None);
            }
            assert forall|i: usize| i < self.slots.len() implies self.slots[i as int] is Some by {
                if self.slots[i as int] is None {
                    assert(self.free.contains(i));
                }
            }
        }
    }
}

/// The slot `after` is what `f` makes of the slot `before`: free with the same
/// link, or occupied by a value that `f` gives for the value before.
spec fn mapped_entry<T, U, F: Fn(T) -> U>(before: Entry<T>, after: Entry<U>, f: F) -> bool {
    match before {
        Entry::Free { next_free } => after == (Entry::<U>::Free { next_free }),
        Entry::Occupied(value) => after is Occupied && f.ensures((value,), after->Occupied_0),
    }
}

/// `Vec::capacity` of the standard library: the number of elements that the
/// vector can hold without reallocating. Taken on trust: the capacity is never
/// less than the length.
#[verifier::external_body]
fn vec_capacity<T>(data: &Vec<T>) -> (capacity: usize)
    ensures
        capacity >= data@.len(),
{
    data.capacity()
}

/// Arena of values of type `T`. Freed slots are kept and reused, the most
/// recently freed first; the array of slots never shrinks.
#[derive(Debug, Clone)]
pub struct Store<T> {
    data: Vec<Entry<T>>,
    first_free: Option<usize>,
}

impl<T> View for Store<T> {
    type V = StoreView<T>;

    /// The content of each slot, and the free slots in the order in which
    /// they will be filled.
    closed spec fn view(&self) -> StoreView<T> {
        StoreView {
            slots: Seq::new(self.data@.len(), |i: int| self.data@[i].value()),
            free: choose|free: Seq<usize>| self.covers(free),
        }
    }
}

/// `free` is the list of slots met by starting at `head` and following the link
/// of each free slot to the next.
spec fn threads<T>(data: Seq<Entry<T>>, head: Option<usize>, free: Seq<usize>) -> bool
    decreases free.len(),
{
    match head {
        None => free.len() == 0,
        Some(index) => free.len() > 0 && free[0] == index && index < data.len()
            && data[index as int] is Free && threads(
            data,
            data[index as int]->next_free,
            free.drop_first(),
        ),
    }
}

/// The links thread one list only.
proof fn lemma_threads_unique<T>(
    data: Seq<Entry<T>>,
    head: Option<usize>,
    a: Seq<usize>,
    b: Seq<usize>,
)
    requires
        threads(data, head, a),
        threads(data, head, b),
    ensures
        a == b,
    decreases a.len(),
{
    if head is Some {
        let next = data[head.unwrap() as int]->next_free;
        lemma_threads_unique(data, next, a.drop_first(), b.drop_first());
        assert(a =~= seq![a[0]] + a.drop_first());
        assert(b =~= seq![b[0]] + b.drop_first());
    } else {
        assert(a =~= b);
    }
}

/// Every member of the threaded list is a free slot.
proof fn lemma_threads_members<T>(
    data: Seq<Entry<T>>,
    head: Option<usize>,
    free: Seq<usize>,
    k: int,
)
    requires
        threads(data, head, free),
        0 <= k < free.len(),
    ensures
        free[k] < data.len(),
        data[free[k] as int] is Free,
    decreases free.len(),
{
    if k > 0 {
        let next = data[head.unwrap() as int]->next_free;
        lemma_threads_members(data, next, free.drop_first(), k - 1);
    }
}

/// The threaded list stays as it is while the slots on it stay as they are.
proof fn lemma_threads_stable<T>(
    data: Seq<Entry<T>>,
    other: Seq<Entry<T>>,
    head: Option<usize>,
    free: Seq<usize>,
)
    requires
        threads(data, head, free),
        other.len() == data.len(),
        forall|k: int| 0 <= k < free.len() ==> other[(#[trigger] free[k]) as int] == data[free[k] as int],
    ensures
        threads(other, head, free),
    decreases free.len(),
{
    if head is Some {
        let next = data[head.unwrap() as int]->next_free;
        let rest = free.drop_first();
        assert(free[0] == head.unwrap());
        assert forall|k: int| 0 <= k < rest.len() implies other[(#[trigger] rest[k]) as int]
            == data[rest[k] as int] by {
            assert(rest[k] == free[k + 1]);
        }
        lemma_threads_stable(data, other, next, rest);
    }
}

/// The threaded list stays as it is in an arena of other values whose free
/// slots have the same links.
proof fn lemma_threads_mapped<T, U>(
    data: Seq<Entry<T>>,
    other: Seq<Entry<U>>,
    head: Option<usize>,
    free: Seq<usize>,
)
    requires
        threads(data, head, free),
        other.len() == data.len(),
        forall|k: int|
            0 <= k < free.len() ==> other[(#[trigger] free[k]) as int] is Free && other[free[k] as int]->next_free
                == data[free[k] as int]->next_free,
    ensures
        threads(other, head, free),
    decreases free.len(),
{
    if head is Some {
        let next = data[head.unwrap() as int]->next_free;
        let rest = free.drop_first();
        assert(free[0] == head.unwrap());
        assert forall|k: int| 0 <= k < rest.len() implies other[(#[trigger] rest[k]) as int] is Free
            && other[rest[k] as int]->next_free == data[rest[k] as int]->next_free by {
            assert(rest[k] == free[k + 1]);
        }
        lemma_threads_mapped(data, other, next, rest);
    }
}

impl<T> Store<T> {
    /// `free` is the list threaded from `first_free`, and it passes through
    /// each free slot exactly once.
    spec fn covers(&self, free: Seq<usize>) -> bool {
        &&& threads(self.data@, self.first_free, free)
        &&& free.no_duplicates()
        &&& forall|i: usize|
            i < self.data@.len() && self.data@[i as int] is Free ==> #[trigger] free.contains(i)
    }

    /// The slots that are free form one list without repetition, threaded from
    /// `first_free` through their links.
    pub closed spec fn wf(&self) -> bool {
        exists|free: Seq<usize>| self.covers(free)
    }

    /// The free stack of the view is the list that the links thread.
    proof fn lemma_free_is(&self, free: Seq<usize>)
        requires
            self.covers(free),
        ensures
            self.wf(),
            self@.free == free,
    {
        lemma_threads_unique(self.data@, self.first_free, self@.free, free);
    }

    /// A well-formed arena has a well-formed view.
    pub proof fn lemma_view_wf(&self)
        requires
            self.wf(),
        ensures
            self@.wf(),
    {
        let free = self@.free;
        assert(self.covers(free));
        assert(self.data@.len() == self.data.len());
        assert forall|k: int| 0 <= k < free.len() implies (#[trigger] free[k]) < self@.slots.len()
            && self@.slots[free[k] as int] is None by {
            lemma_threads_members(self.data@, self.first_free, free, k);
        }
        assert forall|i: usize|
            i < self@.slots.len() && self@.slots[i as int] is None implies #[trigger] free.contains(
            i,
        ) by {
            assert(self.data@[i as int] is Free);
        }
    }

    /// Creates an arena without slots.
    #[must_use]
    pub fn new() -> (store: Self)
        ensures
            store.wf(),
            store@.slots == Seq::<Option<T>>::empty(),
            store@.free == Seq::<usize>::empty(),
    {
        let store = Self { first_free: None, data: Vec::new() };
        proof {
            assert(store@.slots =~= Seq::<Option<T>>::empty());
            store.lemma_free_is(Seq::<usize>::empty());
        }
        store
    }

    /// Creates an arena without slots, with room reserved for `capacity` of them.
    #[must_use]
    pub fn with_capacity(capacity: usize) -> (store: Self)
        ensures
            store.wf(),
            store@.slots == Seq::<Option<T>>::empty(),
            store@.free == Seq::<usize>::empty(),
    {
        let store = Self { first_free: None, data: Vec::with_capacity(capacity) };
        proof {
            assert(store@.slots =~= Seq::<Option<T>>::empty());
            store.lemma_free_is(Seq::<usize>::empty());
        }
        store
    }

    /// Creates an arena that holds the given values, each in the slot of its
    /// place in the list, with no slot free.
    #[must_use]
    pub fn from_vec(values: Vec<T>) -> (store: Self)
        ensures
            store.wf(),
            store@.free == Seq::<usize>::empty(),
            store@.slots == values@.map_values(|value: T| Some(value)),
    {
        let ghost source = values@;
        let mut values = values;
        let mut reversed: Vec<Entry<T>> = Vec::new();
        while values.len() > 0
            invariant
                values@.len() + reversed@.len() == source.len(),
                forall|i: int| 0 <= i < values@.len() ==> values@[i] == source[i],
                forall|j: int|
                    0 <= j < reversed@.len() ==> #[trigger] reversed@[j] == Entry::Occupied(
                        source[source.len() - 1 - j],
                    ),
            decreases values@.len(),
        {
            let value = values.pop().unwrap();
            reversed.push(Entry::Occupied(value));
        }
        let mut data: Vec<Entry<T>> = Vec::new();
        while reversed.len() > 0
            invariant
                data@.len() + reversed@.len() == source.len(),
                forall|j: int|
                    0 <= j < reversed@.len() ==> #[trigger] reversed@[j] == Entry::Occupied(
                        source[source.len() - 1 - j],
                    ),
                forall|i: int|
                    0 <= i < data@.len() ==> #[trigger] data@[i] == Entry::Occupied(source[i]),
            decreases reversed@.len(),
        {
            let entry = reversed.pop().unwrap();
            data.push(entry);
        }
        let store = Self { first_free: None, data };
        proof {
            store.lemma_free_is(Seq::<usize>::empty());
            assert(store@.slots =~= source.map_values(|value: T| Some(value)));
        }
        store
    }

    /// The number of slots that the arena has room for before it has to
    /// allocate again, never less than the number of slots it has.
    pub fn capacity(&self) -> (capacity: usize)
        ensures
            capacity >= self@.slots.len(),
    {
        vec_capacity(&self.data)
    }

    /// The number of slots, free ones included.
    pub fn len(&self) -> (len: usize)
        ensures
            len == self@.slots.len(),
    {
        self.data.len()
    }

    /// The most recently freed slot, which the next allocation fills.
    pub fn first_free(&self) -> (head: Option<usize>)
        requires
            self.wf(),
        ensures
            head == if self@.free.len() > 0 {
                Some(self@.free[0])
            } else {
                None
            },
    {
        proof {
            assert(self.covers(self@.free));
        }
        self.first_free
    }

    /// Allocates a value in the arena and returns its slot: the most recently
    /// freed slot, or a new one at the end when none is free.
    pub fn allocate(&mut self, value: T) -> (index: usize)
        requires
            old(self).wf(),
        ensures
            final(self).wf(),
            index == old(self)@.next_index(),
            final(self)@ == old(self)@.allocate(value),
    {
        let ghost free = self@.free;
        proof {
            assert(self.covers(free));
        }
        match self.first_free {
            Some(index) => {
                let previous = self.data[index].replace(value);
                self.first_free = previous.expect_free();
                proof {
                    let rest = free.drop_first();
                    assert forall|k: int| 0 <= k < rest.len() implies self.data@[(#[trigger] rest[k]) as int]
                        == old(self).data@[rest[k] as int] by {
                        assert(rest[k] == free[k + 1]);
                        assert(free[k + 1] != free[0]);
                        lemma_threads_members(old(self).data@, old(self).first_free, free, k + 1);
                    }
                    lemma_threads_stable(old(self).data@, self.data@, self.first_free, rest);
                    assert forall|i: usize|
                        i < self.data@.len() && self.data@[i as int] is Free implies #[trigger] rest.contains(
                        i,
                    ) by {
                        assert(free.contains(i));
                        let k = choose|k: int| 0 <= k < free.len() && free[k] == i;
                        assert(rest[k - 1] == i);
                    }
                    self.lemma_free_is(rest);
                    assert(self@.slots =~= old(self)@.allocate(value).slots);
                }
                index
            },
            None => {
                let index = self.data.len();
                self.data.push(Entry::Occupied(value));
                proof {
                    self.lemma_free_is(free);
                    assert(self@.slots =~= old(self)@.allocate(value).slots);
                }
                index
            },
        }
    }

    /// Frees the slot `index` and returns the value it held. A slot that is
    /// already free, or that does not exist, gives `None` and changes nothing.
    pub fn free_node(&mut self, index: usize) -> (value: Option<T>)
        requires
            old(self).wf(),
        ensures
            final(self).wf(),
            old(self)@.is_occupied(index) ==> value == old(self)@.slots[index as int]
                && final(self)@ == old(self)@.release(index),
            !old(self)@.is_occupied(index) ==> value is None && final(self)@ == old(self)@,
    {
        let ghost free = self@.free;
        proof {
            assert(self.covers(free));
        }
        if index < self.data.len() && self.data[index].is_occupied() {
            let next_free = self.first_free;
            self.first_free = Some(index);
            let entry = self.data[index].take(next_free);
            proof {
                let grown = seq![index] + free;
                assert forall|k: int| 0 <= k < free.len() implies self.data@[(#[trigger] free[k]) as int]
                    == old(self).data@[free[k] as int] by {
                    lemma_threads_members(old(self).data@, old(self).first_free, free, k);
                }
                lemma_threads_stable(old(self).data@, self.data@, old(self).first_free, free);
                assert(grown.drop_first() =~= free);
                assert(!free.contains(index)) by {
                    if free.contains(index) {
                        let k = choose|k: int| 0 <= k < free.len() && free[k] == index;
                        lemma_threads_members(old(self).data@, old(self).first_free, free, k);
                    }
                }
                assert forall|i: usize|
                    i < self.data@.len() && self.data@[i as int] is Free implies #[trigger] grown.contains(
                    i,
                ) by {
                    if i == index {
                        assert(grown[0] == i);
                    } else {
                        assert(free.contains(i));
                        let k = choose|k: int| 0 <= k < free.len() && free[k] == i;
                        assert(grown[k + 1] == i);
                    }
                }
                self.lemma_free_is(grown);
                assert(self@.slots =~= old(self)@.release(index).slots);
            }
            entry.some()
        } else {
            None
        }
    }

    /// A reference to the value in the slot `index`, if it holds one.
    pub fn get(&self, index: usize) -> (value: Option<&T>)
        ensures
            self@.is_occupied(index) ==> value == Some(&self@.slots[index as int].unwrap()),
            !self@.is_occupied(index) ==> value is None,
    {
        if index < self.data.len() {
            self.data[index].as_ref()
        } else {
            None
        }
    }

    /// A mutable reference to the value in the slot `index`, if it holds one.
    /// Only that value can change through it.
    pub fn get_mut(&mut self, index: usize) -> (value: Option<&mut T>)
        requires
            old(self).wf(),
        ensures
            final(self).wf(),
            final(self)@.free == old(self)@.free,
            old(self)@.is_occupied(index) ==> {
                &&& value is Some
                &&& Some(*value.unwrap()) == old(self)@.slots[index as int]
                &&& final(self)@.slots == old(self)@.slots.update(
                    index as int,
                    Some(*final(value.unwrap())),
                )
            },
            !old(self)@.is_occupied(index) ==> value is None && final(self)@ == old(self)@,
    {
        proof {
            assert forall|after: Self|
                #![trigger after.wf()]
                #![trigger after.view()]
                self.same_links(after, index) implies {
                &&& after.wf()
                &&& after@.free == self@.free
                &&& after.data@[index as int].value() == self.data@[index as int].value()
                    ==> after@ == self@
            } by {
                self.lemma_same_links(after, index);
            }
        }
        if index < self.data.len() {
            self.data[index].as_mut()
        } else {
            None
        }
    }

    /// Turns each value into another with `f`, slot by slot. Free slots stay
    /// free and the free list stays as it is.
    pub fn map<U, F: Fn(T) -> U>(self, f: F) -> (mapped: Store<U>)
        requires
            self.wf(),
            forall|value: T| f.requires((value,)),
        ensures
            mapped.wf(),
            mapped@.free == self@.free,
            mapped@.slots.len() == self@.slots.len(),
            forall|i: int|
                0 <= i < self@.slots.len() ==> match (#[trigger] self@.slots[i]) {
                    Some(value) => mapped@.slots[i] is Some && f.ensures(
                        (value,),
                        mapped@.slots[i].unwrap(),
                    ),
                    None => mapped@.slots[i] is None,
                },
    {
        let ghost free = self@.free;
        let ghost source = self.data@;
        proof {
            assert(self.covers(free));
        }
        let first_free = self.first_free;
        let mut data = self.data;
        let mut reversed: Vec<Entry<U>> = Vec::new();
        while data.len() > 0
            invariant
                data@.len() + reversed@.len() == source.len(),
                forall|i: int| 0 <= i < data@.len() ==> data@[i] == source[i],
                forall|j: int|
                    0 <= j < reversed@.len() ==> mapped_entry(
                        source[source.len() - 1 - j],
                        #[trigger] reversed@[j],
                        f,
                    ),
                forall|value: T| f.requires((value,)),
            decreases data@.len(),
        {
            let entry = data.pop().unwrap();
            let mapped = match entry {
                Entry::Free { next_free } => Entry::Free { next_free },
                Entry::Occupied(value) => Entry::Occupied(f(value)),
            };
            reversed.push(mapped);
        }
        let mut result: Vec<Entry<U>> = Vec::new();
        while reversed.len() > 0
            invariant
                result@.len() + reversed@.len() == source.len(),
                forall|j: int|
                    0 <= j < reversed@.len() ==> mapped_entry(
                        source[source.len() - 1 - j],
                        #[trigger] reversed@[j],
                        f,
                    ),
                forall|i: int|
                    0 <= i < result@.len() ==> mapped_entry(source[i], #[trigger] result@[i], f),
            decreases reversed@.len(),
        {
            let entry = reversed.pop().unwrap();
            result.push(entry);
        }
        let mapped = Store { data: result, first_free };
        proof {
            assert forall|k: int| 0 <= k < free.len() implies mapped.data@[(
            #[trigger] free[k]) as int] is Free && mapped.data@[free[k] as int]->next_free
                == source[free[k] as int]->next_free by {
                lemma_threads_members(source, first_free, free, k);
                assert(mapped_entry(source[free[k] as int], mapped.data@[free[k] as int], f));
            }
            lemma_threads_mapped(source, mapped.data@, first_free, free);
            assert forall|i: usize|
                i < mapped.data@.len() && mapped.data@[i as int] is Free implies #[trigger] free.contains(
                i,
            ) by {
                assert(mapped_entry(source[i as int], mapped.data@[i as int], f));
            }
            mapped.lemma_free_is(free);
            assert forall|i: int| 0 <= i < self@.slots.len() implies match (
            #[trigger] self@.slots[i]) {
                Some(value) => mapped@.slots[i] is Some && f.ensures(
                    (value,),
                    mapped@.slots[i].unwrap(),
                ),
                None => mapped@.slots[i] is None,
            } by {
                assert(mapped_entry(source[i], mapped.data@[i], f));
            }
        }
        mapped
    }

    /// `after` is this arena but for the value that the slot `index` holds,
    /// where it holds one.
    spec fn same_links(&self, after: Self, index: usize) -> bool {
        &&& index < self.data@.len()
        &&& after.first_free == self.first_free
        &&& after.data@.len() == self.data@.len()
        &&& after.data@[index as int] is Free ==> after.data@[index as int]
            == self.data@[index as int]
        &&& self.data@[index as int] is Free ==> after.data@[index as int]
            == self.data@[index as int]
        &&& forall|i: int|
            0 <= i < self.data@.len() && i != index ==> after.data@[i] == self.data@[i]
    }

    /// Another value in an occupied slot leaves the arena well formed and its
    /// free list as it is.
    proof fn lemma_same_links(&self, after: Self, index: usize)
        requires
            self.wf(),
            self.same_links(after, index),
        ensures
            after.wf(),
            after@.free == self@.free,
            after.data@[index as int].value() == self.data@[index as int].value() ==> after@
                == self@,
    {
        if after.data@[index as int].value() == self.data@[index as int].value() {
            assert(after@.slots =~= self@.slots);
        }
        let free = self@.free;
        assert(self.covers(free));
        assert forall|k: int| 0 <= k < free.len() implies after.data@[(#[trigger] free[k]) as int]
            == self.data@[free[k] as int] by {
            lemma_threads_members(self.data@, self.first_free, free, k);
        }
        lemma_threads_stable(self.data@, after.data@, self.first_free, free);
        after.lemma_free_is(free);
    }
}

} // verus!
