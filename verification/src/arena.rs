//! A growable indexed pool of uniform records with O(1) allocate and free.
//!
//! Freed slots are reused via a singly-linked free list threaded through the
//! slots themselves.  An index returned by `allocate` stays valid until
//! it is passed to `free`; the abstract view of the arena is the sequence of its
//! slots, live records as `Some`, freed slots as `None`.

use vstd::prelude::*;

verus! {

/// One slot of the arena: either a live record, or a freed slot holding the
/// link to the next member of the free list.
enum Slot<T> {
    /// A freed slot; `next_free` threads the free list through the arena.
    Free { next_free: Option<usize> },
    /// A live record.
    Used { value: T },
}

/// A stable-index slab of homogeneous records with O(1) allocate and free.
pub struct Arena<T> {
    slots: Vec<Slot<T>>,
    free_head: Option<usize>,
    free_list: Ghost<Seq<usize>>,
}

impl<T> View for Arena<T> {
    type V = Seq<Option<T>>;

    /// The abstract contents: one entry per slot ever allocated, live
    /// records as `Some`, freed slots as `None`.
    closed spec fn view(&self) -> Seq<Option<T>> {
        Seq::new(
            self.slots@.len(),
            |i: int| match self.slots@[i] {
                Slot::Used { value } => Some(value),
                Slot::Free { .. } => None,
            },
        )
    }
}

impl<T> Arena<T> {
    /// The free list is exactly the ghost sequence of freed slot indices:
    /// it starts at `free_head`, each member is a freed slot linking to the
    /// next, and no slot appears twice.
    pub closed spec fn wf(&self) -> bool {
        let fl = self.free_list@;
        &&& self.free_head == (if fl.len() > 0 {
            Some(fl[0])
        } else {
            None::<usize>
        })
        &&& (forall|k: int| 0 <= k < fl.len() ==> #[trigger] fl[k] < self.slots@.len())
        &&& (forall|k: int|
            0 <= k < fl.len() ==> (#[trigger] self.slots@[fl[k] as int]) == (Slot::Free::<T> {
                next_free: if k + 1 < fl.len() {
                    Some(fl[k + 1])
                } else {
                    None::<usize>
                },
            }))
        &&& (forall|k1: int, k2: int| 0 <= k1 < k2 < fl.len() ==> fl[k1] != fl[k2])
    }

    /// Create an empty arena, preallocating room for `capacity` records.
    pub fn new(capacity: usize) -> (a: Self)
        ensures
            a.wf(),
            a@ == Seq::<Option<T>>::empty(),
    {
        let a = Arena { slots: Vec::with_capacity(capacity), free_head: None, free_list: Ghost(Seq::empty()) };
        proof {
            assert(a@ =~= Seq::<Option<T>>::empty());
        }
        a
    }

    /// Store `value` in a fresh or recycled slot and return its index.
    /// All other slots keep their contents.
    pub fn allocate(&mut self, value: T) -> (i: usize)
        requires
            old(self).wf(),
        ensures
            final(self).wf(),
            i < final(self)@.len(),
            i <= old(self)@.len(),
            i < old(self)@.len() ==> old(self)@[i as int] is None,
            final(self)@ == (if i < old(self)@.len() {
                old(self)@.update(i as int, Some(value))
            } else {
                old(self)@.push(Some(value))
            }),
    {
        match self.free_head {
            Some(i) => {
                proof {
                    assert(self.free_list@[0] == i);
                }
                let next = match &self.slots[i] {
                    Slot::Free { next_free } => *next_free,
                    Slot::Used { .. } => None,
                };
                self.free_head = next;
                let slot = &mut self.slots[i];
                *slot = Slot::Used { value };
                proof {
                    let fl = self.free_list@;
                    self.free_list@ = fl.subrange(1, fl.len() as int);
                    assert(self@ =~= old(self)@.update(i as int, Some(value)));
                }
                i
            },
            None => {
                let i = self.slots.len();
                self.slots.push(Slot::Used { value });
                proof {
                    assert(self@ =~= old(self)@.push(Some(value)));
                }
                i
            },
        }
    }

    /// Release the record at `i`; the slot joins the free list and its
    /// abstract entry becomes `None`.  All other slots keep their contents.
    pub fn free(&mut self, i: usize)
        requires
            old(self).wf(),
            i < old(self)@.len(),
            old(self)@[i as int] is Some,
        ensures
            final(self).wf(),
            final(self)@ == old(self)@.update(i as int, None),
    {
        let nf = self.free_head;
        let slot = &mut self.slots[i];
        *slot = Slot::Free { next_free: nf };
        self.free_head = Some(i);
        proof {
            self.free_list@ = seq![i].add(self.free_list@);
            assert(self@ =~= old(self)@.update(i as int, None));
        }
    }

    /// Borrow the record at `i`.
    pub fn get(&self, i: usize) -> (r: &T)
        requires
            i < self@.len(),
            self@[i as int] is Some,
        ensures
            *r == self@[i as int]->0,
    {
        match &self.slots[i] {
            Slot::Used { value } => value,
            Slot::Free { .. } => vstd::pervasive::unreached(),
        }
    }

    /// Mutably borrow the record at `i`; only that entry of the view is
    /// replaced, by whatever the caller leaves behind the reference.
    pub fn get_mut(&mut self, i: usize) -> (r: &mut T)
        requires
            old(self).wf(),
            i < old(self)@.len(),
            old(self)@[i as int] is Some,
        ensures
            final(self).wf(),
            *r == old(self)@[i as int]->0,
            final(self)@ == old(self)@.update(i as int, Some(*final(r))),
    {
        let slot = &mut self.slots[i];
        match slot {
            Slot::Used { value } => value,
            Slot::Free { .. } => vstd::pervasive::unreached(),
        }
    }
}

} // verus!
