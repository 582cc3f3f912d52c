//! A first-in, first-out container of owned elements.
//!
//! The container keeps its elements as a chain of [`Item`] nodes: `push`
//! appends at the tail, `pop` unlinks the head and hands the element's
//! ownership back to the caller.  Concurrent callers are kept apart by a
//! single-bit busy flag around the pointer updates; in this single-owner
//! model the flag is taken and released within each call, so it is free at
//! every public boundary, which the container invariant records.

use vstd::prelude::*;

verus! {

/// The busy flag when no update is in progress.
pub const AVAILABLE: bool = true;

/// The busy flag while the chain is being relinked.
pub const UPDATING: bool = false;

/// A node in the chain: owns one element.
pub struct Item<T> {
    /// The element this node carries.
    pub value: T,
}

/// The elements carried by a chain of nodes, in chain order.
pub open spec fn chain_values<T>(s: Seq<Item<T>>) -> Seq<T> {
    s.map_values(|it: Item<T>| it.value)
}

impl<T> Item<T> {
    /// Wraps an element in a fresh node.
    pub fn new(val: T) -> (it: Item<T>)
        ensures
            it.value == val,
    {
        Item { value: val }
    }
}

/// A first-in, first-out queue guarded by a single-bit busy flag.
pub struct AtomicVec<T> {
    items: Vec<Item<T>>,
    state: bool,
    ref_count: usize,
}

impl<T> AtomicVec<T> {
    /// The elements in queue order, head first.
    pub closed spec fn view(&self) -> Seq<T> {
        chain_values(self.items@)
    }

    /// How many handles share the container.  A single owner holds exactly
    /// one.
    pub closed spec fn ref_count(&self) -> usize {
        self.ref_count
    }

    /// The container invariant: outside a call the busy flag is released.
    pub closed spec fn wf(&self) -> bool {
        self.state == AVAILABLE
    }

    /// Creates an empty queue held by one handle.
    pub fn new() -> (v: AtomicVec<T>)
        ensures
            v.wf(),
            v@ == Seq::<T>::empty(),
            v.ref_count() == 1,
    {
        let v = AtomicVec { items: Vec::new(), state: AVAILABLE, ref_count: 1 };
        proof {
            assert(v@ =~= Seq::<T>::empty());
        }
        v
    }

    /// Takes the busy flag.  A concurrent holder would make the caller wait;
    /// the single owner finds the flag free.
    fn lock(&mut self)
        requires
            old(self).wf(),
        ensures
            *final(self) == (AtomicVec { state: UPDATING, ..*old(self) }),
    {
        self.state = UPDATING;
    }

    /// Releases the busy flag.
    fn release(&mut self)
        ensures
            *final(self) == (AtomicVec { state: AVAILABLE, ..*old(self) }),
    {
        self.state = AVAILABLE;
    }

    /// Links a fresh node behind the current tail.
    fn update_tail(&mut self, item: Item<T>)
        ensures
            final(self)@ == old(self)@.push(item.value),
            final(self).ref_count() == old(self).ref_count(),
            final(self).wf() == old(self).wf(),
    {
        let ghost pre = self.items@;
        self.items.push(item);
        proof {
            assert(self@ =~= chain_values(pre).push(item.value));
        }
    }

    /// Appends an element at the tail of the queue.
    pub fn push(&mut self, val: T)
        requires
            old(self).wf(),
        ensures
            final(self).wf(),
            final(self)@ == old(self)@.push(val),
            final(self).ref_count() == old(self).ref_count(),
    {
        let item = Item::new(val);
        self.lock();
        self.update_tail(item);
        self.release();
    }

    /// Unlinks the head of the queue and returns its element, or `None` when
    /// the queue is empty.
    pub fn pop(&mut self) -> (r: Option<T>)
        requires
            old(self).wf(),
        ensures
            final(self).wf(),
            final(self).ref_count() == old(self).ref_count(),
            old(self)@.len() == 0 ==> r is None && final(self)@ == old(self)@,
            old(self)@.len() > 0 ==> r == Some(old(self)@[0]) && final(self)@ == old(self)@.skip(
                1,
            ),
    {
        self.lock();
        if self.items.len() == 0 {
            self.release();
            proof {
                assert(self@ =~= old(self)@);
            }
            return None;
        }
        let ghost pre = self.items@;
        let head = self.items.remove(0);
        self.release();
        proof {
            assert(self.items@ =~= pre.skip(1));
            assert(self@ =~= chain_values(pre).skip(1));
            assert(head.value == old(self)@[0]);
        }
        Some(head.value)
    }

    /// Returns `true` when the queue holds no element.
    pub fn is_empty(&self) -> (r: bool)
        ensures
            r == (self@.len() == 0),
    {
        self.len() == 0
    }

    /// How many elements the queue holds.
    pub fn len(&self) -> (n: usize)
        ensures
            n == self@.len(),
    {
        self.items.len()
    }

    /// Returns `true` while an update holds the busy flag.  The single owner
    /// always finds the flag released.
    pub fn is_busy(&self) -> (r: bool)
        ensures
            r == !self.wf(),
    {
        self.state != AVAILABLE
    }
}

} // verus!
