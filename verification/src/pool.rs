//! Reusable-object pool.
//!
//! The pool owns a vector of objects and a free list of slot indices.
//! Acquiring hands out a slot handle, preferring a free slot over creating a
//! new object; releasing a handle returns its slot to the free list. The
//! hit/reuse statistic counts how often an acquisition was served from the
//! free list. The pool performs no synchronization; it is meant for
//! single-threaded staging of short-lived objects.

use vstd::prelude::*;

verus! {

/// A handle to one pool slot. Release it with [`PoolGuard::release`] to
/// return the slot to the pool.
#[derive(Debug)]
pub struct PoolGuard {
    index: usize,
}

impl PoolGuard {
    /// The slot this handle refers to.
    pub closed spec fn spec_index(self) -> usize {
        self.index
    }

    /// The slot this handle refers to.
    pub fn slot(&self) -> (i: usize)
        ensures
            i == self.spec_index(),
    {
        self.index
    }

    /// Returns the slot to the pool's free list.
    pub fn release<T>(self, pool: &mut ObjectPool<T>)
        ensures
            final(pool).spec_available() == old(pool).spec_available().push(self.spec_index()),
            final(pool).spec_objects() == old(pool).spec_objects(),
            final(pool).spec_acquires() == old(pool).spec_acquires(),
            final(pool).spec_reuses() == old(pool).spec_reuses(),
            final(pool).spec_max() == old(pool).spec_max(),
    {
        pool.available.push(self.index);
    }
}

/// The object pool.
#[derive(Debug)]
pub struct ObjectPool<T> {
    objects: Vec<T>,
    available: Vec<usize>,
    acquire_count: u64,
    reuse_count: u64,
    max_capacity: Option<usize>,
}

impl<T> ObjectPool<T> {
    /// The stored objects, slot by slot.
    pub closed spec fn spec_objects(self) -> Seq<T> {
        self.objects@
    }

    /// The free slots, oldest first.
    pub closed spec fn spec_available(self) -> Seq<usize> {
        self.available@
    }

    /// How many acquisitions have happened (saturating).
    pub closed spec fn spec_acquires(self) -> u64 {
        self.acquire_count
    }

    /// How many acquisitions were served from the free list (saturating).
    pub closed spec fn spec_reuses(self) -> u64 {
        self.reuse_count
    }

    /// The configured capacity bound, if any.
    pub closed spec fn spec_max(self) -> Option<usize> {
        self.max_capacity
    }

    /// Total number of slots.
    pub fn size(&self) -> (n: usize)
        ensures
            n == self.spec_objects().len(),
    {
        self.objects.len()
    }

    /// Number of free slots.
    pub fn available_count(&self) -> (n: usize)
        ensures
            n == self.spec_available().len(),
    {
        self.available.len()
    }

    /// Number of slots handed out and not yet released.
    pub fn in_use_count(&self) -> (n: usize)
        ensures
            n == if self.spec_available().len() <= self.spec_objects().len() {
                self.spec_objects().len() - self.spec_available().len()
            } else {
                0int
            },
    {
        let size = self.objects.len();
        let avail = self.available.len();
        if avail <= size {
            size - avail
        } else {
            0
        }
    }

    /// How many acquisitions have happened.
    pub fn acquires(&self) -> (n: u64)
        ensures
            n == self.spec_acquires(),
    {
        self.acquire_count
    }

    /// How many acquisitions were served from the free list.
    pub fn reuses(&self) -> (n: u64)
        ensures
            n == self.spec_reuses(),
    {
        self.reuse_count
    }

    /// Drops every object, free slot and statistic.
    pub fn clear(&mut self)
        ensures
            final(self).spec_objects() == Seq::<T>::empty(),
            final(self).spec_available() == Seq::<usize>::empty(),
            final(self).spec_acquires() == 0,
            final(self).spec_reuses() == 0,
            final(self).spec_max() == old(self).spec_max(),
    {
        self.objects.clear();
        self.available.clear();
        self.acquire_count = 0;
        self.reuse_count = 0;
    }

    /// The object in the slot of `g`.
    pub fn get(&self, g: &PoolGuard) -> (r: &T)
        requires
            g.spec_index() < self.spec_objects().len(),
        ensures
            r == self.spec_objects()[g.spec_index() as int],
    {
        &self.objects[g.index]
    }

    /// Mutable access to the object in the slot of `g`.
    pub fn get_mut(&mut self, g: &PoolGuard) -> (r: &mut T)
        requires
            g.spec_index() < old(self).spec_objects().len(),
        ensures
            *r == old(self).spec_objects()[g.spec_index() as int],
            final(self).spec_objects() == old(self).spec_objects().update(
                g.spec_index() as int,
                *final(r),
            ),
            final(self).spec_available() == old(self).spec_available(),
            final(self).spec_acquires() == old(self).spec_acquires(),
            final(self).spec_reuses() == old(self).spec_reuses(),
            final(self).spec_max() == old(self).spec_max(),
    {
        &mut self.objects[g.index]
    }

    /// Builds a pool whose `capacity` slots are pre-filled by calling
    /// `factory`, all free.
    pub fn with_factory<F: Fn() -> T>(capacity: usize, factory: F) -> (p: ObjectPool<T>)
        requires
            factory.requires(()),
        ensures
            p.spec_objects().len() == capacity,
            p.spec_available().len() == capacity,
            forall|i: int|
                0 <= i < capacity ==> p.spec_available()[i] == i,
            p.spec_acquires() == 0,
            p.spec_reuses() == 0,
            p.spec_max() is None,
    {
        let mut objects: Vec<T> = Vec::with_capacity(capacity);
        let mut available: Vec<usize> = Vec::with_capacity(capacity);
        let mut i: usize = 0;
        while i < capacity
            invariant
                factory.requires(()),
                i <= capacity,
                objects@.len() == i,
                available@.len() == i,
                forall|j: int| 0 <= j < i ==> available@[j] == j,
            decreases capacity - i,
        {
            objects.push(factory());
            available.push(i);
            i += 1;
        }
        ObjectPool { objects, available, acquire_count: 0, reuse_count: 0, max_capacity: None }
    }
}

impl<T: Default> ObjectPool<T> {
    /// An empty pool.
    pub fn new() -> (p: ObjectPool<T>)
        ensures
            p.spec_objects() == Seq::<T>::empty(),
            p.spec_available() == Seq::<usize>::empty(),
            p.spec_acquires() == 0,
            p.spec_reuses() == 0,
            p.spec_max() is None,
    {
        ObjectPool {
            objects: Vec::new(),
            available: Vec::new(),
            acquire_count: 0,
            reuse_count: 0,
            max_capacity: None,
        }
    }

    /// An empty pool with storage preallocated for `capacity` slots.
    pub fn with_capacity(capacity: usize) -> (p: ObjectPool<T>)
        ensures
            p.spec_objects() == Seq::<T>::empty(),
            p.spec_available() == Seq::<usize>::empty(),
            p.spec_acquires() == 0,
            p.spec_reuses() == 0,
            p.spec_max() is None,
    {
        ObjectPool {
            objects: Vec::with_capacity(capacity),
            available: Vec::with_capacity(capacity),
            acquire_count: 0,
            reuse_count: 0,
            max_capacity: None,
        }
    }

    /// The same pool with a capacity bound: acquisitions beyond it are
    /// refused by `acquire`'s precondition.
    pub fn with_max_capacity(self, max: usize) -> (p: ObjectPool<T>)
        ensures
            p.spec_objects() == self.spec_objects(),
            p.spec_available() == self.spec_available(),
            p.spec_acquires() == self.spec_acquires(),
            p.spec_reuses() == self.spec_reuses(),
            p.spec_max() == Some(max),
    {
        ObjectPool { max_capacity: Some(max), ..self }
    }

    /// Hands out a slot: the most recently freed one when the free list is
    /// not empty (counted as a reuse, keeping the object's current value),
    /// otherwise a fresh slot holding a default object. The acquisition
    /// counters saturate at their maximum.
    pub fn acquire(&mut self) -> (g: PoolGuard)
        requires
            old(self).spec_available().len() > 0 || match old(self).spec_max() {
                Some(max) => old(self).spec_objects().len() < max,
                None => true,
            },
        ensures
            final(self).spec_acquires() == sat_inc(old(self).spec_acquires()),
            final(self).spec_max() == old(self).spec_max(),
            if old(self).spec_available().len() > 0 {
                &&& g.spec_index() == old(self).spec_available().last()
                &&& final(self).spec_available() == old(self).spec_available().drop_last()
                &&& final(self).spec_objects() == old(self).spec_objects()
                &&& final(self).spec_reuses() == sat_inc(old(self).spec_reuses())
            } else {
                &&& g.spec_index() == old(self).spec_objects().len()
                &&& final(self).spec_available() == old(self).spec_available()
                &&& final(self).spec_objects().len() == old(self).spec_objects().len() + 1
                &&& final(self).spec_objects().take(old(self).spec_objects().len() as int) == old(
                    self,
                ).spec_objects()
                &&& final(self).spec_reuses() == old(self).spec_reuses()
            },
    {
        self.acquire_count = sat_inc_exec(self.acquire_count);
        let index = match self.available.pop() {
            Some(idx) => {
                self.reuse_count = sat_inc_exec(self.reuse_count);
                idx
            },
            None => {
                let idx = self.objects.len();
                self.objects.push(T::default());
                proof {
                    assert(self.objects@.take(old(self).spec_objects().len() as int)
                        =~= old(self).spec_objects());
                }
                idx
            },
        };
        PoolGuard { index }
    }

    /// Grows the pool with free default-valued slots until it holds at
    /// least `count` objects; a pool already that large is unchanged.
    pub fn warm_up(&mut self, count: usize)
        ensures
            final(self).spec_objects().len() == if old(self).spec_objects().len() >= count {
                old(self).spec_objects().len() as int
            } else {
                count as int
            },
            final(self).spec_objects().take(old(self).spec_objects().len() as int) == old(
                self,
            ).spec_objects(),
            final(self).spec_available().len() == old(self).spec_available().len() + (
            final(self).spec_objects().len() - old(self).spec_objects().len()),
            final(self).spec_available().take(old(self).spec_available().len() as int) == old(
                self,
            ).spec_available(),
            final(self).spec_acquires() == old(self).spec_acquires(),
            final(self).spec_reuses() == old(self).spec_reuses(),
            final(self).spec_max() == old(self).spec_max(),
    {
        while self.objects.len() < count
            invariant
                self.spec_objects().len() >= old(self).spec_objects().len(),
                self.spec_objects().len() <= count || self.spec_objects().len() == old(
                    self,
                ).spec_objects().len(),
                self.spec_objects().take(old(self).spec_objects().len() as int) == old(
                    self,
                ).spec_objects(),
                self.spec_available().len() == old(self).spec_available().len() + (
                self.spec_objects().len() - old(self).spec_objects().len()),
                self.spec_available().take(old(self).spec_available().len() as int) == old(
                    self,
                ).spec_available(),
                self.spec_acquires() == old(self).spec_acquires(),
                self.spec_reuses() == old(self).spec_reuses(),
                self.spec_max() == old(self).spec_max(),
            decreases count - self.spec_objects().len(),
        {
            let idx = self.objects.len();
            self.objects.push(T::default());
            self.available.push(idx);
            proof {
                assert(self.objects@.take(old(self).spec_objects().len() as int) =~= old(
                    self,
                ).spec_objects());
                assert(self.available@.take(old(self).spec_available().len() as int) =~= old(
                    self,
                ).spec_available());
            }
        }
    }
}

/// `x + 1`, stopping at the largest value.
pub open spec fn sat_inc(x: u64) -> u64 {
    if x < u64::MAX {
        (x + 1) as u64
    } else {
        u64::MAX
    }
}

fn sat_inc_exec(x: u64) -> (r: u64)
    ensures
        r == sat_inc(x),
{
    if x < u64::MAX {
        x + 1
    } else {
        u64::MAX
    }
}

} // verus!
