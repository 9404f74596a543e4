use vstd::prelude::*;
use std::collections::HashMap;
use vstd::std_specs::hash::spec_keys_iter;
use vstd::std_specs::iter::IteratorSpec;

verus! {

broadcast use vstd::std_specs::hash::group_hash_axioms;

/// Why a borrow of a kind was refused.
#[derive(Clone, Copy, Debug, PartialEq, Eq, Structural)]
pub enum BorrowError {
    /// Nothing has been registered under the requested kind.
    Unregistered,
    /// A conflicting borrow of the kind is outstanding.
    AlreadyBorrowed,
}

/// The outstanding borrows of one kind: any number of readers, or one writer.
#[derive(Clone, Copy, Debug, PartialEq, Eq, Structural)]
pub struct BorrowState {
    pub readers: u64,
    pub writing: bool,
}

impl BorrowState {
    pub open spec fn wf(self) -> bool {
        self.writing ==> self.readers == 0
    }

    pub open spec fn is_free(self) -> bool {
        self.readers == 0 && !self.writing
    }

    /// A shared borrow is granted unless a writer holds the kind or the
    /// reader count is exhausted.
    pub open spec fn can_read(self) -> bool {
        !self.writing && self.readers < u64::MAX
    }

    /// An exclusive borrow is granted only when nothing else is outstanding.
    pub open spec fn can_write(self) -> bool {
        self.is_free()
    }

    pub open spec fn free() -> BorrowState {
        BorrowState { readers: 0, writing: false }
    }
}

/// What a shared-borrow request for `k` answers, given the borrow states.
pub open spec fn read_outcome(locks: Map<u64, BorrowState>, k: u64) -> Result<(), BorrowError> {
    if !locks.contains_key(k) {
        Err(BorrowError::Unregistered)
    } else if !locks[k].can_read() {
        Err(BorrowError::AlreadyBorrowed)
    } else {
        Ok(())
    }
}

/// What an exclusive-borrow request for `k` answers, given the borrow states.
pub open spec fn write_outcome(locks: Map<u64, BorrowState>, k: u64) -> Result<(), BorrowError> {
    if !locks.contains_key(k) {
        Err(BorrowError::Unregistered)
    } else if !locks[k].can_write() {
        Err(BorrowError::AlreadyBorrowed)
    } else {
        Ok(())
    }
}

/// The borrow states after a granted shared borrow of `k`.
pub open spec fn after_read(locks: Map<u64, BorrowState>, k: u64) -> Map<u64, BorrowState> {
    locks.insert(k, BorrowState { readers: (locks[k].readers + 1) as u64, writing: false })
}

/// The borrow states after a granted exclusive borrow of `k`.
pub open spec fn after_write(locks: Map<u64, BorrowState>, k: u64) -> Map<u64, BorrowState> {
    locks.insert(k, BorrowState { readers: 0, writing: true })
}

/// The borrow states after one shared borrow of `k` is given back.
pub open spec fn after_read_release(locks: Map<u64, BorrowState>, k: u64) -> Map<u64, BorrowState> {
    locks.insert(k, BorrowState { readers: (locks[k].readers - 1) as u64, writing: false })
}

/// While a shared borrow of a kind is outstanding, an exclusive borrow of it is
/// refused and another shared borrow is granted (unless the reader count is
/// exhausted).
pub proof fn lemma_readers_exclude_writer(locks: Map<u64, BorrowState>, k: u64)
    requires
        locks.contains_key(k),
        locks[k].wf(),
        locks[k].readers > 0,
    ensures
        write_outcome(locks, k) == Err::<(), BorrowError>(BorrowError::AlreadyBorrowed),
        locks[k].readers < u64::MAX ==> read_outcome(locks, k) == Ok::<(), BorrowError>(()),
{
}

/// One value with its borrow counters.
struct Slot<V> {
    value: V,
    lock: BorrowState,
}

/// A registry from kind keys to values, each guarded by a dynamic
/// shared/exclusive borrow state.
pub struct BorrowMap<V> {
    slots: HashMap<u64, Slot<V>>,
}

impl<V> BorrowMap<V> {
    pub closed spec fn wf(&self) -> bool {
        forall|k: u64| #[trigger] self.slots@.contains_key(k) ==> self.slots@[k].lock.wf()
    }

    /// The value stored under each registered kind.
    pub closed spec fn values(&self) -> Map<u64, V> {
        Map::new(|k: u64| self.slots@.contains_key(k), |k: u64| self.slots@[k].value)
    }

    /// The borrow state of each registered kind.
    pub closed spec fn locks(&self) -> Map<u64, BorrowState> {
        Map::new(|k: u64| self.slots@.contains_key(k), |k: u64| self.slots@[k].lock)
    }

    /// Whether no borrow of any kind is outstanding.
    pub open spec fn unborrowed(&self) -> bool {
        forall|k: u64| #[trigger] self.locks().contains_key(k) ==> self.locks()[k].is_free()
    }

    /// Every registered kind has a well-formed borrow state.
    pub proof fn lemma_views_pub(&self)
        requires
            self.wf(),
        ensures
            self.values().dom() == self.locks().dom(),
            forall|k: u64| #[trigger] self.locks().contains_key(k) ==> self.locks()[k].wf(),
    {
        assert(self.values().dom() =~= self.locks().dom());
    }

    proof fn lemma_put(old_map: &Self, new_map: &Self, k: u64)
        requires
            old_map.wf(),
            new_map.slots@.contains_key(k),
            new_map.slots@[k].lock.wf(),
            new_map.slots@ == old_map.slots@.insert(k, new_map.slots@[k]),
        ensures
            new_map.wf(),
            new_map.values() == old_map.values().insert(k, new_map.slots@[k].value),
            new_map.locks() == old_map.locks().insert(k, new_map.slots@[k].lock),
    {
        assert(new_map.values() =~= old_map.values().insert(k, new_map.slots@[k].value));
        assert(new_map.locks() =~= old_map.locks().insert(k, new_map.slots@[k].lock));
    }

    /// An empty registry.
    pub fn new() -> (r: Self)
        ensures
            r.wf(),
            r.values() == Map::<u64, V>::empty(),
            r.locks() == Map::<u64, BorrowState>::empty(),
    {
        let r = BorrowMap { slots: HashMap::new() };
        assert(r.values() =~= Map::<u64, V>::empty());
        assert(r.locks() =~= Map::<u64, BorrowState>::empty());
        r
    }

    /// Whether a value is registered under `k`.
    pub fn contains(&self, k: u64) -> (r: bool)
        requires
            self.wf(),
        ensures
            r == self.values().contains_key(k),
    {
        self.slots.contains_key(&k)
    }

    /// The borrow state of `k`, if registered.
    pub fn lock(&self, k: u64) -> (r: Option<BorrowState>)
        requires
            self.wf(),
        ensures
            r == (if self.locks().contains_key(k) {
                Some(self.locks()[k])
            } else {
                None
            }),
    {
        match self.slots.get(&k) {
            Some(s) => Some(s.lock),
            None => None,
        }
    }

    /// The value registered under `k`.
    pub fn get(&self, k: u64) -> (r: Option<&V>)
        requires
            self.wf(),
        ensures
            r == (if self.values().contains_key(k) {
                Some(&self.values()[k])
            } else {
                None
            }),
    {
        match self.slots.get(&k) {
            Some(s) => Some(&s.value),
            None => None,
        }
    }

    /// Swaps in `v` as the value of the registered kind `k` and hands back the
    /// previous value; the borrow state is untouched.
    pub fn replace(&mut self, k: u64, v: V) -> (r: V)
        requires
            old(self).wf(),
            old(self).values().contains_key(k),
        ensures
            final(self).wf(),
            r == old(self).values()[k],
            final(self).values() == old(self).values().insert(k, v),
            final(self).locks() == old(self).locks(),
    {
        let ghost before = *self;
        let old_slot = self.slots.remove(&k).unwrap();
        self.slots.insert(k, Slot { value: v, lock: old_slot.lock });
        proof {
            assert(self.slots@ =~= before.slots@.insert(k, self.slots@[k]));
            Self::lemma_put(&before, self, k);
            assert(self.locks() =~= before.locks());
        }
        old_slot.value
    }

    /// Stores `v` under `k`: a new kind starts unborrowed, an existing kind has
    /// its value replaced wholesale.
    pub fn insert(&mut self, k: u64, v: V)
        requires
            old(self).wf(),
            old(self).locks().contains_key(k) ==> old(self).locks()[k].is_free(),
        ensures
            final(self).wf(),
            final(self).values() == old(self).values().insert(k, v),
            final(self).locks() == old(self).locks().insert(k, BorrowState::free()),
    {
        let ghost before = *self;
        self.slots.insert(k, Slot { value: v, lock: BorrowState { readers: 0, writing: false } });
        proof {
            Self::lemma_put(&before, self, k);
        }
    }

    fn set_lock(&mut self, k: u64, lock: BorrowState)
        requires
            old(self).wf(),
            old(self).values().contains_key(k),
            lock.wf(),
        ensures
            final(self).wf(),
            final(self).values() == old(self).values(),
            final(self).locks() == old(self).locks().insert(k, lock),
    {
        let ghost before = *self;
        let old_slot = self.slots.remove(&k).unwrap();
        self.slots.insert(k, Slot { value: old_slot.value, lock });
        proof {
            assert(self.slots@ =~= before.slots@.insert(k, self.slots@[k]));
            Self::lemma_put(&before, self, k);
            assert(self.values() =~= before.values());
        }
    }

    /// Takes a shared borrow of `k`.
    pub fn acquire_read(&mut self, k: u64) -> (r: Result<(), BorrowError>)
        requires
            old(self).wf(),
        ensures
            final(self).wf(),
            final(self).values() == old(self).values(),
            r == read_outcome(old(self).locks(), k),
            r is Ok ==> final(self).locks() == after_read(old(self).locks(), k),
            r is Err ==> final(self).locks() == old(self).locks(),
    {
        match self.lock(k) {
            None => Err(BorrowError::Unregistered),
            Some(lock) => {
                if lock.writing || lock.readers == u64::MAX {
                    Err(BorrowError::AlreadyBorrowed)
                } else {
                    self.set_lock(k, BorrowState { readers: lock.readers + 1, writing: false });
                    Ok(())
                }
            },
        }
    }

    /// Takes the exclusive borrow of `k`.
    pub fn acquire_write(&mut self, k: u64) -> (r: Result<(), BorrowError>)
        requires
            old(self).wf(),
        ensures
            final(self).wf(),
            final(self).values() == old(self).values(),
            r == write_outcome(old(self).locks(), k),
            r is Ok ==> final(self).locks() == after_write(old(self).locks(), k),
            r is Err ==> final(self).locks() == old(self).locks(),
    {
        match self.lock(k) {
            None => Err(BorrowError::Unregistered),
            Some(lock) => {
                if lock.writing || lock.readers != 0 {
                    Err(BorrowError::AlreadyBorrowed)
                } else {
                    self.set_lock(k, BorrowState { readers: 0, writing: true });
                    Ok(())
                }
            },
        }
    }

    /// Gives back one shared borrow of `k`.
    pub fn release_read(&mut self, k: u64)
        requires
            old(self).wf(),
            old(self).locks().contains_key(k),
            old(self).locks()[k].readers > 0,
        ensures
            final(self).wf(),
            final(self).values() == old(self).values(),
            final(self).locks() == after_read_release(old(self).locks(), k),
    {
        let lock = self.lock(k).unwrap();
        self.set_lock(k, BorrowState { readers: lock.readers - 1, writing: false });
    }

    /// Gives back the exclusive borrow of `k`.
    pub fn release_write(&mut self, k: u64)
        requires
            old(self).wf(),
            old(self).locks().contains_key(k),
            old(self).locks()[k].writing,
        ensures
            final(self).wf(),
            final(self).values() == old(self).values(),
            final(self).locks() == old(self).locks().insert(k, BorrowState::free()),
    {
        self.set_lock(k, BorrowState { readers: 0, writing: false });
    }

    /// The registered kinds, each once.
    pub fn kinds(&self) -> (r: Vec<u64>)
        requires
            self.wf(),
        ensures
            forall|k: u64| self.values().contains_key(k) <==> r@.contains(k),
            r@.no_duplicates(),
    {
        let mut r: Vec<u64> = Vec::new();
        let ghost ks = spec_keys_iter(&self.slots).remaining();
        for k in it: self.slots.keys()
            invariant
                it.seq() == ks,
                r@.len() == it.index(),
                forall|j: int| 0 <= j < it.index() ==> r@[j] == *ks[j],
        {
            r.push(*k);
        }
        proof {
            assert(r@.len() == ks.len());
            assert(ks.unref().to_set() == self.slots@.dom());
            assert forall|k: u64| self.values().contains_key(k) <==> r@.contains(k) by {
                if self.values().contains_key(k) {
                    assert(ks.unref().to_set().contains(k));
                    let j = choose|j: int| 0 <= j < ks.unref().len() && ks.unref()[j] == k;
                    assert(r@[j] == k);
                }
                if r@.contains(k) {
                    let j = choose|j: int| 0 <= j < r@.len() && r@[j] == k;
                    assert(ks.unref()[j] == k);
                    assert(ks.unref().to_set().contains(k));
                }
            }
            assert forall|a: int, b: int| 0 <= a < r@.len() && 0 <= b < r@.len() && a != b implies r@[a] != r@[b] by {
                assert(ks[a] != ks[b]);
            }
        }
        r
    }
}

} // verus!
