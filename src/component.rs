use vstd::prelude::*;
use crate::borrow::{
    after_read, after_read_release, after_write, read_outcome, write_outcome, BorrowError,
    BorrowMap, BorrowState,
};
use crate::entity::Entity;

verus! {

/// A component value. The host usually implements it on an enum with one
/// variant per component type.
pub trait Component {
    /// The key of the table this value belongs in, one per component type.
    spec fn spec_kind(&self) -> u64;

    /// Computes `spec_kind`.
    fn kind(&self) -> (r: u64)
        ensures
            r == self.spec_kind(),
    ;
}

/// The table of one component type: at most one value per entity, kept in
/// insertion order.
pub struct ComponentSet<C> {
    entries: Vec<(Entity, C)>,
}

impl<C> View for ComponentSet<C> {
    type V = Map<Entity, C>;

    closed spec fn view(&self) -> Map<Entity, C> {
        Map::new(|e: Entity| self.has(e), |e: Entity| self.entries@[self.index_of(e)].1)
    }
}

impl<C> ComponentSet<C> {
    pub closed spec fn wf(&self) -> bool {
        forall|i: int, j: int|
            0 <= i < j < self.entries@.len() ==> #[trigger] self.entries@[i].0
                != #[trigger] self.entries@[j].0
    }

    closed spec fn has(&self, e: Entity) -> bool {
        exists|i: int| 0 <= i < self.entries@.len() && self.entries@[i].0 == e
    }

    closed spec fn index_of(&self, e: Entity) -> int {
        choose|i: int| 0 <= i < self.entries@.len() && self.entries@[i].0 == e
    }

    proof fn lemma_view(&self)
        requires
            self.wf(),
        ensures
            forall|i: int|
                0 <= i < self.entries@.len() ==> {
                    &&& #[trigger] self@.contains_key(self.entries@[i].0)
                    &&& self@[self.entries@[i].0] == self.entries@[i].1
                },
            forall|e: Entity|
                #[trigger] self@.contains_key(e) ==> exists|i: int|
                    0 <= i < self.entries@.len() && self.entries@[i].0 == e,
    {
        assert forall|i: int| 0 <= i < self.entries@.len() implies {
            &&& #[trigger] self@.contains_key(self.entries@[i].0)
            &&& self@[self.entries@[i].0] == self.entries@[i].1
        } by {
            let e = self.entries@[i].0;
            assert(self.has(e));
            let j = self.index_of(e);
            if j != i {
                if i < j {
                    assert(self.entries@[i].0 != self.entries@[j].0);
                } else {
                    assert(self.entries@[j].0 != self.entries@[i].0);
                }
            }
        }
    }

    /// An empty table.
    pub fn new() -> (r: Self)
        ensures
            r.wf(),
            r@ == Map::<Entity, C>::empty(),
    {
        let r = ComponentSet { entries: Vec::new() };
        assert(r@ =~= Map::<Entity, C>::empty());
        r
    }

    fn find(&self, e: Entity) -> (r: Option<usize>)
        requires
            self.wf(),
        ensures
            match r {
                Some(i) => i < self.entries@.len() && self.entries@[i as int].0 == e,
                None => !self@.contains_key(e),
            },
    {
        let mut i: usize = 0;
        while i < self.entries.len()
            invariant
                i <= self.entries@.len(),
                forall|j: int| 0 <= j < i ==> self.entries@[j].0 != e,
            decreases self.entries@.len() - i,
        {
            if self.entries[i].0 == e {
                return Some(i);
            }
            i += 1;
        }
        None
    }

    /// The number of entities that have a value in this table.
    pub fn len(&self) -> (r: usize)
        requires
            self.wf(),
        ensures
            r == self@.len(),
    {
        proof {
            self.lemma_view();
            self.lemma_len();
        }
        self.entries.len()
    }

    proof fn lemma_len(&self)
        requires
            self.wf(),
        ensures
            self@.len() == self.entries@.len(),
        decreases self.entries@.len(),
    {
        self.lemma_view();
        let ks = Seq::new(self.entries@.len(), |i: int| self.entries@[i].0);
        assert(ks.no_duplicates()) by {
            assert forall|a: int, b: int| 0 <= a < ks.len() && 0 <= b < ks.len() && a != b implies ks[a] != ks[b] by {
                if a < b {
                    assert(self.entries@[a].0 != self.entries@[b].0);
                } else {
                    assert(self.entries@[b].0 != self.entries@[a].0);
                }
            }
        }
        assert(self@.dom() =~= ks.to_set()) by {
            assert forall|e: Entity| self@.dom().contains(e) <==> ks.to_set().contains(e) by {
                if self@.contains_key(e) {
                    let i = choose|i: int| 0 <= i < self.entries@.len() && self.entries@[i].0 == e;
                    assert(ks[i] == e);
                }
                if ks.to_set().contains(e) {
                    assert(ks.contains(e));
                    let i = choose|i: int| 0 <= i < ks.len() && ks[i] == e;
                    assert(self.entries@[i].0 == e);
                }
            }
        }
        ks.unique_seq_to_set();
    }

    /// Whether `e` has a value in this table.
    pub fn contains(&self, e: &Entity) -> (r: bool)
        requires
            self.wf(),
        ensures
            r == self@.contains_key(*e),
    {
        proof {
            self.lemma_view();
        }
        self.find(*e).is_some()
    }

    /// The value of `e`, if it has one.
    pub fn get(&self, e: &Entity) -> (r: Option<&C>)
        requires
            self.wf(),
        ensures
            r == (if self@.contains_key(*e) {
                Some(&self@[*e])
            } else {
                None
            }),
    {
        proof {
            self.lemma_view();
        }
        match self.find(*e) {
            Some(i) => Some(&self.entries[i].1),
            None => None,
        }
    }

    /// Gives `e` the value `c`, replacing any value it had; no other entity's
    /// value changes.
    pub fn insert(&mut self, e: Entity, c: C)
        requires
            old(self).wf(),
        ensures
            final(self).wf(),
            final(self)@ == old(self)@.insert(e, c),
    {
        proof {
            self.lemma_view();
        }
        let ghost before = *self;
        match self.find(e) {
            Some(i) => {
                self.entries.set(i, (e, c));
                proof {
                    let n = self.entries@.len() as int;
                    assert forall|a: int, b: int| 0 <= a < b < n implies #[trigger] self.entries@[a].0
                        != #[trigger] self.entries@[b].0 by {
                        assert(before.entries@[a].0 != before.entries@[b].0);
                    }
                    self.lemma_view();
                    assert(self@ =~= before@.insert(e, c)) by {
                        assert forall|q: Entity| self@.contains_key(q) <==> before@.insert(e, c).contains_key(q) by {
                            if self@.contains_key(q) {
                                let j = choose|j: int| 0 <= j < n && self.entries@[j].0 == q;
                                if j != i {
                                    assert(before.entries@[j].0 == q);
                                }
                            }
                            if before@.contains_key(q) {
                                let j = choose|j: int| 0 <= j < n && before.entries@[j].0 == q;
                                assert(self.entries@[j].0 == q);
                            }
                        }
                        assert forall|q: Entity| self@.contains_key(q) implies self@[q] == before@.insert(e, c)[q] by {
                            let j = choose|j: int| 0 <= j < n && self.entries@[j].0 == q;
                            if j != i {
                                assert(before.entries@[j].0 == q);
                            }
                        }
                    }
                }
            },
            None => {
                self.entries.push((e, c));
                proof {
                    let n = before.entries@.len() as int;
                    assert forall|a: int, b: int| 0 <= a < b < n + 1 implies #[trigger] self.entries@[a].0
                        != #[trigger] self.entries@[b].0 by {
                        if b < n {
                            assert(before.entries@[a].0 != before.entries@[b].0);
                        } else {
                            assert(before@.contains_key(before.entries@[a].0));
                        }
                    }
                    self.lemma_view();
                    assert(self@ =~= before@.insert(e, c)) by {
                        assert forall|q: Entity| self@.contains_key(q) <==> before@.insert(e, c).contains_key(q) by {
                            if self@.contains_key(q) && q != e {
                                let j = choose|j: int| 0 <= j < n + 1 && self.entries@[j].0 == q;
                                assert(before.entries@[j].0 == q);
                            }
                            if q == e {
                                assert(self.entries@[n].0 == e);
                            }
                            if before@.contains_key(q) {
                                let j = choose|j: int| 0 <= j < n && before.entries@[j].0 == q;
                                assert(self.entries@[j].0 == q);
                            }
                        }
                        assert forall|q: Entity| self@.contains_key(q) implies self@[q] == before@.insert(e, c)[q] by {
                            let j = choose|j: int| 0 <= j < n + 1 && self.entries@[j].0 == q;
                            if j < n {
                                assert(before.entries@[j].0 == q);
                            }
                        }
                    }
                }
            },
        }
    }

    /// Takes `e`'s value out of the table, if it has one; no other entity's
    /// value changes.
    pub fn remove(&mut self, e: &Entity) -> (r: Option<C>)
        requires
            old(self).wf(),
        ensures
            final(self).wf(),
            final(self)@ == old(self)@.remove(*e),
            r == (if old(self)@.contains_key(*e) {
                Some(old(self)@[*e])
            } else {
                None
            }),
    {
        proof {
            self.lemma_view();
        }
        let ghost before = *self;
        match self.find(*e) {
            None => {
                assert(before@.remove(*e) =~= before@);
                None
            },
            Some(i) => {
                let (_, c) = self.entries.remove(i);
                proof {
                    let n = self.entries@.len() as int;
                    assert forall|a: int, b: int| 0 <= a < b < n implies #[trigger] self.entries@[a].0
                        != #[trigger] self.entries@[b].0 by {
                        let a0 = if a < i { a } else { a + 1 };
                        let b0 = if b < i { b } else { b + 1 };
                        assert(before.entries@[a0].0 != before.entries@[b0].0);
                    }
                    self.lemma_view();
                    assert(self@ =~= before@.remove(*e)) by {
                        assert forall|q: Entity| self@.contains_key(q) <==> before@.remove(*e).contains_key(q) by {
                            if self@.contains_key(q) {
                                let j = choose|j: int| 0 <= j < n && self.entries@[j].0 == q;
                                let j0 = if j < i { j } else { j + 1 };
                                assert(before.entries@[j0].0 == q);
                                if q == *e {
                                    assert(before.entries@[i as int].0 != before.entries@[j0].0 || i == j0);
                                }
                            }
                            if before@.contains_key(q) && q != *e {
                                let j = choose|j: int| 0 <= j < n + 1 && before.entries@[j].0 == q;
                                if j < i {
                                    assert(self.entries@[j].0 == q);
                                } else {
                                    assert(j != i);
                                    assert(self.entries@[j - 1].0 == q);
                                }
                            }
                        }
                        assert forall|q: Entity| self@.contains_key(q) implies self@[q] == before@.remove(*e)[q] by {
                            let j = choose|j: int| 0 <= j < n && self.entries@[j].0 == q;
                            let j0 = if j < i { j } else { j + 1 };
                            assert(before.entries@[j0].0 == q);
                        }
                    }
                }
                Some(c)
            },
        }
    }

    /// The entities that have a value in this table, in insertion order.
    pub fn entities(&self) -> (r: Vec<Entity>)
        requires
            self.wf(),
        ensures
            r@.no_duplicates(),
            forall|e: Entity| self@.contains_key(e) <==> r@.contains(e),
    {
        proof {
            self.lemma_view();
        }
        let mut r: Vec<Entity> = Vec::new();
        let mut i: usize = 0;
        while i < self.entries.len()
            invariant
                self.wf(),
                i <= self.entries@.len(),
                r@.len() == i,
                forall|j: int| 0 <= j < i ==> r@[j] == self.entries@[j].0,
            decreases self.entries@.len() - i,
        {
            r.push(self.entries[i].0);
            i += 1;
        }
        proof {
            assert forall|e: Entity| self@.contains_key(e) <==> r@.contains(e) by {
                if self@.contains_key(e) {
                    let j = choose|j: int| 0 <= j < self.entries@.len() && self.entries@[j].0 == e;
                    assert(r@[j] == e);
                }
                if r@.contains(e) {
                    let j = choose|j: int| 0 <= j < r@.len() && r@[j] == e;
                    assert(self.entries@[j].0 == e);
                }
            }
            assert forall|a: int, b: int| 0 <= a < r@.len() && 0 <= b < r@.len() && a != b implies r@[a] != r@[b] by {
                if a < b {
                    assert(self.entries@[a].0 != self.entries@[b].0);
                } else {
                    assert(self.entries@[b].0 != self.entries@[a].0);
                }
            }
        }
        r
    }
}

/// A granted shared borrow of one component table.
#[derive(Debug)]
pub struct ReadSet {
    kind: u64,
}

/// A granted exclusive borrow of one component table.
#[derive(Debug)]
pub struct WriteSet {
    kind: u64,
}

impl View for ReadSet {
    type V = u64;

    closed spec fn view(&self) -> u64 {
        self.kind
    }
}

impl View for WriteSet {
    type V = u64;

    closed spec fn view(&self) -> u64 {
        self.kind
    }
}

impl ReadSet {
    /// The kind of the borrowed table.
    pub fn kind(&self) -> (r: u64)
        ensures
            r == self@,
    {
        self.kind
    }
}

impl WriteSet {
    /// The kind of the borrowed table.
    pub fn kind(&self) -> (r: u64)
        ensures
            r == self@,
    {
        self.kind
    }
}

/// The tables after `c` is filed for `e` under kind `k`: `e` has `c` in
/// table `k`, and nothing else changes.
pub open spec fn inserted<C>(
    tables: Map<u64, Map<Entity, C>>,
    k: u64,
    e: Entity,
    c: C,
) -> Map<u64, Map<Entity, C>> {
    tables.insert(k, table_of(tables, k).insert(e, c))
}

/// The table of kind `k`; an unregistered kind has no values.
pub open spec fn table_of<C>(tables: Map<u64, Map<Entity, C>>, k: u64) -> Map<Entity, C> {
    if tables.contains_key(k) {
        tables[k]
    } else {
        Map::empty()
    }
}

/// The tables after `e` is removed from every one of them.
pub open spec fn without_entity<C>(tables: Map<u64, Map<Entity, C>>, e: Entity) -> Map<u64, Map<Entity, C>> {
    Map::new(|k: u64| tables.contains_key(k), |k: u64| tables[k].remove(e))
}

/// Filing `c` for `e` under kind `k` gives `e` exactly `c` in table `k`,
/// leaves every other entity's value of that kind as it was, and leaves every
/// other kind's table, including `e`'s values there, untouched.
pub proof fn lemma_insert_is_local<C>(tables: Map<u64, Map<Entity, C>>, k: u64, e: Entity, c: C)
    ensures
        inserted(tables, k, e, c).contains_key(k),
        inserted(tables, k, e, c)[k].contains_key(e),
        inserted(tables, k, e, c)[k][e] == c,
        forall|x: Entity|
            x != e ==> (#[trigger] inserted(tables, k, e, c)[k].contains_key(x)
                <==> table_of(tables, k).contains_key(x)),
        forall|x: Entity|
            x != e && table_of(tables, k).contains_key(x) ==> #[trigger] inserted(tables, k, e, c)[k][x]
                == table_of(tables, k)[x],
        forall|j: u64| j != k ==> #[trigger] table_of(inserted(tables, k, e, c), j) == table_of(tables, j),
{
}

/// Per-kind component tables, each behind its own dynamic borrow state.
pub struct Components<C> {
    storages: BorrowMap<ComponentSet<C>>,
}

impl<C: Component> Default for Components<C> {
    /// Same as `new`.
    fn default() -> (r: Self)
        ensures
            r.wf(),
            r.tables() == Map::<u64, Map<Entity, C>>::empty(),
            r.locks() == Map::<u64, BorrowState>::empty(),
    {
        Components::new()
    }
}

impl<C: Component> Components<C> {
    pub closed spec fn wf(&self) -> bool {
        &&& self.storages.wf()
        &&& forall|k: u64| #[trigger]
            self.storages.values().contains_key(k) ==> self.storages.values()[k].wf()
    }

    /// The table of each registered kind.
    pub closed spec fn tables(&self) -> Map<u64, Map<Entity, C>> {
        Map::new(
            |k: u64| self.storages.values().contains_key(k),
            |k: u64| self.storages.values()[k]@,
        )
    }

    /// The borrow state of each registered kind.
    pub closed spec fn locks(&self) -> Map<u64, BorrowState> {
        self.storages.locks()
    }

    /// The tables and their borrow states cover the same kinds, and every
    /// borrow state is consistent.
    pub proof fn lemma_kinds_match_dom(&self)
        requires
            self.wf(),
        ensures
            self.tables().dom() == self.locks().dom(),
            forall|k: u64| #[trigger] self.locks().contains_key(k) ==> self.locks()[k].wf(),
    {
        self.storages.lemma_views_pub();
        assert(self.tables().dom() =~= self.locks().dom());
    }

    /// Empty, with no kind registered.
    pub fn new() -> (r: Self)
        ensures
            r.wf(),
            r.tables() == Map::<u64, Map<Entity, C>>::empty(),
            r.locks() == Map::<u64, BorrowState>::empty(),
    {
        let r = Components { storages: BorrowMap::new() };
        assert(r.tables() =~= Map::<u64, Map<Entity, C>>::empty());
        r
    }

    /// Whether a table exists for kind `k`.
    pub fn is_registered(&self, k: u64) -> (r: bool)
        requires
            self.wf(),
        ensures
            r == self.tables().contains_key(k),
    {
        self.storages.contains(k)
    }

    /// The borrow state of kind `k`, if registered.
    pub fn lock(&self, k: u64) -> (r: Option<BorrowState>)
        requires
            self.wf(),
        ensures
            r == (if self.locks().contains_key(k) {
                Some(self.locks()[k])
            } else {
                None
            }),
    {
        self.storages.lock(k)
    }

    /// Creates the (empty, unborrowed) table of kind `k` unless it exists.
    pub fn register(&mut self, k: u64)
        requires
            old(self).wf(),
        ensures
            final(self).wf(),
            old(self).tables().contains_key(k) ==> final(self).tables() == old(self).tables()
                && final(self).locks() == old(self).locks(),
            !old(self).tables().contains_key(k) ==> final(self).tables() == old(self).tables().insert(
                k,
                Map::empty(),
            ) && final(self).locks() == old(self).locks().insert(k, BorrowState::free()),
    {
        proof {
            self.storages.lemma_views_pub();
        }
        if !self.storages.contains(k) {
            let ghost before = *self;
            self.storages.insert(k, ComponentSet::new());
            assert(self.tables() =~= before.tables().insert(k, Map::empty()));
        }
    }

    /// Whether no table is borrowed.
    pub open spec fn unborrowed(&self) -> bool {
        forall|k: u64| #[trigger] self.locks().contains_key(k) ==> self.locks()[k].is_free()
    }

    /// Gives `entity` the component `c` in the table of `c`'s kind, creating
    /// that table if needed and replacing any earlier value of that kind for
    /// `entity`. Returns the kind the value was filed under.
    pub fn insert(&mut self, entity: &Entity, c: C) -> (k: u64)
        requires
            old(self).wf(),
            old(self).unborrowed(),
        ensures
            final(self).wf(),
            final(self).unborrowed(),
            k == c.spec_kind(),
            final(self).tables() == inserted(old(self).tables(), k, *entity, c),
            old(self).tables().contains_key(k) ==> final(self).locks() == old(self).locks(),
            !old(self).tables().contains_key(k) ==> final(self).locks() == old(self).locks().insert(
                k,
                BorrowState::free(),
            ),
    {
        let k = c.kind();
        proof {
            self.storages.lemma_views_pub();
        }
        let ghost before = *self;
        if self.storages.contains(k) {
            let mut set = self.storages.replace(k, ComponentSet::new());
            set.insert(*entity, c);
            self.storages.replace(k, set);
            proof {
                assert(self.storages.locks() =~= before.storages.locks());
            }
        } else {
            let mut set = ComponentSet::new();
            set.insert(*entity, c);
            self.storages.insert(k, set);
        }
        proof {
            assert(self.tables() =~= inserted(before.tables(), k, *entity, c));
            assert forall|q: u64| #[trigger] self.locks().contains_key(q) implies self.locks()[q].is_free() by {
                if q != k {
                    assert(before.locks().contains_key(q));
                }
            }
        }
        k
    }

    /// Takes a shared borrow of the table of kind `k`.
    pub fn get(&mut self, k: u64) -> (r: Result<ReadSet, BorrowError>)
        requires
            old(self).wf(),
        ensures
            final(self).wf(),
            final(self).tables() == old(self).tables(),
            match r {
                Ok(g) => read_outcome(old(self).locks(), k) is Ok && g@ == k
                    && final(self).locks() == after_read(old(self).locks(), k),
                Err(e) => read_outcome(old(self).locks(), k) == Err::<(), BorrowError>(e)
                    && final(self).locks() == old(self).locks(),
            },
    {
        match self.storages.acquire_read(k) {
            Ok(()) => Ok(ReadSet { kind: k }),
            Err(e) => Err(e),
        }
    }

    /// Takes the exclusive borrow of the table of kind `k`.
    pub fn get_mut(&mut self, k: u64) -> (r: Result<WriteSet, BorrowError>)
        requires
            old(self).wf(),
        ensures
            final(self).wf(),
            final(self).tables() == old(self).tables(),
            match r {
                Ok(g) => write_outcome(old(self).locks(), k) is Ok && g@ == k
                    && final(self).locks() == after_write(old(self).locks(), k),
                Err(e) => write_outcome(old(self).locks(), k) == Err::<(), BorrowError>(e)
                    && final(self).locks() == old(self).locks(),
            },
    {
        match self.storages.acquire_write(k) {
            Ok(()) => Ok(WriteSet { kind: k }),
            Err(e) => Err(e),
        }
    }

    /// Gives back a shared borrow.
    pub fn release(&mut self, guard: ReadSet)
        requires
            old(self).wf(),
            old(self).locks().contains_key(guard@),
            old(self).locks()[guard@].readers > 0,
        ensures
            final(self).wf(),
            final(self).tables() == old(self).tables(),
            final(self).locks() == after_read_release(old(self).locks(), guard@),
    {
        self.storages.release_read(guard.kind);
    }

    /// Gives back the exclusive borrow.
    pub fn release_mut(&mut self, guard: WriteSet)
        requires
            old(self).wf(),
            old(self).locks().contains_key(guard@),
            old(self).locks()[guard@].writing,
        ensures
            final(self).wf(),
            final(self).tables() == old(self).tables(),
            final(self).locks() == old(self).locks().insert(guard@, BorrowState::free()),
    {
        self.storages.release_write(guard.kind);
    }

    /// The table of kind `k`, if registered.
    pub fn table(&self, k: u64) -> (r: Option<&ComponentSet<C>>)
        requires
            self.wf(),
        ensures
            match r {
                Some(set) => self.tables().contains_key(k) && set.wf() && set@ == self.tables()[k],
                None => !self.tables().contains_key(k),
            },
    {
        self.storages.get(k)
    }

    /// Sets `entity`'s value in the exclusively borrowed table; the value is
    /// filed under the guard's kind.
    pub fn write(&mut self, guard: &WriteSet, entity: &Entity, c: C)
        requires
            old(self).wf(),
            old(self).locks().contains_key(guard@),
            old(self).locks()[guard@].writing,
        ensures
            final(self).wf(),
            final(self).tables() == inserted(old(self).tables(), guard@, *entity, c),
            final(self).locks() == old(self).locks(),
    {
        let ghost before = *self;
        let k = guard.kind;
        proof {
            self.storages.lemma_views_pub();
        }
        let mut set = self.storages.replace(k, ComponentSet::new());
        set.insert(*entity, c);
        self.storages.replace(k, set);
        proof {
            assert(self.storages.locks() =~= before.storages.locks());
            assert(self.tables() =~= inserted(before.tables(), k, *entity, c));
        }
    }

    /// Removes `entity`'s value from the exclusively borrowed table.
    pub fn remove(&mut self, guard: &WriteSet, entity: &Entity) -> (r: Option<C>)
        requires
            old(self).wf(),
            old(self).locks().contains_key(guard@),
            old(self).locks()[guard@].writing,
        ensures
            final(self).wf(),
            final(self).tables() == old(self).tables().insert(guard@, old(self).tables()[guard@].remove(*entity)),
            final(self).locks() == old(self).locks(),
            r == (if old(self).tables()[guard@].contains_key(*entity) {
                Some(old(self).tables()[guard@][*entity])
            } else {
                None
            }),
    {
        let ghost before = *self;
        let k = guard.kind;
        proof {
            self.storages.lemma_views_pub();
        }
        let mut set = self.storages.replace(k, ComponentSet::new());
        let r = set.remove(entity);
        self.storages.replace(k, set);
        proof {
            assert(self.storages.locks() =~= before.storages.locks());
            assert(self.tables() =~= before.tables().insert(k, before.tables()[k].remove(*entity)));
        }
        r
    }

    /// Removes `entity` from every table.
    pub fn remove_entity(&mut self, entity: &Entity)
        requires
            old(self).wf(),
            forall|k: u64| #[trigger] old(self).locks().contains_key(k) ==> old(self).locks()[k].is_free(),
        ensures
            final(self).wf(),
            final(self).tables() == without_entity(old(self).tables(), *entity),
            final(self).locks() == old(self).locks(),
    {
        let kinds = self.storages.kinds();
        let ghost before = *self;
        let mut i: usize = 0;
        while i < kinds.len()
            invariant
                self.wf(),
                i <= kinds@.len(),
                kinds@.no_duplicates(),
                forall|k: u64| before.storages.values().contains_key(k) <==> kinds@.contains(k),
                forall|k: u64| #[trigger] self.storages.values().contains_key(k) <==> kinds@.contains(k),
                self.storages.locks() == before.storages.locks(),
                self.tables().dom() == before.tables().dom(),
                forall|j: int| 0 <= j < i ==> #[trigger] self.tables()[kinds@[j]] == before.tables()[kinds@[j]].remove(*entity),
                forall|j: int| i <= j < kinds@.len() ==> #[trigger] self.tables()[kinds@[j]] == before.tables()[kinds@[j]],
            decreases kinds@.len() - i,
        {
            let k = kinds[i];
            let ghost mid = *self;
            proof {
                assert(kinds@.contains(k));
                assert(self.storages.values().contains_key(k));
            }
            let mut set = self.storages.replace(k, ComponentSet::new());
            set.remove(entity);
            self.storages.replace(k, set);
            proof {
                assert(self.tables() =~= mid.tables().insert(k, mid.tables()[k].remove(*entity)));
                assert(self.storages.locks() =~= mid.storages.locks());
                assert forall|j: int| 0 <= j < i + 1 implies #[trigger] self.tables()[kinds@[j]] == before.tables()[kinds@[j]].remove(*entity) by {
                    if j < i {
                        assert(kinds@[j] != kinds@[i as int]);
                    }
                }
                assert forall|j: int| i + 1 <= j < kinds@.len() implies #[trigger] self.tables()[kinds@[j]] == before.tables()[kinds@[j]] by {
                    assert(kinds@[j] != kinds@[i as int]);
                }
            }
            i += 1;
        }
        proof {
            assert(self.tables() =~= without_entity(before.tables(), *entity)) by {
                assert forall|k: u64| self.tables().contains_key(k) implies self.tables()[k] == without_entity(before.tables(), *entity)[k] by {
                    assert(kinds@.contains(k));
                    let j = choose|j: int| 0 <= j < kinds@.len() && kinds@[j] == k;
                    assert(self.tables()[kinds@[j]] == before.tables()[kinds@[j]].remove(*entity));
                }
            }
        }
    }
}

} // verus!
