use vstd::prelude::*;
use crate::borrow::{
    after_read, after_read_release, after_write, read_outcome, write_outcome, BorrowError,
    BorrowMap, BorrowState,
};
use crate::component::{
    inserted, without_entity, Component, ComponentSet, Components, ReadSet, WriteSet,
};
use crate::entity::{Entities, Entity};

verus! {

/// A singleton value, at most one per kind. As with components, the host
/// usually implements it on an enum with one variant per resource type.
pub trait Resource {
    /// The slot this value occupies, one per resource type.
    spec fn spec_kind(&self) -> u64;

    /// Computes `spec_kind`.
    fn kind(&self) -> (r: u64)
        ensures
            r == self.spec_kind(),
    ;
}

/// A granted shared borrow of one resource.
#[derive(Debug)]
pub struct ReadResource {
    kind: u64,
}

/// A granted exclusive borrow of one resource.
#[derive(Debug)]
pub struct WriteResource {
    kind: u64,
}

impl View for ReadResource {
    type V = u64;

    closed spec fn view(&self) -> u64 {
        self.kind
    }
}

impl View for WriteResource {
    type V = u64;

    closed spec fn view(&self) -> u64 {
        self.kind
    }
}

/// The store: entity allocator, component tables and resources.
pub struct World<C, R> {
    entities: Entities,
    components: Components<C>,
    resources: BorrowMap<R>,
}

impl<C: Component, R: Resource> Default for World<C, R> {
    /// Same as `new`.
    fn default() -> (r: Self)
        ensures
            r.wf(),
            r.next_entity() == 0,
            r.tables() == Map::<u64, Map<Entity, C>>::empty(),
            r.component_locks() == Map::<u64, BorrowState>::empty(),
            r.resources() == Map::<u64, R>::empty(),
            r.resource_locks() == Map::<u64, BorrowState>::empty(),
    {
        World::new()
    }
}

impl<C: Component, R: Resource> World<C, R> {
    pub closed spec fn wf(&self) -> bool {
        &&& self.components.wf()
        &&& self.resources.wf()
    }

    /// The identifier the next built entity receives.
    pub closed spec fn next_entity(&self) -> u32 {
        self.entities@
    }

    /// The component table of each registered kind.
    pub closed spec fn tables(&self) -> Map<u64, Map<Entity, C>> {
        self.components.tables()
    }

    /// The borrow state of each component kind.
    pub closed spec fn component_locks(&self) -> Map<u64, BorrowState> {
        self.components.locks()
    }

    /// The resource held under each kind.
    pub closed spec fn resources(&self) -> Map<u64, R> {
        self.resources.values()
    }

    /// The borrow state of each resource kind.
    pub closed spec fn resource_locks(&self) -> Map<u64, BorrowState> {
        self.resources.locks()
    }

    /// No component table is borrowed.
    pub open spec fn components_unborrowed(&self) -> bool {
        forall|k: u64| #[trigger]
            self.component_locks().contains_key(k) ==> self.component_locks()[k].is_free()
    }

    /// No resource is borrowed.
    pub open spec fn resources_unborrowed(&self) -> bool {
        forall|k: u64| #[trigger]
            self.resource_locks().contains_key(k) ==> self.resource_locks()[k].is_free()
    }

    /// Component tables and their borrow states cover the same kinds, and
    /// every borrow state is consistent.
    pub proof fn lemma_locks_dom(&self)
        requires
            self.wf(),
        ensures
            self.tables().dom() == self.component_locks().dom(),
            forall|k: u64| #[trigger] self.component_locks().contains_key(k) ==> self.component_locks()[k].wf(),
            forall|k: u64| #[trigger] self.resource_locks().contains_key(k) ==> self.resource_locks()[k].wf(),
    {
        self.components.lemma_kinds_match_dom();
        self.resources.lemma_views_pub();
    }

    /// An empty store.
    pub fn new() -> (r: Self)
        ensures
            r.wf(),
            r.next_entity() == 0,
            r.tables() == Map::<u64, Map<Entity, C>>::empty(),
            r.component_locks() == Map::<u64, BorrowState>::empty(),
            r.resources() == Map::<u64, R>::empty(),
            r.resource_locks() == Map::<u64, BorrowState>::empty(),
    {
        World { entities: Entities::new(), components: Components::new(), resources: BorrowMap::new() }
    }

    /// Allocates a fresh entity and opens a builder for it.
    pub fn build_entity(&mut self) -> (r: EntityBuilder)
        requires
            old(self).wf(),
            old(self).next_entity() < u32::MAX,
        ensures
            final(self).wf(),
            r@@ == old(self).next_entity(),
            final(self).next_entity() == old(self).next_entity() + 1,
            final(self).tables() == old(self).tables(),
            final(self).component_locks() == old(self).component_locks(),
            final(self).resources() == old(self).resources(),
            final(self).resource_locks() == old(self).resource_locks(),
    {
        let e = self.entities.create_entity();
        EntityBuilder::new(e)
    }

    /// Removes `entity`'s value from every component table.
    pub fn remove_entity(&mut self, entity: &Entity)
        requires
            old(self).wf(),
            old(self).components_unborrowed(),
        ensures
            final(self).wf(),
            final(self).tables() == without_entity(old(self).tables(), *entity),
            final(self).component_locks() == old(self).component_locks(),
            final(self).next_entity() == old(self).next_entity(),
            final(self).resources() == old(self).resources(),
            final(self).resource_locks() == old(self).resource_locks(),
    {
        assert forall|k: u64| #[trigger] self.components.locks().contains_key(k) implies self.components.locks()[k].is_free() by {
            assert(self.component_locks().contains_key(k));
        }
        self.components.remove_entity(entity);
    }

    /// The entity allocator, for reading.
    pub fn get_entities(&self) -> (r: &Entities)
        ensures
            r@ == self.next_entity(),
    {
        &self.entities
    }

    /// Whether a table exists for component kind `k`.
    pub fn is_registered(&self, k: u64) -> (r: bool)
        requires
            self.wf(),
        ensures
            r == self.tables().contains_key(k),
    {
        self.components.is_registered(k)
    }

    /// The borrow state of component kind `k`, if registered.
    pub fn component_lock(&self, k: u64) -> (r: Option<BorrowState>)
        requires
            self.wf(),
        ensures
            r == (if self.component_locks().contains_key(k) {
                Some(self.component_locks()[k])
            } else {
                None
            }),
    {
        self.components.lock(k)
    }

    /// The borrow state of resource kind `k`, if one is held.
    pub fn resource_lock(&self, k: u64) -> (r: Option<BorrowState>)
        requires
            self.wf(),
        ensures
            r == (if self.resource_locks().contains_key(k) {
                Some(self.resource_locks()[k])
            } else {
                None
            }),
    {
        self.resources.lock(k)
    }

    /// Takes a shared borrow of component kind `k`.
    pub fn get_components(&mut self, k: u64) -> (r: Result<ReadSet, BorrowError>)
        requires
            old(self).wf(),
        ensures
            final(self).wf(),
            final(self).tables() == old(self).tables(),
            final(self).next_entity() == old(self).next_entity(),
            final(self).resources() == old(self).resources(),
            final(self).resource_locks() == old(self).resource_locks(),
            match r {
                Ok(g) => read_outcome(old(self).component_locks(), k) is Ok && g@ == k
                    && final(self).component_locks() == after_read(old(self).component_locks(), k),
                Err(e) => read_outcome(old(self).component_locks(), k) == Err::<(), BorrowError>(e)
                    && final(self).component_locks() == old(self).component_locks(),
            },
    {
        self.components.get(k)
    }

    /// Takes the exclusive borrow of component kind `k`.
    pub fn get_components_mut(&mut self, k: u64) -> (r: Result<WriteSet, BorrowError>)
        requires
            old(self).wf(),
        ensures
            final(self).wf(),
            final(self).tables() == old(self).tables(),
            final(self).next_entity() == old(self).next_entity(),
            final(self).resources() == old(self).resources(),
            final(self).resource_locks() == old(self).resource_locks(),
            match r {
                Ok(g) => write_outcome(old(self).component_locks(), k) is Ok && g@ == k
                    && final(self).component_locks() == after_write(old(self).component_locks(), k),
                Err(e) => write_outcome(old(self).component_locks(), k) == Err::<(), BorrowError>(e)
                    && final(self).component_locks() == old(self).component_locks(),
            },
    {
        self.components.get_mut(k)
    }

    /// Gives back a shared borrow of a component table.
    pub fn release_components(&mut self, guard: ReadSet)
        requires
            old(self).wf(),
            old(self).component_locks().contains_key(guard@),
            old(self).component_locks()[guard@].readers > 0,
        ensures
            final(self).wf(),
            final(self).tables() == old(self).tables(),
            final(self).component_locks() == after_read_release(old(self).component_locks(), guard@),
            final(self).next_entity() == old(self).next_entity(),
            final(self).resources() == old(self).resources(),
            final(self).resource_locks() == old(self).resource_locks(),
    {
        self.components.release(guard);
    }

    /// Gives back the exclusive borrow of a component table.
    pub fn release_components_mut(&mut self, guard: WriteSet)
        requires
            old(self).wf(),
            old(self).component_locks().contains_key(guard@),
            old(self).component_locks()[guard@].writing,
        ensures
            final(self).wf(),
            final(self).tables() == old(self).tables(),
            final(self).component_locks() == old(self).component_locks().insert(guard@, BorrowState::free()),
            final(self).next_entity() == old(self).next_entity(),
            final(self).resources() == old(self).resources(),
            final(self).resource_locks() == old(self).resource_locks(),
    {
        self.components.release_mut(guard);
    }

    /// The table behind a shared borrow.
    pub fn components(&self, guard: &ReadSet) -> (r: &ComponentSet<C>)
        requires
            self.wf(),
            self.component_locks().contains_key(guard@),
            self.component_locks()[guard@].readers > 0,
        ensures
            r.wf(),
            r@ == self.tables()[guard@],
    {
        proof {
            self.components.lemma_kinds_match_dom();
        }
        self.components.table(guard.kind()).unwrap()
    }

    /// The table behind an exclusive borrow, for reading.
    pub fn components_for_write(&self, guard: &WriteSet) -> (r: &ComponentSet<C>)
        requires
            self.wf(),
            self.component_locks().contains_key(guard@),
            self.component_locks()[guard@].writing,
        ensures
            r.wf(),
            r@ == self.tables()[guard@],
    {
        proof {
            self.components.lemma_kinds_match_dom();
        }
        self.components.table(guard.kind()).unwrap()
    }

    /// Sets `entity`'s value in an exclusively borrowed table.
    pub fn write_component(&mut self, guard: &WriteSet, entity: &Entity, c: C)
        requires
            old(self).wf(),
            old(self).component_locks().contains_key(guard@),
            old(self).component_locks()[guard@].writing,
        ensures
            final(self).wf(),
            final(self).tables() == inserted(old(self).tables(), guard@, *entity, c),
            final(self).component_locks() == old(self).component_locks(),
            final(self).next_entity() == old(self).next_entity(),
            final(self).resources() == old(self).resources(),
            final(self).resource_locks() == old(self).resource_locks(),
    {
        self.components.write(guard, entity, c);
    }

    /// Removes `entity`'s value from an exclusively borrowed table.
    pub fn remove_component(&mut self, guard: &WriteSet, entity: &Entity) -> (r: Option<C>)
        requires
            old(self).wf(),
            old(self).component_locks().contains_key(guard@),
            old(self).component_locks()[guard@].writing,
        ensures
            final(self).wf(),
            final(self).tables() == old(self).tables().insert(guard@, old(self).tables()[guard@].remove(*entity)),
            final(self).component_locks() == old(self).component_locks(),
            final(self).next_entity() == old(self).next_entity(),
            final(self).resources() == old(self).resources(),
            final(self).resource_locks() == old(self).resource_locks(),
            r == (if old(self).tables()[guard@].contains_key(*entity) {
                Some(old(self).tables()[guard@][*entity])
            } else {
                None
            }),
    {
        self.components.remove(guard, entity)
    }

    /// Gives `entity` the component `c`, creating the table of `c`'s kind if
    /// needed and replacing any earlier value of that kind. Returns the kind
    /// the value was filed under.
    pub fn insert_component(&mut self, entity: &Entity, c: C) -> (k: u64)
        requires
            old(self).wf(),
            old(self).components_unborrowed(),
        ensures
            final(self).wf(),
            final(self).components_unborrowed(),
            k == c.spec_kind(),
            final(self).tables() == inserted(old(self).tables(), k, *entity, c),
            old(self).tables().contains_key(k) ==> final(self).component_locks() == old(self).component_locks(),
            !old(self).tables().contains_key(k) ==> final(self).component_locks()
                == old(self).component_locks().insert(k, BorrowState::free()),
            final(self).next_entity() == old(self).next_entity(),
            final(self).resources() == old(self).resources(),
            final(self).resource_locks() == old(self).resource_locks(),
    {
        proof {
            assert forall|k: u64| #[trigger] self.components.locks().contains_key(k) implies self.components.locks()[k].is_free() by {
                assert(self.component_locks().contains_key(k));
            }
        }
        let k = self.components.insert(entity, c);
        proof {
            assert forall|q: u64| #[trigger] self.component_locks().contains_key(q) implies self.component_locks()[q].is_free() by {
                assert(self.components.locks().contains_key(q));
            }
        }
        k
    }

    /// Creates the empty table of component kind `k` unless it exists.
    pub fn register_component(&mut self, k: u64)
        requires
            old(self).wf(),
        ensures
            final(self).wf(),
            final(self).tables().contains_key(k),
            old(self).tables().contains_key(k) ==> final(self).tables() == old(self).tables()
                && final(self).component_locks() == old(self).component_locks(),
            !old(self).tables().contains_key(k) ==> final(self).tables() == old(self).tables().insert(
                k,
                Map::empty(),
            ) && final(self).component_locks() == old(self).component_locks().insert(k, BorrowState::free()),
            final(self).next_entity() == old(self).next_entity(),
            final(self).resources() == old(self).resources(),
            final(self).resource_locks() == old(self).resource_locks(),
    {
        self.components.register(k);
    }

    /// Takes a shared borrow of resource kind `k`.
    pub fn get_resource(&mut self, k: u64) -> (r: Result<ReadResource, BorrowError>)
        requires
            old(self).wf(),
        ensures
            final(self).wf(),
            final(self).resources() == old(self).resources(),
            final(self).tables() == old(self).tables(),
            final(self).component_locks() == old(self).component_locks(),
            final(self).next_entity() == old(self).next_entity(),
            match r {
                Ok(g) => read_outcome(old(self).resource_locks(), k) is Ok && g@ == k
                    && final(self).resource_locks() == after_read(old(self).resource_locks(), k),
                Err(e) => read_outcome(old(self).resource_locks(), k) == Err::<(), BorrowError>(e)
                    && final(self).resource_locks() == old(self).resource_locks(),
            },
    {
        match self.resources.acquire_read(k) {
            Ok(()) => Ok(ReadResource { kind: k }),
            Err(e) => Err(e),
        }
    }

    /// Takes the exclusive borrow of resource kind `k`.
    pub fn get_resource_mut(&mut self, k: u64) -> (r: Result<WriteResource, BorrowError>)
        requires
            old(self).wf(),
        ensures
            final(self).wf(),
            final(self).resources() == old(self).resources(),
            final(self).tables() == old(self).tables(),
            final(self).component_locks() == old(self).component_locks(),
            final(self).next_entity() == old(self).next_entity(),
            match r {
                Ok(g) => write_outcome(old(self).resource_locks(), k) is Ok && g@ == k
                    && final(self).resource_locks() == after_write(old(self).resource_locks(), k),
                Err(e) => write_outcome(old(self).resource_locks(), k) == Err::<(), BorrowError>(e)
                    && final(self).resource_locks() == old(self).resource_locks(),
            },
    {
        match self.resources.acquire_write(k) {
            Ok(()) => Ok(WriteResource { kind: k }),
            Err(e) => Err(e),
        }
    }

    /// Gives back a shared borrow of a resource.
    pub fn release_resource(&mut self, guard: ReadResource)
        requires
            old(self).wf(),
            old(self).resource_locks().contains_key(guard@),
            old(self).resource_locks()[guard@].readers > 0,
        ensures
            final(self).wf(),
            final(self).resources() == old(self).resources(),
            final(self).resource_locks() == after_read_release(old(self).resource_locks(), guard@),
            final(self).tables() == old(self).tables(),
            final(self).component_locks() == old(self).component_locks(),
            final(self).next_entity() == old(self).next_entity(),
    {
        self.resources.release_read(guard.kind);
    }

    /// Gives back the exclusive borrow of a resource.
    pub fn release_resource_mut(&mut self, guard: WriteResource)
        requires
            old(self).wf(),
            old(self).resource_locks().contains_key(guard@),
            old(self).resource_locks()[guard@].writing,
        ensures
            final(self).wf(),
            final(self).resources() == old(self).resources(),
            final(self).resource_locks() == old(self).resource_locks().insert(guard@, BorrowState::free()),
            final(self).tables() == old(self).tables(),
            final(self).component_locks() == old(self).component_locks(),
            final(self).next_entity() == old(self).next_entity(),
    {
        self.resources.release_write(guard.kind);
    }

    /// The resource behind a shared borrow.
    pub fn resource(&self, guard: &ReadResource) -> (r: &R)
        requires
            self.wf(),
            self.resource_locks().contains_key(guard@),
            self.resource_locks()[guard@].readers > 0,
        ensures
            *r == self.resources()[guard@],
    {
        proof {
            self.resources.lemma_views_pub();
        }
        self.resources.get(guard.kind).unwrap()
    }

    /// The resource behind an exclusive borrow, for reading.
    pub fn resource_for_write(&self, guard: &WriteResource) -> (r: &R)
        requires
            self.wf(),
            self.resource_locks().contains_key(guard@),
            self.resource_locks()[guard@].writing,
        ensures
            *r == self.resources()[guard@],
    {
        proof {
            self.resources.lemma_views_pub();
        }
        self.resources.get(guard.kind).unwrap()
    }

    /// Replaces the exclusively borrowed resource with `value` and hands back
    /// the previous one.
    pub fn write_resource(&mut self, guard: &WriteResource, value: R) -> (r: R)
        requires
            old(self).wf(),
            old(self).resource_locks().contains_key(guard@),
            old(self).resource_locks()[guard@].writing,
        ensures
            final(self).wf(),
            r == old(self).resources()[guard@],
            final(self).resources() == old(self).resources().insert(guard@, value),
            final(self).resource_locks() == old(self).resource_locks(),
            final(self).tables() == old(self).tables(),
            final(self).component_locks() == old(self).component_locks(),
            final(self).next_entity() == old(self).next_entity(),
    {
        proof {
            self.resources.lemma_views_pub();
        }
        self.resources.replace(guard.kind, value)
    }

    /// Stores `value` as the resource of its kind, replacing any earlier one
    /// wholesale. Returns that kind.
    pub fn insert_resource(&mut self, value: R) -> (k: u64)
        requires
            old(self).wf(),
            old(self).resources_unborrowed(),
        ensures
            final(self).wf(),
            final(self).resources_unborrowed(),
            k == value.spec_kind(),
            final(self).resources() == old(self).resources().insert(k, value),
            final(self).resource_locks() == old(self).resource_locks().insert(k, BorrowState::free()),
            final(self).tables() == old(self).tables(),
            final(self).component_locks() == old(self).component_locks(),
            final(self).next_entity() == old(self).next_entity(),
    {
        let k = value.kind();
        proof {
            assert(self.resource_locks().contains_key(k) ==> self.resource_locks()[k].is_free());
        }
        self.resources.insert(k, value);
        proof {
            assert forall|q: u64| #[trigger] self.resource_locks().contains_key(q) implies self.resource_locks()[q].is_free() by {
                if q != k {
                    assert(old(self).resource_locks().contains_key(q));
                }
            }
        }
        k
    }
}

/// Stages a freshly allocated entity. Each `with` inserts into the store at
/// once; `build` commits, and `discard` removes everything staged. Cleanup is
/// explicit: a builder that is dropped without `build` or `discard` leaves its
/// components in the store, so every builder must end in one of the two.
#[derive(Debug)]
#[must_use]
pub struct EntityBuilder {
    entity: Entity,
}

impl View for EntityBuilder {
    /// The staged entity.
    type V = Entity;

    closed spec fn view(&self) -> Entity {
        self.entity
    }
}

impl EntityBuilder {
    /// A builder for `entity`.
    pub fn new(entity: Entity) -> (r: Self)
        ensures
            r@ == entity,
    {
        EntityBuilder { entity }
    }

    /// Inserts `c` for the staged entity, in the table of `c`'s kind.
    pub fn with<C: Component, R: Resource>(self, world: &mut World<C, R>, c: C) -> (r: Self)
        requires
            old(world).wf(),
            old(world).components_unborrowed(),
        ensures
            r@ == self@,
            final(world).wf(),
            final(world).components_unborrowed(),
            final(world).tables() == inserted(old(world).tables(), c.spec_kind(), self@, c),
            final(world).next_entity() == old(world).next_entity(),
            final(world).resources() == old(world).resources(),
            final(world).resource_locks() == old(world).resource_locks(),
    {
        world.insert_component(&self.entity, c);
        self
    }

    /// The staged entity.
    pub fn entity(&self) -> (r: Entity)
        ensures
            r == self@,
    {
        self.entity
    }

    /// Commits the staged entity and returns it.
    pub fn build(self) -> (r: Entity)
        ensures
            r == self@,
    {
        self.entity
    }

    /// Abandons the staged entity: every component inserted for it is removed.
    pub fn discard<C: Component, R: Resource>(self, world: &mut World<C, R>)
        requires
            old(world).wf(),
            old(world).components_unborrowed(),
        ensures
            final(world).wf(),
            final(world).tables() == without_entity(old(world).tables(), self@),
            final(world).component_locks() == old(world).component_locks(),
            final(world).next_entity() == old(world).next_entity(),
            final(world).resources() == old(world).resources(),
            final(world).resource_locks() == old(world).resource_locks(),
    {
        world.remove_entity(&self.entity);
    }
}

/// The tables after staging each of `cs`, in order, for `e`; each element is
/// a kind and the value filed under it.
pub open spec fn inserted_all<C>(
    tables: Map<u64, Map<Entity, C>>,
    e: Entity,
    cs: Seq<(u64, C)>,
) -> Map<u64, Map<Entity, C>>
    decreases cs.len(),
{
    if cs.len() == 0 {
        tables
    } else {
        inserted(inserted_all(tables, e, cs.drop_last()), cs.last().0, e, cs.last().1)
    }
}

/// A builder that stages any components for an entity with no components and
/// is then discarded leaves no component of that entity in any table; every
/// table that existed before is exactly as it was, and every table the builder
/// created is empty.
pub proof fn lemma_discard_leaves_no_residue<C>(
    tables: Map<u64, Map<Entity, C>>,
    e: Entity,
    cs: Seq<(u64, C)>,
)
    requires
        forall|k: u64| #[trigger] tables.contains_key(k) ==> !tables[k].contains_key(e),
    ensures
        forall|k: u64| #[trigger]
            without_entity(inserted_all(tables, e, cs), e).contains_key(k) ==> !without_entity(
                inserted_all(tables, e, cs),
                e,
            )[k].contains_key(e),
        forall|k: u64| #[trigger]
            tables.contains_key(k) ==> without_entity(inserted_all(tables, e, cs), e)[k] == tables[k],
        forall|k: u64| #[trigger]
            without_entity(inserted_all(tables, e, cs), e).contains_key(k) && !tables.contains_key(k)
                ==> without_entity(inserted_all(tables, e, cs), e)[k] == Map::<Entity, C>::empty(),
{
    lemma_staged_only_e(tables, e, cs);
}

proof fn lemma_staged_only_e<C>(tables: Map<u64, Map<Entity, C>>, e: Entity, cs: Seq<(u64, C)>)
    requires
        forall|k: u64| #[trigger] tables.contains_key(k) ==> !tables[k].contains_key(e),
    ensures
        forall|k: u64| #[trigger] tables.contains_key(k) ==> inserted_all(tables, e, cs).contains_key(k)
            && inserted_all(tables, e, cs)[k].remove(e) == tables[k],
        forall|k: u64| #[trigger]
            inserted_all(tables, e, cs).contains_key(k) && !tables.contains_key(k) ==> inserted_all(
                tables,
                e,
                cs,
            )[k].remove(e) == Map::<Entity, C>::empty(),
    decreases cs.len(),
{
    if cs.len() > 0 {
        lemma_staged_only_e(tables, e, cs.drop_last());
        let prev = inserted_all(tables, e, cs.drop_last());
        let (kc, c) = cs.last();
        let cur = inserted_all(tables, e, cs);
        assert(cur == inserted(prev, kc, e, c));
        assert forall|k: u64| #[trigger] tables.contains_key(k) implies cur.contains_key(k)
            && cur[k].remove(e) == tables[k] by {
            assert(tables[k].remove(e) =~= tables[k]);
            if k == kc {
                assert(cur[k].remove(e) =~= prev[k].remove(e));
            }
        }
        assert forall|k: u64| #[trigger] cur.contains_key(k) && !tables.contains_key(k) implies cur[k].remove(e)
            == Map::<Entity, C>::empty() by {
            if k == kc {
                if prev.contains_key(k) {
                    assert(cur[k].remove(e) =~= prev[k].remove(e));
                } else {
                    assert(cur[k].remove(e) =~= Map::<Entity, C>::empty());
                }
            }
        }
    } else {
        assert forall|k: u64| #[trigger] tables.contains_key(k) implies inserted_all(tables, e, cs).contains_key(k)
            && inserted_all(tables, e, cs)[k].remove(e) == tables[k] by {
            assert(tables[k].remove(e) =~= tables[k]);
        }
    }
}

} // verus!
