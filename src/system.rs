use vstd::prelude::*;
use crate::borrow::{
    after_read, after_read_release, after_write, read_outcome, write_outcome, BorrowError,
    BorrowState,
};
use crate::component::{Component, ReadSet, WriteSet};
use crate::world::{ReadResource, Resource, World, WriteResource};

verus! {

/// One element of a system's declared data: what it reads or writes each tick.
#[derive(Clone, Copy, Debug, PartialEq, Eq, Structural)]
pub enum Access {
    /// Read-only view of the entity allocator; takes no borrow.
    Entities,
    /// Shared borrow of a component table.
    ReadSet(u64),
    /// Exclusive borrow of a component table.
    WriteSet(u64),
    /// Shared borrow of a resource.
    ReadResource(u64),
    /// Exclusive borrow of a resource.
    WriteResource(u64),
}

/// A system's declared data shape: the accesses it resolves, in order.
pub type Data = Vec<Access>;

/// The guard a fetched `Access` resolves to.
#[derive(Debug)]
pub enum Fetched {
    Entities,
    ReadSet(ReadSet),
    WriteSet(WriteSet),
    ReadResource(ReadResource),
    WriteResource(WriteResource),
}

/// Why a fetch failed: the position of the first element that could not be
/// borrowed, and the reason.
#[derive(Clone, Copy, Debug, PartialEq, Eq, Structural)]
pub struct FetchError {
    pub index: usize,
    pub error: BorrowError,
}

/// The component and resource borrow states, in that order.
pub type Locks = (Map<u64, BorrowState>, Map<u64, BorrowState>);

/// The access a guard stands for.
pub open spec fn access_of(f: Fetched) -> Access {
    match f {
        Fetched::Entities => Access::Entities,
        Fetched::ReadSet(g) => Access::ReadSet(g@),
        Fetched::WriteSet(g) => Access::WriteSet(g@),
        Fetched::ReadResource(g) => Access::ReadResource(g@),
        Fetched::WriteResource(g) => Access::WriteResource(g@),
    }
}

/// The accesses a list of guards stands for.
pub open spec fn accesses(gs: Seq<Fetched>) -> Seq<Access> {
    gs.map_values(|f: Fetched| access_of(f))
}

/// Taking the borrow that `a` asks for.
pub open spec fn acquire_step(l: Locks, a: Access) -> Result<Locks, BorrowError> {
    match a {
        Access::Entities => Ok(l),
        Access::ReadSet(k) => match read_outcome(l.0, k) {
            Ok(_) => Ok((after_read(l.0, k), l.1)),
            Err(e) => Err(e),
        },
        Access::WriteSet(k) => match write_outcome(l.0, k) {
            Ok(_) => Ok((after_write(l.0, k), l.1)),
            Err(e) => Err(e),
        },
        Access::ReadResource(k) => match read_outcome(l.1, k) {
            Ok(_) => Ok((l.0, after_read(l.1, k))),
            Err(e) => Err(e),
        },
        Access::WriteResource(k) => match write_outcome(l.1, k) {
            Ok(_) => Ok((l.0, after_write(l.1, k))),
            Err(e) => Err(e),
        },
    }
}

/// Taking the borrows of `data` in declared order: the resulting borrow
/// states, or the position and reason of the first refusal.
pub open spec fn fetch_outcome(l: Locks, data: Seq<Access>) -> Result<Locks, (nat, BorrowError)>
    decreases data.len(),
{
    if data.len() == 0 {
        Ok(l)
    } else {
        match fetch_outcome(l, data.drop_last()) {
            Err(e) => Err(e),
            Ok(l1) => match acquire_step(l1, data.last()) {
                Ok(l2) => Ok(l2),
                Err(e) => Err(((data.len() - 1) as nat, e)),
            },
        }
    }
}

/// Giving back the borrow that `a` stands for, if it is outstanding.
pub open spec fn release_step(l: Locks, a: Access) -> Option<Locks> {
    match a {
        Access::Entities => Some(l),
        Access::ReadSet(k) => if l.0.contains_key(k) && l.0[k].readers > 0 {
            Some((after_read_release(l.0, k), l.1))
        } else {
            None
        },
        Access::WriteSet(k) => if l.0.contains_key(k) && l.0[k].writing {
            Some((l.0.insert(k, BorrowState::free()), l.1))
        } else {
            None
        },
        Access::ReadResource(k) => if l.1.contains_key(k) && l.1[k].readers > 0 {
            Some((l.0, after_read_release(l.1, k)))
        } else {
            None
        },
        Access::WriteResource(k) => if l.1.contains_key(k) && l.1[k].writing {
            Some((l.0, l.1.insert(k, BorrowState::free())))
        } else {
            None
        },
    }
}

/// Giving back the borrows of `data`, last first; `None` if one of them is
/// not outstanding.
pub open spec fn release_outcome(l: Locks, data: Seq<Access>) -> Option<Locks>
    decreases data.len(),
{
    if data.len() == 0 {
        Some(l)
    } else {
        match release_step(l, data.last()) {
            None => None,
            Some(l1) => release_outcome(l1, data.drop_last()),
        }
    }
}

/// The component kinds that `data` borrows.
pub open spec fn component_kinds(data: Seq<Access>) -> Set<u64> {
    Set::new(|k: u64| data.contains(Access::ReadSet(k)) || data.contains(Access::WriteSet(k)))
}

/// Once a refusal happens, taking further borrows does not change the outcome.
proof fn lemma_fetch_error_sticks(l: Locks, data: Seq<Access>, i: int)
    requires
        0 <= i <= data.len(),
        fetch_outcome(l, data.take(i)) is Err,
    ensures
        fetch_outcome(l, data) == fetch_outcome(l, data.take(i)),
    decreases data.len() - i,
{
    if i < data.len() {
        assert(data.take(i + 1).drop_last() =~= data.take(i));
        assert(fetch_outcome(l, data.take(i + 1)) == fetch_outcome(l, data.take(i)));
        lemma_fetch_error_sticks(l, data, i + 1);
    } else {
        assert(data.take(i) =~= data);
    }
}

/// Giving back, last first, every borrow that a successful fetch took restores
/// the borrow states the fetch started from, so that later systems may borrow
/// the same kinds.
pub proof fn lemma_release_undoes_fetch(l: Locks, data: Seq<Access>)
    requires
        fetch_outcome(l, data) is Ok,
        forall|k: u64| #[trigger] l.0.contains_key(k) ==> l.0[k].wf(),
        forall|k: u64| #[trigger] l.1.contains_key(k) ==> l.1[k].wf(),
    ensures
        release_outcome(fetch_outcome(l, data)->Ok_0, data) == Some(l),
    decreases data.len(),
{
    if data.len() > 0 {
        let prev = data.drop_last();
        lemma_release_undoes_fetch(l, prev);
        let l1 = fetch_outcome(l, prev)->Ok_0;
        let l2 = fetch_outcome(l, data)->Ok_0;
        lemma_fetch_keeps_wf(l, prev);
        assert(release_step(l2, data.last()) == Some(l1)) by {
            match data.last() {
                Access::ReadSet(k) => {
                    assert(after_read_release(after_read(l1.0, k), k) =~= l1.0);
                },
                Access::WriteSet(k) => {
                    assert(after_write(l1.0, k).insert(k, BorrowState::free()) =~= l1.0);
                },
                Access::ReadResource(k) => {
                    assert(after_read_release(after_read(l1.1, k), k) =~= l1.1);
                },
                Access::WriteResource(k) => {
                    assert(after_write(l1.1, k).insert(k, BorrowState::free()) =~= l1.1);
                },
                Access::Entities => {},
            }
        }
    }
}

proof fn lemma_fetch_keeps_wf(l: Locks, data: Seq<Access>)
    requires
        fetch_outcome(l, data) is Ok,
        forall|k: u64| #[trigger] l.0.contains_key(k) ==> l.0[k].wf(),
        forall|k: u64| #[trigger] l.1.contains_key(k) ==> l.1[k].wf(),
    ensures
        forall|k: u64| #[trigger] fetch_outcome(l, data)->Ok_0.0.contains_key(k) ==> fetch_outcome(l, data)->Ok_0.0[k].wf(),
        forall|k: u64| #[trigger] fetch_outcome(l, data)->Ok_0.1.contains_key(k) ==> fetch_outcome(l, data)->Ok_0.1[k].wf(),
        fetch_outcome(l, data)->Ok_0.0.dom() == l.0.dom(),
        fetch_outcome(l, data)->Ok_0.1.dom() == l.1.dom(),
    decreases data.len(),
{
    if data.len() > 0 {
        lemma_fetch_keeps_wf(l, data.drop_last());
        let l1 = fetch_outcome(l, data.drop_last())->Ok_0;
        match data.last() {
            Access::ReadSet(k) => {
                assert(after_read(l1.0, k).dom() =~= l1.0.dom());
            },
            Access::WriteSet(k) => {
                assert(after_write(l1.0, k).dom() =~= l1.0.dom());
            },
            Access::ReadResource(k) => {
                assert(after_read(l1.1, k).dom() =~= l1.1.dom());
            },
            Access::WriteResource(k) => {
                assert(after_write(l1.1, k).dom() =~= l1.1.dom());
            },
            Access::Entities => {},
        }
    }
}

/// The borrow states of a world.
pub open spec fn locks_of<C: Component, R: Resource>(w: World<C, R>) -> Locks {
    (w.component_locks(), w.resource_locks())
}

/// Creates, once, the table of every component kind that `data` borrows.
pub fn setup<C: Component, R: Resource>(world: &mut World<C, R>, data: &Vec<Access>)
    requires
        old(world).wf(),
    ensures
        final(world).wf(),
        forall|k: u64| #[trigger] final(world).tables().contains_key(k) <==> (old(world).tables().contains_key(k)
            || component_kinds(data@).contains(k)),
        forall|k: u64| #[trigger] old(world).tables().contains_key(k) ==> final(world).tables()[k]
            == old(world).tables()[k] && final(world).component_locks()[k] == old(world).component_locks()[k],
        forall|k: u64| #[trigger] final(world).tables().contains_key(k) && !old(world).tables().contains_key(k)
            ==> final(world).tables()[k] == Map::<crate::entity::Entity, C>::empty()
            && final(world).component_locks()[k] == BorrowState::free(),
        final(world).next_entity() == old(world).next_entity(),
        final(world).resources() == old(world).resources(),
        final(world).resource_locks() == old(world).resource_locks(),
{
    let ghost before = *world;
    proof {
        world.lemma_locks_dom();
    }
    let mut i: usize = 0;
    while i < data.len()
        invariant
            world.wf(),
            i <= data@.len(),
            world.tables().dom() == world.component_locks().dom(),
            forall|k: u64| #[trigger] world.tables().contains_key(k) <==> (before.tables().contains_key(k)
                || component_kinds(data@.take(i as int)).contains(k)),
            forall|k: u64| #[trigger] before.tables().contains_key(k) ==> world.tables()[k]
                == before.tables()[k] && world.component_locks()[k] == before.component_locks()[k],
            forall|k: u64| #[trigger] world.tables().contains_key(k) && !before.tables().contains_key(k)
                ==> world.tables()[k] == Map::<crate::entity::Entity, C>::empty()
                && world.component_locks()[k] == BorrowState::free(),
            world.next_entity() == before.next_entity(),
            world.resources() == before.resources(),
            world.resource_locks() == before.resource_locks(),
        decreases data@.len() - i,
    {
        let a = data[i];
        let ghost mid = *world;
        match a {
            Access::ReadSet(k) => world.register_component(k),
            Access::WriteSet(k) => world.register_component(k),
            _ => {},
        }
        proof {
            world.lemma_locks_dom();
            let t = data@.take(i as int);
            let t1 = data@.take(i + 1);
            assert(t1 =~= t.push(a));
            assert forall|k: u64| component_kinds(t1).contains(k) <==> (component_kinds(t).contains(k)
                || a == Access::ReadSet(k) || a == Access::WriteSet(k)) by {
                if t1.contains(Access::ReadSet(k)) {
                    let j = choose|j: int| 0 <= j < t1.len() && t1[j] == Access::ReadSet(k);
                    if j < t.len() {
                        assert(t[j] == Access::ReadSet(k));
                    }
                }
                if t1.contains(Access::WriteSet(k)) {
                    let j = choose|j: int| 0 <= j < t1.len() && t1[j] == Access::WriteSet(k);
                    if j < t.len() {
                        assert(t[j] == Access::WriteSet(k));
                    }
                }
                if t.contains(Access::ReadSet(k)) {
                    let j = choose|j: int| 0 <= j < t.len() && t[j] == Access::ReadSet(k);
                    assert(t1[j] == Access::ReadSet(k));
                }
                if t.contains(Access::WriteSet(k)) {
                    let j = choose|j: int| 0 <= j < t.len() && t[j] == Access::WriteSet(k);
                    assert(t1[j] == Access::WriteSet(k));
                }
                if a == Access::ReadSet(k) || a == Access::WriteSet(k) {
                    assert(t1[i as int] == a);
                }
            }
        }
        i += 1;
    }
    proof {
        assert(data@.take(data@.len() as int) =~= data@);
    }
}

fn acquire<C: Component, R: Resource>(world: &mut World<C, R>, a: Access) -> (r: Result<Fetched, BorrowError>)
    requires
        old(world).wf(),
    ensures
        final(world).wf(),
        final(world).tables() == old(world).tables(),
        final(world).resources() == old(world).resources(),
        final(world).next_entity() == old(world).next_entity(),
        match r {
            Ok(g) => acquire_step(locks_of(*old(world)), a) == Ok::<Locks, BorrowError>(locks_of(*final(world)))
                && access_of(g) == a,
            Err(e) => acquire_step(locks_of(*old(world)), a) == Err::<Locks, BorrowError>(e)
                && locks_of(*final(world)) == locks_of(*old(world)),
        },
{
    match a {
        Access::Entities => Ok(Fetched::Entities),
        Access::ReadSet(k) => match world.get_components(k) {
            Ok(g) => Ok(Fetched::ReadSet(g)),
            Err(e) => Err(e),
        },
        Access::WriteSet(k) => match world.get_components_mut(k) {
            Ok(g) => Ok(Fetched::WriteSet(g)),
            Err(e) => Err(e),
        },
        Access::ReadResource(k) => match world.get_resource(k) {
            Ok(g) => Ok(Fetched::ReadResource(g)),
            Err(e) => Err(e),
        },
        Access::WriteResource(k) => match world.get_resource_mut(k) {
            Ok(g) => Ok(Fetched::WriteResource(g)),
            Err(e) => Err(e),
        },
    }
}

fn release_one<C: Component, R: Resource>(world: &mut World<C, R>, g: Fetched)
    requires
        old(world).wf(),
        release_step(locks_of(*old(world)), access_of(g)) is Some,
    ensures
        final(world).wf(),
        Some(locks_of(*final(world))) == release_step(locks_of(*old(world)), access_of(g)),
        final(world).tables() == old(world).tables(),
        final(world).resources() == old(world).resources(),
        final(world).next_entity() == old(world).next_entity(),
{
    match g {
        Fetched::Entities => {},
        Fetched::ReadSet(s) => world.release_components(s),
        Fetched::WriteSet(s) => world.release_components_mut(s),
        Fetched::ReadResource(s) => world.release_resource(s),
        Fetched::WriteResource(s) => world.release_resource_mut(s),
    }
}

/// Takes, in declared order, every borrow that `data` asks for. On a refusal
/// it gives back the borrows already taken and reports which element failed
/// and why.
pub fn fetch<C: Component, R: Resource>(world: &mut World<C, R>, data: &Vec<Access>) -> (r: Result<
    Vec<Fetched>,
    FetchError,
>)
    requires
        old(world).wf(),
    ensures
        final(world).wf(),
        final(world).tables() == old(world).tables(),
        final(world).resources() == old(world).resources(),
        final(world).next_entity() == old(world).next_entity(),
        match r {
            Ok(gs) => {
                &&& fetch_outcome(locks_of(*old(world)), data@) == Ok::<Locks, (nat, BorrowError)>(locks_of(*final(world)))
                &&& gs@.len() == data@.len()
                &&& forall|j: int| 0 <= j < gs@.len() ==> access_of(#[trigger] gs@[j]) == data@[j]
            },
            Err(e) => {
                &&& fetch_outcome(locks_of(*old(world)), data@) == Err::<Locks, (nat, BorrowError)>((e.index as nat, e.error))
                &&& locks_of(*final(world)) == locks_of(*old(world))
            },
        },
{
    let ghost before = *world;
    let mut gs: Vec<Fetched> = Vec::new();
    let mut failed: Option<FetchError> = None;
    let mut i: usize = 0;
    proof {
        assert(data@.take(0) =~= Seq::<Access>::empty());
    }
    while i < data.len() && failed.is_none()
        invariant
            world.wf(),
            i <= data@.len(),
            world.tables() == before.tables(),
            world.resources() == before.resources(),
            world.next_entity() == before.next_entity(),
            fetch_outcome(locks_of(before), data@.take(i as int)) == Ok::<Locks, (nat, BorrowError)>(locks_of(*world)),
            gs@.len() == i,
            forall|j: int| 0 <= j < i ==> access_of(#[trigger] gs@[j]) == data@[j],
            match failed {
                Some(e) => e.index == i && fetch_outcome(locks_of(before), data@) == Err::<Locks, (nat, BorrowError)>((i as nat, e.error)),
                None => true,
            },
        decreases data@.len() - i + (if failed is None { 1int } else { 0int }),
    {
        let a = data[i];
        proof {
            assert(data@.take(i + 1).drop_last() =~= data@.take(i as int));
            assert(data@.take(i + 1).last() == a);
        }
        match acquire(world, a) {
            Ok(g) => {
                gs.push(g);
                i += 1;
            },
            Err(e) => {
                proof {
                    lemma_fetch_error_sticks(locks_of(before), data@, i + 1);
                }
                failed = Some(FetchError { index: i, error: e });
            },
        }
    }
    match failed {
        Some(e) => {
            proof {
                before.lemma_locks_dom();
                lemma_release_undoes_fetch(locks_of(before), data@.take(i as int));
                assert(accesses(gs@) =~= data@.take(i as int));
            }
            release(world, gs);
            Err(e)
        },
        None => {
            proof {
                assert(data@.take(data@.len() as int) =~= data@);
            }
            Ok(gs)
        },
    }
}

/// Gives back every guard, last first.
pub fn release<C: Component, R: Resource>(world: &mut World<C, R>, guards: Vec<Fetched>)
    requires
        old(world).wf(),
        release_outcome(locks_of(*old(world)), accesses(guards@)) is Some,
    ensures
        final(world).wf(),
        Some(locks_of(*final(world))) == release_outcome(
            locks_of(*old(world)),
            accesses(guards@),
        ),
        final(world).tables() == old(world).tables(),
        final(world).resources() == old(world).resources(),
        final(world).next_entity() == old(world).next_entity(),
{
    let ghost before = *world;
    let ghost all = accesses(guards@);
    let mut guards = guards;
    proof {
        assert(all.take(all.len() as int) =~= all);
        assert(accesses(guards@) == all);
    }
    while guards.len() > 0
        invariant
            world.wf(),
            guards@.len() <= all.len(),
            accesses(guards@) == all.take(guards@.len() as int),
            release_outcome(locks_of(before), all) is Some,
            release_outcome(locks_of(*world), all.take(guards@.len() as int)) == release_outcome(locks_of(before), all),
            world.tables() == before.tables(),
            world.resources() == before.resources(),
            world.next_entity() == before.next_entity(),
        decreases guards@.len(),
    {
        let ghost n = guards@.len() as int;
        let ghost prev = guards@;
        let ghost mid = *world;
        let g = guards.pop().unwrap();
        proof {
            assert(guards@ =~= prev.drop_last());
            assert(accesses(prev)[n - 1] == access_of(g));
            assert(accesses(guards@) =~= all.take(n - 1)) by {
                assert forall|j: int| 0 <= j < n - 1 implies accesses(guards@)[j] == all.take(n - 1)[j] by {
                    assert(accesses(prev)[j] == all.take(n)[j]);
                }
            }
            let t = all.take(n);
            assert(t.last() == access_of(g));
            assert(t.drop_last() =~= all.take(n - 1));
        }
        proof {
            assert(release_outcome(locks_of(*world), all.take(n)) is Some);
        }
        release_one(world, g);
    }
    proof {
        assert(all.take(0) =~= Seq::<Access>::empty());
    }
}

} // verus!
