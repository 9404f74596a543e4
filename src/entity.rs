use vstd::prelude::*;

verus! {

/// An opaque entity identifier, unique within the store that issued it.
#[derive(Clone, Copy, Debug, PartialEq, Eq, Hash, Structural)]
pub struct Entity(u32);

impl View for Entity {
    type V = u32;

    closed spec fn view(&self) -> u32 {
        self.0
    }
}

impl Entity {
    /// The numeric identifier.
    pub fn id(&self) -> (r: u32)
        ensures
            r == self@,
    {
        self.0
    }
}

/// Issues entity identifiers in increasing order; identifiers are never reused.
#[derive(Debug)]
pub struct Entities {
    current_id: u32,
}

impl View for Entities {
    /// The identifier the next call of `create_entity` hands out.
    type V = u32;

    closed spec fn view(&self) -> u32 {
        self.current_id
    }
}

impl Default for Entities {
    /// Same as `new`.
    fn default() -> (r: Entities)
        ensures
            r@ == 0,
    {
        Entities::new()
    }
}

impl Entities {
    /// An allocator that has issued nothing yet.
    pub fn new() -> (r: Entities)
        ensures
            r@ == 0,
    {
        Entities { current_id: 0 }
    }

    /// The identifier the next call of `create_entity` hands out.
    pub fn next_id(&self) -> (r: u32)
        ensures
            r == self@,
    {
        self.current_id
    }

    /// Whether `e` has been issued by this allocator.
    pub open spec fn has_issued(&self, e: Entity) -> bool {
        e@ < self@
    }

    /// Hands out the next unused identifier. Every identifier issued before is
    /// strictly smaller than the new one.
    pub fn create_entity(&mut self) -> (r: Entity)
        requires
            old(self)@ < u32::MAX,
        ensures
            r@ == old(self)@,
            final(self)@ == old(self)@ + 1,
            !old(self).has_issued(r),
            final(self).has_issued(r),
            forall|x: Entity| old(self).has_issued(x) ==> x@ < r@,
            forall|x: Entity| final(self).has_issued(x) <==> (old(self).has_issued(x) || x == r),
    {
        let id = self.current_id;
        self.current_id = id + 1;
        let r = Entity(id);
        proof {
            assert forall|x: Entity| final(self).has_issued(x) <==> (old(self).has_issued(x) || x == r) by {
                if x@ == id {
                    assert(x == r);
                }
            }
        }
        r
    }
}

/// Over any run of successive `create_entity` calls, the identifiers handed
/// out are pairwise distinct and strictly increasing. `states[i]` is the
/// allocator before call `i` and `ids[i]` what that call returned, as the
/// contract of `create_entity` relates them.
pub proof fn lemma_created_ids_increase(states: Seq<Entities>, ids: Seq<Entity>)
    requires
        states.len() == ids.len() + 1,
        forall|i: int| 0 <= i < ids.len() ==> #[trigger] ids[i]@ == states[i]@,
        forall|i: int| 0 <= i < ids.len() ==> #[trigger] states[i + 1]@ == states[i]@ + 1,
    ensures
        forall|i: int, j: int| 0 <= i < j < ids.len() ==> ids[i]@ < ids[j]@ && ids[i] != ids[j],
{
    assert forall|i: int, j: int| 0 <= i < j < ids.len() implies ids[i]@ < ids[j]@ && ids[i] != ids[j] by {
        lemma_states_grow(states, i, j);
    }
}

proof fn lemma_states_grow(states: Seq<Entities>, i: int, j: int)
    requires
        0 <= i <= j < states.len(),
        forall|k: int| 0 <= k < states.len() - 1 ==> #[trigger] states[k + 1]@ == states[k]@ + 1,
    ensures
        states[j]@ == states[i]@ + (j - i),
    decreases j - i,
{
    if i < j {
        lemma_states_grow(states, i, j - 1);
        assert(states[(j - 1) + 1]@ == states[j - 1]@ + 1);
    }
}

} // verus!
