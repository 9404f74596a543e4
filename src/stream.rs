use vstd::prelude::*;
use std::collections::HashMap;
use vstd::std_specs::hash::spec_keys_iter;
use vstd::std_specs::iter::IteratorSpec;

verus! {

broadcast use vstd::std_specs::hash::group_hash_axioms;

/// Capacity is added in blocks of this many events.
pub const STREAM_SIZE_BLOCK: usize = 10;

/// Identifies one subscription of one stream.
#[derive(Clone, Copy, Debug, PartialEq, Eq, Hash, Structural)]
pub struct SubscriptionToken(u64);

impl View for SubscriptionToken {
    type V = u64;

    closed spec fn view(&self) -> u64 {
        self.0
    }
}

/// A reader's place in the stream: the number of events published before its
/// next unread one.
#[derive(Clone, Copy, Debug, PartialEq, Eq, Structural)]
pub struct Subscription {
    pub position: u64,
}

/// The slot of the event `i` places after the oldest retained one, in a full
/// or linear buffer of `count` events whose oldest event sits at `first`.
pub open spec fn slot(first: int, i: int, count: int) -> int {
    if first + i < count {
        first + i
    } else {
        first + i - count
    }
}

/// A growable circular buffer of events read by independent subscribers. The
/// buffer keeps every event that some live subscriber has not read yet, and
/// the most recent one.
pub struct EventStream<E> {
    buffer: Vec<E>,
    capacity: usize,
    first: usize,
    oldest: u64,
    published: u64,
    subscriptions: HashMap<u64, Subscription>,
    token_serial: u64,
    history: Ghost<Seq<E>>,
}

impl<E> Default for EventStream<E> {
    /// Same as `new`.
    fn default() -> (r: Self)
        ensures
            r.wf(),
            r.history() == Seq::<E>::empty(),
            r.cursors() == Map::<u64, nat>::empty(),
            r.capacity() == STREAM_SIZE_BLOCK,
            r.oldest() == 0,
    {
        EventStream::new()
    }
}

impl<E> EventStream<E> {
    /// Every event published so far, oldest first.
    pub closed spec fn history(&self) -> Seq<E> {
        self.history@
    }

    /// The number of events the buffer holds before it must grow or overwrite.
    pub closed spec fn capacity(&self) -> nat {
        self.capacity as nat
    }

    /// The position of the oldest event still held.
    pub closed spec fn oldest(&self) -> nat {
        self.oldest as nat
    }

    /// Tokens never issued yet are at least this.
    pub closed spec fn next_token(&self) -> nat {
        self.token_serial as nat
    }

    /// The position of each live subscription: how many events had been
    /// published when it last read (or subscribed).
    pub closed spec fn cursors(&self) -> Map<u64, nat> {
        Map::new(
            |t: u64| self.subscriptions@.contains_key(t),
            |t: u64| self.subscriptions@[t].position as nat,
        )
    }

    /// Whether the next publish finds the buffer full with a subscriber that
    /// still needs the oldest held event.
    pub open spec fn must_grow(&self) -> bool {
        &&& self.history().len() - self.oldest() == self.capacity()
        &&& exists|t: u64| #[trigger] self.cursors().contains_key(t) && self.cursors()[t] == self.oldest()
    }

    closed spec fn count(&self) -> int {
        self.published - self.oldest
    }

    pub closed spec fn wf(&self) -> bool {
        &&& self.history@.len() == self.published
        &&& self.oldest <= self.published
        &&& self.buffer@.len() == self.published - self.oldest
        &&& self.buffer@.len() <= self.capacity
        &&& self.capacity >= 1
        &&& self.published > 0 ==> self.buffer@.len() > 0
        &&& self.buffer@.len() < self.capacity ==> self.first == 0
        &&& (self.buffer@.len() == 0 ==> self.first == 0)
        &&& (self.buffer@.len() > 0 ==> self.first < self.buffer@.len())
        &&& forall|i: int|
            0 <= i < self.buffer@.len() ==> #[trigger] self.buffer@[slot(
                self.first as int,
                i,
                self.buffer@.len() as int,
            )] == self.history@[self.oldest + i]
        &&& forall|t: u64| #[trigger]
            self.subscriptions@.contains_key(t) ==> t < self.token_serial && self.oldest
                <= self.subscriptions@[t].position <= self.published
    }

    proof fn lemma_cursors(&self)
        requires
            self.wf(),
        ensures
            forall|t: u64| #[trigger]
                self.cursors().contains_key(t) ==> t < self.token_serial && self.oldest <= self.cursors()[t]
                    <= self.published,
    {
    }

    /// No live subscriber has lost an event: every cursor lies between the
    /// oldest held event and the newest, so all events it has not read are
    /// still held.
    pub proof fn lemma_no_event_lost(&self)
        requires
            self.wf(),
        ensures
            forall|t: u64| #[trigger]
                self.cursors().contains_key(t) ==> self.oldest() <= self.cursors()[t] <= self.history().len(),
            self.history().len() - self.oldest() <= self.capacity(),
            self.history().len() > 0 ==> self.oldest() < self.history().len(),
    {
        self.lemma_cursors();
    }

    /// When the buffer is full and a live subscriber still needs the oldest
    /// held event, the next publish grows the buffer (by `must_grow`, see
    /// `publish`) instead of overwriting: that subscriber's next read then
    /// returns every event since its last read.
    pub proof fn lemma_lagging_subscriber_forces_growth(&self, t: u64)
        requires
            self.wf(),
            self.cursors().contains_key(t),
            self.cursors()[t] == self.oldest(),
            self.history().len() - self.oldest() == self.capacity(),
        ensures
            self.must_grow(),
    {
    }

    /// An empty stream with one block of capacity and no subscriptions.
    pub fn new() -> (r: Self)
        ensures
            r.wf(),
            r.history() == Seq::<E>::empty(),
            r.cursors() == Map::<u64, nat>::empty(),
            r.capacity() == STREAM_SIZE_BLOCK,
            r.oldest() == 0,
            r.next_token() == 0,
    {
        let r = EventStream {
            buffer: Vec::with_capacity(STREAM_SIZE_BLOCK),
            capacity: STREAM_SIZE_BLOCK,
            first: 0,
            oldest: 0,
            published: 0,
            subscriptions: HashMap::new(),
            token_serial: 0,
            history: Ghost(Seq::empty()),
        };
        assert(r.cursors() =~= Map::<u64, nat>::empty());
        r
    }

    /// The number of events published so far.
    pub fn published(&self) -> (r: u64)
        requires
            self.wf(),
        ensures
            r == self.history().len(),
    {
        self.published
    }

    /// The current capacity, in events.
    pub fn buffer_capacity(&self) -> (r: usize)
        ensures
            r == self.capacity(),
    {
        self.capacity
    }

    fn generate_token(&mut self) -> (r: u64)
        requires
            old(self).wf(),
            old(self).token_serial < u64::MAX,
        ensures
            final(self).wf(),
            r == old(self).token_serial,
            final(self).token_serial == old(self).token_serial + 1,
            final(self).subscriptions == old(self).subscriptions,
            final(self).history == old(self).history,
            final(self).capacity == old(self).capacity,
            final(self).oldest == old(self).oldest,
            final(self).buffer == old(self).buffer,
            final(self).first == old(self).first,
            final(self).published == old(self).published,
    {
        let t = self.token_serial;
        self.token_serial = t + 1;
        t
    }

    /// Opens a subscription at the current end of the stream: its first read
    /// returns only events published after this call.
    pub fn subscribe(&mut self) -> (r: SubscriptionToken)
        requires
            old(self).wf(),
            old(self).next_token() < u64::MAX,
        ensures
            final(self).wf(),
            !old(self).cursors().contains_key(r@),
            r@ == old(self).next_token(),
            final(self).next_token() == old(self).next_token() + 1,
            final(self).cursors() == old(self).cursors().insert(r@, old(self).history().len()),
            final(self).history() == old(self).history(),
            final(self).capacity() == old(self).capacity(),
            final(self).oldest() == old(self).oldest(),
    {
        proof {
            self.lemma_cursors();
        }
        let ghost before = *self;
        let t = self.generate_token();
        self.subscriptions.insert(t, Subscription { position: self.published });
        proof {
            assert(self.cursors() =~= before.cursors().insert(t, before.published as nat));
        }
        SubscriptionToken(t)
    }

    /// Whether `token` names a live subscription of this stream.
    pub fn is_subscribed(&self, token: &SubscriptionToken) -> (r: bool)
        requires
            self.wf(),
        ensures
            r == self.cursors().contains_key(token@),
    {
        proof {
            self.lemma_cursors();
        }
        self.subscriptions.contains_key(&token.0)
    }

    /// Ends a subscription. Events only it still needed may then be
    /// overwritten.
    pub fn unsubscribe(&mut self, token: SubscriptionToken)
        requires
            old(self).wf(),
            old(self).cursors().contains_key(token@),
        ensures
            final(self).wf(),
            final(self).cursors() == old(self).cursors().remove(token@),
            final(self).history() == old(self).history(),
            final(self).capacity() == old(self).capacity(),
            final(self).oldest() == old(self).oldest(),
            final(self).next_token() == old(self).next_token(),
    {
        proof {
            self.lemma_cursors();
        }
        let ghost before = *self;
        self.subscriptions.remove(&token.0);
        proof {
            assert(self.cursors() =~= before.cursors().remove(token@));
        }
    }

    /// The smallest cursor among live subscriptions, if any.
    fn tail(&self) -> (r: Option<u64>)
        requires
            self.wf(),
        ensures
            match r {
                Some(m) => (exists|t: u64| #[trigger] self.cursors().contains_key(t) && self.cursors()[t] == m)
                    && forall|t: u64| #[trigger] self.cursors().contains_key(t) ==> m <= self.cursors()[t],
                None => forall|t: u64| !(#[trigger] self.cursors().contains_key(t)),
            },
    {
        proof {
            self.lemma_cursors();
        }
        let mut best: Option<u64> = None;
        let ghost ks = spec_keys_iter(&self.subscriptions).remaining();
        let ghost mut seen: int = 0;
        for t in it: self.subscriptions.keys()
            invariant
                self.wf(),
                it.seq() == ks,
                seen == it.index(),
                ks.unref().to_set() == self.subscriptions@.dom(),
                match best {
                    Some(m) => (exists|j: int| 0 <= j < seen && self.cursors()[*ks[j]] == m)
                        && forall|j: int| 0 <= j < seen ==> m <= #[trigger] self.cursors()[*ks[j]],
                    None => seen == 0,
                },
        {
            proof {
                assert(ks.unref().to_set().contains(*t)) by {
                    assert(ks.unref()[seen] == *t);
                }
            }
            let p = self.subscriptions.get(t).unwrap().position;
            best = match best {
                Some(m) => if p < m { Some(p) } else { Some(m) },
                None => Some(p),
            };
            proof {
                seen = seen + 1;
            }
        }
        proof {
            assert(seen == ks.len());
            match best {
                Some(m) => {
                    let j = choose|j: int| 0 <= j < seen && self.cursors()[*ks[j]] == m;
                    assert(ks.unref()[j] == *ks[j]);
                    assert(ks.unref().to_set().contains(*ks[j]));
                    assert(self.cursors().contains_key(*ks[j]));
                    assert forall|t: u64| #[trigger] self.cursors().contains_key(t) implies m <= self.cursors()[t] by {
                        assert(ks.unref().to_set().contains(t));
                        let k = choose|k: int| 0 <= k < ks.unref().len() && ks.unref()[k] == t;
                        assert(*ks[k] == t);
                    }
                },
                None => {
                    assert forall|t: u64| !(#[trigger] self.cursors().contains_key(t)) by {
                        if self.cursors().contains_key(t) {
                            assert(ks.unref().to_set().contains(t));
                        }
                    }
                },
            }
        }
        best
    }

    /// Lays the held events out oldest first from slot zero and adds one
    /// block of capacity; cursors, being positions in the stream, stay valid.
    fn increase_capacity(&mut self)
        requires
            old(self).wf(),
            old(self).capacity + STREAM_SIZE_BLOCK <= usize::MAX,
        ensures
            final(self).wf(),
            final(self).capacity == old(self).capacity + STREAM_SIZE_BLOCK,
            final(self).first == 0,
            final(self).buffer@.len() == old(self).buffer@.len(),
            final(self).history == old(self).history,
            final(self).oldest == old(self).oldest,
            final(self).published == old(self).published,
            final(self).subscriptions == old(self).subscriptions,
            final(self).token_serial == old(self).token_serial,
    {
        let ghost before = *self;
        let n = self.buffer.len();
        let first = self.first;
        let mut front = self.buffer.split_off(first);
        front.append(&mut self.buffer);
        self.buffer = front;
        self.first = 0;
        self.capacity = self.capacity + STREAM_SIZE_BLOCK;
        proof {
            assert forall|i: int| 0 <= i < self.buffer@.len() implies #[trigger] self.buffer@[slot(
                self.first as int,
                i,
                self.buffer@.len() as int,
            )] == self.history@[self.oldest + i] by {
                assert(slot(0, i, n as int) == i);
                assert(before.buffer@[slot(first as int, i, n as int)] == before.history@[before.oldest + i]);
                if i < n - first {
                    assert(self.buffer@[i] == before.buffer@[first + i]);
                } else {
                    assert(self.buffer@[i] == before.buffer@[i - (n - first)]);
                }
            }
        }
    }

    /// Appends `event`. With room to spare it takes the next slot. When the
    /// buffer is full it overwrites the oldest held event, unless a live
    /// subscriber has not read that event yet: then the buffer first grows by
    /// one block.
    pub fn publish(&mut self, event: E)
        requires
            old(self).wf(),
            old(self).history().len() < u64::MAX,
            old(self).capacity() + STREAM_SIZE_BLOCK <= usize::MAX,
        ensures
            final(self).wf(),
            final(self).history() == old(self).history().push(event),
            final(self).cursors() == old(self).cursors(),
            final(self).next_token() == old(self).next_token(),
            final(self).capacity() == (if old(self).must_grow() {
                old(self).capacity() + STREAM_SIZE_BLOCK as nat
            } else {
                old(self).capacity()
            }),
            final(self).oldest() == (if old(self).history().len() - old(self).oldest() == old(self).capacity()
                && !old(self).must_grow() {
                old(self).oldest() + 1
            } else {
                old(self).oldest()
            }),
    {
        proof {
            self.lemma_cursors();
            self.lemma_no_event_lost();
        }
        let ghost before = *self;
        let count = self.buffer.len();
        let grow: bool;
        if count < self.capacity {
            grow = false;
            self.buffer.push(event);
        } else {
            let lagging = match self.tail() {
                Some(t) => t == self.oldest,
                None => false,
            };
            grow = lagging;
            if lagging {
                self.increase_capacity();
                self.buffer.push(event);
            } else {
                let f = self.first;
                self.buffer.set(f, event);
                self.first = if f + 1 == count { 0 } else { f + 1 };
                self.oldest = self.oldest + 1;
            }
        }
        self.published = self.published + 1;
        self.history = Ghost(before.history@.push(event));
        proof {
            let n = self.buffer@.len() as int;
            assert(before.history@.push(event)[before.published as int] == event);
            if count < before.capacity || grow {
                assert(self.first == 0);
                assert forall|i: int| 0 <= i < n implies #[trigger] self.buffer@[slot(
                    self.first as int,
                    i,
                    n,
                )] == self.history@[self.oldest + i] by {
                    assert(slot(0, i, n) == i);
                    if i < n - 1 {
                        assert(slot(0, i, n - 1) == i);
                    }
                }
            } else {
                let f = before.first as int;
                assert forall|i: int| 0 <= i < n implies #[trigger] self.buffer@[slot(
                    self.first as int,
                    i,
                    n,
                )] == self.history@[self.oldest + i] by {
                    if i < n - 1 {
                        assert(before.buffer@[slot(f, i + 1, n)] == before.history@[before.oldest + i + 1]);
                    } else {
                        assert(slot(self.first as int, i, n) == f);
                    }
                }
                // every live cursor was past the overwritten event
                assert forall|t: u64| #[trigger] self.subscriptions@.contains_key(t) implies t
                    < self.token_serial && self.oldest <= self.subscriptions@[t].position <= self.published by {
                    assert(before.cursors().contains_key(t));
                }
            }
            assert(self.cursors() =~= before.cursors());
            if before.must_grow() {
                let t = choose|t: u64| #[trigger] before.cursors().contains_key(t) && before.cursors()[t] == before.oldest();
                assert(before.cursors().contains_key(t));
            }
        }
    }

    /// Every event published since `token` last read (or subscribed), oldest
    /// first; the subscription then stands at the end of the stream.
    pub fn read(&mut self, token: &SubscriptionToken) -> (r: Vec<&E>)
        requires
            old(self).wf(),
            old(self).cursors().contains_key(token@),
        ensures
            final(self).wf(),
            r@.len() == old(self).history().len() - old(self).cursors()[token@],
            forall|i: int| 0 <= i < r@.len() ==> *r@[i] == old(self).history()[old(self).cursors()[token@] + i],
            final(self).cursors() == old(self).cursors().insert(token@, old(self).history().len()),
            final(self).history() == old(self).history(),
            final(self).capacity() == old(self).capacity(),
            final(self).oldest() == old(self).oldest(),
            final(self).next_token() == old(self).next_token(),
    {
        proof {
            self.lemma_cursors();
        }
        let ghost before = *self;
        let start = self.subscriptions.get(&token.0).unwrap().position;
        self.subscriptions.insert(token.0, Subscription { position: self.published });
        proof {
            assert(self.cursors() =~= before.cursors().insert(token@, before.published as nat));
        }
        let count = self.buffer.len();
        let first = self.first;
        let oldest = self.oldest;
        let end = self.published;
        let mut r: Vec<&E> = Vec::new();
        let mut k: u64 = start;
        while k < end
            invariant
                before.wf(),
                self.buffer == before.buffer,
                self.history == before.history,
                count == before.buffer@.len(),
                first == before.first,
                oldest == before.oldest,
                end == before.published,
                oldest <= start <= k <= end,
                r@.len() == k - start,
                forall|j: int| 0 <= j < r@.len() ==> *r@[j] == before.history@[start + j],
            decreases end - k,
        {
            let off = (k - oldest) as usize;
            let sl = if off < count - first { first + off } else { off - (count - first) };
            proof {
                assert(sl == slot(first as int, off as int, count as int));
                assert(before.buffer@[slot(first as int, off as int, count as int)] == before.history@[oldest + off]);
            }
            r.push(&self.buffer[sl]);
            k = k + 1;
        }
        r
    }

    /// The most recent event, if any was published.
    pub fn read_last(&self) -> (r: Option<&E>)
        requires
            self.wf(),
        ensures
            r == (if self.history().len() == 0 {
                None
            } else {
                Some(&self.history().last())
            }),
    {
        if self.published == 0 {
            None
        } else {
            let n = self.buffer.len();
            let sl = if n - 1 < n - self.first { self.first + (n - 1) } else { (n - 1) - (n - self.first) };
            proof {
                assert(sl == slot(self.first as int, n - 1, n as int));
                assert(self.buffer@[slot(self.first as int, n - 1, n as int)] == self.history@[self.oldest + n - 1]);
            }
            Some(&self.buffer[sl])
        }
    }
}

/// Over any run of publishes (`states[i]` before publishing `events[i]`, as
/// `publish` relates them), a subscriber's position stays put and the events
/// from it to the end of the stream are the ones it had not read plus every
/// event published since, in order; every well-formed stream still holds them
/// all (`lemma_no_event_lost`), so the subscriber's next read returns them.
pub proof fn lemma_reads_see_every_publish<E>(states: Seq<EventStream<E>>, events: Seq<E>, t: u64)
    requires
        states.len() == events.len() + 1,
        forall|i: int|
            0 <= i < events.len() ==> (#[trigger] states[i + 1]).history() == states[i].history().push(events[i])
                && states[i + 1].cursors() == states[i].cursors(),
        states[0].cursors().contains_key(t),
        states[0].cursors()[t] <= states[0].history().len(),
    ensures
        states.last().cursors().contains_key(t),
        states.last().cursors()[t] == states[0].cursors()[t],
        states.last().history().len() == states[0].history().len() + events.len(),
        states.last().history().subrange(states[0].cursors()[t] as int, states.last().history().len() as int)
            == states[0].history().subrange(states[0].cursors()[t] as int, states[0].history().len() as int)
            + events,
    decreases events.len(),
{
    let n = events.len() as int;
    let c = states[0].cursors()[t] as int;
    if n > 0 {
        let prev = states.drop_last();
        let evs = events.drop_last();
        assert forall|i: int| 0 <= i < evs.len() implies (#[trigger] prev[i + 1]).history() == prev[i].history().push(evs[i])
            && prev[i + 1].cursors() == prev[i].cursors() by {
            assert(0 <= i + 1 < n);
            assert(states[i + 1] == prev[i + 1]);
            assert(states[i] == prev[i]);
        }
        lemma_reads_see_every_publish(prev, evs, t);
        let mid = states[n - 1];
        assert(prev.last() == mid);
        assert(states[n].history() == mid.history().push(events[n - 1]));
        assert(states.last().history().subrange(c, states.last().history().len() as int)
            =~= mid.history().subrange(c, mid.history().len() as int).push(events[n - 1]));
        assert(states[0].history().subrange(c, states[0].history().len() as int) + events
            =~= (states[0].history().subrange(c, states[0].history().len() as int) + evs).push(events[n - 1]));
    } else {
        assert(events =~= Seq::<E>::empty());
        assert(states[0].history().subrange(c, states[0].history().len() as int) + events
            =~= states[0].history().subrange(c, states[0].history().len() as int));
    }
}

} // verus!
