//! The frame broadcaster: a registry of subscribers, each owning a bounded
//! FIFO queue of encoded frames.
//!
//! `publish` offers a frame to every registered subscriber with a
//! non-blocking enqueue; a subscriber whose queue is full is treated as dead
//! and pruned in the same pass, so a slow consumer never stalls the producer
//! or the other consumers.  A caller drains its queue through the handle
//! that `new_client` returns.  The registry is meant to live behind one
//! mutual-exclusion boundary: at any instant only one of register, publish
//! or dequeue runs.

use vstd::prelude::*;
use vstd::slice::slice_to_vec;

verus! {

/// Queue capacity used by `Broadcaster::new`.
pub const DEFAULT_CAPACITY: usize = 100;

/// Ghost image of one subscriber: its handle and the frames queued for it,
/// oldest first.
pub ghost struct SubView {
    pub id: u64,
    pub queue: Seq<Seq<u8>>,
}

/// Handle through which a connected client drains its queue.
pub struct Client {
    id: u64,
}

impl View for Client {
    type V = u64;

    closed spec fn view(&self) -> u64 {
        self.id
    }
}

/// What one attempt to drain a queue yielded: the oldest frame, nothing for
/// now, or the news that the subscriber is no longer registered.
#[derive(Debug)]
pub enum Dequeued {
    /// The oldest queued frame, removed from the queue.
    Frame(Vec<u8>),
    /// The subscriber is registered but its queue is empty.
    Empty,
    /// The subscriber is not in the registry (pruned or never registered).
    Closed,
}

/// One registered subscriber: its handle and its bounded FIFO queue.
struct Subscriber {
    id: u64,
    queue: Vec<Vec<u8>>,
}

impl View for Subscriber {
    type V = SubView;

    closed spec fn view(&self) -> SubView {
        SubView { id: self.id, queue: self.queue@.map_values(|f: Vec<u8>| f@) }
    }
}

spec fn views_of(cs: Seq<Subscriber>) -> Seq<SubView> {
    cs.map_values(|s: Subscriber| s@)
}

/// The queue a fresh subscriber starts with: the most recently published
/// frame if one exists, else nothing.
pub open spec fn initial_queue(last: Option<Seq<u8>>) -> Seq<Seq<u8>> {
    match last {
        Some(f) => seq![f],
        None => Seq::empty(),
    }
}

/// `s` with frame `m` appended to its queue.
pub open spec fn enq(s: SubView, m: Seq<u8>) -> SubView {
    SubView { id: s.id, queue: s.queue.push(m) }
}

/// The registry after one publish of `m`: every subscriber with room gets
/// `m` appended, in place; every subscriber whose queue is full is removed.
pub open spec fn publish_spec(subs: Seq<SubView>, m: Seq<u8>, cap: nat) -> Seq<SubView>
    decreases subs.len(),
{
    if subs.len() == 0 {
        Seq::empty()
    } else {
        let rest = publish_spec(subs.drop_first(), m, cap);
        if subs.first().queue.len() < cap {
            seq![enq(subs.first(), m)] + rest
        } else {
            rest
        }
    }
}

/// No two subscribers share a handle.
pub open spec fn distinct_ids(subs: Seq<SubView>) -> bool {
    forall|i: int, j: int| 0 <= i < j < subs.len() ==> subs[i].id != subs[j].id
}

/// Index of the subscriber with handle `id`, or -1 if there is none.
pub open spec fn sub_index(subs: Seq<SubView>, id: u64) -> int
    decreases subs.len(),
{
    if subs.len() == 0 {
        -1
    } else if subs.first().id == id {
        0
    } else {
        let r = sub_index(subs.drop_first(), id);
        if r == -1 {
            -1
        } else {
            r + 1
        }
    }
}

/// `sub_index` finds a valid occurrence when one exists, and -1 exactly when
/// none does.
pub proof fn lemma_sub_index(subs: Seq<SubView>, id: u64)
    ensures
        (sub_index(subs, id) == -1) <==> (forall|j: int|
            0 <= j < subs.len() ==> (#[trigger] subs[j]).id != id),
        sub_index(subs, id) != -1 ==> 0 <= sub_index(subs, id) < subs.len()
            && subs[sub_index(subs, id)].id == id,
    decreases subs.len(),
{
    if subs.len() == 0 {
    } else {
        lemma_sub_index(subs.drop_first(), id);
        assert(forall|j: int| 0 <= j < subs.drop_first().len()
            ==> #[trigger] subs.drop_first()[j] == subs[j + 1]);
        if subs.first().id != id {
            let r = sub_index(subs.drop_first(), id);
            if r == -1 {
                assert forall|j: int| 0 <= j < subs.len() implies (#[trigger] subs[j]).id != id by {
                    if j > 0 {
                        assert(subs.drop_first()[j - 1] == subs[j]);
                    }
                }
            } else {
                assert(subs[r + 1] == subs.drop_first()[r]);
            }
        }
    }
}

/// `sub_index` names the first occurrence of `id`.
pub proof fn lemma_sub_index_first(subs: Seq<SubView>, id: u64, i: int)
    requires
        0 <= i < subs.len(),
        subs[i].id == id,
        forall|j: int| 0 <= j < i ==> (#[trigger] subs[j]).id != id,
    ensures
        sub_index(subs, id) == i,
    decreases subs.len(),
{
    if i == 0 {
    } else {
        assert(subs[0].id != id);
        assert(forall|j: int| 0 <= j < subs.drop_first().len()
            ==> #[trigger] subs.drop_first()[j] == subs[j + 1]);
        lemma_sub_index_first(subs.drop_first(), id, i - 1);
    }
}

/// One publish pass keeps every handle it had, keeps handles distinct, and
/// leaves no queue over capacity.
pub proof fn lemma_publish_spec_wf(subs: Seq<SubView>, m: Seq<u8>, cap: nat)
    ensures
        forall|k: int| 0 <= k < publish_spec(subs, m, cap).len() ==> exists|j: int|
            0 <= j < subs.len() && (#[trigger] publish_spec(subs, m, cap)[k]).id == subs[j].id,
        distinct_ids(subs) ==> distinct_ids(publish_spec(subs, m, cap)),
        forall|k: int| 0 <= k < publish_spec(subs, m, cap).len()
            ==> (#[trigger] publish_spec(subs, m, cap)[k]).queue.len() <= cap,
    decreases subs.len(),
{
    if subs.len() == 0 {
    } else {
        let res = publish_spec(subs, m, cap);
        let rest = publish_spec(subs.drop_first(), m, cap);
        lemma_publish_spec_wf(subs.drop_first(), m, cap);
        assert(forall|j: int| 0 <= j < subs.drop_first().len()
            ==> #[trigger] subs.drop_first()[j] == subs[j + 1]);
        if subs.first().queue.len() < cap {
            assert(res == seq![enq(subs.first(), m)] + rest);
            assert(res[0] == enq(subs.first(), m));
            assert(forall|k: int| 1 <= k < res.len() ==> #[trigger] res[k] == rest[k - 1]);
            assert forall|k: int| 0 <= k < res.len() implies exists|j: int|
                0 <= j < subs.len() && (#[trigger] res[k]).id == subs[j].id by {
                if k == 0 {
                    assert(res[0].id == subs[0].id);
                } else {
                    let j0 = choose|j: int| 0 <= j < subs.drop_first().len()
                        && (#[trigger] rest[k - 1]).id == subs.drop_first()[j].id;
                    assert(res[k].id == subs[j0 + 1].id);
                }
            }
            if distinct_ids(subs) {
                assert forall|a: int, b: int| 0 <= a < b < subs.drop_first().len() implies
                    subs.drop_first()[a].id != subs.drop_first()[b].id by {
                    assert(subs.drop_first()[a] == subs[a + 1]);
                    assert(subs.drop_first()[b] == subs[b + 1]);
                }
                assert(distinct_ids(subs.drop_first()));
                assert forall|a: int, b: int| 0 <= a < b < res.len() implies
                    res[a].id != res[b].id by {
                    if a == 0 {
                        let j0 = choose|j: int| 0 <= j < subs.drop_first().len()
                            && (#[trigger] rest[b - 1]).id == subs.drop_first()[j].id;
                        assert(subs[0].id != subs[j0 + 1].id);
                    } else {
                        assert(rest[a - 1].id != rest[b - 1].id);
                    }
                }
            }
        } else {
            assert(res == rest);
            assert forall|k: int| 0 <= k < res.len() implies exists|j: int|
                0 <= j < subs.len() && (#[trigger] res[k]).id == subs[j].id by {
                let j0 = choose|j: int| 0 <= j < subs.drop_first().len()
                    && (#[trigger] rest[k]).id == subs.drop_first()[j].id;
                assert(res[k].id == subs[j0 + 1].id);
            }
            if distinct_ids(subs) {
                assert forall|a: int, b: int| 0 <= a < b < subs.drop_first().len() implies
                    subs.drop_first()[a].id != subs.drop_first()[b].id by {
                    assert(subs.drop_first()[a] == subs[a + 1]);
                    assert(subs.drop_first()[b] == subs[b + 1]);
                }
                assert(distinct_ids(subs.drop_first()));
            }
        }
    }
}

/// The registry after publishing each frame of `frames`, in order.
pub open spec fn publish_all(subs: Seq<SubView>, frames: Seq<Seq<u8>>, cap: nat) -> Seq<SubView>
    decreases frames.len(),
{
    if frames.len() == 0 {
        subs
    } else {
        publish_all(publish_spec(subs, frames.first(), cap), frames.drop_first(), cap)
    }
}

/// When every queue has room, one publish keeps every subscriber and
/// appends the frame to each queue.
proof fn lemma_publish_spec_no_churn(subs: Seq<SubView>, m: Seq<u8>, cap: nat)
    requires
        forall|j: int| 0 <= j < subs.len() ==> (#[trigger] subs[j]).queue.len() < cap,
    ensures
        publish_spec(subs, m, cap).len() == subs.len(),
        forall|j: int| 0 <= j < subs.len()
            ==> #[trigger] publish_spec(subs, m, cap)[j] == enq(subs[j], m),
    decreases subs.len(),
{
    if subs.len() == 0 {
    } else {
        assert(forall|j: int| 0 <= j < subs.drop_first().len()
            ==> #[trigger] subs.drop_first()[j] == subs[j + 1]);
        lemma_publish_spec_no_churn(subs.drop_first(), m, cap);
        let res = publish_spec(subs, m, cap);
        let rest = publish_spec(subs.drop_first(), m, cap);
        assert(res == seq![enq(subs.first(), m)] + rest);
        assert forall|j: int| 0 <= j < subs.len() implies #[trigger] res[j] == enq(subs[j], m) by {
            if j > 0 {
                assert(res[j] == rest[j - 1]);
                assert(rest[j - 1] == enq(subs.drop_first()[j - 1], m));
            }
        }
    }
}

/// FIFO fan-out order: with no subscriber churn, publishing `frames` in
/// order appends exactly `frames`, in publish order, to the queue of every
/// subscriber, and keeps every subscriber registered.
pub proof fn lemma_publish_order(subs: Seq<SubView>, frames: Seq<Seq<u8>>, cap: nat)
    requires
        forall|j: int| 0 <= j < subs.len()
            ==> (#[trigger] subs[j]).queue.len() + frames.len() <= cap,
    ensures
        publish_all(subs, frames, cap).len() == subs.len(),
        forall|j: int| 0 <= j < subs.len() ==> #[trigger] publish_all(subs, frames, cap)[j]
            == (SubView { id: subs[j].id, queue: subs[j].queue + frames }),
    decreases frames.len(),
{
    if frames.len() == 0 {
        assert forall|j: int| 0 <= j < subs.len() implies #[trigger] publish_all(
            subs,
            frames,
            cap,
        )[j] == (SubView { id: subs[j].id, queue: subs[j].queue + frames }) by {
            assert(subs[j].queue + frames =~= subs[j].queue);
        }
    } else {
        let m = frames.first();
        let mid = publish_spec(subs, m, cap);
        lemma_publish_spec_no_churn(subs, m, cap);
        assert forall|j: int| 0 <= j < mid.len() implies (#[trigger] mid[j]).queue.len()
            + frames.drop_first().len() <= cap by {
            assert(mid[j] == enq(subs[j], m));
        }
        lemma_publish_order(mid, frames.drop_first(), cap);
        assert forall|j: int| 0 <= j < subs.len() implies #[trigger] publish_all(
            subs,
            frames,
            cap,
        )[j] == (SubView { id: subs[j].id, queue: subs[j].queue + frames }) by {
            assert(mid[j] == enq(subs[j], m));
            assert(publish_all(mid, frames.drop_first(), cap)[j] == (SubView {
                id: mid[j].id,
                queue: mid[j].queue + frames.drop_first(),
            }));
            assert(subs[j].queue.push(m) + frames.drop_first() =~= subs[j].queue + frames);
        }
    }
}

/// A handle absent from the registry stays absent under any further
/// publishes: a pruned subscriber receives no frame published after it was
/// pruned.
pub proof fn lemma_absent_stays_absent(
    subs: Seq<SubView>,
    frames: Seq<Seq<u8>>,
    cap: nat,
    id: u64,
)
    requires
        forall|j: int| 0 <= j < subs.len() ==> (#[trigger] subs[j]).id != id,
    ensures
        forall|k: int| 0 <= k < publish_all(subs, frames, cap).len()
            ==> (#[trigger] publish_all(subs, frames, cap)[k]).id != id,
    decreases frames.len(),
{
    if frames.len() == 0 {
    } else {
        let mid = publish_spec(subs, frames.first(), cap);
        lemma_publish_spec_wf(subs, frames.first(), cap);
        assert forall|k: int| 0 <= k < mid.len() implies (#[trigger] mid[k]).id != id by {
            let j0 = choose|j: int| 0 <= j < subs.len() && (#[trigger] mid[k]).id == subs[j].id;
            assert(subs[j0].id != id);
        }
        lemma_absent_stays_absent(mid, frames.drop_first(), cap, id);
        assert(publish_all(subs, frames, cap) == publish_all(mid, frames.drop_first(), cap));
        assert forall|k: int| 0 <= k < publish_all(subs, frames, cap).len() implies
            (#[trigger] publish_all(subs, frames, cap)[k]).id != id by {
            assert(publish_all(subs, frames, cap)[k] == publish_all(
                mid,
                frames.drop_first(),
                cap,
            )[k]);
        }
    }
}

/// A subscriber whose queue is full is gone after one publish.
proof fn lemma_publish_spec_full_pruned(subs: Seq<SubView>, m: Seq<u8>, cap: nat, j: int)
    requires
        distinct_ids(subs),
        0 <= j < subs.len(),
        subs[j].queue.len() >= cap,
    ensures
        forall|k: int| 0 <= k < publish_spec(subs, m, cap).len()
            ==> (#[trigger] publish_spec(subs, m, cap)[k]).id != subs[j].id,
    decreases subs.len(),
{
    let res = publish_spec(subs, m, cap);
    let rest = publish_spec(subs.drop_first(), m, cap);
    assert(forall|i: int| 0 <= i < subs.drop_first().len()
        ==> #[trigger] subs.drop_first()[i] == subs[i + 1]);
    assert forall|a: int, b: int| 0 <= a < b < subs.drop_first().len() implies
        subs.drop_first()[a].id != subs.drop_first()[b].id by {
        assert(subs.drop_first()[a] == subs[a + 1]);
        assert(subs.drop_first()[b] == subs[b + 1]);
    }
    assert(distinct_ids(subs.drop_first()));
    lemma_publish_spec_wf(subs.drop_first(), m, cap);
    if j == 0 {
        assert(res == rest);
        assert forall|k: int| 0 <= k < res.len() implies (#[trigger] res[k]).id != subs[0].id by {
            let i0 = choose|i: int| 0 <= i < subs.drop_first().len()
                && (#[trigger] rest[k]).id == subs.drop_first()[i].id;
            assert(subs[i0 + 1].id != subs[0].id);
        }
    } else {
        lemma_publish_spec_full_pruned(subs.drop_first(), m, cap, j - 1);
        if subs.first().queue.len() < cap {
            assert(res == seq![enq(subs.first(), m)] + rest);
            assert forall|k: int| 0 <= k < res.len() implies (#[trigger] res[k]).id
                != subs[j].id by {
                if k == 0 {
                    assert(res[0].id == subs[0].id);
                } else {
                    assert(res[k] == rest[k - 1]);
                }
            }
        } else {
            assert(res == rest);
        }
    }
}

/// A subscriber whose queue has room survives one publish, with the frame
/// appended.
proof fn lemma_publish_spec_survivor(subs: Seq<SubView>, m: Seq<u8>, cap: nat, j: int)
    requires
        0 <= j < subs.len(),
        subs[j].queue.len() < cap,
    ensures
        exists|k: int| 0 <= k < publish_spec(subs, m, cap).len()
            && #[trigger] publish_spec(subs, m, cap)[k] == enq(subs[j], m),
    decreases subs.len(),
{
    let res = publish_spec(subs, m, cap);
    let rest = publish_spec(subs.drop_first(), m, cap);
    assert(forall|i: int| 0 <= i < subs.drop_first().len()
        ==> #[trigger] subs.drop_first()[i] == subs[i + 1]);
    if j == 0 {
        assert(res == seq![enq(subs.first(), m)] + rest);
        assert(res[0] == enq(subs[0], m));
    } else {
        lemma_publish_spec_survivor(subs.drop_first(), m, cap, j - 1);
        let k0 = choose|k: int| 0 <= k < rest.len() && #[trigger] rest[k]
            == enq(subs.drop_first()[j - 1], m);
        if subs.first().queue.len() < cap {
            assert(res == seq![enq(subs.first(), m)] + rest);
            assert(res[k0 + 1] == enq(subs[j], m));
        } else {
            assert(res == rest);
            assert(res[k0] == enq(subs[j], m));
        }
    }
}

/// Prune bound for an undrained subscriber: once enough frames are
/// published to overrun its capacity — with initial queue length q and
/// capacity C, on or before the (C - q + 1)-th publish — the subscriber is
/// pruned, and no later publish reaches it.
pub proof fn lemma_prune_bound(subs: Seq<SubView>, frames: Seq<Seq<u8>>, cap: nat, j: int)
    requires
        distinct_ids(subs),
        forall|i: int| 0 <= i < subs.len() ==> (#[trigger] subs[i]).queue.len() <= cap,
        0 <= j < subs.len(),
        subs[j].queue.len() + frames.len() > cap,
    ensures
        forall|k: int| 0 <= k < publish_all(subs, frames, cap).len()
            ==> (#[trigger] publish_all(subs, frames, cap)[k]).id != subs[j].id,
    decreases frames.len(),
{
    let m = frames.first();
    let mid = publish_spec(subs, m, cap);
    lemma_publish_spec_wf(subs, m, cap);
    if subs[j].queue.len() >= cap {
        lemma_publish_spec_full_pruned(subs, m, cap, j);
        lemma_absent_stays_absent(mid, frames.drop_first(), cap, subs[j].id);
    } else {
        lemma_publish_spec_survivor(subs, m, cap, j);
        let k0 = choose|k: int| 0 <= k < mid.len() && #[trigger] mid[k] == enq(subs[j], m);
        lemma_prune_bound(mid, frames.drop_first(), cap, k0);
    }
    assert(publish_all(subs, frames, cap) == publish_all(mid, frames.drop_first(), cap));
    assert forall|k: int| 0 <= k < publish_all(subs, frames, cap).len() implies
        (#[trigger] publish_all(subs, frames, cap)[k]).id != subs[j].id by {
        assert(publish_all(subs, frames, cap)[k] == publish_all(mid, frames.drop_first(), cap)[k]);
    }
}

/// Publishing with zero registered subscribers is a no-op on the registry:
/// the frame is enqueued nowhere.
pub proof fn lemma_publish_no_subscribers(m: Seq<u8>, cap: nat)
    ensures
        publish_spec(Seq::<SubView>::empty(), m, cap) == Seq::<SubView>::empty(),
{
}

/// A subscriber registered after at least one publish dequeues the most
/// recently published frame first: when a last frame `f` exists, the
/// registry `new_client` leaves behind maps the new handle to the queue
/// holding exactly `f`, so the handle's first dequeue yields `f`.
pub proof fn lemma_new_subscriber_sees_last(subs: Seq<SubView>, id: u64, f: Seq<u8>)
    requires
        forall|i: int| 0 <= i < subs.len() ==> (#[trigger] subs[i]).id != id,
    ensures
        ({
            let joined = subs.push(SubView { id: id, queue: initial_queue(Some(f)) });
            sub_index(joined, id) == subs.len() && joined[subs.len() as int].queue
                == seq![f]
        }),
{
    let joined = subs.push(SubView { id: id, queue: initial_queue(Some(f)) });
    lemma_sub_index_first(joined, id, subs.len() as int);
}

/// Owns the subscriber registry and the most recently published frame.
pub struct Broadcaster {
    clients: Vec<Subscriber>,
    next_id: u64,
    capacity: usize,
    last_frame: Option<Vec<u8>>,
}

impl Broadcaster {
    /// The registry: one view per registered subscriber, in registration
    /// order.
    pub closed spec fn subs(&self) -> Seq<SubView> {
        views_of(self.clients@)
    }

    /// The fixed queue capacity every subscriber is created with.
    pub closed spec fn cap(&self) -> nat {
        self.capacity as nat
    }

    /// The most recently published frame, if any frame was published yet.
    pub closed spec fn last(&self) -> Option<Seq<u8>> {
        match self.last_frame {
            Some(f) => Some(f@),
            None => None,
        }
    }

    /// The handle the next registered subscriber will get.
    pub closed spec fn fresh(&self) -> u64 {
        self.next_id
    }

    /// Registry invariant: positive capacity, no queue over capacity,
    /// handles distinct and all below the next fresh handle.
    pub open spec fn wf(&self) -> bool {
        &&& self.cap() >= 1
        &&& forall|i: int| 0 <= i < self.subs().len()
            ==> (#[trigger] self.subs()[i]).queue.len() <= self.cap()
        &&& forall|i: int| 0 <= i < self.subs().len()
            ==> (#[trigger] self.subs()[i]).id < self.fresh()
        &&& distinct_ids(self.subs())
    }

    /// A broadcaster with the default queue capacity and no subscribers.
    pub fn new() -> (b: Broadcaster)
        ensures
            b.wf(),
            b.subs() == Seq::<SubView>::empty(),
            b.last() is None,
            b.cap() == DEFAULT_CAPACITY,
            b.fresh() == 0,
    {
        Broadcaster::with_capacity(DEFAULT_CAPACITY)
    }

    /// A broadcaster whose subscribers will each get a queue of capacity
    /// `capacity`, with no subscribers yet.
    pub fn with_capacity(capacity: usize) -> (b: Broadcaster)
        requires
            capacity >= 1,
        ensures
            b.wf(),
            b.subs() == Seq::<SubView>::empty(),
            b.last() is None,
            b.cap() == capacity,
            b.fresh() == 0,
    {
        let b = Broadcaster { clients: Vec::new(), next_id: 0, capacity, last_frame: None };
        proof {
            assert(b.subs() =~= Seq::<SubView>::empty());
        }
        b
    }

    /// Whether another subscriber can still be registered: handles are
    /// never reused, so they can in principle run out.
    pub fn can_register(&self) -> (r: bool)
        ensures
            r == (self.fresh() < u64::MAX),
    {
        self.next_id < u64::MAX
    }

    /// Registers a new subscriber and returns its handle.  The subscriber
    /// gets a fresh queue holding the most recently published frame if one
    /// exists, so a newly joined client does not wait a full tick for its
    /// first frame.
    pub fn new_client(&mut self) -> (c: Client)
        requires
            old(self).wf(),
            old(self).fresh() < u64::MAX,
        ensures
            final(self).wf(),
            c@ == old(self).fresh(),
            final(self).subs() == old(self).subs().push(
                SubView { id: c@, queue: initial_queue(old(self).last()) },
            ),
            forall|i: int| 0 <= i < old(self).subs().len()
                ==> (#[trigger] old(self).subs()[i]).id != c@,
            final(self).last() == old(self).last(),
            final(self).cap() == old(self).cap(),
            final(self).fresh() == old(self).fresh() + 1,
    {
        let id = self.next_id;
        self.next_id = self.next_id + 1;
        let mut queue: Vec<Vec<u8>> = Vec::new();
        match &self.last_frame {
            Some(f) => {
                queue.push(slice_to_vec(f.as_slice()));
            },
            None => {},
        }
        let sub = Subscriber { id, queue };
        proof {
            assert(sub@.queue =~= initial_queue(old(self).last()));
        }
        self.clients.push(sub);
        proof {
            assert(self.subs() =~= old(self).subs().push(
                SubView { id: id, queue: initial_queue(old(self).last()) },
            ));
        }
        Client { id }
    }

    /// Offers `msg` to every registered subscriber with a non-blocking
    /// enqueue; prunes, in the same pass, every subscriber whose queue is
    /// full.  Remembers `msg` as the most recently published frame.  With
    /// zero subscribers this is a no-op on the registry and never fails.
    pub fn publish(&mut self, msg: &[u8])
        requires
            old(self).wf(),
        ensures
            final(self).wf(),
            final(self).subs() == publish_spec(old(self).subs(), msg@, old(self).cap()),
            final(self).last() == Some(msg@),
            final(self).cap() == old(self).cap(),
            final(self).fresh() == old(self).fresh(),
    {
        let kept = publish_pass(&mut self.clients, self.capacity, msg);
        self.clients = kept;
        self.last_frame = Some(slice_to_vec(msg));
        proof {
            lemma_publish_spec_wf(old(self).subs(), msg@, old(self).cap());
            assert forall|i: int| 0 <= i < self.subs().len() implies
                (#[trigger] self.subs()[i]).id < self.next_id by {
                let j0 = choose|j: int| 0 <= j < old(self).subs().len()
                    && (#[trigger] self.subs()[i]).id == old(self).subs()[j].id;
            }
        }
    }

    /// Removes and returns the oldest frame queued for `c`, says the queue
    /// is empty, or says `c` is no longer registered.
    pub fn dequeue(&mut self, c: &Client) -> (r: Dequeued)
        requires
            old(self).wf(),
        ensures
            final(self).wf(),
            final(self).cap() == old(self).cap(),
            final(self).last() == old(self).last(),
            final(self).fresh() == old(self).fresh(),
            ({
                let i = sub_index(old(self).subs(), c@);
                if i == -1 {
                    r is Closed && final(self).subs() == old(self).subs()
                } else if old(self).subs()[i].queue.len() == 0 {
                    r is Empty && final(self).subs() == old(self).subs()
                } else {
                    r matches Dequeued::Frame(f) && f@ == old(self).subs()[i].queue.first()
                        && final(self).subs() == old(self).subs().update(
                        i,
                        SubView { id: c@, queue: old(self).subs()[i].queue.drop_first() },
                    )
                }
            }),
    {
        let found = find_client(&self.clients, c.id);
        match found {
            None => Dequeued::Closed,
            Some(i) => {
                let ghost subs0 = self.subs();
                let ghost cl0 = self.clients@;
                let mut s = self.clients.remove(i);
                if s.queue.len() == 0 {
                    self.clients.insert(i, s);
                    proof {
                        assert(self.subs() =~= subs0);
                    }
                    Dequeued::Empty
                } else {
                    let ghost sv0 = s@;
                    let f = s.queue.remove(0);
                    self.clients.insert(i, s);
                    proof {
                        let iv = i as int;
                        let target = SubView {
                            id: c@,
                            queue: subs0[iv].queue.drop_first(),
                        };
                        assert(s@.queue =~= sv0.queue.drop_first());
                        assert(s@ == target);
                        assert(self.clients@ == cl0.remove(iv).insert(iv, s));
                        assert forall|k: int| 0 <= k < subs0.len() implies
                            #[trigger] self.clients@[k]@ == subs0.update(iv, target)[k] by {
                            if k < iv {
                                assert(self.clients@[k] == cl0.remove(iv)[k]);
                                assert(cl0.remove(iv)[k] == cl0[k]);
                            } else if k == iv {
                                assert(self.clients@[k] == s);
                            } else {
                                assert(self.clients@[k] == cl0.remove(iv)[k - 1]);
                                assert(cl0.remove(iv)[k - 1] == cl0[k]);
                            }
                        }
                        assert(self.subs() =~= subs0.update(i as int, target));
                        assert forall|k: int| 0 <= k < self.subs().len() implies
                            (#[trigger] self.subs()[k]).id < self.next_id
                            && self.subs()[k].queue.len() <= self.cap() by {
                            assert(subs0[k].id < self.next_id);
                            assert(subs0[k].queue.len() <= self.cap());
                        }
                    }
                    Dequeued::Frame(f)
                }
            },
        }
    }
}

/// Linear scan for the subscriber holding handle `id`.
fn find_client(clients: &Vec<Subscriber>, id: u64) -> (r: Option<usize>)
    ensures
        match r {
            Some(i) => sub_index(views_of(clients@), id) == i
                && i < clients@.len() && views_of(clients@)[i as int].id == id,
            None => sub_index(views_of(clients@), id) == -1,
        },
{
    let ghost subs = views_of(clients@);
    let n = clients.len();
    let mut i: usize = 0;
    while i < n
        invariant
            n == clients@.len(),
            subs == views_of(clients@),
            i <= n,
            forall|j: int| 0 <= j < i ==> (#[trigger] subs[j]).id != id,
        decreases n - i,
    {
        if clients[i].id == id {
            proof {
                lemma_sub_index_first(subs, id, i as int);
            }
            return Some(i);
        }
        i = i + 1;
    }
    proof {
        lemma_sub_index(subs, id);
    }
    None
}

/// The enqueue-or-prune pass of one publish: consumes the registry and
/// returns the subscribers that stay, each with `msg` appended.
fn publish_pass(work: &mut Vec<Subscriber>, capacity: usize, msg: &[u8]) -> (kept: Vec<Subscriber>)
    ensures
        views_of(kept@) == publish_spec(views_of(old(work)@), msg@, capacity as nat),
{
    let ghost orig = views_of(work@);
    let mut kept: Vec<Subscriber> = Vec::new();
    while work.len() > 0
        invariant
            publish_spec(orig, msg@, capacity as nat) == views_of(kept@) + publish_spec(
                views_of(work@),
                msg@,
                capacity as nat,
            ),
        decreases work@.len(),
    {
        let ghost w0 = views_of(work@);
        let ghost kept0 = views_of(kept@);
        let mut s = work.remove(0);
        proof {
            assert(views_of(work@) =~= w0.drop_first());
            assert(s@ == w0.first());
        }
        if s.queue.len() < capacity {
            let ghost sv0 = s@;
            let m = slice_to_vec(msg);
            s.queue.push(m);
            proof {
                assert(s@.queue =~= sv0.queue.push(msg@));
                assert(s@ == enq(sv0, msg@));
            }
            kept.push(s);
            proof {
                assert(views_of(kept@) =~= kept0.push(enq(w0.first(), msg@)));
                assert(kept0 + publish_spec(w0, msg@, capacity as nat) == kept0 + (seq![
                    enq(w0.first(), msg@),
                ] + publish_spec(w0.drop_first(), msg@, capacity as nat)));
                assert(kept0 + (seq![enq(w0.first(), msg@)] + publish_spec(
                    w0.drop_first(),
                    msg@,
                    capacity as nat,
                )) =~= views_of(kept@) + publish_spec(views_of(work@), msg@, capacity as nat));
            }
        } else {
            proof {
                assert(publish_spec(w0, msg@, capacity as nat) == publish_spec(
                    w0.drop_first(),
                    msg@,
                    capacity as nat,
                ));
            }
        }
    }
    proof {
        assert(views_of(work@) =~= Seq::<SubView>::empty());
        assert(views_of(kept@) + publish_spec(views_of(work@), msg@, capacity as nat)
            =~= views_of(kept@));
    }
    kept
}

} // verus!
