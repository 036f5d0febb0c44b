//! The event bus: an in-process publish/subscribe primitive that owns the
//! set of active subscriber queues.
//!
//! Each subscriber handle has its own bounded FIFO queue. Publishing never
//! blocks and never fails: with zero subscribers it is a no-op delivery, and
//! a full queue drops its oldest unread event for that subscriber only.

use vstd::prelude::*;
use crate::models::SseEvent;

verus! {

/// One subscriber: a fresh handle and its pending events, oldest first.
pub struct Subscriber {
    pub handle: u64,
    pub queue: Vec<SseEvent>,
}

/// No two subscribers share a handle.
pub open spec fn handles_unique(s: Seq<Subscriber>) -> bool {
    forall|i: int, j: int|
        #![trigger s[i].handle, s[j].handle]
        0 <= i < s.len() && 0 <= j < s.len() && i != j ==> s[i].handle != s[j].handle
}

/// Some subscriber carries handle `h`.
pub open spec fn has_handle(s: Seq<Subscriber>, h: u64) -> bool {
    exists|i: int| 0 <= i < s.len() && s[i].handle == h
}

/// The index of the subscriber with handle `h`; meaningful when `has_handle`
/// holds, and unique when handles are unique.
pub open spec fn handle_idx(s: Seq<Subscriber>, h: u64) -> int {
    choose|i: int| 0 <= i < s.len() && s[i].handle == h
}

/// The pending events of the subscriber with handle `h`, oldest first.
pub open spec fn queue_of(s: Seq<Subscriber>, h: u64) -> Seq<SseEvent> {
    s[handle_idx(s, h)].queue@
}

/// Appending an event to a bounded queue: a full queue first drops its
/// oldest event, so the newest `cap` events are kept.
pub open spec fn push_bounded(q: Seq<SseEvent>, e: SseEvent, cap: nat) -> Seq<SseEvent> {
    if q.len() < cap {
        q.push(e)
    } else {
        q.subrange(1, q.len() as int).push(e)
    }
}

/// With unique handles, any index whose subscriber carries `h` is the index
/// `queue_of` speaks of.
pub proof fn lemma_handle_idx(s: Seq<Subscriber>, h: u64, i: int)
    requires
        handles_unique(s),
        0 <= i < s.len(),
        s[i].handle == h,
    ensures
        has_handle(s, h),
        handle_idx(s, h) == i,
        queue_of(s, h) == s[i].queue@,
{
    let j = handle_idx(s, h);
    assert(s[i].handle == s[j].handle);
}

/// The process-wide event bus, created once at start-up.
pub struct SseManager {
    pub subs: Vec<Subscriber>,
    pub next_handle: u64,
    pub capacity: usize,
}

impl SseManager {
    /// The bus invariant: unique handles below the next fresh one, and every
    /// queue within the per-subscriber bound.
    pub open spec fn well_formed(&self) -> bool {
        &&& handles_unique(self.subs@)
        &&& self.capacity >= 1
        &&& forall|i: int|
            0 <= i < self.subs@.len() ==> (#[trigger] self.subs@[i].queue@.len())
                <= self.capacity
        &&& forall|i: int|
            0 <= i < self.subs@.len() ==> (#[trigger] self.subs@[i].handle) < self.next_handle
    }

    /// Creates a bus whose subscriber queues each hold up to `capacity`
    /// events.
    pub fn with_capacity(capacity: usize) -> (r: Self)
        requires
            capacity >= 1,
        ensures
            r.well_formed(),
            r.subs@.len() == 0,
            r.capacity == capacity,
            r.next_handle == 0,
    {
        SseManager { subs: Vec::new(), next_handle: 0, capacity }
    }

    /// Creates the bus with the standard per-subscriber buffer of 100
    /// events.
    pub fn new() -> (r: Self)
        ensures
            r.well_formed(),
            r.subs@.len() == 0,
            r.capacity == 100,
            r.next_handle == 0,
    {
        Self::with_capacity(100)
    }

    /// Registers a new subscriber and returns its fresh handle; every other
    /// subscriber's queue is untouched, and the new queue is empty, so the
    /// handle sees exactly the events published after its creation.
    pub fn subscribe(&mut self) -> (h: u64)
        requires
            old(self).well_formed(),
            old(self).next_handle < u64::MAX,
        ensures
            final(self).well_formed(),
            h == old(self).next_handle,
            !has_handle(old(self).subs@, h),
            has_handle(final(self).subs@, h),
            queue_of(final(self).subs@, h) == Seq::<SseEvent>::empty(),
            final(self).subs@.len() == old(self).subs@.len() + 1,
            forall|k: int|
                0 <= k < old(self).subs@.len() ==> final(self).subs@[k] == old(self).subs@[k],
            forall|h2: u64|
                h2 != h ==> (has_handle(final(self).subs@, h2) <==> has_handle(
                    old(self).subs@,
                    h2,
                )),
            forall|h2: u64|
                h2 != h && has_handle(old(self).subs@, h2) ==> queue_of(final(self).subs@, h2)
                    == queue_of(old(self).subs@, h2),
            final(self).capacity == old(self).capacity,
            final(self).next_handle == old(self).next_handle + 1,
    {
        let h = self.next_handle;
        self.next_handle = h + 1;
        self.subs.push(Subscriber { handle: h, queue: Vec::new() });
        proof {
            let s0 = old(self).subs@;
            let s1 = self.subs@;
            lemma_handle_idx(s1, h, s0.len() as int);
            assert forall|h2: u64| h2 != h && has_handle(s0, h2) implies queue_of(s1, h2)
                == queue_of(s0, h2) by {
                let i = choose|i: int| 0 <= i < s0.len() && s0[i].handle == h2;
                lemma_handle_idx(s0, h2, i);
                lemma_handle_idx(s1, h2, i);
            }
            assert forall|h2: u64| h2 != h && has_handle(s1, h2) implies has_handle(s0, h2) by {
                let i = choose|i: int| 0 <= i < s1.len() && s1[i].handle == h2;
                assert(0 <= i < s0.len() && s0[i].handle == h2);
            }
            assert forall|h2: u64| h2 != h && has_handle(s0, h2) implies has_handle(s1, h2) by {
                let i = choose|i: int| 0 <= i < s0.len() && s0[i].handle == h2;
                assert(s1[i].handle == h2);
            }
        }
        h
    }

    /// Publishes an event to every active subscriber and reports how many
    /// there were. It never fails: zero subscribers is a no-op delivery, and
    /// a subscriber whose queue is full loses only its own oldest event.
    #[verifier::loop_isolation(false)]
    pub fn broadcast(&mut self, event: SseEvent) -> (n: usize)
        requires
            old(self).well_formed(),
        ensures
            final(self).well_formed(),
            n == old(self).subs@.len(),
            final(self).subs@.len() == old(self).subs@.len(),
            forall|k: int|
                0 <= k < old(self).subs@.len() ==> (#[trigger] final(self).subs@[k].handle)
                    == old(self).subs@[k].handle && final(self).subs@[k].queue@ == push_bounded(
                    old(self).subs@[k].queue@,
                    event,
                    old(self).capacity as nat,
                ),
            forall|h2: u64|
                has_handle(final(self).subs@, h2) <==> has_handle(old(self).subs@, h2),
            forall|h2: u64|
                has_handle(old(self).subs@, h2) ==> queue_of(final(self).subs@, h2)
                    == push_bounded(
                    queue_of(old(self).subs@, h2),
                    event,
                    old(self).capacity as nat,
                ),
            old(self).subs@.len() == 0 ==> final(self).subs@ == old(self).subs@,
            final(self).capacity == old(self).capacity,
            final(self).next_handle == old(self).next_handle,
    {
        let ghost s0 = self.subs@;
        let n = self.subs.len();
        let mut i: usize = 0;
        while i < n
            invariant
                n == s0.len(),
                0 <= i <= n,
                self.subs@.len() == s0.len(),
                self.capacity == old(self).capacity,
                self.next_handle == old(self).next_handle,
                self.capacity >= 1,
                forall|k: int| i <= k < n ==> (#[trigger] self.subs@[k]) == s0[k],
                forall|k: int|
                    0 <= k < i ==> (#[trigger] self.subs@[k].handle) == s0[k].handle
                        && self.subs@[k].queue@ == push_bounded(
                        s0[k].queue@,
                        event,
                        old(self).capacity as nat,
                    ),
                forall|k: int|
                    0 <= k < s0.len() ==> (#[trigger] s0[k].queue@.len()) <= self.capacity,
            decreases n - i,
        {
            let cap = self.capacity;
            let sub = &mut self.subs[i];
            if sub.queue.len() >= cap {
                sub.queue.remove(0);
            }
            sub.queue.push(event.clone());
            i += 1;
        }
        proof {
            let s1 = self.subs@;
            if s0.len() == 0 {
                assert(s1 =~= s0);
            }
            assert forall|a: int, b: int|
                #![trigger s1[a].handle, s1[b].handle]
                0 <= a < s1.len() && 0 <= b < s1.len() && a != b implies s1[a].handle
                != s1[b].handle by {
                assert(s1[a].handle == s0[a].handle);
                assert(s1[b].handle == s0[b].handle);
            }
            assert forall|k: int| 0 <= k < s1.len() implies (#[trigger] s1[k].queue@.len())
                <= self.capacity && s1[k].handle < self.next_handle by {
                assert(s1[k].handle == s0[k].handle);
                assert(s1[k].queue@ == push_bounded(s0[k].queue@, event, old(self).capacity as nat));
                assert(s0[k].queue@.len() <= self.capacity);
            }
            assert forall|h2: u64| has_handle(s0, h2) implies has_handle(s1, h2) by {
                let k = choose|k: int| 0 <= k < s0.len() && s0[k].handle == h2;
                assert(s1[k].handle == h2);
            }
            assert forall|h2: u64| has_handle(s0, h2) implies queue_of(s1, h2) == push_bounded(
                queue_of(s0, h2),
                event,
                old(self).capacity as nat,
            ) by {
                let k = choose|k: int| 0 <= k < s0.len() && s0[k].handle == h2;
                lemma_handle_idx(s0, h2, k);
                lemma_handle_idx(s1, h2, k);
            }
            assert forall|h2: u64| has_handle(s1, h2) implies has_handle(s0, h2) by {
                let k = choose|k: int| 0 <= k < s1.len() && s1[k].handle == h2;
                assert(s0[k].handle == h2);
            }
        }
        n
    }

    /// Takes the oldest pending event of the subscriber with handle `h`, if
    /// that subscriber exists and has one.
    #[verifier::loop_isolation(false)]
    pub fn recv(&mut self, h: u64) -> (r: Option<SseEvent>)
        requires
            old(self).well_formed(),
        ensures
            final(self).well_formed(),
            final(self).capacity == old(self).capacity,
            final(self).next_handle == old(self).next_handle,
            !has_handle(old(self).subs@, h) ==> r is None && final(self).subs@ == old(self).subs@,
            has_handle(old(self).subs@, h) && queue_of(old(self).subs@, h).len() == 0 ==> r is None
                && final(self).subs@ == old(self).subs@,
            has_handle(old(self).subs@, h) && queue_of(old(self).subs@, h).len() > 0 ==> {
                &&& r == Some(queue_of(old(self).subs@, h)[0])
                &&& has_handle(final(self).subs@, h)
                &&& queue_of(final(self).subs@, h) == queue_of(old(self).subs@, h).subrange(
                    1,
                    queue_of(old(self).subs@, h).len() as int,
                )
                &&& forall|h2: u64|
                    has_handle(final(self).subs@, h2) <==> has_handle(old(self).subs@, h2)
                &&& forall|h2: u64|
                    h2 != h && has_handle(old(self).subs@, h2) ==> queue_of(
                        final(self).subs@,
                        h2,
                    ) == queue_of(old(self).subs@, h2)
            },
    {
        let ghost s0 = self.subs@;
        let n = self.subs.len();
        let mut i: usize = 0;
        while i < n
            invariant
                n == s0.len(),
                0 <= i <= n,
                self.subs@ == s0,
                self.capacity == old(self).capacity,
                self.next_handle == old(self).next_handle,
                forall|k: int| 0 <= k < i ==> (#[trigger] s0[k].handle) != h,
            decreases n - i,
        {
            if self.subs[i].handle == h {
                proof {
                    lemma_handle_idx(s0, h, i as int);
                }
                let sub = &mut self.subs[i];
                if sub.queue.len() == 0 {
                    proof {
                        assert(self.subs@ =~= s0);
                    }
                    return None;
                }
                let e = sub.queue.remove(0);
                proof {
                    let s1 = self.subs@;
                    assert forall|k: int| 0 <= k < s1.len() implies (#[trigger] s1[k].handle)
                        == s0[k].handle && s1[k].queue@.len() <= s0[k].queue@.len() by {
                        if k != i {
                            assert(s1[k] == s0[k]);
                        }
                    }
                    assert(handles_unique(s1));
                    assert forall|h2: u64| has_handle(s0, h2) implies has_handle(s1, h2) by {
                        let k = choose|k: int| 0 <= k < s0.len() && s0[k].handle == h2;
                        assert(s1[k].handle == h2);
                    }
                    assert(s1[i as int].queue@ == s0[i as int].queue@.remove(0));
                    assert(s0[i as int].queue@.remove(0) =~= s0[i as int].queue@.subrange(
                        1,
                        s0[i as int].queue@.len() as int,
                    ));
                    lemma_handle_idx(s1, h, i as int);
                    assert forall|h2: u64| h2 != h && has_handle(s0, h2) implies queue_of(s1, h2)
                        == queue_of(s0, h2) by {
                        let k = choose|k: int| 0 <= k < s0.len() && s0[k].handle == h2;
                        lemma_handle_idx(s0, h2, k);
                        lemma_handle_idx(s1, h2, k);
                    }
                    assert forall|h2: u64| has_handle(s1, h2) implies has_handle(s0, h2) by {
                        let k = choose|k: int| 0 <= k < s1.len() && s1[k].handle == h2;
                        assert(s0[k].handle == h2);
                    }
                }
                return Some(e);
            }
            i += 1;
        }
        None
    }

    /// Deregisters the subscriber with handle `h`, releasing its buffer at
    /// once; absent handles are ignored, and no other subscriber is
    /// affected.
    #[verifier::loop_isolation(false)]
    pub fn unsubscribe(&mut self, h: u64)
        requires
            old(self).well_formed(),
        ensures
            final(self).well_formed(),
            final(self).capacity == old(self).capacity,
            final(self).next_handle == old(self).next_handle,
            !has_handle(final(self).subs@, h),
            !has_handle(old(self).subs@, h) ==> final(self).subs@ == old(self).subs@,
            forall|h2: u64|
                h2 != h ==> (has_handle(final(self).subs@, h2) <==> has_handle(
                    old(self).subs@,
                    h2,
                )),
            forall|h2: u64|
                h2 != h && has_handle(old(self).subs@, h2) ==> queue_of(final(self).subs@, h2)
                    == queue_of(old(self).subs@, h2),
    {
        let ghost s0 = self.subs@;
        let n = self.subs.len();
        let mut i: usize = 0;
        while i < n
            invariant
                n == s0.len(),
                0 <= i <= n,
                self.subs@ == s0,
                self.capacity == old(self).capacity,
                self.next_handle == old(self).next_handle,
                forall|k: int| 0 <= k < i ==> (#[trigger] s0[k].handle) != h,
            decreases n - i,
        {
            if self.subs[i].handle == h {
                self.subs.remove(i);
                proof {
                    let s1 = self.subs@;
                    assert forall|k: int| 0 <= k < s1.len() implies (#[trigger] s1[k]) == (if k
                        < i { s0[k] } else { s0[k + 1] }) by {}
                    assert forall|a: int, b: int|
                        #![trigger s1[a].handle, s1[b].handle]
                        0 <= a < s1.len() && 0 <= b < s1.len() && a != b implies s1[a].handle
                        != s1[b].handle by {
                        let a0: int = if a < i { a } else { a + 1 };
                        let b0: int = if b < i { b } else { b + 1 };
                        assert(s1[a] == s0[a0]);
                        assert(s1[b] == s0[b0]);
                        assert(s0[a0].handle != s0[b0].handle);
                    }
                    assert forall|k: int| 0 <= k < s1.len() implies (#[trigger] s1[k].queue@.len())
                        <= self.capacity && s1[k].handle < self.next_handle by {
                        let k0: int = if k < i { k } else { k + 1 };
                        assert(s1[k] == s0[k0]);
                    }
                    assert forall|h2: u64| h2 != h && has_handle(s0, h2) implies has_handle(
                        s1,
                        h2,
                    ) && queue_of(s1, h2) == queue_of(s0, h2) by {
                        let k = choose|k: int| 0 <= k < s0.len() && s0[k].handle == h2;
                        lemma_handle_idx(s0, h2, k);
                        if k < i {
                            assert(s1[k] == s0[k]);
                            lemma_handle_idx(s1, h2, k);
                        } else {
                            assert(s1[k - 1] == s0[k]);
                            lemma_handle_idx(s1, h2, k - 1);
                        }
                    }
                    assert forall|h2: u64| has_handle(s1, h2) implies has_handle(s0, h2) && h2
                        != h by {
                        let k = choose|k: int| 0 <= k < s1.len() && s1[k].handle == h2;
                        if k < i {
                            assert(s0[k].handle == h2);
                        } else {
                            assert(s0[k + 1].handle == h2);
                        }
                    }
                }
                return ;
            }
            i += 1;
        }
        proof {
            assert(self.subs@ =~= s0);
        }
    }
}

impl Default for SseManager {
    /// The default bus equals `SseManager::new()`.
    fn default() -> (r: Self)
        ensures
            r.well_formed(),
            r.subs@.len() == 0,
            r.capacity == 100,
            r.next_handle == 0,
    {
        Self::new()
    }
}

} // verus!
