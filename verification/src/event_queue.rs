//! The per-host event queue: a priority structure yielding the
//! minimum-time event, guarding the monotonic-time invariant.
//!
//! Events are totally ordered by `(time, seq)`; the `seq` stamp is the
//! documented deterministic tie-break, assigned by the driver when the event
//! is scheduled. Two events with the same `(time, seq)` must not occur by
//! construction; pushing an event earlier than the last popped time fails
//! with `TimeBackward` ("time moves backward").

use vstd::prelude::*;
use crate::simtime::EmulatedTime;
use crate::simtime::SimulationTime;
use crate::support::dec_str;
use crate::support::u64_to_string;

verus! {

/// What an event does when it fires.
#[derive(Clone, Copy, Debug, PartialEq, Eq, Structural)]
pub enum EventPayload {
    /// Work local to the owning host.
    Local { kind: u64 },
    /// Work that also emits a message: delivery to host `dst` after `delay`.
    Send { dst: u32, delay: SimulationTime, kind: u64 },
}

/// A timestamped work item local to one host's queue.
#[derive(Clone, Copy, Debug, PartialEq, Eq, Structural)]
pub struct Event {
    /// The simulated instant at which the event fires.
    pub time: EmulatedTime,
    /// Deterministic tie-break stamp, unique across the simulation.
    pub seq: u64,
    /// The opaque work.
    pub payload: EventPayload,
}

/// The observable kind tag of an event's payload.
pub open spec fn event_kind(e: Event) -> u64 {
    match e.payload {
        EventPayload::Local { kind } => kind,
        EventPayload::Send { kind, .. } => kind,
    }
}

/// Strict total order on events: by time, then by the tie-break stamp.
pub open spec fn event_lt(a: Event, b: Event) -> bool {
    a.time.ns < b.time.ns || (a.time.ns == b.time.ns && a.seq < b.seq)
}

/// Whether two events collide on the ordering key.
pub open spec fn same_key(a: Event, b: Event) -> bool {
    a.time.ns == b.time.ns && a.seq == b.seq
}

/// Strictly ascending by `(time, seq)`.
pub open spec fn sorted_events(s: Seq<Event>) -> bool {
    forall|i: int, j: int| 0 <= i < j < s.len() ==> event_lt(s[i], s[j])
}

/// Non-decreasing sequence of popped times.
pub open spec fn non_decreasing(s: Seq<u64>) -> bool {
    forall|i: int, j: int| 0 <= i <= j < s.len() ==> s[i] <= s[j]
}

/// Executable comparison deciding `event_lt`.
fn event_before(a: &Event, b: &Event) -> (r: bool)
    ensures
        r == event_lt(*a, *b),
{
    a.time.ns < b.time.ns || (a.time.ns == b.time.ns && a.seq < b.seq)
}

/// Pushing an event that would move time backward.
#[derive(Clone, Copy, Debug, PartialEq, Eq, Structural)]
pub enum EventQueueError {
    /// The event's time lies before the last popped event time.
    TimeBackward,
}

/// How often (in operations) the queue offers a statistics line.
pub const LOG_EVERY: u64 = 1000;

/// The content of the queue's periodic statistics line.
pub open spec fn stats_line(op: Seq<char>, count: u64, len: nat, last_pop_ns: u64) -> Seq<char> {
    "[event-queue] op="@ + op + " count="@ + dec_str(count as nat) + " len="@ + dec_str(len)
        + " last_pop_time_ns="@ + dec_str(last_pop_ns as nat)
}

/// A queue of events ordered by their times.
pub struct EventQueue {
    /// The queued events, strictly ascending by `(time, seq)`.
    pub items: Vec<Event>,
    /// The time of the most recently popped event.
    pub last_popped_event_time: EmulatedTime,
    /// How many events were ever pushed (saturating).
    pub push_count: u64,
    /// How many pops were ever attempted (saturating).
    pub pop_count: u64,
    /// The times of all popped events, oldest first.
    pub popped: Ghost<Seq<u64>>,
}

impl View for EventQueue {
    type V = Seq<Event>;

    open spec fn view(&self) -> Seq<Event> {
        self.items@
    }
}

impl EventQueue {
    /// The time of the most recently popped event.
    pub open spec fn last_popped(self) -> u64 {
        self.last_popped_event_time.ns
    }

    /// The times of all events popped so far, oldest first.
    pub open spec fn popped_times(self) -> Seq<u64> {
        self.popped@
    }

    /// How many events were ever pushed.
    pub open spec fn pushes(self) -> u64 {
        self.push_count
    }

    /// How many pops were ever attempted.
    pub open spec fn pops(self) -> u64 {
        self.pop_count
    }

    /// Well-formedness: contents strictly sorted, nothing queued before the
    /// last popped time, and the popped-time record non-decreasing and
    /// bounded by the last popped time.
    pub open spec fn wf(self) -> bool {
        &&& sorted_events(self.items@)
        &&& forall|i: int|
            0 <= i < self.items@.len() ==> self.items@[i].time.ns
                >= self.last_popped_event_time.ns
        &&& non_decreasing(self.popped@)
        &&& forall|k: int| 0 <= k < self.popped@.len() ==> self.popped@[k] <= self.last_popped_event_time.ns
    }

    /// An empty queue whose clock starts at `SIMULATION_START`.
    pub fn new() -> (q: EventQueue)
        ensures
            q.wf(),
            q@ == Seq::<Event>::empty(),
            q.last_popped() == 0,
            q.popped_times() == Seq::<u64>::empty(),
            q.pushes() == 0,
            q.pops() == 0,
    {
        EventQueue {
            items: Vec::new(),
            last_popped_event_time: EmulatedTime::simulation_start(),
            push_count: 0,
            pop_count: 0,
            popped: Ghost(Seq::empty()),
        }
    }

    /// Pushes a new event onto the queue.
    ///
    /// Fails with `TimeBackward`, leaving the queue unchanged, exactly when
    /// the event's time is earlier than the last popped event time.
    /// The caller keeps ordering keys unique by construction.
    pub fn push(&mut self, event: Event) -> (r: Result<(), EventQueueError>)
        requires
            old(self).wf(),
            forall|i: int| 0 <= i < old(self)@.len() ==> !#[trigger] same_key(old(self)@[i], event),
        ensures
            final(self).wf(),
            event.time.ns < old(self).last_popped() ==> {
                &&& r == Err::<(), EventQueueError>(EventQueueError::TimeBackward)
                &&& final(self)@ == old(self)@
                &&& final(self).last_popped() == old(self).last_popped()
                &&& final(self).popped_times() == old(self).popped_times()
                &&& final(self).pushes() == old(self).pushes()
                &&& final(self).pops() == old(self).pops()
            },
            event.time.ns >= old(self).last_popped() ==> {
                &&& r == Ok::<(), EventQueueError>(())
                &&& final(self)@.to_multiset() == old(self)@.to_multiset().insert(event)
                &&& final(self)@.len() == old(self)@.len() + 1
                &&& final(self).last_popped() == old(self).last_popped()
                &&& final(self).popped_times() == old(self).popped_times()
                &&& final(self).pushes() == sat_inc(old(self).pushes())
                &&& final(self).pops() == old(self).pops()
            },
    {
        if event.time.ns < self.last_popped_event_time.ns {
            return Err(EventQueueError::TimeBackward);
        }
        let ghost old_items = self.items@;
        proof {
            assert(old_items == old(self)@);
            assert forall|k: int| 0 <= k < old_items.len() implies !#[trigger] same_key(
                old_items[k],
                event,
            ) by {
                assert(!same_key(old(self)@[k], event));
            }
        }
        let mut i: usize = self.items.len();
        while i > 0 && event_before(&event, &self.items[i - 1])
            invariant
                i <= old_items.len(),
                self.items@ == old_items,
                forall|j: int| i <= j < old_items.len() ==> event_lt(event, #[trigger] old_items[j]),
                sorted_events(old_items),
                forall|k: int| 0 <= k < old_items.len() ==> !#[trigger] same_key(old_items[k], event),
            decreases i,
        {
            i -= 1;
        }
        proof {
            if i > 0 {
                // the loop stopped because the predecessor is not greater,
                // and keys are distinct, so it is strictly smaller
                assert(!event_lt(event, old_items[i - 1]));
                assert(!same_key(old_items[i - 1], event));
                assert(event_lt(old_items[i - 1], event));
                assert forall|j: int| 0 <= j < i implies event_lt(#[trigger] old_items[j], event) by {
                    if j < i - 1 {
                        assert(event_lt(old_items[j], old_items[i - 1]));
                    }
                }
            }
        }
        self.items.insert(i, event);
        proof {
            let t = old_items.insert(i as int, event);
            old_items.insert_ensures(i as int, event);
            lemma_insert_to_multiset(old_items, i as int, event);
            assert forall|a: int, b: int|
                0 <= a < b < t.len() implies event_lt(t[a], t[b]) by {
                if b < i {
                    assert(t[a] == old_items[a] && t[b] == old_items[b]);
                } else if a > i {
                    assert(t[a] == old_items[a - 1] && t[b] == old_items[b - 1]);
                } else if a == i && b > i {
                    assert(t[b] == old_items[b - 1] && event_lt(event, old_items[b - 1]));
                } else if b == i && a < i {
                    assert(t[a] == old_items[a] && event_lt(old_items[a], event));
                } else if a < i && b > i {
                    assert(t[a] == old_items[a] && t[b] == old_items[b - 1]);
                    assert(event_lt(old_items[a], old_items[b - 1]));
                }
            }
            assert(self.items@ == t);
        }
        self.push_count = saturating_inc(self.push_count);
        Ok(())
    }

    /// Pops the earliest event from the queue, advancing the last popped
    /// time to its time; `None` on an empty queue.
    pub fn pop(&mut self) -> (r: Option<Event>)
        requires
            old(self).wf(),
        ensures
            final(self).wf(),
            old(self)@.len() == 0 ==> {
                &&& r is None
                &&& final(self)@ == old(self)@
                &&& final(self).last_popped() == old(self).last_popped()
                &&& final(self).popped_times() == old(self).popped_times()
                &&& final(self).pushes() == old(self).pushes()
                &&& final(self).pops() == sat_inc(old(self).pops())
            },
            old(self)@.len() > 0 ==> {
                &&& r == Some(old(self)@[0])
                &&& final(self)@ == old(self)@.drop_first()
                &&& final(self).last_popped() == old(self)@[0].time.ns
                &&& old(self)@[0].time.ns >= old(self).last_popped()
                &&& final(self).popped_times() == old(self).popped_times().push(old(self)@[0].time.ns)
                &&& final(self).pushes() == old(self).pushes()
                &&& final(self).pops() == sat_inc(old(self).pops())
            },
    {
        self.pop_count = saturating_inc(self.pop_count);
        if self.items.len() == 0 {
            return None;
        }
        let event = self.items.remove(0);
        self.last_popped_event_time = event.time;
        proof {
            self.popped@ = self.popped@.push(event.time.ns);
            let before = old(self).items@;
            assert(self.items@ =~= before.drop_first());
            assert forall|j: int| 0 <= j < self.items@.len() implies #[trigger] self.items@[j].time.ns
                >= self.last_popped_event_time.ns by {
                assert(self.items@[j] == before[j + 1]);
                assert(event_lt(before[0], before[j + 1]));
            }
            assert forall|a: int, b: int|
                0 <= a < b < self.items@.len() implies event_lt(self.items@[a], self.items@[b]) by {
                assert(self.items@[a] == before[a + 1] && self.items@[b] == before[b + 1]);
            }
        }
        Some(event)
    }

    /// The time of the next event: the time of the earliest queued event,
    /// without mutating the queue.
    pub fn next_event_time(&self) -> (r: Option<EmulatedTime>)
        ensures
            r == if self@.len() == 0 {
                None::<EmulatedTime>
            } else {
                Some(self@[0].time)
            },
    {
        if self.items.len() == 0 {
            None
        } else {
            Some(self.items[0].time)
        }
    }

    /// Whether the next event fires strictly before `end_ns`.
    pub fn has_event_before(&self, end_ns: u64) -> (r: bool)
        ensures
            r == (self@.len() > 0 && self@[0].time.ns < end_ns),
    {
        match self.items.len() {
            0 => false,
            _ => self.items[0].time.ns < end_ns,
        }
    }

    /// The number of queued events.
    pub fn len(&self) -> (n: usize)
        ensures
            n == self@.len(),
    {
        self.items.len()
    }

    /// The head of a well-formed queue is its minimum.
    pub proof fn lemma_front_is_min(self)
        requires
            self.wf(),
            self@.len() > 0,
        ensures
            forall|i: int| 0 <= i < self@.len() ==> self@[0].time.ns <= #[trigger] self@[i].time.ns,
    {
        assert forall|i: int| 0 <= i < self@.len() implies self@[0].time.ns <= #[trigger] self@[i].time.ns by {
            if i > 0 {
                assert(event_lt(self@[0], self@[i]));
            }
        }
    }

    /// The periodic statistics line for operation `op` at operation count
    /// `count`: offered exactly every `LOG_EVERY` operations. Advisory; it
    /// never alters ordering.
    pub fn log_stats(&self, op: &str, count: u64) -> (r: Option<String>)
        ensures
            (r is Some) == (count % LOG_EVERY == 0),
            r matches Some(line) ==> line@ == stats_line(op@, count, self@.len(), self.last_popped()),
    {
        if count % LOG_EVERY != 0 {
            return None;
        }
        proof {
            reveal_strlit("[event-queue] op=");
            reveal_strlit(" count=");
            reveal_strlit(" len=");
            reveal_strlit(" last_pop_time_ns=");
        }
        let mut s = String::from_str("[event-queue] op=");
        s.append(op);
        s.append(" count=");
        let count_str = u64_to_string(count);
        s.append(count_str.as_str());
        s.append(" len=");
        let len_str = u64_to_string(self.items.len() as u64);
        s.append(len_str.as_str());
        s.append(" last_pop_time_ns=");
        let t_str = u64_to_string(self.last_popped_event_time.ns);
        s.append(t_str.as_str());
        Some(s)
    }

    /// Monotonic pop: for any interleaving of pushes and pops on a
    /// well-formed queue, the sequence of popped times is non-decreasing.
    pub proof fn lemma_monotonic_pop(self)
        requires
            self.wf(),
        ensures
            forall|i: int, j: int|
                0 <= i <= j < self.popped_times().len() ==> self.popped_times()[i]
                    <= self.popped_times()[j],
    {
    }
}

impl Default for EventQueue {
    /// Same as `EventQueue::new`.
    fn default() -> (q: EventQueue)
        ensures
            q.wf(),
            q@ == Seq::<Event>::empty(),
            q.last_popped() == 0,
            q.popped_times() == Seq::<u64>::empty(),
            q.pushes() == 0,
            q.pops() == 0,
    {
        EventQueue::new()
    }
}

/// A strictly sorted event sequence is pinned by its multiset: two sorted
/// queues holding the same events are the same queue.
pub proof fn lemma_sorted_unique(s1: Seq<Event>, s2: Seq<Event>)
    requires
        sorted_events(s1),
        sorted_events(s2),
        s1.to_multiset() == s2.to_multiset(),
    ensures
        s1 == s2,
    decreases s1.len(),
{
    broadcast use vstd::seq_lib::group_to_multiset_ensures;
    broadcast use vstd::multiset::group_multiset_axioms;

    if s1.len() == 0 {
        assert(s2.len() == s2.to_multiset().len());
        assert(s1 =~= s2);
    } else {
        assert(s1.to_multiset().count(s1[0]) > 0);
        assert(s2.contains(s1[0]));
        let j = choose|j: int| 0 <= j < s2.len() && s2[j] == s1[0];
        assert(s2.to_multiset().count(s2[0]) > 0);
        assert(s1.contains(s2[0]));
        let i = choose|i: int| 0 <= i < s1.len() && s1[i] == s2[0];
        if s1[0] != s2[0] {
            assert(i > 0 && j > 0);
            assert(event_lt(s1[0], s1[i]));
            assert(event_lt(s2[0], s2[j]));
            assert(false);
        }
        assert(s1.drop_first() =~= s1.remove(0));
        assert(s2.drop_first() =~= s2.remove(0));
        assert(s1.remove(0).to_multiset() == s1.to_multiset().remove(s1[0]));
        assert(s2.remove(0).to_multiset() == s2.to_multiset().remove(s2[0]));
        assert(sorted_events(s1.drop_first())) by {
            assert(forall|a: int, b: int|
                0 <= a < b < s1.drop_first().len() ==> event_lt(
                    #[trigger] s1.drop_first()[a],
                    #[trigger] s1.drop_first()[b],
                ));
        }
        assert(sorted_events(s2.drop_first())) by {
            assert(forall|a: int, b: int|
                0 <= a < b < s2.drop_first().len() ==> event_lt(
                    #[trigger] s2.drop_first()[a],
                    #[trigger] s2.drop_first()[b],
                ));
        }
        lemma_sorted_unique(s1.drop_first(), s2.drop_first());
        assert(s1 =~= seq![s1[0]] + s1.drop_first());
        assert(s2 =~= seq![s2[0]] + s2.drop_first());
    }
}

/// Saturating successor, as the queue's advisory counters use it.
pub open spec fn sat_inc(n: u64) -> u64 {
    if n < u64::MAX {
        (n + 1) as u64
    } else {
        u64::MAX
    }
}

fn saturating_inc(n: u64) -> (r: u64)
    ensures
        r == sat_inc(n),
{
    if n < u64::MAX {
        n + 1
    } else {
        n
    }
}

proof fn lemma_insert_to_multiset(s: Seq<Event>, i: int, e: Event)
    requires
        0 <= i <= s.len(),
    ensures
        s.insert(i, e).to_multiset() == s.to_multiset().insert(e),
{
    broadcast use vstd::seq_lib::group_to_multiset_ensures;

    let t = s.insert(i, e);
    assert(t.remove(i) =~= s);
    assert(t[i] == e);
    assert(t.to_multiset().remove(e) =~= s.to_multiset());
    assert(t.to_multiset().contains(e)) by {
        assert(t.contains(e));
    }
    assert(t.to_multiset() =~= s.to_multiset().insert(e)) by {
        broadcast use vstd::multiset::group_multiset_axioms;

    }
}

/// A wrapper type marking a payload whose partial order is used as a total
/// order; in executable code an incomparable pair would be a bug.
#[derive(Debug, Default, Copy, Clone, PartialEq, Eq)]
pub struct PanickingOrd<T: PartialOrd + Eq>(pub T);

impl<T: PartialOrd + Eq> PanickingOrd<T> {
    /// Unwraps the payload.
    pub fn into_inner(self) -> (r: T)
        ensures
            r == self.0,
    {
        self.0
    }
}

impl<T: PartialOrd + Eq> From<T> for PanickingOrd<T> {
    fn from(x: T) -> (r: PanickingOrd<T>) {
        PanickingOrd(x)
    }
}

impl<T: PartialOrd + Eq> vstd::std_specs::convert::FromSpecImpl<T> for PanickingOrd<T> {
    open spec fn obeys_from_spec() -> bool {
        true
    }

    open spec fn from_spec(x: T) -> PanickingOrd<T> {
        PanickingOrd(x)
    }
}

} // verus!
