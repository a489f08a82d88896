//! The host model the scheduler consumes: each host owns its event queue,
//! its configured applications, and a scoped shared-memory guard. Executing
//! a window drains every event before the window end, in time order, and
//! collects the messages those events emit into the host's outbox; the
//! driver delivers outboxes at the window boundary.

use vstd::prelude::*;
use crate::simtime::EmulatedTime;
use crate::simtime::SimulationTime;
use crate::simtime::sat_add_ns;
use crate::event_queue::Event;
use crate::event_queue::EventPayload;
use crate::event_queue::EventQueue;
use crate::event_queue::sorted_events;
use crate::event_queue::event_lt;

verus! {

/// A host's IP address as configured; only IPv4 is supported.
#[derive(Clone, Copy, Debug, PartialEq, Eq, Structural)]
pub enum HostIp {
    /// An IPv4 address, as its 32 numeric bits.
    V4 { bits: u32 },
    /// An IPv6 address; rejected during setup.
    V6,
}

/// One application configured to run on a host.
pub struct ProcessConfig {
    /// The executable.
    pub plugin: String,
    /// Its arguments.
    pub args: Vec<String>,
    /// Its environment, as `name=value` entries.
    pub envv: Vec<String>,
    /// When the application starts.
    pub start_time: SimulationTime,
    /// When it is sent the shutdown signal, if ever.
    pub shutdown_time: Option<SimulationTime>,
    /// The signal used to shut it down.
    pub shutdown_signal: i32,
    /// Whether to pause for a debugger at launch.
    pub pause_for_debugging: bool,
    /// The exit code the process is expected to end with.
    pub expected_final_state: i32,
}

/// An initial event a host's configuration schedules.
#[derive(Clone, Copy, Debug, PartialEq, Eq, Structural)]
pub struct InitialEvent {
    /// When it fires, in nanoseconds from the simulation start.
    pub time_ns: u64,
    /// What it does.
    pub payload: EventPayload,
}

/// Everything configured for one host.
pub struct HostInfo {
    /// The host's name, registered in the DNS.
    pub name: String,
    /// The host's address.
    pub ip: HostIp,
    /// The routing graph node this host attaches to.
    pub network_node_id: u32,
    /// Seed for the host's own randomness.
    pub seed: u64,
    /// Downstream bandwidth, bits per second.
    pub bandwidth_down_bits: u64,
    /// Upstream bandwidth, bits per second.
    pub bandwidth_up_bits: u64,
    /// The applications to run.
    pub processes: Vec<ProcessConfig>,
    /// The events the configuration schedules up front.
    pub initial_events: Vec<InitialEvent>,
}

/// The parameters a host is built with.
pub struct HostParameters {
    /// The dense host id the driver assigned.
    pub id: u32,
    /// The experiment machine's CPU frequency, Hz.
    pub cpu_frequency: u64,
    /// Seed for the host's own randomness.
    pub node_seed: u64,
    /// The host's name.
    pub hostname: String,
    /// The routing graph node.
    pub node_id: u32,
    /// The IPv4 address bits.
    pub ip_addr: u32,
    /// When the whole simulation ends.
    pub sim_end_time: EmulatedTime,
    /// Downstream bandwidth, bits per second.
    pub requested_bw_down_bits: u64,
    /// Upstream bandwidth, bits per second.
    pub requested_bw_up_bits: u64,
    /// The native time-stamp-counter frequency, Hz.
    pub native_tsc_frequency: u64,
}

/// A message emitted during a window, waiting to be delivered to its
/// destination host's queue at the boundary.
#[derive(Clone, Copy, Debug, PartialEq, Eq, Structural)]
pub struct OutboundMsg {
    /// The destination host id.
    pub dst: u32,
    /// The delivery time.
    pub time: EmulatedTime,
    /// The opaque kind tag the receipt event will carry.
    pub kind: u64,
}

/// The events of `q` that fire before `end_ns`, in order.
pub open spec fn drained_of(q: Seq<Event>, end_ns: u64) -> Seq<Event>
    decreases q.len(),
{
    if q.len() == 0 {
        Seq::empty()
    } else if q[0].time.ns < end_ns {
        seq![q[0]] + drained_of(q.drop_first(), end_ns)
    } else {
        drained_of(q.drop_first(), end_ns)
    }
}

/// The events of `q` that fire at or after `end_ns`, in order.
pub open spec fn rest_of(q: Seq<Event>, end_ns: u64) -> Seq<Event>
    decreases q.len(),
{
    if q.len() == 0 {
        Seq::empty()
    } else if q[0].time.ns >= end_ns {
        seq![q[0]] + rest_of(q.drop_first(), end_ns)
    } else {
        rest_of(q.drop_first(), end_ns)
    }
}

/// The messages the events of `s` emit, in execution order. A `Send`
/// payload emits one message, delivered `delay` after the event fires
/// (saturating); local work emits none.
pub open spec fn msgs_of(s: Seq<Event>) -> Seq<OutboundMsg>
    decreases s.len(),
{
    if s.len() == 0 {
        Seq::empty()
    } else {
        msgs_of(s.drop_last()) + match s.last().payload {
            EventPayload::Send { dst, delay, kind } => seq![
                OutboundMsg {
                    dst,
                    time: EmulatedTime { ns: sat_add_ns(s.last().time.ns, delay.ns) },
                    kind,
                },
            ],
            EventPayload::Local { .. } => Seq::empty(),
        }
    }
}

/// The times of the events of `s`, in order.
pub open spec fn times_of(s: Seq<Event>) -> Seq<u64>
    decreases s.len(),
{
    if s.len() == 0 {
        Seq::empty()
    } else {
        times_of(s.drop_last()).push(s.last().time.ns)
    }
}

/// Every drained event fires before the window end; every kept event at or
/// after it.
pub proof fn lemma_split_bounds(q: Seq<Event>, end_ns: u64)
    ensures
        forall|i: int|
            0 <= i < drained_of(q, end_ns).len() ==> (#[trigger] drained_of(q, end_ns)[i]).time.ns
                < end_ns,
        forall|i: int|
            0 <= i < rest_of(q, end_ns).len() ==> (#[trigger] rest_of(q, end_ns)[i]).time.ns
                >= end_ns,
    decreases q.len(),
{
    if q.len() > 0 {
        lemma_split_bounds(q.drop_first(), end_ns);
    }
}

/// On a queue sorted by `(time, seq)`, the events before the window end are
/// exactly a prefix: the queue splits into the drained prefix and the kept
/// suffix.
pub proof fn lemma_sorted_split(q: Seq<Event>, end_ns: u64)
    requires
        sorted_events(q),
    ensures
        drained_of(q, end_ns) + rest_of(q, end_ns) == q,
        drained_of(q, end_ns).len() + rest_of(q, end_ns).len() == q.len(),
        forall|i: int|
            0 <= i < drained_of(q, end_ns).len() ==> #[trigger] drained_of(q, end_ns)[i] == q[i],
        forall|i: int|
            0 <= i < rest_of(q, end_ns).len() ==> #[trigger] rest_of(q, end_ns)[i] == q[
                drained_of(q, end_ns).len() + i
            ],
        sorted_events(drained_of(q, end_ns)),
        sorted_events(rest_of(q, end_ns)),
    decreases q.len(),
{
    lemma_split_bounds(q, end_ns);
    if q.len() == 0 {
        assert(drained_of(q, end_ns) + rest_of(q, end_ns) =~= q);
    } else {
        let tail = q.drop_first();
        assert(sorted_events(tail)) by {
            assert(forall|i: int, j: int|
                0 <= i < j < tail.len() ==> event_lt(#[trigger] tail[i], #[trigger] tail[j]));
        }
        lemma_sorted_split(tail, end_ns);
        if q[0].time.ns < end_ns {
            // all of the drained part comes from the front
            assert(drained_of(q, end_ns) == seq![q[0]] + drained_of(tail, end_ns));
            // the rest of the queue starts at or after end only if nothing
            // earlier hides behind the head; sortedness gives that
            assert(rest_of(q, end_ns) == rest_of(tail, end_ns));
            assert(drained_of(q, end_ns) + rest_of(q, end_ns) =~= q);
        } else {
            // the head is already at or after the end; sortedness keeps every
            // later event there too, so nothing is drained
            assert forall|i: int| 0 <= i < tail.len() implies (#[trigger] tail[i]).time.ns
                >= end_ns by {
                assert(event_lt(q[0], q[i + 1]));
            }
            lemma_drained_all_kept(tail, end_ns);
            assert(drained_of(q, end_ns) =~= Seq::<Event>::empty());
            assert(rest_of(q, end_ns) =~= q);
        }
    }
}

/// A queue with nothing before the window end drains nothing.
pub proof fn lemma_drained_all_kept(q: Seq<Event>, end_ns: u64)
    requires
        forall|i: int| 0 <= i < q.len() ==> (#[trigger] q[i]).time.ns >= end_ns,
    ensures
        drained_of(q, end_ns) == Seq::<Event>::empty(),
        rest_of(q, end_ns) == q,
    decreases q.len(),
{
    if q.len() > 0 {
        lemma_drained_all_kept(q.drop_first(), end_ns);
        assert(rest_of(q, end_ns) =~= q);
    }
}

/// A simulated endpoint: its queue, its applications, its guards.
pub struct Host {
    /// The parameters it was built with.
    pub params: HostParameters,
    /// Its event queue.
    pub queue: EventQueue,
    /// Every event it has executed, in execution order.
    pub executed: Vec<Event>,
    /// Messages emitted in the current window, awaiting delivery.
    pub outbox: Vec<OutboundMsg>,
    /// The applications added under the shared-memory guard.
    pub applications: Vec<ProcessConfig>,
    /// The host clock, set at shutdown.
    pub current_time: Option<EmulatedTime>,
    /// Whether the shared-memory guard is held.
    pub shmem_locked: bool,
    /// Whether the host has been shut down.
    pub is_shutdown: bool,
}

impl Host {
    /// A freshly built host: empty queue, nothing executed, guard released.
    pub fn new(params: HostParameters) -> (h: Host)
        ensures
            h.params == params,
            h.queue.wf(),
            h.queue@ == Seq::<Event>::empty(),
            h.queue.last_popped() == 0,
            h.queue.popped_times() == Seq::<u64>::empty(),
            h.executed@ == Seq::<Event>::empty(),
            h.outbox@ == Seq::<OutboundMsg>::empty(),
            h.applications@ == Seq::<ProcessConfig>::empty(),
            h.current_time is None,
            !h.shmem_locked,
            !h.is_shutdown,
    {
        Host {
            params,
            queue: EventQueue::new(),
            executed: Vec::new(),
            outbox: Vec::new(),
            applications: Vec::new(),
            current_time: None,
            shmem_locked: false,
            is_shutdown: false,
        }
    }

    /// The dense id the driver assigned.
    pub fn id(&self) -> (r: u32)
        ensures
            r == self.params.id,
    {
        self.params.id
    }

    /// Acquires the host's shared-memory guard.
    pub fn lock_shmem(&mut self)
        requires
            !old(self).shmem_locked,
        ensures
            *final(self) == (Host { shmem_locked: true, ..*old(self) }),
    {
        self.shmem_locked = true;
    }

    /// Releases the host's shared-memory guard.
    pub fn unlock_shmem(&mut self)
        requires
            old(self).shmem_locked,
        ensures
            *final(self) == (Host { shmem_locked: false, ..*old(self) }),
    {
        self.shmem_locked = false;
    }

    /// Adds one configured application; only under the guard.
    pub fn add_application(&mut self, proc: ProcessConfig)
        requires
            old(self).shmem_locked,
        ensures
            final(self).applications@ == old(self).applications@.push(proc),
            final(self).params == old(self).params,
            final(self).queue == old(self).queue,
            final(self).executed == old(self).executed,
            final(self).outbox == old(self).outbox,
            final(self).current_time == old(self).current_time,
            final(self).shmem_locked,
            final(self).is_shutdown == old(self).is_shutdown,
    {
        self.applications.push(proc);
    }

    /// The time of the host's earliest outstanding event.
    pub fn next_event_time(&self) -> (r: Option<EmulatedTime>)
        ensures
            r == if self.queue@.len() == 0 {
                None::<EmulatedTime>
            } else {
                Some(self.queue@[0].time)
            },
    {
        self.queue.next_event_time()
    }

    /// Runs all events with `time < window_end` in time order: each is
    /// appended to the executed record, and each `Send` payload places one
    /// message in the outbox, timed `delay` after the event (saturating).
    /// The host's clock never passes `window_end`.
    pub fn execute(&mut self, window_end: EmulatedTime)
        requires
            old(self).shmem_locked,
            !old(self).is_shutdown,
            old(self).queue.wf(),
        ensures
            final(self).queue.wf(),
            final(self).queue@ == rest_of(old(self).queue@, window_end.ns),
            final(self).executed@ == old(self).executed@ + drained_of(
                old(self).queue@,
                window_end.ns,
            ),
            final(self).outbox@ == old(self).outbox@ + msgs_of(
                drained_of(old(self).queue@, window_end.ns),
            ),
            final(self).queue.popped_times() == old(self).queue.popped_times() + times_of(
                drained_of(old(self).queue@, window_end.ns),
            ),
            final(self).queue.last_popped() == if drained_of(old(self).queue@, window_end.ns).len()
                == 0 {
                old(self).queue.last_popped()
            } else {
                drained_of(old(self).queue@, window_end.ns).last().time.ns
            },
            final(self).params == old(self).params,
            final(self).applications == old(self).applications,
            final(self).current_time == old(self).current_time,
            final(self).shmem_locked,
            final(self).is_shutdown == old(self).is_shutdown,
    {
        let ghost old_q = self.queue@;
        let ghost old_executed = self.executed@;
        let ghost old_outbox = self.outbox@;
        let ghost old_popped = self.queue.popped_times();
        let ghost old_last = self.queue.last_popped();
        let n = self.queue.len();
        proof {
            assert(old_q.len() == n);
        }
        let mut k: usize = 0;
        proof {
            assert(old_q.take(0) =~= Seq::<Event>::empty());
            assert(self.executed@ =~= old_executed + old_q.take(0));
            assert(self.outbox@ =~= old_outbox + msgs_of(old_q.take(0)));
            assert(self.queue.popped_times() =~= old_popped + times_of(old_q.take(0)));
            assert(self.queue@ =~= old_q.skip(0));
        }
        while self.queue.has_event_before(window_end.ns)
            invariant
                self.queue.wf(),
                sorted_events(old_q),
                old_q.len() <= usize::MAX,
                k <= old_q.len(),
                self.queue@ == old_q.skip(k as int),
                forall|i: int| 0 <= i < k ==> (#[trigger] old_q[i]).time.ns < window_end.ns,
                self.executed@ == old_executed + old_q.take(k as int),
                self.outbox@ == old_outbox + msgs_of(old_q.take(k as int)),
                self.queue.popped_times() == old_popped + times_of(old_q.take(k as int)),
                self.queue.last_popped() == if k == 0 {
                    old_last
                } else {
                    old_q[k - 1].time.ns
                },
                self.params == old(self).params,
                self.applications == old(self).applications,
                self.current_time == old(self).current_time,
                self.shmem_locked,
                self.is_shutdown == old(self).is_shutdown,
            decreases old_q.len() - k,
        {
            proof {
                assert(k < old_q.len());
            }
            let ghost pre = old_q.take(k as int);
            let e = match self.queue.pop() {
                Some(e) => e,
                None => {
                    proof {
                        assert(false);
                    }
                    return ;
                },
            };
            proof {
                assert(e == old_q[k as int]);
                assert(old_q.skip(k as int).drop_first() =~= old_q.skip(k + 1));
                assert(old_q.take(k + 1).drop_last() =~= pre);
                assert(old_q.take(k + 1).last() == e);
            }
            self.executed.push(e);
            match e.payload {
                EventPayload::Send { dst, delay, kind } => {
                    let t = e.time.saturating_add(delay);
                    self.outbox.push(OutboundMsg { dst, time: t, kind });
                },
                EventPayload::Local { .. } => {},
            }
            proof {
                assert(self.executed@ =~= old_executed + old_q.take(k + 1));
                assert(msgs_of(old_q.take(k + 1)) == msgs_of(pre) + match e.payload {
                    EventPayload::Send { dst, delay, kind } => seq![
                        OutboundMsg {
                            dst,
                            time: EmulatedTime { ns: sat_add_ns(e.time.ns, delay.ns) },
                            kind,
                        },
                    ],
                    EventPayload::Local { .. } => Seq::<OutboundMsg>::empty(),
                });
                assert(self.outbox@ =~= old_outbox + msgs_of(old_q.take(k + 1)));
                assert(times_of(old_q.take(k + 1)) == times_of(pre).push(e.time.ns));
                assert(self.queue.popped_times() =~= old_popped + times_of(old_q.take(k + 1)));
            }
            k += 1;
        }
        proof {
            // nothing before the window end is left: either the queue is
            // empty, or its head is at or after the end, and the queue is
            // sorted
            if k < old_q.len() {
                assert(self.queue@[0] == old_q[k as int]);
                assert(old_q[k as int].time.ns >= window_end.ns);
                assert forall|i: int| k <= i < old_q.len() implies (#[trigger] old_q[i]).time.ns
                    >= window_end.ns by {
                    if i > k {
                        assert(event_lt(old_q[k as int], old_q[i]));
                    }
                }
            }
            lemma_sorted_split(old_q, window_end.ns);
            lemma_split_prefix(old_q, k as int, window_end.ns);
        }
    }

    /// Takes the outbox, leaving it empty.
    pub fn take_outbox(&mut self) -> (msgs: Vec<OutboundMsg>)
        ensures
            msgs@ == old(self).outbox@,
            *final(self) == (Host { outbox: final(self).outbox, ..*old(self) }),
            final(self).outbox@ == Seq::<OutboundMsg>::empty(),
    {
        let mut msgs: Vec<OutboundMsg> = Vec::new();
        core::mem::swap(&mut msgs, &mut self.outbox);
        msgs
    }

    /// Terminates the host's applications; the host keeps its records.
    pub fn free_all_applications(&mut self)
        ensures
            final(self).applications@ == Seq::<ProcessConfig>::empty(),
            *final(self) == (Host { applications: final(self).applications, ..*old(self) }),
    {
        self.applications = Vec::new();
    }

    /// Shuts the host down; idempotent.
    pub fn shutdown(&mut self)
        ensures
            *final(self) == (Host { is_shutdown: true, ..*old(self) }),
    {
        self.is_shutdown = true;
    }

    /// Sets the host clock, as the driver does before shutdown.
    pub fn set_current_time(&mut self, t: EmulatedTime)
        ensures
            *final(self) == (Host { current_time: Some(t), ..*old(self) }),
    {
        self.current_time = Some(t);
    }
}

/// When a sorted queue splits at index `k` — everything before `k` earlier
/// than the end, everything from `k` on not — the drained part is exactly
/// the first `k` events and the rest is the remainder.
pub proof fn lemma_split_prefix(q: Seq<Event>, k: int, end_ns: u64)
    requires
        sorted_events(q),
        0 <= k <= q.len(),
        forall|i: int| 0 <= i < k ==> (#[trigger] q[i]).time.ns < end_ns,
        forall|i: int| k <= i < q.len() ==> (#[trigger] q[i]).time.ns >= end_ns,
    ensures
        drained_of(q, end_ns) == q.take(k),
        rest_of(q, end_ns) == q.skip(k),
{
    lemma_sorted_split(q, end_ns);
    lemma_split_bounds(q, end_ns);
    let d = drained_of(q, end_ns);
    let r = rest_of(q, end_ns);
    // the split index is exactly k: a shorter prefix would leave an early
    // event in the rest, a longer one would drain a late event
    if d.len() < k {
        assert(r[0] == q[d.len() as int]);
        assert(q[d.len() as int].time.ns < end_ns);
        assert(false);
    }
    if d.len() > k {
        assert(d[k] == q[k]);
        assert(q[k].time.ns >= end_ns);
        assert(false);
    }
    assert(d =~= q.take(k));
    assert(r =~= q.skip(k));
}

} // verus!
