use shadow_driver::event_queue::{Event, EventPayload, EventQueue, EventQueueError, PanickingOrd};
use shadow_driver::simtime::{EmulatedTime, SimulationTime};

fn local_event(time_ns: u64, seq: u64, kind: u64) -> Event {
    Event {
        time: EmulatedTime { ns: time_ns },
        seq,
        payload: EventPayload::Local { kind },
    }
}

#[test]
fn pop_returns_events_in_time_order() {
    let mut q = EventQueue::new();
    q.push(local_event(300, 2, 0)).unwrap();
    q.push(local_event(100, 0, 1)).unwrap();
    q.push(local_event(200, 1, 2)).unwrap();

    let a = q.pop().unwrap();
    let b = q.pop().unwrap();
    let c = q.pop().unwrap();
    assert_eq!(a.time.ns, 100);
    assert_eq!(b.time.ns, 200);
    assert_eq!(c.time.ns, 300);
    assert!(q.pop().is_none());
}

#[test]
fn tie_break_is_deterministic_by_stamp() {
    let mut q = EventQueue::new();
    q.push(local_event(500, 7, 0)).unwrap();
    q.push(local_event(500, 3, 1)).unwrap();
    let first = q.pop().unwrap();
    let second = q.pop().unwrap();
    assert_eq!(first.seq, 3);
    assert_eq!(second.seq, 7);
}

#[test]
fn monotonic_pop_over_interleavings() {
    // any interleaving of pushes and pops yields non-decreasing pop times
    let mut q = EventQueue::new();
    q.push(local_event(50, 0, 0)).unwrap();
    q.push(local_event(10, 1, 0)).unwrap();
    let mut popped = Vec::new();
    popped.push(q.pop().unwrap().time.ns);
    q.push(local_event(30, 2, 0)).unwrap();
    popped.push(q.pop().unwrap().time.ns);
    q.push(local_event(90, 3, 0)).unwrap();
    popped.push(q.pop().unwrap().time.ns);
    popped.push(q.pop().unwrap().time.ns);
    for w in popped.windows(2) {
        assert!(w[0] <= w[1]);
    }
    assert_eq!(popped, vec![10, 30, 50, 90]);
}

#[test]
fn push_before_last_popped_time_fails_loudly() {
    // time must never move backward
    let mut q = EventQueue::new();
    q.push(local_event(1000, 0, 0)).unwrap();
    q.pop().unwrap();
    let r = q.push(local_event(999, 1, 0));
    assert_eq!(r, Err(EventQueueError::TimeBackward));
    // the queue is unchanged and still usable at or after the popped time
    assert!(q.push(local_event(1000, 2, 0)).is_ok());
}

#[test]
fn next_event_time_peeks_without_mutating() {
    let mut q = EventQueue::new();
    assert!(q.next_event_time().is_none());
    q.push(local_event(42, 0, 0)).unwrap();
    q.push(local_event(7, 1, 0)).unwrap();
    assert_eq!(q.next_event_time().unwrap().ns, 7);
    assert_eq!(q.next_event_time().unwrap().ns, 7);
    assert_eq!(q.len(), 2);
}

#[test]
fn default_queue_is_empty() {
    let q = EventQueue::default();
    assert_eq!(q.len(), 0);
    assert!(q.next_event_time().is_none());
}

#[test]
fn stats_line_every_thousand_operations() {
    let mut q = EventQueue::new();
    q.push(local_event(5, 0, 0)).unwrap();
    q.pop().unwrap();
    assert!(q.log_stats("push", 999).is_none());
    let line = q.log_stats("push", 1000).unwrap();
    assert_eq!(line, "[event-queue] op=push count=1000 len=0 last_pop_time_ns=5");
    assert!(q.log_stats("pop", 1001).is_none());
}

#[test]
fn panicking_ord_round_trip() {
    let cell: PanickingOrd<u32> = PanickingOrd::from(17u32);
    assert_eq!(cell.into_inner(), 17);
    let event_cell: PanickingOrd<u64> = 99u64.into();
    assert_eq!(event_cell.into_inner(), 99);
}

#[test]
fn send_payload_keeps_its_fields() {
    let e = Event {
        time: EmulatedTime { ns: 1 },
        seq: 0,
        payload: EventPayload::Send {
            dst: 3,
            delay: SimulationTime { ns: 10_000_000 },
            kind: 5,
        },
    };
    match e.payload {
        EventPayload::Send { dst, delay, kind } => {
            assert_eq!(dst, 3);
            assert_eq!(delay.ns, 10_000_000);
            assert_eq!(kind, 5);
        }
        EventPayload::Local { .. } => panic!("expected a send payload"),
    }
}

#[test]
fn operation_counters_advance() {
    let mut q = EventQueue::new();
    q.push(local_event(1, 0, 0)).unwrap();
    q.push(local_event(2, 1, 0)).unwrap();
    assert_eq!(q.push_count, 2);
    q.pop().unwrap();
    let _ = q.pop();
    let _ = q.pop();
    assert_eq!(q.pop_count, 3);
    // a rejected push does not count
    q.push(local_event(0, 2, 0)).unwrap_err();
    assert_eq!(q.push_count, 2);
}
