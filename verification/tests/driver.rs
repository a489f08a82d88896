use shadow_driver::event_queue::{EventPayload};
use shadow_driver::host::{HostInfo, HostIp, InitialEvent};
use shadow_driver::manager::{
    ConfigOptions, Manager, ManagerConfig, PreloadLib, SetupError, SetupProbes,
};
use shadow_driver::run_control::{
    set_restart_run_until, Command, RestartSlot, RunControlState,
};
use shadow_driver::simtime::{EmulatedTime, SimulationTime};

fn probes() -> SetupProbes {
    SetupProbes {
        raw_cpu_khz: Some(2_800_000),
        native_tsc_hz: Some(2_800_000_000),
        supports_rdrand: false,
        supports_rdseed: false,
        can_intercept_cpuid: false,
        log_start_time_micros: 0,
        preload_injector_path: Some(b"/usr/lib/libshadow_injector.so".to_vec()),
        preload_libc_path: None,
        preload_openssl_rng_path: None,
        preload_openssl_crypto_path: None,
    }
}

fn options() -> ConfigOptions {
    ConfigOptions {
        parallelism: 1,
        bootstrap_end_time: SimulationTime { ns: 0 },
        heartbeat_interval: None,
        use_cpu_pinning: false,
        use_preload_libc: false,
        use_preload_openssl_rng: false,
        use_preload_openssl_crypto: false,
        native_preemption_enabled: false,
        native_preemption_native_interval_ns: 0,
        native_preemption_sim_interval: SimulationTime { ns: 0 },
    }
}

fn host(name: &str, ip_bits: u32, events: Vec<InitialEvent>) -> HostInfo {
    HostInfo {
        name: name.to_string(),
        ip: HostIp::V4 { bits: ip_bits },
        network_node_id: 0,
        seed: 1,
        bandwidth_down_bits: 1_000_000,
        bandwidth_up_bits: 1_000_000,
        processes: Vec::new(),
        initial_events: events,
    }
}

fn config(hosts: Vec<HostInfo>, smallest_latency_ns: u64) -> ManagerConfig {
    ManagerConfig {
        random_seed: 1234,
        smallest_latency: SimulationTime { ns: smallest_latency_ns },
        hosts,
    }
}

const SECOND: u64 = 1_000_000_000;
const MILLI: u64 = 1_000_000;

#[test]
fn empty_simulation_terminates_immediately() {
    // no hosts: the controller answers the first boundary with no window
    let cfg = config(vec![], 10 * MILLI);
    let m = Manager::new(cfg, options(), EmulatedTime { ns: SECOND }, probes()).unwrap();
    let mut rc = RunControlState::new();
    let mut slot = RestartSlot::new();
    let errors = m.run(&mut rc, &mut slot, &vec![], 4).unwrap();
    assert_eq!(errors, 0);
}

#[test]
fn single_host_fires_its_event() {
    // one event at t = 500 ms; initial window [0, 1 ns); window sizing by a
    // 1 ns runahead then issues [1 ns, 500 ms + 1 ns)
    let events = vec![InitialEvent { time_ns: 500 * MILLI, payload: EventPayload::Local { kind: 9 } }];
    let cfg = config(vec![host("alice", 0x0a000001, events)], 1);
    let mut m = Manager::new(cfg, options(), EmulatedTime { ns: SECOND }, probes()).unwrap();
    let mut rc = RunControlState::new();
    let mut sim = m.start_run(&vec![], 1).unwrap();

    let w = sim.window.unwrap();
    assert_eq!((w.0.ns, w.1.ns), (0, 1));
    let out = sim.run_window(&mut rc);
    assert_eq!(out.t_next.ns, 500 * MILLI);
    assert!(!out.finished);
    let w = sim.window.unwrap();
    assert_eq!((w.0.ns, w.1.ns), (1, 500 * MILLI + 1));

    let out = sim.run_window(&mut rc);
    assert_eq!(out.t_next.ns, u64::MAX);
    assert!(out.finished);
    assert_eq!(sim.hosts[0].executed.len(), 1);
    assert_eq!(sim.hosts[0].executed[0].time.ns, 500 * MILLI);

    let errors = sim.finish();
    assert_eq!(errors, 0);
    assert!(sim.hosts[0].is_shutdown);
}

#[test]
fn cross_traffic_lands_at_exactly_the_latency() {
    // A sends at t=0 with a 10 ms delay; B receives at exactly t = 10 ms
    let a_events = vec![InitialEvent {
        time_ns: 0,
        payload: EventPayload::Send { dst: 1, delay: SimulationTime { ns: 10 * MILLI }, kind: 7 },
    }];
    let cfg = config(
        vec![host("alice", 0x0a000001, a_events), host("bob", 0x0a000002, vec![])],
        10 * MILLI,
    );
    let mut opts = options();
    opts.parallelism = 2;
    let mut m = Manager::new(cfg, opts, EmulatedTime { ns: SECOND }, probes()).unwrap();
    let mut rc = RunControlState::new();
    let mut sim = m.start_run(&vec![], 2).unwrap();

    // window 1: A fires, the message goes in flight, folded next = 10 ms
    let out = sim.run_window(&mut rc);
    assert_eq!(out.t_next.ns, 10 * MILLI);
    assert_eq!(sim.hosts[0].executed.len(), 1);
    assert_eq!(sim.hosts[1].executed.len(), 0);

    // window 2 covers 10 ms: B's receipt fires at exactly 10 ms
    let out = sim.run_window(&mut rc);
    assert_eq!(sim.hosts[1].executed.len(), 1);
    assert_eq!(sim.hosts[1].executed[0].time.ns, 10 * MILLI);
    match sim.hosts[1].executed[0].payload {
        EventPayload::Local { kind } => assert_eq!(kind, 7),
        EventPayload::Send { .. } => panic!("a receipt is local work"),
    }
    assert!(out.finished);
}

#[test]
fn determinism_across_parallelism_and_shuffle() {
    // identical configuration; different parallelism and a different
    // shuffle seed must produce identical per-host event sequences
    let make = |seed: u64, parallelism: u32| {
        let a_events = vec![
            InitialEvent { time_ns: 0, payload: EventPayload::Send { dst: 1, delay: SimulationTime { ns: 10 * MILLI }, kind: 1 } },
            InitialEvent { time_ns: 5 * MILLI, payload: EventPayload::Local { kind: 2 } },
        ];
        let b_events = vec![
            InitialEvent { time_ns: 3 * MILLI, payload: EventPayload::Send { dst: 0, delay: SimulationTime { ns: 12 * MILLI }, kind: 3 } },
        ];
        let mut cfg = config(
            vec![host("alice", 0x0a000001, a_events), host("bob", 0x0a000002, b_events)],
            10 * MILLI,
        );
        cfg.random_seed = seed;
        let mut opts = options();
        opts.parallelism = parallelism;
        let mut m = Manager::new(cfg, opts, EmulatedTime { ns: SECOND }, probes()).unwrap();
        let mut rc = RunControlState::new();
        let mut sim = m.start_run(&vec![], 4).unwrap();
        loop {
            let out = sim.run_window(&mut rc);
            if out.finished {
                break;
            }
        }
        let logs: Vec<Vec<(u32, u64, u64)>> = sim
            .hosts
            .iter()
            .map(|h| {
                h.executed
                    .iter()
                    .map(|e| {
                        let kind = match e.payload {
                            EventPayload::Local { kind } => kind,
                            EventPayload::Send { kind, .. } => kind,
                        };
                        (h.params.id, e.time.ns, kind)
                    })
                    .collect()
            })
            .collect();
        logs
    };
    let run1 = make(1, 1);
    let run2 = make(987654321, 2);
    assert_eq!(run1, run2);
}

#[test]
fn pause_step_continue_walkthrough() {
    // an interactive session: start paused, single-step one window, grant a
    // 10 s budget, then run to completion
    let events = vec![
        InitialEvent { time_ns: 5 * SECOND, payload: EventPayload::Local { kind: 1 } },
        InitialEvent { time_ns: 12 * SECOND, payload: EventPayload::Local { kind: 2 } },
        InitialEvent { time_ns: 30 * SECOND, payload: EventPayload::Local { kind: 3 } },
    ];
    let cfg = config(vec![host("alice", 0x0a000001, events)], 1);
    let mut m = Manager::new(cfg, options(), EmulatedTime { ns: 40 * SECOND }, probes()).unwrap();
    let mut rc = RunControlState::new();
    let mut sim = m.start_run(&vec![], 1).unwrap();

    // with a terminal, the driver pauses at t = 0
    assert!(rc.start_pause(true));
    // `n`: run exactly one window and pause again
    rc.apply_command(Command::StepWindow);
    assert!(!rc.paused);
    let out = sim.run_window(&mut rc);
    assert!(out.pause_now);
    assert!(rc.paused);
    assert_eq!(out.t_next.ns, 5 * SECOND);

    // `c10`: resume; the budget converts at the next boundary, and the
    // driver pauses at the first boundary whose next event passes it
    rc.apply_command(Command::ContinueFor { secs: 10 });
    let out = sim.run_window(&mut rc);
    // budget converts at this boundary: deadline 12 s + 10 s = 22 s
    assert!(!out.pause_now);
    assert_eq!(out.t_next.ns, 12 * SECOND);
    assert_eq!(rc.run_until_abs_ns, 22 * SECOND);
    let out = sim.run_window(&mut rc);
    // 30 s >= 22 s: the driver pauses here
    assert!(out.pause_now);
    assert_eq!(out.t_next.ns, 30 * SECOND);

    // `c`: run to completion
    rc.apply_command(Command::Continue);
    let out = sim.run_window(&mut rc);
    assert!(out.finished);
    assert_eq!(sim.hosts[0].executed.len(), 3);
    assert_eq!(sim.finish(), 0);
}

#[test]
fn restart_with_deadline_re_enters_fresh() {
    // `r5` during a run: the driver unwinds; the supervisor re-enters with
    // a fresh state and a pre-loaded 5 s deadline and no start pause
    let events = vec![
        InitialEvent { time_ns: 2 * SECOND, payload: EventPayload::Local { kind: 1 } },
        InitialEvent { time_ns: 7 * SECOND, payload: EventPayload::Local { kind: 2 } },
    ];
    let make_manager = || {
        let cfg = config(vec![host("alice", 0x0a000001, events.clone())], 1);
        Manager::new(cfg, options(), EmulatedTime { ns: 10 * SECOND }, probes()).unwrap()
    };

    let mut m = make_manager();
    let mut rc = RunControlState::new();
    let mut slot = RestartSlot::new();
    rc.reset_for_run(slot.take());
    let mut sim = m.start_run(&vec![], 1).unwrap();
    let _ = rc.start_pause(true);
    rc.apply_command(Command::Continue);
    // mid-run the operator types `r5`
    rc.apply_command(Command::RestartRunUntil { secs: 5 });
    let out = sim.run_window(&mut rc);
    assert_eq!(out.restart, Some(5 * SECOND));
    assert!(out.finished);
    let _ = sim.finish();
    // surface the request to the supervisor
    set_restart_run_until(&mut slot, Some(5 * SECOND));
    drop(sim);

    // the new run: fresh state, deadline pre-loaded, no start pause
    let mut m = make_manager();
    rc.reset_for_run(slot.take());
    assert_eq!(rc.run_until_abs_ns, 5 * SECOND);
    let mut sim = m.start_run(&vec![], 1).unwrap();
    assert!(!rc.start_pause(true));
    // host identities are reassigned by the same deterministic rule
    assert_eq!(sim.hosts[0].params.id, 0);
    assert_eq!(sim.hosts[0].executed.len(), 0);
    // window 1: [0,1); then the 2 s event runs; at that boundary the next
    // event (7 s) passes the 5 s deadline: pause without a new `c10`
    let out = sim.run_window(&mut rc);
    assert!(!out.pause_now);
    let out = sim.run_window(&mut rc);
    assert_eq!(out.t_next.ns, 7 * SECOND);
    assert!(out.pause_now);
}

#[test]
fn setup_rejects_bad_configuration() {
    // IPv6 host
    let mut bad = host("alice", 0, vec![]);
    bad.ip = HostIp::V6;
    let mut m = Manager::new(
        config(vec![bad], 1),
        options(),
        EmulatedTime { ns: SECOND },
        probes(),
    )
    .unwrap();
    match m.start_run(&vec![], 1) {
        Err(e) => assert_eq!(e, SetupError::Ipv6NotSupported { host_index: 0 }),
        Ok(_) => panic!("expected an ipv6 rejection"),
    }

    // duplicate host name
    let mut m = Manager::new(
        config(
            vec![host("dup", 1, vec![]), host("dup", 2, vec![])],
            1,
        ),
        options(),
        EmulatedTime { ns: SECOND },
        probes(),
    )
    .unwrap();
    match m.start_run(&vec![], 1) {
        Err(SetupError::DnsConflict { host_index, .. }) => assert_eq!(host_index, 1),
        _ => panic!("expected a dns conflict"),
    }

    // a message delay under the smallest latency would break causality
    let early = vec![InitialEvent {
        time_ns: 0,
        payload: EventPayload::Send { dst: 0, delay: SimulationTime { ns: 1 }, kind: 0 },
    }];
    let mut m = Manager::new(
        config(vec![host("alice", 1, early)], 10 * MILLI),
        options(),
        EmulatedTime { ns: SECOND },
        probes(),
    )
    .unwrap();
    match m.start_run(&vec![], 1) {
        Err(e) => assert_eq!(e, SetupError::MessageDelayTooSmall { host_index: 0 }),
        Ok(_) => panic!("expected a causality rejection"),
    }

    // a message to a host that does not exist
    let stray = vec![InitialEvent {
        time_ns: 0,
        payload: EventPayload::Send { dst: 9, delay: SimulationTime { ns: 10 * MILLI }, kind: 0 },
    }];
    let mut m = Manager::new(
        config(vec![host("alice", 1, stray)], 10 * MILLI),
        options(),
        EmulatedTime { ns: SECOND },
        probes(),
    )
    .unwrap();
    match m.start_run(&vec![], 1) {
        Err(e) => assert_eq!(e, SetupError::MessageDestinationInvalid { host_index: 0 }),
        Ok(_) => panic!("expected a destination rejection"),
    }
}

#[test]
fn new_checks_the_preload_libraries() {
    let mut p = probes();
    p.preload_injector_path = None;
    let r = Manager::new(config(vec![], 1), options(), EmulatedTime { ns: SECOND }, p);
    assert!(r.is_err());

    let mut p = probes();
    p.preload_injector_path = Some(b"/path with space/lib.so".to_vec());
    let r = Manager::new(config(vec![], 1), options(), EmulatedTime { ns: SECOND }, p);
    assert!(r.is_err());

    // a missing optional library only matters when its option is on
    let mut o = options();
    o.use_preload_libc = true;
    let r = Manager::new(config(vec![], 1), o, EmulatedTime { ns: SECOND }, probes());
    assert!(r.is_err());
}

#[test]
fn cpuid_emulation_decision_reaches_the_shmem() {
    let mut p = probes();
    p.supports_rdrand = true;
    p.can_intercept_cpuid = true;
    let m = Manager::new(config(vec![], 1), options(), EmulatedTime { ns: SECOND }, p).unwrap();
    assert!(m.shmem().emulate_cpuid);

    let mut p = probes();
    p.supports_rdrand = true;
    p.can_intercept_cpuid = false;
    let m = Manager::new(config(vec![], 1), options(), EmulatedTime { ns: SECOND }, p).unwrap();
    assert!(!m.shmem().emulate_cpuid);
}

#[test]
fn batch_run_never_pauses() {
    let events = vec![
        InitialEvent { time_ns: 100, payload: EventPayload::Local { kind: 1 } },
        InitialEvent { time_ns: 900, payload: EventPayload::Local { kind: 2 } },
    ];
    let cfg = config(vec![host("alice", 1, events)], 1);
    let m = Manager::new(cfg, options(), EmulatedTime { ns: 1000 }, probes()).unwrap();
    let mut rc = RunControlState::new();
    let mut slot = RestartSlot::new();
    let errors = m.run(&mut rc, &mut slot, &vec![], 2).unwrap();
    assert_eq!(errors, 0);
    assert!(!rc.paused);
}

#[test]
fn preload_errors_name_the_first_failing_library() {
    // an unusable injector path wins over a missing optional library
    let mut p = probes();
    p.preload_injector_path = Some(b"/bad path/lib.so".to_vec());
    let mut o = options();
    o.use_preload_libc = true;
    match Manager::new(config(vec![], 1), o, EmulatedTime { ns: SECOND }, p) {
        Err(SetupError::PreloadPathUnusable { lib }) => assert_eq!(lib, PreloadLib::Injector),
        _ => panic!("expected the injector path to be rejected first"),
    }

    // with the injector fine, the libc library is checked next, then the
    // openssl libraries in order
    let mut o = options();
    o.use_preload_libc = true;
    o.use_preload_openssl_rng = true;
    match Manager::new(config(vec![], 1), o, EmulatedTime { ns: SECOND }, probes()) {
        Err(SetupError::MissingPreloadLibrary { lib }) => assert_eq!(lib, PreloadLib::Libc),
        _ => panic!("expected the libc library to be reported missing"),
    }

    let mut p = probes();
    p.preload_libc_path = Some(b"/usr/lib/libshadow_libc.so".to_vec());
    p.preload_openssl_rng_path = Some(b"/usr/lib/with colon:.so".to_vec());
    let mut o = options();
    o.use_preload_libc = true;
    o.use_preload_openssl_rng = true;
    match Manager::new(config(vec![], 1), o, EmulatedTime { ns: SECOND }, p) {
        Err(SetupError::PreloadPathUnusable { lib }) => assert_eq!(lib, PreloadLib::OpensslRng),
        _ => panic!("expected the rng path to be rejected"),
    }
}

#[test]
fn seeding_stamps_events_in_configuration_order() {
    // events configured out of time order: stamps follow the configuration,
    // the queue follows the time order
    let events = vec![
        InitialEvent { time_ns: 500 * MILLI, payload: EventPayload::Local { kind: 1 } },
        InitialEvent { time_ns: 100 * MILLI, payload: EventPayload::Local { kind: 2 } },
    ];
    let cfg = config(vec![host("alice", 1, events)], 1);
    let mut m = Manager::new(cfg, options(), EmulatedTime { ns: SECOND }, probes()).unwrap();
    let mut sim = m.start_run(&vec![], 1).unwrap();
    assert_eq!(sim.next_seq, 2);
    assert_eq!(sim.hosts[0].queue.len(), 2);
    let first = sim.hosts[0].queue.pop().unwrap();
    let second = sim.hosts[0].queue.pop().unwrap();
    assert_eq!((first.time.ns, first.seq), (100 * MILLI, 1));
    assert_eq!((second.time.ns, second.seq), (500 * MILLI, 0));
}

#[test]
fn run_succeeds_exactly_on_a_sound_configuration() {
    // sound: two hosts, distinct names and addresses, safe delays
    let ok_events = vec![InitialEvent {
        time_ns: 0,
        payload: EventPayload::Send { dst: 1, delay: SimulationTime { ns: 10 * MILLI }, kind: 0 },
    }];
    let cfg = config(
        vec![host("alice", 1, ok_events), host("bob", 2, vec![])],
        10 * MILLI,
    );
    let m = Manager::new(cfg, options(), EmulatedTime { ns: SECOND }, probes()).unwrap();
    let mut rc = RunControlState::new();
    let mut slot = RestartSlot::new();
    assert_eq!(m.run(&mut rc, &mut slot, &vec![], 2), Ok(0));

    // unsound: a message under the smallest latency; run refuses it
    let bad_events = vec![InitialEvent {
        time_ns: 0,
        payload: EventPayload::Send { dst: 0, delay: SimulationTime { ns: 1 }, kind: 0 },
    }];
    let cfg = config(vec![host("alice", 1, bad_events)], 10 * MILLI);
    let m = Manager::new(cfg, options(), EmulatedTime { ns: SECOND }, probes()).unwrap();
    let mut rc = RunControlState::new();
    let mut slot = RestartSlot::new();
    assert_eq!(
        m.run(&mut rc, &mut slot, &vec![], 2),
        Err(SetupError::MessageDelayTooSmall { host_index: 0 })
    );

    // a second run on the same manager has no configuration left
    // (the first consumed it), so `run` answers `AlreadyRan`
    let cfg = config(vec![], 1);
    let mut m = Manager::new(cfg, options(), EmulatedTime { ns: SECOND }, probes()).unwrap();
    let _ = m.start_run(&vec![], 1).unwrap();
    let mut rc = RunControlState::new();
    let mut slot = RestartSlot::new();
    assert_eq!(m.run(&mut rc, &mut slot, &vec![], 2), Err(SetupError::AlreadyRan));
}
