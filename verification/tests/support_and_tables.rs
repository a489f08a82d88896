use shadow_driver::dns::{DnsBuilder, DnsError};
use shadow_driver::inotify::{SyscallContext, SyscallHandler, IN_CLOEXEC, IN_NONBLOCK};
use shadow_driver::namespace::{PathnameUnixNamespace, UnixSocketType};
use shadow_driver::sched::{cpu_assignment, effective_parallelism, shuffled_order};
use shadow_driver::simtime::{EmulatedTime, SimulationTime};
use shadow_driver::support::{
    emulate_cpuid_decision, fd_usage_exceeded, format_time_s, heartbeat_due, memory_low,
    memory_remaining_bytes, preload_path_usable, raw_frequency_from_khz, u64_to_string,
    ResourceChecks,
};

#[test]
fn decimal_rendering() {
    assert_eq!(u64_to_string(0), "0");
    assert_eq!(u64_to_string(7), "7");
    assert_eq!(u64_to_string(1000), "1000");
    assert_eq!(u64_to_string(u64::MAX), "18446744073709551615");
}

#[test]
fn times_format_as_seconds() {
    // whole seconds print bare, others as fixed six-decimal seconds
    assert_eq!(format_time_s(0), "0s");
    assert_eq!(format_time_s(12_000_000_000), "12s");
    assert_eq!(format_time_s(1_500_000_000), "1.500000s");
    assert_eq!(format_time_s(1), "0.000000s");
    assert_eq!(format_time_s(500), "0.000001s");
    assert_eq!(format_time_s(1_999_999_900), "2.000000s");
}

#[test]
fn heartbeat_is_due_strictly_after_the_interval() {
    let t = |ns| EmulatedTime { ns };
    let iv = SimulationTime { ns: 10 };
    assert!(!heartbeat_due(t(10), t(0), iv));
    assert!(heartbeat_due(t(11), t(0), iv));
    assert!(!heartbeat_due(t(5), t(u64::MAX - 3), iv));
}

#[test]
fn resource_decisions() {
    assert!(!fd_usage_exceeded(90, 100));
    assert!(fd_usage_exceeded(91, 100));
    assert!(memory_low(500 * 1024 * 1024 - 1));
    assert!(!memory_low(500 * 1024 * 1024));
    assert_eq!(memory_remaining_bytes(4096, 1000), 4_096_000);
    assert_eq!(raw_frequency_from_khz(2_800_000), 2_800_000_000);
    assert!(emulate_cpuid_decision(true, false, true));
    assert!(!emulate_cpuid_decision(false, false, true));
    assert!(!emulate_cpuid_decision(true, true, false));
}

#[test]
fn failed_probes_disarm_themselves() {
    let mut checks = ResourceChecks::new();
    assert!(!checks.apply_fd_probe(Some((10, 100))));
    assert!(checks.check_fd_usage);
    assert!(checks.apply_fd_probe(Some((95, 100))));
    assert!(!checks.check_fd_usage);
    // once disarmed, nothing more is reported
    assert!(!checks.apply_fd_probe(Some((99, 100))));

    let mut checks = ResourceChecks::new();
    assert!(checks.apply_mem_probe(None));
    assert!(!checks.check_mem_usage);
    assert!(!checks.apply_mem_probe(Some(0)));
}

#[test]
fn preload_paths_reject_separator_bytes() {
    assert!(preload_path_usable(&b"/usr/lib/libshadow.so".to_vec()));
    assert!(!preload_path_usable(&b"/usr/my lib/libshadow.so".to_vec()));
    assert!(!preload_path_usable(&b"/usr:lib/libshadow.so".to_vec()));
}

#[test]
fn dns_registration_rejects_duplicates() {
    let mut b = DnsBuilder::new();
    b.register(0, 0x0a000001, "alice".to_string()).unwrap();
    assert_eq!(
        b.register(1, 0x0a000002, "alice".to_string()),
        Err(DnsError::DuplicateName)
    );
    assert_eq!(
        b.register(1, 0x0a000001, "bob".to_string()),
        Err(DnsError::DuplicateAddress)
    );
    b.register(1, 0x0a000002, "bob".to_string()).unwrap();
    let dns = b.into_dns();
    let i = dns.lookup_name(&"bob".to_string()).unwrap();
    assert_eq!(dns.entries[i].id, 1);
    assert_eq!(dns.entries[i].addr, 0x0a000002);
    assert!(dns.lookup_name(&"carol".to_string()).is_none());
    let i = dns.lookup_addr(0x0a000001).unwrap();
    assert_eq!(dns.entries[i].id, 0);
    assert!(dns.lookup_addr(0x0a000003).is_none());
}

#[test]
fn shuffle_is_a_seeded_permutation() {
    let order = shuffled_order(16, 42);
    assert_eq!(order.len(), 16);
    let mut seen = vec![false; 16];
    for &v in order.iter() {
        assert!((v as usize) < 16);
        assert!(!seen[v as usize]);
        seen[v as usize] = true;
    }
    // the same seed reproduces the order; the shuffle actually moved things
    assert_eq!(order, shuffled_order(16, 42));
    let identity: Vec<u32> = (0..16).collect();
    assert_ne!(order, identity);
    assert_ne!(shuffled_order(16, 43), order);
}

#[test]
fn parallelism_and_pinning() {
    assert_eq!(effective_parallelism(0, 8, 100), 8);
    assert_eq!(effective_parallelism(4, 8, 100), 4);
    assert_eq!(effective_parallelism(4, 8, 2), 2);
    assert_eq!(effective_parallelism(0, 8, 0), 0);

    let cpus = cpu_assignment(true, &vec![3, 5, 7], 2);
    assert_eq!(cpus, vec![Some(3), Some(5)]);
    let cpus = cpu_assignment(false, &vec![], 3);
    assert_eq!(cpus, vec![None, None, None]);
}

#[test]
fn namespace_bind_lookup_unbind() {
    let mut ns = PathnameUnixNamespace::new();
    ns.bind(UnixSocketType::Stream, b"/tmp/sock".to_vec(), 11).unwrap();
    // the same path in another type's namespace is independent
    ns.bind(UnixSocketType::Dgram, b"/tmp/sock".to_vec(), 22).unwrap();
    assert_eq!(
        ns.bind(UnixSocketType::Stream, b"/tmp/sock".to_vec(), 33),
        Err(())
    );
    assert_eq!(ns.lookup(UnixSocketType::Stream, &b"/tmp/sock".to_vec()), Some(11));
    assert_eq!(ns.lookup(UnixSocketType::Dgram, &b"/tmp/sock".to_vec()), Some(22));
    assert_eq!(ns.lookup(UnixSocketType::SeqPacket, &b"/tmp/sock".to_vec()), None);

    ns.unbind(UnixSocketType::Stream, &b"/tmp/sock".to_vec()).unwrap();
    assert_eq!(ns.lookup(UnixSocketType::Stream, &b"/tmp/sock".to_vec()), None);
    assert_eq!(ns.unbind(UnixSocketType::Stream, &b"/tmp/sock".to_vec()), Err(()));
}

#[test]
fn closing_a_socket_drops_its_binding() {
    let mut ns = PathnameUnixNamespace::default();
    ns.bind(UnixSocketType::SeqPacket, b"/tmp/a".to_vec(), 5).unwrap();
    ns.on_socket_close(UnixSocketType::SeqPacket, &b"/tmp/a".to_vec());
    assert_eq!(ns.lookup(UnixSocketType::SeqPacket, &b"/tmp/a".to_vec()), None);
    // closing again is harmless
    ns.on_socket_close(UnixSocketType::SeqPacket, &b"/tmp/a".to_vec());
}

#[test]
fn inotify_maps_flags_onto_an_eventfd() {
    let mut ctx = SyscallContext { next_descriptor: 0 };
    let h = SyscallHandler::inotify_init1(&mut ctx, IN_NONBLOCK | IN_CLOEXEC).unwrap();
    assert_eq!(h.fd, 0);
    let h = SyscallHandler::inotify_init1(&mut ctx, 0).unwrap();
    assert_eq!(h.fd, 1);
    assert_eq!(ctx.next_descriptor, 2);

    assert_eq!(SyscallHandler::inotify_add_watch(&mut ctx, 0, 0, 0), Ok(1));
    assert_eq!(SyscallHandler::inotify_rm_watch(&mut ctx, 0, 1), Ok(0));
}

#[test]
fn simulated_time_arithmetic_saturates() {
    let start = EmulatedTime::simulation_start();
    assert_eq!(start.ns, 0);
    let t = start.saturating_add(SimulationTime::from_nanos(250));
    assert_eq!(t.ns, 250);
    assert!(start.is_before(t));
    assert_eq!(t.duration_since(start).ns, 250);
    assert_eq!(t.min_with(start).ns, 0);

    let near_max = EmulatedTime::from_nanos_since_start(u64::MAX - 10);
    assert_eq!(near_max.saturating_add(SimulationTime::from_nanos(100)).ns, u64::MAX);
    assert_eq!(EmulatedTime::max_time().ns, u64::MAX);
    assert_eq!(SimulationTime::from_secs_saturating(3).ns, 3_000_000_000);
    assert_eq!(SimulationTime::from_secs_saturating(u64::MAX).ns, u64::MAX);
}
