//! The driver: setup, the window pump, and teardown.
//!
//! A `Manager` is built once from the processed configuration and the
//! machine probes; `run` assigns host ids by enumeration order, registers
//! every host in the DNS, builds and seeds the hosts, shuffles them with a
//! seeded generator, then pumps simulated-time windows until the controller
//! declines to issue another or a restart is requested.

use vstd::prelude::*;
use crate::simtime::EmulatedTime;
use crate::simtime::SimulationTime;
use crate::simtime::sat_add_ns;
use crate::dns::Dns;
use crate::dns::DnsBuilder;
use crate::dns::DnsError;
use crate::host::Host;
use crate::host::HostInfo;
use crate::host::HostIp;
use crate::host::HostParameters;
use crate::host::InitialEvent;
use crate::event_queue::Event;
use crate::event_queue::EventPayload;
use crate::event_queue::sorted_events;
use crate::host::OutboundMsg;
use crate::host::drained_of;
use crate::host::rest_of;
use crate::host::msgs_of;
use crate::host::times_of;
use vstd::multiset::Multiset;
use crate::run_control::RunControlState;
use crate::support::preload_path_usable;
use crate::support::preload_path_ok;
use crate::support::emulate_cpuid_decision;

verus! {

/// The probes of the machine the simulation runs on, gathered by the
/// process around the driver and handed in as plain values.
pub struct SetupProbes {
    /// The kernel's maximum CPU frequency reading, in kHz, if it could be read.
    pub raw_cpu_khz: Option<u64>,
    /// The native time-stamp-counter frequency, in Hz, if it could be found.
    pub native_tsc_hz: Option<u64>,
    /// Whether the CPU advertises `rdrand`.
    pub supports_rdrand: bool,
    /// Whether the CPU advertises `rdseed`.
    pub supports_rdseed: bool,
    /// Whether the platform can intercept `cpuid`.
    pub can_intercept_cpuid: bool,
    /// When the logger started, in microseconds since the epoch.
    pub log_start_time_micros: i64,
    /// The discovered path of the injector preload library, as bytes.
    pub preload_injector_path: Option<Vec<u8>>,
    /// The discovered path of the libc preload library, as bytes.
    pub preload_libc_path: Option<Vec<u8>>,
    /// The discovered path of the openssl rng preload library, as bytes.
    pub preload_openssl_rng_path: Option<Vec<u8>>,
    /// The discovered path of the openssl crypto preload library, as bytes.
    pub preload_openssl_crypto_path: Option<Vec<u8>>,
}

/// The configuration options the driver reads.
pub struct ConfigOptions {
    /// Worker count; zero means one per physical core.
    pub parallelism: u32,
    /// How long the bootstrap phase lasts.
    pub bootstrap_end_time: SimulationTime,
    /// How often to emit a heartbeat line, if at all.
    pub heartbeat_interval: Option<SimulationTime>,
    /// Whether workers are pinned to CPUs.
    pub use_cpu_pinning: bool,
    /// Whether to preload the libc library.
    pub use_preload_libc: bool,
    /// Whether to preload the openssl rng library.
    pub use_preload_openssl_rng: bool,
    /// Whether to preload the openssl crypto library.
    pub use_preload_openssl_crypto: bool,
    /// Whether guest preemption is enabled.
    pub native_preemption_enabled: bool,
    /// Real time between preemptions, in nanoseconds.
    pub native_preemption_native_interval_ns: u64,
    /// Simulated time charged per preemption.
    pub native_preemption_sim_interval: SimulationTime,
}

/// The per-run configuration handed to the driver.
pub struct ManagerConfig {
    /// Seed of the run's deterministic randomness (host shuffling).
    pub random_seed: u64,
    /// The smallest routing latency between any two hosts, in nanoseconds;
    /// the safe upper bound for a window's size.
    pub smallest_latency: SimulationTime,
    /// The hosts, in enumeration order; this order assigns the ids.
    pub hosts: Vec<HostInfo>,
}

/// The driver's shared-memory block, visible to every guest.
pub struct ManagerShmem {
    /// When the logger started, microseconds since the epoch.
    pub log_start_time_micros: i64,
    /// The preemption intervals, when preemption is on.
    pub native_preemption_config: Option<(u64, SimulationTime)>,
    /// Whether the shim emulates `cpuid`.
    pub emulate_cpuid: bool,
}

/// Which preload library a setup error is about.
#[derive(Clone, Copy, Debug, PartialEq, Eq, Structural)]
pub enum PreloadLib {
    /// The injector library, always required.
    Injector,
    /// The libc interposition library.
    Libc,
    /// The openssl rng interposition library.
    OpensslRng,
    /// The openssl crypto interposition library.
    OpensslCrypto,
}

/// A fatal setup failure: the driver never starts.
#[derive(Clone, Copy, Debug, PartialEq, Eq, Structural)]
pub enum SetupError {
    /// A required preload library was not found.
    MissingPreloadLibrary { lib: PreloadLib },
    /// A preload library path holds a space or colon, unusable in the
    /// preload environment variable.
    PreloadPathUnusable { lib: PreloadLib },
    /// A host is configured with an IPv6 address.
    Ipv6NotSupported { host_index: usize },
    /// Two hosts share a name or an address.
    DnsConflict { host_index: usize, error: DnsError },
    /// A configured message's delay lies under the smallest routing
    /// latency, which would break window causality.
    MessageDelayTooSmall { host_index: usize },
    /// A configured message addresses a host that does not exist.
    MessageDestinationInvalid { host_index: usize },
    /// The run would consume more event stamps than exist: one per
    /// configured event, plus one per send for the message it may emit.
    EventStampsExhausted,
    /// `run` was called twice on one manager.
    AlreadyRan,
}

/// The default CPU frequency assumed when the kernel reading is missing.
pub const DEFAULT_CPU_HZ: u64 = 2_500_000_000;

/// The process-wide read-mostly table workers share: frozen DNS, the window
/// policy inputs, the end times, and the plugin-error counter.
pub struct WorkerShared {
    /// The frozen DNS.
    pub dns: Dns,
    /// The smallest inter-host routing latency.
    pub smallest_latency: SimulationTime,
    /// When the bootstrap phase ends.
    pub bootstrap_end_time: EmulatedTime,
    /// When the simulation ends.
    pub sim_end_time: EmulatedTime,
    /// How many plugin-side errors guests have caused; only grows.
    pub num_plugin_errors: u32,
}

impl WorkerShared {
    /// Counts one plugin-side error; the count only grows, saturating.
    pub fn increment_plugin_error_count(&mut self)
        ensures
            final(self).num_plugin_errors == if old(self).num_plugin_errors < u32::MAX {
                old(self).num_plugin_errors + 1
            } else {
                u32::MAX as int
            },
            *final(self) == (WorkerShared {
                num_plugin_errors: final(self).num_plugin_errors,
                ..*old(self)
            }),
    {
        if self.num_plugin_errors < u32::MAX {
            self.num_plugin_errors = self.num_plugin_errors + 1;
        }
    }

    /// The number of plugin-side errors so far.
    pub fn plugin_error_count(&self) -> (r: u32)
        ensures
            r == self.num_plugin_errors,
    {
        self.num_plugin_errors
    }
}

/// The oracle deciding each window: given the folded next-event time, the
/// next window runs from the previous end to one runahead past that time,
/// clipped to the end of the simulation; no window is issued once the next
/// event lies at or past the end.
pub struct Controller {
    /// When the simulation ends.
    pub end_time: EmulatedTime,
    /// The window size granted past the next event; at most the smallest
    /// routing latency, so windows stay causally safe.
    pub runahead: SimulationTime,
}

impl Controller {
    /// The window this controller answers with.
    pub open spec fn next_window_spec(self, prev_end_ns: u64, t_next_ns: u64) -> Option<
        (u64, u64),
    > {
        if t_next_ns >= self.end_time.ns {
            None
        } else {
            let e = sat_add_ns(t_next_ns, self.runahead.ns);
            Some(
                (
                    prev_end_ns,
                    if e <= self.end_time.ns {
                        e
                    } else {
                        self.end_time.ns
                    },
                ),
            )
        }
    }

    /// Called at each boundary with the folded next-event time; `None`
    /// terminates the run. Issued windows are non-empty, non-overlapping,
    /// start at the previous end, and reach at most one runahead past the
    /// next event.
    pub fn round_finished(&self, prev_end: EmulatedTime, t_next: EmulatedTime) -> (w: Option<
        (EmulatedTime, EmulatedTime),
    >)
        requires
            prev_end.ns <= t_next.ns,
            self.runahead.ns >= 1,
        ensures
            w is None <==> t_next.ns >= self.end_time.ns,
            w matches Some((s, e)) ==> {
                &&& Some((s.ns, e.ns)) == self.next_window_spec(prev_end.ns, t_next.ns)
                &&& s == prev_end
                &&& s.ns <= t_next.ns < e.ns
                &&& e.ns <= sat_add_ns(t_next.ns, self.runahead.ns)
                &&& e.ns <= self.end_time.ns
            },
    {
        if t_next.ns >= self.end_time.ns {
            None
        } else {
            let e = t_next.saturating_add(self.runahead);
            let e = e.min_with(self.end_time);
            Some((prev_end, e))
        }
    }
}

/// The first preload fault in preload order — injector, then libc, then
/// openssl rng, then openssl crypto — or `None` when every required
/// library was found with a usable path.
pub open spec fn preload_fault(config: ConfigOptions, probes: SetupProbes) -> Option<SetupError> {
    if probes.preload_injector_path is None {
        Some(SetupError::MissingPreloadLibrary { lib: PreloadLib::Injector })
    } else if !preload_path_ok(probes.preload_injector_path->Some_0@) {
        Some(SetupError::PreloadPathUnusable { lib: PreloadLib::Injector })
    } else if config.use_preload_libc && probes.preload_libc_path is None {
        Some(SetupError::MissingPreloadLibrary { lib: PreloadLib::Libc })
    } else if config.use_preload_libc && !preload_path_ok(probes.preload_libc_path->Some_0@) {
        Some(SetupError::PreloadPathUnusable { lib: PreloadLib::Libc })
    } else if config.use_preload_openssl_rng && probes.preload_openssl_rng_path is None {
        Some(SetupError::MissingPreloadLibrary { lib: PreloadLib::OpensslRng })
    } else if config.use_preload_openssl_rng && !preload_path_ok(
        probes.preload_openssl_rng_path->Some_0@,
    ) {
        Some(SetupError::PreloadPathUnusable { lib: PreloadLib::OpensslRng })
    } else if config.use_preload_openssl_crypto && probes.preload_openssl_crypto_path is None {
        Some(SetupError::MissingPreloadLibrary { lib: PreloadLib::OpensslCrypto })
    } else if config.use_preload_openssl_crypto && !preload_path_ok(
        probes.preload_openssl_crypto_path->Some_0@,
    ) {
        Some(SetupError::PreloadPathUnusable { lib: PreloadLib::OpensslCrypto })
    } else {
        None
    }
}

/// The driver for one simulation process.
pub struct Manager {
    /// The per-run configuration; taken when the run starts.
    pub manager_config: Option<ManagerConfig>,
    /// The options read from the processed configuration.
    pub config: ConfigOptions,
    /// The experiment machine's CPU frequency, Hz.
    pub raw_frequency: u64,
    /// The native time-stamp-counter frequency, Hz.
    pub native_tsc_frequency: u64,
    /// When the simulation ends.
    pub end_time: EmulatedTime,
    /// The validated preload library paths, in preload order.
    pub preload_paths: Vec<Vec<u8>>,
    /// Whether the file-descriptor probe is still armed.
    pub check_fd_usage: bool,
    /// Whether the memory probe is still armed.
    pub check_mem_usage: bool,
    /// The shared-memory block handed to every guest.
    pub shmem: ManagerShmem,
}

impl Manager {
    /// Builds the driver from configuration and machine probes.
    ///
    /// The injector preload library is always required; the optional ones
    /// only when their options are on. Each discovered path must be usable
    /// in the preload environment variable. `cpuid` is emulated exactly when
    /// the CPU advertises a nondeterministic random instruction and the
    /// platform can intercept `cpuid`.
    pub fn new(
        manager_config: ManagerConfig,
        config: ConfigOptions,
        end_time: EmulatedTime,
        probes: SetupProbes,
    ) -> (r: Result<Manager, SetupError>)
        requires
            probes.raw_cpu_khz matches Some(khz) ==> khz * 1000 <= u64::MAX,
        ensures
            r matches Ok(m) ==> {
                &&& m.manager_config == Some(manager_config)
                &&& m.config == config
                &&& m.end_time == end_time
                &&& m.raw_frequency == match probes.raw_cpu_khz {
                    Some(khz) => khz * 1000,
                    None => DEFAULT_CPU_HZ as int,
                }
                &&& m.native_tsc_frequency == match probes.native_tsc_hz {
                    Some(hz) => hz as int,
                    None => m.raw_frequency as int,
                }
                &&& m.check_fd_usage
                &&& m.check_mem_usage
                &&& m.shmem.log_start_time_micros == probes.log_start_time_micros
                &&& m.shmem.emulate_cpuid == ((probes.supports_rdrand || probes.supports_rdseed)
                    && probes.can_intercept_cpuid)
                &&& m.shmem.native_preemption_config == if config.native_preemption_enabled {
                    Some(
                        (
                            config.native_preemption_native_interval_ns,
                            config.native_preemption_sim_interval,
                        ),
                    )
                } else {
                    None::<(u64, SimulationTime)>
                }
                &&& m.preload_paths@.len() == 1 + (if config.use_preload_libc {
                    1int
                } else {
                    0int
                }) + (if config.use_preload_openssl_rng {
                    1int
                } else {
                    0int
                }) + (if config.use_preload_openssl_crypto {
                    1int
                } else {
                    0int
                })
                &&& m.preload_paths@[0]@ == probes.preload_injector_path->Some_0@
                &&& (config.use_preload_libc ==> m.preload_paths@[1]@
                    == probes.preload_libc_path->Some_0@)
                &&& (config.use_preload_openssl_rng ==> m.preload_paths@[1 + (if config.use_preload_libc {
                    1int
                } else {
                    0int
                })]@ == probes.preload_openssl_rng_path->Some_0@)
                &&& (config.use_preload_openssl_crypto ==> m.preload_paths@[1 + (if config.use_preload_libc {
                    1int
                } else {
                    0int
                }) + (if config.use_preload_openssl_rng {
                    1int
                } else {
                    0int
                })]@ == probes.preload_openssl_crypto_path->Some_0@)
            },
            (r is Ok) == (preload_fault(config, probes) is None),
            r matches Err(e) ==> Some(e) == preload_fault(config, probes),
    {
        let mut preload_paths: Vec<Vec<u8>> = Vec::new();

        let injector = match probes.preload_injector_path {
            Some(p) => p,
            None => {
                return Err(SetupError::MissingPreloadLibrary { lib: PreloadLib::Injector });
            },
        };
        if !preload_path_usable(&injector) {
            return Err(SetupError::PreloadPathUnusable { lib: PreloadLib::Injector });
        }
        preload_paths.push(injector);

        if config.use_preload_libc {
            let p = match probes.preload_libc_path {
                Some(p) => p,
                None => {
                    return Err(SetupError::MissingPreloadLibrary { lib: PreloadLib::Libc });
                },
            };
            if !preload_path_usable(&p) {
                return Err(SetupError::PreloadPathUnusable { lib: PreloadLib::Libc });
            }
            preload_paths.push(p);
        }
        if config.use_preload_openssl_rng {
            let p = match probes.preload_openssl_rng_path {
                Some(p) => p,
                None => {
                    return Err(SetupError::MissingPreloadLibrary { lib: PreloadLib::OpensslRng });
                },
            };
            if !preload_path_usable(&p) {
                return Err(SetupError::PreloadPathUnusable { lib: PreloadLib::OpensslRng });
            }
            preload_paths.push(p);
        }
        if config.use_preload_openssl_crypto {
            let p = match probes.preload_openssl_crypto_path {
                Some(p) => p,
                None => {
                    return Err(
                        SetupError::MissingPreloadLibrary { lib: PreloadLib::OpensslCrypto },
                    );
                },
            };
            if !preload_path_usable(&p) {
                return Err(SetupError::PreloadPathUnusable { lib: PreloadLib::OpensslCrypto });
            }
            preload_paths.push(p);
        }

        let raw_frequency = match probes.raw_cpu_khz {
            Some(khz) => crate::support::raw_frequency_from_khz(khz),
            None => DEFAULT_CPU_HZ,
        };
        let native_tsc_frequency = match probes.native_tsc_hz {
            Some(hz) => hz,
            None => raw_frequency,
        };
        let emulate_cpuid = emulate_cpuid_decision(
            probes.supports_rdrand,
            probes.supports_rdseed,
            probes.can_intercept_cpuid,
        );
        let shmem = ManagerShmem {
            log_start_time_micros: probes.log_start_time_micros,
            native_preemption_config: if config.native_preemption_enabled {
                Some((config.native_preemption_native_interval_ns, config.native_preemption_sim_interval))
            } else {
                None
            },
            emulate_cpuid,
        };
        Ok(
            Manager {
                manager_config: Some(manager_config),
                config,
                raw_frequency,
                native_tsc_frequency,
                end_time,
                preload_paths,
                check_fd_usage: true,
                check_mem_usage: true,
                shmem,
            },
        )
    }

    /// The driver's shared-memory block.
    pub fn shmem(&self) -> (r: &ManagerShmem)
        ensures
            r == self.shmem,
    {
        &self.shmem
    }

    /// Builds one host from its configured description and the assigned id,
    /// then adds its applications under the shared-memory guard.
    pub fn build_host(&self, host_id: u32, host_info: HostInfo) -> (h: Host)
        requires
            host_info.ip matches HostIp::V4 { .. },
        ensures
            h.params.id == host_id,
            h.params.cpu_frequency == self.raw_frequency,
            h.params.node_seed == host_info.seed,
            h.params.hostname == host_info.name,
            h.params.node_id == host_info.network_node_id,
            host_info.ip matches HostIp::V4 { bits } ==> h.params.ip_addr == bits,
            h.params.sim_end_time == self.end_time,
            h.params.requested_bw_down_bits == host_info.bandwidth_down_bits,
            h.params.requested_bw_up_bits == host_info.bandwidth_up_bits,
            h.params.native_tsc_frequency == self.native_tsc_frequency,
            h.applications@ == host_info.processes@,
            h.queue.wf(),
            h.queue@ == Seq::<crate::event_queue::Event>::empty(),
            h.queue.last_popped() == 0,
            h.executed@.len() == 0,
            h.outbox@.len() == 0,
            !h.shmem_locked,
            !h.is_shutdown,
    {
        let ip_addr = match host_info.ip {
            HostIp::V4 { bits } => bits,
            HostIp::V6 => 0,
        };
        let params = HostParameters {
            id: host_id,
            cpu_frequency: self.raw_frequency,
            node_seed: host_info.seed,
            hostname: host_info.name,
            node_id: host_info.network_node_id,
            ip_addr,
            sim_end_time: self.end_time,
            requested_bw_down_bits: host_info.bandwidth_down_bits,
            requested_bw_up_bits: host_info.bandwidth_up_bits,
            native_tsc_frequency: self.native_tsc_frequency,
        };
        let mut host = Host::new(params);
        host.lock_shmem();
        let mut procs = host_info.processes;
        let ghost all_procs = procs@;
        let ghost done: int = 0;
        while procs.len() > 0
            invariant
                host.applications@ + procs@ == all_procs,
                host.params.id == host_id,
                host.params.cpu_frequency == self.raw_frequency,
                host.params.node_seed == host_info.seed,
                host.params.hostname == host_info.name,
                host.params.node_id == host_info.network_node_id,
                host.params.ip_addr == ip_addr,
                host.params.sim_end_time == self.end_time,
                host.params.requested_bw_down_bits == host_info.bandwidth_down_bits,
                host.params.requested_bw_up_bits == host_info.bandwidth_up_bits,
                host.params.native_tsc_frequency == self.native_tsc_frequency,
                host.queue.wf(),
                host.queue@ == Seq::<crate::event_queue::Event>::empty(),
                host.queue.last_popped() == 0,
                host.executed@.len() == 0,
                host.outbox@.len() == 0,
                host.shmem_locked,
                !host.is_shutdown,
            decreases procs@.len(),
        {
            let p = procs.remove(0);
            proof {
                assert(host.applications@.push(p) + procs@ =~= host.applications@ + (seq![p]
                    + procs@));
            }
            host.add_application(p);
        }
        proof {
            assert(host.applications@ =~= host.applications@ + procs@);
        }
        host.unlock_shmem();
        host
    }
}

/// The IPv4 bits a host's configuration carries (zero for IPv6, which is
/// rejected before the value is ever used).
pub open spec fn host_addr_bits(info: HostInfo) -> u32 {
    match info.ip {
        HostIp::V4 { bits } => bits,
        HostIp::V6 => 0,
    }
}

/// A configured event is sound: a send keeps to the smallest routing
/// latency and addresses one of the `n` hosts.
pub open spec fn initial_event_ok(e: InitialEvent, n: int, min_latency_ns: u64) -> bool {
    e.payload matches EventPayload::Send { dst, delay, .. } ==> dst < n && delay.ns
        >= min_latency_ns
}

/// The number of events configured on the hosts before index `h`.
pub open spec fn config_events_upto(hosts: Seq<HostInfo>, h: int) -> int
    decreases h,
{
    if h <= 0 {
        0
    } else {
        config_events_upto(hosts, h - 1) + hosts[h - 1].initial_events@.len()
    }
}

/// All events the configuration schedules, over all hosts.
pub open spec fn total_initial_events(hosts: Seq<HostInfo>) -> int {
    config_events_upto(hosts, hosts.len() as int)
}

/// How many of the configured events of `evs` are sends.
pub open spec fn config_sends_in(evs: Seq<InitialEvent>) -> int
    decreases evs.len(),
{
    if evs.len() == 0 {
        0
    } else {
        config_sends_in(evs.drop_last()) + if evs.last().payload matches EventPayload::Send {
            ..
        } {
            1int
        } else {
            0int
        }
    }
}

/// The configured sends of the hosts before index `h`.
pub open spec fn config_sends_upto(hosts: Seq<HostInfo>, h: int) -> int
    decreases h,
{
    if h <= 0 {
        0
    } else {
        config_sends_upto(hosts, h - 1) + config_sends_in(hosts[h - 1].initial_events@)
    }
}

/// All sends the configuration schedules, over all hosts.
pub open spec fn total_config_sends(hosts: Seq<HostInfo>) -> int {
    config_sends_upto(hosts, hosts.len() as int)
}

/// A per-run configuration the driver accepts: every host IPv4, names and
/// addresses unique, every configured send causally safe and routable, and
/// enough event stamps for every configured event and every message it can
/// ever emit (each send emits at most one).
pub open spec fn config_ok(cfg: ManagerConfig) -> bool {
    let n = cfg.hosts@.len() as int;
    &&& forall|i: int| 0 <= i < n ==> ((#[trigger] cfg.hosts@[i]).ip matches HostIp::V4 { .. })
    &&& forall|i: int, j: int|
        0 <= i < j < n ==> (#[trigger] cfg.hosts@[i]).name@ != (#[trigger] cfg.hosts@[j]).name@
            && host_addr_bits(cfg.hosts@[i]) != host_addr_bits(cfg.hosts@[j])
    &&& forall|i: int, k: int|
        0 <= i < n && 0 <= k < cfg.hosts@[i].initial_events@.len() ==> initial_event_ok(
            #[trigger] cfg.hosts@[i].initial_events@[k],
            n,
            cfg.smallest_latency.ns,
        )
    &&& total_initial_events(cfg.hosts@) + total_config_sends(cfg.hosts@) <= u64::MAX
}

/// The fault each setup error names, in the configuration it was raised
/// for: every error points at a host (or the stamp budget) that really has
/// that fault.
pub open spec fn setup_fault(e: SetupError, cfg: ManagerConfig) -> bool {
    let n = cfg.hosts@.len() as int;
    match e {
        SetupError::Ipv6NotSupported { host_index } => host_index < n && cfg.hosts@[
            host_index as int
        ].ip matches HostIp::V6,
        SetupError::DnsConflict { host_index, error } => host_index < n && match error {
            DnsError::DuplicateName => exists|j: int|
                0 <= j < host_index && (#[trigger] cfg.hosts@[j]).name@ == cfg.hosts@[
                    host_index as int
                ].name@,
            DnsError::DuplicateAddress => exists|j: int|
                0 <= j < host_index && host_addr_bits(#[trigger] cfg.hosts@[j]) == host_addr_bits(
                    cfg.hosts@[host_index as int],
                ),
        },
        SetupError::MessageDelayTooSmall { host_index } => host_index < n && exists|k: int|
            0 <= k < cfg.hosts@[host_index as int].initial_events@.len() && ((#[trigger] cfg.hosts@[
                host_index as int
            ].initial_events@[k]).payload matches EventPayload::Send { delay, .. }
                && delay.ns < cfg.smallest_latency.ns),
        SetupError::MessageDestinationInvalid { host_index } => host_index < n && exists|k: int|
            0 <= k < cfg.hosts@[host_index as int].initial_events@.len() && ((#[trigger] cfg.hosts@[
                host_index as int
            ].initial_events@[k]).payload matches EventPayload::Send { dst, delay, .. }
                && delay.ns >= cfg.smallest_latency.ns && dst >= n),
        SetupError::EventStampsExhausted => total_initial_events(cfg.hosts@) + total_config_sends(
            cfg.hosts@,
        ) > u64::MAX,
        SetupError::AlreadyRan => false,
        SetupError::MissingPreloadLibrary { .. } => false,
        SetupError::PreloadPathUnusable { .. } => false,
    }
}

/// The events host `info`'s configuration seeds, in configuration order,
/// stamped consecutively from `base`.
pub open spec fn seeded_events(info: HostInfo, base: int) -> Seq<Event> {
    Seq::new(
        info.initial_events@.len(),
        |k: int|
            Event {
                time: EmulatedTime { ns: info.initial_events@[k].time_ns },
                seq: (base + k) as u64,
                payload: info.initial_events@[k].payload,
            },
    )
}

proof fn lemma_config_counts_nonneg(hosts: Seq<HostInfo>, h: int)
    requires
        0 <= h <= hosts.len(),
    ensures
        config_events_upto(hosts, h) >= 0,
        config_sends_upto(hosts, h) >= 0,
        config_events_upto(hosts, h) <= total_initial_events(hosts),
        config_sends_upto(hosts, h) <= total_config_sends(hosts),
    decreases hosts.len() - h,
{
    lemma_config_sends_nonneg_one(hosts, h);
    if h < hosts.len() {
        lemma_config_counts_nonneg(hosts, h + 1);
        lemma_config_sends_in_nonneg(hosts[h].initial_events@);
    }
}

proof fn lemma_config_sends_nonneg_one(hosts: Seq<HostInfo>, h: int)
    requires
        0 <= h <= hosts.len(),
    ensures
        config_events_upto(hosts, h) >= 0,
        config_sends_upto(hosts, h) >= 0,
    decreases h,
{
    if h > 0 {
        lemma_config_sends_nonneg_one(hosts, h - 1);
        lemma_config_sends_in_nonneg(hosts[h - 1].initial_events@);
    }
}

proof fn lemma_config_sends_in_nonneg(evs: Seq<InitialEvent>)
    ensures
        0 <= config_sends_in(evs) <= evs.len(),
    decreases evs.len(),
{
    if evs.len() > 0 {
        lemma_config_sends_in_nonneg(evs.drop_last());
    }
}

/// A prefix of the configured events carries a prefix of the send count.
proof fn lemma_config_sends_take(evs: Seq<InitialEvent>, k: int)
    requires
        0 <= k <= evs.len(),
    ensures
        config_sends_in(evs.take(k)) <= config_sends_in(evs),
    decreases evs.len() - k,
{
    if k < evs.len() {
        lemma_config_sends_take(evs, k + 1);
        assert(evs.take(k + 1).drop_last() =~= evs.take(k));
        lemma_config_sends_in_nonneg(evs.take(k));
    } else {
        assert(evs.take(k) =~= evs);
    }
}

/// The seeded events of one host carry its configured send count.
proof fn lemma_seeded_sends(info: HostInfo, base: int, k: int)
    requires
        0 <= k <= info.initial_events@.len(),
    ensures
        sends_in(seeded_events(info, base).take(k)) == config_sends_in(
            info.initial_events@.take(k),
        ),
    decreases k,
{
    if k > 0 {
        lemma_seeded_sends(info, base, k - 1);
        assert(seeded_events(info, base).take(k).drop_last() =~= seeded_events(info, base).take(
            k - 1,
        ));
        assert(info.initial_events@.take(k).drop_last() =~= info.initial_events@.take(k - 1));
        assert(seeded_events(info, base).take(k).last() == seeded_events(info, base)[k - 1]);
        assert(info.initial_events@.take(k).last() == info.initial_events@[k - 1]);
    } else {
        assert(seeded_events(info, base).take(0) =~= Seq::<Event>::empty());
        assert(info.initial_events@.take(0) =~= Seq::<InitialEvent>::empty());
    }
}

/// A queued or delivered event is sound for a run: its stamp was assigned
/// before `next_seq`, and a message it emits stays routable and causally
/// safe — a real destination, and no delay under the smallest latency.
pub open spec fn event_ok(e: Event, n: int, next_seq: u64, min_latency_ns: u64) -> bool {
    &&& e.seq < next_seq
    &&& (e.payload matches EventPayload::Send { dst, delay, .. } ==> dst < n && delay.ns
        >= min_latency_ns)
}

/// A host at rest between windows: its id in place, queue well-formed with
/// sound events, guard released, outbox empty, still running.
pub open spec fn host_ok(h: Host, i: int, n: int, next_seq: u64, min_latency_ns: u64) -> bool {
    &&& h.params.id == i
    &&& h.queue.wf()
    &&& !h.shmem_locked
    &&& !h.is_shutdown
    &&& h.outbox@.len() == 0
    &&& forall|k: int|
        0 <= k < h.queue@.len() ==> event_ok(#[trigger] h.queue@[k], n, next_seq, min_latency_ns)
}

/// A host against the current window `[ws, we)`: nothing outstanding before
/// the window, nothing so soon after it that the window could outrun it,
/// and the host's clock not past the window start.
pub open spec fn host_window_ok(h: Host, ws: u64, we: u64, runahead: u64) -> bool {
    &&& h.queue.last_popped() <= ws
    &&& forall|k: int|
        0 <= k < h.queue@.len() ==> ((#[trigger] h.queue@[k]).time.ns >= ws && h.queue@[k].time.ns
            + runahead >= we)
}

/// The state of one run of the simulation: the pump's whole world.
pub struct SimulationRun {
    /// The process-wide shared table.
    pub shared: WorkerShared,
    /// The hosts, indexed by id.
    pub hosts: Vec<Host>,
    /// The order hosts are handed to workers, shuffled once.
    pub schedule_order: Vec<u32>,
    /// The worker-pool size.
    pub parallelism: usize,
    /// The per-worker CPU pins, all set or all unset.
    pub cpus: Vec<Option<u32>>,
    /// The current window, or `None` once the run is over.
    pub window: Option<(EmulatedTime, EmulatedTime)>,
    /// The next event stamp to hand out.
    pub next_seq: u64,
    /// When the last heartbeat line was emitted.
    pub last_heartbeat: EmulatedTime,
    /// How often to emit heartbeat lines, if at all.
    pub heartbeat_interval: Option<SimulationTime>,
    /// The window oracle.
    pub controller: Controller,
}

impl SimulationRun {
    /// The number of hosts.
    pub open spec fn n(self) -> int {
        self.hosts@.len() as int
    }

    /// The run invariant the pump preserves window to window.
    pub open spec fn wf(self) -> bool {
        &&& self.n() <= u32::MAX
        &&& forall|i: int|
            0 <= i < self.n() ==> host_ok(
                #[trigger] self.hosts@[i],
                i,
                self.n(),
                self.next_seq,
                self.shared.smallest_latency.ns,
            )
        &&& crate::sched::is_host_order(self.schedule_order@, self.n())
        &&& self.next_seq + queue_sends(self.hosts@) <= u64::MAX
        &&& self.controller.runahead.ns >= 1
        &&& self.controller.runahead.ns <= self.shared.smallest_latency.ns
        &&& self.controller.end_time == self.shared.sim_end_time
        &&& (self.window matches Some((ws, we)) ==> ws.ns < we.ns && forall|i: int|
            0 <= i < self.n() ==> host_window_ok(
                #[trigger] self.hosts@[i],
                ws.ns,
                we.ns,
                self.controller.runahead.ns,
            ))
    }
}

impl Manager {
    /// Prepares one run: assigns host ids by enumeration order, registers
    /// every host in the DNS (IPv6 rejected), freezes it, builds the hosts,
    /// seeds their configured events under consecutive stamps, and shuffles
    /// the worker order from the configured seed.
    ///
    /// Succeeds exactly on a sound configuration (`config_ok`); every error
    /// names a fault the configuration really has (`setup_fault`). Host
    /// identities are assigned by the same deterministic rule on every run:
    /// the host at configuration index `i` gets id `i`, before any
    /// randomization.
    pub fn start_run(&mut self, worker_cpus: &Vec<u32>, physical_cores: u32) -> (r: Result<
        SimulationRun,
        SetupError,
    >)
        requires
            physical_cores >= 1,
            old(self).manager_config matches Some(c) ==> {
                &&& c.hosts@.len() <= u32::MAX
                &&& c.smallest_latency.ns >= 1
                &&& (old(self).config.use_cpu_pinning ==> worker_cpus@.len() >= c.hosts@.len())
            },
        ensures
            old(self).manager_config is None ==> r == Err::<SimulationRun, SetupError>(
                SetupError::AlreadyRan,
            ),
            final(self).manager_config is None,
            old(self).manager_config matches Some(cfg) ==> {
                &&& ((r is Ok) <==> config_ok(cfg))
                &&& (r matches Err(e) ==> setup_fault(e, cfg))
            },
            r matches Ok(sim) ==> {
                let cfg = old(self).manager_config->Some_0;
                &&& sim.wf()
                &&& sim.n() == cfg.hosts@.len()
                &&& (forall|i: int|
                    0 <= i < sim.n() ==> (#[trigger] sim.hosts@[i]).params.id == i && sim.hosts@[
                        i
                    ].params.hostname == cfg.hosts@[i].name && sim.hosts@[i].executed@.len() == 0)
                &&& (forall|i: int|
                    0 <= i < sim.n() ==> (#[trigger] sim.hosts@[i]).queue@.to_multiset()
                        == seeded_events(
                        cfg.hosts@[i],
                        config_events_upto(cfg.hosts@, i),
                    ).to_multiset())
                &&& sim.next_seq == total_initial_events(cfg.hosts@)
                &&& sim.schedule_order@ == crate::sched::shuffle_of(
                    crate::sched::host_ids(sim.n()),
                    cfg.random_seed,
                )
                &&& sim.window == Some(
                    (EmulatedTime { ns: 0 }, EmulatedTime { ns: 1 }),
                )
                &&& sim.shared.num_plugin_errors == 0
                &&& sim.shared.sim_end_time == old(self).end_time
                &&& sim.shared.smallest_latency == cfg.smallest_latency
                &&& sim.controller.runahead == cfg.smallest_latency
                &&& sim.controller.end_time == old(self).end_time
                &&& sim.last_heartbeat.ns == 0
                &&& sim.heartbeat_interval == old(self).config.heartbeat_interval
            },
    {
        let cfg_opt = self.manager_config.take();
        let mut cfg = match cfg_opt {
            Some(c) => c,
            None => {
                return Err(SetupError::AlreadyRan);
            },
        };
        let n = cfg.hosts.len();
        let ghost cfg_hosts = cfg.hosts@;
        let ghost latency = cfg.smallest_latency.ns;

        // Register every host in the DNS, in enumeration order; ids are
        // assigned here, once, before any randomization.
        let mut dns_builder = DnsBuilder::new();
        let mut i: usize = 0;
        while i < n
            invariant
                i <= n == cfg.hosts@.len(),
                n <= u32::MAX,
                self.manager_config is None,
                old(self).manager_config is Some,
                cfg.smallest_latency == old(self).manager_config->Some_0.smallest_latency,
                cfg.random_seed == old(self).manager_config->Some_0.random_seed,
                cfg.hosts@ == cfg_hosts,
                cfg_hosts == old(self).manager_config->Some_0.hosts@,
                latency == cfg.smallest_latency.ns,
                dns_builder.entries@.len() == i,
                crate::dns::entries_unique(dns_builder.entries@),
                forall|j: int|
                    0 <= j < i ==> {
                        &&& (#[trigger] dns_builder.entries@[j]).name@ == cfg_hosts[j].name@
                        &&& dns_builder.entries@[j].addr == host_addr_bits(cfg_hosts[j])
                        &&& (cfg_hosts[j].ip matches HostIp::V4 { .. })
                    },
            decreases n - i,
        {
            let addr = match cfg.hosts[i].ip {
                HostIp::V4 { bits } => bits,
                HostIp::V6 => {
                    return Err(SetupError::Ipv6NotSupported { host_index: i });
                },
            };
            let name = cfg.hosts[i].name.clone();
            let reg = dns_builder.register(i as u32, addr, name);
            match reg {
                Ok(()) => {},
                Err(e) => {
                    proof {
                        // the conflicting entry names an earlier host with
                        // the same name or address
                        match e {
                            DnsError::DuplicateName => {
                                let j = choose|j: int|
                                    0 <= j < dns_builder.entries@.len() && (
                                    #[trigger] dns_builder.entries@[j]).name@ == cfg_hosts[
                                        i as int
                                    ].name@;
                                assert(cfg_hosts[j].name@ == cfg_hosts[i as int].name@);
                            },
                            DnsError::DuplicateAddress => {
                                let j = choose|j: int|
                                    0 <= j < dns_builder.entries@.len() && (
                                    #[trigger] dns_builder.entries@[j]).addr == addr;
                                assert(host_addr_bits(cfg_hosts[j]) == host_addr_bits(
                                    cfg_hosts[i as int],
                                ));
                            },
                        }
                    }
                    return Err(SetupError::DnsConflict { host_index: i, error: e });
                },
            }
            i += 1;
        }
        let ghost dns_entries = dns_builder.entries@;
        let dns = dns_builder.into_dns();
        proof {
            // a successful registration pass means the configuration itself
            // is unique in names and addresses, and all-IPv4
            assert forall|p: int, q: int| 0 <= p < q < n implies cfg_hosts[p].name@ != cfg_hosts[
                q
            ].name@ && host_addr_bits(cfg_hosts[p]) != host_addr_bits(cfg_hosts[q]) by {
                assert(dns_entries[p].name@ == cfg_hosts[p].name@);
                assert(dns_entries[q].name@ == cfg_hosts[q].name@);
            }
            assert forall|j: int| 0 <= j < n implies ((#[trigger] cfg_hosts[j]).ip
                matches HostIp::V4 { .. }) by {
                assert(dns_entries[j].name@ == cfg_hosts[j].name@);
            }
        }

        // Build the hosts with their assigned ids and seed their configured
        // events: consecutive stamps in configuration order, with a stamp
        // reserved for the message each send may later emit.
        let mut hosts: Vec<Host> = Vec::new();
        let mut next_seq: u64 = 0;
        let mut sends: u64 = 0;
        let mut i: usize = 0;
        while i < n
            invariant
                i <= n,
                cfg_hosts.len() == n,
                cfg.hosts@ == cfg_hosts.subrange(i as int, n as int),
                hosts@.len() == i,
                n <= u32::MAX,
                self.manager_config is None,
                old(self).manager_config is Some,
                cfg.smallest_latency == old(self).manager_config->Some_0.smallest_latency,
                cfg.random_seed == old(self).manager_config->Some_0.random_seed,
                cfg_hosts == old(self).manager_config->Some_0.hosts@,
                latency == cfg.smallest_latency.ns,
                cfg.smallest_latency.ns >= 1,
                forall|j: int| 0 <= j < n ==> ((#[trigger] cfg_hosts[j]).ip matches HostIp::V4 { .. }),
                forall|p: int, q: int|
                    0 <= p < q < n ==> (#[trigger] cfg_hosts[p]).name@ != (
                    #[trigger] cfg_hosts[q]).name@ && host_addr_bits(cfg_hosts[p])
                        != host_addr_bits(cfg_hosts[q]),
                next_seq == config_events_upto(cfg_hosts, i as int),
                sends == config_sends_upto(cfg_hosts, i as int),
                next_seq + sends <= u64::MAX,
                queue_sends_upto(hosts@, i as int) == sends,
                forall|h: int, k: int|
                    0 <= h < i && 0 <= k < cfg_hosts[h].initial_events@.len()
                        ==> initial_event_ok(
                        #[trigger] cfg_hosts[h].initial_events@[k],
                        n as int,
                        latency,
                    ),
                forall|h: int|
                    0 <= h < i ==> host_ok(
                        #[trigger] hosts@[h],
                        h,
                        n as int,
                        next_seq,
                        cfg.smallest_latency.ns,
                    ),
                forall|h: int|
                    0 <= h < i ==> (#[trigger] hosts@[h]).params.hostname == cfg_hosts[h].name
                        && hosts@[h].executed@.len() == 0,
                forall|h: int|
                    0 <= h < i ==> (#[trigger] hosts@[h]).queue@.to_multiset() == seeded_events(
                        cfg_hosts[h],
                        config_events_upto(cfg_hosts, h),
                    ).to_multiset(),
                forall|h: int|
                    0 <= h < i ==> host_window_ok(
                        #[trigger] hosts@[h],
                        0,
                        1,
                        cfg.smallest_latency.ns,
                    ),
            decreases n - i,
        {
            let ghost hosts0 = hosts@;
            let ghost seq0 = next_seq;
            let ghost base = next_seq as int;
            let mut info = cfg.hosts.remove(0);
            proof {
                assert(info == cfg_hosts[i as int]);
                assert(cfg.hosts@ =~= cfg_hosts.subrange(i + 1, n as int));
            }
            // the DNS pass already rejected IPv6 addresses
            let mut initial: Vec<crate::host::InitialEvent> = Vec::new();
            core::mem::swap(&mut initial, &mut info.initial_events);
            proof {
                assert(initial@ == cfg_hosts[i as int].initial_events@);
            }
            match info.ip {
                HostIp::V4 { .. } => {},
                HostIp::V6 => {
                    return Err(SetupError::Ipv6NotSupported { host_index: i });
                },
            }
            let mut host = self.build_host(i as u32, info);
            // seed the configured events
            let ghost seeded = seeded_events(cfg_hosts[i as int], base);
            let mut k: usize = 0;
            proof {
                assert(seeded.take(0) =~= Seq::<Event>::empty());
                assert(initial@.take(0) =~= Seq::<InitialEvent>::empty());
                assert(host.queue@.to_multiset() =~= seeded.take(0).to_multiset());
            }
            while k < initial.len()
                invariant
                    k <= initial@.len(),
                    initial@ == cfg_hosts[i as int].initial_events@,
                    host.queue.wf(),
                    host.queue.last_popped() == 0,
                    host.params.id == i as u32,
                    host.params.hostname == cfg_hosts[i as int].name,
                    host.executed@.len() == 0,
                    host.outbox@.len() == 0,
                    !host.shmem_locked,
                    !host.is_shutdown,
                    n <= u32::MAX,
                    i < n,
                    cfg_hosts.len() == n,
                    self.manager_config is None,
                    old(self).manager_config is Some,
                    cfg_hosts == old(self).manager_config->Some_0.hosts@,
                    latency == cfg.smallest_latency.ns,
                    latency == old(self).manager_config->Some_0.smallest_latency.ns,
                    seq0 <= next_seq,
                    base == config_events_upto(cfg_hosts, i as int),
                    seeded == seeded_events(cfg_hosts[i as int], base),
                    next_seq == base + k,
                    sends == config_sends_upto(cfg_hosts, i as int) + config_sends_in(
                        initial@.take(k as int),
                    ),
                    next_seq + sends <= u64::MAX,
                    host.queue@.to_multiset() == seeded.take(k as int).to_multiset(),
                    forall|k2: int|
                        0 <= k2 < k ==> initial_event_ok(
                            #[trigger] initial@[k2],
                            n as int,
                            latency,
                        ),
                    cfg.smallest_latency.ns >= 1,
                    forall|e: int|
                        0 <= e < host.queue@.len() ==> event_ok(
                            #[trigger] host.queue@[e],
                            n as int,
                            next_seq,
                            cfg.smallest_latency.ns,
                        ),
                    forall|e: int|
                        0 <= e < host.queue@.len() ==> (#[trigger] host.queue@[e]).time.ns
                            + cfg.smallest_latency.ns >= 1,
                decreases initial@.len() - k,
            {
                let ev = &initial[k];
                let inc: u64 = match ev.payload {
                    EventPayload::Send { dst, delay, .. } => {
                        if delay.ns < cfg.smallest_latency.ns {
                            proof {
                                // the current event is the fault witness
                                assert(cfg_hosts[i as int].initial_events@[k as int]
                                    == initial@[k as int]);
                                assert((cfg_hosts[i as int].initial_events@[k as int]).payload
                                    == ev.payload);
                                assert(!initial_event_ok(
                                    cfg_hosts[i as int].initial_events@[k as int],
                                    n as int,
                                    latency,
                                ));
                            }
                            return Err(SetupError::MessageDelayTooSmall { host_index: i });
                        }
                        if !((dst as usize) < n) {
                            proof {
                                assert(cfg_hosts[i as int].initial_events@[k as int]
                                    == initial@[k as int]);
                                assert((cfg_hosts[i as int].initial_events@[k as int]).payload
                                    == ev.payload);
                                assert(!initial_event_ok(
                                    cfg_hosts[i as int].initial_events@[k as int],
                                    n as int,
                                    latency,
                                ));
                            }
                            return Err(SetupError::MessageDestinationInvalid { host_index: i });
                        }
                        1
                    },
                    EventPayload::Local { .. } => 0,
                };
                // reserve one stamp for the event and one for the message a
                // send may later emit
                if (next_seq as u128) + 1 + (sends as u128) + (inc as u128) > (u64::MAX as u128) {
                    proof {
                        lemma_exhaustion_witness(cfg_hosts, i as int, k as int, inc as int);
                    }
                    return Err(SetupError::EventStampsExhausted);
                }
                let seq = next_seq;
                next_seq = next_seq + 1;
                sends = sends + inc;
                proof {
                    assert(initial@.take(k + 1).drop_last() =~= initial@.take(k as int));
                    assert(initial@.take(k + 1).last() == initial@[k as int]);
                }
                let event = Event { time: EmulatedTime { ns: ev.time_ns }, seq, payload: ev.payload };
                let ghost pre_q = host.queue@;
                proof {
                    assert(event == seeded[k as int]);
                    broadcast use vstd::seq_lib::group_to_multiset_ensures;

                    assert forall|e: int| 0 <= e < host.queue@.len() implies !crate::event_queue::same_key(
                        #[trigger] host.queue@[e],
                        event,
                    ) by {
                        assert(host.queue@[e].seq < seq);
                    }
                }
                let pushed = host.queue.push(event);
                proof {
                    assert(pushed is Ok);
                    assert(seeded.take(k + 1) =~= seeded.take(k as int).push(event));
                    assert(host.queue@.to_multiset() =~= seeded.take(k + 1).to_multiset()) by {
                        broadcast use vstd::seq_lib::group_to_multiset_ensures;

                    }
                    lemma_push_elements(pre_q, host.queue@, event);
                    assert forall|e: int|
                        0 <= e < host.queue@.len() implies event_ok(
                        #[trigger] host.queue@[e],
                        n as int,
                        next_seq,
                        cfg.smallest_latency.ns,
                    ) && host.queue@[e].time.ns + cfg.smallest_latency.ns >= 1 by {
                        let v = host.queue@[e];
                        if v != event {
                            let j = choose|j: int| 0 <= j < pre_q.len() && pre_q[j] == v;
                            assert(event_ok(pre_q[j], n as int, seq, cfg.smallest_latency.ns));
                        }
                    }
                }
                k += 1;
            }
            proof {
                assert(initial@.take(initial@.len() as int) =~= initial@);
                assert(seeded.take(seeded.len() as int) =~= seeded);
                assert(host.queue@.to_multiset() == seeded.to_multiset());
                // the new host's queued sends are exactly its configured sends
                lemma_seeded_sends(
                    cfg_hosts[i as int],
                    base,
                    cfg_hosts[i as int].initial_events@.len() as int,
                );
                lemma_sends_multiset(host.queue@, seeded);
            }
            hosts.push(host);
            proof {
                assert(queue_sends_upto(hosts@, i + 1) == queue_sends_upto(hosts0, i as int)
                    + sends_in(host.queue@)) by {
                    lemma_queue_sends_upto_frame(hosts0, hosts@, i as int);
                }
                assert forall|h: int|
                    0 <= h < hosts@.len() implies host_ok(
                    #[trigger] hosts@[h],
                    h,
                    n as int,
                    next_seq,
                    cfg.smallest_latency.ns,
                ) && hosts@[h].params.hostname == cfg_hosts[h].name && hosts@[h].executed@.len()
                    == 0 && host_window_ok(hosts@[h], 0, 1, cfg.smallest_latency.ns) && hosts@[
                    h
                ].queue@.to_multiset() == seeded_events(
                    cfg_hosts[h],
                    config_events_upto(cfg_hosts, h),
                ).to_multiset() by {
                    if h < i {
                        assert(hosts@[h] == hosts0[h]);
                        assert(host_ok(hosts0[h], h, n as int, seq0, cfg.smallest_latency.ns));
                        assert(seq0 <= next_seq);
                        assert forall|e: int|
                            0 <= e < hosts@[h].queue@.len() implies event_ok(
                            #[trigger] hosts@[h].queue@[e],
                            n as int,
                            next_seq,
                            cfg.smallest_latency.ns,
                        ) by {
                            assert(event_ok(
                                hosts0[h].queue@[e],
                                n as int,
                                seq0,
                                cfg.smallest_latency.ns,
                            ));
                        }
                    } else {
                        assert(hosts@[h] == host);
                        assert forall|e: int|
                            0 <= e < host.queue@.len() implies (#[trigger] host.queue@[e]).time.ns
                            >= 0 && host.queue@[e].time.ns + cfg.smallest_latency.ns >= 1 by {}
                    }
                }
            }
            i += 1;
        }

        // Shuffle the host order once, deterministically from the seed.
        let order = crate::sched::shuffled_order(n as u32, cfg.random_seed);

        let bootstrap_end_time = EmulatedTime::simulation_start().saturating_add(
            self.config.bootstrap_end_time,
        );
        let shared = WorkerShared {
            dns,
            smallest_latency: cfg.smallest_latency,
            bootstrap_end_time,
            sim_end_time: self.end_time,
            num_plugin_errors: 0,
        };
        let parallelism = crate::sched::effective_parallelism(
            self.config.parallelism,
            physical_cores,
            n,
        );
        let cpus = crate::sched::cpu_assignment(
            self.config.use_cpu_pinning,
            worker_cpus,
            parallelism,
        );
        let controller = Controller { end_time: self.end_time, runahead: cfg.smallest_latency };
        let sim = SimulationRun {
            shared,
            hosts,
            schedule_order: order,
            parallelism,
            cpus,
            window: Some((EmulatedTime { ns: 0 }, EmulatedTime { ns: 1 })),
            next_seq,
            last_heartbeat: EmulatedTime { ns: 0 },
            heartbeat_interval: self.config.heartbeat_interval,
            controller,
        };
        proof {
            let cfg0 = old(self).manager_config->Some_0;
            assert(sim.hosts@.len() == n);
            assert(sim.schedule_order@ == crate::sched::shuffle_of(
                crate::sched::host_ids(n as int),
                cfg.random_seed,
            ));
            assert forall|h: int| 0 <= h < sim.n() implies host_window_ok(
                #[trigger] sim.hosts@[h],
                0,
                1,
                sim.controller.runahead.ns,
            ) by {
                assert(host_window_ok(hosts@[h], 0, 1, cfg.smallest_latency.ns));
            }
            // the run holds enough stamps for every message it can emit
            assert(sim.next_seq + queue_sends(sim.hosts@) <= u64::MAX);
            // everything the registration and seeding passes accepted is
            // exactly the soundness of the configuration
            assert(config_ok(cfg0));
        }
        Ok(sim)
    }
}

/// Appending one host leaves the earlier hosts' queued-send sum unchanged.
proof fn lemma_queue_sends_upto_frame(pre: Seq<Host>, post: Seq<Host>, k: int)
    requires
        0 <= k,
        post.len() == pre.len() + 1,
        k <= pre.len(),
        forall|h: int| 0 <= h < pre.len() ==> post[h] == pre[h],
    ensures
        queue_sends_upto(post, k) == queue_sends_upto(pre, k),
        queue_sends_upto(post, k + 1) == queue_sends_upto(pre, k) + sends_in(post[k].queue@),
    decreases k,
{
    if k > 0 {
        lemma_queue_sends_upto_frame(pre, post, k - 1);
        assert(queue_sends_upto(post, k) == queue_sends_upto(post, k - 1) + sends_in(
            post[k - 1].queue@,
        ));
    }
}

/// When the running stamp reservation overflows, the whole configuration
/// asks for more stamps than exist.
proof fn lemma_exhaustion_witness(hosts: Seq<HostInfo>, i: int, k: int, inc: int)
    requires
        0 <= i < hosts.len(),
        0 <= k < hosts[i].initial_events@.len(),
        inc == if hosts[i].initial_events@[k].payload matches EventPayload::Send { .. } {
            1int
        } else {
            0int
        },
        config_events_upto(hosts, i) + k + 1 + config_sends_upto(hosts, i) + config_sends_in(
            hosts[i].initial_events@.take(k),
        ) + inc > u64::MAX,
    ensures
        total_initial_events(hosts) + total_config_sends(hosts) > u64::MAX,
{
    lemma_config_counts_nonneg(hosts, i + 1);
    assert(config_events_upto(hosts, i + 1) == config_events_upto(hosts, i) + hosts[
        i
    ].initial_events@.len());
    assert(config_sends_upto(hosts, i + 1) == config_sends_upto(hosts, i) + config_sends_in(
        hosts[i].initial_events@,
    ));
    // the send-count prefix through event k, with the current event, stays
    // within the host's configured sends
    assert(config_sends_in(hosts[i].initial_events@.take(k + 1)) == config_sends_in(
        hosts[i].initial_events@.take(k),
    ) + inc) by {
        assert(hosts[i].initial_events@.take(k + 1).drop_last() =~= hosts[
            i
        ].initial_events@.take(k));
        assert(hosts[i].initial_events@.take(k + 1).last() == hosts[i].initial_events@[k]);
    }
    lemma_config_sends_take(hosts[i].initial_events@, k + 1);
}

/// Whether an event's work sends a message when it fires.
pub open spec fn is_send_event(e: Event) -> bool {
    e.payload matches EventPayload::Send { .. }
}

/// How many of the events of `s` are sends; each will emit one message.
pub open spec fn sends_in(s: Seq<Event>) -> int
    decreases s.len(),
{
    if s.len() == 0 {
        0
    } else {
        sends_in(s.drop_last()) + if is_send_event(s.last()) {
            1int
        } else {
            0int
        }
    }
}

/// The sends still queued across the first `k` hosts, in id order.
pub open spec fn queue_sends_upto(hosts: Seq<Host>, k: int) -> int
    decreases k,
{
    if k <= 0 {
        0
    } else {
        queue_sends_upto(hosts, k - 1) + sends_in(hosts[k - 1].queue@)
    }
}

/// The sends still queued across all hosts: with the events already
/// stamped, these bound every message the rest of the run can emit.
pub open spec fn queue_sends(hosts: Seq<Host>) -> int {
    queue_sends_upto(hosts, hosts.len() as int)
}

proof fn lemma_sends_nonneg(s: Seq<Event>)
    ensures
        sends_in(s) >= 0,
        sends_in(s) <= s.len(),
    decreases s.len(),
{
    if s.len() > 0 {
        lemma_sends_nonneg(s.drop_last());
    }
}

/// Dropping one element drops its contribution to the send count.
proof fn lemma_sends_remove(s: Seq<Event>, j: int)
    requires
        0 <= j < s.len(),
    ensures
        sends_in(s) == sends_in(s.remove(j)) + if is_send_event(s[j]) {
            1int
        } else {
            0int
        },
    decreases s.len(),
{
    if j == s.len() - 1 {
        assert(s.remove(j) =~= s.drop_last());
    } else {
        assert(s.remove(j).drop_last() =~= s.drop_last().remove(j));
        assert(s.remove(j).last() == s.last());
        lemma_sends_remove(s.drop_last(), j);
        assert(s.drop_last()[j] == s[j]);
    }
}

/// The send count only depends on which events are held, not their order.
proof fn lemma_sends_multiset(s1: Seq<Event>, s2: Seq<Event>)
    requires
        s1.to_multiset() == s2.to_multiset(),
    ensures
        sends_in(s1) == sends_in(s2),
    decreases s1.len(),
{
    broadcast use vstd::seq_lib::group_to_multiset_ensures;
    broadcast use vstd::multiset::group_multiset_axioms;

    if s1.len() == 0 {
        assert(s2.len() == s2.to_multiset().len());
    } else {
        let e = s1.last();
        assert(s1.contains(e));
        assert(s2.to_multiset().count(e) > 0);
        assert(s2.contains(e));
        let j = choose|j: int| 0 <= j < s2.len() && s2[j] == e;
        assert(s1.drop_last() =~= s1.remove(s1.len() - 1));
        assert(s1.remove(s1.len() - 1).to_multiset() == s1.to_multiset().remove(e));
        assert(s2.remove(j).to_multiset() == s2.to_multiset().remove(e));
        lemma_sends_multiset(s1.drop_last(), s2.remove(j));
        lemma_sends_remove(s2, j);
    }
}

/// Send counts add over concatenation.
proof fn lemma_sends_concat(a: Seq<Event>, b: Seq<Event>)
    ensures
        sends_in(a + b) == sends_in(a) + sends_in(b),
    decreases b.len(),
{
    if b.len() == 0 {
        assert(a + b =~= a);
    } else {
        assert((a + b).drop_last() =~= a + b.drop_last());
        assert((a + b).last() == b.last());
        lemma_sends_concat(a, b.drop_last());
    }
}

/// Each send emits exactly one message: the message count of a drain is its
/// send count.
proof fn lemma_msgs_len_is_sends(s: Seq<Event>)
    ensures
        msgs_of(s).len() == sends_in(s),
    decreases s.len(),
{
    if s.len() > 0 {
        lemma_msgs_len_is_sends(s.drop_last());
    }
}

/// Receipts are local work: a union with a multiset of non-send events
/// keeps the send count.
proof fn lemma_sends_union_local(post: Seq<Event>, a: Seq<Event>, d: Multiset<Event>)
    requires
        post.to_multiset() == a.to_multiset().add(d),
        forall|e: Event| d.count(e) > 0 ==> !is_send_event(e),
    ensures
        sends_in(post) == sends_in(a),
    decreases d.len(),
{
    broadcast use vstd::seq_lib::group_to_multiset_ensures;
    broadcast use vstd::multiset::group_multiset_axioms;

    if d.len() == 0 {
        assert(d =~= Multiset::<Event>::empty()) by {
            assert forall|v: Event| #[trigger] d.count(v) == 0 by {
                if d.count(v) > 0 {
                    assert(Multiset::singleton(v).subset_of(d)) by {
                        assert(forall|w: Event| #[trigger] Multiset::singleton(v).count(w)
                            <= d.count(w));
                    }
                    assert(d.sub(Multiset::singleton(v)).len() == d.len() - 1);
                    assert(false);
                }
            }
        }
        assert(post.to_multiset() =~= a.to_multiset());
        lemma_sends_multiset(post, a);
    } else {
        let e = choose|e: Event| d.count(e) > 0;
        assert(exists|e: Event| d.count(e) > 0) by {
            if forall|v: Event| #[trigger] d.count(v) == 0 {
                assert(d =~= Multiset::<Event>::empty());
            }
        }
        assert(post.to_multiset().count(e) > 0);
        assert(post.contains(e));
        let j = choose|j: int| 0 <= j < post.len() && post[j] == e;
        assert(post.remove(j).to_multiset() == post.to_multiset().remove(e));
        assert(post.remove(j).to_multiset() =~= a.to_multiset().add(d.remove(e)));
        lemma_sends_union_local(post.remove(j), a, d.remove(e));
        lemma_sends_remove(post, j);
        assert(!is_send_event(e));
    }
}

/// Every delivered receipt is local work.
proof fn lemma_deliveries_local(msgs: Seq<OutboundMsg>, base: u64, dst: u32)
    ensures
        forall|e: Event| deliveries_to(msgs, base, dst).count(e) > 0 ==> !is_send_event(e),
{
    assert forall|e: Event| deliveries_to(msgs, base, dst).count(e) > 0 implies !is_send_event(
        e,
    ) by {
        lemma_deliveries_elements(msgs, base, dst, e);
    }
}

/// One boundary conserves the stamp budget exactly: the stamps a window
/// consumes equal the sends it drains, and receipts add no sends, so
/// `next_seq + queued sends` never grows.
proof fn lemma_window_budget_upto(pre: Seq<Host>, post: Seq<Host>, we: u64, base: u64, k: int)
    requires
        window_post(pre, post, we, base),
        forall|c: int| 0 <= c < pre.len() ==> (#[trigger] pre[c]).queue.wf(),
        0 <= k <= pre.len(),
    ensures
        queue_sends_upto(post, k) + window_msgs_upto(pre, k, we).len() == queue_sends_upto(pre, k),
    decreases k,
{
    if k > 0 {
        lemma_window_budget_upto(pre, post, we, base, k - 1);
        let c = k - 1;
        let q = pre[c].queue@;
        assert(host_window_post(pre[c], post[c], pre, c, we, base));
        crate::host::lemma_sorted_split(q, we);
        lemma_sends_concat(drained_of(q, we), rest_of(q, we));
        assert(sends_in(q) == sends_in(drained_of(q, we)) + sends_in(rest_of(q, we)));
        lemma_msgs_len_is_sends(drained_of(q, we));
        lemma_deliveries_local(window_msgs(pre, we), base, c as u32);
        lemma_sends_union_local(
            post[c].queue@,
            rest_of(q, we),
            deliveries_to(window_msgs(pre, we), base, c as u32),
        );
        assert(sends_in(post[c].queue@) == sends_in(rest_of(q, we))) by {
            // the union lemma speaks of an equal-multiset witness of the rest
            lemma_sends_multiset(rest_of(q, we), rest_of(q, we));
        }
    }
}

/// The messages a window can emit never exceed the queued sends.
proof fn lemma_window_msgs_within_budget(hosts: Seq<Host>, we: u64, k: int)
    requires
        forall|c: int| 0 <= c < hosts.len() ==> (#[trigger] hosts[c]).queue.wf(),
        0 <= k <= hosts.len(),
    ensures
        window_msgs_upto(hosts, k, we).len() <= queue_sends_upto(hosts, k),
        queue_sends_upto(hosts, k) >= 0,
    decreases k,
{
    if k > 0 {
        lemma_window_msgs_within_budget(hosts, we, k - 1);
        let q = hosts[k - 1].queue@;
        crate::host::lemma_sorted_split(q, we);
        lemma_sends_concat(drained_of(q, we), rest_of(q, we));
        lemma_msgs_len_is_sends(drained_of(q, we));
        lemma_sends_nonneg(drained_of(q, we));
        lemma_sends_nonneg(rest_of(q, we));
    }
}

/// The earliest time among the kept events of `q`, `u64::MAX` when none.
pub open spec fn rest_next_ns(q: Seq<Event>, we: u64) -> u64 {
    if rest_of(q, we).len() == 0 {
        u64::MAX
    } else {
        rest_of(q, we)[0].time.ns
    }
}

/// The concatenation of all hosts' outboxes up to host `k`, in id order.
pub open spec fn outboxes_upto(hosts: Seq<Host>, k: int) -> Seq<OutboundMsg>
    decreases k,
{
    if k <= 0 {
        Seq::empty()
    } else {
        outboxes_upto(hosts, k - 1) + hosts[k - 1].outbox@
    }
}

/// All messages of the window: every host drains up to the window end and
/// the emitted messages are gathered source by source, in id order.
pub open spec fn window_msgs_upto(hosts: Seq<Host>, k: int, we: u64) -> Seq<OutboundMsg>
    decreases k,
{
    if k <= 0 {
        Seq::empty()
    } else {
        window_msgs_upto(hosts, k - 1, we) + msgs_of(drained_of(hosts[k - 1].queue@, we))
    }
}

/// All messages the window `[·, we)` emits, given the pre-window hosts.
pub open spec fn window_msgs(hosts: Seq<Host>, we: u64) -> Seq<OutboundMsg> {
    window_msgs_upto(hosts, hosts.len() as int, we)
}

/// The receipt event a delivered message becomes, under its fresh stamp.
pub open spec fn delivery_event(m: OutboundMsg, seq: u64) -> Event {
    Event { time: m.time, seq, payload: EventPayload::Local { kind: m.kind } }
}

/// The receipt events host `dst` is handed when the messages `msgs` are
/// delivered in order with stamps `base`, `base+1`, ….
pub open spec fn deliveries_to(msgs: Seq<OutboundMsg>, base: u64, dst: u32) -> Multiset<Event>
    decreases msgs.len(),
{
    if msgs.len() == 0 {
        Multiset::empty()
    } else {
        let rest = deliveries_to(msgs.drop_last(), base, dst);
        if msgs.last().dst == dst {
            rest.insert(delivery_event(msgs.last(), (base + msgs.len() - 1) as u64))
        } else {
            rest
        }
    }
}

/// `v` is the fold of the per-worker minima for the window ending at `we`:
/// a lower bound on every host's next event time after its drain and on
/// every in-flight message's delivery time, attained at one of them unless
/// nothing at all is outstanding.
pub open spec fn is_fold_min(v: u64, hosts: Seq<Host>, we: u64) -> bool {
    &&& forall|i: int|
        0 <= i < hosts.len() ==> v <= rest_next_ns(#[trigger] hosts[i].queue@, we)
    &&& forall|j: int|
        0 <= j < window_msgs(hosts, we).len() ==> v <= (#[trigger] window_msgs(hosts, we)[
            j
        ]).time.ns
    &&& (v == u64::MAX || (exists|i: int|
        0 <= i < hosts.len() && v == rest_next_ns(#[trigger] hosts[i].queue@, we)) || (exists|
        j: int,
    |
        0 <= j < window_msgs(hosts, we).len() && v == (#[trigger] window_msgs(hosts, we)[
            j
        ]).time.ns))
}

/// The fold's characterization pins it: any two folds of the same window
/// agree, so the folded `t_next` is exactly the minimum over all hosts of
/// the next event time, with the in-flight messages folded in and empty
/// hosts absent.
pub proof fn lemma_fold_min_unique(v1: u64, v2: u64, hosts: Seq<Host>, we: u64)
    requires
        is_fold_min(v1, hosts, we),
        is_fold_min(v2, hosts, we),
    ensures
        v1 == v2,
{
}

/// How one host leaves a window: its queue keeps exactly the events at or
/// after the end, the drained prefix lands on the executed record, and the
/// messages it emitted sit in the outbox.
pub open spec fn drained_from(post: Host, pre: Host, we: u64) -> bool {
    &&& post.queue.wf()
    &&& post.queue@ == rest_of(pre.queue@, we)
    &&& post.executed@ == pre.executed@ + drained_of(pre.queue@, we)
    &&& post.outbox@ == pre.outbox@ + msgs_of(drained_of(pre.queue@, we))
    &&& post.queue.popped_times() == pre.queue.popped_times() + times_of(
        drained_of(pre.queue@, we),
    )
    &&& post.queue.last_popped() == if drained_of(pre.queue@, we).len() == 0 {
        pre.queue.last_popped()
    } else {
        drained_of(pre.queue@, we).last().time.ns
    }
    &&& post.params == pre.params
    &&& post.applications == pre.applications
    &&& post.current_time == pre.current_time
    &&& post.shmem_locked == pre.shmem_locked
    &&& post.is_shutdown == pre.is_shutdown
}

/// How one host leaves the whole boundary: drained, delivered to, outbox
/// cleared. The delivered contents are pinned as a multiset; with the queue
/// sorted and stamps unique, that pins the queue itself.
pub open spec fn host_window_post(
    hpre: Host,
    hpost: Host,
    pre: Seq<Host>,
    c: int,
    we: u64,
    base: u64,
) -> bool {
    &&& hpost.executed@ == hpre.executed@ + drained_of(hpre.queue@, we)
    &&& hpost.queue.wf()
    &&& hpost.queue@.to_multiset() == rest_of(hpre.queue@, we).to_multiset().add(
        deliveries_to(window_msgs(pre, we), base, c as u32),
    )
    &&& hpost.queue.popped_times() == hpre.queue.popped_times() + times_of(
        drained_of(hpre.queue@, we),
    )
    &&& hpost.queue.last_popped() == if drained_of(hpre.queue@, we).len() == 0 {
        hpre.queue.last_popped()
    } else {
        drained_of(hpre.queue@, we).last().time.ns
    }
    &&& hpost.params == hpre.params
    &&& hpost.applications == hpre.applications
    &&& hpost.outbox@.len() == 0
    &&& !hpost.shmem_locked
    &&& hpost.is_shutdown == hpre.is_shutdown
}

/// How the host list leaves the boundary, host by host.
pub open spec fn window_post(pre: Seq<Host>, post: Seq<Host>, we: u64, base: u64) -> bool {
    &&& post.len() == pre.len()
    &&& forall|c: int|
        0 <= c < pre.len() ==> host_window_post(pre[c], #[trigger] post[c], pre, c, we, base)
}

/// A shorter prefix of the gathered messages is a prefix of a longer one.
proof fn lemma_upto_prefix(hosts: Seq<Host>, k: int, m: int, we: u64)
    requires
        0 <= k <= m <= hosts.len(),
    ensures
        window_msgs_upto(hosts, k, we).len() <= window_msgs_upto(hosts, m, we).len(),
        window_msgs_upto(hosts, k, we) == window_msgs_upto(hosts, m, we).take(
            window_msgs_upto(hosts, k, we).len() as int,
        ),
    decreases m - k,
{
    if m > k {
        lemma_upto_prefix(hosts, k, m - 1, we);
        assert(window_msgs_upto(hosts, m, we) == window_msgs_upto(hosts, m - 1, we) + msgs_of(
            drained_of(hosts[m - 1].queue@, we),
        ));
        assert(window_msgs_upto(hosts, k, we) =~= window_msgs_upto(hosts, m, we).take(
            window_msgs_upto(hosts, k, we).len() as int,
        ));
    } else {
        assert(window_msgs_upto(hosts, k, we) =~= window_msgs_upto(hosts, m, we).take(
            window_msgs_upto(hosts, k, we).len() as int,
        ));
    }
}

/// Where host `h`'s `jj`-th message lands in the gathered window messages.
proof fn lemma_window_msgs_index(hosts: Seq<Host>, h: int, jj: int, we: u64)
    requires
        0 <= h < hosts.len(),
        0 <= jj < msgs_of(drained_of(hosts[h].queue@, we)).len(),
    ensures
        ({
            let j = window_msgs_upto(hosts, h, we).len() + jj;
            &&& 0 <= j < window_msgs(hosts, we).len()
            &&& window_msgs(hosts, we)[j] == msgs_of(drained_of(hosts[h].queue@, we))[jj]
        }),
{
    lemma_upto_prefix(hosts, h + 1, hosts.len() as int, we);
    assert(window_msgs_upto(hosts, h + 1, we) == window_msgs_upto(hosts, h, we) + msgs_of(
        drained_of(hosts[h].queue@, we),
    ));
    let j = window_msgs_upto(hosts, h, we).len() + jj;
    assert(window_msgs_upto(hosts, h + 1, we)[j as int] == msgs_of(
        drained_of(hosts[h].queue@, we),
    )[jj]);
    assert(window_msgs(hosts, we)[j as int] == window_msgs_upto(hosts, h + 1, we)[j as int]);
}

/// Every gathered window message comes from some host's emitted messages.
proof fn lemma_window_msgs_member(hosts: Seq<Host>, j: int, we: u64)
    requires
        0 <= j < window_msgs(hosts, we).len(),
    ensures
        exists|h: int, jj: int|
            {
                &&& 0 <= h < hosts.len()
                &&& 0 <= jj < msgs_of(drained_of(hosts[h].queue@, we)).len()
                &&& window_msgs(hosts, we)[j] == msgs_of(drained_of(hosts[h].queue@, we))[jj]
            },
{
    lemma_window_msgs_member_upto(hosts, hosts.len() as int, j, we);
}

proof fn lemma_window_msgs_member_upto(hosts: Seq<Host>, k: int, j: int, we: u64)
    requires
        0 <= k <= hosts.len(),
        0 <= j < window_msgs_upto(hosts, k, we).len(),
    ensures
        exists|h: int, jj: int|
            {
                &&& 0 <= h < k
                &&& 0 <= jj < msgs_of(drained_of(hosts[h].queue@, we)).len()
                &&& window_msgs_upto(hosts, k, we)[j] == msgs_of(
                    drained_of(hosts[h].queue@, we),
                )[jj]
            },
    decreases k,
{
    let prev = window_msgs_upto(hosts, k - 1, we);
    if j < prev.len() {
        lemma_window_msgs_member_upto(hosts, k - 1, j, we);
        let (h, jj) = choose|h: int, jj: int|
            {
                &&& 0 <= h < k - 1
                &&& 0 <= jj < msgs_of(drained_of(hosts[h].queue@, we)).len()
                &&& prev[j] == msgs_of(drained_of(hosts[h].queue@, we))[jj]
            };
        assert(window_msgs_upto(hosts, k, we)[j] == prev[j]);
        assert(window_msgs_upto(hosts, k, we)[j] == msgs_of(drained_of(hosts[h].queue@, we))[jj]);
    } else {
        let jj = j - prev.len();
        assert(window_msgs_upto(hosts, k, we)[j] == msgs_of(
            drained_of(hosts[k - 1].queue@, we),
        )[jj]);
    }
}

/// Messages emitted by causally sound events are causally sound: they reach
/// a real host no earlier than the window end.
proof fn lemma_msgs_of_bounds(s: Seq<Event>, n: int, latency: u64, we: u64)
    requires
        forall|e: int|
            0 <= e < s.len() ==> ((#[trigger] s[e]).payload matches EventPayload::Send {
                dst,
                delay,
                ..
            } ==> dst < n && delay.ns >= latency),
        forall|e: int| 0 <= e < s.len() ==> (#[trigger] s[e]).time.ns + latency >= we,
    ensures
        forall|m: int|
            0 <= m < msgs_of(s).len() ==> (#[trigger] msgs_of(s)[m]).time.ns >= we && msgs_of(s)[
                m
            ].dst < n,
    decreases s.len(),
{
    if s.len() > 0 {
        lemma_msgs_of_bounds(s.drop_last(), n, latency, we);
        let e = s.last();
        assert(e == s[s.len() - 1]);
        assert forall|i: int| 0 <= i < s.drop_last().len() implies ((#[trigger] s.drop_last()[
            i
        ]).payload matches EventPayload::Send { dst, delay, .. } ==> dst < n && delay.ns >= latency)
            && s.drop_last()[i].time.ns + latency >= we by {
            assert(s.drop_last()[i] == s[i]);
        }
        match e.payload {
            EventPayload::Send { dst, delay, .. } => {
                assert(sat_add_ns(e.time.ns, delay.ns) >= we);
                assert forall|m: int| 0 <= m < msgs_of(s).len() implies (#[trigger] msgs_of(s)[
                    m
                ]).time.ns >= we && msgs_of(s)[m].dst < n by {
                    if m < msgs_of(s.drop_last()).len() {
                        assert(msgs_of(s)[m] == msgs_of(s.drop_last())[m]);
                    } else {
                        assert(msgs_of(s)[m] == OutboundMsg {
                            dst,
                            time: EmulatedTime { ns: sat_add_ns(e.time.ns, delay.ns) },
                            kind: crate::event_queue::event_kind(e),
                        });
                    }
                }
            },
            EventPayload::Local { .. } => {
                assert forall|m: int| 0 <= m < msgs_of(s).len() implies (#[trigger] msgs_of(s)[
                    m
                ]).time.ns >= we && msgs_of(s)[m].dst < n by {
                    assert(msgs_of(s) == msgs_of(s.drop_last()) + Seq::<OutboundMsg>::empty());
                    assert(msgs_of(s)[m] == msgs_of(s.drop_last())[m]);
                }
            },
        }
    }
}

/// The elements a delivery multiset holds: each is the receipt of one of
/// the delivered messages, under its assigned stamp.
proof fn lemma_deliveries_elements(msgs: Seq<OutboundMsg>, base: u64, dst: u32, e: Event)
    requires
        deliveries_to(msgs, base, dst).count(e) > 0,
    ensures
        exists|j: int|
            {
                &&& 0 <= j < msgs.len()
                &&& msgs[j].dst == dst
                &&& e == delivery_event(msgs[j], (base + j) as u64)
            },
    decreases msgs.len(),
{
    broadcast use vstd::multiset::group_multiset_axioms;

    if msgs.len() > 0 {
        let last = msgs.last();
        let rest = deliveries_to(msgs.drop_last(), base, dst);
        if last.dst == dst && e == delivery_event(last, (base + msgs.len() - 1) as u64) {
            assert(msgs[msgs.len() - 1].dst == dst);
        } else {
            assert(rest.count(e) > 0);
            lemma_deliveries_elements(msgs.drop_last(), base, dst, e);
            let j = choose|j: int|
                {
                    &&& 0 <= j < msgs.drop_last().len()
                    &&& msgs.drop_last()[j].dst == dst
                    &&& e == delivery_event(msgs.drop_last()[j], (base + j) as u64)
                };
            assert(msgs[j] == msgs.drop_last()[j]);
        }
    }
}

/// How many messages the events of one host's window drain will emit.
fn count_host_msgs(h: &Host, we: u64) -> (cnt: u64)
    requires
        h.queue.wf(),
    ensures
        cnt == msgs_of(drained_of(h.queue@, we)).len(),
{
    let ghost q = h.queue@;
    let n = h.queue.len();
    let mut cnt: u64 = 0;
    let mut k: usize = 0;
    proof {
        assert(q.take(0) =~= Seq::<Event>::empty());
    }
    while k < n && h.queue.items[k].time.ns < we
        invariant
            k <= n == q.len(),
            h.queue@ == q,
            crate::event_queue::sorted_events(q),
            forall|i: int| 0 <= i < k ==> (#[trigger] q[i]).time.ns < we,
            cnt == msgs_of(q.take(k as int)).len(),
            cnt <= k,
        decreases n - k,
    {
        let ghost pre = q.take(k as int);
        proof {
            assert(q.take(k + 1).drop_last() =~= pre);
            assert(q.take(k + 1).last() == q[k as int]);
        }
        match h.queue.items[k].payload {
            EventPayload::Send { .. } => {
                cnt += 1;
            },
            EventPayload::Local { .. } => {},
        }
        k += 1;
    }
    proof {
        if k < n {
            assert forall|i: int| k <= i < q.len() implies (#[trigger] q[i]).time.ns >= we by {
                if i > k {
                    assert(crate::event_queue::event_lt(q[k as int], q[i]));
                }
            }
        }
        crate::host::lemma_split_prefix(q, k as int, we);
    }
    cnt
}

impl SimulationRun {
    /// Counts the messages the current window will emit and checks that
    /// enough fresh event stamps remain; `None` when they would run out.
    fn count_window_msgs(&self, we: u64) -> (r: Option<u64>)
        requires
            self.wf(),
        ensures
            (r is None) == (self.next_seq + window_msgs(self.hosts@, we).len() > u64::MAX),
            r matches Some(t) ==> t == window_msgs(self.hosts@, we).len() && self.next_seq + t
                <= u64::MAX,
    {
        let budget: u64 = u64::MAX - self.next_seq;
        let mut remaining: u64 = budget;
        let n = self.hosts.len();
        let mut h: usize = 0;
        while h < n
            invariant
                h <= n == self.hosts@.len(),
                self.wf(),
                budget == u64::MAX - self.next_seq,
                remaining <= budget,
                budget - remaining == window_msgs_upto(self.hosts@, h as int, we).len(),
            decreases n - h,
        {
            proof {
                assert(host_ok(
                    self.hosts@[h as int],
                    h as int,
                    self.n(),
                    self.next_seq,
                    self.shared.smallest_latency.ns,
                ));
            }
            let cnt = count_host_msgs(&self.hosts[h], we);
            proof {
                assert(window_msgs_upto(self.hosts@, h + 1, we) == window_msgs_upto(
                    self.hosts@,
                    h as int,
                    we,
                ) + msgs_of(drained_of(self.hosts@[h as int].queue@, we)));
            }
            if cnt > remaining {
                proof {
                    lemma_upto_prefix(self.hosts@, h + 1, self.hosts@.len() as int, we);
                }
                return None;
            }
            remaining -= cnt;
            h += 1;
        }
        Some(budget - remaining)
    }

    /// Runs the current window: every host, in the shuffled worker order,
    /// drains its queue up to the window end; the per-worker minima of the
    /// hosts' next-event times and of the in-flight deliveries are folded
    /// into one global next-event time.
    fn execute_hosts(&mut self, we: u64) -> (t_next: u64)
        requires
            old(self).wf(),
            old(self).window matches Some((ws0, we0)) && we0.ns == we,
        ensures
            final(self).hosts@.len() == old(self).hosts@.len(),
            forall|c: int|
                0 <= c < old(self).hosts@.len() ==> drained_from(
                    #[trigger] final(self).hosts@[c],
                    old(self).hosts@[c],
                    we,
                ),
            is_fold_min(t_next, old(self).hosts@, we),
            final(self).shared == old(self).shared,
            final(self).schedule_order == old(self).schedule_order,
            final(self).parallelism == old(self).parallelism,
            final(self).cpus == old(self).cpus,
            final(self).window == old(self).window,
            final(self).next_seq == old(self).next_seq,
            final(self).last_heartbeat == old(self).last_heartbeat,
            final(self).heartbeat_interval == old(self).heartbeat_interval,
            final(self).controller == old(self).controller,
    {
        let n = self.hosts.len();
        let ghost pre = self.hosts@;
        let ghost order = self.schedule_order@;
        proof {
            crate::sched::lemma_host_order_props(order, n as int);
        }
        let mut rm: u64 = u64::MAX;
        let mut p: usize = 0;
        while p < self.schedule_order.len()
            invariant
                p <= order.len() == n,
                n == pre.len(),
                self.schedule_order@ == order,
                self.hosts@.len() == n,
                forall|q: int| 0 <= q < n ==> (#[trigger] order[q]) < n,
                forall|q1: int, q2: int| 0 <= q1 < q2 < n ==> order[q1] != order[q2],
                forall|i: int|
                    0 <= i < n ==> ((#[trigger] pre[i]).queue.wf() && !pre[i].shmem_locked
                        && !pre[i].is_shutdown && pre[i].outbox@.len() == 0),
                forall|q: int|
                    0 <= q < p ==> drained_from(
                        #[trigger] self.hosts@[order[q] as int],
                        pre[order[q] as int],
                        we,
                    ),
                forall|hh: int|
                    0 <= hh < n ==> (#[trigger] self.hosts@[hh] == pre[hh] || exists|q: int|
                        0 <= q < p && order[q] == hh),
                forall|q: int|
                    0 <= q < p ==> rm <= rest_next_ns((#[trigger] pre[order[q] as int]).queue@, we),
                forall|q: int, jj: int|
                    0 <= q < p && 0 <= jj < msgs_of(
                        drained_of(pre[order[q] as int].queue@, we),
                    ).len() ==> rm <= (#[trigger] msgs_of(drained_of(pre[order[q] as int].queue@, we))[
                        jj
                    ]).time.ns,
                rm == u64::MAX || (exists|q: int|
                    0 <= q < p && rm == rest_next_ns((#[trigger] pre[order[q] as int]).queue@, we))
                    || (exists|q: int, jj: int|
                    0 <= q < p && 0 <= jj < msgs_of(
                        drained_of(pre[order[q] as int].queue@, we),
                    ).len() && rm == (#[trigger] msgs_of(
                        drained_of(pre[order[q] as int].queue@, we),
                    )[jj]).time.ns),
                self.shared == old(self).shared,
                self.schedule_order == old(self).schedule_order,
                self.parallelism == old(self).parallelism,
                self.cpus == old(self).cpus,
                self.window == old(self).window,
                self.next_seq == old(self).next_seq,
                self.last_heartbeat == old(self).last_heartbeat,
                self.heartbeat_interval == old(self).heartbeat_interval,
                self.controller == old(self).controller,
            decreases n - p,
        {
            let hu = self.schedule_order[p];
            let h = hu as usize;
            proof {
                assert(order[p as int] == hu && (hu as int) < n);
                // this host has not been visited: the order has no repeats
                if self.hosts@[h as int] != pre[h as int] {
                    let q = choose|q: int| 0 <= q < p && order[q] == h as int;
                    assert(order[q] != order[p as int]);
                    assert(false);
                }
            }
            let ghost hosts_before = self.hosts@;
            let ghost rm_before = rm;
            self.hosts[h].lock_shmem();
            self.hosts[h].execute(EmulatedTime { ns: we });
            let nxt = self.hosts[h].next_event_time();
            self.hosts[h].unlock_shmem();
            let ghost msgs_h = msgs_of(drained_of(pre[h as int].queue@, we));
            proof {
                assert(drained_from(self.hosts@[h as int], pre[h as int], we));
                assert(self.hosts@[h as int].outbox@ =~= msgs_h);
                assert(rest_next_ns(pre[h as int].queue@, we) == match nxt {
                    Some(t) => t.ns,
                    None => u64::MAX,
                });
            }
            match nxt {
                Some(t) => {
                    if t.ns < rm {
                        rm = t.ns;
                    }
                },
                None => {},
            }
            proof {
                assert(rm <= rm_before);
                assert(rm <= rest_next_ns(pre[h as int].queue@, we));
            }
            let ghost rm_mid = rm;
            let outbox_len = self.hosts[h].outbox.len();
            let mut m: usize = 0;
            while m < outbox_len
                invariant
                    m <= outbox_len,
                    h < n == self.hosts@.len(),
                    self.hosts@[h as int].outbox@ == msgs_h,
                    outbox_len == msgs_h.len(),
                    forall|jj: int| 0 <= jj < m ==> rm <= (#[trigger] msgs_h[jj]).time.ns,
                    rm <= rm_mid,
                    rm == rm_mid || (exists|jj: int| 0 <= jj < m && rm == (#[trigger] msgs_h[jj]).time.ns),
                decreases outbox_len - m,
            {
                let t = self.hosts[h].outbox[m].time.ns;
                if t < rm {
                    rm = t;
                }
                m += 1;
            }
            proof {
                // the processed set grows by this host; every earlier fact
                // still speaks of untouched entries
                assert forall|q: int|
                    0 <= q < p + 1 implies drained_from(
                    #[trigger] self.hosts@[order[q] as int],
                    pre[order[q] as int],
                    we,
                ) && rm <= rest_next_ns(pre[order[q] as int].queue@, we) by {
                    if q < p {
                        assert(order[q] != order[p as int]);
                        assert(self.hosts@[order[q] as int] == hosts_before[order[q] as int]);
                    }
                }
                assert forall|q: int, jj: int|
                    0 <= q < p + 1 && 0 <= jj < msgs_of(
                        drained_of(pre[order[q] as int].queue@, we),
                    ).len() implies rm <= (#[trigger] msgs_of(
                    drained_of(pre[order[q] as int].queue@, we),
                )[jj]).time.ns by {
                    if q < p {
                        assert(rm_before <= msgs_of(drained_of(pre[order[q] as int].queue@, we))[
                            jj
                        ].time.ns);
                    } else {
                        assert(rm <= msgs_h[jj].time.ns);
                    }
                }
            }
            p += 1;
        }
        proof {
            // every host was visited exactly once
            assert forall|c: int| 0 <= c < n implies drained_from(
                #[trigger] self.hosts@[c],
                pre[c],
                we,
            ) && rm <= rest_next_ns((#[trigger] pre[c]).queue@, we) by {
                assert(order.contains(c as u32));
                let q = choose|q: int| 0 <= q < order.len() && order[q] == c as u32;
                assert(order[q] as int == c);
                assert(drained_from(self.hosts@[order[q] as int], pre[order[q] as int], we));
                assert(rm <= rest_next_ns((pre[order[q] as int]).queue@, we));
            }
            assert forall|i: int| 0 <= i < pre.len() implies rm <= rest_next_ns(
                (#[trigger] pre[i]).queue@,
                we,
            ) by {
                // mentioning the drained host lets the per-position facts fire
                let hp = self.hosts@[i];
                assert(rm <= rest_next_ns(pre[i].queue@, we));
            }
            assert forall|j: int|
                0 <= j < window_msgs(pre, we).len() implies rm <= (#[trigger] window_msgs(pre, we)[
                j
            ]).time.ns by {
                lemma_window_msgs_member(pre, j, we);
                let (hh, jj) = choose|hh: int, jj: int|
                    {
                        &&& 0 <= hh < pre.len()
                        &&& 0 <= jj < msgs_of(drained_of(pre[hh].queue@, we)).len()
                        &&& window_msgs(pre, we)[j] == msgs_of(drained_of(pre[hh].queue@, we))[jj]
                    };
                assert(order.contains(hh as u32));
                let q = choose|q: int| 0 <= q < order.len() && order[q] == hh as u32;
                assert(rm <= msgs_of(drained_of(pre[order[q] as int].queue@, we))[jj].time.ns);
            }
            if rm != u64::MAX {
                if exists|q: int|
                    0 <= q < n && rm == rest_next_ns((#[trigger] pre[order[q] as int]).queue@, we) {
                    let q = choose|q: int|
                        0 <= q < n && rm == rest_next_ns((#[trigger] pre[order[q] as int]).queue@, we);
                    let i = order[q] as int;
                    assert(0 <= i < pre.len() && rm == rest_next_ns(pre[i].queue@, we));
                } else {
                    let (q, jj) = choose|q: int, jj: int|
                        0 <= q < n && 0 <= jj < msgs_of(
                            drained_of(pre[order[q] as int].queue@, we),
                        ).len() && rm == (#[trigger] msgs_of(
                            drained_of(pre[order[q] as int].queue@, we),
                        )[jj]).time.ns;
                    let hh = order[q] as int;
                    lemma_window_msgs_index(pre, hh, jj, we);
                    let j = window_msgs_upto(pre, hh, we).len() + jj;
                    assert(0 <= j < window_msgs(pre, we).len() && rm == window_msgs(pre, we)[
                        j as int
                    ].time.ns);
                }
            }
        }
        rm
    }
}

/// A shorter prefix of the gathered outboxes is a prefix of a longer one.
proof fn lemma_outboxes_prefix(hosts: Seq<Host>, k: int, m: int)
    requires
        0 <= k <= m <= hosts.len(),
    ensures
        outboxes_upto(hosts, k).len() <= outboxes_upto(hosts, m).len(),
        outboxes_upto(hosts, k) == outboxes_upto(hosts, m).take(outboxes_upto(hosts, k).len() as int),
    decreases m - k,
{
    if m > k {
        lemma_outboxes_prefix(hosts, k, m - 1);
        assert(outboxes_upto(hosts, m) == outboxes_upto(hosts, m - 1) + hosts[m - 1].outbox@);
        assert(outboxes_upto(hosts, k) =~= outboxes_upto(hosts, m).take(
            outboxes_upto(hosts, k).len() as int,
        ));
    } else {
        assert(outboxes_upto(hosts, k) =~= outboxes_upto(hosts, m).take(
            outboxes_upto(hosts, k).len() as int,
        ));
    }
}

/// Where host `h`'s `i`-th outbox message lands among all gathered outboxes.
proof fn lemma_outboxes_index(hosts: Seq<Host>, h: int, i: int)
    requires
        0 <= h < hosts.len(),
        0 <= i < hosts[h].outbox@.len(),
    ensures
        ({
            let j = outboxes_upto(hosts, h).len() + i;
            &&& 0 <= j < outboxes_upto(hosts, hosts.len() as int).len()
            &&& outboxes_upto(hosts, hosts.len() as int)[j] == hosts[h].outbox@[i]
        }),
{
    lemma_outboxes_prefix(hosts, h + 1, hosts.len() as int);
    assert(outboxes_upto(hosts, h + 1) == outboxes_upto(hosts, h) + hosts[h].outbox@);
    let j = outboxes_upto(hosts, h).len() + i;
    assert(outboxes_upto(hosts, h + 1)[j as int] == hosts[h].outbox@[i]);
    assert(outboxes_upto(hosts, hosts.len() as int)[j as int] == outboxes_upto(hosts, h + 1)[
        j as int
    ]);
}

/// How one host's queue stands midway through delivery: the first `j`
/// gathered messages delivered, nothing else disturbed.
pub open spec fn delivery_inv(
    cur: Host,
    mid: Host,
    msgs: Seq<OutboundMsg>,
    base: u64,
    j: int,
    c: int,
) -> bool {
    &&& cur.queue.wf()
    &&& cur.queue@.to_multiset() == mid.queue@.to_multiset().add(
        deliveries_to(msgs.take(j), base, c as u32),
    )
    &&& cur.queue.last_popped() == mid.queue.last_popped()
    &&& cur.queue.popped_times() == mid.queue.popped_times()
    &&& cur.executed@ == mid.executed@
    &&& cur.params == mid.params
    &&& cur.applications == mid.applications
    &&& cur.current_time == mid.current_time
    &&& cur.shmem_locked == mid.shmem_locked
    &&& cur.is_shutdown == mid.is_shutdown
    &&& forall|k: int| 0 <= k < cur.queue@.len() ==> (#[trigger] cur.queue@[k]).seq < base + j
}

impl SimulationRun {
    /// Delivers every outbox at the boundary, source hosts in id order, each
    /// message as a receipt event in its destination's queue under a fresh
    /// stamp. Delivery times never precede the window end, so time never
    /// moves backward.
    fn deliver_messages(&mut self, we: u64, total: u64)
        requires
            old(self).hosts@.len() <= u32::MAX,
            total == outboxes_upto(old(self).hosts@, old(self).hosts@.len() as int).len(),
            old(self).next_seq + total <= u64::MAX,
            forall|c: int|
                0 <= c < old(self).hosts@.len() ==> {
                    let h = #[trigger] old(self).hosts@[c];
                    &&& h.queue.wf()
                    &&& h.queue.last_popped() < we
                    &&& (forall|k: int|
                        0 <= k < h.queue@.len() ==> (#[trigger] h.queue@[k]).seq < old(
                            self,
                        ).next_seq)
                    &&& (forall|m: int|
                        0 <= m < h.outbox@.len() ==> (#[trigger] h.outbox@[m]).time.ns >= we && (
                        h.outbox@[m]).dst < old(self).hosts@.len())
                },
        ensures
            final(self).hosts@.len() == old(self).hosts@.len(),
            forall|c: int|
                0 <= c < old(self).hosts@.len() ==> delivery_inv(
                    #[trigger] final(self).hosts@[c],
                    old(self).hosts@[c],
                    outboxes_upto(old(self).hosts@, old(self).hosts@.len() as int),
                    old(self).next_seq,
                    total as int,
                    c,
                ),
            forall|c: int|
                0 <= c < old(self).hosts@.len() ==> (#[trigger] final(self).hosts@[c]).outbox@.len()
                    == 0,
            final(self).next_seq == old(self).next_seq + total,
            final(self).shared == old(self).shared,
            final(self).schedule_order == old(self).schedule_order,
            final(self).parallelism == old(self).parallelism,
            final(self).cpus == old(self).cpus,
            final(self).window == old(self).window,
            final(self).last_heartbeat == old(self).last_heartbeat,
            final(self).heartbeat_interval == old(self).heartbeat_interval,
            final(self).controller == old(self).controller,
    {
        let n = self.hosts.len();
        let ghost mid = self.hosts@;
        let ghost base = self.next_seq;
        let ghost msgs_all = outboxes_upto(mid, n as int);
        proof {
            assert(msgs_all.take(0) =~= Seq::<OutboundMsg>::empty());
            assert forall|c: int| 0 <= c < n implies delivery_inv(
                #[trigger] self.hosts@[c],
                mid[c],
                msgs_all,
                base,
                0,
                c,
            ) by {
                broadcast use vstd::multiset::group_multiset_axioms;

                assert(self.hosts@[c].queue@.to_multiset() =~= mid[c].queue@.to_multiset().add(
                    Multiset::empty(),
                ));
            }
        }
        let mut h: usize = 0;
        while h < n
            invariant
                h <= n == self.hosts@.len(),
                n == mid.len(),
                n <= u32::MAX,
                base == old(self).next_seq,
                mid == old(self).hosts@,
                msgs_all == outboxes_upto(mid, n as int),
                total == msgs_all.len(),
                base + total <= u64::MAX,
                self.next_seq == base + outboxes_upto(mid, h as int).len(),
                forall|c: int|
                    0 <= c < n ==> delivery_inv(
                        #[trigger] self.hosts@[c],
                        mid[c],
                        msgs_all,
                        base,
                        self.next_seq - base,
                        c,
                    ),
                forall|c: int| 0 <= c < h ==> (#[trigger] self.hosts@[c]).outbox@.len() == 0,
                forall|c: int| h <= c < n ==> (#[trigger] self.hosts@[c]).outbox@ == mid[c].outbox@,
                forall|c: int|
                    0 <= c < n ==> {
                        let hm = #[trigger] mid[c];
                        &&& hm.queue.wf()
                        &&& hm.queue.last_popped() < we
                        &&& (forall|k: int|
                            0 <= k < hm.queue@.len() ==> (#[trigger] hm.queue@[k]).seq < base)
                        &&& (forall|m: int|
                            0 <= m < hm.outbox@.len() ==> (#[trigger] hm.outbox@[m]).time.ns >= we
                                && (hm.outbox@[m]).dst < n)
                    },
                self.shared == old(self).shared,
                self.schedule_order == old(self).schedule_order,
                self.parallelism == old(self).parallelism,
                self.cpus == old(self).cpus,
                self.window == old(self).window,
                self.last_heartbeat == old(self).last_heartbeat,
                self.heartbeat_interval == old(self).heartbeat_interval,
                self.controller == old(self).controller,
            decreases n - h,
        {
            let ghost j0 = outboxes_upto(mid, h as int).len() as int;
            let msgs = self.hosts[h].take_outbox();
            proof {
                assert(msgs@ == mid[h as int].outbox@);
                assert(outboxes_upto(mid, h + 1) == outboxes_upto(mid, h as int) + mid[
                    h as int
                ].outbox@);
                lemma_outboxes_prefix(mid, h + 1, n as int);
            }
            let mut i: usize = 0;
            while i < msgs.len()
                invariant
                    i <= msgs@.len(),
                    h < n == self.hosts@.len(),
                    n == mid.len(),
                    n <= u32::MAX,
                    base == old(self).next_seq,
                    mid == old(self).hosts@,
                    msgs_all == outboxes_upto(mid, n as int),
                    total == msgs_all.len(),
                    base + total <= u64::MAX,
                    msgs@ == mid[h as int].outbox@,
                    j0 == outboxes_upto(mid, h as int).len(),
                    self.next_seq == base + j0 + i,
                    forall|c: int|
                        0 <= c < n ==> delivery_inv(
                            #[trigger] self.hosts@[c],
                            mid[c],
                            msgs_all,
                            base,
                            self.next_seq - base,
                            c,
                        ),
                    forall|c: int| 0 <= c <= h ==> (#[trigger] self.hosts@[c]).outbox@.len() == 0,
                    forall|c: int|
                        h < c < n ==> (#[trigger] self.hosts@[c]).outbox@ == mid[c].outbox@,
                    forall|c: int|
                        0 <= c < n ==> {
                            let hm = #[trigger] mid[c];
                            &&& hm.queue.wf()
                            &&& hm.queue.last_popped() < we
                            &&& (forall|k: int|
                                0 <= k < hm.queue@.len() ==> (#[trigger] hm.queue@[k]).seq < base)
                            &&& (forall|m: int|
                                0 <= m < hm.outbox@.len() ==> (#[trigger] hm.outbox@[m]).time.ns
                                    >= we && (hm.outbox@[m]).dst < n)
                        },
                    self.shared == old(self).shared,
                    self.schedule_order == old(self).schedule_order,
                    self.parallelism == old(self).parallelism,
                    self.cpus == old(self).cpus,
                    self.window == old(self).window,
                    self.last_heartbeat == old(self).last_heartbeat,
                    self.heartbeat_interval == old(self).heartbeat_interval,
                    self.controller == old(self).controller,
                decreases msgs@.len() - i,
            {
                let m = msgs[i];
                let ghost j = j0 + i;
                proof {
                    lemma_outboxes_index(mid, h as int, i as int);
                    assert(msgs_all[j] == m);
                    assert(j < total);
                }
                let seq = self.next_seq;
                self.next_seq = self.next_seq + 1;
                let dst = m.dst as usize;
                proof {
                    assert(m.dst < n);
                }
                let event = Event { time: m.time, seq, payload: EventPayload::Local { kind: m.kind } };
                let ghost dst_pre = self.hosts@[dst as int].queue@;
                proof {
                    assert(delivery_inv(self.hosts@[dst as int], mid[dst as int], msgs_all, base, j, dst as int));
                    assert forall|k: int|
                        0 <= k < dst_pre.len() implies !crate::event_queue::same_key(
                        #[trigger] dst_pre[k],
                        event,
                    ) by {
                        assert(dst_pre[k].seq < base + j);
                    }
                    assert(m.time.ns >= we);
                    assert(self.hosts@[dst as int].queue.last_popped() < we);
                }
                let ghost hosts_pre = self.hosts@;
                let res = self.hosts[dst].queue.push(event);
                proof {
                    assert(res is Ok);
                    lemma_push_elements(dst_pre, self.hosts@[dst as int].queue@, event);
                    broadcast use vstd::multiset::group_multiset_axioms;

                    // the delivery prefix advances by one message
                    assert(msgs_all.take(j + 1).drop_last() =~= msgs_all.take(j));
                    assert(msgs_all.take(j + 1).last() == m);
                    assert(event == delivery_event(m, (base + j) as u64));
                    assert forall|c: int| 0 <= c < n implies delivery_inv(
                        #[trigger] self.hosts@[c],
                        mid[c],
                        msgs_all,
                        base,
                        j + 1,
                        c,
                    ) by {
                        if c == dst as int {
                            assert(deliveries_to(msgs_all.take(j + 1), base, c as u32)
                                =~= deliveries_to(msgs_all.take(j), base, c as u32).insert(event));
                            assert(self.hosts@[c].queue@.to_multiset() =~= mid[
                                c
                            ].queue@.to_multiset().add(
                                deliveries_to(msgs_all.take(j + 1), base, c as u32),
                            ));
                            assert forall|k: int|
                                0 <= k < self.hosts@[c].queue@.len() implies (#[trigger] self.hosts@[
                                c
                            ].queue@[k]).seq < base + j + 1 by {
                                let v = self.hosts@[c].queue@[k];
                                if v != event {
                                    let kk = choose|kk: int|
                                        0 <= kk < dst_pre.len() && dst_pre[kk] == v;
                                    assert(dst_pre[kk].seq < base + j);
                                }
                            }
                        } else {
                            assert(self.hosts@[c] == hosts_pre[c]);
                            assert(deliveries_to(msgs_all.take(j + 1), base, c as u32)
                                =~= deliveries_to(msgs_all.take(j), base, c as u32));
                        }
                    }
                }
                i += 1;
            }
            proof {
                assert(outboxes_upto(mid, h + 1).len() == j0 + msgs@.len());
            }
            h += 1;
        }
        proof {
            assert(outboxes_upto(mid, n as int).len() == total);
            assert(msgs_all.take(total as int) =~= msgs_all);
        }
    }
}

/// Once every host has drained its window, the gathered outboxes are
/// exactly the window's messages, gathered from the pre-window queues.
proof fn lemma_outboxes_are_window_msgs(cur: Seq<Host>, pre: Seq<Host>, we: u64, k: int)
    requires
        cur.len() == pre.len(),
        0 <= k <= pre.len(),
        forall|c: int| 0 <= c < pre.len() ==> drained_from(#[trigger] cur[c], pre[c], we),
        forall|c: int| 0 <= c < pre.len() ==> (#[trigger] pre[c]).outbox@.len() == 0,
    ensures
        outboxes_upto(cur, k) == window_msgs_upto(pre, k, we),
    decreases k,
{
    if k > 0 {
        lemma_outboxes_are_window_msgs(cur, pre, we, k - 1);
        assert(pre[k - 1].outbox@ =~= Seq::<OutboundMsg>::empty());
        assert(cur[k - 1].outbox@ =~= msgs_of(drained_of(pre[k - 1].queue@, we)));
    }
}

/// Every element of a sequence pinned as a union is an element of the
/// sequence part or counted by the multiset part.
proof fn lemma_union_elements(post: Seq<Event>, a: Seq<Event>, d: Multiset<Event>)
    requires
        post.to_multiset() == a.to_multiset().add(d),
    ensures
        forall|k: int|
            0 <= k < post.len() ==> (a.contains(#[trigger] post[k]) || d.count(post[k]) > 0),
{
    broadcast use vstd::seq_lib::group_to_multiset_ensures;
    broadcast use vstd::multiset::group_multiset_axioms;

    assert forall|k: int|
        0 <= k < post.len() implies (a.contains(#[trigger] post[k]) || d.count(post[k]) > 0) by {
        let v = post[k];
        assert(post.contains(v));
        assert(post.to_multiset().count(v) > 0);
        if d.count(v) == 0 {
            assert(a.to_multiset().count(v) > 0);
        }
    }
}

/// Every window message is causally safe: addressed to a real host, and
/// delivered no earlier than the window end.
proof fn lemma_window_msgs_safe(
    hosts: Seq<Host>,
    we: u64,
    next_seq: u64,
    latency: u64,
    runahead: u64,
    ws: u64,
)
    requires
        hosts.len() <= u32::MAX,
        runahead <= latency,
        forall|i: int|
            0 <= i < hosts.len() ==> host_ok(
                #[trigger] hosts[i],
                i,
                hosts.len() as int,
                next_seq,
                latency,
            ),
        forall|i: int|
            0 <= i < hosts.len() ==> host_window_ok(#[trigger] hosts[i], ws, we, runahead),
    ensures
        forall|j: int|
            0 <= j < window_msgs(hosts, we).len() ==> (#[trigger] window_msgs(hosts, we)[
                j
            ]).time.ns >= we && window_msgs(hosts, we)[j].dst < hosts.len(),
{
    assert forall|j: int|
        0 <= j < window_msgs(hosts, we).len() implies (#[trigger] window_msgs(hosts, we)[
        j
    ]).time.ns >= we && window_msgs(hosts, we)[j].dst < hosts.len() by {
        lemma_window_msgs_member(hosts, j, we);
        let (h, jj) = choose|h: int, jj: int|
            {
                &&& 0 <= h < hosts.len()
                &&& 0 <= jj < msgs_of(drained_of(hosts[h].queue@, we)).len()
                &&& window_msgs(hosts, we)[j] == msgs_of(drained_of(hosts[h].queue@, we))[jj]
            };
        let q = hosts[h].queue@;
        let d = drained_of(q, we);
        assert(host_ok(hosts[h], h, hosts.len() as int, next_seq, latency));
        crate::host::lemma_sorted_split(q, we);
        assert forall|e: int|
            0 <= e < d.len() implies ((#[trigger] d[e]).payload matches EventPayload::Send {
            dst,
            delay,
            ..
        } ==> dst < hosts.len() && delay.ns >= latency) && d[e].time.ns + latency >= we by {
            assert(d[e] == q[e]);
            assert(event_ok(q[e], hosts.len() as int, next_seq, latency));
            assert(host_window_ok(hosts[h], ws, we, runahead));
            assert(q[e].time.ns + runahead >= we);
        }
        lemma_msgs_of_bounds(d, hosts.len() as int, latency, we);
    }
}

/// What the driver reports back from one window boundary.
pub struct WindowOutcome {
    /// The folded global next-event time.
    pub t_next: EmulatedTime,
    /// The window start to stamp a heartbeat line with, when one is due.
    pub heartbeat: Option<EmulatedTime>,
    /// Whether run control asks the driver to block at this boundary.
    pub pause_now: bool,
    /// A captured restart request with its deadline (`UNSET_NS` for none).
    pub restart: Option<u64>,
    /// Whether the run is over: no next window was issued.
    pub finished: bool,
}

impl SimulationRun {
    /// Pumps one window: drains every host up to the window end, delivers
    /// the emitted messages at the boundary, folds the global next-event
    /// time, asks the controller for the next window, and performs the
    /// run-control boundary obligations. The run invariant reserves a
    /// stamp for every message the queues can still emit, so fresh stamps
    /// never run out here.
    pub fn run_window(&mut self, rc: &mut RunControlState) -> (out: WindowOutcome)
        requires
            old(self).wf(),
            old(self).window is Some,
        ensures
            final(self).wf(),
            ({
                let ws = old(self).window->Some_0.0;
                let we = old(self).window->Some_0.1;
                &&& window_post(old(self).hosts@, final(self).hosts@, we.ns, old(self).next_seq)
                &&& final(self).next_seq == old(self).next_seq + window_msgs(
                    old(self).hosts@,
                    we.ns,
                ).len()
                &&& is_fold_min(out.t_next.ns, old(self).hosts@, we.ns)
                &&& out.t_next.ns >= we.ns
                &&& ({
                    let (rc2, bo) = crate::run_control::boundary_spec(*old(rc), out.t_next.ns);
                    &&& *final(rc) == rc2
                    &&& out.restart == bo.restart
                    &&& out.pause_now == bo.pause_now
                })
                &&& (out.restart is Some ==> final(self).window is None)
                &&& (out.restart is None ==> final(self).window == match old(
                    self,
                ).controller.next_window_spec(we.ns, out.t_next.ns) {
                    Some((s, e)) => Some((EmulatedTime { ns: s }, EmulatedTime { ns: e })),
                    None => None::<(EmulatedTime, EmulatedTime)>,
                })
                &&& out.finished == (final(self).window is None)
                &&& out.heartbeat == (match old(self).heartbeat_interval {
                    Some(iv) => if ws.ns > old(self).last_heartbeat.ns + iv.ns {
                        Some(ws)
                    } else {
                        None::<EmulatedTime>
                    },
                    None => None::<EmulatedTime>,
                })
                &&& final(self).last_heartbeat == if out.heartbeat is Some {
                    ws
                } else {
                    old(self).last_heartbeat
                }
                &&& final(self).shared == old(self).shared
                &&& final(self).schedule_order == old(self).schedule_order
                &&& final(self).parallelism == old(self).parallelism
                &&& final(self).cpus == old(self).cpus
                &&& final(self).controller == old(self).controller
                &&& final(self).heartbeat_interval == old(self).heartbeat_interval
            }),
    {
        let w = match self.window {
            Some(w) => w,
            None => {
                proof {
                    assert(false);
                }
                (EmulatedTime { ns: 0 }, EmulatedTime { ns: 0 })
            },
        };
        let (ws, we) = w;
        let total = match self.count_window_msgs(we.ns) {
            Some(t) => t,
            None => {
                proof {
                    // the run invariant reserves a stamp for every message
                    // the queues can still emit, so the count always fits
                    assert forall|c: int| 0 <= c < self.n() implies (#[trigger] self.hosts@[
                        c
                    ]).queue.wf() by {
                        assert(host_ok(
                            self.hosts@[c],
                            c,
                            self.n(),
                            self.next_seq,
                            self.shared.smallest_latency.ns,
                        ));
                    }
                    lemma_window_msgs_within_budget(self.hosts@, we.ns, self.n());
                    assert(false);
                }
                0
            },
        };
        let ghost pre = self.hosts@;
        let ghost base = self.next_seq;
        let ghost n = pre.len() as int;
        let ghost latency = self.shared.smallest_latency.ns;
        let ghost runahead = self.controller.runahead.ns;

        let t_next_ns = self.execute_hosts(we.ns);
        proof {
            lemma_outboxes_are_window_msgs(self.hosts@, pre, we.ns, n);
            lemma_window_msgs_safe(pre, we.ns, base, latency, runahead, ws.ns);
            assert forall|c: int| 0 <= c < n implies {
                let h = #[trigger] self.hosts@[c];
                &&& h.queue.wf()
                &&& h.queue.last_popped() < we.ns
                &&& (forall|k: int|
                    0 <= k < h.queue@.len() ==> (#[trigger] h.queue@[k]).seq < base)
                &&& (forall|m: int|
                    0 <= m < h.outbox@.len() ==> (#[trigger] h.outbox@[m]).time.ns >= we.ns && (
                    h.outbox@[m]).dst < n)
            } by {
                let h = self.hosts@[c];
                assert(drained_from(h, pre[c], we.ns));
                let q = pre[c].queue@;
                crate::host::lemma_sorted_split(q, we.ns);
                crate::host::lemma_split_bounds(q, we.ns);
                // the clock never passes the window end
                if drained_of(q, we.ns).len() == 0 {
                    assert(h.queue.last_popped() == pre[c].queue.last_popped());
                    assert(host_window_ok(pre[c], ws.ns, we.ns, runahead));
                    assert(h.queue.last_popped() <= ws.ns);
                } else {
                    assert(h.queue.last_popped() == drained_of(q, we.ns).last().time.ns);
                }
                // kept events keep their sound stamps
                assert forall|k: int|
                    0 <= k < h.queue@.len() implies (#[trigger] h.queue@[k]).seq < base by {
                    assert(h.queue@[k] == rest_of(q, we.ns)[k]);
                    assert(rest_of(q, we.ns)[k] == q[drained_of(q, we.ns).len() + k]);
                    assert(event_ok(q[drained_of(q, we.ns).len() + k], n, base, latency));
                }
                // the outbox holds this host's window messages
                assert(h.outbox@ =~= msgs_of(drained_of(q, we.ns)));
                assert forall|m: int|
                    0 <= m < h.outbox@.len() implies (#[trigger] h.outbox@[m]).time.ns >= we.ns
                    && (h.outbox@[m]).dst < n by {
                    lemma_window_msgs_index(pre, c, m, we.ns);
                    let j = window_msgs_upto(pre, c, we.ns).len() + m;
                    assert(window_msgs(pre, we.ns)[j as int] == h.outbox@[m]);
                }
            }
            assert(outboxes_upto(self.hosts@, n).len() == window_msgs(pre, we.ns).len());
        }
        let ghost drained_hosts = self.hosts@;
        self.deliver_messages(we.ns, total);
        proof {
            assert(window_post(pre, self.hosts@, we.ns, base)) by {
                assert forall|c: int| 0 <= c < n implies host_window_post(
                    pre[c],
                    #[trigger] self.hosts@[c],
                    pre,
                    c,
                    we.ns,
                    base,
                ) by {
                    assert(delivery_inv(
                        self.hosts@[c],
                        drained_hosts[c],
                        outboxes_upto(drained_hosts, n),
                        base,
                        total as int,
                        c,
                    ));
                    assert(drained_from(drained_hosts[c], pre[c], we.ns));
                    assert(host_ok(pre[c], c, n, base, latency));
                    assert(outboxes_upto(drained_hosts, n) == window_msgs(pre, we.ns));
                    assert(drained_hosts[c].queue@ == rest_of(pre[c].queue@, we.ns));
                    assert(drained_hosts[c].queue@.to_multiset() == rest_of(
                        pre[c].queue@,
                        we.ns,
                    ).to_multiset());
                    assert(outboxes_upto(drained_hosts, n).take(total as int) =~= window_msgs(
                        pre,
                        we.ns,
                    ));
                    assert(deliveries_to(outboxes_upto(drained_hosts, n).take(total as int), base, c as u32)
                        == deliveries_to(window_msgs(pre, we.ns), base, c as u32));
                    assert(self.hosts@[c].queue@.to_multiset() == rest_of(
                        pre[c].queue@,
                        we.ns,
                    ).to_multiset().add(
                        deliveries_to(window_msgs(pre, we.ns), base, c as u32),
                    ));
                    assert(self.hosts@[c].executed@ == pre[c].executed@ + drained_of(
                        pre[c].queue@,
                        we.ns,
                    ));
                    assert(self.hosts@[c].queue.popped_times() == pre[c].queue.popped_times()
                        + times_of(drained_of(pre[c].queue@, we.ns)));
                    assert(self.hosts@[c].outbox@.len() == 0);
                    assert(!self.hosts@[c].shmem_locked);
                }
            }
        }
        // heartbeat bookkeeping, advisory only
        let heartbeat: Option<EmulatedTime> = match self.heartbeat_interval {
            Some(iv) => {
                if crate::support::heartbeat_due(ws, self.last_heartbeat, iv) {
                    self.last_heartbeat = ws;
                    Some(ws)
                } else {
                    None
                }
            },
            None => None,
        };
        let t_next = EmulatedTime { ns: t_next_ns };
        proof {
            // the fold never lies before the window end
            if t_next_ns != u64::MAX {
                assert(t_next_ns >= we.ns) by {
                    if exists|i: int|
                        0 <= i < pre.len() && t_next_ns == rest_next_ns(
                            (#[trigger] pre[i]).queue@,
                            we.ns,
                        ) {
                        let i = choose|i: int|
                            0 <= i < pre.len() && t_next_ns == rest_next_ns(
                                (#[trigger] pre[i]).queue@,
                                we.ns,
                            );
                        crate::host::lemma_split_bounds(pre[i].queue@, we.ns);
                    } else {
                        let j = choose|j: int|
                            0 <= j < window_msgs(pre, we.ns).len() && t_next_ns == (
                            #[trigger] window_msgs(pre, we.ns)[j]).time.ns;
                        assert(window_msgs(pre, we.ns)[j].time.ns >= we.ns);
                    }
                }
            }
        }
        let next_window = self.controller.round_finished(we, t_next);
        let outcome = rc.boundary(t_next_ns);
        match outcome.restart {
            Some(_) => {
                self.window = None;
            },
            None => {
                self.window = next_window;
            },
        }
        let finished = match self.window {
            Some(_) => false,
            None => true,
        };
        proof {
            // the run invariant survives the boundary
            if self.window is Some {
                let we2 = self.window->Some_0.1.ns;
                assert(self.window->Some_0.0.ns == we.ns);
                assert(we.ns < we2 <= sat_add_ns(t_next_ns, runahead));
            }
            lemma_wf_after_boundary(
                pre,
                self.hosts@,
                we.ns,
                base,
                total,
                t_next_ns,
                latency,
                runahead,
                ws.ns,
            );
            // the stamp budget is conserved exactly across the boundary
            assert forall|c: int| 0 <= c < pre.len() implies (#[trigger] pre[c]).queue.wf() by {
                assert(host_ok(pre[c], c, n, base, latency));
            }
            lemma_window_budget_upto(pre, self.hosts@, we.ns, base, n);
            assert forall|c: int| 0 <= c < n implies host_ok(
                #[trigger] self.hosts@[c],
                c,
                n,
                self.next_seq,
                latency,
            ) by {}
            if self.window is Some {
                let ws2 = self.window->Some_0.0;
                let we2 = self.window->Some_0.1;
                assert forall|c: int| 0 <= c < n implies host_window_ok(
                    #[trigger] self.hosts@[c],
                    ws2.ns,
                    we2.ns,
                    runahead,
                ) by {}
            }
        }
        WindowOutcome {
            t_next,
            heartbeat,
            pause_now: outcome.pause_now,
            restart: outcome.restart,
            finished,
        }
    }
}

/// The run invariant survives a boundary: every host after the window is
/// again sound for the run, and fits any next window the controller could
/// have issued.
proof fn lemma_wf_after_boundary(
    pre: Seq<Host>,
    post: Seq<Host>,
    we: u64,
    base: u64,
    total: u64,
    t_next: u64,
    latency: u64,
    runahead: u64,
    ws: u64,
)
    requires
        pre.len() <= u32::MAX,
        1 <= runahead <= latency,
        window_post(pre, post, we, base),
        total == window_msgs(pre, we).len(),
        base + total <= u64::MAX,
        is_fold_min(t_next, pre, we),
        ws < we,
        forall|i: int|
            0 <= i < pre.len() ==> host_ok(#[trigger] pre[i], i, pre.len() as int, base, latency),
        forall|i: int| 0 <= i < pre.len() ==> host_window_ok(#[trigger] pre[i], ws, we, runahead),
    ensures
        forall|c: int|
            0 <= c < pre.len() ==> host_ok(
                #[trigger] post[c],
                c,
                pre.len() as int,
                (base + total) as u64,
                latency,
            ),
        forall|c: int, we2: u64|
            0 <= c < pre.len() && we2 <= sat_add_ns(t_next, runahead) ==> #[trigger] host_window_ok(
                post[c],
                we,
                we2,
                runahead,
            ),
{
    let n = pre.len() as int;
    lemma_window_msgs_safe(pre, we, base, latency, runahead, ws);
    assert forall|c: int| 0 <= c < n implies {
        &&& host_ok(#[trigger] post[c], c, n, (base + total) as u64, latency)
        &&& forall|k: int|
            0 <= k < post[c].queue@.len() ==> {
                &&& (#[trigger] post[c].queue@[k]).time.ns >= we
                &&& post[c].queue@[k].time.ns >= t_next
            }
        &&& post[c].queue.last_popped() <= we
    } by {
        assert(host_window_post(pre[c], post[c], pre, c, we, base));
        assert(host_ok(pre[c], c, n, base, latency));
        assert(host_window_ok(pre[c], ws, we, runahead));
        let q = pre[c].queue@;
        let rest = rest_of(q, we);
        let d = drained_of(q, we);
        let dl = deliveries_to(window_msgs(pre, we), base, c as u32);
        crate::host::lemma_sorted_split(q, we);
        crate::host::lemma_split_bounds(q, we);
        lemma_union_elements(post[c].queue@, rest, dl);
        // the fold bounds every kept event from below
        assert(t_next <= rest_next_ns(q, we));
        assert forall|k: int|
            0 <= k < post[c].queue@.len() implies {
            let e = #[trigger] post[c].queue@[k];
            &&& event_ok(e, n, (base + total) as u64, latency)
            &&& e.time.ns >= we
            &&& e.time.ns >= t_next
        } by {
            let e = post[c].queue@[k];
            if rest.contains(e) {
                let kk = choose|kk: int| 0 <= kk < rest.len() && rest[kk] == e;
                assert(rest[kk] == q[d.len() + kk]);
                assert(event_ok(q[d.len() + kk], n, base, latency));
                // sortedness puts the head of the rest below every kept event
                if kk > 0 {
                    assert(crate::event_queue::event_lt(rest[0], rest[kk]));
                }
                assert(e.time.ns >= rest_next_ns(q, we));
            } else {
                assert(dl.count(e) > 0);
                lemma_deliveries_elements(window_msgs(pre, we), base, c as u32, e);
                let j = choose|j: int|
                    {
                        &&& 0 <= j < window_msgs(pre, we).len()
                        &&& window_msgs(pre, we)[j].dst == c as u32
                        &&& e == delivery_event(window_msgs(pre, we)[j], (base + j) as u64)
                    };
                assert(window_msgs(pre, we)[j].time.ns >= we);
                assert(t_next <= window_msgs(pre, we)[j].time.ns);
            }
        }
        // the clock did not pass the window end
        if d.len() == 0 {
            assert(post[c].queue.last_popped() == pre[c].queue.last_popped());
            assert(pre[c].queue.last_popped() <= ws);
        } else {
            assert(d.last() == d[d.len() - 1]);
            assert(d.last().time.ns < we);
        }
    }
    assert forall|c: int, we2: u64|
        0 <= c < pre.len() && we2 <= sat_add_ns(t_next, runahead) implies #[trigger] host_window_ok(
        post[c],
        we,
        we2,
        runahead,
    ) by {
        assert forall|k: int|
            0 <= k < post[c].queue@.len() implies ((#[trigger] post[c].queue@[k]).time.ns >= we
            && post[c].queue@[k].time.ns + runahead >= we2) by {
            assert(post[c].queue@[k].time.ns >= t_next);
        }
    }
}

impl SimulationRun {
    /// Whether the run still has a window to pump.
    pub fn has_window(&self) -> (r: bool)
        ensures
            r == (self.window is Some),
    {
        match self.window {
            Some(_) => true,
            None => false,
        }
    }

    /// Unwinds the run at a boundary: no further window is pumped. The
    /// driver uses this when a restart request arrives while paused, so the
    /// run can reach shutdown without executing another window.
    pub fn cancel(&mut self)
        requires
            old(self).wf(),
        ensures
            final(self).wf(),
            final(self).window is None,
            *final(self) == (SimulationRun { window: None, ..*old(self) }),
    {
        self.window = None;
    }

    /// After the last window: sets every host's clock to the end of the
    /// simulation, terminates its applications and shuts it down, then
    /// reports the plugin-error count. The shared table is dropped with the
    /// run itself, strictly after this.
    pub fn finish(&mut self) -> (errors: u32)
        requires
            old(self).window is None,
        ensures
            errors == old(self).shared.num_plugin_errors,
            final(self).hosts@.len() == old(self).hosts@.len(),
            forall|c: int|
                0 <= c < old(self).hosts@.len() ==> {
                    let h = #[trigger] final(self).hosts@[c];
                    &&& h.is_shutdown
                    &&& h.applications@.len() == 0
                    &&& h.current_time == Some(old(self).shared.sim_end_time)
                    &&& h.executed@ == old(self).hosts@[c].executed@
                    &&& h.queue@ == old(self).hosts@[c].queue@
                    &&& h.params == old(self).hosts@[c].params
                },
            final(self).shared == old(self).shared,
    {
        let end = self.shared.sim_end_time;
        let n = self.hosts.len();
        let mut c: usize = 0;
        while c < n
            invariant
                c <= n == self.hosts@.len(),
                end == self.shared.sim_end_time,
                self.shared == old(self).shared,
                self.window == old(self).window,
                forall|i: int|
                    0 <= i < c ==> {
                        let h = #[trigger] self.hosts@[i];
                        &&& h.is_shutdown
                        &&& h.applications@.len() == 0
                        &&& h.current_time == Some(end)
                        &&& h.executed@ == old(self).hosts@[i].executed@
                        &&& h.queue@ == old(self).hosts@[i].queue@
                        &&& h.params == old(self).hosts@[i].params
                    },
                forall|i: int| c <= i < n ==> #[trigger] self.hosts@[i] == old(self).hosts@[i],
            decreases n - c,
        {
            self.hosts[c].set_current_time(end);
            self.hosts[c].free_all_applications();
            self.hosts[c].shutdown();
            c += 1;
        }
        self.shared.plugin_error_count()
    }
}

impl Manager {
    /// Runs the whole simulation without an interactive channel: prepares
    /// the run, pumps windows until the controller declines to issue
    /// another, shuts the hosts down, and reports the plugin-error count.
    /// It succeeds, with zero plugin errors, exactly on a sound
    /// configuration; every error names a fault the configuration has.
    ///
    /// An interactive run is pumped window by window through
    /// `SimulationRun::run_window` instead, by the process that owns the
    /// input channel and can block while paused; with no channel, nothing
    /// can request a pause or a restart mid-run.
    pub fn run(
        self,
        rc: &mut crate::run_control::RunControlState,
        slot: &mut crate::run_control::RestartSlot,
        worker_cpus: &Vec<u32>,
        physical_cores: u32,
    ) -> (r: Result<u32, SetupError>)
        requires
            physical_cores >= 1,
            old(slot).run_until_ns == crate::run_control::UNSET_NS,
            self.manager_config matches Some(c) ==> {
                &&& c.hosts@.len() <= u32::MAX
                &&& c.smallest_latency.ns >= 1
                &&& (self.config.use_cpu_pinning ==> worker_cpus@.len() >= c.hosts@.len())
            },
        ensures
            final(slot).run_until_ns == crate::run_control::UNSET_NS,
            *final(rc) == crate::run_control::reset_spec(crate::run_control::UNSET_NS),
            (r is Ok) <==> (self.manager_config matches Some(c) && config_ok(c)),
            r matches Ok(errors) ==> errors == 0,
            (r == Err::<u32, SetupError>(SetupError::AlreadyRan)) <==> self.manager_config
                is None,
            self.manager_config matches Some(c) ==> (r matches Err(e) ==> setup_fault(e, c)),
    {
        let mut this = self;
        let pending = slot.take();
        rc.reset_for_run(pending);
        let mut sim = match this.start_run(worker_cpus, physical_cores) {
            Ok(sim) => sim,
            Err(e) => {
                return Err(e);
            },
        };
        while sim.has_window()
            invariant
                sim.wf(),
                *rc == crate::run_control::reset_spec(crate::run_control::UNSET_NS),
                sim.shared.num_plugin_errors == 0,
                slot.run_until_ns == crate::run_control::UNSET_NS,
                self.manager_config matches Some(c) && config_ok(c),
            decreases (if sim.window is Some {
                u64::MAX - sim.window->Some_0.0.ns
            } else {
                0int
            }),
        {
            let ghost ws0 = sim.window->Some_0.0.ns;
            let ghost we0 = sim.window->Some_0.1.ns;
            let out = sim.run_window(rc);
            proof {
                // with no channel the boundary never pauses or restarts,
                // and each new window starts strictly later
                assert(out.restart is None);
                assert(*rc == crate::run_control::reset_spec(crate::run_control::UNSET_NS));
                if sim.window is Some {
                    assert(sim.window->Some_0.0.ns == we0 > ws0);
                }
            }
        }
        let errors = sim.finish();
        Ok(errors)
    }
}

/// Window causality: all events a window executes lie inside the window and
/// fire strictly in time order within their hosts, and every message the
/// window produces is delivered no earlier than the window's end — safe to
/// defer to a later window.
pub proof fn lemma_window_causality(
    pre: Seq<Host>,
    ws: u64,
    we: u64,
    next_seq: u64,
    latency: u64,
    runahead: u64,
)
    requires
        pre.len() <= u32::MAX,
        1 <= runahead <= latency,
        ws < we,
        forall|i: int|
            0 <= i < pre.len() ==> host_ok(#[trigger] pre[i], i, pre.len() as int, next_seq, latency),
        forall|i: int| 0 <= i < pre.len() ==> host_window_ok(#[trigger] pre[i], ws, we, runahead),
    ensures
        forall|c: int, k: int|
            0 <= c < pre.len() && 0 <= k < drained_of(pre[c].queue@, we).len() ==> ws <= (
            #[trigger] drained_of(pre[c].queue@, we)[k]).time.ns < we,
        forall|c: int|
            0 <= c < pre.len() ==> sorted_events(drained_of((#[trigger] pre[c]).queue@, we)),
        forall|j: int|
            0 <= j < window_msgs(pre, we).len() ==> (#[trigger] window_msgs(pre, we)[j]).time.ns
                >= we,
{
    lemma_window_msgs_safe(pre, we, next_seq, latency, runahead, ws);
    assert forall|c: int, k: int|
        0 <= c < pre.len() && 0 <= k < drained_of(pre[c].queue@, we).len() implies ws <= (
    #[trigger] drained_of(pre[c].queue@, we)[k]).time.ns < we by {
        let q = pre[c].queue@;
        crate::host::lemma_sorted_split(q, we);
        crate::host::lemma_split_bounds(q, we);
        assert(drained_of(q, we)[k] == q[k]);
        assert(host_window_ok(pre[c], ws, we, runahead));
        assert(q[k].time.ns >= ws);
    }
    assert forall|c: int|
        0 <= c < pre.len() implies sorted_events(drained_of((#[trigger] pre[c]).queue@, we)) by {
        crate::host::lemma_sorted_split(pre[c].queue@, we);
    }
}

/// Parallel determinism: what a window leaves behind is a function of the
/// state before it alone. Two boundary passes from the same state — however
/// the hosts were ordered or spread over workers — agree on the folded
/// next-event time and on every host's queue and executed record.
pub proof fn lemma_parallel_determinism(
    pre: Seq<Host>,
    post1: Seq<Host>,
    post2: Seq<Host>,
    t1: u64,
    t2: u64,
    we: u64,
    base: u64,
)
    requires
        window_post(pre, post1, we, base),
        window_post(pre, post2, we, base),
        is_fold_min(t1, pre, we),
        is_fold_min(t2, pre, we),
    ensures
        t1 == t2,
        forall|c: int|
            0 <= c < pre.len() ==> (#[trigger] post1[c]).executed@ == post2[c].executed@,
        forall|c: int| 0 <= c < pre.len() ==> (#[trigger] post1[c]).queue@ == post2[c].queue@,
{
    lemma_fold_min_unique(t1, t2, pre, we);
    assert forall|c: int|
        0 <= c < pre.len() implies (#[trigger] post1[c]).executed@ == post2[c].executed@ && post1[
        c
    ].queue@ == post2[c].queue@ by {
        assert(host_window_post(pre[c], post1[c], pre, c, we, base));
        assert(host_window_post(pre[c], post2[c], pre, c, we, base));
        crate::event_queue::lemma_sorted_unique(post1[c].queue@, post2[c].queue@);
    }
}

/// After a push pinned only by its multiset, every element of the new queue
/// is either the pushed event or one of the old elements.
proof fn lemma_push_elements(pre: Seq<Event>, post: Seq<Event>, ev: Event)
    requires
        post.to_multiset() == pre.to_multiset().insert(ev),
    ensures
        forall|e: int|
            0 <= e < post.len() ==> (post[e] == ev || exists|j: int|
                0 <= j < pre.len() && pre[j] == #[trigger] post[e]),
{
    broadcast use vstd::seq_lib::group_to_multiset_ensures;
    broadcast use vstd::multiset::group_multiset_axioms;

    assert forall|e: int|
        0 <= e < post.len() implies (post[e] == ev || exists|j: int|
            0 <= j < pre.len() && pre[j] == #[trigger] post[e]) by {
        let v = post[e];
        assert(post.contains(v));
        assert(post.to_multiset().count(v) > 0);
        if v != ev {
            assert(pre.to_multiset().count(v) > 0);
            assert(pre.contains(v));
        }
    }
}


} // verus!
