//! Small verified helpers around the driver: decimal and time formatting for
//! the boundary banners, resource-usage decisions, preload-path validation,
//! and the cpuid-emulation decision.

use vstd::prelude::*;
use crate::simtime::EmulatedTime;
use crate::simtime::SimulationTime;
use crate::simtime::NANOS_PER_SECOND;

verus! {

/// The decimal digit character for `d` (`d < 10`).
pub open spec fn digit_char(d: nat) -> char {
    if d == 0 {
        '0'
    } else if d == 1 {
        '1'
    } else if d == 2 {
        '2'
    } else if d == 3 {
        '3'
    } else if d == 4 {
        '4'
    } else if d == 5 {
        '5'
    } else if d == 6 {
        '6'
    } else if d == 7 {
        '7'
    } else if d == 8 {
        '8'
    } else {
        '9'
    }
}

/// The decimal representation of `n`, most significant digit first.
pub open spec fn dec_str(n: nat) -> Seq<char>
    decreases n,
{
    if n < 10 {
        seq![digit_char(n)]
    } else {
        dec_str(n / 10).push(digit_char(n % 10))
    }
}

/// A one-character string slice holding the decimal digit `d`.
fn digit_str(d: u64) -> (r: &'static str)
    requires
        d < 10,
    ensures
        r@ == seq![digit_char(d as nat)],
{
    proof {
        reveal_strlit("0");
        reveal_strlit("1");
        reveal_strlit("2");
        reveal_strlit("3");
        reveal_strlit("4");
        reveal_strlit("5");
        reveal_strlit("6");
        reveal_strlit("7");
        reveal_strlit("8");
        reveal_strlit("9");
    }
    if d == 0 {
        "0"
    } else if d == 1 {
        "1"
    } else if d == 2 {
        "2"
    } else if d == 3 {
        "3"
    } else if d == 4 {
        "4"
    } else if d == 5 {
        "5"
    } else if d == 6 {
        "6"
    } else if d == 7 {
        "7"
    } else if d == 8 {
        "8"
    } else {
        "9"
    }
}

/// Renders `n` in decimal.
pub fn u64_to_string(n: u64) -> (s: String)
    ensures
        s@ == dec_str(n as nat),
    decreases n,
{
    if n < 10 {
        let d = digit_str(n);
        String::from_str(d)
    } else {
        let mut s = u64_to_string(n / 10);
        s.append(digit_str(n % 10));
        s
    }
}

/// `n` zero-padded on the left to at least `width` digits.
pub open spec fn padded_dec_str(n: nat, width: nat) -> Seq<char>
    decreases width,
{
    if dec_str(n).len() >= width {
        dec_str(n)
    } else {
        seq!['0'] + padded_dec_str(n, (width - 1) as nat)
    }
}

/// How a count of nanoseconds is rendered as seconds: the bare second count
/// followed by `s` when the value is whole seconds, otherwise fixed
/// six-decimal seconds (microseconds, rounded half up, zero-padded).
pub open spec fn time_str(ns: nat) -> Seq<char> {
    if ns % (NANOS_PER_SECOND as nat) == 0 {
        dec_str(ns / (NANOS_PER_SECOND as nat)) + seq!['s']
    } else {
        let micros = (ns + 500) / 1000;
        dec_str(micros / 1_000_000) + seq!['.'] + padded_dec_str(micros % 1_000_000, 6) + seq!['s']
    }
}

proof fn lemma_dec_str_len(n: nat)
    ensures
        dec_str(n).len() >= 1,
        n < 10 ==> dec_str(n).len() == 1,
        n >= 10 ==> dec_str(n).len() >= 2,
    decreases n,
{
    if n >= 10 {
        lemma_dec_str_len(n / 10);
    }
}

spec fn pow10(k: nat) -> nat
    decreases k,
{
    if k == 0 {
        1
    } else {
        10 * pow10((k - 1) as nat)
    }
}

proof fn lemma_dec_str_len_bound(n: nat, k: nat)
    requires
        k >= 1,
        n < pow10(k),
    ensures
        dec_str(n).len() <= k,
    decreases k,
{
    if n >= 10 {
        assert(pow10(k) == 10 * pow10((k - 1) as nat));
        assert(n / 10 < pow10((k - 1) as nat)) by (nonlinear_arith)
            requires
                n < 10 * pow10((k - 1) as nat),
        ;
        lemma_dec_str_len_bound(n / 10, (k - 1) as nat);
    }
}

/// The number of decimal digits of `n`.
fn dec_len(n: u64) -> (r: u64)
    ensures
        r == dec_str(n as nat).len(),
        r <= 20,
    decreases n,
{
    proof {
        lemma_dec_str_len(n as nat);
        assert(pow10(20) > u64::MAX) by {
            reveal_with_fuel(pow10, 21);
        }
        lemma_dec_str_len_bound(n as nat, 20);
    }
    if n < 10 {
        1
    } else {
        let rest = dec_len(n / 10);
        assert(dec_str(n as nat).len() == dec_str((n / 10) as nat).len() + 1);
        rest + 1
    }
}

/// Renders `n` in decimal, zero-padded on the left to at least `width` digits.
pub fn u64_to_padded_string(n: u64, width: u64) -> (s: String)
    requires
        width <= 32,
    ensures
        s@ == padded_dec_str(n as nat, width as nat),
    decreases width,
{
    let len = dec_len(n);
    if len >= width {
        u64_to_string(n)
    } else {
        proof {
            reveal_strlit("0");
        }
        let mut s = String::from_str("0");
        let rest = u64_to_padded_string(n, width - 1);
        s.append(rest.as_str());
        s
    }
}

/// Renders a count of nanoseconds as seconds: `12s` when whole, else
/// six-decimal fixed point such as `1.500000s`.
pub fn format_time_s(ns: u64) -> (s: String)
    ensures
        s@ == time_str(ns as nat),
{
    proof {
        reveal_strlit("s");
        reveal_strlit(".");
    }
    if ns % NANOS_PER_SECOND == 0 {
        let mut s = u64_to_string(ns / NANOS_PER_SECOND);
        s.append("s");
        s
    } else {
        let micros = (ns / 1000) + if ns % 1000 >= 500 { 1 } else { 0 };
        assert(micros == ((ns + 500) / 1000) as int) by {
            assert(ns % 1000 < 1000);
        }
        let mut s = u64_to_string(micros / 1_000_000);
        s.append(".");
        let frac = u64_to_padded_string(micros % 1_000_000, 6);
        s.append(frac.as_str());
        s.append("s");
        s
    }
}

/// Whether enough simulated time has passed since the last heartbeat line:
/// due exactly when the window start lies strictly after
/// `last_heartbeat + interval`.
pub fn heartbeat_due(
    window_start: EmulatedTime,
    last_heartbeat: EmulatedTime,
    interval: SimulationTime,
) -> (due: bool)
    ensures
        due == (window_start.ns > last_heartbeat.ns + interval.ns),
{
    let threshold = last_heartbeat.ns.checked_add(interval.ns);
    match threshold {
        Some(t) => window_start.ns > t,
        None => false,
    }
}

/// Whether file-descriptor usage crosses the warning threshold: strictly
/// more than 90% of the limit in use.
pub fn fd_usage_exceeded(usage: u64, limit: u64) -> (r: bool)
    ensures
        r == (usage > limit * 90 / 100),
{
    let threshold = ((limit as u128) * 90 / 100) as u64;
    proof {
        assert((limit as int) * 90 / 100 <= limit as int) by (nonlinear_arith);
    }
    usage > threshold
}

/// Whether available memory is low: fewer than 500 MiB remaining.
pub fn memory_low(remaining: u64) -> (r: bool)
    ensures
        r == (remaining < 500 * 1024 * 1024),
{
    remaining < 500 * 1024 * 1024
}

/// Total bytes remaining, from the page size and the number of available
/// pages; the product must fit the machine word.
pub fn memory_remaining_bytes(page_size: u64, avl_pages: u64) -> (r: u64)
    requires
        page_size * avl_pages <= u64::MAX,
    ensures
        r == page_size * avl_pages,
{
    page_size * avl_pages
}

/// A raw CPU frequency in Hz from the kernel's kHz reading.
pub fn raw_frequency_from_khz(khz: u64) -> (r: u64)
    requires
        khz * 1000 <= u64::MAX,
    ensures
        r == khz * 1000,
{
    khz * 1000
}

/// A path fits the preload environment variable: it holds neither a space
/// nor a colon, the unescapable separators there.
pub open spec fn preload_path_ok(path: Seq<u8>) -> bool {
    forall|i: int| 0 <= i < path.len() ==> path[i] != 32u8 && path[i] != 58u8
}

/// Whether a preload library path can be placed in the preload environment
/// variable: it must contain neither a space nor a colon, the unescapable
/// separators there.
pub fn preload_path_usable(path: &Vec<u8>) -> (ok: bool)
    ensures
        ok == preload_path_ok(path@),
{
    let mut k: usize = 0;
    while k < path.len()
        invariant
            k <= path@.len(),
            forall|i: int| 0 <= i < k ==> path@[i] != 32u8 && path@[i] != 58u8,
        decreases path@.len() - k,
    {
        let b = path[k];
        if b == 32 || b == 58 {
            return false;
        }
        k += 1;
    }
    true
}

/// Whether the shim should trap and emulate `cpuid`: only when the CPU
/// advertises a nondeterministic random-number instruction and the platform
/// can intercept `cpuid` at all.
pub fn emulate_cpuid_decision(
    supports_rdrand: bool,
    supports_rdseed: bool,
    can_intercept_cpuid: bool,
) -> (r: bool)
    ensures
        r == ((supports_rdrand || supports_rdseed) && can_intercept_cpuid),
{
    (supports_rdrand || supports_rdseed) && can_intercept_cpuid
}

/// The per-probe enable flags for the periodic resource checks. A probe that
/// failed once, or that has warned once, is disabled for the rest of the run.
#[derive(Clone, Copy, Debug, PartialEq, Eq, Structural)]
pub struct ResourceChecks {
    pub check_fd_usage: bool,
    pub check_mem_usage: bool,
}

impl ResourceChecks {
    /// Both probes armed, as at the start of a run.
    pub fn new() -> (r: ResourceChecks)
        ensures
            r.check_fd_usage,
            r.check_mem_usage,
    {
        ResourceChecks { check_fd_usage: true, check_mem_usage: true }
    }

    /// Applies one file-descriptor probe result (`None` when the probe itself
    /// failed). Returns whether to warn; warning or failing disarms the probe.
    pub fn apply_fd_probe(&mut self, probe: Option<(u64, u64)>) -> (warn: bool)
        ensures
            final(self).check_mem_usage == old(self).check_mem_usage,
            !old(self).check_fd_usage ==> !warn && *final(self) == *old(self),
            old(self).check_fd_usage ==> match probe {
                None => warn && !final(self).check_fd_usage,
                Some((usage, limit)) => {
                    &&& warn == (usage > limit * 90 / 100)
                    &&& final(self).check_fd_usage == !warn
                },
            },
    {
        if !self.check_fd_usage {
            return false;
        }
        match probe {
            None => {
                self.check_fd_usage = false;
                true
            },
            Some((usage, limit)) => {
                if fd_usage_exceeded(usage, limit) {
                    self.check_fd_usage = false;
                    true
                } else {
                    false
                }
            },
        }
    }

    /// Applies one available-memory probe result (`None` when the probe
    /// itself failed). Returns whether to warn; warning or failing disarms
    /// the probe.
    pub fn apply_mem_probe(&mut self, probe: Option<u64>) -> (warn: bool)
        ensures
            final(self).check_fd_usage == old(self).check_fd_usage,
            !old(self).check_mem_usage ==> !warn && *final(self) == *old(self),
            old(self).check_mem_usage ==> match probe {
                None => warn && !final(self).check_mem_usage,
                Some(remaining) => {
                    &&& warn == (remaining < 500 * 1024 * 1024)
                    &&& final(self).check_mem_usage == !warn
                },
            },
    {
        if !self.check_mem_usage {
            return false;
        }
        match probe {
            None => {
                self.check_mem_usage = false;
                true
            },
            Some(remaining) => {
                if memory_low(remaining) {
                    self.check_mem_usage = false;
                    true
                } else {
                    false
                }
            },
        }
    }
}

} // verus!
