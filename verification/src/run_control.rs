//! Run control: the pause / step / continue / restart facility.
//!
//! An operator drives the simulation from a line-oriented command channel.
//! Commands only set flags; the driver honors them at window boundaries,
//! never in the middle of a host's execution. The state machine here is
//! pure: the surrounding process owns the channel, the condition variable
//! and the clock, and applies these transitions under its own lock.

use vstd::prelude::*;
use crate::support::dec_str;
use crate::support::u64_to_string;
use crate::simtime::NANOS_PER_SECOND;
use crate::simtime::sat_add_ns;

verus! {

/// "Unset" marker for absolute pause deadlines and restart deadlines.
pub const UNSET_NS: u64 = u64::MAX;

/// The run-control flags, all owned by the boundary logic.
#[derive(Clone, Copy, Debug, PartialEq, Eq, Structural)]
pub struct RunControlState {
    /// Pause at the next window boundary.
    pub pause_requested: bool,
    /// Unwind the current run and start over in-process.
    pub restart_requested: bool,
    /// Absolute deadline (ns) the restarted run should pause at; `UNSET_NS` for none.
    pub restart_run_until_ns: u64,
    /// Re-print the next-window host listing while paused.
    pub info_requested: bool,
    /// Suppress the automatic pause at time zero (set after a timed restart).
    pub skip_start_pause: bool,
    /// Relative running budget (ns) to convert at the next boundary; 0 for none.
    pub run_for_ns: u64,
    /// Absolute instant (ns) to pause at; `UNSET_NS` for none.
    pub run_until_abs_ns: u64,
    /// Number of windows still to run before pausing; 0 for none.
    pub step_windows_remaining: u64,
    /// Whether the driver is blocked at a boundary.
    pub paused: bool,
}

/// A parsed run-control command.
#[derive(Clone, Copy, Debug, PartialEq, Eq, Structural)]
pub enum Command {
    /// `p`: pause at the next window boundary.
    Pause,
    /// `c`: clear all budgets and resume.
    Continue,
    /// `cN`: resume, then pause once `N` more simulated seconds have run.
    ContinueFor { secs: u64 },
    /// `n`: run exactly one more window, then pause.
    StepWindow,
    /// `s` or `info`: print the next-window host listing while paused.
    Info,
    /// `s:<pid>`: print the debugger-attach hint for that process.
    Attach { pid: i32 },
    /// `s:` followed by something that is not a process id.
    AttachInvalid,
    /// `r`: restart from time zero.
    Restart,
    /// `rN`: restart, then run to `N` seconds before pausing.
    RestartRunUntil { secs: u64 },
    /// A blank line; ignored.
    Empty,
    /// Anything else; answered with the help text.
    Unknown,
}

/// Saturating multiplication of whole seconds into nanoseconds.
pub open spec fn secs_to_ns(secs: u64) -> u64 {
    if secs * NANOS_PER_SECOND <= u64::MAX {
        (secs * NANOS_PER_SECOND) as u64
    } else {
        u64::MAX
    }
}

/// The effect of one command arriving on the input channel.
pub open spec fn apply_command_spec(s: RunControlState, cmd: Command) -> RunControlState {
    match cmd {
        Command::Pause => RunControlState { pause_requested: true, ..s },
        Command::Continue => RunControlState {
            step_windows_remaining: 0,
            run_until_abs_ns: UNSET_NS,
            run_for_ns: 0,
            paused: false,
            ..s
        },
        Command::ContinueFor { secs } => RunControlState {
            step_windows_remaining: 0,
            run_until_abs_ns: UNSET_NS,
            run_for_ns: secs_to_ns(secs),
            paused: false,
            ..s
        },
        Command::StepWindow => RunControlState {
            step_windows_remaining: 1,
            run_until_abs_ns: UNSET_NS,
            paused: false,
            ..s
        },
        Command::Info => RunControlState { info_requested: true, ..s },
        Command::Attach { .. } => s,
        Command::AttachInvalid => s,
        Command::Restart => RunControlState {
            restart_run_until_ns: UNSET_NS,
            skip_start_pause: false,
            restart_requested: true,
            ..s
        },
        Command::RestartRunUntil { secs } => RunControlState {
            restart_run_until_ns: secs_to_ns(secs),
            skip_start_pause: true,
            restart_requested: true,
            ..s
        },
        Command::Empty => s,
        Command::Unknown => s,
    }
}

/// What the boundary logic decides, besides the new flag state.
#[derive(Clone, Copy, Debug, PartialEq, Eq, Structural)]
pub struct BoundaryOutcome {
    /// A captured restart request with its deadline (`UNSET_NS` for none).
    pub restart: Option<u64>,
    /// Whether the driver must block at this boundary.
    pub pause_now: bool,
}

/// The driver's obligations at a window boundary, in order: convert a
/// relative budget to an absolute deadline, count down single-stepping,
/// honor the absolute deadline, capture a restart request, and finally
/// take the pause request.
pub open spec fn boundary_spec(s: RunControlState, t_next_ns: u64) -> (RunControlState,
    BoundaryOutcome) {
    // 1. convert `run_for` into an absolute deadline
    let s1 = if s.run_for_ns != 0 {
        RunControlState {
            run_for_ns: 0,
            run_until_abs_ns: sat_add_ns(t_next_ns, s.run_for_ns),
            ..s
        }
    } else {
        s
    };
    // 2. count down single-stepped windows
    let s2 = if s1.step_windows_remaining > 0 {
        RunControlState {
            step_windows_remaining: (s1.step_windows_remaining - 1) as u64,
            pause_requested: s1.pause_requested || s1.step_windows_remaining == 1,
            ..s1
        }
    } else {
        s1
    };
    // 3. pause once the absolute deadline is reached
    let s3 = if s2.run_until_abs_ns != UNSET_NS && t_next_ns >= s2.run_until_abs_ns {
        RunControlState { run_until_abs_ns: UNSET_NS, pause_requested: true, ..s2 }
    } else {
        s2
    };
    // 4. capture a restart request
    let restart = if s3.restart_requested {
        Some(s3.restart_run_until_ns)
    } else {
        None
    };
    let s4 = RunControlState { restart_requested: false, ..s3 };
    // 5. take the pause request
    let pause_now = s4.pause_requested;
    let s5 = RunControlState { pause_requested: false, paused: s4.paused || pause_now, ..s4 };
    (s5, BoundaryOutcome { restart, pause_now })
}

/// What to do for one iteration of the paused loop.
#[derive(Clone, Copy, Debug, PartialEq, Eq, Structural)]
pub enum PausedAction {
    /// A restart arrived while paused: stop being paused and unwind.
    Restart { run_until_ns: u64 },
    /// Print the next-window host listing, then poll again.
    PrintInfo,
    /// Nothing pending: block on the condition variable.
    Wait,
}

/// One poll of the paused loop: a restart request wins, then an info
/// request, otherwise wait.
pub open spec fn paused_poll_spec(s: RunControlState) -> (RunControlState, PausedAction) {
    if s.restart_requested {
        (
            RunControlState { restart_requested: false, paused: false, ..s },
            PausedAction::Restart { run_until_ns: s.restart_run_until_ns },
        )
    } else if s.info_requested {
        (RunControlState { info_requested: false, ..s }, PausedAction::PrintInfo)
    } else {
        (s, PausedAction::Wait)
    }
}

/// The start-of-run pause policy: pause once at time zero when the input is
/// interactive and no timed restart asked to skip it. The skip flag is
/// consumed either way.
pub open spec fn start_pause_spec(s: RunControlState, is_terminal: bool) -> (RunControlState,
    bool) {
    if !is_terminal {
        (s, false)
    } else {
        let pause = !s.paused && !s.skip_start_pause;
        (RunControlState { skip_start_pause: false, paused: s.paused || pause, ..s }, pause)
    }
}

/// A fresh run-control state with every flag clear, except that a pending
/// restart deadline (`pending_ns != UNSET_NS`) pre-loads the absolute pause
/// deadline and skips the start pause.
pub open spec fn reset_spec(pending_ns: u64) -> RunControlState {
    RunControlState {
        pause_requested: false,
        restart_requested: false,
        restart_run_until_ns: UNSET_NS,
        info_requested: false,
        skip_start_pause: pending_ns != UNSET_NS,
        run_for_ns: 0,
        run_until_abs_ns: if pending_ns != UNSET_NS {
            pending_ns
        } else {
            UNSET_NS
        },
        step_windows_remaining: 0,
        paused: false,
    }
}

impl RunControlState {
    /// The all-clear state at process start.
    pub fn new() -> (s: RunControlState)
        ensures
            s == reset_spec(UNSET_NS),
    {
        RunControlState {
            pause_requested: false,
            restart_requested: false,
            restart_run_until_ns: UNSET_NS,
            info_requested: false,
            skip_start_pause: false,
            run_for_ns: 0,
            run_until_abs_ns: UNSET_NS,
            step_windows_remaining: 0,
            paused: false,
        }
    }

    /// Resets every flag for a new run, honoring a pending restart deadline
    /// left by `set_restart_run_until`.
    pub fn reset_for_run(&mut self, pending_ns: u64)
        ensures
            *final(self) == reset_spec(pending_ns),
    {
        *self = RunControlState {
            pause_requested: false,
            restart_requested: false,
            restart_run_until_ns: UNSET_NS,
            info_requested: false,
            skip_start_pause: pending_ns != UNSET_NS,
            run_for_ns: 0,
            run_until_abs_ns: if pending_ns != UNSET_NS {
                pending_ns
            } else {
                UNSET_NS
            },
            step_windows_remaining: 0,
            paused: false,
        };
    }

    /// Applies one command from the input channel.
    pub fn apply_command(&mut self, cmd: Command)
        ensures
            *final(self) == apply_command_spec(*old(self), cmd),
    {
        match cmd {
            Command::Pause => {
                self.pause_requested = true;
            },
            Command::Continue => {
                self.step_windows_remaining = 0;
                self.run_until_abs_ns = UNSET_NS;
                self.run_for_ns = 0;
                self.paused = false;
            },
            Command::ContinueFor { secs } => {
                self.step_windows_remaining = 0;
                self.run_until_abs_ns = UNSET_NS;
                self.run_for_ns = match secs.checked_mul(NANOS_PER_SECOND) {
                    Some(ns) => ns,
                    None => u64::MAX,
                };
                self.paused = false;
            },
            Command::StepWindow => {
                self.step_windows_remaining = 1;
                self.run_until_abs_ns = UNSET_NS;
                self.paused = false;
            },
            Command::Info => {
                self.info_requested = true;
            },
            Command::Attach { .. } => {},
            Command::AttachInvalid => {},
            Command::Restart => {
                self.restart_run_until_ns = UNSET_NS;
                self.skip_start_pause = false;
                self.restart_requested = true;
            },
            Command::RestartRunUntil { secs } => {
                self.restart_run_until_ns = match secs.checked_mul(NANOS_PER_SECOND) {
                    Some(ns) => ns,
                    None => u64::MAX,
                };
                self.skip_start_pause = true;
                self.restart_requested = true;
            },
            Command::Empty => {},
            Command::Unknown => {},
        }
    }

    /// Performs the driver's boundary obligations; `t_next_ns` is the folded
    /// global next-event time in nanoseconds.
    pub fn boundary(&mut self, t_next_ns: u64) -> (outcome: BoundaryOutcome)
        ensures
            (*final(self), outcome) == boundary_spec(*old(self), t_next_ns),
    {
        let run_for = self.run_for_ns;
        self.run_for_ns = 0;
        if run_for != 0 {
            self.run_until_abs_ns = t_next_ns.saturating_add(run_for);
        }
        if self.step_windows_remaining > 0 {
            self.step_windows_remaining = self.step_windows_remaining - 1;
            if self.step_windows_remaining == 0 {
                self.pause_requested = true;
            }
        }
        if self.run_until_abs_ns != UNSET_NS && t_next_ns >= self.run_until_abs_ns {
            self.run_until_abs_ns = UNSET_NS;
            self.pause_requested = true;
        }
        let restart = if self.restart_requested {
            self.restart_requested = false;
            Some(self.restart_run_until_ns)
        } else {
            None
        };
        let pause_now = self.pause_requested;
        self.pause_requested = false;
        if pause_now {
            self.paused = true;
        }
        BoundaryOutcome { restart, pause_now }
    }

    /// One poll of the paused loop.
    pub fn paused_poll(&mut self) -> (action: PausedAction)
        ensures
            (*final(self), action) == paused_poll_spec(*old(self)),
    {
        if self.restart_requested {
            self.restart_requested = false;
            self.paused = false;
            PausedAction::Restart { run_until_ns: self.restart_run_until_ns }
        } else if self.info_requested {
            self.info_requested = false;
            PausedAction::PrintInfo
        } else {
            PausedAction::Wait
        }
    }

    /// Applies the start-of-run pause policy; returns whether the driver
    /// should announce the start pause.
    pub fn start_pause(&mut self, is_terminal: bool) -> (pause: bool)
        ensures
            (*final(self), pause) == start_pause_spec(*old(self), is_terminal),
    {
        if !is_terminal {
            return false;
        }
        let pause = !self.paused && !self.skip_start_pause;
        self.skip_start_pause = false;
        if pause {
            self.paused = true;
        }
        pause
    }
}

/// A one-shot slot carrying a restart deadline from a finished run to the
/// next one, owned by the supervisor.
#[derive(Clone, Copy, Debug, PartialEq, Eq, Structural)]
pub struct RestartSlot {
    /// The pending deadline in nanoseconds; `UNSET_NS` for none.
    pub run_until_ns: u64,
}

impl RestartSlot {
    /// An empty slot.
    pub fn new() -> (s: RestartSlot)
        ensures
            s.run_until_ns == UNSET_NS,
    {
        RestartSlot { run_until_ns: UNSET_NS }
    }

    /// Takes the pending deadline, leaving the slot empty.
    pub fn take(&mut self) -> (pending: u64)
        ensures
            pending == old(self).run_until_ns,
            final(self).run_until_ns == UNSET_NS,
    {
        let pending = self.run_until_ns;
        self.run_until_ns = UNSET_NS;
        pending
    }
}

/// Records the deadline the next run should honor after an in-process
/// restart; `None` clears it.
pub fn set_restart_run_until(slot: &mut RestartSlot, run_until_ns: Option<u64>)
    ensures
        final(slot).run_until_ns == match run_until_ns {
            Some(ns) => ns,
            None => UNSET_NS,
        },
{
    slot.run_until_ns = match run_until_ns {
        Some(ns) => ns,
        None => UNSET_NS,
    };
}

/// A finished run asking the supervisor to re-enter the driver.
#[derive(Clone, Copy, Debug, PartialEq, Eq, Structural)]
pub struct RestartRequest {
    /// The deadline (ns) the new run should pause at, if one was given.
    pub run_until_ns: Option<u64>,
}

impl RestartRequest {
    /// The human-readable form of the request.
    pub fn message(&self) -> (r: String)
        ensures
            self.run_until_ns matches Some(ns) ==> r@ == "Restart requested: run until "@ + dec_str(
                ns as nat,
            ) + " ns"@,
            self.run_until_ns is None ==> r@ == "Restart requested"@,
    {
        proof {
            reveal_strlit("Restart requested: run until ");
            reveal_strlit(" ns");
            reveal_strlit("Restart requested");
        }
        match self.run_until_ns {
            Some(ns) => {
                let mut s = String::from_str("Restart requested: run until ");
                let d = u64_to_string(ns);
                s.append(d.as_str());
                s.append(" ns");
                s
            },
            None => String::from_str("Restart requested"),
        }
    }
}

/// ASCII whitespace, as line trimming removes it.
pub open spec fn is_ws(b: u8) -> bool {
    b == 32 || (9 <= b && b <= 13)
}

/// `s` without leading whitespace.
pub open spec fn trim_front(s: Seq<u8>) -> Seq<u8>
    decreases s.len(),
{
    if s.len() > 0 && is_ws(s[0]) {
        trim_front(s.drop_first())
    } else {
        s
    }
}

/// `s` without trailing whitespace.
pub open spec fn trim_back(s: Seq<u8>) -> Seq<u8>
    decreases s.len(),
{
    if s.len() > 0 && is_ws(s.last()) {
        trim_back(s.drop_last())
    } else {
        s
    }
}

/// `s` without leading and trailing whitespace.
pub open spec fn trimmed(s: Seq<u8>) -> Seq<u8> {
    trim_back(trim_front(s))
}

/// An ASCII decimal digit.
pub open spec fn is_digit(b: u8) -> bool {
    48 <= b && b <= 57
}

/// All bytes are decimal digits.
pub open spec fn all_digits(s: Seq<u8>) -> bool {
    forall|i: int| 0 <= i < s.len() ==> is_digit(#[trigger] s[i])
}

/// The value of a digit string, most significant digit first.
pub open spec fn digits_val(s: Seq<u8>) -> nat
    decreases s.len(),
{
    if s.len() == 0 {
        0
    } else {
        (digits_val(s.drop_last()) * 10 + (s.last() - 48)) as nat
    }
}

/// How `u64` reads a decimal string: an optional `+`, then at least one
/// digit, the value fitting the type.
pub open spec fn parse_u64_spec(s: Seq<u8>) -> Option<u64> {
    let body = if s.len() > 0 && s[0] == 43 {
        s.drop_first()
    } else {
        s
    };
    if body.len() > 0 && all_digits(body) && digits_val(body) <= u64::MAX {
        Some(digits_val(body) as u64)
    } else {
        None
    }
}

/// How `i32` reads a decimal string: an optional sign, then at least one
/// digit, the value fitting the type.
pub open spec fn parse_i32_spec(s: Seq<u8>) -> Option<i32> {
    if s.len() > 0 && s[0] == 45 {
        let body = s.drop_first();
        if body.len() > 0 && all_digits(body) && digits_val(body) <= 2147483648 {
            Some((0 - digits_val(body)) as i32)
        } else {
            None
        }
    } else {
        let body = if s.len() > 0 && s[0] == 43 {
            s.drop_first()
        } else {
            s
        };
        if body.len() > 0 && all_digits(body) && digits_val(body) <= 2147483647 {
            Some(digits_val(body) as i32)
        } else {
            None
        }
    }
}

/// The command a line of input denotes, after trimming: `p`, `c`, `cN`,
/// `n`, `s`, `info`, `s:<pid>`, `r`, `rN`, a blank line, or unknown.
pub open spec fn parse_command_spec(line: Seq<u8>) -> Command {
    let t = trimmed(line);
    if t.len() == 0 {
        Command::Empty
    } else if t == seq![112u8] {  // p
        Command::Pause
    } else if t == seq![110u8] {  // n
        Command::StepWindow
    } else if t == seq![114u8] {  // r
        Command::Restart
    } else if t[0] == 114u8 && parse_u64_spec(t.drop_first()) is Some {  // rN
        Command::RestartRunUntil { secs: parse_u64_spec(t.drop_first())->Some_0 }
    } else if t == seq![115u8] || t == seq![105u8, 110u8, 102u8, 111u8] {  // s | info
        Command::Info
    } else if t.len() >= 2 && t[0] == 115u8 && t[1] == 58u8 {  // s:<pid>
        match parse_i32_spec(t.subrange(2, t.len() as int)) {
            Some(pid) => Command::Attach { pid },
            None => Command::AttachInvalid,
        }
    } else if t == seq![99u8] {  // c
        Command::Continue
    } else if t[0] == 99u8 && parse_u64_spec(t.drop_first()) is Some {  // cN
        Command::ContinueFor { secs: parse_u64_spec(t.drop_first())->Some_0 }
    } else {
        Command::Unknown
    }
}

fn is_ws_byte(b: u8) -> (r: bool)
    ensures
        r == is_ws(b),
{
    b == 32 || (9 <= b && b <= 13)
}

proof fn lemma_trim_front_skip(s: Seq<u8>, lo: int)
    requires
        0 <= lo <= s.len(),
        forall|k: int| 0 <= k < lo ==> is_ws(#[trigger] s[k]),
    ensures
        trim_front(s) == trim_front(s.subrange(lo, s.len() as int)),
    decreases lo,
{
    if lo > 0 {
        assert(s.drop_first() =~= s.subrange(1, s.len() as int));
        assert(trim_front(s) == trim_front(s.drop_first()));
        lemma_trim_front_skip(s.drop_first(), lo - 1);
        assert(s.drop_first().subrange(lo - 1, s.drop_first().len() as int) =~= s.subrange(
            lo,
            s.len() as int,
        ));
    } else {
        assert(s.subrange(0, s.len() as int) =~= s);
    }
}

proof fn lemma_trim_back_take(s: Seq<u8>, hi: int)
    requires
        0 <= hi <= s.len(),
        forall|k: int| hi <= k < s.len() ==> is_ws(#[trigger] s[k]),
    ensures
        trim_back(s) == trim_back(s.subrange(0, hi)),
    decreases s.len() - hi,
{
    if hi < s.len() {
        assert(is_ws(s.last()));
        assert(trim_back(s) == trim_back(s.drop_last()));
        lemma_trim_back_take(s.drop_last(), hi);
        assert(s.drop_last().subrange(0, hi) =~= s.subrange(0, hi));
    } else {
        assert(s.subrange(0, s.len() as int) =~= s);
    }
}

proof fn lemma_digits_val_prefix(s: Seq<u8>, i: int)
    requires
        all_digits(s),
        0 <= i <= s.len(),
    ensures
        digits_val(s.subrange(0, i)) <= digits_val(s),
    decreases s.len(),
{
    if i < s.len() {
        assert(digits_val(s) == (digits_val(s.drop_last()) * 10 + (s.last() - 48)) as nat);
        assert(digits_val(s.drop_last()) <= digits_val(s));
        lemma_digits_val_prefix(s.drop_last(), i);
        assert(s.drop_last().subrange(0, i) =~= s.subrange(0, i));
    } else {
        assert(s.subrange(0, i) =~= s);
    }
}

/// Reads the digit run `line[lo..hi]` as a number: `Some` exactly when the
/// range is non-empty, all digits, and the value fits `u64`.
fn digits_val_range(line: &[u8], lo: usize, hi: usize) -> (r: Option<u64>)
    requires
        lo <= hi <= line@.len(),
    ensures
        ({
            let body = line@.subrange(lo as int, hi as int);
            r == if body.len() > 0 && all_digits(body) && digits_val(body) <= u64::MAX {
                Some(digits_val(body) as u64)
            } else {
                None::<u64>
            }
        }),
{
    let ghost body = line@.subrange(lo as int, hi as int);
    if lo == hi {
        return None;
    }
    let mut acc: u64 = 0;
    let mut i: usize = lo;
    while i < hi
        invariant
            lo <= i <= hi <= line@.len(),
            body == line@.subrange(lo as int, hi as int),
            all_digits(body.subrange(0, i - lo)),
            acc == digits_val(body.subrange(0, i - lo)),
        decreases hi - i,
    {
        let b = line[i];
        assert(b == body[i - lo]);
        if !(48 <= b && b <= 57) {
            assert(!is_digit(body[i - lo]));
            return None;
        }
        let ghost pre = body.subrange(0, i - lo);
        let ghost pre1 = body.subrange(0, i + 1 - lo);
        proof {
            assert(pre1.drop_last() =~= pre);
            assert(pre1.last() == b);
            assert(all_digits(pre1));
            assert(digits_val(pre1) == acc * 10 + (b - 48));
        }
        let shifted = acc.checked_mul(10);
        match shifted {
            None => {
                proof {
                    if all_digits(body) && digits_val(body) <= u64::MAX {
                        lemma_digits_val_prefix(body, i + 1 - lo);
                    }
                }
                return None;
            },
            Some(a) => {
                let v = a.checked_add((b - 48) as u64);
                match v {
                    None => {
                        proof {
                            if all_digits(body) && digits_val(body) <= u64::MAX {
                                lemma_digits_val_prefix(body, i + 1 - lo);
                            }
                        }
                        return None;
                    },
                    Some(v) => {
                        acc = v;
                    },
                }
            },
        }
        i += 1;
    }
    proof {
        assert(body.subrange(0, (hi - lo) as int) =~= body);
    }
    Some(acc)
}

/// Reads `line[lo..hi]` the way `u64` reads a decimal string.
fn parse_u64_range(line: &[u8], lo: usize, hi: usize) -> (r: Option<u64>)
    requires
        lo <= hi <= line@.len(),
    ensures
        r == parse_u64_spec(line@.subrange(lo as int, hi as int)),
{
    let ghost s = line@.subrange(lo as int, hi as int);
    if lo < hi && line[lo] == 43 {
        proof {
            assert(s.drop_first() =~= line@.subrange(lo + 1, hi as int));
        }
        digits_val_range(line, lo + 1, hi)
    } else {
        digits_val_range(line, lo, hi)
    }
}

/// Reads `line[lo..hi]` the way `i32` reads a decimal string.
fn parse_i32_range(line: &[u8], lo: usize, hi: usize) -> (r: Option<i32>)
    requires
        lo <= hi <= line@.len(),
    ensures
        r == parse_i32_spec(line@.subrange(lo as int, hi as int)),
{
    let ghost s = line@.subrange(lo as int, hi as int);
    if lo < hi && line[lo] == 45 {
        proof {
            assert(s.drop_first() =~= line@.subrange(lo + 1, hi as int));
        }
        let v = digits_val_range(line, lo + 1, hi);
        match v {
            Some(v) if v <= 2147483648 => {
                if v == 2147483648 {
                    Some(i32::MIN)
                } else {
                    Some(-(v as i32))
                }
            },
            _ => None,
        }
    } else if lo < hi && line[lo] == 43 {
        proof {
            assert(s.drop_first() =~= line@.subrange(lo + 1, hi as int));
        }
        let v = digits_val_range(line, lo + 1, hi);
        match v {
            Some(v) if v <= 2147483647 => Some(v as i32),
            _ => None,
        }
    } else {
        let v = digits_val_range(line, lo, hi);
        match v {
            Some(v) if v <= 2147483647 => Some(v as i32),
            _ => None,
        }
    }
}

/// Parses one line from the run-control channel.
pub fn parse_command(line: &[u8]) -> (cmd: Command)
    ensures
        cmd == parse_command_spec(line@),
{
    let len = line.len();
    let mut lo: usize = 0;
    while lo < len && is_ws_byte(line[lo])
        invariant
            lo <= len == line@.len(),
            forall|k: int| 0 <= k < lo ==> is_ws(#[trigger] line@[k]),
        decreases len - lo,
    {
        lo += 1;
    }
    let mut hi: usize = len;
    while hi > lo && is_ws_byte(line[hi - 1])
        invariant
            lo <= hi <= len == line@.len(),
            forall|k: int| 0 <= k < lo ==> is_ws(#[trigger] line@[k]),
            forall|k: int| hi <= k < len ==> is_ws(#[trigger] line@[k]),
        decreases hi,
    {
        hi -= 1;
    }
    let ghost t = line@.subrange(lo as int, hi as int);
    proof {
        lemma_trim_front_skip(line@, lo as int);
        let f = line@.subrange(lo as int, len as int);
        if lo < len {
            assert(!is_ws(f[0]));
            assert(trim_front(f) == f);
        } else {
            assert(f =~= Seq::<u8>::empty());
        }
        lemma_trim_back_take(f, hi - lo);
        assert(f.subrange(0, hi - lo) =~= t);
        if hi > lo {
            assert(!is_ws(t.last()));
            assert(trim_back(t) == t);
        }
        assert(trimmed(line@) == t);
    }
    if lo == hi {
        return Command::Empty;
    }
    let n = hi - lo;
    let b0 = line[lo];
    assert(b0 == t[0]);
    if n == 1 && b0 == 112 {
        assert(t =~= seq![112u8]);
        return Command::Pause;
    }
    if n == 1 && b0 == 110 {
        assert(t =~= seq![110u8]);
        return Command::StepWindow;
    }
    if n == 1 && b0 == 114 {
        assert(t =~= seq![114u8]);
        return Command::Restart;
    }
    if b0 == 114 {
        proof {
            assert(t.drop_first() =~= line@.subrange(lo + 1, hi as int));
        }
        let secs = parse_u64_range(line, lo + 1, hi);
        match secs {
            Some(secs) => {
                return Command::RestartRunUntil { secs };
            },
            None => {
                return Command::Unknown;
            },
        }
    }
    if n == 1 && b0 == 115 {
        assert(t =~= seq![115u8]);
        return Command::Info;
    }
    if n == 4 && b0 == 105 && line[lo + 1] == 110 && line[lo + 2] == 102 && line[lo + 3] == 111 {
        assert(t =~= seq![105u8, 110u8, 102u8, 111u8]);
        return Command::Info;
    }
    if n >= 2 && b0 == 115 && line[lo + 1] == 58 {
        proof {
            assert(t.subrange(2, t.len() as int) =~= line@.subrange(lo + 2, hi as int));
        }
        let pid = parse_i32_range(line, lo + 2, hi);
        return match pid {
            Some(pid) => Command::Attach { pid },
            None => Command::AttachInvalid,
        };
    }
    if n == 1 && b0 == 99 {
        assert(t =~= seq![99u8]);
        return Command::Continue;
    }
    if b0 == 99 {
        proof {
            assert(t.drop_first() =~= line@.subrange(lo + 1, hi as int));
        }
        let secs = parse_u64_range(line, lo + 1, hi);
        match secs {
            Some(secs) => {
                return Command::ContinueFor { secs };
            },
            None => {
                return Command::Unknown;
            },
        }
    }
    Command::Unknown
}

/// Run-control idempotence, first part: after a pause, repeating `c` is the
/// same as a single `c`.
pub proof fn lemma_continue_idempotent(s: RunControlState)
    ensures
        apply_command_spec(apply_command_spec(s, Command::Continue), Command::Continue)
            == apply_command_spec(s, Command::Continue),
{
}

/// Run-control idempotence, second part: `cN` followed by `c` cancels the
/// deadline — the pair leaves exactly the state a single `c` leaves.
pub proof fn lemma_continue_cancels_deadline(s: RunControlState, secs: u64)
    ensures
        apply_command_spec(
            apply_command_spec(s, Command::ContinueFor { secs }),
            Command::Continue,
        ) == apply_command_spec(s, Command::Continue),
{
}

/// Run-control idempotence, third part: from a state with no other budget
/// pending, one `n` makes the driver run exactly one more window — the very
/// next boundary pauses, with the step budget used up and no restart taken.
pub proof fn lemma_step_pauses_next_boundary(s: RunControlState, t_next_ns: u64)
    requires
        !s.pause_requested,
        !s.restart_requested,
        s.run_for_ns == 0,
    ensures
        ({
            let (s2, outcome) = boundary_spec(apply_command_spec(s, Command::StepWindow), t_next_ns);
            &&& outcome.pause_now
            &&& outcome.restart is None
            &&& s2.step_windows_remaining == 0
            &&& s2.paused
        }),
{
}

} // verus!
