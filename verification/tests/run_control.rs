use shadow_driver::run_control::{
    parse_command, set_restart_run_until, Command, PausedAction, RestartRequest, RestartSlot,
    RunControlState, UNSET_NS,
};

#[test]
fn parses_every_command_form() {
    assert_eq!(parse_command(b"p"), Command::Pause);
    assert_eq!(parse_command(b"c"), Command::Continue);
    assert_eq!(parse_command(b"c10"), Command::ContinueFor { secs: 10 });
    assert_eq!(parse_command(b"n"), Command::StepWindow);
    assert_eq!(parse_command(b"s"), Command::Info);
    assert_eq!(parse_command(b"info"), Command::Info);
    assert_eq!(parse_command(b"s:12345"), Command::Attach { pid: 12345 });
    assert_eq!(parse_command(b"s:junk"), Command::AttachInvalid);
    assert_eq!(parse_command(b"r"), Command::Restart);
    assert_eq!(parse_command(b"r5"), Command::RestartRunUntil { secs: 5 });
    assert_eq!(parse_command(b"rx"), Command::Unknown);
    assert_eq!(parse_command(b""), Command::Empty);
    assert_eq!(parse_command(b"   \t\n"), Command::Empty);
    assert_eq!(parse_command(b"quit"), Command::Unknown);
}

#[test]
fn parsing_trims_whitespace_like_the_reader() {
    assert_eq!(parse_command(b"  c10 \n"), Command::ContinueFor { secs: 10 });
    assert_eq!(parse_command(b"\tp\r\n"), Command::Pause);
    assert_eq!(parse_command(b" s:42 "), Command::Attach { pid: 42 });
}

#[test]
fn parsing_numbers_like_the_standard_reader() {
    // a leading plus is accepted, overflow is not
    assert_eq!(parse_command(b"c+3"), Command::ContinueFor { secs: 3 });
    assert_eq!(parse_command(b"c18446744073709551615"), Command::ContinueFor { secs: u64::MAX });
    assert_eq!(parse_command(b"c18446744073709551616"), Command::Unknown);
    assert_eq!(parse_command(b"s:-7"), Command::Attach { pid: -7 });
    assert_eq!(parse_command(b"s:2147483647"), Command::Attach { pid: i32::MAX });
    assert_eq!(parse_command(b"s:-2147483648"), Command::Attach { pid: i32::MIN });
    assert_eq!(parse_command(b"s:2147483648"), Command::AttachInvalid);
}

#[test]
fn continue_is_idempotent_after_pause() {
    let mut a = RunControlState::new();
    a.apply_command(Command::Pause);
    a.apply_command(Command::Continue);
    let mut b = a;
    b.apply_command(Command::Continue);
    b.apply_command(Command::Continue);
    assert_eq!(a, b);
}

#[test]
fn continue_after_deadline_cancels_it() {
    let mut with_deadline = RunControlState::new();
    with_deadline.apply_command(Command::ContinueFor { secs: 10 });
    with_deadline.apply_command(Command::Continue);
    let mut plain = RunControlState::new();
    plain.apply_command(Command::Continue);
    assert_eq!(with_deadline, plain);
    assert_eq!(with_deadline.run_for_ns, 0);
    assert_eq!(with_deadline.run_until_abs_ns, UNSET_NS);
}

#[test]
fn step_pauses_after_exactly_k_boundaries() {
    let mut rc = RunControlState::new();
    for _ in 0..3 {
        rc.apply_command(Command::StepWindow);
        let outcome = rc.boundary(1_000_000);
        assert!(outcome.pause_now);
        assert!(outcome.restart.is_none());
        assert_eq!(rc.step_windows_remaining, 0);
        assert!(rc.paused);
        // operator resumes before the next single step
        rc.apply_command(Command::Continue);
        assert!(!rc.paused);
    }
    // without a step pending, the boundary does not pause
    let outcome = rc.boundary(2_000_000);
    assert!(!outcome.pause_now);
}

#[test]
fn relative_budget_becomes_absolute_deadline() {
    let mut rc = RunControlState::new();
    rc.apply_command(Command::ContinueFor { secs: 10 });
    assert_eq!(rc.run_for_ns, 10_000_000_000);
    // at the boundary the budget converts: deadline = t_next + budget
    let outcome = rc.boundary(5_000_000_000);
    assert!(!outcome.pause_now);
    assert_eq!(rc.run_for_ns, 0);
    assert_eq!(rc.run_until_abs_ns, 15_000_000_000);
    // a boundary before the deadline passes, one at the deadline pauses once
    let outcome = rc.boundary(12_000_000_000);
    assert!(!outcome.pause_now);
    let outcome = rc.boundary(15_000_000_000);
    assert!(outcome.pause_now);
    assert_eq!(rc.run_until_abs_ns, UNSET_NS);
}

#[test]
fn restart_is_captured_at_the_boundary() {
    let mut rc = RunControlState::new();
    rc.apply_command(Command::RestartRunUntil { secs: 5 });
    assert!(rc.skip_start_pause);
    let outcome = rc.boundary(1_000_000_000);
    assert_eq!(outcome.restart, Some(5_000_000_000));
    assert!(!rc.restart_requested);
}

#[test]
fn paused_loop_prefers_restart_then_info() {
    let mut rc = RunControlState::new();
    rc.apply_command(Command::Pause);
    let _ = rc.boundary(0);
    assert!(rc.paused);
    rc.apply_command(Command::Info);
    assert_eq!(rc.paused_poll(), PausedAction::PrintInfo);
    assert_eq!(rc.paused_poll(), PausedAction::Wait);
    rc.apply_command(Command::Restart);
    assert_eq!(
        rc.paused_poll(),
        PausedAction::Restart { run_until_ns: UNSET_NS }
    );
    assert!(!rc.paused);
}

#[test]
fn start_pause_only_on_a_terminal_and_not_after_timed_restart() {
    let mut rc = RunControlState::new();
    assert!(!rc.start_pause(false));
    assert!(!rc.paused);
    assert!(rc.start_pause(true));
    assert!(rc.paused);

    // a restarted run with a deadline skips the start pause once
    let mut slot = RestartSlot::new();
    set_restart_run_until(&mut slot, Some(5_000_000_000));
    let mut rc = RunControlState::new();
    rc.reset_for_run(slot.take());
    assert_eq!(rc.run_until_abs_ns, 5_000_000_000);
    assert!(rc.skip_start_pause);
    assert!(!rc.start_pause(true));
    assert!(!rc.paused);
    // the skip is consumed: a later run would pause again
    assert!(rc.start_pause(true));
}

#[test]
fn restart_slot_round_trip() {
    let mut slot = RestartSlot::new();
    assert_eq!(slot.run_until_ns, UNSET_NS);
    set_restart_run_until(&mut slot, Some(7));
    assert_eq!(slot.take(), 7);
    assert_eq!(slot.take(), UNSET_NS);
    set_restart_run_until(&mut slot, None);
    assert_eq!(slot.run_until_ns, UNSET_NS);
}

#[test]
fn restart_request_message() {
    let with_deadline = RestartRequest { run_until_ns: Some(5_000_000_000) };
    assert_eq!(with_deadline.message(), "Restart requested: run until 5000000000 ns");
    let plain = RestartRequest { run_until_ns: None };
    assert_eq!(plain.message(), "Restart requested");
}
