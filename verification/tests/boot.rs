use mitos_init::boot::{
    after_reap, check_shutdown, loop_turn, on_signal, relay_signal, services_exited, shutdown_command,
    ControlRequest, LoopTurn, PidOneSignal, ReapAction, ShutdownCommand, ShutdownKind,
};
use mitos_init::supervisor::ExitStatus;

#[test]
fn signals_follow_the_kernel_convention() {
    assert_eq!(on_signal(PidOneSignal::Int), ControlRequest::Shutdown(ShutdownKind::Reboot));
    assert_eq!(on_signal(PidOneSignal::Term), ControlRequest::Shutdown(ShutdownKind::PowerOff));
    assert_eq!(on_signal(PidOneSignal::Quit), ControlRequest::Shutdown(ShutdownKind::Halt));
    assert_eq!(on_signal(PidOneSignal::Usr1), ControlRequest::Reload);
    assert_eq!(on_signal(PidOneSignal::Usr2), ControlRequest::StatusDump);
    for k in [ShutdownKind::Reboot, ShutdownKind::PowerOff, ShutdownKind::Halt] {
        assert_eq!(on_signal(relay_signal(k)), ControlRequest::Shutdown(k));
    }
}

#[test]
fn reboot_wins_over_poweroff_over_halt() {
    assert_eq!(check_shutdown(true, true, true), Some(ShutdownKind::Reboot));
    assert_eq!(check_shutdown(false, true, true), Some(ShutdownKind::PowerOff));
    assert_eq!(check_shutdown(false, false, true), Some(ShutdownKind::Halt));
    assert_eq!(check_shutdown(false, false, false), None);
}

#[test]
fn only_the_services_child_exiting_counts() {
    assert!(services_exited(ExitStatus::Exited { pid: 7, code: 0 }, Some(7)));
    assert!(services_exited(ExitStatus::Signaled { pid: 7, signal: 9 }, Some(7)));
    assert!(!services_exited(ExitStatus::Exited { pid: 8, code: 0 }, Some(7)));
    assert!(!services_exited(ExitStatus::Exited { pid: 7, code: 0 }, None));
    assert!(!services_exited(ExitStatus::Other, Some(7)));
}

fn args(a: &[&str]) -> Vec<String> {
    a.iter().map(|s| s.to_string()).collect()
}

#[test]
fn shutdown_arguments() {
    assert_eq!(shutdown_command(&args(&[])), ShutdownCommand { signal: PidOneSignal::Term, delay_minutes: 0 });
    assert_eq!(shutdown_command(&args(&["-r", "now"])), ShutdownCommand { signal: PidOneSignal::Int, delay_minutes: 0 });
    assert_eq!(shutdown_command(&args(&["-H", "+5"])), ShutdownCommand { signal: PidOneSignal::Quit, delay_minutes: 5 });
    assert_eq!(shutdown_command(&args(&["-r", "-P"])).signal, PidOneSignal::Term);
    assert_eq!(shutdown_command(&args(&["-h", "+x", "+3", "now"])).delay_minutes, 0);
    assert_eq!(shutdown_command(&args(&["+2", "+bad"])).delay_minutes, 2);
    assert_eq!(shutdown_command(&args(&["--reboot", "+"])), ShutdownCommand { signal: PidOneSignal::Term, delay_minutes: 0 });
}

#[test]
fn a_shutdown_comes_before_any_relay() {
    assert_eq!(loop_turn(false, true, false, true, true), LoopTurn::Shutdown(ShutdownKind::PowerOff));
    assert_eq!(loop_turn(true, true, true, false, false), LoopTurn::Shutdown(ShutdownKind::Reboot));
    assert_eq!(loop_turn(false, false, false, true, false), LoopTurn::Relay { reload: true, status_dump: false });
    assert_eq!(loop_turn(false, false, false, false, true), LoopTurn::Relay { reload: false, status_dump: true });
}

#[test]
fn reaping_decides_respawn_or_rescue() {
    let mut times: Vec<u64> = vec![];
    assert_eq!(after_reap(ExitStatus::Exited { pid: 9, code: 0 }, Some(7), &mut times, 100), ReapAction::Nothing);
    assert!(times.is_empty());
    assert_eq!(after_reap(ExitStatus::Other, Some(7), &mut times, 100), ReapAction::Nothing);
    for t in [100, 200, 300, 400, 500] {
        assert_eq!(after_reap(ExitStatus::Signaled { pid: 7, signal: 9 }, Some(7), &mut times, t), ReapAction::Respawn);
    }
    assert_eq!(times, vec![100, 200, 300, 400, 500]);
    assert_eq!(after_reap(ExitStatus::Exited { pid: 7, code: 1 }, Some(7), &mut times, 600), ReapAction::GiveUp);
    let mut late = vec![100];
    assert_eq!(after_reap(ExitStatus::Exited { pid: 7, code: 1 }, Some(7), &mut late, 20_000), ReapAction::Respawn);
    assert_eq!(late, vec![20_000]);
}
