use mitos_init::config::{RestartPolicy, ServiceDef};
use mitos_init::supervisor::{fallback_shell, shutdown_step, ExitStatus, Outcome, ReloadAction, ShutdownAction, Supervisor};

fn def(name: &str, path: &str, restart: RestartPolicy, critical: bool) -> ServiceDef {
    ServiceDef {
        name: name.into(),
        path: path.into(),
        args: vec![],
        critical,
        restart,
        memory_limit: None,
    }
}

#[test]
fn empty_supervisor_summary() {
    let s = Supervisor::new();
    assert_eq!(s.status_summary(), "no supervised services running");
}

#[test]
fn status_summary_lists_services_in_start_order() {
    let mut s = Supervisor::new();
    assert!(!s.spawn_with_history(def("getty", "/sbin/getty", RestartPolicy::Always, true), vec![], Some(42)));
    assert!(!s.spawn_with_history(def("sshd", "/usr/sbin/sshd", RestartPolicy::Never, false), vec![], Some(-7)));
    s.note_ready("sshd");
    assert_eq!(
        s.status_summary(),
        "2 supervised service(s):\n  pid 42: getty (/sbin/getty) [critical] starting\n  pid -7: sshd (/usr/sbin/sshd) ready"
    );
}

#[test]
fn spawn_all_starts_every_definition_fresh() {
    let s = Supervisor::new();
    let defs = vec![def("a", "/bin/a", RestartPolicy::Never, false), def("b", "/bin/b", RestartPolicy::Always, false)];
    let launches = s.spawn_all(&defs);
    assert_eq!(launches.len(), 2);
    assert_eq!(launches[0].def.name, "a");
    assert_eq!(launches[1].def.path, "/bin/b");
    assert!(launches.iter().all(|l| l.restart_times.is_empty()));
}

#[test]
fn a_critical_service_that_cannot_start_wants_the_fallback_shell() {
    let mut s = Supervisor::new();
    assert!(s.spawn_with_history(def("ui", "/bin/ui", RestartPolicy::Never, true), vec![], None));
    assert!(!s.spawn_with_history(def("log", "/bin/log", RestartPolicy::Never, false), vec![], None));
    assert_eq!(s.status_summary(), "no supervised services running");
    s.adopt_fallback_shell(9);
    assert_eq!(s.status_summary(), "1 supervised service(s):\n  pid 9: shell (/bin/sh) [critical] starting");
    let shell = fallback_shell();
    assert_eq!(shell.restart, RestartPolicy::Never);
    assert!(shell.args.is_empty());
}

#[test]
fn a_critical_exit_halts() {
    let mut s = Supervisor::new();
    s.spawn_with_history(def("ui", "/bin/ui", RestartPolicy::Always, true), vec![], Some(10));
    let h = s.handle_exit(ExitStatus::Exited { pid: 10, code: 0 }, 5);
    assert!(matches!(h.outcome, Outcome::Halt(ref n) if n == "ui"));
    assert_eq!(h.exited.as_deref(), Some("ui"));
    assert!(h.restart.is_none());
    assert_eq!(s.status_summary(), "no supervised services running");
}

#[test]
fn restart_policies_decide_on_restart() {
    let mut s = Supervisor::new();
    s.spawn_with_history(def("n", "/bin/n", RestartPolicy::Never, false), vec![], Some(1));
    s.spawn_with_history(def("f", "/bin/f", RestartPolicy::OnFailure, false), vec![], Some(2));
    s.spawn_with_history(def("g", "/bin/g", RestartPolicy::OnFailure, false), vec![], Some(3));
    s.spawn_with_history(def("a", "/bin/a", RestartPolicy::Always, false), vec![], Some(4));
    let h = s.handle_exit(ExitStatus::Exited { pid: 1, code: 1 }, 100);
    assert!(matches!(h.outcome, Outcome::Continue) && h.restart.is_none());
    let h = s.handle_exit(ExitStatus::Exited { pid: 2, code: 0 }, 100);
    assert!(h.restart.is_none());
    let h = s.handle_exit(ExitStatus::Signaled { pid: 3, signal: 9 }, 100);
    let l = h.restart.unwrap();
    assert_eq!(l.def.name, "g");
    assert_eq!(l.restart_times, vec![100]);
    let h = s.handle_exit(ExitStatus::Exited { pid: 4, code: 0 }, 200);
    assert_eq!(h.restart.unwrap().restart_times, vec![200]);
    assert_eq!(s.status_summary(), "no supervised services running");
}

#[test]
fn orphans_and_non_exits_change_nothing() {
    let mut s = Supervisor::new();
    s.spawn_with_history(def("a", "/bin/a", RestartPolicy::Always, false), vec![], Some(4));
    let h = s.handle_exit(ExitStatus::Exited { pid: 77, code: 1 }, 0);
    assert!(matches!(h.outcome, Outcome::Continue) && h.exited.is_none() && h.restart.is_none());
    let h = s.handle_exit(ExitStatus::Other, 0);
    assert!(h.exited.is_none());
    assert!(s.status_summary().starts_with("1 supervised"));
}

#[test]
fn a_crash_loop_gives_up() {
    let mut s = Supervisor::new();
    s.spawn_with_history(def("a", "/bin/a", RestartPolicy::Always, false), vec![10, 20, 30, 40, 50], Some(4));
    let h = s.handle_exit(ExitStatus::Exited { pid: 4, code: 1 }, 60);
    assert!(matches!(h.outcome, Outcome::GaveUp(ref n) if n == "a"));
    assert!(h.restart.is_none());
}

#[test]
fn forget_and_pid_reuse() {
    let mut s = Supervisor::new();
    s.spawn_with_history(def("a", "/bin/a", RestartPolicy::Never, false), vec![], Some(5));
    s.spawn_with_history(def("b", "/bin/b", RestartPolicy::Never, false), vec![], Some(5));
    assert_eq!(s.status_summary(), "1 supervised service(s):\n  pid 5: b (/bin/b) starting");
    s.forget(5);
    s.forget(6);
    assert_eq!(s.status_summary(), "no supervised services running");
}

#[test]
fn pids_and_names_in_start_order() {
    let mut s = Supervisor::new();
    s.spawn_with_history(def("a", "/bin/a", RestartPolicy::Never, false), vec![], Some(30));
    s.spawn_with_history(def("b", "/bin/b", RestartPolicy::Never, false), vec![], Some(20));
    assert_eq!(s.pids(), vec![30, 20]);
    assert_eq!(s.names(), vec!["a".to_string(), "b".to_string()]);
}

#[test]
fn shutdown_waits_until_done_or_out_of_time() {
    assert_eq!(shutdown_step(2, 100, 5000, false), ShutdownAction::Wait);
    assert_eq!(shutdown_step(0, 100, 5000, false), ShutdownAction::KillRemaining);
    assert_eq!(shutdown_step(2, 5000, 5000, false), ShutdownAction::KillRemaining);
    assert_eq!(shutdown_step(2, 100, 5000, true), ShutdownAction::KillRemaining);
}

/// Goes through a reload as the program does: stops what the first step
/// returns, then each definition in turn, starting it as `spawn` says.
fn reload(s: &mut Supervisor, defs: &[ServiceDef], spawn: &mut dyn FnMut(&ServiceDef) -> Option<i32>) -> (Vec<String>, Vec<String>) {
    let mut log = Vec::new();
    for (pid, name) in s.reload_services(defs) {
        log.push(format!("stop {pid} {name}"));
    }
    let mut touched = Vec::new();
    for d in defs {
        match s.reload_next(d) {
            ReloadAction::Keep => continue,
            ReloadAction::Restart { pid } => log.push(format!("stop {pid} {}", d.name)),
            ReloadAction::Start => {}
        }
        log.push(format!("start {} {}", d.name, d.path));
        s.spawn_with_history(d.clone(), vec![], spawn(d));
        touched.push(d.name.clone());
    }
    (log, touched)
}

#[test]
fn reload_stops_restarts_and_starts() {
    let mut s = Supervisor::new();
    s.spawn_with_history(def("keep", "/bin/keep", RestartPolicy::Never, false), vec![], Some(1));
    s.spawn_with_history(def("gone", "/bin/gone", RestartPolicy::Never, false), vec![], Some(2));
    s.spawn_with_history(def("chg", "/bin/old", RestartPolicy::Never, false), vec![], Some(3));
    let new_defs = vec![
        def("keep", "/bin/keep", RestartPolicy::Never, false),
        def("chg", "/bin/new", RestartPolicy::Never, false),
        def("fresh", "/bin/fresh", RestartPolicy::Always, false),
    ];
    let mut next = 10;
    let (log, touched) = reload(&mut s, &new_defs, &mut |_: &ServiceDef| {
        next += 1;
        Some(next)
    });
    assert_eq!(touched, vec!["chg".to_string(), "fresh".to_string()]);
    assert_eq!(log, vec!["stop 2 gone", "stop 3 chg", "start chg /bin/new", "start fresh /bin/fresh"]);
    assert_eq!(s.pids(), vec![1, 11, 12]);
}

#[test]
fn reloading_the_same_definitions_does_nothing() {
    let mut s = Supervisor::new();
    let defs = vec![def("a", "/bin/a", RestartPolicy::Never, false), def("b", "/bin/b", RestartPolicy::Always, true)];
    s.spawn_with_history(defs[0].clone(), vec![], Some(11));
    s.spawn_with_history(defs[1].clone(), vec![], Some(12));
    let before = s.status_summary();
    let (log, touched) = reload(&mut s, &defs, &mut |_: &ServiceDef| panic!("nothing is started"));
    assert!(log.is_empty());
    assert!(touched.is_empty());
    assert_eq!(s.status_summary(), before);
}

#[test]
fn a_definition_listed_twice_is_started_once_when_the_start_succeeds() {
    let mut s = Supervisor::new();
    let new_defs = vec![
        def("twice", "/bin/twice", RestartPolicy::Never, false),
        def("twice", "/bin/twice", RestartPolicy::Never, false),
    ];
    let (log, touched) = reload(&mut s, &new_defs, &mut |_: &ServiceDef| Some(40));
    assert_eq!(touched, vec!["twice".to_string()]);
    assert_eq!(log, vec!["start twice /bin/twice"]);
}

#[test]
fn a_failed_start_is_tried_again_for_a_repeated_definition() {
    let mut s = Supervisor::new();
    let new_defs = vec![
        def("twice", "/bin/twice", RestartPolicy::Never, false),
        def("twice", "/bin/twice", RestartPolicy::Never, false),
    ];
    let (log, touched) = reload(&mut s, &new_defs, &mut |_: &ServiceDef| None);
    assert_eq!(touched, vec!["twice".to_string(), "twice".to_string()]);
    assert_eq!(log, vec!["start twice /bin/twice", "start twice /bin/twice"]);
}

#[test]
fn a_later_changed_duplicate_replaces_the_one_just_started() {
    let mut s = Supervisor::new();
    let new_defs = vec![
        def("dup", "/bin/first", RestartPolicy::Never, false),
        def("dup", "/bin/second", RestartPolicy::Never, false),
    ];
    let mut next = 50;
    let (log, touched) = reload(&mut s, &new_defs, &mut |_: &ServiceDef| {
        next += 1;
        Some(next)
    });
    assert_eq!(touched, vec!["dup".to_string(), "dup".to_string()]);
    assert_eq!(log, vec!["start dup /bin/first", "stop 51 dup", "start dup /bin/second"]);
    assert_eq!(s.pids(), vec![52]);
}

#[test]
fn a_second_reload_after_the_first_does_nothing() {
    let mut s = Supervisor::new();
    s.spawn_with_history(def("keep", "/bin/keep", RestartPolicy::Never, false), vec![], Some(1));
    s.spawn_with_history(def("chg", "/bin/old", RestartPolicy::Never, false), vec![], Some(2));
    let new_defs = vec![
        def("keep", "/bin/keep", RestartPolicy::Never, false),
        def("chg", "/bin/new", RestartPolicy::Never, false),
        def("fresh", "/bin/fresh", RestartPolicy::Never, false),
    ];
    let mut next = 10;
    reload(&mut s, &new_defs, &mut |_: &ServiceDef| {
        next += 1;
        Some(next)
    });
    let pids_before = s.pids();
    let (log, touched) = reload(&mut s, &new_defs, &mut |_: &ServiceDef| panic!("nothing is started"));
    assert!(log.is_empty());
    assert!(touched.is_empty());
    assert_eq!(s.pids(), pids_before);
}
