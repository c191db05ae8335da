//! The decisions of PID 1's own event loop: which signal asks for what,
//! which shutdown wins when several are pending, when the one supervised
//! child (mitos-services) exited, and when its crash loop ends in a rescue
//! shell. Signals follow the kernel's Ctrl-Alt-Del convention:
//! SIGINT = reboot, SIGTERM = poweroff, SIGQUIT = halt; SIGUSR1/SIGUSR2
//! ask for a reload / status dump and are relayed as they are.

use vstd::prelude::*;
use crate::backoff::{gives_up, record_restart, after_restart};
use crate::supervisor::ExitStatus;
use crate::text::{chars_of, parse_u64, parse_u64_range, range_eq};

verus! {

/// How the machine goes down.
#[derive(PartialEq, Eq, Structural, Clone, Copy, Debug)]
pub enum ShutdownKind {
    Reboot,
    PowerOff,
    Halt,
}

/// The signals PID 1 acts on.
#[derive(PartialEq, Eq, Structural, Clone, Copy, Debug)]
pub enum PidOneSignal {
    /// SIGINT
    Int,
    /// SIGTERM
    Term,
    /// SIGQUIT
    Quit,
    /// SIGUSR1
    Usr1,
    /// SIGUSR2
    Usr2,
}

/// What a signal to PID 1 asks for.
#[derive(PartialEq, Eq, Structural, Clone, Copy, Debug)]
pub enum ControlRequest {
    Shutdown(ShutdownKind),
    Reload,
    StatusDump,
}

pub open spec fn request_of(sig: PidOneSignal) -> ControlRequest {
    match sig {
        PidOneSignal::Int => ControlRequest::Shutdown(ShutdownKind::Reboot),
        PidOneSignal::Term => ControlRequest::Shutdown(ShutdownKind::PowerOff),
        PidOneSignal::Quit => ControlRequest::Shutdown(ShutdownKind::Halt),
        PidOneSignal::Usr1 => ControlRequest::Reload,
        PidOneSignal::Usr2 => ControlRequest::StatusDump,
    }
}

pub open spec fn signal_for(kind: ShutdownKind) -> PidOneSignal {
    match kind {
        ShutdownKind::Reboot => PidOneSignal::Int,
        ShutdownKind::PowerOff => PidOneSignal::Term,
        ShutdownKind::Halt => PidOneSignal::Quit,
    }
}

/// What the signal `sig` asks PID 1 for.
pub fn on_signal(sig: PidOneSignal) -> (r: ControlRequest)
    ensures
        r == request_of(sig),
{
    match sig {
        PidOneSignal::Int => ControlRequest::Shutdown(ShutdownKind::Reboot),
        PidOneSignal::Term => ControlRequest::Shutdown(ShutdownKind::PowerOff),
        PidOneSignal::Quit => ControlRequest::Shutdown(ShutdownKind::Halt),
        PidOneSignal::Usr1 => ControlRequest::Reload,
        PidOneSignal::Usr2 => ControlRequest::StatusDump,
    }
}

/// The signal relayed to mitos-services for a shutdown of `kind`: the
/// same one that asked PID 1 for it.
pub fn relay_signal(kind: ShutdownKind) -> (r: PidOneSignal)
    ensures
        r == signal_for(kind),
{
    match kind {
        ShutdownKind::Reboot => PidOneSignal::Int,
        ShutdownKind::PowerOff => PidOneSignal::Term,
        ShutdownKind::Halt => PidOneSignal::Quit,
    }
}

/// Relaying a shutdown passes on exactly the request that was made: the
/// relayed signal asks mitos-services for the same kind of shutdown.
pub proof fn lemma_relay_round_trip(kind: ShutdownKind)
    ensures
        request_of(signal_for(kind)) == ControlRequest::Shutdown(kind),
{
}

/// Which shutdown the pending requests ask for: reboot over poweroff
/// over halt; none when none is pending.
pub open spec fn pending_shutdown(reboot: bool, poweroff: bool, halt: bool) -> Option<ShutdownKind> {
    if reboot {
        Some(ShutdownKind::Reboot)
    } else if poweroff {
        Some(ShutdownKind::PowerOff)
    } else if halt {
        Some(ShutdownKind::Halt)
    } else {
        None
    }
}

/// Decides whether the event loop shuts down, given which requests are
/// pending (every flag having been read and cleared).
pub fn check_shutdown(reboot: bool, poweroff: bool, halt: bool) -> (r: Option<ShutdownKind>)
    ensures
        r == pending_shutdown(reboot, poweroff, halt),
{
    if reboot {
        Some(ShutdownKind::Reboot)
    } else if poweroff {
        Some(ShutdownKind::PowerOff)
    } else if halt {
        Some(ShutdownKind::Halt)
    } else {
        None
    }
}

/// Whether a reaped status is the exit of the supervised child.
pub open spec fn is_child_exit(status: ExitStatus, child: Option<i32>) -> bool {
    match (status, child) {
        (ExitStatus::Exited { pid, .. }, Some(c)) => pid == c,
        (ExitStatus::Signaled { pid, .. }, Some(c)) => pid == c,
        _ => false,
    }
}

/// Whether `status` reports that mitos-services (running as `child`) exited.
pub fn services_exited(status: ExitStatus, child: Option<i32>) -> (r: bool)
    ensures
        r == is_child_exit(status, child),
{
    match (status, child) {
        (ExitStatus::Exited { pid, .. }, Some(c)) => pid == c,
        (ExitStatus::Signaled { pid, .. }, Some(c)) => pid == c,
        _ => false,
    }
}

/// Records a restart of mitos-services at `now_ms` and says whether to
/// start it again (`true`) or give up and fall back to a rescue shell:
/// more than five restarts within ten seconds gives up.
pub fn restart_with_backoff(restart_times: &mut Vec<u64>, now_ms: u64) -> (respawn: bool)
    ensures
        final(restart_times)@ == after_restart(old(restart_times)@, now_ms),
        respawn == !gives_up(old(restart_times)@, now_ms),
{
    !record_restart(restart_times, now_ms)
}

/// Which shutdown wins: a pending reboot always does, whatever else is
/// pending; without one, a poweroff; without both, a halt; and no
/// shutdown is made exactly when none is pending.
pub proof fn lemma_shutdown_priority(poweroff: bool, halt: bool)
    ensures
        pending_shutdown(true, poweroff, halt) == Some(ShutdownKind::Reboot),
        pending_shutdown(false, true, halt) == Some(ShutdownKind::PowerOff),
        pending_shutdown(false, false, true) == Some(ShutdownKind::Halt),
        pending_shutdown(false, false, false) == Option::<ShutdownKind>::None,
        forall|r: bool, p: bool, h: bool| (#[trigger] pending_shutdown(r, p, h) == Option::<ShutdownKind>::None) <==> (!r && !p && !h),
{
}

/// What one turn of PID 1's loop does with the requests read (and
/// cleared) at its start.
#[derive(PartialEq, Eq, Structural, Clone, Copy, Debug)]
pub enum LoopTurn {
    /// A shutdown is pending: relay it to mitos-services, wait for its
    /// acknowledgement, and leave the loop - before any other relay.
    Shutdown(ShutdownKind),
    /// No shutdown: relay a pending reload, then a pending status dump,
    /// then wait for a child to exit.
    Relay { reload: bool, status_dump: bool },
}

/// The start of one turn of PID 1's loop: shutdown first (reboot over
/// poweroff over halt); only without one are reload and status dump
/// relayed.
pub fn loop_turn(reboot: bool, poweroff: bool, halt: bool, reload: bool, status_dump: bool) -> (r: LoopTurn)
    ensures
        r == match pending_shutdown(reboot, poweroff, halt) {
            Some(kind) => LoopTurn::Shutdown(kind),
            None => LoopTurn::Relay { reload, status_dump },
        },
{
    match check_shutdown(reboot, poweroff, halt) {
        Some(kind) => LoopTurn::Shutdown(kind),
        None => LoopTurn::Relay { reload, status_dump },
    }
}

/// What PID 1 does after reaping `status`.
#[derive(PartialEq, Eq, Structural, Clone, Copy, Debug)]
pub enum ReapAction {
    /// Not mitos-services (an orphan): reaping it was all there was to do.
    Nothing,
    /// mitos-services exited: start it again.
    Respawn,
    /// mitos-services exited once too often: fall back to a rescue shell.
    GiveUp,
}

/// The end of one turn of PID 1's loop, after `status` was reaped with
/// mitos-services running as `child`: an exit of mitos-services is
/// recorded in its restart history at `now_ms` and decides between a
/// respawn and the rescue shell; anything else changes nothing.
pub fn after_reap(status: ExitStatus, child: Option<i32>, restart_times: &mut Vec<u64>, now_ms: u64) -> (r: ReapAction)
    ensures
        is_child_exit(status, child) ==> final(restart_times)@ == after_restart(old(restart_times)@, now_ms)
            && r == (if gives_up(old(restart_times)@, now_ms) { ReapAction::GiveUp } else { ReapAction::Respawn }),
        !is_child_exit(status, child) ==> final(restart_times)@ == old(restart_times)@ && r == ReapAction::Nothing,
{
    if !services_exited(status, child) {
        return ReapAction::Nothing;
    }
    if restart_with_backoff(restart_times, now_ms) {
        ReapAction::Respawn
    } else {
        ReapAction::GiveUp
    }
}

// ---------------------------------------------------------------------
// The `shutdown` command
// ---------------------------------------------------------------------

/// What `shutdown` sends to PID 1, and after how many minutes.
#[derive(PartialEq, Eq, Structural, Clone, Copy, Debug)]
pub struct ShutdownCommand {
    pub signal: PidOneSignal,
    pub delay_minutes: u64,
}

/// The effect of one argument: `-r` reboot, `-h`/`-P` poweroff, `-H` halt,
/// `now` no delay, `+N` a delay of `N` minutes; anything else is ignored.
pub open spec fn shutdown_arg_step(c: ShutdownCommand, a: Seq<char>) -> ShutdownCommand {
    if a == "-r"@ {
        ShutdownCommand { signal: PidOneSignal::Int, ..c }
    } else if a == "-h"@ || a == "-P"@ {
        ShutdownCommand { signal: PidOneSignal::Term, ..c }
    } else if a == "-H"@ {
        ShutdownCommand { signal: PidOneSignal::Quit, ..c }
    } else if a == "now"@ {
        ShutdownCommand { delay_minutes: 0, ..c }
    } else if a.len() > 0 && a[0] == '+' {
        match parse_u64(a.drop_first()) {
            Some(m) => ShutdownCommand { delay_minutes: m, ..c },
            None => c,
        }
    } else {
        c
    }
}

/// The command the arguments give, from the default: poweroff, now.
pub open spec fn shutdown_command_of(args: Seq<Seq<char>>) -> ShutdownCommand
    decreases args.len(),
{
    if args.len() == 0 {
        ShutdownCommand { signal: PidOneSignal::Term, delay_minutes: 0 }
    } else {
        shutdown_arg_step(shutdown_command_of(args.drop_last()), args.last())
    }
}

/// `shutdown [-r|-h|-P|-H] (now|+MINUTES)`: which signal to send PID 1 and
/// how long to wait first. A later argument overrides an earlier one.
pub fn shutdown_command(args: &[String]) -> (r: ShutdownCommand)
    ensures
        r == shutdown_command_of(args@.map_values(|s: String| s@)),
{
    let ghost av = args@.map_values(|s: String| s@);
    let w_r = chars_of("-r");
    let w_h = chars_of("-h");
    let w_p = chars_of("-P");
    let w_hh = chars_of("-H");
    let w_now = chars_of("now");
    let mut c = ShutdownCommand { signal: PidOneSignal::Term, delay_minutes: 0 };
    let mut i: usize = 0;
    proof {
        assert(av.take(0) =~= Seq::<Seq<char>>::empty());
    }
    while i < args.len()
        invariant
            0 <= i <= args@.len(),
            av == args@.map_values(|s: String| s@),
            w_r@ == "-r"@,
            w_h@ == "-h"@,
            w_p@ == "-P"@,
            w_hh@ == "-H"@,
            w_now@ == "now"@,
            c == shutdown_command_of(av.take(i as int)),
        decreases args@.len() - i,
    {
        let v = chars_of(args[i].as_str());
        let n = v.len();
        proof {
            assert(av.take(i + 1).drop_last() =~= av.take(i as int));
            assert(av.take(i + 1).last() == av[i as int]);
            assert(v@.subrange(0, n as int) =~= v@);
            assert(v@ == av[i as int]);
        }
        if range_eq(&v, 0, n, &w_r) {
            c = ShutdownCommand { signal: PidOneSignal::Int, ..c };
        } else if range_eq(&v, 0, n, &w_h) || range_eq(&v, 0, n, &w_p) {
            c = ShutdownCommand { signal: PidOneSignal::Term, ..c };
        } else if range_eq(&v, 0, n, &w_hh) {
            c = ShutdownCommand { signal: PidOneSignal::Quit, ..c };
        } else if range_eq(&v, 0, n, &w_now) {
            c = ShutdownCommand { delay_minutes: 0, ..c };
        } else if n > 0 && v[0] == '+' {
            proof {
                assert(v@.drop_first() =~= v@.subrange(1, n as int));
            }
            match parse_u64_range(&v, 1, n) {
                Some(m) => {
                    c = ShutdownCommand { delay_minutes: m, ..c };
                },
                None => {},
            }
        }
        i = i + 1;
    }
    assert(av.take(args@.len() as int) =~= av);
    c
}

/// The signal a mode flag of `shutdown` selects: `-r` SIGINT (reboot),
/// `-h` and `-P` SIGTERM (poweroff), `-H` SIGQUIT (halt).
pub open spec fn is_mode_flag(a: Seq<char>) -> bool {
    a == "-r"@ || a == "-h"@ || a == "-P"@ || a == "-H"@
}

proof fn lemma_other_arg_keeps_signal(c: ShutdownCommand, a: Seq<char>)
    requires
        !is_mode_flag(a),
    ensures
        shutdown_arg_step(c, a).signal == c.signal,
{
}

/// The last mode flag among the arguments decides the signal `shutdown`
/// sends: `-r` reboot (SIGINT), `-h` or `-P` poweroff (SIGTERM), `-H` halt
/// (SIGQUIT); with no mode flag at all it is poweroff.
pub proof fn lemma_last_mode_flag_decides(args: Seq<Seq<char>>, k: int)
    requires
        -1 <= k < args.len(),
        k >= 0 ==> is_mode_flag(args[k]),
        forall|j: int| k < j < args.len() ==> !is_mode_flag(#[trigger] args[j]),
    ensures
        k >= 0 && args[k] == "-r"@ ==> shutdown_command_of(args).signal == PidOneSignal::Int,
        k >= 0 && (args[k] == "-h"@ || args[k] == "-P"@) ==> shutdown_command_of(args).signal == PidOneSignal::Term,
        k >= 0 && args[k] == "-H"@ ==> shutdown_command_of(args).signal == PidOneSignal::Quit,
        k < 0 ==> shutdown_command_of(args).signal == PidOneSignal::Term,
    decreases args.len(),
{
    reveal_strlit("-r");
    reveal_strlit("-h");
    reveal_strlit("-P");
    reveal_strlit("-H");
    if args.len() > 0 {
        let init = args.drop_last();
        if k == args.len() - 1 {
        } else {
            assert forall|j: int| k < j < init.len() implies !is_mode_flag(#[trigger] init[j]) by {
                assert(init[j] == args[j]);
            }
            if k >= 0 {
                assert(init[k] == args[k]);
            }
            lemma_last_mode_flag_decides(init, k);
            assert(!is_mode_flag(args[args.len() - 1]));
            lemma_other_arg_keeps_signal(shutdown_command_of(init), args.last());
        }
    }
}

/// `now` sets no delay and leaves the signal as it was.
pub proof fn lemma_now_arg(args: Seq<Seq<char>>)
    ensures
        shutdown_command_of(args.push("now"@)) == (ShutdownCommand { delay_minutes: 0, ..shutdown_command_of(args) }),
{
    reveal_strlit("now");
    reveal_strlit("-r");
    reveal_strlit("-h");
    reveal_strlit("-P");
    reveal_strlit("-H");
    assert(args.push("now"@).drop_last() =~= args);
}

} // verus!
