//! Process supervision: which services run under which pid, what to do
//! when one exits (restart policy, crash-loop backoff, critical services),
//! and how to reconcile the running set against a new configuration.
//!
//! The supervisor is a state machine: starting, signalling and reaping
//! processes is the caller's. Each operation takes what the outside world
//! reported (a pid from a spawn, a reaped exit status, the time) and says
//! what to do next (start this, stop that, halt).

use vstd::prelude::*;
use crate::backoff::{after_restart, gives_up, record_restart, MAX_RESTARTS_IN_WINDOW};
use crate::config::{RestartPolicy, ServiceDef, ServiceDefView, clone_strings, strings_equal, strings_view};
use crate::notify::ReadyState;
use crate::text::{
    dec, first_where, int_text, lemma_first_where, lemma_first_where_at, push_decimal, push_int,
    push_text,
};

verus! {

// ---------------------------------------------------------------------
// Types
// ---------------------------------------------------------------------

/// How a reaped child ended, as `waitpid` reports it.
#[derive(PartialEq, Eq, Structural, Clone, Copy, Debug)]
pub enum ExitStatus {
    /// The process exited with this status code.
    Exited { pid: i32, code: i32 },
    /// The process was killed by this signal.
    Signaled { pid: i32, signal: i32 },
    /// Stopped, continued, or anything else that is not a real exit.
    Other,
}

/// What the caller has to act on after an exit.
pub enum Outcome {
    /// Keep looping; nothing the caller needs to act on.
    Continue,
    /// A critical service exited (carries its name) - time to shut the
    /// system down.
    Halt(String),
    /// A service exhausted its restart budget and won't be retried again
    /// (carries its name).
    GaveUp(String),
}

/// A service to start, with the restart history it carries.
pub struct Launch {
    pub def: ServiceDef,
    pub restart_times: Vec<u64>,
}

/// What handling one exit decided.
pub struct ExitHandling {
    pub outcome: Outcome,
    /// The service that exited, whose leftover processes are to be swept.
    pub exited: Option<String>,
    /// The service to start again, with its updated restart history.
    pub restart: Option<Launch>,
}

/// What a reload does about one configured definition.
#[derive(PartialEq, Eq, Structural, Clone, Copy, Debug)]
pub enum ReloadAction {
    /// It runs unchanged: leave it running.
    Keep,
    /// It changed: the process `pid` (now out of supervision) is to be
    /// stopped, and the new definition started fresh.
    Restart { pid: i32 },
    /// It does not run: start it fresh.
    Start,
}

struct Supervised {
    def: ServiceDef,
    restart_times: Vec<u64>,
}

/// What a full shutdown does next while it waits for the children it
/// sent SIGTERM to.
#[derive(PartialEq, Eq, Structural, Clone, Copy, Debug)]
pub enum ShutdownAction {
    /// Keep reaping exits.
    Wait,
    /// Stop waiting: SIGKILL whatever is still supervised, then sweep
    /// every cgroup.
    KillRemaining,
}

/// The running services, keyed by their current pid, in the order they
/// were started, and which of them reported ready.
pub struct Supervisor {
    services: Vec<(i32, Supervised)>,
    ready_state: ReadyState,
}

// ---------------------------------------------------------------------
// Views
// ---------------------------------------------------------------------

pub struct SupervisedView {
    pub def: ServiceDefView,
    pub restart_times: Seq<u64>,
}

pub struct SupervisorView {
    /// `(pid, service)` in the order the services were started.
    pub services: Seq<(i32, SupervisedView)>,
    /// Names of the services that reported ready.
    pub ready: Set<Seq<char>>,
}

pub enum OutcomeView {
    Continue,
    Halt(Seq<char>),
    GaveUp(Seq<char>),
}

pub open spec fn outcome_view(o: Outcome) -> OutcomeView {
    match o {
        Outcome::Continue => OutcomeView::Continue,
        Outcome::Halt(n) => OutcomeView::Halt(n@),
        Outcome::GaveUp(n) => OutcomeView::GaveUp(n@),
    }
}

spec fn supervised_view(s: Supervised) -> SupervisedView {
    SupervisedView { def: s.def@, restart_times: s.restart_times@ }
}

spec fn entry_view(e: (i32, Supervised)) -> (i32, SupervisedView) {
    (e.0, supervised_view(e.1))
}

spec fn entries_view(es: Seq<(i32, Supervised)>) -> Seq<(i32, SupervisedView)> {
    es.map_values(|e: (i32, Supervised)| entry_view(e))
}

impl View for Supervisor {
    type V = SupervisorView;

    closed spec fn view(&self) -> SupervisorView {
        SupervisorView { services: entries_view(self.services@), ready: self.ready_state@ }
    }
}

impl Supervisor {
    #[verifier::type_invariant]
    closed spec fn pids_are_distinct(self) -> bool {
        distinct_pids(entries_view(self.services@))
    }
}

// ---------------------------------------------------------------------
// The model
// ---------------------------------------------------------------------

/// No pid is tracked twice.
pub open spec fn distinct_pids<X>(s: Seq<(i32, X)>) -> bool {
    forall|i: int, j: int| 0 <= i < s.len() && 0 <= j < s.len() && i != j ==> #[trigger] s[i].0 != #[trigger] s[j].0
}

pub open spec fn pid_pred(pid: i32) -> spec_fn((i32, SupervisedView)) -> bool {
    |e: (i32, SupervisedView)| e.0 == pid
}

pub open spec fn name_pred(name: Seq<char>) -> spec_fn((i32, SupervisedView)) -> bool {
    |e: (i32, SupervisedView)| e.1.def.name == name
}

/// The services without the one running as `pid`.
pub open spec fn without_pid(s: Seq<(i32, SupervisedView)>, pid: i32) -> Seq<(i32, SupervisedView)> {
    let i = first_where(s, pid_pred(pid));
    if i < s.len() {
        s.remove(i as int)
    } else {
        s
    }
}

/// The services with `sv` running as `pid` (replacing what `pid` ran).
pub open spec fn with_pid(s: Seq<(i32, SupervisedView)>, pid: i32, sv: SupervisedView) -> Seq<(i32, SupervisedView)> {
    let i = first_where(s, pid_pred(pid));
    if i < s.len() {
        s.update(i as int, (pid, sv))
    } else {
        s.push((pid, sv))
    }
}

/// The pid of a real exit.
pub open spec fn exit_pid(st: ExitStatus) -> Option<i32> {
    match st {
        ExitStatus::Exited { pid, .. } => Some(pid),
        ExitStatus::Signaled { pid, .. } => Some(pid),
        ExitStatus::Other => None,
    }
}

/// Whether a service with `policy` is started again after `st`.
pub open spec fn wants_restart(policy: RestartPolicy, st: ExitStatus) -> bool {
    match policy {
        RestartPolicy::Never => false,
        RestartPolicy::Always => true,
        RestartPolicy::OnFailure => !(st matches ExitStatus::Exited { code: 0, .. }),
    }
}

/// What handling an exit does: the services afterwards, the outcome, the
/// service whose leftovers are swept, and the restart to perform.
pub struct ExitEffect {
    pub services: Seq<(i32, SupervisedView)>,
    pub outcome: OutcomeView,
    pub exited: Option<Seq<char>>,
    pub restart: Option<(ServiceDefView, Seq<u64>)>,
}

pub open spec fn exit_effect(s: Seq<(i32, SupervisedView)>, st: ExitStatus, now: u64) -> ExitEffect {
    let unchanged = ExitEffect { services: s, outcome: OutcomeView::Continue, exited: None, restart: None };
    match exit_pid(st) {
        None => unchanged,
        Some(pid) => {
            let i = first_where(s, pid_pred(pid));
            if i >= s.len() {
                // an orphan nobody tracks
                unchanged
            } else {
                let sv = s[i as int].1;
                let rest = s.remove(i as int);
                let name = sv.def.name;
                if sv.def.critical {
                    ExitEffect { services: rest, outcome: OutcomeView::Halt(name), exited: Some(name), restart: None }
                } else if !wants_restart(sv.def.restart, st) {
                    ExitEffect { services: rest, outcome: OutcomeView::Continue, exited: Some(name), restart: None }
                } else if gives_up(sv.restart_times, now) {
                    ExitEffect { services: rest, outcome: OutcomeView::GaveUp(name), exited: Some(name), restart: None }
                } else {
                    ExitEffect {
                        services: rest,
                        outcome: OutcomeView::Continue,
                        exited: Some(name),
                        restart: Some((sv.def, after_restart(sv.restart_times, now))),
                    }
                }
            }
        },
    }
}

/// `defs_equal`: the same service apart from its name.
pub open spec fn same_definition(a: ServiceDefView, b: ServiceDefView) -> bool {
    &&& a.path == b.path
    &&& a.args == b.args
    &&& a.critical == b.critical
    &&& a.restart == b.restart
    &&& a.memory_limit == b.memory_limit
}

/// Whether some definition in `defs` has `name`.
pub open spec fn named_in(defs: Seq<ServiceDefView>, name: Seq<char>) -> bool {
    exists|i: int| 0 <= i < defs.len() && #[trigger] defs[i].name == name
}

/// First step of a reload: the running services whose name is still
/// configured, and `(pid, name)` of each of the others, in order.
pub open spec fn split_removed(s: Seq<(i32, SupervisedView)>, defs: Seq<ServiceDefView>) -> (Seq<(i32, SupervisedView)>, Seq<(i32, Seq<char>)>)
    decreases s.len(),
{
    if s.len() == 0 {
        (seq![], seq![])
    } else {
        let (kept, stops) = split_removed(s.drop_last(), defs);
        let e = s.last();
        if named_in(defs, e.1.def.name) {
            (kept.push(e), stops)
        } else {
            (kept, stops.push((e.0, e.1.def.name)))
        }
    }
}

/// The next step of a reload, for one configured definition, against the
/// services supervised now (those that ran before the reload and those it
/// has started so far): the first service of that name running the same
/// definition is kept; one running another is taken out, to be stopped
/// and started again; with none, it is started.
pub open spec fn reload_next_effect(s: Seq<(i32, SupervisedView)>, d: ServiceDefView) -> (Seq<(i32, SupervisedView)>, ReloadAction) {
    let i = first_where(s, name_pred(d.name));
    if i < s.len() {
        if same_definition(s[i as int].1.def, d) {
            (s, ReloadAction::Keep)
        } else {
            (s.remove(i as int), ReloadAction::Restart { pid: s[i as int].0 })
        }
    } else {
        (s, ReloadAction::Start)
    }
}

/// A service started fresh from `d`.
pub open spec fn fresh(d: ServiceDefView) -> SupervisedView {
    SupervisedView { def: d, restart_times: seq![] }
}

/// The services after the second step of a reload has gone through
/// `defs` from `s`, each start succeeding: the start for `defs[k]` runs
/// as `pids[k]` and is recorded as `spawn_with_history` records it.
pub open spec fn reload_round(s: Seq<(i32, SupervisedView)>, defs: Seq<ServiceDefView>, pids: Seq<i32>) -> Seq<(i32, SupervisedView)>
    decreases defs.len(),
{
    if defs.len() == 0 {
        s
    } else {
        let k = defs.len() - 1;
        let (s1, a) = reload_next_effect(reload_round(s, defs.take(k), pids), defs[k]);
        if a == ReloadAction::Keep {
            s1
        } else {
            with_pid(s1, pids[k], fresh(defs[k]))
        }
    }
}

/// One line of the status summary.
pub open spec fn line_text(pid: i32, def: ServiceDefView, is_ready: bool) -> Seq<char> {
    "  pid "@ + int_text(pid as int) + ": "@ + def.name + " ("@ + def.path + ")"@ + (if def.critical {
        " [critical]"@
    } else {
        seq![]
    }) + (if is_ready {
        " ready"@
    } else {
        " starting"@
    })
}

pub open spec fn service_line(e: (i32, SupervisedView), ready: Set<Seq<char>>) -> Seq<char> {
    line_text(e.0, e.1.def, ready.contains(e.1.def.name))
}

/// The lines of the status summary, each after a newline.
pub open spec fn service_lines(s: Seq<(i32, SupervisedView)>, ready: Set<Seq<char>>) -> Seq<char>
    decreases s.len(),
{
    if s.len() == 0 {
        seq![]
    } else {
        service_lines(s.drop_last(), ready) + "\n"@ + service_line(s.last(), ready)
    }
}

/// The status summary text.
pub open spec fn status_text(v: SupervisorView) -> Seq<char> {
    if v.services.len() == 0 {
        "no supervised services running"@
    } else {
        dec(v.services.len()) + " supervised service(s):"@ + service_lines(v.services, v.ready)
    }
}

/// The definition of the shell started when a critical service cannot
/// even be spawned.
pub open spec fn fallback_shell_view() -> ServiceDefView {
    ServiceDefView {
        name: "shell"@,
        path: "/bin/sh"@,
        args: seq![],
        critical: true,
        restart: RestartPolicy::Never,
        memory_limit: None,
    }
}

// ---------------------------------------------------------------------
// Lemmas about the pid list
// ---------------------------------------------------------------------

proof fn lemma_distinct_remove<X>(s: Seq<(i32, X)>, i: int)
    requires
        distinct_pids(s),
        0 <= i < s.len(),
    ensures
        distinct_pids(s.remove(i)),
{
    let r = s.remove(i);
    assert forall|a: int, b: int| 0 <= a < r.len() && 0 <= b < r.len() && a != b implies #[trigger] r[a].0
        != #[trigger] r[b].0 by {
        let a2 = if a < i {
            a
        } else {
            a + 1
        };
        let b2 = if b < i {
            b
        } else {
            b + 1
        };
        assert(r[a] == s[a2]);
        assert(r[b] == s[b2]);
    }
}

proof fn lemma_distinct_update<X>(s: Seq<(i32, X)>, i: int, x: X)
    requires
        distinct_pids(s),
        0 <= i < s.len(),
    ensures
        distinct_pids(s.update(i, (s[i].0, x))),
{
    let r = s.update(i, (s[i].0, x));
    assert forall|a: int, b: int| 0 <= a < r.len() && 0 <= b < r.len() && a != b implies #[trigger] r[a].0
        != #[trigger] r[b].0 by {
        assert(r[a].0 == s[a].0);
        assert(r[b].0 == s[b].0);
    }
}

proof fn lemma_distinct_push<X>(s: Seq<(i32, X)>, e: (i32, X))
    requires
        distinct_pids(s),
        forall|j: int| 0 <= j < s.len() ==> #[trigger] s[j].0 != e.0,
    ensures
        distinct_pids(s.push(e)),
{
    let r = s.push(e);
    assert forall|a: int, b: int| 0 <= a < r.len() && 0 <= b < r.len() && a != b implies #[trigger] r[a].0
        != #[trigger] r[b].0 by {
        if a < s.len() {
            assert(r[a] == s[a]);
        }
        if b < s.len() {
            assert(r[b] == s[b]);
        }
    }
}

proof fn lemma_entries_remove(es: Seq<(i32, Supervised)>, i: int)
    requires
        0 <= i < es.len(),
    ensures
        entries_view(es.remove(i)) == entries_view(es).remove(i),
{
    assert(entries_view(es.remove(i)) =~= entries_view(es).remove(i));
}

// ---------------------------------------------------------------------
// Exec helpers
// ---------------------------------------------------------------------

/// `defs_equal`: whether two definitions describe the same service apart
/// from its name (what a reload compares to decide on a restart).
pub fn defs_equal(a: &ServiceDef, b: &ServiceDef) -> (r: bool)
    ensures
        r == same_definition(a@, b@),
{
    a.path == b.path && strings_equal(&a.args, &b.args) && a.critical == b.critical && a.restart
        == b.restart && a.memory_limit == b.memory_limit
}

/// The shell started in place of a critical service that cannot be spawned.
pub fn fallback_shell() -> (r: ServiceDef)
    ensures
        r@ == fallback_shell_view(),
{
    let r = ServiceDef {
        name: "shell".to_owned(),
        path: "/bin/sh".to_owned(),
        args: Vec::new(),
        critical: true,
        restart: RestartPolicy::Never,
        memory_limit: None,
    };
    assert(strings_view(r.args@) =~= Seq::<Seq<char>>::empty());
    r
}

/// Appends a newline and the status line of `def` running as `pid`.
fn push_service_line(out: &mut String, pid: i32, def: &ServiceDef, is_ready: bool)
    ensures
        final(out)@ == old(out)@ + "\n"@ + line_text(pid, def@, is_ready),
{
    let ghost start = out@;
    push_text(out, "\n");
    push_text(out, "  pid ");
    push_int(out, pid as i64);
    push_text(out, ": ");
    push_text(out, def.name.as_str());
    push_text(out, " (");
    push_text(out, def.path.as_str());
    push_text(out, ")");
    let ghost mid = out@;
    if def.critical {
        push_text(out, " [critical]");
    } else {
        assert(mid + seq![] =~= mid);
    }
    if is_ready {
        push_text(out, " ready");
    } else {
        push_text(out, " starting");
    }
    assert(out@ =~= start + "\n"@ + line_text(pid, def@, is_ready));
}

impl Supervisor {
    pub fn new() -> (r: Supervisor)
        ensures
            r@.services.len() == 0,
            r@.ready == Set::<Seq<char>>::empty(),
    {
        let r = Supervisor { services: Vec::new(), ready_state: ReadyState::new() };
        assert(entries_view(r.services@) =~= Seq::empty());
        r
    }

    fn index_of_pid(&self, pid: i32) -> (r: usize)
        ensures
            r == first_where(self@.services, pid_pred(pid)),
            r <= self@.services.len(),
    {
        let ghost s = self@.services;
        let mut i: usize = 0;
        while i < self.services.len()
            invariant
                0 <= i <= self.services@.len(),
                s == entries_view(self.services@),
                forall|j: int| 0 <= j < i ==> #[trigger] self.services@[j].0 != pid,
            ensures
                0 <= i <= self.services@.len(),
                forall|j: int| 0 <= j < i ==> #[trigger] self.services@[j].0 != pid,
                i < self.services@.len() ==> self.services@[i as int].0 == pid,
            decreases self.services@.len() - i,
        {
            if self.services[i].0 == pid {
                break;
            }
            i = i + 1;
        }
        proof {
            assert forall|j: int| 0 <= j < i implies !pid_pred(pid)(#[trigger] s[j]) by {
                assert(s[j].0 == self.services@[j].0);
            }
            if i < s.len() {
                assert(s[i as int].0 == self.services@[i as int].0);
            }
            lemma_first_where_at(s, pid_pred(pid), i as int);
        }
        i
    }

    fn index_of_name(&self, name: &String) -> (r: usize)
        ensures
            r == first_where(self@.services, name_pred(name@)),
            r <= self@.services.len(),
    {
        let ghost s = self@.services;
        let mut i: usize = 0;
        while i < self.services.len()
            invariant
                0 <= i <= self.services@.len(),
                s == entries_view(self.services@),
                forall|j: int| 0 <= j < i ==> (#[trigger] self.services@[j]).1.def.name@ != name@,
            ensures
                0 <= i <= self.services@.len(),
                forall|j: int| 0 <= j < i ==> (#[trigger] self.services@[j]).1.def.name@ != name@,
                i < self.services@.len() ==> self.services@[i as int].1.def.name@ == name@,
            decreases self.services@.len() - i,
        {
            if self.services[i].1.def.name == *name {
                break;
            }
            i = i + 1;
        }
        proof {
            assert forall|j: int| 0 <= j < i implies !name_pred(name@)(#[trigger] s[j]) by {
                assert(s[j].1.def.name == self.services@[j].1.def.name@);
            }
            if i < s.len() {
                assert(s[i as int].1.def.name == self.services@[i as int].1.def.name@);
            }
            lemma_first_where_at(s, name_pred(name@), i as int);
        }
        i
    }

    /// Removes the entry at `i` and returns it.
    fn take_at(&mut self, i: usize) -> (r: (i32, Supervised))
        requires
            i < old(self)@.services.len(),
        ensures
            final(self)@.services == old(self)@.services.remove(i as int),
            final(self)@.ready == old(self)@.ready,
            entry_view(r) == old(self)@.services[i as int],
    {
        proof {
            use_type_invariant(&*self);
        }
        let ghost es = self.services@;
        let mut v: Vec<(i32, Supervised)> = Vec::new();
        std::mem::swap(&mut v, &mut self.services);
        let e = v.remove(i);
        proof {
            lemma_entries_remove(es, i as int);
            lemma_distinct_remove(entries_view(es), i as int);
        }
        self.services = v;
        e
    }

    /// Tracks `sup` as running under `pid`.
    fn track(&mut self, pid: i32, sup: Supervised)
        ensures
            final(self)@.services == with_pid(old(self)@.services, pid, supervised_view(sup)),
            final(self)@.ready == old(self)@.ready,
    {
        proof {
            use_type_invariant(&*self);
        }
        let i = self.index_of_pid(pid);
        let ghost s = self@.services;
        let ghost es = self.services@;
        let ghost sv = supervised_view(sup);
        proof {
            lemma_first_where(s, pid_pred(pid));
        }
        let mut v: Vec<(i32, Supervised)> = Vec::new();
        std::mem::swap(&mut v, &mut self.services);
        if i < v.len() {
            v.set(i, (pid, sup));
            proof {
                assert(s[i as int].0 == pid);
                lemma_distinct_update(s, i as int, sv);
                assert(entries_view(v@) =~= s.update(i as int, (pid, sv)));
            }
        } else {
            v.push((pid, sup));
            proof {
                assert forall|j: int| 0 <= j < s.len() implies #[trigger] s[j].0 != pid by {
                    assert(!pid_pred(pid)(s[j]));
                }
                lemma_distinct_push(s, (pid, sv));
                assert(entries_view(v@) =~= s.push((pid, sv)));
            }
        }
        self.services = v;
    }

    /// The starts that bringing up every service in `defs` takes, in
    /// order, each with an empty restart history; each goes through
    /// `spawn_with_history` once the caller has tried to start it.
    pub fn spawn_all(&self, defs: &[ServiceDef]) -> (r: Vec<Launch>)
        ensures
            r@.len() == defs@.len(),
            forall|i: int|
                0 <= i < defs@.len() ==> (#[trigger] r@[i]).def@ == defs@[i]@ && r@[i].restart_times@.len()
                    == 0,
    {
        let mut r: Vec<Launch> = Vec::new();
        let mut i: usize = 0;
        while i < defs.len()
            invariant
                0 <= i <= defs@.len(),
                r@.len() == i,
                forall|j: int|
                    0 <= j < i ==> (#[trigger] r@[j]).def@ == defs@[j]@ && r@[j].restart_times@.len()
                        == 0,
            decreases defs@.len() - i,
        {
            r.push(Launch { def: defs[i].clone(), restart_times: Vec::new() });
            i = i + 1;
        }
        r
    }

    /// Records the result of trying to start `def`: with the pid it got,
    /// it is tracked under that pid with `restart_times` as its history.
    /// Returns whether a fallback shell is wanted: only when a critical
    /// service could not be started at all (see `adopt_fallback_shell`).
    pub fn spawn_with_history(&mut self, def: ServiceDef, restart_times: Vec<u64>, started: Option<i32>) -> (fallback: bool)
        ensures
            match started {
                Some(pid) => final(self)@.services == with_pid(
                    old(self)@.services,
                    pid,
                    SupervisedView { def: def@, restart_times: restart_times@ },
                ) && !fallback,
                None => final(self)@ == old(self)@ && fallback == def.critical,
            },
            final(self)@.ready == old(self)@.ready,
    {
        match started {
            Some(pid) => {
                self.track(pid, Supervised { def, restart_times });
                false
            },
            None => def.critical,
        }
    }

    /// Tracks the fallback shell started as `pid`, with no restart history.
    pub fn adopt_fallback_shell(&mut self, pid: i32)
        ensures
            final(self)@.services == with_pid(
                old(self)@.services,
                pid,
                SupervisedView { def: fallback_shell_view(), restart_times: seq![] },
            ),
            final(self)@.ready == old(self)@.ready,
    {
        let v: Vec<u64> = Vec::new();
        self.track(pid, Supervised { def: fallback_shell(), restart_times: v });
    }

    /// Feeds one reaped exit status into the supervisor, at time `now_ms`.
    pub fn handle_exit(&mut self, status: ExitStatus, now_ms: u64) -> (r: ExitHandling)
        ensures
            ({
                let eff = exit_effect(old(self)@.services, status, now_ms);
                &&& final(self)@.services == eff.services
                &&& outcome_view(r.outcome) == eff.outcome
                &&& match (r.exited, eff.exited) {
                    (Some(n), Some(m)) => n@ == m,
                    (None, None) => true,
                    _ => false,
                }
                &&& match (r.restart, eff.restart) {
                    (Some(l), Some((d, t))) => l.def@ == d && l.restart_times@ == t,
                    (None, None) => true,
                    _ => false,
                }
            }),
            final(self)@.ready == old(self)@.ready,
    {
        let pid = match status {
            ExitStatus::Exited { pid, .. } => pid,
            ExitStatus::Signaled { pid, .. } => pid,
            ExitStatus::Other => {
                return ExitHandling { outcome: Outcome::Continue, exited: None, restart: None };
            },
        };
        let i = self.index_of_pid(pid);
        if i >= self.services.len() {
            return ExitHandling { outcome: Outcome::Continue, exited: None, restart: None };
        }
        let (_, sup) = self.take_at(i);
        let Supervised { def, restart_times } = sup;
        let name = def.name.clone();
        if def.critical {
            return ExitHandling { outcome: Outcome::Halt(def.name.clone()), exited: Some(name), restart: None };
        }
        let should_restart = match def.restart {
            RestartPolicy::Never => false,
            RestartPolicy::Always => true,
            RestartPolicy::OnFailure => match status {
                ExitStatus::Exited { code, .. } => code != 0,
                _ => true,
            },
        };
        if !should_restart {
            return ExitHandling { outcome: Outcome::Continue, exited: Some(name), restart: None };
        }
        let mut times = restart_times;
        let give_up = record_restart(&mut times, now_ms);
        if give_up {
            return ExitHandling { outcome: Outcome::GaveUp(def.name.clone()), exited: Some(name), restart: None };
        }
        ExitHandling {
            outcome: Outcome::Continue,
            exited: Some(name),
            restart: Some(Launch { def, restart_times: times }),
        }
    }

    /// Stops tracking `pid` (a process the caller reaped itself).
    pub fn forget(&mut self, pid: i32)
        ensures
            final(self)@.services == without_pid(old(self)@.services, pid),
            final(self)@.ready == old(self)@.ready,
    {
        let i = self.index_of_pid(pid);
        if i < self.services.len() {
            let _ = self.take_at(i);
        }
    }

    /// First step of a reload against `new_defs`: takes every service whose
    /// name no new definition has out of supervision, and returns each as
    /// `(pid, name)` to stop, in order. The definitions themselves are then
    /// gone through one by one with `reload_next`.
    pub fn reload_services(&mut self, new_defs: &[ServiceDef]) -> (r: Vec<(i32, String)>)
        ensures
            final(self)@.services == split_removed(old(self)@.services, new_defs@.map_values(|d: ServiceDef| d@)).0,
            r@.map_values(|p: (i32, String)| (p.0, p.1@)) == split_removed(
                old(self)@.services,
                new_defs@.map_values(|d: ServiceDef| d@),
            ).1,
            final(self)@.ready == old(self)@.ready,
    {
        let ghost defs = new_defs@.map_values(|d: ServiceDef| d@);
        let ghost s0 = self@.services;
        let mut stops: Vec<(i32, String)> = Vec::new();
        let n = self.services.len();
        let mut i: usize = 0;
        let mut k: usize = 0;
        proof {
            assert(s0.take(0) =~= Seq::<(i32, SupervisedView)>::empty());
            assert(stops@.map_values(|p: (i32, String)| (p.0, p.1@)) =~= Seq::<(i32, Seq<char>)>::empty());
            assert(self@.services.subrange(0, 0) =~= Seq::<(i32, SupervisedView)>::empty());
            assert(self@.services.skip(0) =~= s0);
        }
        while i < n
            invariant
                0 <= k <= i <= n,
                n == s0.len(),
                defs == new_defs@.map_values(|d: ServiceDef| d@),
                self@.ready == old(self)@.ready,
                self@.services.len() == k + (n - i),
                self@.services.subrange(0, k as int) == split_removed(s0.take(i as int), defs).0,
                self@.services.skip(k as int) == s0.skip(i as int),
                stops@.map_values(|p: (i32, String)| (p.0, p.1@)) == split_removed(s0.take(i as int), defs).1,
            decreases n - i,
        {
            let ghost cur = self@.services;
            let ghost e = s0[i as int];
            proof {
                assert(cur[k as int] == cur.skip(k as int)[0]);
                assert(s0.skip(i as int)[0] == e);
                assert(s0.take(i + 1).drop_last() =~= s0.take(i as int));
                assert(s0.take(i + 1).last() == e);
            }
            let keep = named_in_defs(new_defs, &self.services[k].1.def.name);
            if keep {
                proof {
                    assert(cur.subrange(0, k + 1) =~= cur.subrange(0, k as int).push(e));
                    assert(cur.skip(k + 1) =~= s0.skip(i + 1)) by {
                        assert(cur.skip(k + 1) =~= cur.skip(k as int).drop_first());
                        assert(s0.skip(i + 1) =~= s0.skip(i as int).drop_first());
                    }
                }
                k = k + 1;
            } else {
                let (pid, sup) = self.take_at(k);
                proof {
                    let after = self@.services;
                    assert(after.subrange(0, k as int) =~= cur.subrange(0, k as int));
                    assert(after.skip(k as int) =~= s0.skip(i + 1)) by {
                        assert(after.skip(k as int) =~= cur.skip(k as int).drop_first());
                        assert(s0.skip(i + 1) =~= s0.skip(i as int).drop_first());
                    }
                }
                let ghost before = stops@.map_values(|p: (i32, String)| (p.0, p.1@));
                stops.push((pid, sup.def.name));
                proof {
                    assert(stops@.map_values(|p: (i32, String)| (p.0, p.1@)) =~= before.push((e.0, e.1.def.name)));
                }
            }
            i = i + 1;
        }
        proof {
            assert(s0.take(n as int) =~= s0);
            assert(self@.services =~= self@.services.subrange(0, k as int));
        }
        stops
    }

    /// Next step of a reload, for the configured definition `def`, against
    /// what is supervised now - the services that ran before the reload
    /// and those it has started so far. On `Restart` the old process has
    /// been taken out of supervision; on `Restart` and `Start` the caller
    /// starts `def` with no restart history and records the result with
    /// `spawn_with_history`.
    pub fn reload_next(&mut self, def: &ServiceDef) -> (r: ReloadAction)
        ensures
            (final(self)@.services, r) == reload_next_effect(old(self)@.services, def@),
            final(self)@.ready == old(self)@.ready,
    {
        let idx = self.index_of_name(&def.name);
        if idx < self.services.len() {
            if defs_equal(&self.services[idx].1.def, def) {
                ReloadAction::Keep
            } else {
                let (pid, _old) = self.take_at(idx);
                ReloadAction::Restart { pid }
            }
        } else {
            ReloadAction::Start
        }
    }

    /// The pids of the supervised services, in start order.
    pub fn pids(&self) -> (r: Vec<i32>)
        ensures
            r@ == self@.services.map_values(|e: (i32, SupervisedView)| e.0),
    {
        let mut r: Vec<i32> = Vec::new();
        let mut i: usize = 0;
        while i < self.services.len()
            invariant
                0 <= i <= self.services@.len(),
                r@ == self@.services.take(i as int).map_values(|e: (i32, SupervisedView)| e.0),
            decreases self.services@.len() - i,
        {
            proof {
                assert(self@.services[i as int] == entry_view(self.services@[i as int]));
                assert(self@.services.take(i + 1) =~= self@.services.take(i as int).push(self@.services[i as int]));
            }
            r.push(self.services[i].0);
            assert(r@ =~= self@.services.take(i + 1).map_values(|e: (i32, SupervisedView)| e.0));
            i = i + 1;
        }
        assert(self@.services.take(self@.services.len() as int) =~= self@.services);
        r
    }

    /// The names of the supervised services, in start order.
    pub fn names(&self) -> (r: Vec<String>)
        ensures
            strings_view(r@) == self@.services.map_values(|e: (i32, SupervisedView)| e.1.def.name),
    {
        let mut r: Vec<String> = Vec::new();
        let mut i: usize = 0;
        while i < self.services.len()
            invariant
                0 <= i <= self.services@.len(),
                strings_view(r@) == self@.services.take(i as int).map_values(|e: (i32, SupervisedView)| e.1.def.name),
            decreases self.services@.len() - i,
        {
            proof {
                assert(self@.services[i as int] == entry_view(self.services@[i as int]));
                assert(self@.services.take(i + 1) =~= self@.services.take(i as int).push(self@.services[i as int]));
            }
            let n = self.services[i].1.def.name.clone();
            let ghost before = strings_view(r@);
            r.push(n);
            assert(strings_view(r@) =~= before.push(self.services@[i as int].1.def.name@));
            assert(strings_view(r@) =~= self@.services.take(i + 1).map_values(|e: (i32, SupervisedView)| e.1.def.name));
            i = i + 1;
        }
        assert(self@.services.take(self@.services.len() as int) =~= self@.services);
        r
    }

    /// Records that the service `name` reported ready.
    pub fn note_ready(&mut self, name: &str)
        ensures
            final(self)@.services == old(self)@.services,
            final(self)@.ready == old(self)@.ready.insert(name@),
    {
        proof {
            use_type_invariant(&*self);
        }
        let mut rs = ReadyState::new();
        std::mem::swap(&mut rs, &mut self.ready_state);
        rs.mark_ready(name);
        self.ready_state = rs;
    }

    /// A human-readable summary of the supervised services.
    pub fn status_summary(&self) -> (r: String)
        ensures
            r@ == status_text(self@),
    {
        let mut out = String::new();
        let n = self.services.len();
        if n == 0 {
            push_text(&mut out, "no supervised services running");
            return out;
        }
        push_decimal(&mut out, n as u64);
        push_text(&mut out, " supervised service(s):");
        let ghost head = out@;
        let ghost s = self@.services;
        let ghost ready = self@.ready;
        proof {
            assert(s.take(0) =~= Seq::<(i32, SupervisedView)>::empty());
            assert(head + service_lines(s.take(0), ready) =~= head);
        }
        let mut i: usize = 0;
        while i < n
            invariant
                0 <= i <= n,
                n == self.services@.len(),
                s == self@.services,
                ready == self@.ready,
                head == dec(n as nat) + " supervised service(s):"@,
                out@ == head + service_lines(s.take(i as int), ready),
            decreases n - i,
        {
            let pid = self.services[i].0;
            let def = &self.services[i].1.def;
            let ghost before = out@;
            let ready_now = self.ready_state.is_ready(def.name.as_str());
            push_service_line(&mut out, pid, def, ready_now);
            proof {
                let e = s[i as int];
                assert(e == entry_view(self.services@[i as int]));
                assert(s.take(i + 1).drop_last() =~= s.take(i as int));
                assert(s.take(i + 1).last() == e);
                assert(out@ == before + "\n"@ + service_line(e, ready));
            }
            i = i + 1;
        }
        proof {
            assert(s.take(n as int) =~= s);
        }
        out
    }
}

/// Whether some definition in `defs` is named `name`.
fn named_in_defs(defs: &[ServiceDef], name: &String) -> (r: bool)
    ensures
        r == named_in(defs@.map_values(|d: ServiceDef| d@), name@),
{
    let ghost dv = defs@.map_values(|d: ServiceDef| d@);
    let mut i: usize = 0;
    while i < defs.len()
        invariant
            0 <= i <= defs@.len(),
            dv == defs@.map_values(|d: ServiceDef| d@),
            forall|j: int| 0 <= j < i ==> (#[trigger] dv[j]).name != name@,
        decreases defs@.len() - i,
    {
        if defs[i].name == *name {
            assert(dv[i as int].name == name@);
            return true;
        }
        i = i + 1;
    }
    false
}


// ---------------------------------------------------------------------
// Laws
// ---------------------------------------------------------------------

/// `defs_equal` is an equivalence, and it does not look at names.
pub proof fn lemma_same_definition_equivalence(a: ServiceDefView, b: ServiceDefView, c: ServiceDefView)
    ensures
        same_definition(a, a),
        same_definition(a, b) ==> same_definition(b, a),
        same_definition(a, b) && same_definition(b, c) ==> same_definition(a, c),
        same_definition(a, ServiceDefView { name: b.name, ..a }),
{
}

/// Two definitions are the same for a reload exactly when their path,
/// arguments, critical flag, restart policy and memory limit all agree;
/// the name plays no part.
pub proof fn lemma_same_definition_fields(a: ServiceDefView, b: ServiceDefView)
    ensures
        same_definition(a, b) <==> (a.path == b.path && a.args == b.args && a.critical == b.critical && a.restart
            == b.restart && a.memory_limit == b.memory_limit),
{
}

/// What a reload does with one definition `d`, against the first service
/// `s[i]` of that name: it is kept exactly when its path, arguments,
/// critical flag, restart policy and memory limit are all those of `d`;
/// otherwise it is taken out and restarted. With no service of that name,
/// `d` is started and nothing else changes.
pub proof fn lemma_reload_next_decides(s: Seq<(i32, SupervisedView)>, d: ServiceDefView, i: int)
    requires
        -1 <= i < s.len(),
        forall|j: int| 0 <= j < s.len() && (i < 0 || j < i) ==> (#[trigger] s[j]).1.def.name != d.name,
        i >= 0 ==> s[i].1.def.name == d.name,
    ensures
        i >= 0 ==> {
            let old_def = s[i].1.def;
            let same = old_def.path == d.path && old_def.args == d.args && old_def.critical == d.critical
                && old_def.restart == d.restart && old_def.memory_limit == d.memory_limit;
            &&& same ==> reload_next_effect(s, d) == (s, ReloadAction::Keep)
            &&& !same ==> reload_next_effect(s, d) == (s.remove(i), ReloadAction::Restart { pid: s[i].0 })
        },
        i < 0 ==> reload_next_effect(s, d) == (s, ReloadAction::Start),
{
    let k = if i < 0 { s.len() as int } else { i };
    assert forall|j: int| 0 <= j < k implies !name_pred(d.name)(#[trigger] s[j]) by {}
    lemma_first_where_at(s, name_pred(d.name), k);
}

/// The restart policies on one exit of a non-critical service `s[i]`
/// whose restart budget still holds (the restart would be at most the
/// allowed number within the window): `on-failure` starts it again after
/// any exit but a clean one (status 0) - after a non-zero status and after
/// a signal alike - `always` after every exit, `no` never. Either way the
/// service leaves supervision, its name is the one swept, and the loop
/// goes on.
pub proof fn lemma_restart_policies(s: Seq<(i32, SupervisedView)>, i: int, code: i32, signal: i32, now: u64)
    requires
        0 <= i < s.len(),
        forall|j: int| 0 <= j < i ==> (#[trigger] s[j]).0 != s[i].0,
        !s[i].1.def.critical,
        after_restart(s[i].1.restart_times, now).len() <= MAX_RESTARTS_IN_WINDOW,
    ensures
        ({
            let pid = s[i].0;
            let sv = s[i].1;
            let again = Some((sv.def, after_restart(sv.restart_times, now)));
            let by_code = exit_effect(s, ExitStatus::Exited { pid, code }, now);
            let by_signal = exit_effect(s, ExitStatus::Signaled { pid, signal }, now);
            &&& by_code.services == s.remove(i) && by_signal.services == s.remove(i)
            &&& by_code.outcome == OutcomeView::Continue && by_signal.outcome == OutcomeView::Continue
            &&& by_code.exited == Some(sv.def.name) && by_signal.exited == Some(sv.def.name)
            &&& sv.def.restart == RestartPolicy::OnFailure ==> (by_code.restart == if code != 0 { again } else { None })
                && by_signal.restart == again
            &&& sv.def.restart == RestartPolicy::Always ==> by_code.restart == again && by_signal.restart == again
            &&& sv.def.restart == RestartPolicy::Never ==> by_code.restart is None && by_signal.restart is None
        }),
{
    let pid = s[i].0;
    assert forall|j: int| 0 <= j < i implies !pid_pred(pid)(#[trigger] s[j]) by {}
    lemma_first_where_at(s, pid_pred(pid), i);
}

/// After an exit is handled, the pid that exited is no longer supervised,
/// and every service still supervised was supervised before.
pub proof fn lemma_exit_forgets_pid(s: Seq<(i32, SupervisedView)>, st: ExitStatus, now: u64)
    requires
        distinct_pids(s),
        exit_pid(st) is Some,
    ensures
        forall|i: int|
            0 <= i < exit_effect(s, st, now).services.len() ==> (#[trigger] exit_effect(
                s,
                st,
                now,
            ).services[i]).0 != exit_pid(st).unwrap(),
        forall|i: int|
            0 <= i < exit_effect(s, st, now).services.len() ==> s.contains(
                #[trigger] exit_effect(s, st, now).services[i],
            ),
{
    let pid = exit_pid(st).unwrap();
    let k = first_where(s, pid_pred(pid));
    lemma_first_where(s, pid_pred(pid));
    let out = exit_effect(s, st, now).services;
    if k < s.len() {
        assert(out == s.remove(k as int));
        assert forall|i: int| 0 <= i < out.len() implies (#[trigger] out[i]).0 != pid && s.contains(
            out[i],
        ) by {
            let j = if i < k {
                i
            } else {
                i + 1
            };
            assert(out[i] == s[j]);
            assert(s[j].0 != s[k as int].0);
        }
    } else {
        assert forall|i: int| 0 <= i < out.len() implies (#[trigger] out[i]).0 != pid && s.contains(
            out[i],
        ) by {
            assert(!pid_pred(pid)(s[i]));
        }
    }
}

proof fn lemma_split_removed(s: Seq<(i32, SupervisedView)>, defs: Seq<ServiceDefView>)
    ensures
        forall|i: int|
            0 <= i < split_removed(s, defs).0.len() ==> named_in(
                defs,
                (#[trigger] split_removed(s, defs).0[i]).1.def.name,
            ) && s.contains(split_removed(s, defs).0[i]),
        (forall|i: int| 0 <= i < s.len() ==> named_in(defs, (#[trigger] s[i]).1.def.name)) ==> split_removed(s, defs) == (s, Seq::<(i32, Seq<char>)>::empty()),
    decreases s.len(),
{
    if s.len() > 0 {
        let init = s.drop_last();
        lemma_split_removed(init, defs);
        let (kept, stops) = split_removed(init, defs);
        let r = split_removed(s, defs).0;
        assert forall|i: int| 0 <= i < r.len() implies named_in(defs, (#[trigger] r[i]).1.def.name)
            && s.contains(r[i]) by {
            if i < kept.len() {
                assert(r[i] == kept[i]);
                let j = choose|j: int| 0 <= j < init.len() && init[j] == kept[i];
                assert(s[j] == init[j]);
            } else {
                assert(r[i] == s.last());
                assert(s[s.len() - 1] == s.last());
            }
        }
        if forall|i: int| 0 <= i < s.len() ==> named_in(defs, (#[trigger] s[i]).1.def.name) {
            assert forall|i: int| 0 <= i < init.len() implies named_in(defs, (#[trigger] init[i]).1.def.name) by {
                assert(init[i] == s[i]);
            }
            assert(named_in(defs, s[s.len() - 1].1.def.name));
            assert(kept.push(s.last()) =~= s);
        }
    }
}

/// Every service of `s` has a configured name.
pub open spec fn all_configured(s: Seq<(i32, SupervisedView)>, defs: Seq<ServiceDefView>) -> bool {
    forall|p: int| 0 <= p < s.len() ==> named_in(defs, (#[trigger] s[p]).1.def.name)
}

/// No two services share a name.
pub open spec fn names_distinct(s: Seq<(i32, SupervisedView)>) -> bool {
    forall|i: int, j: int|
        0 <= i < s.len() && 0 <= j < s.len() && i != j ==> (#[trigger] s[i]).1.def.name != (#[trigger] s[j]).1.def.name
}

/// No two definitions share a name.
pub open spec fn def_names_distinct(defs: Seq<ServiceDefView>) -> bool {
    forall|i: int, j: int| 0 <= i < defs.len() && 0 <= j < defs.len() && i != j ==> (#[trigger] defs[i]).name != (#[trigger] defs[j]).name
}

/// The first service named `d.name` runs `d` unchanged.
pub open spec fn runs_unchanged(s: Seq<(i32, SupervisedView)>, d: ServiceDefView) -> bool {
    &&& first_where(s, name_pred(d.name)) < s.len()
    &&& same_definition(s[first_where(s, name_pred(d.name)) as int].1.def, d)
}

proof fn lemma_remove_configured(s: Seq<(i32, SupervisedView)>, defs: Seq<ServiceDefView>, i: int)
    requires
        all_configured(s, defs),
        0 <= i < s.len(),
    ensures
        all_configured(s.remove(i), defs),
{
    assert forall|p: int| 0 <= p < s.remove(i).len() implies named_in(defs, (#[trigger] s.remove(i)[p]).1.def.name) by {
        let q = if p < i { p } else { p + 1 };
        assert(s.remove(i)[p] == s[q]);
    }
}

proof fn lemma_with_pid_configured(s: Seq<(i32, SupervisedView)>, defs: Seq<ServiceDefView>, pid: i32, k: int)
    requires
        all_configured(s, defs),
        0 <= k < defs.len(),
    ensures
        all_configured(with_pid(s, pid, fresh(defs[k])), defs),
{
    let out = with_pid(s, pid, fresh(defs[k]));
    let i = first_where(s, pid_pred(pid));
    assert(named_in(defs, defs[k].name));
    assert forall|p: int| 0 <= p < out.len() implies named_in(defs, (#[trigger] out[p]).1.def.name) by {
        if p < s.len() && p != i {
            assert(out[p] == s[p]);
        }
    }
}

proof fn lemma_round_configured(s: Seq<(i32, SupervisedView)>, defs: Seq<ServiceDefView>, pids: Seq<i32>, j: int)
    requires
        all_configured(s, defs),
        0 <= j <= defs.len(),
    ensures
        all_configured(reload_round(s, defs.take(j), pids), defs),
    decreases j,
{
    if j > 0 {
        lemma_round_configured(s, defs, pids, j - 1);
        let t = defs.take(j);
        assert(t.take(j - 1) =~= defs.take(j - 1));
        assert(t[j - 1] == defs[j - 1]);
        let before = reload_round(s, defs.take(j - 1), pids);
        let i = first_where(before, name_pred(defs[j - 1].name));
        if i < before.len() && !same_definition(before[i as int].1.def, defs[j - 1]) {
            lemma_remove_configured(before, defs, i as int);
            lemma_with_pid_configured(before.remove(i as int), defs, pids[j - 1], j - 1);
        } else if i >= before.len() {
            lemma_with_pid_configured(before, defs, pids[j - 1], j - 1);
        }
    }
}

/// After a reload only configured services remain: every service still
/// supervised after its first step has a configured name and was running
/// before, and once every definition has been gone through (each start
/// succeeding, under any pids), every supervised service has a
/// configured name.
pub proof fn lemma_reload_keeps_only_configured(s: Seq<(i32, SupervisedView)>, defs: Seq<ServiceDefView>, pids: Seq<i32>)
    ensures
        forall|i: int|
            0 <= i < split_removed(s, defs).0.len() ==> named_in(
                defs,
                (#[trigger] split_removed(s, defs).0[i]).1.def.name,
            ) && s.contains(split_removed(s, defs).0[i]),
        all_configured(reload_round(split_removed(s, defs).0, defs, pids), defs),
{
    lemma_split_removed(s, defs);
    lemma_round_configured(split_removed(s, defs).0, defs, pids, defs.len() as int);
    assert(defs.take(defs.len() as int) =~= defs);
}

proof fn lemma_round_unchanged(s: Seq<(i32, SupervisedView)>, defs: Seq<ServiceDefView>, pids: Seq<i32>, j: int)
    requires
        forall|k: int| 0 <= k < defs.len() ==> #[trigger] runs_unchanged(s, defs[k]),
        0 <= j <= defs.len(),
    ensures
        reload_round(s, defs.take(j), pids) == s,
    decreases j,
{
    if j > 0 {
        lemma_round_unchanged(s, defs, pids, j - 1);
        let t = defs.take(j);
        assert(t.take(j - 1) =~= defs.take(j - 1));
        assert(t[j - 1] == defs[j - 1]);
        assert(runs_unchanged(s, defs[j - 1]));
    }
}

/// Reloading the definitions the services already run changes nothing:
/// the first step stops nothing, each definition is kept, and the
/// services stay as they are.
pub proof fn lemma_reload_unchanged_is_noop(s: Seq<(i32, SupervisedView)>, defs: Seq<ServiceDefView>, pids: Seq<i32>)
    requires
        all_configured(s, defs),
        forall|k: int| 0 <= k < defs.len() ==> #[trigger] runs_unchanged(s, defs[k]),
    ensures
        split_removed(s, defs) == (s, Seq::<(i32, Seq<char>)>::empty()),
        forall|k: int| 0 <= k < defs.len() ==> #[trigger] reload_next_effect(s, defs[k]) == (s, ReloadAction::Keep),
        reload_round(s, defs, pids) == s,
{
    lemma_split_removed(s, defs);
    lemma_round_unchanged(s, defs, pids, defs.len() as int);
    assert(defs.take(defs.len() as int) =~= defs);
    assert forall|k: int| 0 <= k < defs.len() implies #[trigger] reload_next_effect(s, defs[k]) == (s, ReloadAction::Keep) by {
        assert(runs_unchanged(s, defs[k]));
    }
}

proof fn lemma_split_removed_distinct(s: Seq<(i32, SupervisedView)>, defs: Seq<ServiceDefView>)
    requires
        names_distinct(s),
    ensures
        names_distinct(split_removed(s, defs).0),
        forall|p: int| 0 <= p < split_removed(s, defs).0.len() ==> s.contains(#[trigger] split_removed(s, defs).0[p]),
    decreases s.len(),
{
    lemma_split_removed(s, defs);
    if s.len() > 0 {
        let init = s.drop_last();
        assert forall|a: int, b: int| 0 <= a < init.len() && 0 <= b < init.len() && a != b
            implies (#[trigger] init[a]).1.def.name != (#[trigger] init[b]).1.def.name by {
            assert(init[a] == s[a] && init[b] == s[b]);
        }
        lemma_split_removed_distinct(init, defs);
        lemma_split_removed(init, defs);
        let (kept, stops) = split_removed(init, defs);
        let out = split_removed(s, defs);
        let e = s.last();
        if named_in(defs, e.1.def.name) {
            assert forall|a: int| 0 <= a < kept.len() implies (#[trigger] kept[a]).1.def.name != e.1.def.name by {
                assert(init.contains(kept[a]));
                let q = choose|q: int| 0 <= q < init.len() && init[q] == kept[a];
                assert(s[q] == init[q]);
                assert(s[s.len() - 1] == e);
            }
            assert forall|a: int, b: int| 0 <= a < out.0.len() && 0 <= b < out.0.len() && a != b
                implies (#[trigger] out.0[a]).1.def.name != (#[trigger] out.0[b]).1.def.name by {
                if a < kept.len() {
                    assert(out.0[a] == kept[a]);
                }
                if b < kept.len() {
                    assert(out.0[b] == kept[b]);
                }
            }
        }
    }
}

/// What the second step of a reload keeps true while it goes through the
/// first `j` definitions, no two of which share a name: the services have
/// distinct names, each configured, each runs as a pid that either ran
/// before (`old_pids`) or was given to one of the first `j` starts, and
/// every definition gone through runs unchanged.
pub open spec fn round_inv(st: Seq<(i32, SupervisedView)>, old_pids: Seq<i32>, defs: Seq<ServiceDefView>, pids: Seq<i32>, j: int) -> bool {
    &&& names_distinct(st)
    &&& all_configured(st, defs)
    &&& forall|p: int| 0 <= p < st.len() ==> pid_known((#[trigger] st[p]).0, old_pids, pids, j)
    &&& forall|k: int| 0 <= k < j ==> #[trigger] runs_somewhere(st, defs[k])
}

/// `pid` ran before, or was given to one of the first `j` starts.
pub open spec fn pid_known(pid: i32, old_pids: Seq<i32>, pids: Seq<i32>, j: int) -> bool {
    old_pids.contains(pid) || exists|m: int| 0 <= m < j && pid == pids[m]
}

/// Some service named `d.name` runs `d` unchanged.
pub open spec fn runs_somewhere(st: Seq<(i32, SupervisedView)>, d: ServiceDefView) -> bool {
    exists|p: int| 0 <= p < st.len() && (#[trigger] st[p]).1.def.name == d.name && same_definition(st[p].1.def, d)
}

proof fn lemma_fresh_pid_pushes(s: Seq<(i32, SupervisedView)>, pid: i32, sv: SupervisedView)
    requires
        forall|p: int| 0 <= p < s.len() ==> (#[trigger] s[p]).0 != pid,
    ensures
        with_pid(s, pid, sv) == s.push((pid, sv)),
{
    lemma_first_where(s, pid_pred(pid));
    let i = first_where(s, pid_pred(pid));
    if i < s.len() {
        assert(s[i as int].0 == pid);
    }
}

proof fn lemma_round_step(st: Seq<(i32, SupervisedView)>, old_pids: Seq<i32>, defs: Seq<ServiceDefView>, pids: Seq<i32>, j: int)
    requires
        0 <= j < defs.len(),
        defs.len() <= pids.len(),
        def_names_distinct(defs),
        forall|a: int, b: int| 0 <= a < defs.len() && 0 <= b < defs.len() && a != b ==> pids[a] != pids[b],
        forall|k: int| 0 <= k < defs.len() ==> !old_pids.contains(#[trigger] pids[k]),
        round_inv(st, old_pids, defs, pids, j),
    ensures
        ({
            let (s1, a) = reload_next_effect(st, defs[j]);
            let next = if a == ReloadAction::Keep { s1 } else { with_pid(s1, pids[j], fresh(defs[j])) };
            round_inv(next, old_pids, defs, pids, j + 1)
        }),
{
    let d = defs[j];
    let i = first_where(st, name_pred(d.name));
    lemma_first_where(st, name_pred(d.name));
    let e = (pids[j], fresh(d));
    // the pid given to this start runs nothing yet
    assert forall|p: int| 0 <= p < st.len() implies (#[trigger] st[p]).0 != pids[j] by {
        assert(pid_known(st[p].0, old_pids, pids, j));
        if !old_pids.contains(st[p].0) {
            let m = choose|m: int| 0 <= m < j && st[p].0 == pids[m];
        }
    }
    // no earlier definition has this name
    assert forall|k: int| 0 <= k < j implies #[trigger] defs[k].name != d.name by {}
    if i < st.len() {
        if same_definition(st[i as int].1.def, d) {
            assert forall|p: int| 0 <= p < st.len() implies pid_known((#[trigger] st[p]).0, old_pids, pids, j + 1) by {
                assert(pid_known(st[p].0, old_pids, pids, j));
                if !old_pids.contains(st[p].0) {
                    let m = choose|m: int| 0 <= m < j && st[p].0 == pids[m];
                }
            }
            assert forall|k: int| 0 <= k < j + 1 implies #[trigger] runs_somewhere(st, defs[k]) by {
                if k == j {
                    assert(st[i as int].1.def.name == defs[k].name);
                }
            }
        } else {
            let s1 = st.remove(i as int);
            assert forall|p: int| 0 <= p < s1.len() implies (#[trigger] s1[p]).0 != pids[j] by {
                let q = if p < i { p } else { p + 1 };
                assert(s1[p] == st[q]);
            }
            lemma_fresh_pid_pushes(s1, pids[j], fresh(d));
            let next = s1.push(e);
            assert forall|p: int| 0 <= p < next.len() implies next[p] == (if p < s1.len() { st[if p < i { p } else { p + 1 }] } else { e }) by {
                if p < s1.len() {
                    let q = if p < i { p } else { p + 1 };
                    assert(s1[p] == st[q]);
                }
            }
            assert forall|a: int, b: int| 0 <= a < next.len() && 0 <= b < next.len() && a != b implies (#[trigger] next[a]).1.def.name != (#[trigger] next[b]).1.def.name by {
                let qa = if a < i { a } else { a + 1 };
                let qb = if b < i { b } else { b + 1 };
                if a < s1.len() && b < s1.len() {
                    assert(next[a] == st[qa] && next[b] == st[qb]);
                } else if a < s1.len() {
                    assert(next[a] == st[qa]);
                    assert(qa != i);
                } else if b < s1.len() {
                    assert(next[b] == st[qb]);
                    assert(qb != i);
                }
            }
            assert forall|p: int| 0 <= p < next.len() implies named_in(defs, (#[trigger] next[p]).1.def.name) by {
                if p < s1.len() {
                    let q = if p < i { p } else { p + 1 };
                    assert(next[p] == st[q]);
                } else {
                    assert(defs[j].name == next[p].1.def.name);
                }
            }
            assert forall|p: int| 0 <= p < next.len() implies pid_known((#[trigger] next[p]).0, old_pids, pids, j + 1) by {
                if p < s1.len() {
                    let q = if p < i { p } else { p + 1 };
                    assert(next[p] == st[q]);
                    assert(pid_known(st[q].0, old_pids, pids, j));
                    if !old_pids.contains(st[q].0) {
                        let m = choose|m: int| 0 <= m < j && st[q].0 == pids[m];
                    }
                } else {
                    assert(next[p].0 == pids[j]);
                }
            }
            assert forall|k: int| 0 <= k < j + 1 implies #[trigger] runs_somewhere(next, defs[k]) by {
                if k == j {
                    assert(next[s1.len() as int] == e);
                } else {
                    assert(runs_somewhere(st, defs[k]));
                    let p = choose|p: int| 0 <= p < st.len() && (#[trigger] st[p]).1.def.name == defs[k].name && same_definition(st[p].1.def, defs[k]);
                    assert(p != i);
                    let p2 = if p < i { p } else { p - 1 };
                    assert(next[p2] == st[p]);
                }
            }
        }
    } else {
        lemma_fresh_pid_pushes(st, pids[j], fresh(d));
        let next = st.push(e);
        assert forall|q: int| 0 <= q < st.len() implies (#[trigger] st[q]).1.def.name != d.name by {
            assert(!name_pred(d.name)(st[q]));
        }
        assert forall|a: int, b: int| 0 <= a < next.len() && 0 <= b < next.len() && a != b implies (#[trigger] next[a]).1.def.name != (#[trigger] next[b]).1.def.name by {
            if a < st.len() {
                assert(next[a] == st[a]);
            }
            if b < st.len() {
                assert(next[b] == st[b]);
            }
        }
        assert forall|p: int| 0 <= p < next.len() implies named_in(defs, (#[trigger] next[p]).1.def.name) by {
            if p < st.len() {
                assert(next[p] == st[p]);
            } else {
                assert(defs[j].name == next[p].1.def.name);
            }
        }
        assert forall|p: int| 0 <= p < next.len() implies pid_known((#[trigger] next[p]).0, old_pids, pids, j + 1) by {
            if p < st.len() {
                assert(next[p] == st[p]);
                assert(pid_known(st[p].0, old_pids, pids, j));
                if !old_pids.contains(st[p].0) {
                    let m = choose|m: int| 0 <= m < j && st[p].0 == pids[m];
                }
            } else {
                assert(next[p].0 == pids[j]);
            }
        }
        assert forall|k: int| 0 <= k < j + 1 implies #[trigger] runs_somewhere(next, defs[k]) by {
            if k == j {
                assert(next[st.len() as int] == e);
            } else {
                assert(runs_somewhere(st, defs[k]));
                let p = choose|p: int| 0 <= p < st.len() && (#[trigger] st[p]).1.def.name == defs[k].name && same_definition(st[p].1.def, defs[k]);
                assert(next[p] == st[p]);
            }
        }
    }
}

proof fn lemma_round_inv(s: Seq<(i32, SupervisedView)>, defs: Seq<ServiceDefView>, pids: Seq<i32>, j: int)
    requires
        0 <= j <= defs.len(),
        defs.len() <= pids.len(),
        names_distinct(s),
        all_configured(s, defs),
        def_names_distinct(defs),
        forall|a: int, b: int| 0 <= a < defs.len() && 0 <= b < defs.len() && a != b ==> pids[a] != pids[b],
        forall|k: int| 0 <= k < defs.len() ==> !s.map_values(|e: (i32, SupervisedView)| e.0).contains(#[trigger] pids[k]),
    ensures
        round_inv(reload_round(s, defs.take(j), pids), s.map_values(|e: (i32, SupervisedView)| e.0), defs, pids, j),
    decreases j,
{
    let old_pids = s.map_values(|e: (i32, SupervisedView)| e.0);
    if j == 0 {
        assert(defs.take(0) =~= Seq::<ServiceDefView>::empty());
        assert forall|p: int| 0 <= p < s.len() implies pid_known((#[trigger] s[p]).0, old_pids, pids, 0) by {
            assert(old_pids[p] == s[p].0);
        }
    } else {
        lemma_round_inv(s, defs, pids, j - 1);
        let t = defs.take(j);
        assert(t.take(j - 1) =~= defs.take(j - 1));
        assert(t[j - 1] == defs[j - 1]);
        lemma_round_step(reload_round(s, defs.take(j - 1), pids), old_pids, defs, pids, j - 1);
    }
}

/// Reloading twice with the same definitions: once a reload has gone
/// through every definition and each start succeeded (under any pids new
/// to supervision), a second reload with the same definitions stops
/// nothing, keeps every definition, and leaves the services as they are -
/// provided no two running services and no two definitions share a name.
pub proof fn lemma_second_reload_is_noop(s: Seq<(i32, SupervisedView)>, defs: Seq<ServiceDefView>, pids: Seq<i32>, later_pids: Seq<i32>)
    requires
        names_distinct(s),
        def_names_distinct(defs),
        defs.len() <= pids.len(),
        forall|a: int, b: int| 0 <= a < defs.len() && 0 <= b < defs.len() && a != b ==> pids[a] != pids[b],
        forall|k: int, p: int| 0 <= k < defs.len() && 0 <= p < s.len() ==> #[trigger] pids[k] != (#[trigger] s[p]).0,
    ensures
        ({
            let s1 = reload_round(split_removed(s, defs).0, defs, pids);
            &&& split_removed(s1, defs) == (s1, Seq::<(i32, Seq<char>)>::empty())
            &&& forall|k: int| 0 <= k < defs.len() ==> #[trigger] reload_next_effect(s1, defs[k]) == (s1, ReloadAction::Keep)
            &&& reload_round(s1, defs, later_pids) == s1
        }),
{
    lemma_split_removed_distinct(s, defs);
    lemma_split_removed(s, defs);
    let kept = split_removed(s, defs).0;
    assert forall|p: int| 0 <= p < kept.len() implies named_in(defs, (#[trigger] kept[p]).1.def.name) by {}
    let kp = kept.map_values(|e: (i32, SupervisedView)| e.0);
    assert forall|k: int| 0 <= k < defs.len() implies !kp.contains(#[trigger] pids[k]) by {
        if kp.contains(pids[k]) {
            let q = choose|q: int| 0 <= q < kp.len() && kp[q] == pids[k];
            assert(s.contains(kept[q]));
            let p = choose|p: int| 0 <= p < s.len() && s[p] == kept[q];
            assert(pids[k] != s[p].0);
        }
    }
    lemma_round_inv(kept, defs, pids, defs.len() as int);
    assert(defs.take(defs.len() as int) =~= defs);
    let s1 = reload_round(kept, defs, pids);
    assert forall|k: int| 0 <= k < defs.len() implies #[trigger] runs_unchanged(s1, defs[k]) by {
        assert(runs_somewhere(s1, defs[k]));
        let p = choose|p: int| 0 <= p < s1.len() && (#[trigger] s1[p]).1.def.name == defs[k].name && same_definition(s1[p].1.def, defs[k]);
        assert forall|q: int| 0 <= q < p implies !name_pred(defs[k].name)(#[trigger] s1[q]) by {
            assert(s1[q].1.def.name != s1[p].1.def.name);
        }
        lemma_first_where_at(s1, name_pred(defs[k].name), p);
    }
    lemma_reload_unchanged_is_noop(s1, defs, later_pids);
}

/// One step of waiting for services sent SIGTERM (all of them in a full
/// shutdown, one stopped by a reload): with `pending` of them not yet
/// reaped, the time `now_ms` and the grace deadline `deadline_ms` (both
/// on one clock), and whether the last wait found no children left, the
/// wait ends exactly when nothing is pending, the deadline has come, or
/// there are no children to wait for; what is still pending then gets
/// SIGKILL.
pub fn shutdown_step(pending: usize, now_ms: u64, deadline_ms: u64, no_children: bool) -> (a: ShutdownAction)
    ensures
        a == if pending == 0 || now_ms >= deadline_ms || no_children {
            ShutdownAction::KillRemaining
        } else {
            ShutdownAction::Wait
        },
{
    if pending == 0 || now_ms >= deadline_ms || no_children {
        ShutdownAction::KillRemaining
    } else {
        ShutdownAction::Wait
    }
}

} // verus!
