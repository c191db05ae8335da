//! Crash-loop backoff: a restart history kept over a sliding window.
//!
//! Times are milliseconds on a monotonic clock. A restart is allowed
//! unless it would make more than `MAX_RESTARTS_IN_WINDOW` restarts within
//! the last `BACKOFF_WINDOW_MS`.

use vstd::prelude::*;

verus! {

/// If something restarts more than this many times within the window,
/// supervision gives up rather than burning CPU in a restart storm.
pub const MAX_RESTARTS_IN_WINDOW: usize = 5;

/// The window, in milliseconds (10 s).
pub const BACKOFF_WINDOW_MS: u64 = 10000;

/// Time from `t` to `now`, zero when `t` is later (as `Instant::duration_since`).
pub open spec fn elapsed(now: u64, t: u64) -> int {
    if now >= t {
        now - t
    } else {
        0
    }
}

/// The restart times still inside the window at `now`, in order.
pub open spec fn keep_recent(times: Seq<u64>, now: u64) -> Seq<u64>
    decreases times.len(),
{
    if times.len() == 0 {
        seq![]
    } else {
        let r = keep_recent(times.drop_last(), now);
        if elapsed(now, times.last()) < BACKOFF_WINDOW_MS {
            r.push(times.last())
        } else {
            r
        }
    }
}

/// The history after restarting at `now`.
pub open spec fn after_restart(times: Seq<u64>, now: u64) -> Seq<u64> {
    keep_recent(times, now).push(now)
}

/// Whether restarting at `now` exhausts the restart budget.
pub open spec fn gives_up(times: Seq<u64>, now: u64) -> bool {
    after_restart(times, now).len() > MAX_RESTARTS_IN_WINDOW
}

/// Records a restart at `now_ms` in `restart_times` (dropping the entries
/// that have left the window) and says whether that exhausts the budget.
pub fn record_restart(restart_times: &mut Vec<u64>, now_ms: u64) -> (give_up: bool)
    ensures
        final(restart_times)@ == after_restart(old(restart_times)@, now_ms),
        give_up == gives_up(old(restart_times)@, now_ms),
{
    let mut kept: Vec<u64> = Vec::new();
    let mut i: usize = 0;
    let ghost orig = restart_times@;
    while i < restart_times.len()
        invariant
            0 <= i <= restart_times@.len(),
            restart_times@ == orig,
            kept@ == keep_recent(orig.take(i as int), now_ms),
        decreases restart_times@.len() - i,
    {
        let t = restart_times[i];
        let age = if now_ms >= t {
            now_ms - t
        } else {
            0
        };
        proof {
            assert(orig.take(i + 1).drop_last() =~= orig.take(i as int));
            assert(orig.take(i + 1).last() == t);
        }
        if age < BACKOFF_WINDOW_MS {
            kept.push(t);
        }
        i = i + 1;
    }
    assert(orig.take(orig.len() as int) =~= orig);
    kept.push(now_ms);
    *restart_times = kept;
    restart_times.len() > MAX_RESTARTS_IN_WINDOW
}

/// Every time the history keeps after a restart lies inside the window
/// and was either in the history before or is the restart itself.
pub proof fn lemma_history_within_window(times: Seq<u64>, now: u64)
    ensures
        forall|i: int|
            0 <= i < after_restart(times, now).len() ==> elapsed(
                now,
                #[trigger] after_restart(times, now)[i],
            ) < BACKOFF_WINDOW_MS,
        forall|i: int|
            0 <= i < after_restart(times, now).len() - 1 ==> times.contains(
                #[trigger] after_restart(times, now)[i],
            ),
        after_restart(times, now).last() == now,
        after_restart(times, now).len() <= times.len() + 1,
{
    lemma_keep_recent(times, now);
}

proof fn lemma_keep_recent(times: Seq<u64>, now: u64)
    ensures
        forall|i: int|
            0 <= i < keep_recent(times, now).len() ==> elapsed(
                now,
                #[trigger] keep_recent(times, now)[i],
            ) < BACKOFF_WINDOW_MS,
        forall|i: int|
            0 <= i < keep_recent(times, now).len() ==> times.contains(
                #[trigger] keep_recent(times, now)[i],
            ),
        keep_recent(times, now).len() <= times.len(),
    decreases times.len(),
{
    if times.len() > 0 {
        let init = times.drop_last();
        lemma_keep_recent(init, now);
        let r = keep_recent(init, now);
        assert forall|i: int| 0 <= i < keep_recent(times, now).len() implies times.contains(
            #[trigger] keep_recent(times, now)[i],
        ) by {
            if i < r.len() {
                assert(keep_recent(times, now)[i] == r[i]);
                assert(init.contains(r[i]));
                let j = choose|j: int| 0 <= j < init.len() && init[j] == r[i];
                assert(times[j] == init[j]);
            } else {
                assert(times[times.len() - 1] == times.last());
            }
        }
        assert forall|i: int| 0 <= i < keep_recent(times, now).len() implies elapsed(
            now,
            #[trigger] keep_recent(times, now)[i],
        ) < BACKOFF_WINDOW_MS by {
            if i < r.len() {
                assert(keep_recent(times, now)[i] == r[i]);
            }
        }
    }
}

/// A restart at the same moment as five others gives up; with an empty
/// history it never does.
pub proof fn lemma_budget_edges(now: u64)
    ensures
        !gives_up(seq![], now),
        gives_up(seq![now, now, now, now, now], now),
        !gives_up(seq![now, now, now, now], now),
{
    reveal_with_fuel(keep_recent, 6);
    let five = seq![now, now, now, now, now];
    let four = seq![now, now, now, now];
    assert(keep_recent(five, now).len() == 5) by {
        assert(five.drop_last() =~= four);
        assert(four.drop_last() =~= seq![now, now, now]);
        assert(seq![now, now, now].drop_last() =~= seq![now, now]);
        assert(seq![now, now].drop_last() =~= seq![now]);
        assert(seq![now].drop_last() =~= Seq::<u64>::empty());
    }
    assert(keep_recent(four, now).len() == 4) by {
        assert(four.drop_last() =~= seq![now, now, now]);
        assert(seq![now, now, now].drop_last() =~= seq![now, now]);
        assert(seq![now, now].drop_last() =~= seq![now]);
        assert(seq![now].drop_last() =~= Seq::<u64>::empty());
    }
}

} // verus!
