//! sd_notify-compatible service readiness.
//!
//! Each service gets its own notify socket, so the socket a datagram
//! arrives on already says which service it is from. The wire format is
//! systemd's: a payload of `KEY=VALUE` lines, of which `READY=1` marks the
//! service ready. This module holds which services have reported ready
//! and decides whether a datagram reports readiness; the sockets and the
//! listening threads are the caller's.

use vstd::prelude::*;
use vstd::utf8::{decode_utf8, valid_utf8};
use crate::text::{chars_of, line_bounds, lines, range_eq, utf8_to_string};

verus! {

/// The names of the services that have reported ready.
pub struct ReadyState {
    ready: Vec<String>,
}

impl View for ReadyState {
    type V = Set<Seq<char>>;

    closed spec fn view(&self) -> Set<Seq<char>> {
        self.ready@.map_values(|s: String| s@).to_set()
    }
}

impl ReadyState {
    /// No service ready yet.
    pub fn new() -> (r: Self)
        ensures
            r@ == Set::<Seq<char>>::empty(),
    {
        let r = ReadyState { ready: Vec::new() };
        assert(r.ready@.map_values(|s: String| s@) =~= Seq::empty());
        assert(r@ =~= Set::<Seq<char>>::empty());
        r
    }

    /// Whether `name` has reported ready.
    pub fn is_ready(&self, name: &str) -> (r: bool)
        ensures
            r == self@.contains(name@),
    {
        let key = name.to_owned();
        let ghost names = self.ready@.map_values(|s: String| s@);
        let mut i: usize = 0;
        while i < self.ready.len()
            invariant
                0 <= i <= self.ready@.len(),
                names == self.ready@.map_values(|s: String| s@),
                key@ == name@,
                forall|j: int| 0 <= j < i ==> #[trigger] names[j] != name@,
            decreases self.ready@.len() - i,
        {
            if self.ready[i] == key {
                assert(names[i as int] == name@);
                return true;
            }
            i = i + 1;
        }
        proof {
            if names.to_set().contains(name@) {
                let j = choose|j: int| 0 <= j < names.len() && names[j] == name@;
                assert(names[j] == name@);
            }
        }
        false
    }

    /// Records that `name` reported ready.
    pub fn mark_ready(&mut self, name: &str)
        ensures
            final(self)@ == old(self)@.insert(name@),
    {
        if self.is_ready(name) {
            assert(old(self)@.insert(name@) =~= old(self)@);
            return;
        }
        let ghost before = self.ready@.map_values(|s: String| s@);
        self.ready.push(name.to_owned());
        proof {
            let after = self.ready@.map_values(|s: String| s@);
            assert(after =~= before.push(name@));
            assert(after.to_set() =~= before.to_set().insert(name@)) by {
                assert forall|x: Seq<char>| after.to_set().contains(x) implies before.to_set().insert(
                    name@,
                ).contains(x) by {
                    let j = choose|j: int| 0 <= j < after.len() && after[j] == x;
                    if j < before.len() {
                        assert(before[j] == x);
                    }
                }
                assert forall|x: Seq<char>| before.to_set().insert(name@).contains(x) implies after.to_set().contains(
                    x,
                ) by {
                    if x == name@ {
                        assert(after[before.len() as int] == x);
                    } else {
                        let j = choose|j: int| 0 <= j < before.len() && before[j] == x;
                        assert(after[j] == x);
                    }
                }
            }
        }
    }
}

/// Marking a service ready makes it read as ready, and leaves every other
/// service as it was.
pub proof fn lemma_ready_after_mark(before: Set<Seq<char>>, name: Seq<char>, other: Seq<char>)
    ensures
        before.insert(name).contains(name),
        other != name ==> (before.insert(name).contains(other) == before.contains(other)),
{
}

/// The ready names after marking `names` in order, starting from `start`.
pub open spec fn after_marks(start: Set<Seq<char>>, names: Seq<Seq<char>>) -> Set<Seq<char>>
    decreases names.len(),
{
    if names.len() == 0 {
        start
    } else {
        after_marks(start, names.drop_last()).insert(names.last())
    }
}

/// After any run of `mark_ready` calls on a fresh `ReadyState`, exactly
/// the names marked read as ready; a name once ready stays ready.
pub proof fn lemma_ready_after_marks(names: Seq<Seq<char>>, x: Seq<char>)
    ensures
        after_marks(Set::empty(), names).contains(x) <==> names.contains(x),
        forall|k: int| 0 <= k <= names.len() ==> after_marks(Set::empty(), #[trigger] names.take(k)).subset_of(after_marks(Set::empty(), names)),
    decreases names.len(),
{
    if names.len() > 0 {
        let init = names.drop_last();
        lemma_ready_after_marks(init, x);
        if init.contains(x) {
            let j = choose|j: int| 0 <= j < init.len() && init[j] == x;
            assert(names[j] == x);
        }
        if names.contains(x) && x != names.last() {
            let j = choose|j: int| 0 <= j < names.len() && names[j] == x;
            assert(j != names.len() - 1);
            assert(init[j] == x);
        }
        assert(names[names.len() - 1] == names.last());
        assert forall|k: int| 0 <= k <= names.len() implies after_marks(Set::empty(), #[trigger] names.take(k)).subset_of(after_marks(Set::empty(), names)) by {
            if k == names.len() {
                assert(names.take(k) =~= names);
            } else {
                assert(names.take(k) =~= init.take(k));
                assert(after_marks(Set::empty(), init.take(k)).subset_of(after_marks(Set::empty(), init)));
            }
        }
    }
}

/// Whether a notify datagram reports readiness: it is UTF-8 text with a
/// line that is exactly `READY=1`.
pub open spec fn reports_ready(payload: Seq<u8>) -> bool {
    valid_utf8(payload) && lines(decode_utf8(payload)).contains("READY=1"@)
}

/// Decides whether one received datagram marks its service ready.
pub fn datagram_marks_ready(payload: &[u8]) -> (r: bool)
    ensures
        r == reports_ready(payload@),
{
    let text = match utf8_to_string(payload) {
        Some(t) => t,
        None => {
            return false;
        },
    };
    let v = chars_of(text.as_str());
    let want = chars_of("READY=1");
    let ls = line_bounds(&v);
    let mut i: usize = 0;
    while i < ls.len()
        invariant
            0 <= i <= ls@.len(),
            v@ == decode_utf8(payload@),
            valid_utf8(payload@),
            want@ == "READY=1"@,
            ls@.len() == lines(v@).len(),
            forall|j: int|
                0 <= j < ls@.len() ==> (#[trigger] ls@[j]).0 <= ls@[j].1 <= v@.len()
                    && v@.subrange(ls@[j].0 as int, ls@[j].1 as int) == lines(v@)[j],
            forall|j: int| 0 <= j < i ==> #[trigger] lines(v@)[j] != "READY=1"@,
        decreases ls@.len() - i,
    {
        let (lo, hi) = ls[i];
        assert(ls@[i as int] == (lo, hi));
        if range_eq(&v, lo, hi, &want) {
            assert(lines(v@)[i as int] == "READY=1"@);
            assert(lines(v@).contains("READY=1"@));
            return true;
        }
        i = i + 1;
    }
    proof {
        if lines(v@).contains("READY=1"@) {
            let j = choose|j: int| 0 <= j < lines(v@).len() && lines(v@)[j] == "READY=1"@;
            assert(lines(v@)[j] != "READY=1"@);
        }
    }
    false
}

} // verus!
