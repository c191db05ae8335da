//! Minimal uevent handling ("hotplug-lite").
//!
//! The kernel's devtmpfs already creates `/dev` nodes for hotplugged
//! devices; the job here is fixing permissions on device classes that need
//! non-root access (ttys, input devices) as they show up, with a small
//! hardcoded ruleset. This module decides what to do with one kernel
//! uevent payload; receiving it (and checking it came from the kernel) and
//! the `chmod` itself are the caller's.

use vstd::prelude::*;
use vstd::slice::slice_subrange;
use vstd::utf8::{decode_utf8, valid_utf8};
use crate::keyed::{
    distinct_keys, lemma_distinct_push, lemma_pairs_map_len, lemma_pairs_map_lookup,
    lemma_pairs_map_push, lemma_pairs_map_update, pairs_map,
};
use crate::text::{chars_of, find_char, first_where, lemma_first_where, lemma_first_where_at, range_eq, split_once, string_of, utf8_to_string};

verus! {

pub open spec fn field_entry_view(e: (String, String)) -> (Seq<char>, Seq<char>) {
    (e.0@, e.1@)
}

/// The `KEY=VALUE` fields of one uevent.
pub struct EventFields {
    entries: Vec<(String, String)>,
}

impl EventFields {
    pub closed spec fn entry_views(self) -> Seq<(Seq<char>, Seq<char>)> {
        self.entries@.map_values(|e: (String, String)| field_entry_view(e))
    }

    #[verifier::type_invariant]
    closed spec fn keys_are_distinct(self) -> bool {
        distinct_keys(self.entry_views())
    }
}

impl View for EventFields {
    type V = Map<Seq<char>, Seq<char>>;

    closed spec fn view(&self) -> Map<Seq<char>, Seq<char>> {
        pairs_map(self.entry_views())
    }
}

impl EventFields {
    /// No fields.
    pub fn new() -> (r: Self)
        ensures
            r@ == Map::<Seq<char>, Seq<char>>::empty(),
    {
        let r = EventFields { entries: Vec::new() };
        assert(r.entry_views() =~= Seq::empty());
        r
    }

    fn find(&self, key: &String) -> (r: Option<usize>)
        ensures
            match r {
                Some(i) => i < self.entries@.len() && self.entries@[i as int].0@ == key@,
                None => forall|i: int|
                    0 <= i < self.entries@.len() ==> #[trigger] self.entries@[i].0@ != key@,
            },
    {
        let mut i: usize = 0;
        while i < self.entries.len()
            invariant
                0 <= i <= self.entries@.len(),
                forall|j: int| 0 <= j < i ==> #[trigger] self.entries@[j].0@ != key@,
            decreases self.entries@.len() - i,
        {
            if self.entries[i].0 == *key {
                return Some(i);
            }
            i = i + 1;
        }
        None
    }

    /// Records `key` with `value`, replacing what `key` had before.
    pub fn insert(&mut self, key: String, value: String)
        ensures
            final(self)@ == old(self)@.insert(key@, value@),
    {
        proof {
            use_type_invariant(&*self);
        }
        let ghost ev = self.entry_views();
        match self.find(&key) {
            Some(i) => {
                proof {
                    assert(ev[i as int].0 == key@);
                    lemma_pairs_map_update(ev, i as int, value@);
                }
                let mut es: Vec<(String, String)> = Vec::new();
                std::mem::swap(&mut es, &mut self.entries);
                es.set(i, (key, value));
                proof {
                    let nv = es@.map_values(|e: (String, String)| field_entry_view(e));
                    assert(nv =~= ev.update(i as int, (ev[i as int].0, value@)));
                }
                self.entries = es;
            },
            None => {
                let ghost e = (key@, value@);
                proof {
                    assert forall|j: int| 0 <= j < ev.len() implies #[trigger] ev[j].0 != e.0 by {
                        assert(ev[j].0 == self.entries@[j].0@);
                    }
                    lemma_distinct_push(ev, e);
                    lemma_pairs_map_push(ev, e);
                }
                let mut es: Vec<(String, String)> = Vec::new();
                std::mem::swap(&mut es, &mut self.entries);
                es.push((key, value));
                proof {
                    let nv = es@.map_values(|e: (String, String)| field_entry_view(e));
                    assert(nv =~= ev.push(e));
                }
                self.entries = es;
            },
        }
    }

    /// The value of the field `key`, if the event has one.
    pub fn get(&self, key: &str) -> (r: Option<&String>)
        ensures
            r is Some <==> self@.contains_key(key@),
            r matches Some(v) ==> v@ == self@[key@],
    {
        proof {
            use_type_invariant(self);
            lemma_pairs_map_lookup(self.entry_views(), key@);
        }
        let k = key.to_owned();
        match self.find(&k) {
            Some(i) => {
                proof {
                    let ev = self.entry_views();
                    assert(ev[i as int] == field_entry_view(self.entries@[i as int]));
                    assert(ev[i as int].0 == key@);
                    assert(pairs_map(ev)[key@] == ev[i as int].1);
                    assert(pairs_map(ev).contains_key(key@));
                }
                Some(&self.entries[i].1)
            },
            None => {
                proof {
                    assert forall|j: int| 0 <= j < self.entry_views().len() implies #[trigger] self.entry_views()[j].0
                        != key@ by {
                        assert(self.entry_views()[j].0 == self.entries@[j].0@);
                    }
                }
                None
            },
        }
    }

    /// The number of distinct keys.
    pub fn len(&self) -> (r: usize)
        ensures
            r == self@.dom().len(),
            self@.dom().finite(),
    {
        proof {
            use_type_invariant(self);
            lemma_pairs_map_len(self.entry_views());
        }
        self.entries.len()
    }
}

// ---------------------------------------------------------------------
// The payload format
// ---------------------------------------------------------------------

pub open spec fn zero_pred() -> spec_fn(u8) -> bool {
    |b: u8| b == 0
}

/// The NUL-separated pieces of a payload (`<[u8]>::split`): always at
/// least one, with an empty last piece after a final NUL.
pub open spec fn byte_chunks(s: Seq<u8>) -> Seq<Seq<u8>>
    decreases s.len(),
{
    let k = first_where(s, zero_pred());
    if k >= s.len() {
        seq![s]
    } else {
        proof {
            lemma_first_where(s, zero_pred());
        }
        seq![s.take(k as int)] + byte_chunks(s.skip(k as int + 1))
    }
}

/// What one piece records: a valid UTF-8 piece containing `=` gives the
/// text before its first `=` and the text after; anything else, nothing
/// (so the leading `add@/devices/...` summary is skipped).
pub open spec fn chunk_entry(chunk: Seq<u8>) -> Option<(Seq<char>, Seq<char>)> {
    if valid_utf8(chunk) {
        split_once(decode_utf8(chunk), '=')
    } else {
        None
    }
}

/// The fields recorded by a list of pieces, a later one for a key winning.
pub open spec fn fields_of(chunks: Seq<Seq<u8>>) -> Map<Seq<char>, Seq<char>>
    decreases chunks.len(),
{
    if chunks.len() == 0 {
        Map::empty()
    } else {
        match chunk_entry(chunks.last()) {
            Some((k, v)) => fields_of(chunks.drop_last()).insert(k, v),
            None => fields_of(chunks.drop_last()),
        }
    }
}

/// The fields of a uevent payload.
pub open spec fn event_fields(raw: Seq<u8>) -> Map<Seq<char>, Seq<char>> {
    fields_of(byte_chunks(raw))
}

fn find_zero(raw: &[u8], lo: usize) -> (r: usize)
    requires
        lo <= raw@.len(),
    ensures
        lo <= r <= raw@.len(),
        r - lo == first_where(raw@.skip(lo as int), zero_pred()),
{
    let n = raw.len();
    let mut i = lo;
    while i < n
        invariant
            lo <= i <= n,
            n == raw@.len(),
            forall|j: int| lo <= j < i ==> raw@[j] != 0,
        ensures
            lo <= i <= n,
            forall|j: int| lo <= j < i ==> raw@[j] != 0,
            i < n ==> raw@[i as int] == 0,
        decreases n - i,
    {
        if raw[i] == 0 {
            break;
        }
        i = i + 1;
    }
    proof {
        let s = raw@.skip(lo as int);
        assert forall|j: int| 0 <= j < i - lo implies !zero_pred()(#[trigger] s[j]) by {
            assert(s[j] == raw@[lo + j]);
        }
        if i < n {
            assert(s[i - lo] == raw@[i as int]);
        }
        lemma_first_where_at(s, zero_pred(), i - lo);
    }
    i
}

/// Records the piece `chunk` into `map`.
fn record_chunk(chunk: &[u8], map: &mut EventFields)
    ensures
        final(map)@ == match chunk_entry(chunk@) {
            Some((k, v)) => old(map)@.insert(k, v),
            None => old(map)@,
        },
{
    match utf8_to_string(chunk) {
        Some(text) => {
            let v = chars_of(text.as_str());
            let n = v.len();
            let e = find_char(&v, 0, n, '=');
            proof {
                assert(v@.subrange(0, n as int) =~= v@);
            }
            if e < n {
                let key = string_of(&v, 0, e);
                let value = string_of(&v, e + 1, n);
                proof {
                    assert(v@.take(e as int) =~= v@.subrange(0, e as int));
                    assert(v@.skip(e + 1) =~= v@.subrange(e + 1, n as int));
                }
                map.insert(key, value);
            }
        },
        None => {},
    }
}

/// Kernel uevent payloads are NUL-separated strings: a summary header
/// (`add@/devices/...`) followed by `KEY=VALUE` entries.
pub fn parse_event(raw: &[u8]) -> (r: EventFields)
    ensures
        r@ == event_fields(raw@),
{
    let n = raw.len();
    let mut map = EventFields::new();
    let mut pos: usize = 0;
    let ghost mut done: Seq<Seq<u8>> = seq![];
    proof {
        assert(raw@.skip(0) =~= raw@);
        assert(done + byte_chunks(raw@) =~= byte_chunks(raw@));
    }
    loop
        invariant_except_break
            byte_chunks(raw@) == done + byte_chunks(raw@.skip(pos as int)),
            map@ == fields_of(done),
        invariant
            n == raw@.len(),
            pos <= n,
        ensures
            map@ == event_fields(raw@),
        decreases n - pos,
    {
        let k = find_zero(raw, pos);
        let chunk = slice_subrange(raw, pos, k);
        let ghost rest = raw@.skip(pos as int);
        proof {
            assert(chunk@ =~= rest.take(k - pos));
        }
        record_chunk(chunk, &mut map);
        proof {
            let d2 = done.push(chunk@);
            assert(d2.drop_last() =~= done);
            assert(map@ == fields_of(d2));
            done = d2;
        }
        if k == n {
            proof {
                assert(rest.take(k - pos) =~= rest);
                assert(byte_chunks(raw@) =~= done);
            }
            break;
        }
        proof {
            assert(rest.skip(k - pos + 1) =~= raw@.skip(k + 1));
            assert(byte_chunks(rest) == seq![rest.take(k - pos)] + byte_chunks(raw@.skip(k + 1)));
            assert(byte_chunks(raw@) =~= done + byte_chunks(raw@.skip(k + 1)));
        }
        pos = k + 1;
    }
    map
}

// ---------------------------------------------------------------------
// Permission rules
// ---------------------------------------------------------------------

/// The mode a device of `subsystem` gets when it is added.
pub open spec fn rule_mode(subsystem: Seq<char>) -> Option<u32> {
    if subsystem == "tty"@ {
        Some(0o620)
    } else if subsystem == "input"@ {
        Some(0o660)
    } else {
        None
    }
}

/// Whether `d` holds two consecutive dots.
pub open spec fn has_dot_dot(d: Seq<char>) -> bool {
    exists|i: int| 0 <= i < d.len() - 1 && #[trigger] d[i] == '.' && d[i + 1] == '.'
}

/// A `DEVNAME` that stays inside `/dev`: no `..`, not absolute.
pub open spec fn devname_is_safe(d: Seq<char>) -> bool {
    !has_dot_dot(d) && !(d.len() > 0 && d[0] == '/')
}

/// A permission change: `chmod /dev/<devname> <mode>`.
pub struct PermissionFix {
    pub devname: String,
    pub mode: u32,
}

/// What an event with these fields asks for: only an `add` with a
/// `SUBSYSTEM` that has a rule and a safe `DEVNAME` gets a change.
pub open spec fn event_action(f: Map<Seq<char>, Seq<char>>) -> Option<(Seq<char>, u32)> {
    if !(f.contains_key("ACTION"@) && f["ACTION"@] == "add"@) {
        None
    } else if !f.contains_key("SUBSYSTEM"@) || !f.contains_key("DEVNAME"@) {
        None
    } else if !devname_is_safe(f["DEVNAME"@]) {
        None
    } else {
        match rule_mode(f["SUBSYSTEM"@]) {
            Some(m) => Some((f["DEVNAME"@], m)),
            None => None,
        }
    }
}

/// Only the arrival of a device with a rule is acted on, and never with a
/// `DEVNAME` that would leave `/dev`.
pub proof fn lemma_only_safe_additions(f: Map<Seq<char>, Seq<char>>)
    ensures
        event_action(f) matches Some((d, m)) ==> {
            &&& f.contains_key("ACTION"@) && f["ACTION"@] == "add"@
            &&& f.contains_key("DEVNAME"@) && f["DEVNAME"@] == d
            &&& devname_is_safe(d)
            &&& f.contains_key("SUBSYSTEM"@) && rule_mode(f["SUBSYSTEM"@]) == Some(m)
        },
{
}

fn devname_safe(v: &Vec<char>) -> (r: bool)
    ensures
        r == devname_is_safe(v@),
{
    if v.len() > 0 && v[0] == '/' {
        return false;
    }
    let mut i: usize = 0;
    while v.len() > 0 && i < v.len() - 1
        invariant
            0 <= i <= v@.len(),
            forall|j: int| 0 <= j < i && j < v@.len() - 1 ==> !(#[trigger] v@[j] == '.' && v@[j + 1] == '.'),
        decreases v@.len() - i,
    {
        if v[i] == '.' && v[i + 1] == '.' {
            return false;
        }
        i = i + 1;
    }
    true
}

/// Decides what one uevent asks for.
pub fn handle_event(raw: &[u8]) -> (r: Option<PermissionFix>)
    ensures
        match (r, event_action(event_fields(raw@))) {
            (Some(fix), Some((d, m))) => fix.devname@ == d && fix.mode == m,
            (None, None) => true,
            _ => false,
        },
        r matches Some(fix) ==> devname_is_safe(fix.devname@),
{
    let fields = parse_event(raw);
    let add = chars_of("add");
    match fields.get("ACTION") {
        Some(a) => {
            let av = chars_of(a.as_str());
            let n = av.len();
            proof {
                assert(av@.subrange(0, n as int) =~= av@);
            }
            if !range_eq(&av, 0, n, &add) {
                return None;
            }
        },
        None => {
            return None;
        },
    }
    let subsystem = match fields.get("SUBSYSTEM") {
        Some(s) => s,
        None => {
            return None;
        },
    };
    let devname = match fields.get("DEVNAME") {
        Some(d) => d,
        None => {
            return None;
        },
    };
    let dv = chars_of(devname.as_str());
    if !devname_safe(&dv) {
        return None;
    }
    let sv = chars_of(subsystem.as_str());
    let sn = sv.len();
    proof {
        assert(sv@.subrange(0, sn as int) =~= sv@);
    }
    let tty = chars_of("tty");
    let input = chars_of("input");
    if range_eq(&sv, 0, sn, &tty) {
        Some(PermissionFix { devname: devname.clone(), mode: 0o620 })
    } else if range_eq(&sv, 0, sn, &input) {
        Some(PermissionFix { devname: devname.clone(), mode: 0o660 })
    } else {
        None
    }
}

/// Whether a netlink message came from the kernel: its `SCM_CREDENTIALS`
/// name sender pid 0. `sender_pid` is the pid those credentials carry,
/// `None` when the message had none.
pub fn sent_by_kernel(sender_pid: Option<i32>) -> (r: bool)
    ensures
        r == (sender_pid == Some(0i32)),
{
    match sender_pid {
        Some(p) => p == 0,
        None => false,
    }
}

/// What one received uevent message asks for: nothing unless the kernel
/// sent it (binding to the uevent multicast group alone does not
/// guarantee that), else exactly what `handle_event` decides.
pub fn uevent_action(sender_pid: Option<i32>, raw: &[u8]) -> (r: Option<PermissionFix>)
    ensures
        sender_pid != Some(0i32) ==> r is None,
        sender_pid == Some(0i32) ==> match (r, event_action(event_fields(raw@))) {
            (Some(fix), Some((d, m))) => fix.devname@ == d && fix.mode == m,
            (None, None) => true,
            _ => false,
        },
        r matches Some(fix) ==> devname_is_safe(fix.devname@),
{
    if !sent_by_kernel(sender_pid) {
        return None;
    }
    handle_event(raw)
}

} // verus!
