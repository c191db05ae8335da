//! Declarative per-service files from a drop-in directory:
//! `/etc/mitos/services.d/*.service`.
//!
//! Organization from launchd (one small file per service, dropped in a
//! directory), syntax from systemd (plain `[Section]` / `Key=Value` unit
//! files). Supported keys - anything else is ignored rather than rejected,
//! so a real systemd unit file with more sections/keys still loads:
//!   `[Service]`  `ExecStart=`, `Restart=(no|always|on-failure)`,
//!                `X-Critical=(true|false)`, `MemoryMax=<size>`
//! The service name comes from the filename (`mitos-shell.service` ->
//! `mitos-shell`), matching systemd's own convention.

use vstd::prelude::*;
use crate::cgroups::{parse_size_range, size_value};
use crate::config::{RestartPolicy, ServiceDef, ServiceDefView, strings_view};
use crate::text::{
    is_ws, eq_pred, first_where, lemma_first_where_at, lemma_trim_fixed, lemma_ws_fields_nonempty,
    lemma_lines_concat, lemma_lines_one, lemma_trim_strip_cr, strip_cr,
    chars_of, find_char, find_last_char, last_index_of, line_bounds, lines, range_eq,
    split_once, string_of, trim, trim_ws_bounds, ws_field_bounds, ws_fields,
};

verus! {

/// What the lines of a unit file read so far have set.
pub struct UnitScan {
    pub section: Seq<char>,
    pub exec_start: Option<Seq<char>>,
    pub restart: RestartPolicy,
    pub critical: bool,
    pub memory_limit: Option<u64>,
}

/// Before any line: no section, no `ExecStart=`, systemd's defaults.
pub open spec fn unit_start() -> UnitScan {
    UnitScan {
        section: seq![],
        exec_start: None,
        restart: RestartPolicy::Never,
        critical: false,
        memory_limit: None,
    }
}

pub open spec fn ascii_lower(c: char) -> char {
    if 'A' <= c && c <= 'Z' {
        ((c as u32) + 32) as char
    } else {
        c
    }
}

/// `eq_ignore_ascii_case(v, "true")`.
pub open spec fn is_true_word(v: Seq<char>) -> bool {
    &&& v.len() == 4
    &&& ascii_lower(v[0]) == 't'
    &&& ascii_lower(v[1]) == 'r'
    &&& ascii_lower(v[2]) == 'u'
    &&& ascii_lower(v[3]) == 'e'
}

/// `Restart=` values: `always`, `no`, and anything else (including
/// `on-failure`) restarts on failure.
pub open spec fn restart_policy_of(v: Seq<char>) -> RestartPolicy {
    if v == "always"@ {
        RestartPolicy::Always
    } else if v == "no"@ {
        RestartPolicy::Never
    } else {
        RestartPolicy::OnFailure
    }
}

/// The effect of `key=value` inside `[Service]`.
pub open spec fn service_key_step(st: UnitScan, key: Seq<char>, value: Seq<char>) -> UnitScan {
    if key == "ExecStart"@ {
        UnitScan { exec_start: Some(value), ..st }
    } else if key == "Restart"@ {
        UnitScan { restart: restart_policy_of(value), ..st }
    } else if key == "X-Critical"@ {
        UnitScan { critical: is_true_word(value), ..st }
    } else if key == "MemoryMax"@ {
        UnitScan { memory_limit: size_value(value), ..st }
    } else {
        st
    }
}

/// Keys the format does not know are ignored rather than rejected, so a
/// unit written for a fuller init still loads.
pub proof fn lemma_unknown_keys_are_ignored(st: UnitScan, key: Seq<char>, value: Seq<char>)
    requires
        key != "ExecStart"@,
        key != "Restart"@,
        key != "X-Critical"@,
        key != "MemoryMax"@,
    ensures
        service_key_step(st, key, value) == st,
{
}

/// Outside `[Service]`, no `key=value` line changes any setting.
pub proof fn lemma_other_sections_are_ignored(st: UnitScan, raw: Seq<char>)
    requires
        st.section != "Service"@,
    ensures
        unit_line_step(st, raw).exec_start == st.exec_start,
        unit_line_step(st, raw).restart == st.restart,
        unit_line_step(st, raw).critical == st.critical,
        unit_line_step(st, raw).memory_limit == st.memory_limit,
{
}

/// A `[name]` section header (after trimming).
pub open spec fn is_header(line: Seq<char>) -> bool {
    line.len() >= 2 && line[0] == '[' && line.last() == ']'
}

/// The effect of one raw line: blank lines and `#`/`;` comments change
/// nothing, a header switches section, `key=value` acts only inside
/// `[Service]`, anything else is ignored.
pub open spec fn unit_line_step(st: UnitScan, raw: Seq<char>) -> UnitScan {
    let line = trim(raw);
    if line.len() == 0 || line[0] == '#' || line[0] == ';' {
        st
    } else if is_header(line) {
        UnitScan { section: line.subrange(1, line.len() - 1), ..st }
    } else {
        match split_once(line, '=') {
            None => st,
            Some((k, v)) => if st.section == "Service"@ {
                service_key_step(st, trim(k), trim(v))
            } else {
                st
            },
        }
    }
}

/// The settings after reading `ls` in order.
pub open spec fn scan_unit(ls: Seq<Seq<char>>) -> UnitScan
    decreases ls.len(),
{
    if ls.len() == 0 {
        unit_start()
    } else {
        unit_line_step(scan_unit(ls.drop_last()), ls.last())
    }
}

/// The same law on the text of a unit file: adding one whole line `l`
/// that changes nothing where it stands, after a first part `t1` made of
/// whole lines, leaves what `parse_unit` gives for the file as it was.
pub proof fn lemma_insert_ignored_text_line(path: Seq<char>, t1: Seq<char>, l: Seq<char>, t2: Seq<char>)
    requires
        t1.len() == 0 || t1.last() == '\n',
        forall|i: int| 0 <= i < l.len() ==> l[i] != '\n',
        inert_line(l) || (scan_unit(lines(t1)).section != "Service"@ && !is_header(trim(l))),
    ensures
        unit_result(path, t1 + l + seq!['\n'] + t2) == unit_result(path, t1 + t2),
{
    let one = l + seq!['\n'];
    assert(t1 + l + seq!['\n'] + t2 =~= t1 + (one + t2));
    assert(one.last() == '\n');
    lemma_lines_concat(t1, one + t2);
    lemma_lines_concat(one, t2);
    lemma_lines_one(l);
    lemma_lines_concat(t1, t2);
    lemma_trim_strip_cr(l);
    let m = strip_cr(l);
    assert(lines(t1) + (seq![m] + lines(t2)) =~= lines(t1) + seq![m] + lines(t2));
    lemma_insert_ignored_line(lines(t1), m, lines(t2));
}

/// A `key=value` line sets the key to the whole text after its first `=`:
/// in a unit whose `[Service]` has the single line `ExecStart=` + `c`
/// (`c` one line, starting and ending with non-whitespace), the service
/// runs the first whitespace-separated field of `c` with the remaining
/// fields as its arguments - `=` signs in them included - and keeps the
/// defaults for everything else.
pub proof fn lemma_exec_start_value(path: Seq<char>, c: Seq<char>)
    requires
        unit_name(path) is Some,
        c.len() > 0,
        !is_ws(c[0]),
        !is_ws(c.last()),
        forall|i: int| 0 <= i < c.len() ==> c[i] != '\n',
    ensures
        unit_result(path, "[Service]\n"@ + "ExecStart="@ + c + "\n"@) == Ok::<ServiceDefView, Seq<char>>(
            ServiceDefView {
                name: unit_name(path)->Some_0,
                path: ws_fields(c)[0],
                args: ws_fields(c).drop_first(),
                critical: false,
                restart: RestartPolicy::Never,
                memory_limit: None,
            },
        ),
{
    reveal_strlit("[Service]\n");
    reveal_strlit("[Service]");
    reveal_strlit("Service");
    reveal_strlit("ExecStart=");
    reveal_strlit("ExecStart");
    reveal_strlit("\n");
    let h = "[Service]"@;
    let key = "ExecStart"@;
    let l2 = "ExecStart="@ + c;
    let text = "[Service]\n"@ + "ExecStart="@ + c + "\n"@;
    let hl = h + seq!['\n'];
    let l2l = l2 + seq!['\n'];
    assert(text =~= hl + l2l);
    assert(hl.last() == '\n');
    lemma_lines_concat(hl, l2l);
    lemma_lines_one(h);
    assert forall|i: int| 0 <= i < l2.len() implies l2[i] != '\n' by {
        if i >= 10 {
            assert(l2[i] == c[i - 10]);
        }
    }
    lemma_lines_one(l2);
    assert(l2.last() == c.last());
    assert(strip_cr(h) == h);
    assert(strip_cr(l2) == l2);
    assert(lines(l2l) =~= seq![l2]);
    let ls = lines(text);
    assert(ls =~= seq![h, l2]);
    // the header line
    lemma_trim_fixed(h);
    let st1 = unit_line_step(unit_start(), h);
    assert(h.subrange(1, h.len() - 1) =~= "Service"@);
    assert(st1.section == "Service"@);
    // the ExecStart line
    assert(l2[0] == 'E');
    lemma_trim_fixed(l2);
    assert forall|j: int| 0 <= j < 9 implies !eq_pred('=')(#[trigger] l2[j]) by {}
    assert(l2[9] == '=');
    lemma_first_where_at(l2, eq_pred('='), 9);
    assert(l2.take(9) =~= key);
    assert(l2.skip(10) =~= c);
    lemma_trim_fixed(key);
    lemma_trim_fixed(c);
    let st2 = unit_line_step(st1, l2);
    assert(st2.exec_start == Some(c));
    assert(ls.drop_last() =~= seq![h]);
    assert(seq![h].drop_last() =~= Seq::<Seq<char>>::empty());
    assert(seq![h].last() == h);
    assert(scan_unit(Seq::<Seq<char>>::empty()) == unit_start());
    assert(scan_unit(seq![h]) == unit_line_step(scan_unit(seq![h].drop_last()), h));
    assert(scan_unit(seq![h]) == st1);
    assert(ls.last() == l2);
    assert(scan_unit(ls) == st2);
    lemma_ws_fields_nonempty(c);
}

/// The final component of a path: trailing `/` characters and `.`
/// components are passed over, as `Path` does; empty when none is left.
pub open spec fn last_component(p: Seq<char>) -> Seq<char>
    decreases p.len(),
{
    let k = last_index_of(p, '/');
    let f = p.skip(k + 1);
    if f.len() == 0 || f == seq!['.'] {
        if k < 0 {
            Seq::empty()
        } else {
            proof {
                crate::text::lemma_last_index_bound(p, '/');
            }
            last_component(p.take(k))
        }
    } else {
        f
    }
}

/// A line that never changes what a unit file sets: not a section
/// header, and blank, a `#`/`;` comment, without `=`, or with a key the
/// format does not know.
pub open spec fn inert_line(raw: Seq<char>) -> bool {
    let line = trim(raw);
    &&& !is_header(line)
    &&& (line.len() == 0 || line[0] == '#' || line[0] == ';' || match split_once(line, '=') {
        None => true,
        Some((k, _v)) => {
            let key = trim(k);
            key != "ExecStart"@ && key != "Restart"@ && key != "X-Critical"@ && key != "MemoryMax"@
        },
    })
}

/// An inert line leaves the scan as it was, whatever has been read before.
pub proof fn lemma_inert_line_changes_nothing(st: UnitScan, raw: Seq<char>)
    requires
        inert_line(raw),
    ensures
        unit_line_step(st, raw) == st,
{
}

/// Reading `ls` after the state `st`.
pub open spec fn scan_lines_from(st: UnitScan, ls: Seq<Seq<char>>) -> UnitScan
    decreases ls.len(),
{
    if ls.len() == 0 {
        st
    } else {
        unit_line_step(scan_lines_from(st, ls.drop_last()), ls.last())
    }
}

proof fn lemma_scan_unit_concat(a: Seq<Seq<char>>, b: Seq<Seq<char>>)
    ensures
        scan_unit(a + b) == scan_lines_from(scan_unit(a), b),
    decreases b.len(),
{
    if b.len() == 0 {
        assert(a + b =~= a);
    } else {
        lemma_scan_unit_concat(a, b.drop_last());
        assert((a + b).drop_last() =~= a + b.drop_last());
        assert((a + b).last() == b.last());
    }
}

/// A line that changes nothing where it stands - an inert line anywhere,
/// or a `key=value` line inside a section other than `[Service]` - can be
/// inserted between any two lines of a unit file without changing what
/// the file sets.
pub proof fn lemma_insert_ignored_line(ls1: Seq<Seq<char>>, l: Seq<char>, ls2: Seq<Seq<char>>)
    requires
        inert_line(l) || (scan_unit(ls1).section != "Service"@ && !is_header(trim(l))),
    ensures
        scan_unit(ls1 + seq![l] + ls2) == scan_unit(ls1 + ls2),
{
    let st = scan_unit(ls1);
    assert(unit_line_step(st, l) == st);
    lemma_scan_unit_concat(ls1, seq![l]);
    assert(seq![l].drop_last() =~= Seq::<Seq<char>>::empty());
    assert(seq![l].last() == l);
    assert(scan_lines_from(st, seq![l]) == unit_line_step(scan_lines_from(st, Seq::<Seq<char>>::empty()), l));
    assert(scan_unit(ls1 + seq![l]) == st);
    lemma_scan_unit_concat(ls1 + seq![l], ls2);
    lemma_scan_unit_concat(ls1, ls2);
}

/// The service name a unit file's path gives (`Path::file_stem`): its
/// final component without the extension after its last `.` - unless
/// that `.` starts the component. No name when there is no final
/// component or it is `..`.
pub open spec fn unit_name(path: Seq<char>) -> Option<Seq<char>> {
    let f = last_component(path);
    if f.len() == 0 || f == seq!['.', '.'] {
        None
    } else {
        let d = last_index_of(f, '.');
        if d <= 0 {
            Some(f)
        } else {
            Some(f.take(d))
        }
    }
}

/// The definition a unit file gives, or the reason it gives none.
pub open spec fn unit_result(path: Seq<char>, text: Seq<char>) -> Result<ServiceDefView, Seq<char>> {
    match unit_name(path) {
        None => Err("unreadable filename"@),
        Some(name) => {
            let st = scan_unit(lines(text));
            match st.exec_start {
                None => Err("missing ExecStart= in [Service]"@),
                Some(cmd) => {
                    let words = ws_fields(cmd);
                    if words.len() == 0 {
                        Err("empty ExecStart="@)
                    } else {
                        Ok(
                            ServiceDefView {
                                name,
                                path: words[0],
                                args: words.drop_first(),
                                critical: st.critical,
                                restart: st.restart,
                                memory_limit: st.memory_limit,
                            },
                        )
                    }
                },
            }
        },
    }
}

/// The service name for `path` (`unit_name`).
fn name_of(path: &str) -> (r: Option<String>)
    ensures
        match r {
            Some(s) => unit_name(path@) == Some(s@),
            None => unit_name(path@) is None,
        },
{
    let v = chars_of(path);
    let mut hi = v.len();
    let mut start: usize = 0;
    proof {
        assert(v@.take(hi as int) =~= path@);
    }
    loop
        invariant_except_break
            hi <= v@.len(),
            v@ == path@,
            last_component(path@) == last_component(v@.take(hi as int)),
        ensures
            start <= hi <= v@.len(),
            v@ == path@,
            last_component(path@) == v@.subrange(start as int, hi as int),
        decreases hi,
    {
        let ghost p = v@.take(hi as int);
        let slash = find_last_char(&v, 0, hi, '/');
        let s = match slash {
            Some(i) => i + 1,
            None => 0,
        };
        proof {
            assert(v@.subrange(0, hi as int) =~= p);
            assert(p.skip(last_index_of(p, '/') + 1) =~= v@.subrange(s as int, hi as int));
        }
        let ghost f = v@.subrange(s as int, hi as int);
        let passed = hi == s || (hi - s == 1 && v[s] == '.');
        proof {
            if hi - s == 1 {
                assert(f[0] == v@[s as int]);
                if f == seq!['.'] {
                    assert(v@[s as int] == '.');
                }
                if v@[s as int] == '.' {
                    assert(f =~= seq!['.']);
                }
            }
            if hi == s {
                assert(f.len() == 0);
            }
            assert(passed <==> (f.len() == 0 || f == seq!['.']));
        }
        if passed {
            match slash {
                None => {
                    start = hi;
                    assert(v@.subrange(start as int, hi as int) =~= Seq::<char>::empty());
                    break;
                },
                Some(i) => {
                    assert(p.take(i as int) =~= v@.take(i as int));
                    hi = i;
                },
            }
        } else {
            start = s;
            break;
        }
    }
    let ghost f = v@.subrange(start as int, hi as int);
    if start == hi {
        return None;
    }
    if hi - start == 2 && v[start] == '.' && v[start + 1] == '.' {
        assert(f =~= seq!['.', '.']);
        return None;
    }
    proof {
        if f == seq!['.', '.'] {
            assert(f[0] == v@[start as int]);
            assert(f[1] == v@[start + 1]);
        }
    }
    match find_last_char(&v, start, hi, '.') {
        Some(d) => {
            if d == start {
                Some(string_of(&v, start, hi))
            } else {
                assert(f.take(d - start) =~= v@.subrange(start as int, d as int));
                Some(string_of(&v, start, d))
            }
        },
        None => Some(string_of(&v, start, hi)),
    }
}

/// `eq_ignore_ascii_case(v[lo..hi], "true")`.
fn is_true_range(v: &Vec<char>, lo: usize, hi: usize) -> (r: bool)
    requires
        lo <= hi <= v.len(),
    ensures
        r == is_true_word(v@.subrange(lo as int, hi as int)),
{
    if hi - lo != 4 {
        return false;
    }
    let ghost w = v@.subrange(lo as int, hi as int);
    assert(w[0] == v@[lo as int] && w[1] == v@[lo + 1] && w[2] == v@[lo + 2] && w[3] == v@[lo
        + 3]);
    lower(v[lo]) == 't' && lower(v[lo + 1]) == 'r' && lower(v[lo + 2]) == 'u' && lower(v[lo + 3])
        == 'e'
}

fn lower(c: char) -> (r: char)
    ensures
        r == ascii_lower(c),
{
    if 'A' <= c && c <= 'Z' {
        ((c as u32 + 32) as u8) as char
    } else {
        c
    }
}

/// The literal words of the unit format, as characters.
struct Words {
    service: Vec<char>,
    exec_start: Vec<char>,
    restart: Vec<char>,
    critical: Vec<char>,
    memory_max: Vec<char>,
    always: Vec<char>,
    no: Vec<char>,
}

impl Words {
    spec fn wf(&self) -> bool {
        &&& self.service@ == "Service"@
        &&& self.exec_start@ == "ExecStart"@
        &&& self.restart@ == "Restart"@
        &&& self.critical@ == "X-Critical"@
        &&& self.memory_max@ == "MemoryMax"@
        &&& self.always@ == "always"@
        &&& self.no@ == "no"@
    }

    fn new() -> (r: Words)
        ensures
            r.wf(),
    {
        Words {
            service: chars_of("Service"),
            exec_start: chars_of("ExecStart"),
            restart: chars_of("Restart"),
            critical: chars_of("X-Critical"),
            memory_max: chars_of("MemoryMax"),
            always: chars_of("always"),
            no: chars_of("no"),
        }
    }
}

/// Exec-side settings: ranges of the text stand for strings.
struct ScanState {
    section: (usize, usize),
    exec_start: Option<(usize, usize)>,
    restart: RestartPolicy,
    critical: bool,
    memory_limit: Option<u64>,
}

spec fn state_matches(v: Seq<char>, s: ScanState, st: UnitScan) -> bool {
    &&& s.section.0 <= s.section.1 <= v.len()
    &&& v.subrange(s.section.0 as int, s.section.1 as int) == st.section
    &&& match s.exec_start {
        Some(r) => r.0 <= r.1 <= v.len() && st.exec_start == Some(v.subrange(r.0 as int, r.1 as int)),
        None => st.exec_start is None,
    }
    &&& s.restart == st.restart
    &&& s.critical == st.critical
    &&& s.memory_limit == st.memory_limit
}

/// Applies the line `v[lo..hi]` to `s`.
fn apply_line(v: &Vec<char>, lo: usize, hi: usize, s: &mut ScanState, w: &Words, Ghost(st): Ghost<UnitScan>)
    requires
        lo <= hi <= v.len(),
        w.wf(),
        state_matches(v@, *old(s), st),
    ensures
        state_matches(v@, *final(s), unit_line_step(st, v@.subrange(lo as int, hi as int))),
{
    let (a, b) = trim_ws_bounds(v, lo, hi);
    let ghost line = v@.subrange(a as int, b as int);
    if a == b {
        return;
    }
    assert(line[0] == v@[a as int]);
    if v[a] == '#' || v[a] == ';' {
        return;
    }
    if b - a >= 2 && v[a] == '[' && v[b - 1] == ']' {
        assert(line.last() == v@[b - 1]);
        assert(line.subrange(1, line.len() - 1) =~= v@.subrange(a + 1, b - 1));
        s.section = (a + 1, b - 1);
        return;
    }
    proof {
        if line.len() >= 2 {
            assert(line.last() == v@[b - 1]);
        }
    }
    let k = find_char(v, a, b, '=');
    if k == b {
        return;
    }
    proof {
        assert(line.take(k - a) =~= v@.subrange(a as int, k as int));
        assert(line.skip(k - a + 1) =~= v@.subrange(k + 1, b as int));
    }
    if !range_eq(v, s.section.0, s.section.1, &w.service) {
        return;
    }
    let (ka, kb) = trim_ws_bounds(v, a, k);
    let (va, vb) = trim_ws_bounds(v, k + 1, b);
    if range_eq(v, ka, kb, &w.exec_start) {
        s.exec_start = Some((va, vb));
    } else if range_eq(v, ka, kb, &w.restart) {
        s.restart = if range_eq(v, va, vb, &w.always) {
            RestartPolicy::Always
        } else if range_eq(v, va, vb, &w.no) {
            RestartPolicy::Never
        } else {
            RestartPolicy::OnFailure
        };
    } else if range_eq(v, ka, kb, &w.critical) {
        s.critical = is_true_range(v, va, vb);
    } else if range_eq(v, ka, kb, &w.memory_max) {
        s.memory_limit = parse_size_range(v, va, vb);
    }
}

/// Parses one unit file: `path` names it (the service name comes from
/// its filename), `text` is its content.
pub fn parse_unit(path: &str, text: &str) -> (r: Result<ServiceDef, String>)
    ensures
        match (r, unit_result(path@, text@)) {
            (Ok(d), Ok(dv)) => d@ == dv,
            (Err(e), Err(ev)) => e@ == ev,
            _ => false,
        },
{
    let name = match name_of(path) {
        Some(n) => n,
        None => {
            return Err("unreadable filename".to_owned());
        },
    };
    let w = Words::new();
    let v = chars_of(text);
    let ls = line_bounds(&v);
    let mut s = ScanState {
        section: (0, 0),
        exec_start: None,
        restart: RestartPolicy::Never,
        critical: false,
        memory_limit: None,
    };
    proof {
        assert(v@.subrange(0, 0) =~= Seq::<char>::empty());
        assert(lines(v@).take(0) =~= Seq::<Seq<char>>::empty());
    }
    let mut i: usize = 0;
    while i < ls.len()
        invariant
            w.wf(),
            0 <= i <= ls@.len(),
            v@ == text@,
            ls@.len() == lines(v@).len(),
            forall|j: int|
                0 <= j < ls@.len() ==> (#[trigger] ls@[j]).0 <= ls@[j].1 <= v@.len()
                    && v@.subrange(ls@[j].0 as int, ls@[j].1 as int) == lines(v@)[j],
            state_matches(v@, s, scan_unit(lines(v@).take(i as int))),
        decreases ls@.len() - i,
    {
        let (lo, hi) = ls[i];
        proof {
            let t = lines(v@).take(i + 1);
            assert(t.drop_last() =~= lines(v@).take(i as int));
            assert(t.last() == lines(v@)[i as int]);
            assert(ls@[i as int] == (lo, hi));
        }
        apply_line(&v, lo, hi, &mut s, &w, Ghost(scan_unit(lines(v@).take(i as int))));
        i = i + 1;
    }
    proof {
        assert(lines(v@).take(ls@.len() as int) =~= lines(v@));
    }
    let (ea, eb) = match s.exec_start {
        Some(r) => r,
        None => {
            return Err("missing ExecStart= in [Service]".to_owned());
        },
    };
    let words = ws_field_bounds(&v, ea, eb);
    if words.len() == 0 {
        return Err("empty ExecStart=".to_owned());
    }
    let ghost fields = ws_fields(v@.subrange(ea as int, eb as int));
    proof {
        assert forall|q: int| 0 <= q < words@.len() implies ea <= (#[trigger] words@[q]).0 <= words@[q].1 <= eb
            && v@.subrange(words@[q].0 as int, words@[q].1 as int) == fields[q] by {
            assert(v@.subrange(words@[q].0 as int, words@[q].1 as int) == fields[q]);
        }
    }
    let (pa, pb) = words[0];
    let bin = string_of(&v, pa, pb);
    let mut args: Vec<String> = Vec::new();
    let mut j: usize = 1;
    while j < words.len()
        invariant
            1 <= j <= words@.len(),
            words@.len() == fields.len(),
            forall|q: int|
                0 <= q < words@.len() ==> ea <= (#[trigger] words@[q]).0 <= words@[q].1 <= eb
                    && v@.subrange(words@[q].0 as int, words@[q].1 as int) == fields[q],
            eb <= v@.len(),
            strings_view(args@) == fields.subrange(1, j as int),
        decreases words@.len() - j,
    {
        let (qa, qb) = words[j];
        let a = string_of(&v, qa, qb);
        proof {
            assert(words@[j as int] == (qa, qb));
            assert(strings_view(args@.push(a)) =~= strings_view(args@).push(a@));
            assert(fields.subrange(1, j + 1) =~= fields.subrange(1, j as int).push(fields[j as int]));
        }
        args.push(a);
        j = j + 1;
    }
    proof {
        assert(fields.subrange(1, fields.len() as int) =~= fields.drop_first());
        assert(words@[0] == (pa, pb));
    }
    Ok(
        ServiceDef {
            name,
            path: bin,
            args,
            critical: s.critical,
            restart: s.restart,
            memory_limit: s.memory_limit,
        },
    )
}


// ---------------------------------------------------------------------
// The drop-in directory
// ---------------------------------------------------------------------

/// A file name with the extension `service` (the text after its last `.`,
/// where that `.` does not start the name).
pub open spec fn has_service_ext(name: Seq<char>) -> bool {
    let d = last_index_of(name, '.');
    d > 0 && name.skip(d + 1) == "service"@
}

/// The names in `names` with the extension `service`, in order.
pub open spec fn service_names(names: Seq<Seq<char>>) -> Seq<Seq<char>>
    decreases names.len(),
{
    if names.len() == 0 {
        seq![]
    } else if has_service_ext(names.last()) {
        service_names(names.drop_last()).push(names.last())
    } else {
        service_names(names.drop_last())
    }
}

/// Lexicographic order on texts, character by character (for UTF-8 text
/// the same as the byte order file names sort in).
pub open spec fn text_le(a: Seq<char>, b: Seq<char>) -> bool
    decreases a.len(),
{
    if a.len() == 0 {
        true
    } else if b.len() == 0 {
        false
    } else if a[0] != b[0] {
        a[0] < b[0]
    } else {
        text_le(a.drop_first(), b.drop_first())
    }
}

/// In ascending order.
pub open spec fn is_sorted_texts(s: Seq<Seq<char>>) -> bool {
    forall|i: int, j: int| 0 <= i < j < s.len() ==> text_le(#[trigger] s[i], #[trigger] s[j])
}

pub proof fn lemma_text_le_total(a: Seq<char>, b: Seq<char>)
    ensures
        text_le(a, b) || text_le(b, a),
    decreases a.len(),
{
    if a.len() == 0 {
        assert(text_le(a, b));
    } else if b.len() == 0 {
        assert(text_le(b, a));
    } else if a[0] == b[0] {
        lemma_text_le_total(a.drop_first(), b.drop_first());
    }
}

pub proof fn lemma_text_le_trans(a: Seq<char>, b: Seq<char>, c: Seq<char>)
    requires
        text_le(a, b),
        text_le(b, c),
    ensures
        text_le(a, c),
    decreases a.len(),
{
    if a.len() > 0 && b.len() > 0 && c.len() > 0 && a[0] == b[0] && b[0] == c[0] {
        lemma_text_le_trans(a.drop_first(), b.drop_first(), c.drop_first());
    }
}

fn text_le_exec(a: &Vec<char>, b: &Vec<char>) -> (r: bool)
    ensures
        r == text_le(a@, b@),
{
    let mut i: usize = 0;
    proof {
        assert(a@.skip(0) =~= a@);
        assert(b@.skip(0) =~= b@);
    }
    while i < a.len() && i < b.len()
        invariant
            0 <= i <= a@.len(),
            i <= b@.len(),
            text_le(a@, b@) == text_le(a@.skip(i as int), b@.skip(i as int)),
        decreases a@.len() - i,
    {
        let ghost sa = a@.skip(i as int);
        let ghost sb = b@.skip(i as int);
        assert(sa[0] == a@[i as int]);
        assert(sb[0] == b@[i as int]);
        if a[i] != b[i] {
            return a[i] < b[i];
        }
        assert(sa.drop_first() =~= a@.skip(i + 1));
        assert(sb.drop_first() =~= b@.skip(i + 1));
        i = i + 1;
    }
    i == a.len()
}

fn is_service_file(v: &Vec<char>, ext: &Vec<char>) -> (r: bool)
    requires
        ext@ == "service"@,
    ensures
        r == has_service_ext(v@),
{
    let n = v.len();
    proof {
        assert(v@.subrange(0, n as int) =~= v@);
    }
    match find_last_char(v, 0, n, '.') {
        Some(d) => {
            if d == 0 {
                return false;
            }
            assert(v@.skip(d + 1) =~= v@.subrange(d + 1, n as int));
            range_eq(v, d + 1, n, ext)
        },
        None => false,
    }
}

/// Inserts `x` into the sorted `r`, keeping it sorted.
fn insert_sorted(r: &mut Vec<String>, x: String)
    requires
        is_sorted_texts(old(r)@.map_values(|s: String| s@)),
    ensures
        is_sorted_texts(final(r)@.map_values(|s: String| s@)),
        final(r)@.map_values(|s: String| s@).to_multiset() == old(r)@.map_values(|s: String| s@).to_multiset().insert(x@),
{
    let ghost rv = r@.map_values(|s: String| s@);
    let xv = chars_of(x.as_str());
    let mut k: usize = 0;
    while k < r.len()
        invariant
            0 <= k <= r@.len(),
            rv == r@.map_values(|s: String| s@),
            xv@ == x@,
            forall|j: int| 0 <= j < k ==> text_le(#[trigger] rv[j], x@),
        ensures
            0 <= k <= r@.len(),
            forall|j: int| 0 <= j < k ==> text_le(#[trigger] rv[j], x@),
            k < r@.len() ==> !text_le(rv[k as int], x@),
        decreases r@.len() - k,
    {
        let cv = chars_of(r[k].as_str());
        if !text_le_exec(&cv, &xv) {
            break;
        }
        k = k + 1;
    }
    proof {
        if k < rv.len() {
            lemma_text_le_total(rv[k as int], x@);
        }
    }
    r.insert(k, x);
    proof {
        let nv = r@.map_values(|s: String| s@);
        assert(nv =~= rv.insert(k as int, x@));
        assert forall|i: int, j: int| 0 <= i < j < nv.len() implies text_le(#[trigger] nv[i], #[trigger] nv[j]) by {
            if j < k {
                assert(nv[i] == rv[i] && nv[j] == rv[j]);
            } else if j == k {
                assert(nv[i] == rv[i]);
            } else if i == k {
                assert(nv[j] == rv[j - 1]);
                if j - 1 > k {
                    lemma_text_le_trans(x@, rv[k as int], rv[j - 1]);
                }
            } else if i < k {
                assert(nv[i] == rv[i] && nv[j] == rv[j - 1]);
            } else {
                assert(nv[i] == rv[i - 1] && nv[j] == rv[j - 1]);
            }
        }
        broadcast use vstd::seq_lib::group_to_multiset_ensures;
        assert(nv.remove(k as int) =~= rv);
        assert(nv[k as int] == x@);
        assert(nv.to_multiset().remove(x@) =~= rv.to_multiset());
        assert(nv.to_multiset().count(x@) > 0) by {
            assert(nv.contains(x@));
        }
        assert(nv.to_multiset() =~= rv.to_multiset().insert(x@));
    }
}

/// The unit files among the file names of the drop-in directory: those
/// named `*.service`, in sorted order.
pub fn unit_files(names: &[String]) -> (r: Vec<String>)
    ensures
        is_sorted_texts(r@.map_values(|s: String| s@)),
        r@.map_values(|s: String| s@).to_multiset() == service_names(names@.map_values(|s: String| s@)).to_multiset(),
{
    let ghost nv = names@.map_values(|s: String| s@);
    let ext = chars_of("service");
    let mut r: Vec<String> = Vec::new();
    let mut i: usize = 0;
    proof {
        assert(nv.take(0) =~= Seq::<Seq<char>>::empty());
        assert(r@.map_values(|s: String| s@) =~= Seq::<Seq<char>>::empty());
    }
    while i < names.len()
        invariant
            0 <= i <= names@.len(),
            nv == names@.map_values(|s: String| s@),
            ext@ == "service"@,
            is_sorted_texts(r@.map_values(|s: String| s@)),
            r@.map_values(|s: String| s@).to_multiset() == service_names(nv.take(i as int)).to_multiset(),
        decreases names@.len() - i,
    {
        let v = chars_of(names[i].as_str());
        proof {
            assert(nv.take(i + 1).drop_last() =~= nv.take(i as int));
            assert(nv.take(i + 1).last() == nv[i as int]);
        }
        if is_service_file(&v, &ext) {
            insert_sorted(&mut r, names[i].clone());
            proof {
                broadcast use vstd::seq_lib::group_to_multiset_ensures;
                let prev = service_names(nv.take(i as int));
                assert(service_names(nv.take(i + 1)) == prev.push(nv[i as int]));
            }
        }
        i = i + 1;
    }
    assert(nv.take(names@.len() as int) =~= nv);
    r
}

} // verus!
