//! Minimal kernel command line parser.
//!
//! `/proc/cmdline` is space-separated `key`/`key=value` tokens, with
//! `key="value with spaces"` allowed. That's all we need to handle - this
//! isn't a general shell-quoting parser.

use vstd::prelude::*;
use crate::keyed::{
    distinct_keys, lemma_distinct_push, lemma_pairs_map_len, lemma_pairs_map_lookup,
    lemma_pairs_map_push, lemma_pairs_map_update, pairs_map,
};
use crate::text::{
    chars_of, eq_pred, find_char, first_where, lemma_first_where, lemma_first_where_at, split_once,
    starts_with, string_of, trim, trim_by, trim_char_bounds, trim_ws_bounds,
};

verus! {

/// The text of an optional string.
pub open spec fn opt_text(o: Option<String>) -> Option<Seq<char>> {
    match o {
        Some(s) => Some(s@),
        None => None,
    }
}

pub open spec fn arg_entry_view(e: (String, Option<String>)) -> (Seq<char>, Option<Seq<char>>) {
    (e.0@, opt_text(e.1))
}

/// The parsed command line: each key, with its value if it had one.
pub struct CmdlineArgs {
    entries: Vec<(String, Option<String>)>,
}

impl CmdlineArgs {
    pub closed spec fn entry_views(self) -> Seq<(Seq<char>, Option<Seq<char>>)> {
        self.entries@.map_values(|e: (String, Option<String>)| arg_entry_view(e))
    }

    #[verifier::type_invariant]
    closed spec fn keys_are_distinct(self) -> bool {
        distinct_keys(self.entry_views())
    }
}

impl View for CmdlineArgs {
    type V = Map<Seq<char>, Option<Seq<char>>>;

    closed spec fn view(&self) -> Map<Seq<char>, Option<Seq<char>>> {
        pairs_map(self.entry_views())
    }
}

impl CmdlineArgs {
    /// A command line with no tokens.
    pub fn new() -> (r: Self)
        ensures
            r@ == Map::<Seq<char>, Option<Seq<char>>>::empty(),
    {
        let r = CmdlineArgs { entries: Vec::new() };
        assert(r.entry_views() =~= Seq::empty());
        r
    }

    fn find(&self, key: &String) -> (r: Option<usize>)
        ensures
            match r {
                Some(i) => i < self.entries@.len() && self.entries@[i as int].0@ == key@,
                None => forall|i: int|
                    0 <= i < self.entries@.len() ==> #[trigger] self.entries@[i].0@ != key@,
            },
    {
        let mut i: usize = 0;
        while i < self.entries.len()
            invariant
                0 <= i <= self.entries@.len(),
                forall|j: int| 0 <= j < i ==> #[trigger] self.entries@[j].0@ != key@,
            decreases self.entries@.len() - i,
        {
            if self.entries[i].0 == *key {
                return Some(i);
            }
            i = i + 1;
        }
        None
    }

    /// Records `key` with `value`, replacing what `key` had before.
    pub fn insert(&mut self, key: String, value: Option<String>)
        ensures
            final(self)@ == old(self)@.insert(key@, opt_text(value)),
    {
        proof {
            use_type_invariant(&*self);
        }
        let ghost ev = self.entry_views();
        match self.find(&key) {
            Some(i) => {
                proof {
                    assert(ev[i as int].0 == key@);
                    lemma_pairs_map_update(ev, i as int, opt_text(value));
                }
                let mut es: Vec<(String, Option<String>)> = Vec::new();
                std::mem::swap(&mut es, &mut self.entries);
                es.set(i, (key, value));
                proof {
                    let nv = es@.map_values(|e: (String, Option<String>)| arg_entry_view(e));
                    assert(nv =~= ev.update(i as int, (ev[i as int].0, opt_text(value))));
                }
                self.entries = es;
            },
            None => {
                let ghost e = (key@, opt_text(value));
                proof {
                    assert forall|j: int| 0 <= j < ev.len() implies #[trigger] ev[j].0 != e.0 by {
                        assert(ev[j].0 == self.entries@[j].0@);
                    }
                    lemma_distinct_push(ev, e);
                    lemma_pairs_map_push(ev, e);
                }
                let mut es: Vec<(String, Option<String>)> = Vec::new();
                std::mem::swap(&mut es, &mut self.entries);
                es.push((key, value));
                proof {
                    let nv = es@.map_values(|e: (String, Option<String>)| arg_entry_view(e));
                    assert(nv =~= ev.push(e));
                }
                self.entries = es;
            },
        }
    }

    /// The value recorded for `key`: `Some(&None)` for a bare `key` token,
    /// `Some(&Some(v))` for `key=v`, `None` when `key` was not given.
    pub fn get(&self, key: &str) -> (r: Option<&Option<String>>)
        ensures
            r is Some <==> self@.contains_key(key@),
            r matches Some(v) ==> opt_text(*v) == self@[key@],
    {
        proof {
            use_type_invariant(self);
            lemma_pairs_map_lookup(self.entry_views(), key@);
        }
        let k = key.to_owned();
        match self.find(&k) {
            Some(i) => {
                proof {
                    let ev = self.entry_views();
                    assert(ev[i as int] == arg_entry_view(self.entries@[i as int]));
                    assert(ev[i as int].0 == key@);
                    assert(pairs_map(ev)[key@] == ev[i as int].1);
                    assert(pairs_map(ev).contains_key(key@));
                }
                Some(&self.entries[i].1)
            },
            None => {
                proof {
                    assert forall|j: int| 0 <= j < self.entry_views().len() implies #[trigger] self.entry_views()[j].0
                        != key@ by {
                        assert(self.entry_views()[j].0 == self.entries@[j].0@);
                    }
                }
                None
            },
        }
    }

    /// Whether `key` was given, with or without a value.
    pub fn contains_key(&self, key: &str) -> (r: bool)
        ensures
            r == self@.contains_key(key@),
    {
        self.get(key).is_some()
    }

    /// The number of distinct keys.
    pub fn len(&self) -> (r: usize)
        ensures
            r == self@.dom().len(),
            self@.dom().finite(),
    {
        proof {
            use_type_invariant(self);
            lemma_pairs_map_len(self.entry_views());
        }
        self.entries.len()
    }
}

// ---------------------------------------------------------------------
// The grammar
// ---------------------------------------------------------------------

/// The state of a left-to-right scan: the tokens finished so far, the
/// token being read, and whether an opening `"` is still unmatched.
pub open spec fn cmd_scan(s: Seq<char>) -> (Seq<Seq<char>>, Seq<char>, bool)
    decreases s.len(),
{
    if s.len() == 0 {
        (seq![], seq![], false)
    } else {
        let (toks, cur, quoted) = cmd_scan(s.drop_last());
        let c = s.last();
        if c == '"' {
            (toks, cur.push(c), !quoted)
        } else if c == ' ' && !quoted {
            (if cur.len() > 0 {
                toks.push(cur)
            } else {
                toks
            }, seq![], quoted)
        } else {
            (toks, cur.push(c), quoted)
        }
    }
}

/// The tokens of a command line: the non-empty runs of characters between
/// spaces that are not inside double quotes (quotes stay in the token).
pub open spec fn cmd_tokens(s: Seq<char>) -> Seq<Seq<char>> {
    let (toks, cur, _q) = cmd_scan(s);
    if cur.len() > 0 {
        toks.push(cur)
    } else {
        toks
    }
}

/// What one token records: `key=value` gives the text before the first `=`
/// and the rest with surrounding `"` removed; a token without `=` is a bare key.
pub open spec fn token_entry(tok: Seq<char>) -> (Seq<char>, Option<Seq<char>>) {
    match split_once(tok, '=') {
        Some((k, v)) => (k, Some(trim_by(v, eq_pred('"')))),
        None => (tok, None),
    }
}

/// The map recorded by a list of tokens, a later token for a key winning.
pub open spec fn args_of(toks: Seq<Seq<char>>) -> Map<Seq<char>, Option<Seq<char>>> {
    pairs_map(toks.map_values(|t: Seq<char>| token_entry(t)))
}

/// What `parse_str` gives for a command line.
pub open spec fn parsed_cmdline(s: Seq<char>) -> Map<Seq<char>, Option<Seq<char>>> {
    args_of(cmd_tokens(s))
}

proof fn lemma_args_of_push(toks: Seq<Seq<char>>, t: Seq<char>)
    ensures
        args_of(toks.push(t)) == args_of(toks).insert(token_entry(t).0, token_entry(t).1),
{
    let f = |t: Seq<char>| token_entry(t);
    assert(toks.push(t).map_values(f) =~= toks.map_values(f).push(f(t)));
    lemma_pairs_map_push(toks.map_values(f), f(t));
}

/// A token decides its key: whatever earlier tokens said of that key, the
/// last token for it wins, and it leaves every other key as it was.
pub proof fn lemma_later_token_wins(toks: Seq<Seq<char>>, t: Seq<char>, other: Seq<char>)
    ensures
        args_of(toks.push(t)).contains_key(token_entry(t).0),
        args_of(toks.push(t))[token_entry(t).0] == token_entry(t).1,
        other != token_entry(t).0 ==> args_of(toks.push(t)).contains_key(other) == args_of(toks).contains_key(other)
            && args_of(toks.push(t))[other] == args_of(toks)[other],
{
    lemma_args_of_push(toks, t);
}

/// One character of the scan in `cmd_scan`.
pub open spec fn cmd_step(st: (Seq<Seq<char>>, Seq<char>, bool), c: char) -> (Seq<Seq<char>>, Seq<char>, bool) {
    let (toks, cur, quoted) = st;
    if c == '"' {
        (toks, cur.push(c), !quoted)
    } else if c == ' ' && !quoted {
        (if cur.len() > 0 {
            toks.push(cur)
        } else {
            toks
        }, seq![], quoted)
    } else {
        (toks, cur.push(c), quoted)
    }
}

/// The scan of `s` started from the state `st`.
pub open spec fn scan_from(st: (Seq<Seq<char>>, Seq<char>, bool), s: Seq<char>) -> (Seq<Seq<char>>, Seq<char>, bool)
    decreases s.len(),
{
    if s.len() == 0 {
        st
    } else {
        cmd_step(scan_from(st, s.drop_last()), s.last())
    }
}

proof fn lemma_scan_concat(a: Seq<char>, b: Seq<char>)
    ensures
        cmd_scan(a + b) == scan_from(cmd_scan(a), b),
    decreases b.len(),
{
    if b.len() == 0 {
        assert(a + b =~= a);
    } else {
        lemma_scan_concat(a, b.drop_last());
        assert((a + b).drop_last() =~= a + b.drop_last());
        assert((a + b).last() == b.last());
    }
}

/// Scanning from a state with finished tokens `t` and nothing pending
/// only adds the tokens the scan alone finds.
proof fn lemma_scan_from_fresh(t: Seq<Seq<char>>, b: Seq<char>)
    ensures
        scan_from((t, seq![], false), b) == (t + cmd_scan(b).0, cmd_scan(b).1, cmd_scan(b).2),
    decreases b.len(),
{
    if b.len() == 0 {
        assert(t + Seq::<Seq<char>>::empty() =~= t);
    } else {
        lemma_scan_from_fresh(t, b.drop_last());
        let (bt, bc, bq) = cmd_scan(b.drop_last());
        if bc.len() > 0 {
            assert((t + bt).push(bc) =~= t + bt.push(bc));
        }
    }
}

/// Joining two command lines with a space, the first not ending inside
/// quotes, gives the tokens of the first followed by those of the second.
pub proof fn lemma_tokens_of_joined(s1: Seq<char>, s2: Seq<char>)
    requires
        !cmd_scan(s1).2,
    ensures
        cmd_tokens(s1 + seq![' '] + s2) == cmd_tokens(s1) + cmd_tokens(s2),
{
    let a = s1 + seq![' '];
    lemma_scan_concat(s1, seq![' ']);
    assert(seq![' '].drop_last() =~= Seq::<char>::empty());
    assert(seq![' '].last() == ' ');
    assert(scan_from(cmd_scan(s1), seq![' ']) == cmd_step(scan_from(cmd_scan(s1), Seq::<char>::empty()), ' '));
    assert(scan_from(cmd_scan(s1), seq![' ']) == cmd_step(cmd_scan(s1), ' '));
    assert(cmd_scan(a) == (cmd_tokens(s1), Seq::<char>::empty(), false));
    lemma_scan_concat(a, s2);
    lemma_scan_from_fresh(cmd_tokens(s1), s2);
    let (bt, bc, bq) = cmd_scan(s2);
    if bc.len() > 0 {
        assert((cmd_tokens(s1) + bt).push(bc) =~= cmd_tokens(s1) + bt.push(bc));
    }
}

proof fn lemma_args_of_concat(t1: Seq<Seq<char>>, t2: Seq<Seq<char>>)
    ensures
        args_of(t1 + t2) == args_of(t1).union_prefer_right(args_of(t2)),
    decreases t2.len(),
{
    if t2.len() == 0 {
        assert(t1 + t2 =~= t1);
        assert(args_of(t2) =~= Map::<Seq<char>, Option<Seq<char>>>::empty());
        assert(args_of(t1).union_prefer_right(args_of(t2)) =~= args_of(t1));
    } else {
        let init = t2.drop_last();
        let t = t2.last();
        lemma_args_of_concat(t1, init);
        assert(t1 + t2 =~= (t1 + init).push(t));
        assert(t2 =~= init.push(t));
        lemma_args_of_push(t1 + init, t);
        lemma_args_of_push(init, t);
        assert(args_of(t1 + t2) =~= args_of(t1).union_prefer_right(args_of(t2)));
    }
}

/// Joining two command lines (the first not ending inside quotes): each
/// key of the second keeps the second's value, overriding the first, and
/// the first's other keys stay; no other key appears.
pub proof fn lemma_joined_command_lines(s1: Seq<char>, s2: Seq<char>)
    requires
        !cmd_scan(s1).2,
    ensures
        parsed_cmdline(s1 + seq![' '] + s2) == parsed_cmdline(s1).union_prefer_right(parsed_cmdline(s2)),
{
    lemma_tokens_of_joined(s1, s2);
    lemma_args_of_concat(cmd_tokens(s1), cmd_tokens(s2));
}

/// The token `t` records the key `k`: it is `k` itself or starts with `k=`.
pub open spec fn names_key(t: Seq<char>, k: Seq<char>) -> bool {
    t == k || starts_with(t, k + seq!['='])
}

proof fn lemma_token_key(t: Seq<char>, k: Seq<char>)
    requires
        forall|i: int| 0 <= i < k.len() ==> k[i] != '=',
    ensures
        token_entry(t).0 == k <==> names_key(t, k),
{
    let pred = eq_pred('=');
    let p = first_where(t, pred);
    lemma_first_where(t, pred);
    if token_entry(t).0 == k {
        if p < t.len() {
            assert(t.take(p as int) == k);
            assert(t.take(k.len() as int + 1) =~= k + seq!['=']);
        }
    }
    if t == k {
        assert forall|i: int| 0 <= i < t.len() implies !pred(#[trigger] t[i]) by {}
        lemma_first_where_at(t, pred, t.len() as int);
    } else if starts_with(t, k + seq!['=']) {
        assert forall|i: int| 0 <= i < k.len() implies !pred(#[trigger] t[i]) by {
            assert(t[i] == t.take(k.len() as int + 1)[i]);
            assert((k + seq!['='])[i] == k[i]);
        }
        assert(t[k.len() as int] == t.take(k.len() as int + 1)[k.len() as int]);
        assert((k + seq!['='])[k.len() as int] == '=');
        lemma_first_where_at(t, pred, k.len() as int);
        assert(t.take(k.len() as int) =~= k);
    }
}

proof fn lemma_args_of_keys(toks: Seq<Seq<char>>, k: Seq<char>)
    ensures
        args_of(toks).contains_key(k) <==> exists|i: int| 0 <= i < toks.len() && token_entry(#[trigger] toks[i]).0 == k,
    decreases toks.len(),
{
    if toks.len() > 0 {
        let init = toks.drop_last();
        lemma_args_of_keys(init, k);
        assert(toks =~= init.push(toks.last()));
        lemma_args_of_push(init, toks.last());
        if exists|i: int| 0 <= i < init.len() && token_entry(#[trigger] init[i]).0 == k {
            let i = choose|i: int| 0 <= i < init.len() && token_entry(#[trigger] init[i]).0 == k;
            assert(toks[i] == init[i]);
        }
        if exists|i: int| 0 <= i < toks.len() && token_entry(#[trigger] toks[i]).0 == k {
            let i = choose|i: int| 0 <= i < toks.len() && token_entry(#[trigger] toks[i]).0 == k;
            if i < init.len() {
                assert(toks[i] == init[i]);
            }
        }
    } else {
        assert(args_of(toks) =~= Map::<Seq<char>, Option<Seq<char>>>::empty());
    }
}

/// Rescue mode is asked for exactly when some token of the command line
/// is `single` or `mitos.rescue`, alone or followed by `=`.
pub proof fn lemma_rescue_tokens(s: Seq<char>)
    ensures
        (parsed_cmdline(s).contains_key("single"@) || parsed_cmdline(s).contains_key("mitos.rescue"@))
            <==> exists|i: int| 0 <= i < cmd_tokens(s).len() && (names_key(#[trigger] cmd_tokens(s)[i], "single"@) || names_key(cmd_tokens(s)[i], "mitos.rescue"@)),
{
    reveal_strlit("single");
    reveal_strlit("mitos.rescue");
    let toks = cmd_tokens(s);
    lemma_args_of_keys(toks, "single"@);
    lemma_args_of_keys(toks, "mitos.rescue"@);
    assert forall|i: int| 0 <= i < toks.len() implies (token_entry(#[trigger] toks[i]).0 == "single"@ <==> names_key(toks[i], "single"@))
        && (token_entry(toks[i]).0 == "mitos.rescue"@ <==> names_key(toks[i], "mitos.rescue"@)) by {
        lemma_token_key(toks[i], "single"@);
        lemma_token_key(toks[i], "mitos.rescue"@);
    }
}

/// Records the token `v[lo..hi]`, if it is not empty.
fn push_token(v: &Vec<char>, lo: usize, hi: usize, map: &mut CmdlineArgs)
    requires
        lo <= hi <= v.len(),
    ensures
        hi == lo ==> final(map)@ == old(map)@,
        hi > lo ==> final(map)@ == old(map)@.insert(
            token_entry(v@.subrange(lo as int, hi as int)).0,
            token_entry(v@.subrange(lo as int, hi as int)).1,
        ),
{
    if lo == hi {
        return;
    }
    let ghost tok = v@.subrange(lo as int, hi as int);
    let k = find_char(v, lo, hi, '=');
    if k < hi {
        let key = string_of(v, lo, k);
        let (a, b) = trim_char_bounds(v, k + 1, hi, '"');
        let value = string_of(v, a, b);
        proof {
            assert(tok.take(k - lo) =~= v@.subrange(lo as int, k as int));
            assert(tok.skip(k - lo + 1) =~= v@.subrange(k + 1, hi as int));
        }
        map.insert(key, Some(value));
    } else {
        let key = string_of(v, lo, hi);
        map.insert(key, None);
    }
}

/// Parses the command line `v[lo..hi]`.
fn scan(v: &Vec<char>, lo: usize, hi: usize) -> (r: CmdlineArgs)
    requires
        lo <= hi <= v.len(),
    ensures
        r@ == parsed_cmdline(v@.subrange(lo as int, hi as int)),
{
    let mut map = CmdlineArgs::new();
    let mut start = lo;
    let mut in_quotes = false;
    let mut i = lo;
    let ghost s = v@.subrange(lo as int, hi as int);
    proof {
        assert(s.take(0) =~= Seq::<char>::empty());
        assert(Seq::<Seq<char>>::empty().map_values(|t: Seq<char>| token_entry(t)) =~= Seq::empty());
    }
    while i < hi
        invariant
            lo <= start <= i <= hi <= v.len(),
            s == v@.subrange(lo as int, hi as int),
            map@ == args_of(cmd_scan(s.take(i - lo)).0),
            v@.subrange(start as int, i as int) == cmd_scan(s.take(i - lo)).1,
            in_quotes == cmd_scan(s.take(i - lo)).2,
        decreases hi - i,
    {
        let c = v[i];
        let ghost pre = s.take(i - lo);
        let ghost st = cmd_scan(pre);
        proof {
            let nxt = s.take(i + 1 - lo);
            assert(nxt.drop_last() =~= pre);
            assert(nxt.last() == c);
        }
        if c == '"' {
            in_quotes = !in_quotes;
            proof {
                assert(v@.subrange(start as int, i + 1) =~= st.1.push(c));
            }
        } else if c == ' ' && !in_quotes {
            push_token(v, start, i, &mut map);
            proof {
                if i > start {
                    lemma_args_of_push(st.0, st.1);
                }
            }
            start = i + 1;
            proof {
                assert(v@.subrange(start as int, i + 1) =~= Seq::<char>::empty());
            }
        } else {
            proof {
                assert(v@.subrange(start as int, i + 1) =~= st.1.push(c));
            }
        }
        i = i + 1;
    }
    push_token(v, start, hi, &mut map);
    proof {
        assert(s.take(hi - lo) =~= s);
        let st = cmd_scan(s);
        if hi > start {
            lemma_args_of_push(st.0, st.1);
        }
    }
    map
}

/// Parses a command line.
pub fn parse_str(s: &str) -> (r: CmdlineArgs)
    ensures
        r@ == parsed_cmdline(s@),
{
    let v = chars_of(s);
    let r = scan(&v, 0, v.len());
    assert(v@.subrange(0, v@.len() as int) =~= s@);
    r
}

/// Parses the contents of `/proc/cmdline`: the text without its
/// surrounding whitespace (such as the final newline).
pub fn parse(raw: &str) -> (r: CmdlineArgs)
    ensures
        r@ == parsed_cmdline(trim(raw@)),
{
    let v = chars_of(raw);
    let (a, b) = trim_ws_bounds(&v, 0, v.len());
    assert(v@.subrange(0, v@.len() as int) =~= raw@);
    scan(&v, a, b)
}

/// True if the kernel command line asks for a rescue/single-user boot -
/// recognizes both the traditional sysvinit `single` and an explicit
/// `mitos.rescue`, so either convention works. Checked once at boot to
/// skip configured services entirely and start a plain shell instead -
/// the escape hatch for "config is broken and the system won't come up".
pub fn rescue_requested(args: &CmdlineArgs) -> (r: bool)
    ensures
        r == (args@.contains_key("single"@) || args@.contains_key("mitos.rescue"@)),
{
    args.contains_key("single") || args.contains_key("mitos.rescue")
}

} // verus!
