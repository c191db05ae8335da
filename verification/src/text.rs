//! Character-level text handling shared by the parsers: trimming, line
//! splitting, whitespace splitting, decimal numbers.
//!
//! Every exec function here works on a `Vec<char>` (usually a subrange of
//! one) and is proved against a spec function over `Seq<char>`.

use vstd::prelude::*;
use vstd::utf8::{decode_utf8, valid_utf8};

verus! {

/// `std::str::from_utf8`, made owned: the text the bytes encode when they
/// are valid UTF-8, and `None` when they are not. The claim rests on
/// `from_utf8` accepting exactly the UTF-8 encodings of Unicode scalar
/// sequences (its documented behaviour), which `valid_utf8`/`decode_utf8`
/// write out.
#[verifier::external_body]
pub(crate) fn utf8_to_string(bytes: &[u8]) -> (r: Option<String>)
    ensures
        r is Some <==> valid_utf8(bytes@),
        r matches Some(s) ==> s@ == decode_utf8(bytes@),
{
    match std::str::from_utf8(bytes) {
        Ok(s) => Some(s.to_owned()),
        Err(_) => None,
    }
}

/// Appending one character to a `String` extends its text by that character.
pub assume_specification[ String::push ](s: &mut String, ch: char)
    ensures
        final(s)@ == old(s)@.push(ch),
;

// ---------------------------------------------------------------------
// Specifications
// ---------------------------------------------------------------------

/// Unicode `White_Space`, the set that `char::is_whitespace` tests.
pub open spec fn is_ws(c: char) -> bool {
    let u = c as u32;
    ||| 0x09 <= u <= 0x0D
    ||| u == 0x20
    ||| u == 0x85
    ||| u == 0xA0
    ||| u == 0x1680
    ||| 0x2000 <= u <= 0x200A
    ||| u == 0x2028
    ||| u == 0x2029
    ||| u == 0x202F
    ||| u == 0x205F
    ||| u == 0x3000
}

pub open spec fn ws_pred() -> spec_fn(char) -> bool {
    |c: char| is_ws(c)
}

pub open spec fn eq_pred(x: char) -> spec_fn(char) -> bool {
    |c: char| c == x
}

/// Position of the first element satisfying `p`, or the length when none does.
pub open spec fn first_where<A>(s: Seq<A>, p: spec_fn(A) -> bool) -> nat
    decreases s.len(),
{
    if s.len() == 0 {
        0
    } else if p(s[0]) {
        0
    } else {
        1 + first_where(s.drop_first(), p)
    }
}

/// `s` without its leading elements that satisfy `p`.
pub open spec fn trim_front_by(s: Seq<char>, p: spec_fn(char) -> bool) -> Seq<char> {
    s.skip(first_where(s, |c: char| !p(c)) as int)
}

/// `s` without its trailing elements that satisfy `p`.
pub open spec fn trim_back_by(s: Seq<char>, p: spec_fn(char) -> bool) -> Seq<char>
    decreases s.len(),
{
    if s.len() > 0 && p(s.last()) {
        trim_back_by(s.drop_last(), p)
    } else {
        s
    }
}

/// `s` without leading and trailing elements that satisfy `p`
/// (`str::trim_matches` with a predicate).
pub open spec fn trim_by(s: Seq<char>, p: spec_fn(char) -> bool) -> Seq<char> {
    trim_back_by(trim_front_by(s, p), p)
}

/// `str::trim`: no leading or trailing whitespace.
pub open spec fn trim(s: Seq<char>) -> Seq<char> {
    trim_by(s, ws_pred())
}

/// `str::split_once` on a character: the text before and after its first occurrence.
pub open spec fn split_once(s: Seq<char>, c: char) -> Option<(Seq<char>, Seq<char>)> {
    let k = first_where(s, eq_pred(c));
    if k < s.len() {
        Some((s.take(k as int), s.skip(k as int + 1)))
    } else {
        None
    }
}

/// A line without the `'\r'` of a `"\r\n"` terminator.
pub open spec fn strip_cr(l: Seq<char>) -> Seq<char> {
    if l.len() > 0 && l.last() == '\r' {
        l.drop_last()
    } else {
        l
    }
}

/// `str::lines`: pieces separated by `'\n'`, each without a `'\r'` that
/// precedes its `'\n'`, and no empty piece after a final `'\n'`.
pub open spec fn lines(s: Seq<char>) -> Seq<Seq<char>>
    decreases s.len(),
{
    if s.len() == 0 {
        seq![]
    } else {
        let k = first_where(s, eq_pred('\n'));
        if k >= s.len() {
            seq![s]
        } else {
            proof {
                lemma_first_where(s, eq_pred('\n'));
            }
            seq![strip_cr(s.take(k as int))] + lines(s.skip(k as int + 1))
        }
    }
}

/// `str::split_whitespace`: the maximal runs of non-whitespace characters.
pub open spec fn ws_fields(s: Seq<char>) -> Seq<Seq<char>>
    decreases s.len(),
{
    let t = trim_front_by(s, ws_pred());
    proof {
        lemma_first_where(s, |c: char| !ws_pred()(c));
    }
    if t.len() == 0 {
        seq![]
    } else {
        let k = first_where(t, ws_pred());
        proof {
            lemma_first_where(t, ws_pred());
            lemma_first_where(s, |c: char| !ws_pred()(c));
        }
        if k == 0 {
            seq![]
        } else {
            seq![t.take(k as int)] + ws_fields(t.skip(k as int))
        }
    }
}

/// Whether `pre` is a prefix of `s` (`str::starts_with`).
pub open spec fn starts_with(s: Seq<char>, pre: Seq<char>) -> bool {
    pre.len() <= s.len() && s.take(pre.len() as int) == pre
}

/// The decimal digit character for `d < 10`.
pub open spec fn digit_char(d: nat) -> char {
    ((d + 48) as u32) as char
}

/// Decimal representation of `n`, without leading zeros.
pub open spec fn dec(n: nat) -> Seq<char>
    decreases n,
{
    if n < 10 {
        seq![digit_char(n)]
    } else {
        dec(n / 10).push(digit_char(n % 10))
    }
}

/// Decimal representation of a signed integer, as `{}` formats it.
pub open spec fn int_text(i: int) -> Seq<char> {
    if i < 0 {
        seq!['-'] + dec((-i) as nat)
    } else {
        dec(i as nat)
    }
}

pub open spec fn is_digit(c: char) -> bool {
    '0' <= c && c <= '9'
}

/// Value of a string of decimal digits.
pub open spec fn digits_value(s: Seq<char>) -> nat
    decreases s.len(),
{
    if s.len() == 0 {
        0
    } else {
        digits_value(s.drop_last()) * 10 + ((s.last() as u32) - 48) as nat
    }
}

/// The digits part of a `u64` literal: without one leading `'+'`.
pub open spec fn u64_body(s: Seq<char>) -> Seq<char> {
    if s.len() > 0 && s[0] == '+' {
        s.drop_first()
    } else {
        s
    }
}

pub open spec fn all_digits_seq(s: Seq<char>) -> bool {
    forall|i: int| 0 <= i < s.len() ==> is_digit(#[trigger] s[i])
}

/// What `str::parse::<u64>` accepts: an optional `'+'`, then one or more
/// decimal digits whose value fits in a `u64`.
pub open spec fn parse_u64(s: Seq<char>) -> Option<u64> {
    let body = u64_body(s);
    if body.len() > 0 && all_digits_seq(body) && digits_value(body) <= u64::MAX {
        Some(digits_value(body) as u64)
    } else {
        None
    }
}

/// Position of the last `c` in `s`, or -1 when there is none.
pub open spec fn last_index_of(s: Seq<char>, c: char) -> int
    decreases s.len(),
{
    if s.len() == 0 {
        -1
    } else if s.last() == c {
        s.len() - 1
    } else {
        last_index_of(s.drop_last(), c)
    }
}

// ---------------------------------------------------------------------
// Lemmas
// ---------------------------------------------------------------------

pub proof fn lemma_first_where<A>(s: Seq<A>, p: spec_fn(A) -> bool)
    ensures
        first_where(s, p) <= s.len(),
        forall|j: int| 0 <= j < first_where(s, p) ==> !p(#[trigger] s[j]),
        first_where(s, p) < s.len() ==> p(s[first_where(s, p) as int]),
    decreases s.len(),
{
    if s.len() > 0 && !p(s[0]) {
        lemma_first_where(s.drop_first(), p);
        assert forall|j: int| 0 <= j < first_where(s, p) implies !p(#[trigger] s[j]) by {
            if j > 0 {
                assert(s[j] == s.drop_first()[j - 1]);
            }
        }
    }
}

pub proof fn lemma_first_where_at<A>(s: Seq<A>, p: spec_fn(A) -> bool, k: int)
    requires
        0 <= k <= s.len(),
        forall|j: int| 0 <= j < k ==> !p(#[trigger] s[j]),
        k < s.len() ==> p(s[k]),
    ensures
        first_where(s, p) == k,
    decreases s.len(),
{
    if s.len() > 0 && k > 0 {
        assert forall|j: int| 0 <= j < k - 1 implies !p(#[trigger] s.drop_first()[j]) by {
            assert(s.drop_first()[j] == s[j + 1]);
        }
        lemma_first_where_at(s.drop_first(), p, k - 1);
    }
}

pub proof fn lemma_last_index_at(s: Seq<char>, c: char, k: int)
    requires
        -1 <= k < s.len(),
        forall|j: int| k < j < s.len() ==> #[trigger] s[j] != c,
        k >= 0 ==> s[k] == c,
    ensures
        last_index_of(s, c) == k,
    decreases s.len(),
{
    if s.len() > 0 && k < s.len() - 1 {
        assert(s[s.len() - 1] != c);
        assert forall|j: int| k < j < s.drop_last().len() implies #[trigger] s.drop_last()[j] != c by {
            assert(s.drop_last()[j] == s[j]);
        }
        if k >= 0 {
            assert(s.drop_last()[k] == s[k]);
        }
        lemma_last_index_at(s.drop_last(), c, k);
    }
}

/// `last_index_of` is `-1` or an index of `c`.
pub proof fn lemma_last_index_bound(s: Seq<char>, c: char)
    ensures
        -1 <= last_index_of(s, c) < s.len(),
        last_index_of(s, c) >= 0 ==> s[last_index_of(s, c)] == c,
    decreases s.len(),
{
    if s.len() > 0 && s.last() != c {
        lemma_last_index_bound(s.drop_last(), c);
        let k = last_index_of(s.drop_last(), c);
        if k >= 0 {
            assert(s.drop_last()[k] == s[k]);
        }
    }
}

/// Lines of a text that starts with whole lines `t1` (empty, or ending in
/// `'\n'`): those of `t1`, then those of the rest.
pub proof fn lemma_lines_concat(t1: Seq<char>, t2: Seq<char>)
    requires
        t1.len() == 0 || t1.last() == '\n',
    ensures
        lines(t1 + t2) == lines(t1) + lines(t2),
    decreases t1.len(),
{
    if t1.len() == 0 {
        assert(t1 + t2 =~= t2);
        assert(lines(t1) =~= Seq::<Seq<char>>::empty());
        assert(lines(t1) + lines(t2) =~= lines(t2));
    } else {
        let s = t1 + t2;
        let p = eq_pred('\n');
        lemma_first_where(t1, p);
        lemma_first_where(s, p);
        let k = first_where(t1, p);
        assert(t1[t1.len() - 1] == '\n');
        if k >= t1.len() {
            assert(!p(t1[t1.len() - 1]));
        }
        assert forall|j: int| 0 <= j < k implies !p(#[trigger] s[j]) by {
            assert(s[j] == t1[j]);
        }
        assert(s[k as int] == t1[k as int]);
        lemma_first_where_at(s, p, k as int);
        let rest = t1.skip(k as int + 1);
        assert(s.take(k as int) =~= t1.take(k as int));
        assert(s.skip(k as int + 1) =~= rest + t2);
        if rest.len() > 0 {
            assert(rest.last() == t1.last());
        }
        lemma_lines_concat(rest, t2);
        assert(lines(t1) == seq![strip_cr(t1.take(k as int))] + lines(rest));
        assert(lines(s) == seq![strip_cr(t1.take(k as int))] + lines(rest + t2));
        assert(lines(s) =~= lines(t1) + lines(t2));
    }
}

/// A line without `'\n'` followed by `'\n'` reads as that line (without a
/// `'\r'` ending it).
pub proof fn lemma_lines_one(l: Seq<char>)
    requires
        forall|i: int| 0 <= i < l.len() ==> l[i] != '\n',
    ensures
        lines(l + seq!['\n']) == seq![strip_cr(l)],
{
    let s = l + seq!['\n'];
    let p = eq_pred('\n');
    assert forall|j: int| 0 <= j < l.len() implies !p(#[trigger] s[j]) by {
        assert(s[j] == l[j]);
    }
    assert(s[l.len() as int] == '\n');
    lemma_first_where_at(s, p, l.len() as int);
    assert(s.take(l.len() as int) =~= l);
    assert(s.skip(l.len() as int + 1) =~= Seq::<char>::empty());
    assert(lines(s.skip(l.len() as int + 1)) =~= Seq::<Seq<char>>::empty());
    assert(lines(s) =~= seq![strip_cr(l)]);
}

/// Dropping a `'\r'` that ends a line does not change the line trimmed.
pub proof fn lemma_trim_strip_cr(l: Seq<char>)
    ensures
        trim(strip_cr(l)) == trim(l),
{
    if l.len() > 0 && l.last() == '\r' {
        let x = l.drop_last();
        let np = |c: char| !ws_pred()(c);
        lemma_first_where(l, np);
        let f = first_where(l, np);
        assert(is_ws('\r'));
        assert(l[l.len() - 1] == '\r');
        if f < l.len() {
            assert(f < l.len() - 1);
            assert forall|j: int| 0 <= j < f implies !np(#[trigger] x[j]) by {
                assert(x[j] == l[j]);
            }
            assert(x[f as int] == l[f as int]);
            lemma_first_where_at(x, np, f as int);
            let a = l.skip(f as int);
            assert(x.skip(f as int) =~= a.drop_last());
            assert(a.last() == '\r');
            assert(trim_back_by(a, ws_pred()) == trim_back_by(a.drop_last(), ws_pred()));
        } else {
            assert forall|j: int| 0 <= j < x.len() implies !np(#[trigger] x[j]) by {
                assert(x[j] == l[j]);
            }
            lemma_first_where_at(x, np, x.len() as int);
            assert(x.skip(x.len() as int) =~= Seq::<char>::empty());
            assert(l.skip(l.len() as int) =~= Seq::<char>::empty());
        }
    }
}

/// A text that neither starts nor ends with whitespace is its own trim.
pub proof fn lemma_trim_fixed(s: Seq<char>)
    requires
        s.len() > 0,
        !is_ws(s[0]),
        !is_ws(s.last()),
    ensures
        trim(s) == s,
{
    let np = |c: char| !ws_pred()(c);
    lemma_first_where_at(s, np, 0);
    assert(s.skip(0) =~= s);
}

/// A text that starts with a non-whitespace character has a first
/// whitespace-separated field.
pub proof fn lemma_ws_fields_nonempty(s: Seq<char>)
    requires
        s.len() > 0,
        !is_ws(s[0]),
    ensures
        ws_fields(s).len() > 0,
{
    let np = |c: char| !ws_pred()(c);
    lemma_first_where_at(s, np, 0);
    assert(s.skip(0) =~= s);
    lemma_first_where(s, ws_pred());
}

pub proof fn lemma_digits_value_mono(s: Seq<char>, i: int)
    requires
        0 <= i <= s.len(),
    ensures
        digits_value(s.take(i)) <= digits_value(s),
    decreases s.len() - i,
{
    if i < s.len() {
        lemma_digits_value_mono(s, i + 1);
        let t = s.take(i + 1);
        assert(t.drop_last() =~= s.take(i));
        let x = digits_value(t.drop_last());
        let y = ((t.last() as u32) - 48) as nat;
        assert(digits_value(t) == x * 10 + y);
    } else {
        assert(s.take(i) =~= s);
    }
}

// ---------------------------------------------------------------------
// Exec helpers
// ---------------------------------------------------------------------

/// The characters of `s`, in order.
pub fn chars_of(s: &str) -> (v: Vec<char>)
    ensures
        v@ == s@,
{
    let mut v: Vec<char> = Vec::new();
    for c in it: s.chars()
        invariant
            v@ == it.seq().take(it.index() as int),
    {
        v.push(c);
    }
    v
}

/// `char::is_whitespace`.
pub fn char_is_ws(c: char) -> (r: bool)
    ensures
        r == is_ws(c),
{
    let u = c as u32;
    (0x09 <= u && u <= 0x0D) || u == 0x20 || u == 0x85 || u == 0xA0 || u == 0x1680 || (0x2000
        <= u && u <= 0x200A) || u == 0x2028 || u == 0x2029 || u == 0x202F || u == 0x205F || u
        == 0x3000
}

/// A `String` holding `v[lo..hi]`.
pub fn string_of(v: &Vec<char>, lo: usize, hi: usize) -> (s: String)
    requires
        lo <= hi <= v.len(),
    ensures
        s@ == v@.subrange(lo as int, hi as int),
{
    let mut s = String::new();
    let mut i = lo;
    while i < hi
        invariant
            lo <= i <= hi <= v.len(),
            s@ == v@.subrange(lo as int, i as int),
        decreases hi - i,
    {
        s.push(v[i]);
        i = i + 1;
        assert(s@ =~= v@.subrange(lo as int, i as int));
    }
    s
}

/// Index of the first `c` in `v[lo..hi]`, or `hi`.
pub fn find_char(v: &Vec<char>, lo: usize, hi: usize, c: char) -> (r: usize)
    requires
        lo <= hi <= v.len(),
    ensures
        lo <= r <= hi,
        r - lo == first_where(v@.subrange(lo as int, hi as int), eq_pred(c)),
{
    let mut i = lo;
    while i < hi
        invariant
            lo <= i <= hi <= v.len(),
            forall|j: int| lo <= j < i ==> v@[j] != c,
        ensures
            lo <= i <= hi,
            forall|j: int| lo <= j < i ==> v@[j] != c,
            i < hi ==> v@[i as int] == c,
        decreases hi - i,
    {
        if v[i] == c {
            break;
        }
        i = i + 1;
    }
    proof {
        let s = v@.subrange(lo as int, hi as int);
        assert forall|j: int| 0 <= j < i - lo implies !eq_pred(c)(#[trigger] s[j]) by {
            assert(s[j] == v@[lo + j]);
        }
        lemma_first_where_at(s, eq_pred(c), i - lo);
    }
    i
}

/// Index of the first whitespace character in `v[lo..hi]`, or `hi`.
pub fn find_ws(v: &Vec<char>, lo: usize, hi: usize) -> (r: usize)
    requires
        lo <= hi <= v.len(),
    ensures
        lo <= r <= hi,
        r - lo == first_where(v@.subrange(lo as int, hi as int), ws_pred()),
{
    let mut i = lo;
    while i < hi
        invariant
            lo <= i <= hi <= v.len(),
            forall|j: int| lo <= j < i ==> !is_ws(#[trigger] v@[j]),
        ensures
            lo <= i <= hi,
            forall|j: int| lo <= j < i ==> !is_ws(#[trigger] v@[j]),
            i < hi ==> is_ws(v@[i as int]),
        decreases hi - i,
    {
        if char_is_ws(v[i]) {
            break;
        }
        i = i + 1;
    }
    proof {
        let s = v@.subrange(lo as int, hi as int);
        assert forall|j: int| 0 <= j < i - lo implies !ws_pred()(#[trigger] s[j]) by {
            assert(s[j] == v@[lo + j]);
        }
        lemma_first_where_at(s, ws_pred(), i - lo);
    }
    i
}

/// The trimming predicate: "equals `q`" or, with no `q`, "is whitespace".
pub open spec fn trim_pred(quote: Option<char>) -> spec_fn(char) -> bool {
    match quote {
        Some(q) => eq_pred(q),
        None => ws_pred(),
    }
}

fn trims(c: char, quote: Option<char>) -> (r: bool)
    ensures
        r == trim_pred(quote)(c),
{
    match quote {
        Some(q) => c == q,
        None => char_is_ws(c),
    }
}

/// The bounds of `trim_by(v[lo..hi], trim_pred(quote))`.
fn trim_bounds(v: &Vec<char>, lo: usize, hi: usize, quote: Option<char>) -> (r: (usize, usize))
    requires
        lo <= hi <= v.len(),
    ensures
        lo <= r.0 <= r.1 <= hi,
        v@.subrange(r.0 as int, r.1 as int) == trim_by(
            v@.subrange(lo as int, hi as int),
            trim_pred(quote),
        ),
{
    let ghost p = trim_pred(quote);
    let mut a = lo;
    while a < hi
        invariant
            lo <= a <= hi <= v.len(),
            p == trim_pred(quote),
            forall|j: int| lo <= j < a ==> p(#[trigger] v@[j]),
        ensures
            lo <= a <= hi,
            forall|j: int| lo <= j < a ==> p(#[trigger] v@[j]),
            a < hi ==> !p(v@[a as int]),
        decreases hi - a,
    {
        if !trims(v[a], quote) {
            break;
        }
        a = a + 1;
    }
    let ghost s = v@.subrange(lo as int, hi as int);
    proof {
        let np = |c: char| !p(c);
        assert forall|j: int| 0 <= j < a - lo implies !np(#[trigger] s[j]) by {
            assert(s[j] == v@[lo + j]);
        }
        if a < hi {
            assert(s[a - lo] == v@[a as int]);
        }
        lemma_first_where_at(s, np, a - lo);
        assert(trim_front_by(s, p) =~= v@.subrange(a as int, hi as int));
    }
    let mut b = hi;
    let ghost t = v@.subrange(a as int, hi as int);
    while b > a
        invariant
            lo <= a <= b <= hi <= v.len(),
            p == trim_pred(quote),
            t == v@.subrange(a as int, hi as int),
            trim_back_by(t, p) == trim_back_by(v@.subrange(a as int, b as int), p),
        ensures
            lo <= a <= b <= hi,
            trim_back_by(t, p) == trim_back_by(v@.subrange(a as int, b as int), p),
            b > a ==> !p(v@[b - 1]),
        decreases b - a,
    {
        if !trims(v[b - 1], quote) {
            break;
        }
        proof {
            let u = v@.subrange(a as int, b as int);
            assert(u.drop_last() =~= v@.subrange(a as int, b - 1));
            assert(u.last() == v@[b - 1]);
        }
        b = b - 1;
    }
    proof {
        let u = v@.subrange(a as int, b as int);
        if u.len() > 0 {
            assert(u.last() == v@[b - 1]);
        }
    }
    (a, b)
}

/// Index of the last `c` in `v[lo..hi]`.
pub fn find_last_char(v: &Vec<char>, lo: usize, hi: usize, c: char) -> (r: Option<usize>)
    requires
        lo <= hi <= v.len(),
    ensures
        match r {
            Some(i) => lo <= i < hi && i - lo == last_index_of(v@.subrange(lo as int, hi as int), c),
            None => last_index_of(v@.subrange(lo as int, hi as int), c) == -1,
        },
{
    let mut i = hi;
    while i > lo
        invariant
            lo <= i <= hi <= v.len(),
            forall|j: int| i <= j < hi ==> #[trigger] v@[j] != c,
        decreases i - lo,
    {
        if v[i - 1] == c {
            proof {
                let s = v@.subrange(lo as int, hi as int);
                assert forall|j: int| i - 1 - lo < j < s.len() implies #[trigger] s[j] != c by {
                    assert(s[j] == v@[lo + j]);
                }
                lemma_last_index_at(s, c, i - 1 - lo);
            }
            return Some(i - 1);
        }
        i = i - 1;
    }
    proof {
        let s = v@.subrange(lo as int, hi as int);
        assert forall|j: int| -1 < j < s.len() implies #[trigger] s[j] != c by {
            assert(s[j] == v@[lo + j]);
        }
        lemma_last_index_at(s, c, -1);
    }
    None
}

/// Bounds of `trim(v[lo..hi])`.
pub fn trim_ws_bounds(v: &Vec<char>, lo: usize, hi: usize) -> (r: (usize, usize))
    requires
        lo <= hi <= v.len(),
    ensures
        lo <= r.0 <= r.1 <= hi,
        v@.subrange(r.0 as int, r.1 as int) == trim(v@.subrange(lo as int, hi as int)),
{
    trim_bounds(v, lo, hi, None)
}

/// Bounds of `v[lo..hi]` with all leading and trailing `q` removed.
pub fn trim_char_bounds(v: &Vec<char>, lo: usize, hi: usize, q: char) -> (r: (usize, usize))
    requires
        lo <= hi <= v.len(),
    ensures
        lo <= r.0 <= r.1 <= hi,
        v@.subrange(r.0 as int, r.1 as int) == trim_by(v@.subrange(lo as int, hi as int), eq_pred(q)),
{
    trim_bounds(v, lo, hi, Some(q))
}

/// Whether `v[lo..hi]` equals `w`.
pub fn range_eq(v: &Vec<char>, lo: usize, hi: usize, w: &Vec<char>) -> (r: bool)
    requires
        lo <= hi <= v.len(),
    ensures
        r == (v@.subrange(lo as int, hi as int) == w@),
{
    if hi - lo != w.len() {
        return false;
    }
    let mut i: usize = 0;
    while i < w.len()
        invariant
            hi - lo == w.len(),
            lo <= hi <= v.len(),
            0 <= i <= w.len(),
            forall|j: int| 0 <= j < i ==> v@[lo + j] == w@[j],
        decreases w.len() - i,
    {
        if v[lo + i] != w[i] {
            assert(v@.subrange(lo as int, hi as int)[i as int] != w@[i as int]);
            return false;
        }
        i = i + 1;
    }
    assert(v@.subrange(lo as int, hi as int) =~= w@);
    true
}

/// Bounds of each of `lines(v)`.
pub fn line_bounds(v: &Vec<char>) -> (r: Vec<(usize, usize)>)
    ensures
        r@.len() == lines(v@).len(),
        forall|i: int|
            0 <= i < r@.len() ==> (#[trigger] r@[i]).0 <= r@[i].1 <= v@.len() && v@.subrange(
                r@[i].0 as int,
                r@[i].1 as int,
            ) == lines(v@)[i],
{
    let n = v.len();
    let mut r: Vec<(usize, usize)> = Vec::new();
    let mut pos: usize = 0;
    proof {
        assert(v@.skip(0) =~= v@);
        assert(r@.map_values(|b: (usize, usize)| v@.subrange(b.0 as int, b.1 as int)) =~= Seq::<
            Seq<char>,
        >::empty());
        assert(lines(v@) =~= r@.map_values(|b: (usize, usize)| v@.subrange(b.0 as int, b.1 as int))
            + lines(v@.skip(0)));
    }
    while pos < n
        invariant
            n == v.len(),
            pos <= n,
            lines(v@) == r@.map_values(|b: (usize, usize)| v@.subrange(b.0 as int, b.1 as int))
                + lines(v@.skip(pos as int)),
            forall|i: int| 0 <= i < r@.len() ==> (#[trigger] r@[i]).0 <= r@[i].1 <= v@.len(),
        decreases n - pos,
    {
        let k = find_char(v, pos, n, '\n');
        let ghost s = v@.skip(pos as int);
        let ghost before = r@.map_values(|b: (usize, usize)| v@.subrange(b.0 as int, b.1 as int));
        assert(v@.subrange(pos as int, n as int) =~= s);
        if k == n {
            r.push((pos, n));
            proof {
                assert(lines(s) == seq![s]);
                assert(r@.map_values(|b: (usize, usize)| v@.subrange(b.0 as int, b.1 as int))
                    =~= before.push(s));
                assert(v@.skip(n as int) =~= Seq::<char>::empty());
                assert(lines(v@) =~= r@.map_values(
                    |b: (usize, usize)| v@.subrange(b.0 as int, b.1 as int),
                ) + lines(v@.skip(n as int)));
            }
            pos = n;
        } else {
            let end = if k > pos && v[k - 1] == '\r' {
                k - 1
            } else {
                k
            };
            r.push((pos, end));
            proof {
                let l = s.take(k - pos);
                assert(l =~= v@.subrange(pos as int, k as int));
                if k > pos && v@[k - 1] == '\r' {
                    assert(strip_cr(l) =~= v@.subrange(pos as int, end as int));
                } else {
                    assert(strip_cr(l) =~= v@.subrange(pos as int, end as int));
                }
                assert(s.skip(k - pos + 1) =~= v@.skip(k + 1));
                assert(lines(s) == seq![strip_cr(l)] + lines(v@.skip(k + 1)));
                assert(r@.map_values(|b: (usize, usize)| v@.subrange(b.0 as int, b.1 as int))
                    =~= before.push(strip_cr(l)));
                assert(lines(v@) =~= r@.map_values(
                    |b: (usize, usize)| v@.subrange(b.0 as int, b.1 as int),
                ) + lines(v@.skip(k + 1)));
            }
            pos = k + 1;
        }
    }
    proof {
        assert(v@.skip(pos as int) =~= Seq::<char>::empty());
        let m = r@.map_values(|b: (usize, usize)| v@.subrange(b.0 as int, b.1 as int));
        assert(lines(v@) =~= m);
        assert forall|i: int| 0 <= i < r@.len() implies (#[trigger] r@[i]).0 <= r@[i].1 <= v@.len() && v@.subrange(
            r@[i].0 as int,
            r@[i].1 as int,
        ) == lines(v@)[i] by {
            assert(m[i] == v@.subrange(r@[i].0 as int, r@[i].1 as int));
        }
    }
    r
}

/// Bounds of each of `ws_fields(v[lo..hi])`.
pub fn ws_field_bounds(v: &Vec<char>, lo: usize, hi: usize) -> (r: Vec<(usize, usize)>)
    requires
        lo <= hi <= v.len(),
    ensures
        r@.len() == ws_fields(v@.subrange(lo as int, hi as int)).len(),
        forall|i: int|
            0 <= i < r@.len() ==> lo <= r@[i].0 <= r@[i].1 <= hi && #[trigger] v@.subrange(
                r@[i].0 as int,
                r@[i].1 as int,
            ) == ws_fields(v@.subrange(lo as int, hi as int))[i],
{
    let mut r: Vec<(usize, usize)> = Vec::new();
    let mut pos: usize = lo;
    let ghost whole = v@.subrange(lo as int, hi as int);
    loop
        invariant
            lo <= pos <= hi <= v.len(),
            whole == v@.subrange(lo as int, hi as int),
            ws_fields(whole) == r@.map_values(
                |b: (usize, usize)| v@.subrange(b.0 as int, b.1 as int),
            ) + ws_fields(v@.subrange(pos as int, hi as int)),
            forall|i: int| 0 <= i < r@.len() ==> lo <= (#[trigger] r@[i]).0 <= r@[i].1 <= hi,
        ensures
            ws_fields(whole) == r@.map_values(
                |b: (usize, usize)| v@.subrange(b.0 as int, b.1 as int),
            ),
            forall|i: int| 0 <= i < r@.len() ==> lo <= (#[trigger] r@[i]).0 <= r@[i].1 <= hi,
        decreases hi - pos,
    {
        let ghost s = v@.subrange(pos as int, hi as int);
        let ghost before = r@.map_values(|b: (usize, usize)| v@.subrange(b.0 as int, b.1 as int));
        // skip leading whitespace
        let mut a = pos;
        while a < hi
            invariant
                pos <= a <= hi <= v.len(),
                forall|j: int| pos <= j < a ==> is_ws(#[trigger] v@[j]),
            ensures
                pos <= a <= hi,
                forall|j: int| pos <= j < a ==> is_ws(#[trigger] v@[j]),
                a < hi ==> !is_ws(v@[a as int]),
            decreases hi - a,
        {
            if !char_is_ws(v[a]) {
                break;
            }
            a = a + 1;
        }
        proof {
            let np = |c: char| !ws_pred()(c);
            assert forall|j: int| 0 <= j < a - pos implies !np(#[trigger] s[j]) by {
                assert(s[j] == v@[pos + j]);
            }
            if a < hi {
                assert(s[a - pos] == v@[a as int]);
            }
            lemma_first_where_at(s, np, a - pos);
            assert(trim_front_by(s, ws_pred()) =~= v@.subrange(a as int, hi as int));
        }
        if a == hi {
            proof {
                assert(ws_fields(s) =~= Seq::<Seq<char>>::empty());
                assert(ws_fields(whole) =~= before);
            }
            break;
        }
        let b = find_ws(v, a, hi);
        proof {
            let t = v@.subrange(a as int, hi as int);
            lemma_first_where(t, ws_pred());
            assert(t[0] == v@[a as int]);
            assert(b > a);
            assert(t.take(b - a) =~= v@.subrange(a as int, b as int));
            assert(t.skip(b - a) =~= v@.subrange(b as int, hi as int));
            assert(ws_fields(s) == seq![v@.subrange(a as int, b as int)] + ws_fields(
                v@.subrange(b as int, hi as int),
            ));
        }
        r.push((a, b));
        proof {
            assert(r@.map_values(|q: (usize, usize)| v@.subrange(q.0 as int, q.1 as int))
                =~= before.push(v@.subrange(a as int, b as int)));
            assert(ws_fields(whole) =~= r@.map_values(
                |q: (usize, usize)| v@.subrange(q.0 as int, q.1 as int),
            ) + ws_fields(v@.subrange(b as int, hi as int)));
        }
        pos = b;
    }
    proof {
        let m = r@.map_values(|b: (usize, usize)| v@.subrange(b.0 as int, b.1 as int));
        assert forall|i: int| 0 <= i < r@.len() implies #[trigger] v@.subrange(
            r@[i].0 as int,
            r@[i].1 as int,
        ) == ws_fields(whole)[i] by {
            assert(m[i] == v@.subrange(r@[i].0 as int, r@[i].1 as int));
        }
    }
    r
}

/// Appends the text of `t` to `s`.
pub fn push_text(s: &mut String, t: &str)
    ensures
        final(s)@ == old(s)@ + t@,
{
    let v = chars_of(t);
    let mut i: usize = 0;
    while i < v.len()
        invariant
            0 <= i <= v@.len(),
            v@ == t@,
            s@ == old(s)@ + v@.take(i as int),
        decreases v@.len() - i,
    {
        s.push(v[i]);
        proof {
            assert(v@.take(i + 1) =~= v@.take(i as int).push(v@[i as int]));
        }
        i = i + 1;
    }
    assert(v@.take(v@.len() as int) =~= v@);
}

/// Appends the decimal representation of `n` to `s`.
pub fn push_decimal(s: &mut String, n: u64)
    ensures
        final(s)@ == old(s)@ + dec(n as nat),
    decreases n,
{
    if n >= 10 {
        push_decimal(s, n / 10);
    }
    let d = (n % 10) as u32;
    let c = ((d + 48) as u8) as char;
    assert(c == digit_char((n % 10) as nat));
    s.push(c);
    assert(final(s)@ =~= old(s)@ + dec(n as nat));
}

/// Appends a signed integer as `{}` would format it.
pub fn push_int(s: &mut String, i: i64)
    ensures
        final(s)@ == old(s)@ + int_text(i as int),
{
    if i < 0 {
        s.push('-');
        let m: i128 = -(i as i128);
        push_decimal(s, m as u64);
        assert(final(s)@ =~= old(s)@ + int_text(i as int));
    } else {
        push_decimal(s, i as u64);
    }
}

/// `str::parse::<u64>` on `v[lo..hi]`.
pub fn parse_u64_range(v: &Vec<char>, lo: usize, hi: usize) -> (r: Option<u64>)
    requires
        lo <= hi <= v.len(),
    ensures
        r == parse_u64(v@.subrange(lo as int, hi as int)),
{
    let ghost s = v@.subrange(lo as int, hi as int);
    let start = if lo < hi && v[lo] == '+' {
        lo + 1
    } else {
        lo
    };
    let ghost body = v@.subrange(start as int, hi as int);
    assert(body =~= u64_body(s));
    if start == hi {
        return None;
    }
    let mut acc: u64 = 0;
    let mut i = start;
    while i < hi
        invariant
            lo <= start <= i <= hi <= v.len(),
            body == v@.subrange(start as int, hi as int),
            s == v@.subrange(lo as int, hi as int),
            body == u64_body(s),
            forall|j: int| start <= j < i ==> is_digit(#[trigger] v@[j]),
            acc as nat == digits_value(v@.subrange(start as int, i as int)),
        decreases hi - i,
    {
        let c = v[i];
        if !('0' <= c && c <= '9') {
            assert(body[i - start] == c);
            assert(!is_digit(body[i - start]));
            assert(!all_digits_seq(body));
            return None;
        }
        let d = (c as u32 - 48) as u64;
        proof {
            let pre = v@.subrange(start as int, i + 1);
            assert(pre.drop_last() =~= v@.subrange(start as int, i as int));
            assert(pre.last() == c);
        }
        let m = acc.checked_mul(10);
        if m.is_none() {
            proof {
                let pre = v@.subrange(start as int, i + 1);
                lemma_digits_value_mono(body, i + 1 - start);
                assert(body.take(i + 1 - start) =~= pre);
                assert(digits_value(pre) == acc * 10 + d);
                assert(digits_value(body) > u64::MAX);
            }
            return None;
        }
        let m = m.unwrap();
        let a = m.checked_add(d);
        if a.is_none() {
            proof {
                let pre = v@.subrange(start as int, i + 1);
                lemma_digits_value_mono(body, i + 1 - start);
                assert(body.take(i + 1 - start) =~= pre);
                assert(digits_value(pre) == acc * 10 + d);
                assert(digits_value(body) > u64::MAX);
            }
            return None;
        }
        acc = a.unwrap();
        i = i + 1;
    }
    assert(v@.subrange(start as int, i as int) =~= body);
    Some(acc)
}

} // verus!
