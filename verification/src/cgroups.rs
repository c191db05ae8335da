//! Memory sizes as unit files write them (`MemoryMax=`).

use vstd::prelude::*;
use crate::text::{chars_of, parse_u64, parse_u64_range, trim, trim_ws_bounds};

verus! {

/// The factor a size suffix stands for: `K`, `M`, `G`, `T` (either case),
/// each a power of 1024.
pub open spec fn size_multiplier(c: char) -> Option<u64> {
    if c == 'K' || c == 'k' {
        Some(1024)
    } else if c == 'M' || c == 'm' {
        Some(1048576)
    } else if c == 'G' || c == 'g' {
        Some(1073741824)
    } else if c == 'T' || c == 't' {
        Some(1099511627776)
    } else {
        None
    }
}

/// The number of bytes a size text stands for: a `u64` number, optionally
/// followed by one suffix, surrounding whitespace ignored; `None` when the
/// text is not of that form or the product does not fit in a `u64`.
pub open spec fn size_value(s: Seq<char>) -> Option<u64> {
    let t = trim(s);
    if t.len() == 0 {
        None
    } else {
        match size_multiplier(t.last()) {
            Some(m) => match parse_u64(t.drop_last()) {
                Some(n) => if n * m <= u64::MAX {
                    Some((n * m) as u64)
                } else {
                    None
                },
                None => None,
            },
            None => parse_u64(t),
        }
    }
}

fn multiplier_of(c: char) -> (r: Option<u64>)
    ensures
        r == size_multiplier(c),
{
    if c == 'K' || c == 'k' {
        Some(1024)
    } else if c == 'M' || c == 'm' {
        Some(1048576)
    } else if c == 'G' || c == 'g' {
        Some(1073741824)
    } else if c == 'T' || c == 't' {
        Some(1099511627776)
    } else {
        None
    }
}

/// Parses a memory size such as `128M` into bytes.
pub fn parse_size(s: &str) -> (r: Option<u64>)
    ensures
        r == size_value(s@),
{
    let v = chars_of(s);
    proof {
        assert(v@.subrange(0, v@.len() as int) =~= s@);
    }
    parse_size_range(&v, 0, v.len())
}

/// `parse_size` on the text `v[lo..hi]`.
pub fn parse_size_range(v: &Vec<char>, lo: usize, hi: usize) -> (r: Option<u64>)
    requires
        lo <= hi <= v.len(),
    ensures
        r == size_value(v@.subrange(lo as int, hi as int)),
{
    let (a, b) = trim_ws_bounds(v, lo, hi);
    let ghost t = v@.subrange(a as int, b as int);
    if a == b {
        return None;
    }
    assert(t.last() == v@[b - 1]);
    match multiplier_of(v[b - 1]) {
        Some(m) => {
            assert(t.drop_last() =~= v@.subrange(a as int, b - 1));
            match parse_u64_range(v, a, b - 1) {
                Some(n) => n.checked_mul(m),
                None => None,
            }
        },
        None => parse_u64_range(v, a, b),
    }
}

} // verus!
