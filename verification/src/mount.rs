//! Reading the kernel's mount table (`/proc/mounts`): one mount per line,
//! whitespace-separated `source target fstype options ...`.

use vstd::prelude::*;
use crate::text::{chars_of, line_bounds, lines, range_eq, ws_field_bounds, ws_fields};

verus! {

/// The mount point a mount-table line names: its second field.
pub open spec fn line_target(line: Seq<char>) -> Option<Seq<char>> {
    let f = ws_fields(line);
    if f.len() >= 2 {
        Some(f[1])
    } else {
        None
    }
}

/// Whether some line of the table has `target` as its mount point.
pub open spec fn lists_mount_point(ls: Seq<Seq<char>>, target: Seq<char>) -> bool {
    exists|i: int| 0 <= i < ls.len() && line_target(#[trigger] ls[i]) == Some(target)
}

/// The second field of `v[lo..hi]`, as bounds.
pub fn second_field(v: &Vec<char>, lo: usize, hi: usize) -> (r: Option<(usize, usize)>)
    requires
        lo <= hi <= v.len(),
    ensures
        match r {
            Some(b) => b.0 <= b.1 <= v.len() && line_target(v@.subrange(lo as int, hi as int)) == Some(
                v@.subrange(b.0 as int, b.1 as int),
            ),
            None => line_target(v@.subrange(lo as int, hi as int)) is None,
        },
{
    let f = ws_field_bounds(v, lo, hi);
    if f.len() < 2 {
        return None;
    }
    let b = f[1];
    assert(v@.subrange(f@[1].0 as int, f@[1].1 as int) == ws_fields(v@.subrange(lo as int, hi as int))[1]);
    Some(b)
}

/// Whether `target` already appears as a mount point in the mount table
/// `mounts`. Re-mounting something the kernel or an initramfs already
/// mounted just produces noisy EBUSY warnings, so callers skip it instead.
pub fn already_mounted(mounts: &str, target: &str) -> (r: bool)
    ensures
        r == lists_mount_point(lines(mounts@), target@),
{
    let v = chars_of(mounts);
    let t = chars_of(target);
    let ls = line_bounds(&v);
    let mut i: usize = 0;
    while i < ls.len()
        invariant
            0 <= i <= ls@.len(),
            v@ == mounts@,
            t@ == target@,
            ls@.len() == lines(v@).len(),
            forall|j: int|
                0 <= j < ls@.len() ==> (#[trigger] ls@[j]).0 <= ls@[j].1 <= v@.len()
                    && v@.subrange(ls@[j].0 as int, ls@[j].1 as int) == lines(v@)[j],
            forall|j: int| 0 <= j < i ==> line_target(#[trigger] lines(v@)[j]) != Some(target@),
        decreases ls@.len() - i,
    {
        let (lo, hi) = ls[i];
        assert(ls@[i as int] == (lo, hi));
        match second_field(&v, lo, hi) {
            Some((a, b)) => {
                if range_eq(&v, a, b, &t) {
                    assert(line_target(lines(v@)[i as int]) == Some(target@));
                    return true;
                }
            },
            None => {},
        }
        i = i + 1;
    }
    false
}

} // verus!
