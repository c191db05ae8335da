//! The initramfs -> real root decisions: whether `/` is still an
//! initramfs, which device the kernel's `root=` names, and which
//! filesystem types to try when `rootfstype=` does not say.
//! Mounting, moving and `chroot` are the caller's.

use vstd::prelude::*;
use crate::cmdline::{CmdlineArgs, opt_text};
use crate::mount::{line_target, second_field};
use crate::text::{
    chars_of, line_bounds, lines, push_text, range_eq, string_of, trim, trim_ws_bounds,
    ws_field_bounds, ws_fields, starts_with,
};

verus! {

/// Filesystem types that mean `/` is held in RAM.
pub open spec fn is_ram_root_type(t: Seq<char>) -> bool {
    t == "rootfs"@ || t == "tmpfs"@ || t == "ramfs"@
}

/// Looking through the mount table in order, the first line that mounts
/// `/` decides: it is an initramfs when its type (third field) is one held
/// in RAM. No such line: no switch.
pub open spec fn root_decision(ls: Seq<Seq<char>>) -> bool
    decreases ls.len(),
{
    if ls.len() == 0 {
        false
    } else if line_target(ls[0]) == Some(seq!['/']) {
        let f = ws_fields(ls[0]);
        f.len() >= 3 && is_ram_root_type(f[2])
    } else {
        root_decision(ls.drop_first())
    }
}

/// True if `/` still looks like an initramfs (tmpfs/ramfs/rootfs) rather
/// than a real, disk-backed filesystem, according to the mount table
/// `mounts` (the text of `/proc/mounts`).
pub fn needed(mounts: &str) -> (r: bool)
    ensures
        r == root_decision(lines(mounts@)),
{
    let v = chars_of(mounts);
    let ls = line_bounds(&v);
    let w_rootfs = chars_of("rootfs");
    let w_tmpfs = chars_of("tmpfs");
    let w_ramfs = chars_of("ramfs");
    let ghost all = lines(v@);
    proof {
        assert(all.skip(0) =~= all);
    }
    let mut i: usize = 0;
    while i < ls.len()
        invariant
            0 <= i <= ls@.len(),
            v@ == mounts@,
            all == lines(v@),
            w_rootfs@ == "rootfs"@,
            w_tmpfs@ == "tmpfs"@,
            w_ramfs@ == "ramfs"@,
            ls@.len() == all.len(),
            forall|j: int|
                0 <= j < ls@.len() ==> (#[trigger] ls@[j]).0 <= ls@[j].1 <= v@.len()
                    && v@.subrange(ls@[j].0 as int, ls@[j].1 as int) == all[j],
            root_decision(all) == root_decision(all.skip(i as int)),
        decreases ls@.len() - i,
    {
        let (lo, hi) = ls[i];
        let ghost rest = all.skip(i as int);
        proof {
            assert(ls@[i as int] == (lo, hi));
            assert(rest[0] == all[i as int]);
            assert(rest.drop_first() =~= all.skip(i + 1));
        }
        let sf = second_field(&v, lo, hi);
        let is_root = match sf {
            Some((a, b)) => b - a == 1 && v[a] == '/',
            None => false,
        };
        proof {
            match sf {
                Some((a, b)) => {
                    let t = v@.subrange(a as int, b as int);
                    if t == seq!['/'] {
                        assert(t.len() == seq!['/'].len());
                        assert(t[0] == seq!['/'][0]);
                        assert(t[0] == v@[a as int]);
                    }
                    if is_root {
                        assert(t =~= seq!['/']);
                    }
                },
                None => {},
            }
        }
        if is_root {
            let f = ws_field_bounds(&v, lo, hi);
            if f.len() < 3 {
                return false;
            }
            let (ta, tb) = f[2];
            proof {
                assert(v@.subrange(f@[2].0 as int, f@[2].1 as int) == ws_fields(all[i as int])[2]);
            }
            return range_eq(&v, ta, tb, &w_rootfs) || range_eq(&v, ta, tb, &w_tmpfs) || range_eq(&v, ta, tb, &w_ramfs);
        }
        i = i + 1;
    }
    assert(all.skip(ls@.len() as int) =~= Seq::<Seq<char>>::empty());
    false
}

/// Where the kernel's `root=` points.
pub enum RootSource {
    /// A device path such as `/dev/sda2`, used as it is.
    Device(String),
    /// `UUID=`/`LABEL=`/`PARTUUID=`: the symlink `name` in the directory
    /// `dir` that udev would have populated.
    Link { dir: String, name: String },
}

pub enum RootSourceView {
    Device(Seq<char>),
    Link(Seq<char>, Seq<char>),
}

pub open spec fn root_source_view(r: RootSource) -> RootSourceView {
    match r {
        RootSource::Device(d) => RootSourceView::Device(d@),
        RootSource::Link { dir, name } => RootSourceView::Link(dir@, name@),
    }
}

/// What a `root=` value names.
pub open spec fn root_source_of(root: Seq<char>) -> RootSourceView {
    if starts_with(root, "UUID="@) {
        RootSourceView::Link("/dev/disk/by-uuid"@, root.skip("UUID="@.len() as int))
    } else if starts_with(root, "LABEL="@) {
        RootSourceView::Link("/dev/disk/by-label"@, root.skip("LABEL="@.len() as int))
    } else if starts_with(root, "PARTUUID="@) {
        RootSourceView::Link("/dev/disk/by-partuuid"@, root.skip("PARTUUID="@.len() as int))
    } else {
        RootSourceView::Device(root)
    }
}

/// The root device the command line asks for, or why there is none.
pub open spec fn root_device_of(args: Map<Seq<char>, Option<Seq<char>>>) -> Result<RootSourceView, Seq<char>> {
    if args.contains_key("root"@) && args["root"@] is Some {
        Ok(root_source_of(args["root"@].unwrap()))
    } else {
        Err("no root= on kernel command line"@)
    }
}

/// Whether `v` starts with `p`; if so, the rest as a `String`.
fn strip_prefix(v: &Vec<char>, p: &str) -> (r: Option<String>)
    ensures
        r is Some <==> starts_with(v@, p@),
        r matches Some(s) ==> s@ == v@.skip(p@.len() as int),
{
    let pv = chars_of(p);
    if pv.len() > v.len() {
        return None;
    }
    if !range_eq(v, 0, pv.len(), &pv) {
        assert(v@.take(pv@.len() as int) =~= v@.subrange(0, pv@.len() as int));
        return None;
    }
    assert(v@.take(pv@.len() as int) =~= v@.subrange(0, pv@.len() as int));
    let s = string_of(v, pv.len(), v.len());
    assert(s@ =~= v@.skip(p@.len() as int));
    Some(s)
}

/// Resolves the kernel's `root=` parameter: a direct device path
/// (`/dev/sda2`) is used as it is; the `UUID=`/`LABEL=`/`PARTUUID=` forms
/// name a `/dev/disk/by-*` symlink (see `resolve_by_symlink`).
pub fn resolve_root_device(args: &CmdlineArgs) -> (r: Result<RootSource, String>)
    ensures
        match (r, root_device_of(args@)) {
            (Ok(s), Ok(sv)) => root_source_view(s) == sv,
            (Err(e), Err(ev)) => e@ == ev,
            _ => false,
        },
{
    let root = match args.get("root") {
        Some(Some(v)) => v,
        _ => {
            return Err("no root= on kernel command line".to_owned());
        },
    };
    assert(opt_text(Some(*root)) == args@["root"@]);
    let v = chars_of(root.as_str());
    match strip_prefix(&v, "UUID=") {
        Some(rest) => {
            return Ok(RootSource::Link { dir: "/dev/disk/by-uuid".to_owned(), name: rest });
        },
        None => {},
    }
    match strip_prefix(&v, "LABEL=") {
        Some(rest) => {
            return Ok(RootSource::Link { dir: "/dev/disk/by-label".to_owned(), name: rest });
        },
        None => {},
    }
    match strip_prefix(&v, "PARTUUID=") {
        Some(rest) => {
            return Ok(RootSource::Link { dir: "/dev/disk/by-partuuid".to_owned(), name: rest });
        },
        None => {},
    }
    Ok(RootSource::Device(root.clone()))
}

/// `Path::new(dir).join(name)`: an absolute `name` replaces `dir`; otherwise
/// a `/` separates them unless `dir` is empty or already ends in one.
pub open spec fn path_join(dir: Seq<char>, name: Seq<char>) -> Seq<char> {
    if name.len() > 0 && name[0] == '/' {
        name
    } else if dir.len() == 0 || dir.last() == '/' {
        dir + name
    } else {
        dir + seq!['/'] + name
    }
}

/// The path of the symlink `name` in `dir`.
pub fn link_path(dir: &str, name: &str) -> (r: String)
    ensures
        r@ == path_join(dir@, name@),
{
    let d = chars_of(dir);
    let n = chars_of(name);
    let mut out = String::new();
    if n.len() > 0 && n[0] == '/' {
        let r = string_of(&n, 0, n.len());
        assert(n@.subrange(0, n@.len() as int) =~= n@);
        return r;
    }
    let mut i: usize = 0;
    while i < d.len()
        invariant
            0 <= i <= d@.len(),
            out@ == d@.take(i as int),
        decreases d@.len() - i,
    {
        out.push(d[i]);
        assert(d@.take(i + 1) =~= d@.take(i as int).push(d@[i as int]));
        i = i + 1;
    }
    assert(d@.take(d@.len() as int) =~= d@);
    if d.len() > 0 && d[d.len() - 1] != '/' {
        out.push('/');
    }
    let ghost mid = out@;
    let mut j: usize = 0;
    while j < n.len()
        invariant
            0 <= j <= n@.len(),
            out@ == mid + n@.take(j as int),
        decreases n@.len() - j,
    {
        out.push(n[j]);
        assert(n@.take(j + 1) =~= n@.take(j as int).push(n@[j as int]));
        j = j + 1;
    }
    assert(n@.take(n@.len() as int) =~= n@);
    assert(out@ =~= path_join(dir@, name@));
    out
}

/// The message for a `/dev/disk/by-*` symlink that is not there.
pub open spec fn missing_link_message(dir: Seq<char>, name: Seq<char>) -> Seq<char> {
    dir + "/"@ + name + " doesn't exist (no udev rules to populate it?) - pass root=/dev/... directly"@
}

/// Resolves `dir`/`name` given whether that symlink exists (`exists`,
/// which the caller checked for `link_path(dir, name)`): the path when it
/// does, an explanation when it does not - there is no blkid-style
/// superblock scanning to fall back on.
pub fn resolve_by_symlink(dir: &str, name: &str, exists: bool) -> (r: Result<String, String>)
    ensures
        match r {
            Ok(p) => exists && p@ == path_join(dir@, name@),
            Err(e) => !exists && e@ == missing_link_message(dir@, name@),
        },
{
    if exists {
        Ok(link_path(dir, name))
    } else {
        let mut e = String::new();
        push_text(&mut e, dir);
        push_text(&mut e, "/");
        push_text(&mut e, name);
        push_text(&mut e, " doesn't exist (no udev rules to populate it?) - pass root=/dev/... directly");
        Err(e)
    }
}

/// The filesystem types to try, from `/proc/filesystems`: every line not
/// marked `nodev` (pseudo-filesystems), trimmed, in order - the kernel
/// lists its preferred guess first.
pub open spec fn fstypes_of(ls: Seq<Seq<char>>) -> Seq<Seq<char>>
    decreases ls.len(),
{
    if ls.len() == 0 {
        seq![]
    } else {
        let rest = fstypes_of(ls.drop_last());
        if starts_with(ls.last(), "nodev"@) {
            rest
        } else {
            rest.push(trim(ls.last()))
        }
    }
}

/// Filesystem types the kernel knows about (`filesystems` is the text of
/// `/proc/filesystems`), excluding `nodev` pseudo-fs entries, in order.
pub fn candidate_fstypes(filesystems: &str) -> (r: Vec<String>)
    ensures
        r@.map_values(|s: String| s@) == fstypes_of(lines(filesystems@)),
{
    let v = chars_of(filesystems);
    let ls = line_bounds(&v);
    let nodev = chars_of("nodev");
    let ghost all = lines(v@);
    proof {
        assert(all.take(0) =~= Seq::<Seq<char>>::empty());
    }
    let mut r: Vec<String> = Vec::new();
    let mut i: usize = 0;
    proof {
        assert(r@.map_values(|s: String| s@) =~= Seq::<Seq<char>>::empty());
    }
    while i < ls.len()
        invariant
            0 <= i <= ls@.len(),
            v@ == filesystems@,
            all == lines(v@),
            nodev@ == "nodev"@,
            ls@.len() == all.len(),
            forall|j: int|
                0 <= j < ls@.len() ==> (#[trigger] ls@[j]).0 <= ls@[j].1 <= v@.len()
                    && v@.subrange(ls@[j].0 as int, ls@[j].1 as int) == all[j],
            r@.map_values(|s: String| s@) == fstypes_of(all.take(i as int)),
        decreases ls@.len() - i,
    {
        let (lo, hi) = ls[i];
        let ghost line = all[i as int];
        proof {
            assert(ls@[i as int] == (lo, hi));
            assert(all.take(i + 1).drop_last() =~= all.take(i as int));
            assert(all.take(i + 1).last() == line);
        }
        let marked = hi - lo >= nodev.len() && range_eq(&v, lo, lo + nodev.len(), &nodev);
        proof {
            if nodev@.len() <= line.len() {
                assert(line.take(nodev@.len() as int) =~= v@.subrange(lo as int, lo + nodev@.len()));
            }
        }
        if !marked {
            let (a, b) = trim_ws_bounds(&v, lo, hi);
            let t = string_of(&v, a, b);
            let ghost before = r@.map_values(|s: String| s@);
            r.push(t);
            assert(r@.map_values(|s: String| s@) =~= before.push(t@));
        }
        i = i + 1;
    }
    assert(all.take(ls@.len() as int) =~= all);
    r
}

/// The filesystem types to try when mounting the real root, in order:
/// only `explicit` (`rootfstype=`) when it is given, else every candidate
/// from `filesystems` (the text of `/proc/filesystems`).
pub fn fstypes_to_try(explicit: Option<&str>, filesystems: &str) -> (r: Vec<String>)
    ensures
        explicit matches Some(t) ==> r@.map_values(|s: String| s@) == seq![t@],
        explicit is None ==> r@.map_values(|s: String| s@) == fstypes_of(lines(filesystems@)),
{
    match explicit {
        Some(t) => {
            let mut r: Vec<String> = Vec::new();
            r.push(t.to_owned());
            assert(r@.map_values(|s: String| s@) =~= seq![t@]);
            r
        },
        None => candidate_fstypes(filesystems),
    }
}

/// What the initramfs cleanup does with one entry of the old root.
#[derive(PartialEq, Eq, Structural, Clone, Copy, Debug)]
pub enum CleanupAction {
    /// A separately mounted filesystem (the new root, the moved `/dev`,
    /// `/proc`, `/sys`): left alone, never descended into.
    Leave,
    /// A directory of the initramfs itself: removed with its contents.
    RemoveTree,
    /// Any other entry of the initramfs itself: removed.
    RemoveFile,
}

/// The cleanup rule for one entry of `/`: only what lives on the same
/// device as `/` (`root_dev`) is removed, so the RAM the initramfs held
/// is freed without touching any other mounted filesystem.
pub fn cleanup_action(root_dev: u64, entry_dev: u64, is_dir: bool) -> (a: CleanupAction)
    ensures
        a == if entry_dev != root_dev {
            CleanupAction::Leave
        } else if is_dir {
            CleanupAction::RemoveTree
        } else {
            CleanupAction::RemoveFile
        },
{
    if entry_dev != root_dev {
        CleanupAction::Leave
    } else if is_dir {
        CleanupAction::RemoveTree
    } else {
        CleanupAction::RemoveFile
    }
}

} // verus!
