use mitos_init::cmdline::parse_str;
use mitos_init::mount::already_mounted;
use mitos_init::switch_root::{candidate_fstypes, cleanup_action, fstypes_to_try, link_path, needed, resolve_by_symlink, resolve_root_device, CleanupAction, RootSource};

#[test]
fn initramfs_roots_need_a_switch() {
    assert!(needed("rootfs / rootfs rw 0 0\nproc /proc proc rw 0 0\n"));
    assert!(needed("proc /proc proc rw 0 0\nnone / tmpfs rw 0 0\n"));
    assert!(!needed("/dev/sda1 / ext4 rw 0 0\nnone / tmpfs rw 0 0\n"));
    assert!(!needed("proc /proc proc rw 0 0\n"));
    assert!(!needed(""));
    assert!(!needed("weird /\n"));
}

#[test]
fn root_parameter_forms() {
    match resolve_root_device(&parse_str("root=/dev/sda2")).unwrap() {
        RootSource::Device(d) => assert_eq!(d, "/dev/sda2"),
        _ => panic!("expected a device"),
    }
    match resolve_root_device(&parse_str("root=UUID=1234-5678")).unwrap() {
        RootSource::Link { dir, name } => {
            assert_eq!(dir, "/dev/disk/by-uuid");
            assert_eq!(name, "1234-5678");
        }
        _ => panic!("expected a link"),
    }
    match resolve_root_device(&parse_str("root=LABEL=rootfs")).unwrap() {
        RootSource::Link { dir, name } => assert_eq!((dir.as_str(), name.as_str()), ("/dev/disk/by-label", "rootfs")),
        _ => panic!("expected a link"),
    }
    match resolve_root_device(&parse_str("root=PARTUUID=abc")).unwrap() {
        RootSource::Link { dir, name } => assert_eq!((dir.as_str(), name.as_str()), ("/dev/disk/by-partuuid", "abc")),
        _ => panic!("expected a link"),
    }
    assert_eq!(resolve_root_device(&parse_str("quiet")).err(), Some("no root= on kernel command line".to_string()));
    assert!(resolve_root_device(&parse_str("root")).is_err());
}

#[test]
fn symlink_paths() {
    assert_eq!(link_path("/dev/disk/by-uuid", "1234"), "/dev/disk/by-uuid/1234");
    assert_eq!(link_path("/dev/", "x"), "/dev/x");
    assert_eq!(link_path("/dev", "/abs"), "/abs");
    assert_eq!(link_path("", "x"), "x");
    assert_eq!(resolve_by_symlink("/dev/disk/by-label", "root", true), Ok("/dev/disk/by-label/root".to_string()));
    assert_eq!(
        resolve_by_symlink("/dev/disk/by-label", "root", false),
        Err("/dev/disk/by-label/root doesn't exist (no udev rules to populate it?) - pass root=/dev/... directly".to_string())
    );
}

#[test]
fn fstypes_skip_nodev_entries() {
    let text = "nodev\tsysfs\nnodev\tproc\n\text4\n\tvfat\nnodev\ttmpfs\n\tbtrfs\n";
    assert_eq!(candidate_fstypes(text), vec!["ext4".to_string(), "vfat".to_string(), "btrfs".to_string()]);
    assert!(candidate_fstypes("").is_empty());
}

#[test]
fn mount_points_from_the_mount_table() {
    let table = "sysfs /sys sysfs rw 0 0\nproc /proc proc rw 0 0\n";
    assert!(already_mounted(table, "/proc"));
    assert!(already_mounted(table, "/sys"));
    assert!(!already_mounted(table, "/dev"));
    assert!(!already_mounted(table, "proc"));
    assert!(!already_mounted("", "/"));
}

#[test]
fn an_explicit_rootfstype_is_the_only_type_tried() {
    let fs = "nodev\tsysfs\n\text4\n\tvfat\n";
    assert_eq!(fstypes_to_try(Some("btrfs"), fs), vec!["btrfs".to_string()]);
    assert_eq!(fstypes_to_try(None, fs), vec!["ext4".to_string(), "vfat".to_string()]);
    assert_eq!(fstypes_to_try(None, ""), Vec::<String>::new());
}

#[test]
fn cleanup_leaves_other_filesystems_alone() {
    assert_eq!(cleanup_action(1, 2, true), CleanupAction::Leave);
    assert_eq!(cleanup_action(1, 2, false), CleanupAction::Leave);
    assert_eq!(cleanup_action(1, 1, true), CleanupAction::RemoveTree);
    assert_eq!(cleanup_action(1, 1, false), CleanupAction::RemoveFile);
}
