use mitos_init::hotplug::{handle_event, parse_event, sent_by_kernel, uevent_action};

#[test]
fn parses_key_value_pairs_from_nul_separated_payload() {
    let raw = b"add@/devices/virtual/tty/tty1\0ACTION=add\0SUBSYSTEM=tty\0DEVNAME=tty1\0";
    let fields = parse_event(raw);
    assert_eq!(fields.get("ACTION").map(String::as_str), Some("add"));
    assert_eq!(fields.get("SUBSYSTEM").map(String::as_str), Some("tty"));
    assert_eq!(fields.get("DEVNAME").map(String::as_str), Some("tty1"));
}

#[test]
fn ignores_the_leading_summary_line() {
    // "add@/devices/foo" has no '=' so split_once finds nothing to insert.
    let raw = b"add@/devices/foo\0ACTION=add\0";
    let fields = parse_event(raw);
    assert_eq!(fields.len(), 1);
}

#[test]
fn invalid_utf8_pieces_are_skipped() {
    let raw = b"A=\xff\xfe\0B=ok\0C=caf\xc3\xa9";
    let fields = parse_event(raw);
    assert_eq!(fields.get("A"), None);
    assert_eq!(fields.get("B").map(String::as_str), Some("ok"));
    assert_eq!(fields.get("C").map(String::as_str), Some("caf\u{e9}"));
    assert_eq!(fields.len(), 2);
}

#[test]
fn values_keep_later_equals_signs_and_later_keys_win() {
    let fields = parse_event(b"K=a=b\0K=c\0E=");
    assert_eq!(fields.get("K").map(String::as_str), Some("c"));
    assert_eq!(fields.get("E").map(String::as_str), Some(""));
    assert_eq!(parse_event(b"").len(), 0);
}

#[test]
fn tty_and_input_devices_get_their_modes() {
    let fix = handle_event(b"add@/x\0ACTION=add\0SUBSYSTEM=tty\0DEVNAME=tty1\0").unwrap();
    assert_eq!(fix.devname, "tty1");
    assert_eq!(fix.mode, 0o620);
    let fix = handle_event(b"ACTION=add\0SUBSYSTEM=input\0DEVNAME=input/event3\0").unwrap();
    assert_eq!(fix.devname, "input/event3");
    assert_eq!(fix.mode, 0o660);
}

#[test]
fn other_events_change_nothing() {
    assert!(handle_event(b"ACTION=remove\0SUBSYSTEM=tty\0DEVNAME=tty1\0").is_none());
    assert!(handle_event(b"ACTION=add\0SUBSYSTEM=block\0DEVNAME=sda\0").is_none());
    assert!(handle_event(b"ACTION=add\0DEVNAME=tty1\0").is_none());
    assert!(handle_event(b"ACTION=add\0SUBSYSTEM=tty\0").is_none());
    assert!(handle_event(b"SUBSYSTEM=tty\0DEVNAME=tty1\0").is_none());
}

#[test]
fn devnames_outside_dev_are_rejected() {
    assert!(handle_event(b"ACTION=add\0SUBSYSTEM=tty\0DEVNAME=../etc/shadow\0").is_none());
    assert!(handle_event(b"ACTION=add\0SUBSYSTEM=tty\0DEVNAME=/etc/shadow\0").is_none());
    assert!(handle_event(b"ACTION=add\0SUBSYSTEM=tty\0DEVNAME=a..b\0").is_none());
    assert!(handle_event(b"ACTION=add\0SUBSYSTEM=tty\0DEVNAME=a.b\0").is_some());
}

#[test]
fn only_kernel_messages_are_acted_on() {
    let raw = b"add@/devices/tty\0ACTION=add\0SUBSYSTEM=tty\0DEVNAME=ttyS0\0";
    assert!(sent_by_kernel(Some(0)));
    assert!(!sent_by_kernel(Some(1234)));
    assert!(!sent_by_kernel(None));
    assert!(uevent_action(Some(1234), raw).is_none());
    assert!(uevent_action(None, raw).is_none());
    let fix = uevent_action(Some(0), raw).expect("a kernel tty addition is fixed up");
    let direct = handle_event(raw).unwrap();
    assert_eq!(fix.devname, direct.devname);
    assert_eq!(fix.mode, direct.mode);
}
