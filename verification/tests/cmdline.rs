use mitos_init::cmdline::{parse, parse_str, rescue_requested};

#[test]
fn parses_bare_and_valued_tokens() {
    let map = parse_str("root=/dev/sda1 quiet splash");
    assert_eq!(map.get("root"), Some(&Some("/dev/sda1".to_string())));
    assert_eq!(map.get("quiet"), Some(&None));
    assert_eq!(map.get("splash"), Some(&None));
}

#[test]
fn keeps_only_the_first_equals_sign() {
    let map = parse_str("root=UUID=1234-5678 rootfstype=ext4");
    assert_eq!(map.get("root"), Some(&Some("UUID=1234-5678".to_string())));
    assert_eq!(map.get("rootfstype"), Some(&Some("ext4".to_string())));
}

#[test]
fn strips_quotes_from_quoted_values() {
    let map = parse_str(r#"foo="bar baz" quiet"#);
    assert_eq!(map.get("foo"), Some(&Some("bar baz".to_string())));
}

#[test]
fn ignores_extra_whitespace() {
    let map = parse_str("  root=/dev/sda1   quiet  ");
    assert_eq!(map.get("root"), Some(&Some("/dev/sda1".to_string())));
    assert_eq!(map.get("quiet"), Some(&None));
    assert_eq!(map.len(), 2);
}

#[test]
fn recognizes_rescue_triggers() {
    assert!(rescue_requested(&parse_str("root=/dev/sda1 single")));
    assert!(rescue_requested(&parse_str("root=/dev/sda1 mitos.rescue")));
    assert!(!rescue_requested(&parse_str("root=/dev/sda1 quiet")));
}

#[test]
fn a_later_token_replaces_an_earlier_one() {
    let map = parse_str("quiet=1 debug quiet");
    assert_eq!(map.get("quiet"), Some(&None));
    assert_eq!(map.get("debug"), Some(&None));
    assert_eq!(map.len(), 2);
}

#[test]
fn quoted_spaces_stay_in_the_token() {
    let map = parse_str(r#"a="x y z" b"#);
    assert_eq!(map.get("a"), Some(&Some("x y z".to_string())));
    assert_eq!(map.get("b"), Some(&None));
    assert_eq!(map.get("y"), None);
}

#[test]
fn an_unterminated_quote_runs_to_the_end() {
    let map = parse_str(r#"a="x y b"#);
    assert_eq!(map.get("a"), Some(&Some("x y b".to_string())));
    assert_eq!(map.len(), 1);
}

#[test]
fn an_empty_line_has_no_tokens() {
    assert_eq!(parse_str("").len(), 0);
    assert_eq!(parse_str("    ").len(), 0);
    assert!(!rescue_requested(&parse_str("")));
}

#[test]
fn empty_key_and_empty_value() {
    let map = parse_str("=v k=");
    assert_eq!(map.get(""), Some(&Some("v".to_string())));
    assert_eq!(map.get("k"), Some(&Some(String::new())));
}

#[test]
fn proc_cmdline_contents_are_trimmed_first() {
    let map = parse("BOOT_IMAGE=/vmlinuz root=/dev/vda1 single\n");
    assert_eq!(map.get("root"), Some(&Some("/dev/vda1".to_string())));
    assert_eq!(map.get("single"), Some(&None));
    assert_eq!(map.len(), 3);
    assert!(rescue_requested(&map));
    // a newline inside the line is no separator
    let raw = parse_str("a b\n");
    assert_eq!(raw.get("b\n"), Some(&None));
}

#[test]
fn rescue_with_a_value_still_counts() {
    assert!(rescue_requested(&parse_str("mitos.rescue=1")));
    assert!(!rescue_requested(&parse_str("singleuser")));
}

#[test]
fn a_joined_command_line_lets_the_later_part_override() {
    let first = "root=/dev/sda1 quiet mode=\"a b\"";
    let second = "root=/dev/vda1 single";
    let joined = parse_str(&format!("{first} {second}"));
    let a = parse_str(first);
    let b = parse_str(second);
    assert_eq!(joined.get("root"), b.get("root"));
    assert_eq!(joined.get("quiet"), a.get("quiet"));
    assert_eq!(joined.get("mode"), a.get("mode"));
    assert_eq!(joined.get("single"), b.get("single"));
    assert_eq!(joined.len(), 4);
}

#[test]
fn rescue_tokens_are_whole_keys() {
    assert!(rescue_requested(&parse_str("quiet single")));
    assert!(rescue_requested(&parse_str("single=1")));
    assert!(rescue_requested(&parse_str("mitos.rescue=yes ro")));
    assert!(!rescue_requested(&parse_str("singleuser rescue")));
    assert!(!rescue_requested(&parse_str("mitos.rescued x=single")));
}
