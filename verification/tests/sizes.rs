use mitos_init::cgroups::parse_size;

#[test]
fn sizes_with_suffixes() {
    assert_eq!(parse_size("128M"), Some(128 * 1024 * 1024));
    assert_eq!(parse_size("1k"), Some(1024));
    assert_eq!(parse_size("3g"), Some(3 * 1024 * 1024 * 1024));
    assert_eq!(parse_size("1T"), Some(1024u64.pow(4)));
    assert_eq!(parse_size(" 42 "), Some(42));
    assert_eq!(parse_size("+7"), Some(7));
}

#[test]
fn sizes_that_do_not_parse() {
    assert_eq!(parse_size(""), None);
    assert_eq!(parse_size("M"), None);
    assert_eq!(parse_size("-1"), None);
    assert_eq!(parse_size("12X"), None);
    assert_eq!(parse_size("1 M"), None);
    assert_eq!(parse_size("18446744073709551616"), None);
    assert_eq!(parse_size("18446744073709551615"), Some(u64::MAX));
    assert_eq!(parse_size("17179869184G"), None);
}
