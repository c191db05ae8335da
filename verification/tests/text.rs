use mitos_init::text::push_int;

#[test]
fn integers_format_as_display_does() {
    for i in [0i64, 7, -7, 1234, -1234, i64::MAX, i64::MIN] {
        let mut s = String::from("x=");
        push_int(&mut s, i);
        assert_eq!(s, format!("x={i}"));
    }
}
