use mitos_init::config::RestartPolicy;
use mitos_init::units::parse_unit;

#[test]
fn parses_a_minimal_unit() {
    let text = "[Service]\nExecStart=/bin/mitos-shell\n";
    let svc = parse_unit("mitos-shell.service", text).unwrap();
    assert_eq!(svc.name, "mitos-shell");
    assert_eq!(svc.path, "/bin/mitos-shell");
    assert!(svc.args.is_empty());
    assert_eq!(svc.restart, RestartPolicy::Never);
    assert!(!svc.critical);
}

#[test]
fn parses_args_restart_critical_and_memory_max() {
    let text = "[Unit]\nDescription=test\n\n[Service]\nExecStart=/usr/bin/foo --flag bar\nRestart=always\nX-Critical=true\nMemoryMax=128M\n";
    let svc = parse_unit("foo.service", text).unwrap();
    assert_eq!(svc.path, "/usr/bin/foo");
    assert_eq!(svc.args, vec!["--flag".to_string(), "bar".to_string()]);
    assert_eq!(svc.restart, RestartPolicy::Always);
    assert!(svc.critical);
    assert_eq!(svc.memory_limit, Some(128 * 1024 * 1024));
}

#[test]
fn ignores_keys_outside_the_service_section() {
    let text = "[Unit]\nExecStart=/should/be/ignored\n\n[Service]\nExecStart=/real/path\n";
    let svc = parse_unit("x.service", text).unwrap();
    assert_eq!(svc.path, "/real/path");
}

#[test]
fn rejects_a_unit_with_no_execstart() {
    let text = "[Service]\nRestart=always\n";
    assert!(parse_unit("x.service", text).is_err());
}

#[test]
fn unit_errors_name_their_cause() {
    assert_eq!(parse_unit("x.service", "[Service]\n").err(), Some("missing ExecStart= in [Service]".to_string()));
    assert_eq!(parse_unit("x.service", "[Service]\nExecStart=   \n").err(), Some("empty ExecStart=".to_string()));
    assert_eq!(parse_unit("/", "[Service]\nExecStart=/bin/a\n").err(), Some("unreadable filename".to_string()));
    assert_eq!(parse_unit("./", "[Service]\nExecStart=/bin/a\n").err(), Some("unreadable filename".to_string()));
    assert_eq!(parse_unit("..", "[Service]\nExecStart=/bin/a\n").err(), Some("unreadable filename".to_string()));
}

#[test]
fn the_name_is_the_file_stem() {
    let text = "[Service]\nExecStart=/bin/a\n";
    assert_eq!(parse_unit("/etc/mitos/services.d/getty.service", text).unwrap().name, "getty");
    assert_eq!(parse_unit("a.b.service", text).unwrap().name, "a.b");
    assert_eq!(parse_unit(".hidden", text).unwrap().name, ".hidden");
    assert_eq!(parse_unit("plain", text).unwrap().name, "plain");
    assert_eq!(parse_unit("dir/", text).unwrap().name, "dir");
    assert_eq!(parse_unit("x.service/", text).unwrap().name, "x");
    assert_eq!(parse_unit("x.service/.", text).unwrap().name, "x");
    assert_eq!(parse_unit("a/x.service//./", text).unwrap().name, "x");
}

#[test]
fn restart_values_and_critical_spellings() {
    let unit = |body: &str| parse_unit("s.service", &format!("[Service]\nExecStart=/bin/s\n{body}\n")).unwrap();
    assert_eq!(unit("Restart=no").restart, RestartPolicy::Never);
    assert_eq!(unit("Restart=always").restart, RestartPolicy::Always);
    assert_eq!(unit("Restart=on-failure").restart, RestartPolicy::OnFailure);
    assert_eq!(unit("Restart=sometimes").restart, RestartPolicy::OnFailure);
    assert!(unit("X-Critical=TRUE").critical);
    assert!(unit("X-Critical = True ").critical);
    assert!(!unit("X-Critical=yes").critical);
    assert_eq!(unit("MemoryMax=2G").memory_limit, Some(2 * 1024 * 1024 * 1024));
    assert_eq!(unit("MemoryMax=4096").memory_limit, Some(4096));
    assert_eq!(unit("MemoryMax=lots").memory_limit, None);
}

#[test]
fn comments_crlf_and_later_settings() {
    let text = "# comment\r\n; other\r\n[Service]\r\nExecStart=/bin/old\r\n  ExecStart = /bin/new  -x  \r\nUnknown=1\r\nnoequals\r\n";
    let svc = parse_unit("c.service", text).unwrap();
    assert_eq!(svc.path, "/bin/new");
    assert_eq!(svc.args, vec!["-x".to_string()]);
    let text = "[Service]\nExecStart=/bin/a\n[Install]\nExecStart=/bin/b\n";
    assert_eq!(parse_unit("d.service", text).unwrap().path, "/bin/a");
}

#[test]
fn unit_files_are_the_sorted_service_files() {
    let names: Vec<String> = ["b.service", "README", "a.service", ".service", "c.service.bak", "a.b.service", "Z.service"]
        .iter()
        .map(|s| s.to_string())
        .collect();
    assert_eq!(
        mitos_init::units::unit_files(&names),
        vec!["Z.service".to_string(), "a.b.service".to_string(), "a.service".to_string(), "b.service".to_string()]
    );
    assert!(mitos_init::units::unit_files(&[]).is_empty());
}

#[test]
fn ignored_lines_can_be_inserted_anywhere() {
    let base = "[Service]\nExecStart=/bin/a -x\nRestart=always\n";
    let with = "# note\n[Service]\n\nExecStart=/bin/a -x\nUser=nobody\nno equals sign\n; other\nRestart=always\n";
    let a = parse_unit("a.service", base).unwrap();
    let b = parse_unit("a.service", with).unwrap();
    assert_eq!((a.name, a.path, a.args, a.critical, a.restart, a.memory_limit), (b.name, b.path, b.args, b.critical, b.restart, b.memory_limit));
}
