use mitos_init::notify::{datagram_marks_ready, ReadyState};

#[test]
fn ready_after_marking() {
    let mut s = ReadyState::new();
    assert!(!s.is_ready("getty"));
    s.mark_ready("getty");
    assert!(s.is_ready("getty"));
    assert!(!s.is_ready("sshd"));
    s.mark_ready("getty");
    assert!(s.is_ready("getty"));
}

#[test]
fn ready_datagrams() {
    assert!(datagram_marks_ready(b"READY=1"));
    assert!(datagram_marks_ready(b"STATUS=up\nREADY=1\n"));
    assert!(datagram_marks_ready(b"READY=1\r\nMAINPID=4"));
    assert!(!datagram_marks_ready(b"READY=0"));
    assert!(!datagram_marks_ready(b" READY=1"));
    assert!(!datagram_marks_ready(b"READY=1\r"));
    assert!(!datagram_marks_ready(b"READY=1\n\xff"));
    assert!(!datagram_marks_ready(b""));
}

#[test]
fn after_a_run_of_marks_exactly_the_marked_names_are_ready() {
    let mut s = ReadyState::new();
    for name in ["a", "b", "a", "c"] {
        s.mark_ready(name);
    }
    for name in ["a", "b", "c"] {
        assert!(s.is_ready(name));
    }
    assert!(!s.is_ready("d"));
    assert!(!s.is_ready(""));
}
