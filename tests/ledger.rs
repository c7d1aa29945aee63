use llrv::ledger::{Ledger, Violation};

fn s(t: &str) -> String {
    t.to_string()
}

#[test]
fn in_order_reports_pass() {
    let mut l = Ledger::new();
    let p = s("/a.log");
    l.record(&p, s("hello"));
    l.record(&p, s("world"));
    assert!(l.verify(&p, s("hello")).is_ok());
    assert!(l.verify(&p, s("world")).is_ok());
    assert_eq!(l.pending_len(&p), 0);
}

#[test]
fn many_in_order_reports_pass() {
    let mut l = Ledger::new();
    let p = s("/b.log");
    for i in 0..50 {
        l.record(&p, format!("line {}", i));
    }
    assert_eq!(l.pending_len(&p), 50);
    for i in 0..50 {
        assert!(l.verify(&p, format!("line {}", i)).is_ok());
    }
    assert_eq!(l.pending_len(&p), 0);
}

#[test]
fn out_of_order_reports_fail_as_mismatch() {
    let mut l = Ledger::new();
    let p = s("/a.log");
    l.record(&p, s("hello"));
    l.record(&p, s("world"));
    match l.verify(&p, s("world")) {
        Err(Violation::OrderingOrContentViolation { path, expected, got }) => {
            assert_eq!(path, "/a.log");
            assert_eq!(expected, "hello");
            assert_eq!(got, "world");
        }
        _ => panic!("expected a content violation"),
    }
    match l.verify(&p, s("hello")) {
        Err(Violation::OrderingOrContentViolation { path, expected, got }) => {
            assert_eq!(path, "/a.log");
            assert_eq!(expected, "world");
            assert_eq!(got, "hello");
        }
        _ => panic!("expected a content violation"),
    }
}

#[test]
fn never_written_path_is_unexpected() {
    let mut l = Ledger::new();
    l.record(&s("/other.log"), s("x"));
    match l.verify(&s("/never-written.log"), s("anything")) {
        Err(Violation::UnexpectedDelivery { path, got }) => {
            assert_eq!(path, "/never-written.log");
            assert_eq!(got, "anything");
        }
        _ => panic!("expected an unexpected delivery"),
    }
    assert_eq!(l.pending_len(&s("/other.log")), 1);
}

#[test]
fn drained_queue_is_unexpected() {
    let mut l = Ledger::new();
    let p = s("/a.log");
    l.record(&p, s("x"));
    assert!(l.verify(&p, s("x")).is_ok());
    match l.verify(&p, s("x")) {
        Err(Violation::UnexpectedDelivery { path, got }) => {
            assert_eq!(path, "/a.log");
            assert_eq!(got, "x");
        }
        _ => panic!("expected an unexpected delivery"),
    }
}

#[test]
fn paths_have_independent_queues() {
    let mut l = Ledger::new();
    l.record(&s("/a.log"), s("a1"));
    l.record(&s("/b.log"), s("b1"));
    l.record(&s("/a.log"), s("a2"));
    assert!(l.verify(&s("/b.log"), s("b1")).is_ok());
    assert!(l.verify(&s("/a.log"), s("a1")).is_ok());
    assert!(l.verify(&s("/a.log"), s("a2")).is_ok());
    assert_eq!(l.pending_len(&s("/a.log")), 0);
    assert_eq!(l.pending_len(&s("/b.log")), 0);
}

#[test]
fn mismatch_still_pops_the_head() {
    let mut l = Ledger::new();
    let p = s("/a.log");
    l.record(&p, s("one"));
    l.record(&p, s("two"));
    assert!(l.verify(&p, s("bogus")).is_err());
    assert_eq!(l.pending_len(&p), 1);
    assert!(l.verify(&p, s("two")).is_ok());
}
