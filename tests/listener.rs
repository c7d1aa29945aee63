use llrv::codec::{encode_payload, Line, Payload};
use llrv::framing::frame;
use llrv::ledger::{Ledger, Violation};
use llrv::listener::{ConnectionEnd, FrameVerdict};

fn payload(lines: &[(&str, &str)]) -> Payload {
    Payload::new(lines.iter().map(|(p, v)| Line::new(p.to_string(), v.to_string())).collect())
}

fn wire(p: &Payload) -> Vec<u8> {
    frame(&encode_payload(p)).unwrap()
}

#[test]
fn overlong_length_prefix_closes_without_violation() {
    let mut l = Ledger::new();
    l.record(&"/a.log".to_string(), "hello".to_string());
    let mut w = wire(&payload(&[("/a.log", "hello")]));
    w[3] += 5;
    match l.serve_bytes(&w) {
        ConnectionEnd::Closed { frames } => assert_eq!(frames, 0),
        ConnectionEnd::Violated { .. } => panic!("no violation expected"),
    }
    assert_eq!(l.pending_len(&"/a.log".to_string()), 1);
}

#[test]
fn frames_in_order_are_verified() {
    let mut l = Ledger::new();
    l.record(&"/a.log".to_string(), "hello".to_string());
    l.record(&"/a.log".to_string(), "world".to_string());
    l.record(&"/b.log".to_string(), "x".to_string());
    let mut w = wire(&payload(&[("/a.log", "hello"), ("/b.log", "x")]));
    w.extend(wire(&payload(&[("/a.log", "world")])));
    match l.serve_bytes(&w) {
        ConnectionEnd::Closed { frames } => assert_eq!(frames, 2),
        ConnectionEnd::Violated { .. } => panic!("no violation expected"),
    }
    assert_eq!(l.pending_len(&"/a.log".to_string()), 0);
    assert_eq!(l.pending_len(&"/b.log".to_string()), 0);
}

#[test]
fn reordered_report_over_the_wire_is_violation() {
    let mut l = Ledger::new();
    l.record(&"/a.log".to_string(), "hello".to_string());
    l.record(&"/a.log".to_string(), "world".to_string());
    let w = wire(&payload(&[("/a.log", "world"), ("/a.log", "hello")]));
    match l.serve_bytes(&w) {
        ConnectionEnd::Violated { frame, line, violation } => {
            assert_eq!(frame, 0);
            assert_eq!(line, 0);
            match violation {
                Violation::OrderingOrContentViolation { expected, got, .. } => {
                    assert_eq!(expected, "hello");
                    assert_eq!(got, "world");
                }
                _ => panic!("expected a content violation"),
            }
        }
        ConnectionEnd::Closed { .. } => panic!("expected a violation"),
    }
}

#[test]
fn malformed_body_is_dropped_without_side_effects() {
    let mut l = Ledger::new();
    l.record(&"/a.log".to_string(), "hello".to_string());
    match l.check_frame_body(&[0x0A, 9, 1]) {
        FrameVerdict::Malformed => {}
        _ => panic!("expected a malformed body"),
    }
    assert_eq!(l.pending_len(&"/a.log".to_string()), 1);
}

#[test]
fn frame_body_reports_unexpected_line_index() {
    let mut l = Ledger::new();
    l.record(&"/a.log".to_string(), "hello".to_string());
    let body = encode_payload(&payload(&[("/a.log", "hello"), ("/never-written.log", "z")]));
    match l.check_frame_body(&body) {
        FrameVerdict::Violated { line, violation } => {
            assert_eq!(line, 1);
            assert!(matches!(violation, Violation::UnexpectedDelivery { .. }));
        }
        _ => panic!("expected a violation"),
    }
    let body = encode_payload(&payload(&[]));
    assert!(matches!(l.check_frame_body(&body), FrameVerdict::Verified { lines: 0 }));
}
