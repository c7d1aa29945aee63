use llrv::codec::{decode_line, decode_payload, encode_line, encode_payload, Line, Payload};

fn line(p: &str, v: &str) -> Line {
    Line::new(p.to_string(), v.to_string())
}

fn pairs(p: &Payload) -> Vec<(String, String)> {
    p.lines.iter().map(|l| (l.path.clone(), l.value.clone())).collect()
}

#[test]
fn line_encoding_is_exact() {
    let bytes = encode_line(&line("a", "bc"));
    assert_eq!(bytes, vec![0x0A, 1, b'a', 0x12, 2, b'b', b'c']);
}

#[test]
fn payload_encoding_is_exact() {
    let p = Payload::new(vec![line("a", "b")]);
    let bytes = encode_payload(&p);
    assert_eq!(bytes, vec![0x0A, 6, 0x0A, 1, b'a', 0x12, 1, b'b']);
}

#[test]
fn empty_payload_encodes_to_nothing() {
    let p = Payload::new(vec![]);
    assert!(encode_payload(&p).is_empty());
    let back = decode_payload(&[]).unwrap();
    assert!(back.lines.is_empty());
}

#[test]
fn payload_round_trip_keeps_order() {
    let p = Payload::new(vec![
        line("/a.log", "hello"),
        line("/b.log", ""),
        line("", "world"),
        line("/a.log", "héllo wörld ✓"),
    ]);
    let bytes = encode_payload(&p);
    let back = decode_payload(&bytes).unwrap();
    assert_eq!(pairs(&back), pairs(&p));
}

#[test]
fn long_values_use_multi_byte_lengths() {
    let long: String = std::iter::repeat('x').take(300).collect();
    let bytes = encode_line(&line("p", &long));
    assert_eq!(&bytes[..5], &[0x0A, 1, b'p', 0x12, 0xAC]);
    assert_eq!(bytes[5], 0x02);
    let back = decode_line(&bytes).unwrap();
    assert_eq!(back.value, long);
    let p = Payload::new(vec![line("p", &long), line("q", "r")]);
    let back = decode_payload(&encode_payload(&p)).unwrap();
    assert_eq!(pairs(&back), pairs(&p));
}

#[test]
fn omitted_fields_decode_as_empty() {
    let back = decode_line(&[0x12, 1, b'v']).unwrap();
    assert_eq!(back.path, "");
    assert_eq!(back.value, "v");
    let back = decode_line(&[]).unwrap();
    assert_eq!(back.path, "");
    assert_eq!(back.value, "");
}

#[test]
fn malformed_payloads_are_rejected() {
    assert!(decode_payload(&[0x0A]).is_none());
    assert!(decode_payload(&[0x0A, 5, 0x0A, 1]).is_none());
    assert!(decode_payload(&[0x22, 0]).is_none());
    assert!(decode_payload(&[0x0A, 3, 0x0A, 1, 0xFF]).is_none());
    assert!(decode_line(&[0x0A, 1, b'a', 0x0A, 1, b'b']).is_none());
}
