use mcast::addr::{Endpoint, Ipv4};
use mcast::base64_lines::{encode_wrapped, write_base64, LINE_CHUNK};
use mcast::receive::{render_datagram, ReceiveOptions};
use mcast::send::{on_read, SendAction, SEND_BUFFER_LEN};

fn lines_of(payload: &[u8]) -> Vec<String> {
    encode_wrapped(payload).into_iter().map(|l| String::from_utf8(l).unwrap()).collect()
}

fn payload(n: usize) -> Vec<u8> {
    (0..n).map(|i| (i * 7 + 3) as u8).collect()
}

#[test]
fn wrapped_short_payload_is_one_line() {
    assert_eq!(lines_of(b"hello"), vec!["aGVsbG8=".to_string()]);
    assert_eq!(lines_of(b"hi"), vec!["aGk=".to_string()]);
    assert_eq!(lines_of(b"abc"), vec!["YWJj".to_string()]);
}

#[test]
fn wrapped_empty_payload_is_one_empty_line() {
    assert_eq!(lines_of(b""), vec![String::new()]);
}

#[test]
fn wrapped_multiple_of_chunk_ends_with_empty_line() {
    for k in 1..4 {
        let lines = lines_of(&payload(LINE_CHUNK * k));
        assert_eq!(lines.len(), k + 1);
        assert_eq!(lines[k], "");
        for line in &lines[..k] {
            assert_eq!(line.len(), 64);
        }
    }
}

#[test]
fn wrapped_remainder_is_last_line() {
    let p = payload(LINE_CHUNK * 2 + 5);
    let lines = lines_of(&p);
    assert_eq!(lines.len(), 3);
    assert!(!lines[2].is_empty());
    assert_eq!(base64::decode(&lines[2]).unwrap(), p[LINE_CHUNK * 2..].to_vec());
}

#[test]
fn wrapped_lines_decode_to_payload() {
    for n in [0usize, 1, 2, 3, 47, 48, 49, 95, 96, 97, 200, 1000] {
        let p = payload(n);
        let mut back: Vec<u8> = Vec::new();
        for line in lines_of(&p) {
            back.extend(base64::decode(&line).unwrap());
        }
        assert_eq!(back, p, "length {}", n);
    }
}

#[test]
fn wrapped_chunk_encodes_known_value() {
    let p: Vec<u8> = b"Many hands make light work. Many hands make light work!!".to_vec();
    let lines = lines_of(&p);
    assert_eq!(lines.len(), 2);
    assert_eq!(
        lines[0],
        "TWFueSBoYW5kcyBtYWtlIGxpZ2h0IHdvcmsuIE1hbnkgaGFuZHMgbWFrZSBsaWdo"
    );
    assert_eq!(lines[1], "dCB3b3JrISE=");
}

#[test]
fn write_base64_terminates_every_line() {
    let mut out = b">".to_vec();
    write_base64(&mut out, &payload(48));
    let text = String::from_utf8(out).unwrap();
    assert!(text.starts_with('>'));
    assert!(text.ends_with("\n\n"));
    assert_eq!(text.matches('\n').count(), 2);
    assert_eq!(text.len(), 1 + 64 + 1 + 1);
}

fn src() -> Endpoint {
    Endpoint { ip: Ipv4::new(10, 0, 0, 17), port: 40123 }
}

#[test]
fn raw_payload_is_written_unchanged() {
    let mut out = Vec::new();
    let buf = b"hello\nworld-and-more";
    render_datagram(&mut out, buf, 12, src(), ReceiveOptions { print_source: false, base64: false });
    assert_eq!(out, b"hello\nworld-".to_vec());
}

#[test]
fn source_line_comes_before_payload() {
    let mut out = Vec::new();
    render_datagram(&mut out, b"hi", 2, src(), ReceiveOptions { print_source: true, base64: false });
    assert_eq!(out, b"### from /10.0.0.17:40123\nhi".to_vec());
}

#[test]
fn source_line_before_every_datagram_in_order() {
    let opts = ReceiveOptions { print_source: true, base64: false };
    let a = Endpoint { ip: Ipv4::new(192, 168, 0, 1), port: 5 };
    let b = Endpoint { ip: Ipv4::new(1, 2, 3, 4), port: 65535 };
    let mut out = Vec::new();
    render_datagram(&mut out, b"one", 3, a, opts);
    render_datagram(&mut out, b"two", 3, b, opts);
    render_datagram(&mut out, b"", 0, a, opts);
    assert_eq!(
        String::from_utf8(out).unwrap(),
        "### from /192.168.0.1:5\none### from /1.2.3.4:65535\ntwo### from /192.168.0.1:5\n"
    );
}

#[test]
fn base64_payload_with_source() {
    let mut out = Vec::new();
    render_datagram(&mut out, b"hello", 5, src(), ReceiveOptions { print_source: true, base64: true });
    assert_eq!(out, b"### from /10.0.0.17:40123\naGVsbG8=\n".to_vec());
}

#[test]
fn base64_empty_datagram_is_one_empty_line() {
    let mut out = Vec::new();
    render_datagram(&mut out, b"", 0, src(), ReceiveOptions { print_source: false, base64: true });
    assert_eq!(out, b"\n".to_vec());
}

#[test]
fn read_of_hello_is_one_datagram() {
    let input = b"hello\n";
    let mut datagrams: Vec<usize> = Vec::new();
    for n in [input.len(), 0] {
        match on_read(n) {
            SendAction::Send { len } => datagrams.push(len),
            SendAction::Finish => break,
        }
    }
    assert_eq!(datagrams, vec![6]);
}

#[test]
fn empty_read_finishes() {
    assert_eq!(on_read(0), SendAction::Finish);
    assert_eq!(on_read(1), SendAction::Send { len: 1 });
    assert_eq!(on_read(SEND_BUFFER_LEN), SendAction::Send { len: SEND_BUFFER_LEN });
}
