use mcast::addr::{Endpoint, Ipv4};
use mcast::params::{listen_params, parse_ipv4, parse_ipv4_groups, parse_port, send_params, Param};

fn contains(haystack: &[u8], needle: &str) -> bool {
    let n = needle.as_bytes();
    haystack.windows(n.len()).any(|w| w == n)
}

fn strings(items: &[&str]) -> Vec<String> {
    items.iter().map(|s| s.to_string()).collect()
}

#[test]
fn send_to_malformed_ipv4_group() {
    let e = send_params("192.168.3.32", "4001", "bad.ip.address").unwrap_err();
    assert_eq!(e.param, Param::Group);
    assert_eq!(e.text, "bad.ip.address");
    assert!(contains(&e.message(), "could not parse group address"));
}

#[test]
fn send_to_out_of_range_port() {
    let e = send_params("192.168.3.32", "65537", "231.0.3.1").unwrap_err();
    assert_eq!(e.param, Param::Port);
    assert!(contains(&e.message(), "could not parse port number"));
}

#[test]
fn send_to_malformed_ipv4_interface() {
    let e = send_params("192324.168.3.32", "4001", "231.0.3.1").unwrap_err();
    assert_eq!(e.param, Param::Nic);
    assert!(contains(&e.message(), "could not parse nic address"));
}

#[test]
fn listen_to_malformed_ipv4_group() {
    let e = listen_params("192.168.3.32", "4001", &strings(&["bad.ip.address"])).unwrap_err();
    assert_eq!(e.param, Param::Group);
    assert!(contains(&e.message(), "could not parse group address"));
}

#[test]
fn listen_to_out_of_range_port() {
    let e = listen_params("192.168.3.32", "65537", &strings(&["231.0.3.1"])).unwrap_err();
    assert_eq!(e.param, Param::Port);
    assert!(contains(&e.message(), "could not parse port number"));
}

#[test]
fn listen_to_malformed_ipv4_interface() {
    let e = listen_params("192324.168.3.32", "4001", &strings(&["231.0.3.1"])).unwrap_err();
    assert_eq!(e.param, Param::Nic);
    assert!(contains(&e.message(), "could not parse nic address"));
}

#[test]
fn message_is_phrase_then_text() {
    let e = send_params("1.2.3.4", "65537", "231.0.3.1").unwrap_err();
    assert_eq!(e.message(), b"could not parse port number 65537".to_vec());
}

#[test]
fn send_params_ok() {
    let p = send_params("192.168.3.32", "4001", "231.0.3.1").unwrap();
    assert_eq!(p.interface, Ipv4::new(192, 168, 3, 32));
    assert_eq!(p.destination, Endpoint { ip: Ipv4::new(231, 0, 3, 1), port: 4001 });
}

#[test]
fn send_params_checks_port_before_group() {
    let e = send_params("bad", "99999", "bad").unwrap_err();
    assert_eq!(e.param, Param::Port);
}

#[test]
fn listen_params_checks_nic_first() {
    let e = listen_params("bad", "99999", &strings(&["bad"])).unwrap_err();
    assert_eq!(e.param, Param::Nic);
}

#[test]
fn listen_params_ok_keeps_group_order() {
    let p = listen_params("10.0.0.2", "0", &strings(&["239.1.1.1", "224.0.0.251", "239.1.1.1"]))
        .unwrap();
    assert_eq!(p.interface, Ipv4::new(10, 0, 0, 2));
    assert_eq!(p.port, 0);
    assert_eq!(
        p.groups,
        vec![Ipv4::new(239, 1, 1, 1), Ipv4::new(224, 0, 0, 251), Ipv4::new(239, 1, 1, 1)]
    );
}

#[test]
fn groups_fail_on_first_bad_one() {
    let e = parse_ipv4_groups(&strings(&["239.1.1.1", "x.1", "also.bad"])).unwrap_err();
    assert_eq!(e.param, Param::Group);
    assert_eq!(e.text, "x.1");
}

#[test]
fn port_texts() {
    assert_eq!(parse_port("0"), Some(0));
    assert_eq!(parse_port("4001"), Some(4001));
    assert_eq!(parse_port("65535"), Some(65535));
    assert_eq!(parse_port("+80"), Some(80));
    assert_eq!(parse_port("007"), Some(7));
    assert_eq!(parse_port("65536"), None);
    assert_eq!(parse_port("65537"), None);
    assert_eq!(parse_port("99999999999999999999"), None);
    assert_eq!(parse_port(""), None);
    assert_eq!(parse_port("+"), None);
    assert_eq!(parse_port("-1"), None);
    assert_eq!(parse_port("12a"), None);
    assert_eq!(parse_port(" 1"), None);
}

#[test]
fn port_texts_agree_with_std() {
    for t in ["0", "1", "65535", "65536", "+5", "++5", "-0", "", "1 ", "0065535", "070000"] {
        assert_eq!(parse_port(t), t.parse::<u16>().ok(), "{}", t);
    }
}

#[test]
fn ipv4_texts() {
    assert_eq!(parse_ipv4("192.168.3.32"), Some(Ipv4::new(192, 168, 3, 32)));
    assert_eq!(parse_ipv4("0.0.0.0"), Some(Ipv4::new(0, 0, 0, 0)));
    assert_eq!(parse_ipv4("255.255.255.255"), Some(Ipv4::new(255, 255, 255, 255)));
    assert_eq!(parse_ipv4("256.0.0.1"), None);
    assert_eq!(parse_ipv4("01.2.3.4"), None);
    assert_eq!(parse_ipv4("1.2.3"), None);
    assert_eq!(parse_ipv4("1.2.3.4.5"), None);
    assert_eq!(parse_ipv4("1..3.4"), None);
    assert_eq!(parse_ipv4("1.2.3.4."), None);
    assert_eq!(parse_ipv4("1.2.3.+4"), None);
    assert_eq!(parse_ipv4("1000.2.3.4"), None);
    assert_eq!(parse_ipv4("bad.ip.address"), None);
    assert_eq!(parse_ipv4(""), None);
    assert_eq!(parse_ipv4("00.0.0.0"), None);
    assert_eq!(parse_ipv4(".1.2.3"), None);
    assert_eq!(parse_ipv4("1.2.3.4 "), None);
    assert_eq!(parse_ipv4("192324.168.3.32"), None);
}
