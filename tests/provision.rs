use mcast::addr::{Endpoint, Ipv4};
use mcast::provision::{Provisioner, SocketError, SocketOp};

fn run(mut p: Provisioner, fail_at: Option<usize>) -> (Vec<SocketOp>, Result<(), SocketError>) {
    let mut ran = Vec::new();
    while let Some(op) = p.next_op() {
        let ok = fail_at != Some(ran.len());
        ran.push(op);
        p.record(ok);
    }
    (ran, p.outcome().unwrap())
}

#[test]
fn receive_plan_binds_then_joins_in_order() {
    let nic = Ipv4::new(192, 168, 3, 32);
    let groups = vec![Ipv4::new(231, 0, 3, 1), Ipv4::new(239, 9, 9, 9)];
    let (ran, outcome) = run(Provisioner::for_receive(4001, &groups, nic), None);
    assert_eq!(
        ran,
        vec![
            SocketOp::Open,
            SocketOp::ReuseAddress,
            SocketOp::ReusePort,
            SocketOp::Bind(Endpoint { ip: Ipv4::unspecified(), port: 4001 }),
            SocketOp::Join { group: groups[0], interface: nic },
            SocketOp::Join { group: groups[1], interface: nic },
        ]
    );
    assert_eq!(outcome, Ok(()));
}

#[test]
fn first_failed_join_stops_the_rest() {
    let nic = Ipv4::new(10, 0, 0, 1);
    let groups = vec![Ipv4::new(231, 0, 3, 1), Ipv4::new(231, 0, 3, 2), Ipv4::new(231, 0, 3, 3)];
    let (ran, outcome) = run(Provisioner::for_receive(5000, &groups, nic), Some(5));
    assert_eq!(ran.len(), 6);
    let failed = SocketOp::Join { group: groups[1], interface: nic };
    assert_eq!(ran[5], failed);
    assert_eq!(outcome, Err(SocketError { op: failed }));
    assert_eq!(
        outcome.unwrap_err().message(),
        b"could not join 231.0.3.2 on interface 10.0.0.1".to_vec()
    );
}

#[test]
fn failed_bind_names_endpoint() {
    let groups = vec![Ipv4::new(231, 0, 3, 1)];
    let (ran, outcome) = run(Provisioner::for_receive(4001, &groups, Ipv4::new(1, 2, 3, 4)), Some(3));
    assert_eq!(ran.len(), 4);
    let e = outcome.unwrap_err();
    assert_eq!(e.message(), b"could not bind on 0.0.0.0:4001".to_vec());
}

#[test]
fn send_plan_sets_hop_count_then_binds_interface() {
    let nic = Ipv4::new(192, 168, 1, 32);
    let (ran, outcome) = run(Provisioner::for_send(nic, 1), None);
    assert_eq!(
        ran,
        vec![
            SocketOp::Open,
            SocketOp::MulticastTtl(1),
            SocketOp::Bind(Endpoint { ip: nic, port: 0 }),
        ]
    );
    assert_eq!(outcome, Ok(()));
}

#[test]
fn failed_open_stops_at_once() {
    let (ran, outcome) = run(Provisioner::for_send(Ipv4::new(1, 1, 1, 1), 32), Some(0));
    assert_eq!(ran, vec![SocketOp::Open]);
    let e = outcome.unwrap_err();
    assert_eq!(e.op, SocketOp::Open);
    assert_eq!(e.message(), b"could not open socket".to_vec());
}

#[test]
fn failed_hop_count_message() {
    let (_, outcome) = run(Provisioner::for_send(Ipv4::new(1, 1, 1, 1), 255), Some(1));
    assert_eq!(outcome.unwrap_err().message(), b"could not set multicast hop count 255".to_vec());
}

#[test]
fn outcome_is_pending_until_done() {
    let mut p = Provisioner::for_send(Ipv4::new(1, 1, 1, 1), 1);
    assert_eq!(p.outcome(), None);
    p.record(true);
    assert_eq!(p.outcome(), None);
    assert_eq!(p.next_op(), Some(SocketOp::MulticastTtl(1)));
}

#[test]
fn multicast_range() {
    assert!(Ipv4::new(224, 0, 0, 1).is_multicast());
    assert!(Ipv4::new(239, 255, 255, 255).is_multicast());
    assert!(!Ipv4::new(223, 255, 255, 255).is_multicast());
    assert!(!Ipv4::new(240, 0, 0, 0).is_multicast());
    assert_eq!(Ipv4::new(1, 2, 3, 4).octets(), [1, 2, 3, 4]);
}
