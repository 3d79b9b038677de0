use ferros::net::dns::{build_query, parse_answer, Answer};
use ferros::net::ping::{Ping, PingStats};
use ferros::net::resolve::{dhcp_gives_up, ResolveStep, Resolver};
use ferros::net::socket::{
    next_ephemeral_port, udp_bind, udp_recvfrom, udp_sendto, udp_socket, RecvStep,
};
use smoltcp::iface::{Config, Interface, SocketSet};
use smoltcp::phy::{Loopback, Medium};
use smoltcp::socket::{icmp, udp};
use smoltcp::time::Instant;
use smoltcp::wire::{EthernetAddress, HardwareAddress, IpAddress, IpCidr};

#[test]
fn query_layout_is_exact() {
    let mut out = [0xEEu8; 40];
    let n = build_query(0x1234, "a.bc", &mut out).unwrap();
    assert_eq!(
        &out[..n],
        &[
            0x12, 0x34, 0x01, 0x00, 0x00, 0x01, 0, 0, 0, 0, 0, 0, 1, b'a', 2, b'b', b'c', 0, 0, 1, 0, 1
        ]
    );
    assert_eq!(out[n], 0xEE);
}

#[test]
fn foreign_identifier_is_ignored() {
    assert_eq!(parse_answer(1, &[0u8; 12]), Answer::Ignore);
}

/// A reply to the query for "a.bc" with one record.
fn reply(id: u16, kind: u16, data: &[u8]) -> Vec<u8> {
    let mut m = id.to_be_bytes().to_vec();
    m.extend_from_slice(&[0x81, 0x80, 0, 1, 0, 1, 0, 0, 0, 0]);
    m.extend_from_slice(&[1, b'a', 2, b'b', b'c', 0, 0, 1, 0, 1]);
    m.extend_from_slice(&[0xC0, 0x0C]);
    m.extend_from_slice(&kind.to_be_bytes());
    m.extend_from_slice(&[0, 1, 0, 0, 0, 60]);
    m.extend_from_slice(&(data.len() as u16).to_be_bytes());
    m.extend_from_slice(data);
    m
}

#[test]
fn reply_to_a_query_is_found() {
    assert_eq!(parse_answer(7, &reply(7, 1, &[93, 184, 216, 34])), Answer::Ipv4([93, 184, 216, 34]));
    assert_eq!(parse_answer(7, &reply(7, 5, &[0])), Answer::NoIpv4);
    assert_eq!(parse_answer(8, &reply(7, 1, &[1, 2, 3, 4])), Answer::Ignore);
}

#[test]
fn names_that_cannot_be_sent() {
    let mut out = [0u8; 512];
    assert_eq!(build_query(1, "a..b", &mut out), None);
    assert_eq!(build_query(1, &"x".repeat(64), &mut out), None);
    assert_eq!(build_query(1, "", &mut out), None);
    assert_eq!(build_query(1, "example.com", &mut out[..20]), None);
}

#[test]
fn trailing_dot_is_the_same_name() {
    let mut a = [0u8; 64];
    let mut b = [0u8; 64];
    let n = build_query(3, "host.net", &mut a).unwrap();
    assert_eq!(build_query(3, "host.net.", &mut b), Some(n));
    assert_eq!(a, b);
}

// ---- datagrams ----

#[test]
fn ephemeral_ports_differ_and_wrap() {
    let mut counter = 0u16;
    assert_eq!(next_ephemeral_port(&mut counter), 49152);
    assert_eq!(next_ephemeral_port(&mut counter), 49153);
    let mut counter = 16384u16;
    assert_eq!(next_ephemeral_port(&mut counter), 49152);
    let mut counter = u16::MAX;
    assert_eq!(next_ephemeral_port(&mut counter), 65535);
    assert_eq!(counter, 0);
}

#[test]
fn sockets_are_bound_once() {
    let mut s = udp_socket();
    assert_eq!(udp_bind(&mut s, 0), Err(22));
    assert_eq!(udp_bind(&mut s, 4000), Ok(()));
    assert_eq!(udp_bind(&mut s, 4001), Err(22));
    assert_eq!(s.endpoint().port, 4000);
}

#[test]
fn sending_binds_and_has_room() {
    let mut s = udp_socket();
    let mut counter = 5u16;
    assert_eq!(udp_sendto(&mut s, &mut counter, b"hello", [10, 0, 2, 2], 7), Ok(5));
    assert_eq!((s.endpoint().port, counter), (49157, 6));
    assert_eq!(udp_sendto(&mut s, &mut counter, b"x", [10, 0, 2, 2], 0), Err(90));
    assert_eq!(udp_sendto(&mut s, &mut counter, b"x", [0, 0, 0, 0], 7), Err(90));
    assert_eq!(counter, 6);
    // Eight datagrams wait at most.
    for _ in 0..7 {
        assert_eq!(udp_sendto(&mut s, &mut counter, b"y", [10, 0, 2, 2], 7), Ok(1));
    }
    assert!(!s.can_send());
    assert_eq!(udp_sendto(&mut s, &mut counter, b"y", [10, 0, 2, 2], 7), Err(90));
}

#[test]
fn large_datagrams_have_no_room() {
    let mut s = udp_socket();
    let mut counter = 0u16;
    assert_eq!(udp_sendto(&mut s, &mut counter, &[0; 4097], [10, 0, 2, 2], 7), Err(90));
    assert_eq!(udp_sendto(&mut s, &mut counter, &[0; 4096], [10, 0, 2, 2], 7), Ok(4096));
}

#[test]
fn receiving_gives_up_in_the_end() {
    let mut s = udp_socket();
    assert!(matches!(udp_recvfrom(&mut s, 10, 0), RecvStep::Again(1)));
    assert!(matches!(udp_recvfrom(&mut s, 10, 49_999_999), RecvStep::Failed(11)));
}

// ---- two hosts on a wire ----

/// A host at the given address whose frames go through a loopback device.
struct Host {
    device: Loopback,
    iface: Interface,
    sockets: SocketSet<'static>,
}

fn host(ip: [u8; 4]) -> Host {
    let mut device = Loopback::new(Medium::Ethernet);
    let config = Config::new(HardwareAddress::Ethernet(EthernetAddress([2, 0, 0, 0, 0, 1])));
    let mut iface = Interface::new(config, &mut device, Instant::from_millis(0));
    iface.update_ip_addrs(|addrs| {
        addrs.push(IpCidr::new(IpAddress::v4(ip[0], ip[1], ip[2], ip[3]), 8)).unwrap();
    });
    Host { device, iface, sockets: SocketSet::new(Vec::new()) }
}

fn run(h: &mut Host) {
    for t in 0..10 {
        h.iface.poll(Instant::from_millis(t), &mut h.device, &mut h.sockets);
    }
}

#[test]
fn datagrams_come_in_cut_to_length() {
    let mut h = host([127, 0, 0, 1]);
    let mut receiver = udp_socket();
    assert_eq!(udp_bind(&mut receiver, 4000), Ok(()));
    let mut sender = udp_socket();
    let mut counter = 0u16;
    assert_eq!(udp_sendto(&mut sender, &mut counter, b"hello", [127, 0, 0, 1], 4000), Ok(5));
    assert_eq!(udp_sendto(&mut sender, &mut counter, b"again", [127, 0, 0, 1], 4000), Ok(5));
    let to = h.sockets.add(receiver);
    h.sockets.add(sender);
    run(&mut h);
    let s = h.sockets.get_mut::<udp::Socket>(to);
    match udp_recvfrom(s, 10, 0) {
        RecvStep::Got(data, ip, port) => {
            assert_eq!(data, b"hello");
            assert_eq!((ip, port), ([127, 0, 0, 1], 49152));
        },
        _ => panic!("nothing came"),
    }
    match udp_recvfrom(s, 2, 0) {
        RecvStep::Got(data, _, _) => assert_eq!(data, b"ag"),
        _ => panic!("nothing came"),
    }
}

#[test]
fn all_requests_are_answered() {
    let mut h = host([127, 0, 0, 1]);
    let mut ping = Ping::new(3);
    let handle = h.sockets.add(ping.socket().unwrap());
    ping.send_requests(h.sockets.get_mut::<icmp::Socket>(handle), [127, 0, 0, 1]);
    assert_eq!(ping.stats(), PingStats { sent: 3, received: 0 });
    assert!(!ping.is_over(0, 100) && ping.is_over(100, 100));
    for t in 0..30 {
        let now = Instant::from_millis(t);
        h.iface.poll_egress(now, &mut h.device, &mut h.sockets);
        h.iface.poll_ingress_single(now, &mut h.device, &mut h.sockets);
        ping.hear_all(h.sockets.get_mut::<icmp::Socket>(handle));
    }
    assert_eq!(ping.stats(), PingStats { sent: 3, received: 3 });
    assert!(ping.is_over(0, 100));
}

#[test]
fn requests_to_nowhere_are_not_sent() {
    let mut ping = Ping::new(0);
    let mut s = ping.socket().unwrap();
    ping.send_requests(&mut s, [0, 0, 0, 0]);
    assert_eq!(ping.stats(), PingStats { sent: 0, received: 0 });
    ping.send_requests(&mut s, [10, 0, 2, 2]);
    assert_eq!(ping.stats(), PingStats { sent: 1, received: 0 });
}

#[test]
fn requests_are_sent_as_far_as_there_is_room() {
    let one = Ping::new(2);
    let mut ping = Ping::new(5);
    let mut s = one.socket().unwrap();
    ping.send_requests(&mut s, [10, 0, 2, 2]);
    assert_eq!(ping.stats(), PingStats { sent: 2, received: 0 });
}

/// An echo reply with the number `seq` and a right checksum.
fn echo_reply(seq: u16) -> Vec<u8> {
    let mut p = vec![0, 0, 0, 0, 0x22, 0xb8, (seq >> 8) as u8, seq as u8];
    let sum = !(0x22b8u16 + seq);
    p[2] = (sum >> 8) as u8;
    p[3] = sum as u8;
    p
}

#[test]
fn reply_counts_once() {
    let mut ping = Ping::new(2);
    ping.hear(&echo_reply(1));
    ping.hear(&echo_reply(1));
    assert_eq!(ping.stats().received, 1);
    ping.hear(&echo_reply(2));
    assert_eq!(ping.stats().received, 1);
    ping.hear(&echo_reply(0));
    assert_eq!(ping.stats().received, 2);
}

#[test]
fn other_packets_do_not_count() {
    let mut ping = Ping::new(1);
    let mut bad = echo_reply(0);
    bad[2] ^= 1;
    ping.hear(&bad);
    let mut request = echo_reply(0);
    request[0] = 8;
    ping.hear(&request);
    ping.hear(&echo_reply(0)[..7]);
    assert_eq!(ping.stats().received, 0);
}

// ---- names ----

#[test]
fn names_are_asked_for_once() {
    let mut r = Resolver::new("a.bc", 0x5_1234).unwrap();
    assert_eq!(r.id, 0x1234);
    assert_eq!(&r.query[..2], &[0x12, 0x34]);
    let mut s = r.socket().unwrap();
    assert_eq!(s.endpoint().port, 49152);
    r.ask(&mut s, [0, 0, 0, 0]);
    assert!(!r.asked);
    r.ask(&mut s, [10, 0, 2, 3]);
    assert!(r.asked);
    assert!(matches!(r.listen(&mut s), ResolveStep::Waiting));
    assert!(Resolver::new("a..b", 0).is_none());
}

#[test]
fn foreign_messages_are_passed_over() {
    let mut h = host([127, 0, 0, 1]);
    let r = Resolver::new("a.bc", 7).unwrap();
    let handle = h.sockets.add(r.socket().unwrap());
    let mut server = udp_socket();
    let mut counter = 1u16;
    for msg in [reply(9, 1, &[9, 9, 9, 9]), b"noise".to_vec(), reply(7, 1, &[1, 2, 3, 4])] {
        assert!(udp_sendto(&mut server, &mut counter, &msg, [127, 0, 0, 1], 49152).is_ok());
    }
    h.sockets.add(server);
    run(&mut h);
    let s = h.sockets.get_mut::<udp::Socket>(handle);
    assert_eq!(r.listen(s), ResolveStep::Done(Some([1, 2, 3, 4])));
}

#[test]
fn waiting_for_an_address_ends() {
    assert!(!dhcp_gives_up(1, 2, 0));
    assert!(dhcp_gives_up(2, 2, 0));
    assert!(dhcp_gives_up(1, 2, 200_000_000));
}

#[test]
fn name_is_waited_for_until_the_deadline() {
    let r = Resolver::new("a.bc", 7).unwrap();
    assert!(!r.is_over(99, 100));
    assert!(r.is_over(100, 100));
}
