//! Datagram sockets. A socket of the protocol stack is bound to a port and holds datagrams that
//! have come in and datagrams that wait to be sent.

use crate::syscall::abi;
use crate::util;
use smoltcp::socket::udp;
use vstd::prelude::*;

verus! {

/// How often a receiving call looks for a datagram before it gives up.
pub const RECV_MAX_SPINS: u64 = 50_000_000;

/// Lowest port that is given to sockets that were not bound.
pub const EPHEMERAL_BASE: u16 = 49152;

/// Number of such ports.
pub const EPHEMERAL_SPAN: u16 = 16384;

/// Most datagrams that wait in a socket, in each direction.
pub const SOCK_META: usize = 8;

/// Most bytes that wait in a socket, in each direction.
pub const SOCK_PAYLOAD: usize = 4096;

/// A datagram: its bytes, and address and port of the other side.
pub type Datagram = (Seq<u8>, Seq<u8>, u16);

/// The datagram socket of the protocol stack.
#[verifier::external_type_specification]
#[verifier::external_body]
pub struct ExUdpSocket<'a>(udp::Socket<'a>);

/// The port that a socket is bound to, 0 for none.
pub uninterp spec fn udp_port(s: udp::Socket<'static>) -> u16;

/// The datagrams that have come in and were not taken yet, in the order in which they came.
pub uninterp spec fn udp_inbox(s: udp::Socket<'static>) -> Seq<Datagram>;

/// The datagrams that wait to be sent.
pub uninterp spec fn udp_outbox(s: udp::Socket<'static>) -> Seq<Datagram>;

/// How many datagrams more a socket has room for among those to be sent.
pub uninterp spec fn udp_slots(s: udp::Socket<'static>) -> nat;

/// How many bytes one datagram among those to be sent certainly has room for: those up to the end
/// of the ring in which they wait, or the whole ring where it is empty.
pub uninterp spec fn udp_space(s: udp::Socket<'static>) -> nat;

/// Whether a datagram can be sent: the socket is bound, address and port of the other side are not
/// 0, and there certainly is room.
pub open spec fn sendable(
    s: udp::Socket<'static>,
    data: Seq<u8>,
    ip: Seq<u8>,
    port: u16,
) -> bool {
    &&& udp_port(s) != 0
    &&& fits(s, data, ip, port)
}

/// The same of a socket that is yet to be bound.
pub open spec fn fits(s: udp::Socket<'static>, data: Seq<u8>, ip: Seq<u8>, port: u16) -> bool {
    &&& port != 0
    &&& ip != seq![0u8, 0, 0, 0]
    &&& udp_slots(s) > 0
    &&& data.len() <= udp_space(s)
}

/// A new socket. Calls `smoltcp::socket::udp::Socket::new` with two buffers of
/// `smoltcp::storage::PacketBuffer::new`, for `meta` datagrams and `payload` bytes each: it is not
/// bound, nothing waits in it, and all of its room is left.
#[verifier::external_body]
pub(crate) fn new_socket(meta: usize, payload: usize) -> (s: udp::Socket<'static>)
    requires
        payload <= isize::MAX,
        meta * 64 <= isize::MAX,
    ensures
        udp_port(s) == 0,
        udp_inbox(s) == Seq::<Datagram>::empty(),
        udp_outbox(s) == Seq::<Datagram>::empty(),
        udp_slots(s) == meta,
        udp_space(s) == payload,
{
    let rx = udp::PacketBuffer::new(vec![udp::PacketMetadata::EMPTY; meta], vec![0u8; payload]);
    let tx = udp::PacketBuffer::new(vec![udp::PacketMetadata::EMPTY; meta], vec![0u8; payload]);
    udp::Socket::new(rx, tx)
}

/// The port that a socket is bound to. Calls `smoltcp::socket::udp::Socket::endpoint`.
#[verifier::external_body]
fn local_port(s: &udp::Socket<'static>) -> (port: u16)
    ensures
        port == udp_port(*s),
{
    s.endpoint().port
}

/// Binds a socket. Calls `smoltcp::socket::udp::Socket::bind`, which succeeds exactly where the
/// port is not 0 and the socket is not bound; else nothing changes.
#[verifier::external_body]
pub(crate) fn bind_socket(s: &mut udp::Socket<'static>, port: u16) -> (ok: bool)
    ensures
        ok == (port != 0 && udp_port(*old(s)) == 0),
        udp_port(*final(s)) == (if ok {
            port
        } else {
            udp_port(*old(s))
        }),
        udp_inbox(*final(s)) == udp_inbox(*old(s)),
        udp_outbox(*final(s)) == udp_outbox(*old(s)),
        udp_slots(*final(s)) == udp_slots(*old(s)),
        udp_space(*final(s)) == udp_space(*old(s)),
{
    s.bind(port).is_ok()
}

/// Puts a datagram among those to be sent. Calls `smoltcp::socket::udp::Socket::send_slice`: it
/// fails where the socket is not bound, where port or address of the other side is 0, and where
/// there is no room. There is room where the number of datagrams allows one more and it fits in
/// front of the end of the ring; it then takes one place and its length. A datagram that does not
/// fit there may still find room at the start of the ring: whether it does is left unsaid. Where
/// the call fails nothing changes in what waits.
#[verifier::external_body]
pub(crate) fn queue_datagram(s: &mut udp::Socket<'static>, data: &[u8], ip: [u8; 4], port: u16) -> (ok: bool)
    ensures
        ok ==> udp_port(*old(s)) != 0 && port != 0 && ip@ != seq![0u8, 0, 0, 0],
        udp_port(*final(s)) == udp_port(*old(s)),
        udp_inbox(*final(s)) == udp_inbox(*old(s)),
        udp_outbox(*final(s)) == (if ok {
            udp_outbox(*old(s)).push((data@, ip@, port))
        } else {
            udp_outbox(*old(s))
        }),
        sendable(*old(s), data@, ip@, port) ==> ok && udp_slots(*final(s)) + 1 == udp_slots(
            *old(s),
        ) && udp_space(*final(s)) + data@.len() >= udp_space(*old(s)),
{
    let addr = smoltcp::wire::IpAddress::v4(ip[0], ip[1], ip[2], ip[3]);
    s.send_slice(data, smoltcp::wire::IpEndpoint { addr, port }).is_ok()
}

/// Takes the datagram that came in first. Calls `smoltcp::socket::udp::Socket::recv`, which fails
/// exactly where there is none.
#[verifier::external_body]
pub(crate) fn take_datagram(s: &mut udp::Socket<'static>) -> (r: Option<(Vec<u8>, [u8; 4], u16)>)
    ensures
        udp_port(*final(s)) == udp_port(*old(s)),
        udp_outbox(*final(s)) == udp_outbox(*old(s)),
        udp_slots(*final(s)) == udp_slots(*old(s)),
        udp_space(*final(s)) == udp_space(*old(s)),
        match r {
            Some((data, ip, port)) => udp_inbox(*old(s)).len() > 0 && udp_inbox(*old(s))[0] == (
                data@,
                ip@,
                port,
            ) && udp_inbox(*final(s)) == udp_inbox(*old(s)).skip(1),
            None => udp_inbox(*old(s)).len() == 0 && udp_inbox(*final(s)) == udp_inbox(*old(s)),
        },
{
    let (data, meta) = s.recv().ok()?;
    let ip = match meta.endpoint.addr {
        smoltcp::wire::IpAddress::Ipv4(a) => a.octets(),
    };
    Some((data.to_vec(), ip, meta.endpoint.port))
}

/// The next port for a socket that was not bound: the ports of the range in turn.
pub fn next_ephemeral_port(counter: &mut u16) -> (port: u16)
    ensures
        port == EPHEMERAL_BASE + *old(counter) % EPHEMERAL_SPAN,
        port >= EPHEMERAL_BASE,
        *final(counter) == (if *old(counter) == u16::MAX {
            0
        } else {
            *old(counter) + 1
        }),
{
    let n = *counter;
    *counter = if n == u16::MAX { 0 } else { n + 1 };
    EPHEMERAL_BASE + n % EPHEMERAL_SPAN
}

/// A datagram socket: not bound, nothing in it.
pub fn udp_socket() -> (s: udp::Socket<'static>)
    ensures
        udp_port(s) == 0,
        udp_inbox(s) == Seq::<Datagram>::empty(),
        udp_outbox(s) == Seq::<Datagram>::empty(),
        udp_slots(s) == SOCK_META,
        udp_space(s) == SOCK_PAYLOAD,
{
    new_socket(SOCK_META, SOCK_PAYLOAD)
}

/// Binds a socket to a local port. Fails where the socket is bound already or the port is 0.
pub fn udp_bind(s: &mut udp::Socket<'static>, port: u16) -> (r: Result<(), i64>)
    ensures
        r == (if port != 0 && udp_port(*old(s)) == 0 {
            Ok(())
        } else {
            Err(abi::EINVAL)
        }),
        udp_port(*final(s)) == (if r is Ok {
            port
        } else {
            udp_port(*old(s))
        }),
        udp_inbox(*final(s)) == udp_inbox(*old(s)),
        udp_outbox(*final(s)) == udp_outbox(*old(s)),
        udp_slots(*final(s)) == udp_slots(*old(s)),
        udp_space(*final(s)) == udp_space(*old(s)),
{
    if bind_socket(s, port) {
        Ok(())
    } else {
        Err(abi::EINVAL)
    }
}

/// The port from which a socket sends: its own, or the next free one of the range.
pub open spec fn sending_port(s: udp::Socket<'static>, counter: u16) -> u16 {
    if udp_port(s) != 0 {
        udp_port(s)
    } else {
        (EPHEMERAL_BASE + counter % EPHEMERAL_SPAN) as u16
    }
}

/// Sends a datagram: a socket that is not bound is bound to a port of its own, and the datagram is
/// put among those to be sent. Returns its length.
pub fn udp_sendto(
    s: &mut udp::Socket<'static>,
    counter: &mut u16,
    data: &[u8],
    dst_ip: [u8; 4],
    dst_port: u16,
) -> (r: Result<usize, i64>)
    ensures
        udp_port(*final(s)) == sending_port(*old(s), *old(counter)),
        *final(counter) == (if udp_port(*old(s)) != 0 {
            *old(counter)
        } else if *old(counter) == u16::MAX {
            0
        } else {
            (*old(counter) + 1) as u16
        }),
        udp_inbox(*final(s)) == udp_inbox(*old(s)),
        match r {
            Ok(n) => n == data@.len() && dst_port != 0 && dst_ip@ != seq![0u8, 0, 0, 0]
                && udp_outbox(*final(s)) == udp_outbox(*old(s)).push((data@, dst_ip@, dst_port)),
            Err(e) => e == abi::EMSGSIZE && udp_outbox(*final(s)) == udp_outbox(*old(s)),
        },
        fits(*old(s), data@, dst_ip@, dst_port) ==> r is Ok && udp_slots(*final(s)) + 1
            == udp_slots(*old(s)) && udp_space(*final(s)) + data@.len() >= udp_space(*old(s)),
{
    if local_port(s) == 0 {
        let port = next_ephemeral_port(counter);
        if !bind_socket(s, port) {
            return Err(abi::EINVAL);
        }
    }
    if queue_datagram(s, data, dst_ip, dst_port) {
        Ok(data.len())
    } else {
        Err(abi::EMSGSIZE)
    }
}

/// How waiting for a datagram goes on.
pub enum RecvStep {
    /// A datagram: its bytes, cut to the length asked for, and where it came from.
    Got(Vec<u8>, [u8; 4], u16),
    /// None yet; look again, having looked so many times.
    Again(u64),
    /// None in all the time that was given.
    Failed(i64),
}

/// Looks for a datagram once, after having looked `spins` times. What does not fit into `cap`
/// bytes is lost.
pub fn udp_recvfrom(s: &mut udp::Socket<'static>, cap: usize, spins: u64) -> (r: RecvStep)
    requires
        spins < RECV_MAX_SPINS,
    ensures
        udp_port(*final(s)) == udp_port(*old(s)),
        udp_outbox(*final(s)) == udp_outbox(*old(s)),
        udp_slots(*final(s)) == udp_slots(*old(s)),
        udp_space(*final(s)) == udp_space(*old(s)),
        if udp_inbox(*old(s)).len() > 0 {
            let (data, ip, port) = udp_inbox(*old(s))[0];
            &&& udp_inbox(*final(s)) == udp_inbox(*old(s)).skip(1)
            &&& r matches RecvStep::Got(d, i, p) && d@ == data.take(
                util::min_nat(data.len(), cap as nat) as int,
            ) && i@ == ip && p == port
        } else {
            &&& udp_inbox(*final(s)) == udp_inbox(*old(s))
            &&& r == (if spins + 1 < RECV_MAX_SPINS {
                RecvStep::Again((spins + 1) as u64)
            } else {
                RecvStep::Failed(abi::EAGAIN)
            })
        },
{
    match take_datagram(s) {
        Some((data, ip, port)) => {
            let n: usize = if data.len() < cap { data.len() } else { cap };
            let cut = util::slice_to_vec(data.as_slice(), 0, n);
            assert(cut@ =~= data@.take(n as int));
            RecvStep::Got(cut, ip, port)
        },
        None => {
            if spins + 1 >= RECV_MAX_SPINS {
                RecvStep::Failed(abi::EAGAIN)
            } else {
                RecvStep::Again(spins + 1)
            }
        },
    }
}

/// Sockets that are not bound send from different ports, as long as no more ports are asked for
/// than there are.
pub proof fn law_ephemeral_ports_differ(counter: u16, n: int)
    requires
        0 < n < EPHEMERAL_SPAN,
    ensures
        (EPHEMERAL_BASE + counter % EPHEMERAL_SPAN) != EPHEMERAL_BASE + ((counter + n) % 65536)
            % EPHEMERAL_SPAN as int,
        EPHEMERAL_BASE <= EPHEMERAL_BASE + counter % EPHEMERAL_SPAN <= u16::MAX,
{
}

/// A socket sends from its own port; one that has none, from a port of 49152 at least.
pub proof fn law_socket_sends_from_its_own_port(s: udp::Socket<'static>, counter: u16)
    ensures
        udp_port(s) != 0 ==> sending_port(s, counter) == udp_port(s),
        udp_port(s) == 0 ==> sending_port(s, counter) == 49152 + counter % 16384,
{
}

} // verus!
