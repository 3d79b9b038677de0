//! Asking another host for an echo.
//!
//! Requests are numbered. A reply carries the number of its request; each number counts once.

use crate::util;
use smoltcp::socket::icmp;
use vstd::prelude::*;

verus! {

/// Identifier of all requests.
pub const PING_IDENT: u16 = 0x22b8;

/// Bytes of buffer for each request.
pub const PING_SLOT: usize = 256;

/// Longest packet whose checksum is looked at. No packet of the network is longer.
pub const PACKET_MAX: usize = 131_072;

/// Type of an echo request.
pub const ECHO_REQUEST: u8 = 8;

/// Type of an echo reply.
pub const ECHO_REPLY: u8 = 0;

/// Length of a request.
pub const REQUEST_LEN: usize = 24;

/// How many requests were sent and how many were answered.
#[derive(Debug, Clone, Copy, PartialEq, Eq, Structural)]
pub struct PingStats {
    pub sent: usize,
    pub received: usize,
}

/// The state of an exchange of `count` requests.
pub struct Ping {
    pub count: usize,
    pub sent: usize,
    pub received: usize,
    /// Which requests were answered.
    pub answered: Vec<bool>,
}

/// What a [`Ping`] holds.
#[verifier::ext_equal]
pub struct PingView {
    pub count: int,
    pub sent: int,
    pub received: int,
    pub answered: Seq<bool>,
}

impl View for Ping {
    type V = PingView;

    open spec fn view(&self) -> PingView {
        PingView {
            count: self.count as int,
            sent: self.sent as int,
            received: self.received as int,
            answered: self.answered@,
        }
    }
}

/// The sum of the 16-bit words of a packet, high byte first; a last odd byte counts as the high
/// byte of a word.
pub open spec fn word_sum(b: Seq<u8>) -> int
    decreases b.len(),
{
    if b.len() == 0 {
        0
    } else if b.len() == 1 {
        0x100 * b[0]
    } else {
        0x100 * b[0] + b[1] + word_sum(b.skip(2))
    }
}

/// Whether the checksum in a packet is right: its words sum up to zero in ones' complement.
pub open spec fn checksum_ok(b: Seq<u8>) -> bool {
    word_sum(b) > 0 && word_sum(b) % 65535 == 0
}

/// The number in an echo reply. None for any other packet.
pub open spec fn reply_seq(b: Seq<u8>) -> Option<u16> {
    if 8 <= b.len() <= PACKET_MAX && b[0] == ECHO_REPLY && b[1] == 0 && checksum_ok(b) {
        Some(util::be16(b, 6))
    } else {
        None
    }
}

/// Whether a packet is the request number `seq` with the given payload.
pub open spec fn is_request(b: Seq<u8>, ident: u16, seq: u16, payload: Seq<u8>) -> bool {
    &&& b.len() == 8 + payload.len()
    &&& b[0] == ECHO_REQUEST
    &&& b[1] == 0
    &&& util::be16(b, 4) == ident
    &&& util::be16(b, 6) == seq
    &&& b.skip(8) == payload
    &&& checksum_ok(b)
    &&& util::be16(b, 2) != 0xFFFF
}

/// The control message socket of the protocol stack.
#[verifier::external_type_specification]
#[verifier::external_body]
pub struct ExEchoSocket<'a>(icmp::Socket<'a>);

/// A socket that owns its buffers.
pub type EchoSocket = icmp::Socket<'static>;

/// The identifier that a socket is bound to, if it is bound to one.
pub uninterp spec fn echo_ident(s: EchoSocket) -> Option<u16>;

/// The packets that have come in and were not taken yet, in the order in which they came.
pub uninterp spec fn echo_inbox(s: EchoSocket) -> Seq<Seq<u8>>;

/// The packets that wait to be sent, each with its destination.
pub uninterp spec fn echo_outbox(s: EchoSocket) -> Seq<(Seq<u8>, Seq<u8>)>;

/// How many packets more a socket has room for among those to be sent.
pub uninterp spec fn echo_slots(s: EchoSocket) -> nat;

/// How many bytes one packet among those to be sent certainly has room for: those up to the end of
/// the ring in which they wait, or the whole ring where it is empty.
pub uninterp spec fn echo_space(s: EchoSocket) -> nat;

/// Whether a socket is bound.
pub uninterp spec fn echo_open(s: EchoSocket) -> bool;

/// A new socket. Calls `smoltcp::socket::icmp::Socket::new` with two buffers of
/// `smoltcp::storage::PacketBuffer::new`, for `meta` packets and `payload` bytes each: it is not
/// bound, nothing waits in it, and all of its room is left.
#[verifier::external_body]
fn new_socket(meta: usize, payload: usize) -> (s: EchoSocket)
    requires
        payload <= isize::MAX,
        meta * 64 <= isize::MAX,
    ensures
        !echo_open(s),
        echo_inbox(s).len() == 0,
        echo_outbox(s).len() == 0,
        echo_slots(s) == meta,
        echo_space(s) == payload,
{
    let rx = icmp::PacketBuffer::new(vec![icmp::PacketMetadata::EMPTY; meta], vec![0u8; payload]);
    let tx = icmp::PacketBuffer::new(vec![icmp::PacketMetadata::EMPTY; meta], vec![0u8; payload]);
    icmp::Socket::new(rx, tx)
}

/// Binds a socket to the identifier `ident`. Calls `smoltcp::socket::icmp::Socket::bind`, which
/// succeeds exactly where the socket is not bound; else nothing changes.
#[verifier::external_body]
fn bind_socket(s: &mut EchoSocket, ident: u16) -> (ok: bool)
    ensures
        ok == !echo_open(*old(s)),
        echo_open(*final(s)),
        echo_ident(*final(s)) == (if ok {
            Some(ident)
        } else {
            echo_ident(*old(s))
        }),
        echo_inbox(*final(s)) == echo_inbox(*old(s)),
        echo_outbox(*final(s)) == echo_outbox(*old(s)),
        echo_slots(*final(s)) == echo_slots(*old(s)),
        echo_space(*final(s)) == echo_space(*old(s)),
{
    s.bind(icmp::Endpoint::Ident(ident)).is_ok()
}

/// The packet of an echo request. Calls `smoltcp::wire::Icmpv4Repr::emit`, which writes type, code,
/// identifier, number and payload, and then the checksum.
#[verifier::external_body]
fn echo_request(ident: u16, seq_no: u16, data: &[u8]) -> (packet: Vec<u8>)
    requires
        data@.len() <= 1024,
    ensures
        is_request(packet@, ident, seq_no, data@),
{
    let repr = smoltcp::wire::Icmpv4Repr::EchoRequest { ident, seq_no, data };
    let mut packet = vec![0u8; repr.buffer_len()];
    let checksum = smoltcp::phy::ChecksumCapabilities::default();
    repr.emit(&mut smoltcp::wire::Icmpv4Packet::new_unchecked(&mut packet[..]), &checksum);
    packet
}

/// The number in an echo reply. Calls `smoltcp::wire::Icmpv4Packet::new_checked`, which asks for
/// the eight bytes of a header, and `smoltcp::wire::Icmpv4Repr::parse`, which checks the checksum
/// and tells the kinds of packets apart by type and code.
#[verifier::external_body]
fn parse_reply(data: &[u8]) -> (r: Option<u16>)
    requires
        data@.len() <= PACKET_MAX,
    ensures
        r == reply_seq(data@),
{
    let packet = smoltcp::wire::Icmpv4Packet::new_checked(data).ok()?;
    let checksum = smoltcp::phy::ChecksumCapabilities::default();
    match smoltcp::wire::Icmpv4Repr::parse(&packet, &checksum) {
        Ok(smoltcp::wire::Icmpv4Repr::EchoReply { seq_no, .. }) => Some(seq_no),
        _ => None,
    }
}

/// Puts a packet among those to be sent. Calls `smoltcp::socket::icmp::Socket::send_slice`: it
/// fails where the destination is 0, and where there is no room. There is room where the number of
/// packets allows one more and it fits in front of the end of the ring; it then takes one place and
/// its length. A packet that does not fit there may still find room at the start of the ring:
/// whether it does is left unsaid. Where no place is left the call fails, and every packet takes
/// one at least. Where the call fails nothing changes in what waits.
#[verifier::external_body]
fn queue_packet(s: &mut EchoSocket, data: &[u8], dest: [u8; 4]) -> (ok: bool)
    ensures
        ok ==> dest@ != seq![0u8, 0, 0, 0],
        ok ==> echo_slots(*final(s)) < echo_slots(*old(s)),
        echo_slots(*final(s)) <= echo_slots(*old(s)),
        echo_ident(*final(s)) == echo_ident(*old(s)),
        echo_inbox(*final(s)) == echo_inbox(*old(s)),
        echo_outbox(*final(s)) == (if ok {
            echo_outbox(*old(s)).push((data@, dest@))
        } else {
            echo_outbox(*old(s))
        }),
        dest@ != seq![0u8, 0, 0, 0] && echo_slots(*old(s)) > 0 && data@.len() <= echo_space(*old(s))
            ==> ok && echo_slots(*final(s)) + 1 == echo_slots(*old(s)) && echo_space(*final(s))
            + data@.len() >= echo_space(*old(s)),
{
    s.send_slice(data, smoltcp::wire::IpAddress::v4(dest[0], dest[1], dest[2], dest[3])).is_ok()
}

/// Takes the packet that came in first. Calls `smoltcp::socket::icmp::Socket::recv`, which fails
/// exactly where there is none.
#[verifier::external_body]
fn take_packet(s: &mut EchoSocket) -> (r: Option<Vec<u8>>)
    ensures
        echo_ident(*final(s)) == echo_ident(*old(s)),
        echo_outbox(*final(s)) == echo_outbox(*old(s)),
        echo_slots(*final(s)) == echo_slots(*old(s)),
        echo_space(*final(s)) == echo_space(*old(s)),
        match r {
            Some(data) => echo_inbox(*old(s)).len() > 0 && echo_inbox(*old(s))[0] == data@
                && echo_inbox(*final(s)) == echo_inbox(*old(s)).skip(1),
            None => echo_inbox(*old(s)).len() == 0 && echo_inbox(*final(s)) == echo_inbox(*old(s)),
        },
{
    let (data, _) = s.recv().ok()?;
    Some(data.to_vec())
}

/// How many of the requests were answered.
pub open spec fn trues(s: Seq<bool>) -> int
    decreases s.len(),
{
    if s.len() == 0 {
        0
    } else {
        trues(s.drop_last()) + (if s.last() {
            1int
        } else {
            0
        })
    }
}

/// Whether `n` more requests certainly have room among the packets to be sent.
pub open spec fn all_fit(s: EchoSocket, n: int) -> bool {
    echo_slots(s) >= n && echo_space(s) >= REQUEST_LEN * n
}

/// The payload of all requests.
pub open spec fn ping_payload() -> Seq<u8> {
    seq![
        0x66u8, 0x65, 0x72, 0x72, 0x6f, 0x73, 0x2d, 0x69, 0x63, 0x6d, 0x70, 0x2d, 0x70, 0x69, 0x6e,
        0x67,
    ]
}

impl PingView {
    /// There is something to count, and what was counted are the answered requests.
    pub open spec fn wf(self) -> bool {
        &&& 1 <= self.count
        &&& 0 <= self.sent <= self.count
        &&& self.answered.len() == self.count
        &&& self.received == trues(self.answered)
    }

    /// The state after a packet came in. A reply counts if its number is one of the requests and
    /// was not answered before.
    pub open spec fn heard(self, packet: Seq<u8>) -> PingView {
        match reply_seq(packet) {
            Some(seq) => if seq < self.count && !self.answered[seq as int] {
                PingView {
                    received: self.received + 1,
                    answered: self.answered.update(seq as int, true),
                    ..self
                }
            } else {
                self
            },
            None => self,
        }
    }

    /// The state after several packets came in.
    pub open spec fn heard_all(self, packets: Seq<Seq<u8>>) -> PingView
        decreases packets.len(),
    {
        if packets.len() == 0 {
            self
        } else {
            self.heard(packets[0]).heard_all(packets.skip(1))
        }
    }
}

/// Marking a request adds one.
proof fn lemma_trues_update(s: Seq<bool>, i: int)
    requires
        0 <= i < s.len(),
        !s[i],
    ensures
        trues(s.update(i, true)) == trues(s) + 1,
    decreases s.len(),
{
    if i == s.len() - 1 {
        assert(s.update(i, true).drop_last() =~= s.drop_last());
    } else {
        lemma_trues_update(s.drop_last(), i);
        assert(s.update(i, true).drop_last() =~= s.drop_last().update(i, true));
    }
}

/// No more are answered than there are; all are answered where the numbers are equal.
proof fn lemma_trues_bound(s: Seq<bool>)
    ensures
        0 <= trues(s) <= s.len(),
        trues(s) == s.len() ==> forall|i: int| 0 <= i < s.len() ==> #[trigger] s[i],
    decreases s.len(),
{
    if s.len() > 0 {
        lemma_trues_bound(s.drop_last());
        if trues(s) == s.len() {
            assert forall|i: int| 0 <= i < s.len() implies #[trigger] s[i] by {
                if i < s.len() - 1 {
                    assert(s.drop_last()[i] == s[i]);
                }
            }
        }
    }
}

/// Nothing answered is nothing counted.
proof fn lemma_trues_none(n: nat)
    ensures
        trues(Seq::new(n, |i: int| false)) == 0,
    decreases n,
{
    if n > 0 {
        lemma_trues_none((n - 1) as nat);
        assert(Seq::new(n, |i: int| false).drop_last() =~= Seq::new((n - 1) as nat, |i: int| false));
    }
}

impl Ping {
    /// An exchange of `count` requests, at least one.
    pub fn new(count: usize) -> (p: Ping)
        ensures
            p@.wf(),
            p@ == (PingView {
                count: if count == 0 {
                    1
                } else {
                    count as int
                },
                sent: 0,
                received: 0,
                answered: Seq::new(
                    if count == 0 {
                        1
                    } else {
                        count as nat
                    },
                    |i: int| false,
                ),
            }),
    {
        let count: usize = if count == 0 { 1 } else { count };
        let mut answered: Vec<bool> = Vec::new();
        let mut i: usize = 0;
        while i < count
            invariant
                i <= count,
                answered@ =~= Seq::new(i as nat, |j: int| false),
            decreases count - i,
        {
            answered.push(false);
            i += 1;
        }
        proof {
            lemma_trues_none(count as nat);
        }
        Ping { count, sent: 0, received: 0, answered }
    }

    /// The socket for the exchange. All requests have room in it.
    pub fn socket(&self) -> (r: Option<EchoSocket>)
        requires
            self.count * PING_SLOT <= isize::MAX,
        ensures
            r matches Some(s) && echo_ident(s) == Some(PING_IDENT) && echo_inbox(s).len() == 0
                && echo_outbox(s).len() == 0 && all_fit(s, self.count as int),
    {
        let mut s = new_socket(self.count, PING_SLOT * self.count);
        if bind_socket(&mut s, PING_IDENT) {
            Some(s)
        } else {
            None
        }
    }

    /// Takes in a packet.
    pub fn hear(&mut self, packet: &[u8])
        requires
            old(self)@.wf(),
        ensures
            final(self)@.wf(),
            final(self)@ == old(self)@.heard(packet@),
    {
        if packet.len() > PACKET_MAX {
            return ;
        }
        proof {
            lemma_trues_bound(self.answered@);
        }
        match parse_reply(packet) {
            Some(seq) => {
                let i = seq as usize;
                if i < self.count && !self.answered[i] {
                    proof {
                        lemma_trues_update(self.answered@, i as int);
                        lemma_trues_bound(self.answered@.update(i as int, true));
                    }
                    self.answered.set(i, true);
                    self.received = self.received + 1;
                }
            },
            None => {},
        }
    }

    /// Sends the requests that are left, as many as fit: all those for which there certainly is
    /// room, and no more than there are places. Nothing is sent to the address 0.
    pub fn send_requests(&mut self, s: &mut EchoSocket, dest: [u8; 4])
        requires
            old(self)@.wf(),
        ensures
            final(self)@.wf(),
            final(self)@ == (PingView { sent: final(self)@.sent, ..old(self)@ }),
            final(self)@.sent >= old(self)@.sent,
            echo_ident(*final(s)) == echo_ident(*old(s)),
            echo_inbox(*final(s)) == echo_inbox(*old(s)),
            echo_outbox(*final(s)).len() == echo_outbox(*old(s)).len() + final(self)@.sent - old(
                self,
            )@.sent,
            echo_outbox(*final(s)).take(echo_outbox(*old(s)).len() as int) == echo_outbox(*old(s)),
            forall|n: int|
                old(self)@.sent <= n < final(self)@.sent ==> {
                    let (packet, to) = #[trigger] echo_outbox(*final(s))[echo_outbox(
                        *old(s),
                    ).len() + n - old(self)@.sent];
                    to == dest@ && is_request(packet, PING_IDENT, n as u16, ping_payload())
                },
            forall|n: int|
                dest@ != seq![0u8, 0, 0, 0] && 0 <= n <= old(self)@.count - old(self)@.sent
                    && #[trigger] all_fit(*old(s), n) ==> final(self)@.sent >= old(self)@.sent + n,
            final(self)@.sent - old(self)@.sent <= echo_slots(*old(s)),
            dest@ == seq![0u8, 0, 0, 0] ==> final(self)@.sent == old(self)@.sent,
    {
        let payload = [
            0x66u8, 0x65, 0x72, 0x72, 0x6f, 0x73, 0x2d, 0x69, 0x63, 0x6d, 0x70, 0x2d, 0x70, 0x69, 0x6e,
            0x67,
        ];
        assert(payload@ =~= ping_payload());
        let ghost p0 = self@;
        let ghost out0 = echo_outbox(*s);
        assert(out0.take(out0.len() as int) =~= out0);
        let mut more = true;
        while more && self.sent < self.count
            invariant
                payload@ == ping_payload(),
                p0 == old(self)@,
                out0 == echo_outbox(*old(s)),
                self@.wf(),
                self@ == (PingView { sent: self@.sent, ..p0 }),
                self@.sent >= p0.sent,
                echo_ident(*s) == echo_ident(*old(s)),
                echo_inbox(*s) == echo_inbox(*old(s)),
                echo_outbox(*s).len() == out0.len() + self@.sent - p0.sent,
                echo_outbox(*s).take(out0.len() as int) == out0,
                forall|n: int|
                    dest@ != seq![0u8, 0, 0, 0] && 0 <= n <= p0.count - p0.sent && #[trigger] all_fit(
                        *old(s),
                        n,
                    ) ==> self@.sent >= p0.sent + n || (more && all_fit(
                        *s,
                        n - (self@.sent - p0.sent),
                    )),
                self@.sent - p0.sent + echo_slots(*s) <= echo_slots(*old(s)),
                dest@ == seq![0u8, 0, 0, 0] ==> self@.sent == p0.sent,
                forall|n: int|
                    p0.sent <= n < self@.sent ==> {
                        let (packet, to) = #[trigger] echo_outbox(*s)[out0.len() + n - p0.sent];
                        to == dest@ && is_request(packet, PING_IDENT, n as u16, ping_payload())
                    },
            decreases self.count - self.sent, (if more { 1int } else { 0int }),
        {
            let ghost before = echo_outbox(*s);
            let packet = echo_request(PING_IDENT, self.sent as u16, &payload);
            if queue_packet(s, packet.as_slice(), dest) {
                self.sent = self.sent + 1;
                assert(echo_outbox(*s).take(out0.len() as int) =~= before.take(out0.len() as int));
            } else {
                more = false;
            }
        }
    }

    /// Takes in all packets that have come.
    pub fn hear_all(&mut self, s: &mut EchoSocket)
        requires
            old(self)@.wf(),
        ensures
            final(self)@.wf(),
            final(self)@ == old(self)@.heard_all(echo_inbox(*old(s))),
            echo_ident(*final(s)) == echo_ident(*old(s)),
            echo_outbox(*final(s)) == echo_outbox(*old(s)),
            echo_slots(*final(s)) == echo_slots(*old(s)),
            echo_space(*final(s)) == echo_space(*old(s)),
            echo_inbox(*final(s)).len() == 0,
    {
        let ghost whole = self@.heard_all(echo_inbox(*s));
        loop
            invariant
                self@.wf(),
                whole == old(self)@.heard_all(echo_inbox(*old(s))),
                whole == self@.heard_all(echo_inbox(*s)),
                echo_ident(*s) == echo_ident(*old(s)),
                echo_outbox(*s) == echo_outbox(*old(s)),
                echo_slots(*s) == echo_slots(*old(s)),
                echo_space(*s) == echo_space(*old(s)),
            ensures
                echo_inbox(*s).len() == 0,
            decreases echo_inbox(*s).len(),
        {
            match take_packet(s) {
                Some(packet) => {
                    self.hear(packet.as_slice());
                },
                None => {
                    break;
                },
            }
        }
    }

    /// Whether there is nothing more to wait for: all requests are answered, or the time is up.
    pub fn is_over(&self, now: u64, deadline: u64) -> (r: bool)
        requires
            self@.wf(),
        ensures
            r == (self@.received >= self@.count || now >= deadline),
    {
        self.received >= self.count || now >= deadline
    }

    /// How many requests were sent and how many were answered.
    pub fn stats(&self) -> (r: PingStats)
        ensures
            r.sent == self@.sent,
            r.received == self@.received,
    {
        PingStats { sent: self.sent, received: self.received }
    }
}

/// A reply that comes twice counts once.
pub proof fn law_reply_counts_once(p: PingView, packet: Seq<u8>)
    requires
        p.wf(),
    ensures
        p.heard(packet).heard(packet) == p.heard(packet),
        p.received <= p.heard(packet).received <= p.received + 1,
{
}

/// Never more replies are counted than requests were planned; when all count, each request was
/// answered.
pub proof fn law_no_more_replies_than_requests(p: PingView, packets: Seq<Seq<u8>>)
    requires
        p.wf(),
    ensures
        ({
            let q = p.heard_all(packets);
            &&& q.wf()
            &&& q.count == p.count
            &&& p.received <= q.received <= p.count
            &&& q.received == q.count ==> forall|i: int| 0 <= i < q.count ==> #[trigger]
                q.answered[i]
        }),
    decreases packets.len(),
{
    lemma_trues_bound(p.answered);
    if packets.len() > 0 {
        let q = p.heard(packets[0]);
        if let Some(seq) = reply_seq(packets[0]) {
            if seq < p.count && !p.answered[seq as int] {
                lemma_trues_update(p.answered, seq as int);
            }
        }
        law_no_more_replies_than_requests(q, packets.skip(1));
    }
}

/// A packet is an answer where its type and code are zero and its words sum up to a multiple of
/// 65535; bytes 6 and 7 say which request it answers. It counts once for a request that was made,
/// and nothing else counts.
pub proof fn law_answers_are_echo_replies(p: PingView, b: Seq<u8>)
    requires
        p.wf(),
        8 <= b.len() <= 131_072,
    ensures
        ({
            let n = 256 * b[6] + b[7];
            let p2 = p.heard(b);
            let counts = b[0] == 0 && b[1] == 0 && word_sum(b) > 0 && word_sum(b) % 65535 == 0 && n
                < p.count && !p.answered[n];
            &&& counts ==> p2.received == p.received + 1 && p2.answered[n] && forall|j: int|
                0 <= j < p.count && j != n ==> #[trigger] p2.answered[j] == p.answered[j]
            &&& !counts ==> p2 == p
            &&& p2.count == p.count && p2.sent == p.sent
        }),
{
}

} // verus!
