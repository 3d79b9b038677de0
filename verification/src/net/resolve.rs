//! Asking a server for the address of a name.

use crate::net::dns::{self, build_query, parse_answer, Answer};
use crate::net::socket::{self, bind_socket, new_socket, queue_datagram, take_datagram, Datagram};
use crate::util;
use smoltcp::socket::udp;
use vstd::prelude::*;
use vstd::string::StringSliceAdditionalSpecFns;

verus! {

/// Port from which queries are sent.
pub const DNS_LOCAL_PORT: u16 = 49152;

/// Port of a server.
pub const DNS_SERVER_PORT: u16 = 53;

/// Longest message, and bytes of buffer of the socket.
pub const DNS_MSG_LEN: usize = 1500;

/// Most messages that wait in the socket.
pub const DNS_MESSAGES: usize = 4;

/// How often to look for an address of this host before giving up.
pub const DHCP_MAX_SPINS: u64 = 200_000_000;

/// A query and whether it was sent.
pub struct Resolver {
    pub id: u16,
    pub query: Vec<u8>,
    pub asked: bool,
}

/// How waiting for a reply goes on.
#[derive(Debug, Clone, Copy, PartialEq, Eq)]
pub enum ResolveStep {
    /// It is over: the address, or that there is none.
    Done(Option<[u8; 4]>),
    /// Nothing yet.
    Waiting,
}

/// Whether a message that came in settles the query `id`. Longer messages than a reply can be are
/// dropped.
pub open spec fn settles(id: u16, m: Datagram) -> bool {
    m.0.len() <= DNS_MSG_LEN && dns::replies_to(id, m.0)
}

/// Index of the first message that settles the query; the length if there is none.
pub open spec fn settling(id: u16, inbox: Seq<Datagram>) -> int
    decreases inbox.len(),
{
    if inbox.len() == 0 {
        0
    } else if settles(id, inbox[0]) {
        0
    } else {
        1 + settling(id, inbox.skip(1))
    }
}

/// Whether to stop waiting for an address of this host: the time is up, or it was looked for often
/// enough.
pub fn dhcp_gives_up(now: u64, deadline: u64, spins: u64) -> (r: bool)
    ensures
        r == (now >= deadline || spins >= DHCP_MAX_SPINS),
{
    now >= deadline || spins >= DHCP_MAX_SPINS
}

impl Resolver {
    /// The query for the address of `hostname`, with the low bits of the time as identifier. None
    /// for a name that cannot be sent.
    pub fn new(hostname: &str, now: u64) -> (r: Option<Resolver>)
        ensures
            match dns::query(now as u16, hostname.spec_bytes()) {
                Some(q) => if q.len() <= DNS_MSG_LEN {
                    r matches Some(x) && x.id == now as u16 && x.query@ == q && !x.asked
                } else {
                    r is None
                },
                None => r is None,
            },
    {
        let id = now as u16;
        let mut buf: Vec<u8> = Vec::new();
        let mut i: usize = 0;
        while i < DNS_MSG_LEN
            invariant
                i <= DNS_MSG_LEN,
                buf@.len() == i,
            decreases DNS_MSG_LEN - i,
        {
            buf.push(0);
            i += 1;
        }
        let len = match build_query(id, hostname, buf.as_mut_slice()) {
            Some(n) => n,
            None => {
                return None;
            },
        };
        let query = util::slice_to_vec(buf.as_slice(), 0, len);
        assert(query@ =~= dns::query(id, hostname.spec_bytes())->0);
        Some(Resolver { id, query, asked: false })
    }

    /// The socket for the query. A query that can be sent has room in it.
    pub fn socket(&self) -> (r: Option<udp::Socket<'static>>)
        ensures
            r matches Some(s) && socket::udp_port(s) == DNS_LOCAL_PORT && socket::udp_inbox(s).len()
                == 0 && socket::udp_outbox(s).len() == 0 && socket::udp_slots(s) == DNS_MESSAGES
                && socket::udp_space(s) == DNS_MSG_LEN,
            forall|server: Seq<u8>|
                self.query@.len() <= DNS_MSG_LEN && server != seq![0u8, 0, 0, 0]
                    ==> #[trigger] socket::sendable(
                    r->0,
                    self.query@,
                    server,
                    DNS_SERVER_PORT,
                ),
    {
        let mut s = new_socket(DNS_MESSAGES, DNS_MSG_LEN);
        if bind_socket(&mut s, DNS_LOCAL_PORT) {
            Some(s)
        } else {
            None
        }
    }

    /// Sends the query to `server` unless it was sent already.
    pub fn ask(&mut self, s: &mut udp::Socket<'static>, server: [u8; 4])
        ensures
            final(self).id == old(self).id,
            final(self).query@ == old(self).query@,
            old(self).asked ==> final(self).asked,
            socket::udp_port(*final(s)) == socket::udp_port(*old(s)),
            socket::udp_inbox(*final(s)) == socket::udp_inbox(*old(s)),
            socket::udp_outbox(*final(s)) == (if final(self).asked && !old(self).asked {
                socket::udp_outbox(*old(s)).push((old(self).query@, server@, DNS_SERVER_PORT))
            } else {
                socket::udp_outbox(*old(s))
            }),
            socket::sendable(*old(s), old(self).query@, server@, DNS_SERVER_PORT)
                ==> final(self).asked,
    {
        if !self.asked && queue_datagram(s, self.query.as_slice(), server, DNS_SERVER_PORT) {
            self.asked = true;
        }
    }

    /// Takes messages in until one settles the query.
    pub fn listen(&self, s: &mut udp::Socket<'static>) -> (r: ResolveStep)
        ensures
            socket::udp_port(*final(s)) == socket::udp_port(*old(s)),
            socket::udp_outbox(*final(s)) == socket::udp_outbox(*old(s)),
            socket::udp_slots(*final(s)) == socket::udp_slots(*old(s)),
            socket::udp_space(*final(s)) == socket::udp_space(*old(s)),
            ({
                let inbox = socket::udp_inbox(*old(s));
                let n = settling(self.id, inbox);
                if n < inbox.len() {
                    &&& socket::udp_inbox(*final(s)) == inbox.skip(n + 1)
                    &&& match dns::address_in(inbox[n].0) {
                        Some(a) => r matches ResolveStep::Done(Some(b)) && b@ == a,
                        None => r == ResolveStep::Done(None),
                    }
                } else {
                    r is Waiting && socket::udp_inbox(*final(s)).len() == 0
                }
            }),
    {
        let ghost all = socket::udp_inbox(*s);
        let ghost mut taken: int = 0;
        assert(all.skip(0) =~= all);
        loop
            invariant
                all == socket::udp_inbox(*old(s)),
                socket::udp_port(*s) == socket::udp_port(*old(s)),
                socket::udp_outbox(*s) == socket::udp_outbox(*old(s)),
                socket::udp_slots(*s) == socket::udp_slots(*old(s)),
                socket::udp_space(*s) == socket::udp_space(*old(s)),
                0 <= taken <= all.len(),
                socket::udp_inbox(*s) == all.skip(taken),
                settling(self.id, all) == taken + settling(self.id, all.skip(taken)),
            decreases all.len() - taken,
        {
            match take_datagram(s) {
                None => {
                    return ResolveStep::Waiting;
                },
                Some((data, _ip, _port)) => {
                    proof {
                        assert(all.skip(taken)[0] == all[taken]);
                        assert(all.skip(taken).skip(1) =~= all.skip(taken + 1));
                    }
                    if data.len() <= DNS_MSG_LEN {
                        match parse_answer(self.id, data.as_slice()) {
                            Answer::Ipv4(a) => {
                                return ResolveStep::Done(Some(a));
                            },
                            Answer::NoIpv4 => {
                                return ResolveStep::Done(None);
                            },
                            Answer::Ignore => {},
                        }
                    }
                    proof {
                        taken = taken + 1;
                    }
                },
            }
        }
    }

    /// Whether there is nothing more to wait for: the time is up.
    pub fn is_over(&self, now: u64, deadline: u64) -> (r: bool)
        ensures
            r == (now >= deadline),
    {
        now >= deadline
    }
}

/// Messages that are no reply to the query are passed over, whatever they hold: the outcome is that
/// of the first reply, and waiting goes on only where there is none.
pub proof fn law_foreign_messages_are_passed_over(id: u16, foreign: Seq<Datagram>, inbox: Seq<Datagram>)
    requires
        forall|i: int| 0 <= i < foreign.len() ==> !settles(id, #[trigger] foreign[i]),
    ensures
        settling(id, foreign + inbox) == foreign.len() + settling(id, inbox),
    decreases foreign.len(),
{
    if foreign.len() == 0 {
        assert(foreign + inbox =~= inbox);
    } else {
        assert((foreign + inbox)[0] == foreign[0]);
        assert((foreign + inbox).skip(1) =~= foreign.skip(1) + inbox);
        assert forall|i: int| 0 <= i < foreign.skip(1).len() implies !settles(
            id,
            #[trigger] foreign.skip(1)[i],
        ) by {
            assert(foreign.skip(1)[i] == foreign[i + 1]);
        }
        law_foreign_messages_are_passed_over(id, foreign.skip(1), inbox);
    }
}

/// The message that settles a query is the first of those that reply to it; a message of more than
/// 1500 bytes does not count.
pub proof fn law_first_reply_settles_the_query(id: u16, inbox: Seq<Datagram>)
    ensures
        0 <= settling(id, inbox) <= inbox.len(),
        settling(id, inbox) < inbox.len() ==> dns::replies_to(id, inbox[settling(id, inbox)].0)
            && inbox[settling(id, inbox)].0.len() <= 1500,
        forall|j: int|
            0 <= j < settling(id, inbox) ==> !dns::replies_to(id, (#[trigger] inbox[j]).0)
                || inbox[j].0.len() > 1500,
    decreases inbox.len(),
{
    if inbox.len() > 0 && !settles(id, inbox[0]) {
        let rest = inbox.skip(1);
        law_first_reply_settles_the_query(id, rest);
        assert forall|j: int| 0 <= j < settling(id, inbox) implies !dns::replies_to(
            id,
            (#[trigger] inbox[j]).0,
        ) || inbox[j].0.len() > 1500 by {
            if j > 0 {
                assert(inbox[j] == rest[j - 1]);
            }
        }
    }
}

} // verus!
