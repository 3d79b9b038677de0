//! Sockets of processes.
//!
//! A call looks at its arguments and says what is to be asked of the network, if anything. What
//! the network answered finishes the call.

use crate::syscall::abi;
use crate::syscall::files::{self, slot_of};
use crate::syscall::kernel::{self, Fd, FdView, KView, Kernel, SockKind};
use crate::syscall::uaccess;
use crate::util;
use vstd::prelude::*;

verus! {

/// Longest datagram.
pub const MAX_DGRAM: u64 = 1472;

/// Most bytes that one call sends or receives otherwise.
pub const SOCK_IO_MAX: u64 = 4096;

/// What a call asks of the network.
pub enum NetCall {
    /// Nothing: the call is over, with this result.
    Done(i64),
    /// A socket.
    Open(SockKind),
    /// To bind a datagram socket to a port.
    Bind { handle: u64, port: u16 },
    /// To connect a stream socket.
    Connect { handle: u64, ip: [u8; 4], port: u16 },
    /// To send a datagram.
    SendTo { handle: u64, data: Vec<u8>, ip: [u8; 4], port: u16 },
    /// To send on a stream.
    Send { handle: u64, data: Vec<u8> },
    /// To receive at most so many bytes.
    Recv { handle: u64, kind: SockKind, cap: u64 },
}

/// An address as a process passes it.
#[verifier::ext_equal]
pub struct SockAddr {
    pub ip: Seq<u8>,
    pub port: u16,
}

/// What a [`NetCall`] holds.
#[verifier::ext_equal]
pub enum NetCallView {
    Done(i64),
    Open(SockKind),
    Bind(u64, u16),
    Connect(u64, SockAddr),
    SendTo(u64, Seq<u8>, SockAddr),
    Send(u64, Seq<u8>),
    Recv(u64, SockKind, u64),
}

impl View for NetCall {
    type V = NetCallView;

    open spec fn view(&self) -> NetCallView {
        match self {
            NetCall::Done(r) => NetCallView::Done(*r),
            NetCall::Open(kind) => NetCallView::Open(*kind),
            NetCall::Bind { handle, port } => NetCallView::Bind(*handle, *port),
            NetCall::Connect { handle, ip, port } => NetCallView::Connect(
                *handle,
                SockAddr { ip: ip@, port: *port },
            ),
            NetCall::SendTo { handle, data, ip, port } => NetCallView::SendTo(
                *handle,
                data@,
                SockAddr { ip: ip@, port: *port },
            ),
            NetCall::Send { handle, data } => NetCallView::Send(*handle, data@),
            NetCall::Recv { handle, kind, cap } => NetCallView::Recv(*handle, *kind, *cap),
        }
    }
}

/// The address in a structure of 16 bytes: family, port with the high byte first, address.
pub open spec fn sockaddr_in(b: Seq<u8>) -> Result<SockAddr, i64> {
    if util::le16(b, 0) != abi::AF_INET {
        Err(abi::EAFNOSUPPORT)
    } else {
        Ok(SockAddr { ip: b.subrange(4, 8), port: util::be16(b, 2) })
    }
}

/// The bytes of such a structure.
pub open spec fn sockaddr_bytes(a: SockAddr) -> Seq<u8> {
    util::enc16(abi::AF_INET as u16) + seq![(a.port / 0x100) as u8, (a.port % 0x100) as u8] + a.ip
        + Seq::new(8, |i: int| 0u8)
}

impl KView {
    /// Handle and kind of the socket that descriptor `fd` is.
    pub open spec fn socket_of(self, fd: u64) -> Result<(u64, SockKind), i64> {
        match self.proc().fd(fd) {
            Some(FdView::Socket(h, kind)) => Ok((h, kind)),
            Some(_) => Err(abi::ENOTSOCK),
            None => Err(abi::EBADF),
        }
    }

    /// The address that a process passes at `ptr`.
    pub open spec fn sockaddr_arg(self, ptr: u64, len: u64) -> Result<SockAddr, i64> {
        if len < 16 {
            Err(abi::EINVAL)
        } else {
            match uaccess::user_bytes(self.mem, ptr, 16) {
                Err(e) => Err(e),
                Ok(b) => sockaddr_in(b),
            }
        }
    }

    /// What `connect` asks for.
    pub open spec fn sys_connect(self, fd: u64, addr_ptr: u64, addrlen: u64) -> NetCallView {
        match self.socket_of(fd) {
            Err(e) => NetCallView::Done((-e) as i64),
            Ok((h, kind)) => if kind != SockKind::Tcp {
                NetCallView::Done((-abi::EOPNOTSUPP) as i64)
            } else {
                match self.sockaddr_arg(addr_ptr, addrlen) {
                    Err(e) => NetCallView::Done((-e) as i64),
                    Ok(a) => NetCallView::Connect(h, a),
                }
            },
        }
    }

    /// What `bind` asks for.
    pub open spec fn sys_bind(self, fd: u64, addr_ptr: u64, addrlen: u64) -> NetCallView {
        match self.socket_of(fd) {
            Err(e) => NetCallView::Done((-e) as i64),
            Ok((h, kind)) => if kind != SockKind::Udp {
                NetCallView::Done((-abi::EOPNOTSUPP) as i64)
            } else {
                match self.sockaddr_arg(addr_ptr, addrlen) {
                    Err(e) => NetCallView::Done((-e) as i64),
                    Ok(a) => NetCallView::Bind(h, a.port),
                }
            },
        }
    }

    /// What `sendto` asks for.
    pub open spec fn sys_sendto(self, fd: u64, buf: u64, len: u64, dest: u64, addrlen: u64) -> NetCallView {
        match self.socket_of(fd) {
            Err(e) => NetCallView::Done((-e) as i64),
            Ok((h, SockKind::Udp)) => if len > MAX_DGRAM {
                NetCallView::Done((-abi::EMSGSIZE) as i64)
            } else {
                match self.sockaddr_arg(dest, addrlen) {
                    Err(e) => NetCallView::Done((-e) as i64),
                    Ok(a) => match uaccess::user_bytes(self.mem, buf, len) {
                        Err(e) => NetCallView::Done((-e) as i64),
                        Ok(b) => NetCallView::SendTo(h, b, a),
                    },
                }
            },
            Ok((h, SockKind::Tcp)) => match uaccess::user_bytes(
                self.mem,
                buf,
                if len < SOCK_IO_MAX {
                    len
                } else {
                    SOCK_IO_MAX
                },
            ) {
                Err(e) => NetCallView::Done((-e) as i64),
                Ok(b) => NetCallView::Send(h, b),
            },
        }
    }

    /// What `recvfrom` asks for.
    pub open spec fn sys_recvfrom(self, fd: u64, len: u64) -> NetCallView {
        match self.socket_of(fd) {
            Err(e) => NetCallView::Done((-e) as i64),
            Ok((h, kind)) => NetCallView::Recv(
                h,
                kind,
                if len < SOCK_IO_MAX {
                    len
                } else {
                    SOCK_IO_MAX
                },
            ),
        }
    }

    /// The kernel after the network has made a socket: the calling process has a descriptor for it.
    pub open spec fn socket_opened(self, h: u64, kind: SockKind) -> (KView, i64) {
        KView { socks: self.socks.insert(h, 1), ..self }.fd_allocated(FdView::Socket(h, kind))
    }

    /// The kernel after the network has handed `data` from `from` to a receiving call. The address
    /// of a datagram is stored, as far as there is room, where the process asks for it.
    pub open spec fn received(
        self,
        kind: SockKind,
        data: Seq<u8>,
        from: SockAddr,
        buf: u64,
        src_addr: u64,
        addrlen_ptr: u64,
    ) -> (KView, i64) {
        match self.handed_out(buf, data) {
            (k, r) => if r != 0 {
                (k, r)
            } else if kind == SockKind::Udp && src_addr != 0 && addrlen_ptr != 0 {
                match uaccess::user_bytes(k.mem, addrlen_ptr, 4) {
                    Err(e) => (k, (-e) as i64),
                    Ok(b) => {
                        let want = util::min_nat(util::le32(b, 0) as nat, 16) as int;
                        let (k2, r2) = if want > 0 {
                            k.handed_out(src_addr, sockaddr_bytes(from).take(want))
                        } else {
                            (k, 0)
                        };
                        if r2 != 0 {
                            (k2, r2)
                        } else {
                            let (k3, r3) = k2.handed_out(addrlen_ptr, util::enc32(16));
                            if r3 != 0 {
                                (k3, r3)
                            } else {
                                (k3, data.len() as i64)
                            }
                        }
                    },
                }
            } else {
                (k, data.len() as i64)
            },
        }
    }
}

/// Handle and kind of the socket that descriptor `fd` is.
fn socket_handle(k: &mut Kernel, fd: u64) -> (r: Result<(u64, SockKind), i64>)
    requires
        old(k)@.wf(),
    ensures
        final(k)@.wf(),
        final(k)@ == old(k)@.touched(),
        r == old(k)@.socket_of(fd),
        r matches Err(e) ==> 0 < e < 4096,
{
    let ghost before = k@;
    let p = k.take_proc();
    let r = match slot_of(&p.fds, fd) {
        None => Err(abi::EBADF),
        Some(i) => {
            assert(p@.fds[i as int] == kernel::slot_view(p.fds@[i as int]));
            match &p.fds[i] {
                Some(Fd::Socket(h, kind)) => Ok((*h, *kind)),
                _ => Err(abi::ENOTSOCK),
            }
        },
    };
    k.put_proc(p);
    assert(k@.procs =~= before.touched().procs);
    r
}

/// The address that a process passes at `addr_ptr`.
fn parse_sockaddr_in(k: &Kernel, addr_ptr: u64, addrlen: u64) -> (r: Result<([u8; 4], u16), i64>)
    requires
        k@.wf(),
    ensures
        match k@.sockaddr_arg(addr_ptr, addrlen) {
            Err(e) => r == Err::<([u8; 4], u16), i64>(e) && 0 < e < 4096,
            Ok(a) => r matches Ok((ip, port)) && ip@ == a.ip && port == a.port,
        },
{
    if addrlen < 16 {
        return Err(abi::EINVAL);
    }
    match uaccess::with_user_bytes(&k.mem, addr_ptr, 16) {
        Err(e) => Err(e),
        Ok(b) => {
            if util::get_u16(b.as_slice(), 0) as u64 != abi::AF_INET {
                return Err(abi::EAFNOSUPPORT);
            }
            let ip = [b[4], b[5], b[6], b[7]];
            assert(ip@ =~= b@.subrange(4, 8));
            Ok((ip, util::get_be16(b.as_slice(), 2)))
        },
    }
}

/// The bytes of the structure for an address.
fn encode_sockaddr_in(ip: [u8; 4], port: u16) -> (sa: [u8; 16])
    ensures
        sa@ == sockaddr_bytes(SockAddr { ip: ip@, port }),
{
    let sa = [
        2u8,
        0,
        (port / 0x100) as u8,
        (port % 0x100) as u8,
        ip[0],
        ip[1],
        ip[2],
        ip[3],
        0,
        0,
        0,
        0,
        0,
        0,
        0,
        0,
    ];
    assert(sa@ =~= sockaddr_bytes(SockAddr { ip: ip@, port }));
    sa
}

/// `socket(domain, type, protocol)`: what is to be asked of the network. The protocol is not used.
pub fn sys_socket(domain: u64, sock_type: u64, _protocol: u64) -> (r: NetCall)
    ensures
        r@ == (if domain != abi::AF_INET {
            NetCallView::Done((-abi::EAFNOSUPPORT) as i64)
        } else if sock_type == abi::SOCK_DGRAM {
            NetCallView::Open(SockKind::Udp)
        } else if sock_type == abi::SOCK_STREAM {
            NetCallView::Open(SockKind::Tcp)
        } else {
            NetCallView::Done((-abi::EPROTONOSUPPORT) as i64)
        }),
{
    if domain != abi::AF_INET {
        return NetCall::Done(-abi::EAFNOSUPPORT);
    }
    if sock_type == abi::SOCK_DGRAM {
        NetCall::Open(SockKind::Udp)
    } else if sock_type == abi::SOCK_STREAM {
        NetCall::Open(SockKind::Tcp)
    } else {
        NetCall::Done(-abi::EPROTONOSUPPORT)
    }
}

/// Finishes `socket` with what the network answered: the handle of a new socket, or the error.
pub fn socket_opened(k: &mut Kernel, kind: SockKind, made: Result<u64, i64>) -> (r: i64)
    requires
        old(k)@.wf(),
        made matches Err(e) ==> e > i64::MIN,
    ensures
        final(k)@.wf(),
        match made {
            Err(e) => final(k)@ == old(k)@ && r == -e,
            Ok(h) => (final(k)@, r) == old(k)@.socket_opened(h, kind),
        },
{
    match made {
        Err(e) => -e,
        Ok(h) => {
            let ghost before = k@;
            k.socks.insert(h, 1);
            assert(k@ == KView { socks: before.socks.insert(h, 1), ..before });
            files::alloc_fd(k, Fd::Socket(h, kind))
        },
    }
}

/// `connect(fd, addr, addrlen)`: what is to be asked of the network.
pub fn sys_connect(k: &mut Kernel, fd: u64, addr_ptr: u64, addrlen: u64) -> (r: NetCall)
    requires
        old(k)@.wf(),
    ensures
        final(k)@.wf(),
        final(k)@ == old(k)@.touched(),
        r@ == old(k)@.sys_connect(fd, addr_ptr, addrlen),
{
    let (handle, kind) = match socket_handle(k, fd) {
        Ok(v) => v,
        Err(e) => {
            return NetCall::Done(-e);
        },
    };
    if kind != SockKind::Tcp {
        return NetCall::Done(-abi::EOPNOTSUPP);
    }
    match parse_sockaddr_in(k, addr_ptr, addrlen) {
        Ok((ip, port)) => NetCall::Connect { handle, ip, port },
        Err(e) => NetCall::Done(-e),
    }
}

/// `bind(fd, addr, addrlen)`: what is to be asked of the network. The address is not used.
pub fn sys_bind(k: &mut Kernel, fd: u64, addr_ptr: u64, addrlen: u64) -> (r: NetCall)
    requires
        old(k)@.wf(),
    ensures
        final(k)@.wf(),
        final(k)@ == old(k)@.touched(),
        r@ == old(k)@.sys_bind(fd, addr_ptr, addrlen),
{
    let (handle, kind) = match socket_handle(k, fd) {
        Ok(v) => v,
        Err(e) => {
            return NetCall::Done(-e);
        },
    };
    if kind != SockKind::Udp {
        return NetCall::Done(-abi::EOPNOTSUPP);
    }
    match parse_sockaddr_in(k, addr_ptr, addrlen) {
        Ok((_, port)) => NetCall::Bind { handle, port },
        Err(e) => NetCall::Done(-e),
    }
}

/// Finishes `bind` or `connect`.
pub fn call_finished(answer: Result<(), i64>) -> (r: i64)
    requires
        answer matches Err(e) ==> e > i64::MIN,
    ensures
        r == (match answer {
            Ok(_) => 0int,
            Err(e) => -e,
        }),
{
    match answer {
        Ok(_) => 0,
        Err(e) => -e,
    }
}

/// `sendto(fd, buf, len, dest, addrlen)`: what is to be asked of the network.
pub fn sys_sendto(k: &mut Kernel, fd: u64, buf: u64, len: u64, dest_addr: u64, addrlen: u64) -> (r:
    NetCall)
    requires
        old(k)@.wf(),
    ensures
        final(k)@.wf(),
        final(k)@ == old(k)@.touched(),
        r@ == old(k)@.sys_sendto(fd, buf, len, dest_addr, addrlen),
{
    let (handle, kind) = match socket_handle(k, fd) {
        Ok(v) => v,
        Err(e) => {
            return NetCall::Done(-e);
        },
    };
    match kind {
        SockKind::Udp => {
            if len > MAX_DGRAM {
                return NetCall::Done(-abi::EMSGSIZE);
            }
            let (ip, port) = match parse_sockaddr_in(k, dest_addr, addrlen) {
                Ok(v) => v,
                Err(e) => {
                    return NetCall::Done(-e);
                },
            };
            match uaccess::with_user_bytes(&k.mem, buf, len) {
                Ok(data) => NetCall::SendTo { handle, data, ip, port },
                Err(e) => {
                    assert(e == abi::EFAULT);
                    NetCall::Done(-e)
                },
            }
        },
        SockKind::Tcp => {
            let chunk: u64 = if len < SOCK_IO_MAX { len } else { SOCK_IO_MAX };
            match uaccess::with_user_bytes(&k.mem, buf, chunk) {
                Ok(data) => NetCall::Send { handle, data },
                Err(e) => {
                    assert(e == abi::EFAULT);
                    NetCall::Done(-e)
                },
            }
        },
    }
}

/// Finishes `sendto` with how many bytes the network took, or the error.
pub fn send_finished(answer: Result<usize, i64>) -> (r: i64)
    requires
        answer matches Err(e) ==> e > i64::MIN,
        answer matches Ok(n) ==> n <= SOCK_IO_MAX,
    ensures
        r == (match answer {
            Ok(n) => n as int,
            Err(e) => -e,
        }),
{
    match answer {
        Ok(n) => n as i64,
        Err(e) => -e,
    }
}

/// `recvfrom(fd, buf, len, ...)`: what is to be asked of the network.
pub fn sys_recvfrom(k: &mut Kernel, fd: u64, len: u64) -> (r: NetCall)
    requires
        old(k)@.wf(),
    ensures
        final(k)@.wf(),
        final(k)@ == old(k)@.touched(),
        r@ == old(k)@.sys_recvfrom(fd, len),
{
    match socket_handle(k, fd) {
        Ok((handle, kind)) => {
            let cap: u64 = if len < SOCK_IO_MAX { len } else { SOCK_IO_MAX };
            NetCall::Recv { handle, kind, cap }
        },
        Err(e) => NetCall::Done(-e),
    }
}

/// Finishes `recvfrom` with what the network handed out: bytes, and address and port of the sender.
pub fn recv_finished(
    k: &mut Kernel,
    kind: SockKind,
    got: Result<(Vec<u8>, [u8; 4], u16), i64>,
    buf: u64,
    src_addr: u64,
    addrlen_ptr: u64,
) -> (r: i64)
    requires
        old(k)@.wf(),
        got matches Err(e) ==> e > i64::MIN,
    ensures
        final(k)@.wf(),
        match got {
            Err(e) => final(k)@ == old(k)@ && r == -e,
            Ok((data, ip, port)) => (final(k)@, r) == old(k)@.received(
                kind,
                data@,
                SockAddr { ip: ip@, port },
                buf,
                src_addr,
                addrlen_ptr,
            ),
        },
{
    let (data, ip, port) = match got {
        Ok(v) => v,
        Err(e) => {
            return -e;
        },
    };
    let r = files::hand_out(k, buf, data.as_slice());
    if r != 0 {
        return r;
    }
    if kind == SockKind::Udp && src_addr != 0 && addrlen_ptr != 0 {
        let want = match uaccess::with_user_bytes(&k.mem, addrlen_ptr, 4) {
            Ok(b) => util::get_u32(b.as_slice(), 0),
            Err(e) => {
                assert(e == abi::EFAULT);
                return -e;
            },
        };
        let sa = encode_sockaddr_in(ip, port);
        let w: usize = if want < 16 { want as usize } else { 16 };
        if w > 0 {
            let part = util::slice_to_vec(&sa, 0, w);
            assert(part@ =~= sa@.take(w as int));
            let r2 = files::hand_out(k, src_addr, part.as_slice());
            if r2 != 0 {
                return r2;
            }
        }
        let mut l = [0u8;4];
        util::put_u32(&mut l, 0, 16);
        assert(l@ =~= util::enc32(16));
        let r3 = files::hand_out(k, addrlen_ptr, &l);
        if r3 != 0 {
            return r3;
        }
    }
    data.len() as i64
}

/// An address that the kernel stores for a process is the one that the kernel reads back.
pub proof fn law_address_reads_back(a: SockAddr)
    requires
        a.ip.len() == 4,
    ensures
        sockaddr_bytes(a).len() == abi::SOCKADDR_IN_LEN,
        sockaddr_in(sockaddr_bytes(a)) == Ok::<SockAddr, i64>(a),
{
    let b = sockaddr_bytes(a);
    assert(b[0] == 2 && b[1] == 0);
    assert(b.subrange(4, 8) =~= a.ip);
    assert(util::be16(b, 2) == a.port);
}

} // verus!
