//! What calls on sockets and clocks do, each said of the bytes and numbers that a process sees.

use crate::mm::paging::MemView;
use crate::syscall::file_laws::{self, may_read, may_write, memory_gets};
use crate::syscall::files;
use crate::syscall::kernel::{FdView, KView, SockKind, MAX_FDS};
use crate::syscall::sockets::{self, NetCallView, SockAddr};
use crate::syscall::uaccess;
use crate::util;
use vstd::prelude::*;

verus! {

// ---------------------------------------------------------------------------------------------
// Sockets
// ---------------------------------------------------------------------------------------------

/// The sixteen bytes at `ptr` are an address: the number 2 in two bytes, the port with its high
/// byte first, and the four bytes of the host.
pub open spec fn address_at(m: MemView, ptr: u64, a: SockAddr) -> bool {
    &&& may_read(m, ptr, 16)
    &&& m.byte(ptr as int) == 2
    &&& m.byte(ptr + 1) == 0
    &&& 256 * m.byte(ptr + 2) + m.byte(ptr + 3) == a.port
    &&& a.ip == seq![m.byte(ptr + 4), m.byte(ptr + 5), m.byte(ptr + 6), m.byte(ptr + 7)]
}

proof fn lemma_address(k: KView, ptr: u64, len: u64, a: SockAddr)
    requires
        address_at(k.mem, ptr, a),
        len >= 16,
    ensures
        k.sockaddr_arg(ptr, len) == Ok::<SockAddr, i64>(a),
{
    let b = k.mem.bytes(ptr as int, 16);
    assert(uaccess::user_bytes(k.mem, ptr, 16) == Ok::<Seq<u8>, i64>(b));
    assert(b[0] == k.mem.byte(ptr + 0) && b[1] == k.mem.byte(ptr + 1));
    assert(b[2] == k.mem.byte(ptr + 2) && b[3] == k.mem.byte(ptr + 3));
    assert(b.subrange(4, 8) =~= a.ip) by {
        assert(b[4] == k.mem.byte(ptr + 4) && b[5] == k.mem.byte(ptr + 5));
        assert(b[6] == k.mem.byte(ptr + 6) && b[7] == k.mem.byte(ptr + 7));
    }
}

/// A socket is bound to the port, and connected to the host and the port, that the caller points
/// at. Datagram sockets are bound, stream sockets are connected; the other way round is refused.
pub proof fn law_socket_gets_the_address_pointed_at(
    k: KView,
    fd: u64,
    h: u64,
    kind: SockKind,
    ptr: u64,
    len: u64,
    a: SockAddr,
)
    requires
        k.proc().fd(fd) == Some(FdView::Socket(h, kind)),
        address_at(k.mem, ptr, a),
    ensures
        len >= 16 && kind is Udp ==> k.sys_bind(fd, ptr, len) == NetCallView::Bind(h, a.port),
        len >= 16 && kind is Tcp ==> k.sys_connect(fd, ptr, len) == NetCallView::Connect(h, a),
        kind is Tcp ==> k.sys_bind(fd, ptr, len) == NetCallView::Done(-95i64),
        kind is Udp ==> k.sys_connect(fd, ptr, len) == NetCallView::Done(-95i64),
        len < 16 && kind is Udp ==> k.sys_bind(fd, ptr, len) == NetCallView::Done(-22i64),
        len < 16 && kind is Tcp ==> k.sys_connect(fd, ptr, len) == NetCallView::Done(-22i64),
{
    if len >= 16 {
        lemma_address(k, ptr, len, a);
    }
}

/// What is sent are the bytes that the caller points at, to the address that it points at: all of
/// them in a datagram, of which there may be 1472; the first 4096 at most on a stream.
pub proof fn law_sent_bytes_are_those_pointed_at(
    k: KView,
    fd: u64,
    h: u64,
    buf: u64,
    len: u64,
    dest: u64,
    addrlen: u64,
    a: SockAddr,
)
    ensures
        k.proc().fd(fd) == Some(FdView::Socket(h, SockKind::Udp)) && len > 1472 ==> k.sys_sendto(
            fd,
            buf,
            len,
            dest,
            addrlen,
        ) == NetCallView::Done(-90i64),
        k.proc().fd(fd) == Some(FdView::Socket(h, SockKind::Udp)) && len <= 1472 && addrlen >= 16
            && address_at(k.mem, dest, a) && may_read(k.mem, buf, len as nat) ==> k.sys_sendto(
            fd,
            buf,
            len,
            dest,
            addrlen,
        ) == NetCallView::SendTo(h, Seq::new(len as nat, |i: int| k.mem.byte(buf + i)), a),
        k.proc().fd(fd) == Some(FdView::Socket(h, SockKind::Tcp)) ==> {
            let n = if len < 4096 {
                len as nat
            } else {
                4096
            };
            may_read(k.mem, buf, n) ==> k.sys_sendto(fd, buf, len, dest, addrlen)
                == NetCallView::Send(h, Seq::new(n, |i: int| k.mem.byte(buf + i)))
        },
{
    if addrlen >= 16 && address_at(k.mem, dest, a) {
        lemma_address(k, dest, addrlen, a);
    }
    assert(k.mem.bytes(buf as int, len as nat) =~= Seq::new(
        len as nat,
        |i: int| k.mem.byte(buf + i),
    ));
    assert(k.mem.bytes(buf as int, 4096) =~= Seq::new(4096, |i: int| k.mem.byte(buf + i)));
}

/// A receiving call asks its socket for as many bytes as the caller has room for, 4096 at most.
pub proof fn law_received_bytes_are_limited(k: KView, fd: u64, h: u64, kind: SockKind, len: u64)
    requires
        k.proc().fd(fd) == Some(FdView::Socket(h, kind)),
    ensures
        len <= 4096 ==> k.sys_recvfrom(fd, len) == NetCallView::Recv(h, kind, len),
        len > 4096 ==> k.sys_recvfrom(fd, len) == NetCallView::Recv(h, kind, 4096),
{
}

/// A call on what is no socket is refused, and so is one on what is no descriptor.
pub proof fn law_only_sockets_take_socket_calls(
    k: KView,
    fd: u64,
    a: u64,
    b: u64,
    c: u64,
    d: u64,
)
    requires
        !(k.proc().fd(fd) matches Some(FdView::Socket(_, _))),
    ensures
        ({
            let e = if k.proc().fd(fd) is None {
                -9i64
            } else {
                -88i64
            };
            &&& k.sys_bind(fd, a, b) == NetCallView::Done(e)
            &&& k.sys_connect(fd, a, b) == NetCallView::Done(e)
            &&& k.sys_sendto(fd, a, b, c, d) == NetCallView::Done(e)
            &&& k.sys_recvfrom(fd, a) == NetCallView::Done(e)
        }),
{
}

/// An address of another family than 2 is refused, and so is one that user mode may not read.
pub proof fn law_other_addresses_are_refused(k: KView, ptr: u64, len: u64)
    requires
        len >= 16,
    ensures
        !may_read(k.mem, ptr, 16) ==> k.sockaddr_arg(ptr, len) == Err::<SockAddr, i64>(14),
        may_read(k.mem, ptr, 16) && k.mem.byte(ptr as int) + 256 * k.mem.byte(ptr + 1) != 2
            ==> k.sockaddr_arg(ptr, len) == Err::<SockAddr, i64>(97),
{
    let b = k.mem.bytes(ptr as int, 16);
    assert(b[0] == k.mem.byte(ptr + 0) && b[1] == k.mem.byte(ptr + 1));
}

/// What has come in is put where the caller asks for it, and its length is returned. Where the
/// caller does not ask who has sent it, nothing else is stored.
pub proof fn law_received_bytes_reach_the_caller(
    k: KView,
    kind: SockKind,
    data: Seq<u8>,
    from: SockAddr,
    buf: u64,
    src: u64,
    len_ptr: u64,
)
    requires
        k.wf(),
        data.len() <= 65535,
        may_write(k.mem, buf, data.len()),
        kind is Tcp || src == 0 || len_ptr == 0,
    ensures
        ({
            let (k2, r) = k.received(kind, data, from, buf, src, len_ptr);
            &&& r == data.len()
            &&& memory_gets(k.mem, k2.mem, buf as int, data)
            &&& k2 == (KView { mem: k2.mem, ..k })
        }),
{
    file_laws::lemma_copied(k.mem, buf, data);
}

/// Who has sent a datagram is stored where the caller asks for it and has room: the family, the port
/// with its high byte first, and the host; and how long that is.
pub proof fn law_sender_reaches_the_caller(
    k: KView,
    data: Seq<u8>,
    from: SockAddr,
    buf: u64,
    src: u64,
    len_ptr: u64,
)
    requires
        k.wf(),
        data.len() <= 65535,
        from.ip.len() == 4,
        src != 0,
        len_ptr != 0,
        may_write(k.mem, buf, data.len()),
        may_write(k.mem, src, 16),
        may_write(k.mem, len_ptr, 4),
        buf + data.len() <= src || src + 16 <= buf,
        buf + data.len() <= len_ptr || len_ptr + 4 <= buf,
        src + 16 <= len_ptr || len_ptr + 4 <= src,
        util::le32(k.mem.bytes(len_ptr as int, 4), 0) >= 16,
    ensures
        ({
            let (k2, r) = k.received(SockKind::Udp, data, from, buf, src, len_ptr);
            &&& r == data.len()
            &&& forall|i: int| 0 <= i < data.len() ==> k2.mem.byte(buf + i) == #[trigger] data[i]
            &&& address_at(k2.mem, src, from)
            &&& util::le32(k2.mem.bytes(len_ptr as int, 4), 0) == 16
        }),
{
    let m = k.mem;
    file_laws::lemma_copied(m, buf, data);
    let m1 = uaccess::user_copied(m, buf, data).0;
    let b = m.bytes(len_ptr as int, 4);
    lemma_writable(m, m1, buf as int, data);
    assert(m1.bytes(len_ptr as int, 4) =~= b) by {
        assert forall|i: int| 0 <= i < 4 implies #[trigger] m1.bytes(len_ptr as int, 4)[i] == b[i] by {
            assert(m.user_ok(len_ptr + i, true));
            assert(m1.byte(len_ptr + i) == m.byte(len_ptr + i));
        }
    }
    assert(may_read(m1, len_ptr, 4)) by {
        assert forall|a: int| len_ptr <= a < len_ptr + 4 implies #[trigger] m1.user_ok(a, false) by {
            assert(m.user_ok(a, true));
            assert(m.user_ok(a, false));
        }
    }
    assert(uaccess::user_bytes(m1, len_ptr, 4) == Ok::<Seq<u8>, i64>(b));
    let sb = sockets::sockaddr_bytes(from);
    sockets::law_address_reads_back(from);
    assert(sb.take(16) =~= sb);
    file_laws::lemma_copied(m1, src, sb);
    let m2 = uaccess::user_copied(m1, src, sb).0;
    lemma_writable(m1, m2, src as int, sb);
    let e = util::enc32(16);
    util::lemma_le32_enc32(16);
    file_laws::lemma_copied(m2, len_ptr, e);
    let m3 = uaccess::user_copied(m2, len_ptr, e).0;
    assert forall|i: int| 0 <= i < data.len() implies m3.byte(buf + i) == #[trigger] data[i] by {
        assert(m.user_ok(buf + i, true));
        assert(m1.byte(buf + i) == data[i]);
        assert(m1.user_ok(buf + i, true));
        assert(m2.byte(buf + i) == m1.byte(buf + i));
        assert(m2.user_ok(buf + i, true));
        assert(m3.byte(buf + i) == m2.byte(buf + i));
    }
    assert forall|i: int| 0 <= i < 16 implies m3.byte(src + i) == #[trigger] sb[i] by {
        assert(m1.user_ok(src + i, true));
        assert(m2.byte(src + i) == sb[i]);
        assert(m2.user_ok(src + i, true));
        assert(m3.byte(src + i) == m2.byte(src + i));
    }
    assert(sb[0] == 2 && sb[1] == 0);
    assert(m3.byte(src + 0) == sb[0] && m3.byte(src + 1) == sb[1]);
    assert(m3.byte(src + 2) == sb[2] && m3.byte(src + 3) == sb[3]);
    assert(m3.byte(src + 4) == sb[4] && m3.byte(src + 5) == sb[5]);
    assert(m3.byte(src + 6) == sb[6] && m3.byte(src + 7) == sb[7]);
    assert(from.ip =~= seq![sb[4], sb[5], sb[6], sb[7]]);
    assert forall|a: int| src <= a < src + 16 implies #[trigger] m3.user_ok(a, false) by {
        assert(m.user_ok(a, true));
        assert(m.user_ok(a, false));
        assert(m1.user_ok(a, false));
        assert(m2.user_ok(a, false));
    }
}

/// What may be written may still be written.
proof fn lemma_writable(m: MemView, m2: MemView, start: int, data: Seq<u8>)
    requires
        memory_gets(m, m2, start, data),
    ensures
        forall|s: u64, n: nat| may_write(m, s, n) ==> #[trigger] may_write(m2, s, n),
{
    assert forall|s: u64, n: nat| may_write(m, s, n) implies #[trigger] may_write(m2, s, n) by {
        assert forall|a: int| s <= a < s + n implies #[trigger] m2.user_ok(a, true) by {
            assert(m.user_ok(a, true));
        }
    }
}

// ---------------------------------------------------------------------------------------------
// Clocks
// ---------------------------------------------------------------------------------------------

/// Two words that stand one behind the other.
proof fn lemma_time(sec: u64, frac: u64)
    ensures
        ({
            let b = crate::syscall::time::time_bytes(sec, frac);
            b.len() == 16 && util::le64(b, 0) == sec && util::le64(b, 8) == frac
        }),
{
    let b = crate::syscall::time::time_bytes(sec, frac);
    let x = util::enc64(sec);
    let y = util::enc64(frac);
    util::lemma_le64_enc64(sec);
    util::lemma_le64_enc64(frac);
    assert(b[0] == x[0] && b[1] == x[1] && b[2] == x[2] && b[3] == x[3]);
    assert(b[4] == x[4] && b[5] == x[5] && b[6] == x[6] && b[7] == x[7]);
    assert(b[8] == y[0] && b[9] == y[1] && b[10] == y[2] && b[11] == y[3]);
    assert(b[12] == y[4] && b[13] == y[5] && b[14] == y[6] && b[15] == y[7]);
}

/// The time is told in seconds and the nanoseconds, or microseconds, behind them: together they are
/// the time that has passed. There are two clocks, 0 and 1, which tell the same.
pub proof fn law_clocks_tell_the_time(k: KView, id: u64, ptr: u64, now: u64)
    requires
        k.wf(),
        may_write(k.mem, ptr, 16),
        ptr != 0,
    ensures
        id <= 1 ==> {
            let (k2, r) = k.sys_clock_gettime(id, ptr, now);
            let b = k2.mem.bytes(ptr as int, 16);
            &&& r == 0
            &&& util::le64(b, 0) * 1_000_000_000 + util::le64(b, 8) == now
            &&& util::le64(b, 8) < 1_000_000_000
            &&& memory_gets(k.mem, k2.mem, ptr as int, b)
            &&& k2 == (KView { mem: k2.mem, ..k })
        },
        id > 1 ==> k.sys_clock_gettime(id, ptr, now) == (k, -22i64),
        ({
            let (k2, r) = k.sys_gettimeofday(ptr, now);
            let b = k2.mem.bytes(ptr as int, 16);
            let usec = util::le64(b, 0) * 1_000_000 + util::le64(b, 8);
            &&& r == 0
            &&& util::le64(b, 8) < 1_000_000
            &&& usec * 1000 <= now < usec * 1000 + 1000
        }),
        ({
            let (k2, r) = k.sys_time(ptr, now);
            &&& r * 1_000_000_000 <= now < (r + 1) * 1_000_000_000
            &&& util::le64(k2.mem.bytes(ptr as int, 8), 0) == r
        }),
        k.sys_time(0, now).0 == k && k.sys_time(0, now).1 == k.sys_time(ptr, now).1,
        k.sys_gettimeofday(0, now) == (k, 0i64),
{
    let sec = now / 1_000_000_000;
    let ns = now % 1_000_000_000;
    let us = ns / 1000;
    lemma_time(sec, ns);
    lemma_time(sec, us);
    file_laws::lemma_copied(k.mem, ptr, crate::syscall::time::time_bytes(sec, ns));
    file_laws::lemma_copied(k.mem, ptr, crate::syscall::time::time_bytes(sec, us));
    util::lemma_le64_enc64(sec);
    assert(may_write(k.mem, ptr, 8)) by {
        assert forall|a: int| ptr <= a < ptr + 8 implies #[trigger] k.mem.user_ok(a, true) by {}
    }
    file_laws::lemma_copied(k.mem, ptr, util::enc64(sec));
}

/// A socket that the network has made is reached by the lowest descriptor that is free, and by no
/// other yet. Where there is none the process is told so.
pub proof fn law_new_socket_has_one_descriptor(k: KView, h: u64, kind: SockKind, other: u64)
    requires
        k.wf(),
        k.proc().fds.len() <= MAX_FDS,
    ensures
        ({
            let (k2, r) = k.socket_opened(h, kind);
            &&& r >= 0 ==> {
                &&& k.proc().fd(r as u64) is None
                &&& k2.proc().fd(r as u64) == Some(FdView::Socket(h, kind))
                &&& k2.socks.dom().contains(h) && k2.socks[h] == 1
                &&& forall|j: u64| j < r ==> #[trigger] k.proc().fd(j) is Some
                &&& other != r ==> k2.proc().fd(other) == k.proc().fd(other)
            }
            &&& r < 0 ==> r == -24
        }),
{
    let k1 = KView { socks: k.socks.insert(h, 1), ..k };
    assert(k1.proc() == k.proc());
    files::lemma_free_slot(k1.proc().fds, 0);
    files::lemma_fd_allocated(k1, FdView::Socket(h, kind));
}

} // verus!
