//! What holds of work on one file that is done in several steps: a write of several buffers is one
//! write, a read into several buffers is one read, and a directory that is read until its end is
//! read whole.

use crate::fs::fat_dir::ItemView;
use crate::mm::paging::{self, MemView};
use crate::syscall::abi;
use crate::syscall::dirents;
use crate::syscall::io::{self, VecProgress};
use crate::syscall::kernel::{FdView, FileView, KView};
use crate::syscall::uaccess::{self, USER_SPACE_END};
use crate::util;
use vstd::prelude::*;

verus! {

// ---------------------------------------------------------------------------------------------
// Several buffers written
// ---------------------------------------------------------------------------------------------

/// The bytes of the `n` listed buffers from number `i` on, up to the first that cannot be read, and
/// the error that this one gives.
pub open spec fn gathered(m: MemView, iov: u64, n: u64, i: int) -> (Seq<u8>, Option<i64>)
    decreases n - i,
{
    if i >= n {
        (Seq::empty(), None)
    } else {
        match io::iovec(m, iov, i as u64) {
            Err(e) => (Seq::empty(), Some(e)),
            Ok((base, len)) => match uaccess::user_bytes(m, base, len) {
                Err(e) => (Seq::empty(), Some(e)),
                Ok(b) => {
                    let rest = gathered(m, iov, n, i + 1);
                    (b + rest.0, rest.1)
                },
            },
        }
    }
}

/// A file is open as descriptor `fd`.
pub open spec fn is_file(k: KView, fd: u64, f: FileView) -> bool {
    k.proc().fd(fd) == Some(FdView::File(f))
}

/// The kernel after `b` was written to the file that is open as `fd`. Nothing happens where there
/// is nothing to be written.
pub open spec fn wrote(k: KView, fd: u64, f: FileView, b: Seq<u8>) -> KView {
    if b.len() == 0 {
        k
    } else {
        k.fd_set(fd, Some(FdView::File(io::file_after_write(f, b))))
    }
}

/// What is known of a process that has an open file.
proof fn lemma_file_is_there(k: KView, fd: u64, f: FileView, g: FileView)
    requires
        is_file(k, fd, f),
    ensures
        k.procs.dom().contains(k.key),
        k.touched() == k,
        is_file(k.fd_set(fd, Some(FdView::File(g))), fd, g),
        k.fd_set(fd, Some(FdView::File(f))) == k,
{
    assert(k.touched().procs =~= k.procs);
    assert(k.proc().with_fd(fd as int, Some(FdView::File(f))).fds =~= k.proc().fds);
    assert(k.fd_set(fd, Some(FdView::File(f))).procs =~= k.procs);
}

/// A descriptor that is set twice is what it was set to last.
proof fn lemma_set_twice(k: KView, fd: u64, a: FileView, b: FileView)
    requires
        fd < k.proc().fds.len(),
    ensures
        k.fd_set(fd, Some(FdView::File(a))).fd_set(fd, Some(FdView::File(b))) == k.fd_set(
            fd,
            Some(FdView::File(b)),
        ),
{
    let k1 = k.fd_set(fd, Some(FdView::File(a)));
    let k2 = k1.fd_set(fd, Some(FdView::File(b)));
    let k3 = k.fd_set(fd, Some(FdView::File(b)));
    assert(k1.proc().with_fd(fd as int, Some(FdView::File(b))).fds =~= k.proc().with_fd(
        fd as int,
        Some(FdView::File(b)),
    ).fds);
    assert(k2.procs =~= k3.procs);
}

/// Two writes in a row are one write of both.
proof fn lemma_write_twice(f: FileView, a: Seq<u8>, b: Seq<u8>)
    requires
        f.offset + a.len() + b.len() <= u64::MAX,
        a.len() > 0,
    ensures
        b.len() > 0 ==> io::file_after_write(io::file_after_write(f, a), b) == io::file_after_write(
            f,
            a + b,
        ),
        b.len() == 0 ==> io::file_after_write(f, a + b) == io::file_after_write(f, a),
{
    let g = io::file_after_write(f, a);
    let h = io::file_after_write(g, b);
    let w = io::file_after_write(f, a + b);
    if b.len() > 0 {
        assert(h.data =~= w.data);
    } else {
        assert(a + b =~= a);
    }
}

/// Writing buffers in turn writes what can be gathered of them.
proof fn lemma_buffers_written(
    k: KView,
    fd: u64,
    f: FileView,
    iov: u64,
    n: u64,
    user_rsp: u64,
    i: int,
    total: int,
)
    requires
        is_file(k, fd, f),
        f.writable,
        !f.is_dir,
        0 <= i,
        0 <= total,
        f.offset + gathered(k.mem, iov, n, i).0.len() <= u64::MAX,
    ensures
        ({
            let (b, err) = gathered(k.mem, iov, n, i);
            &&& k.buffers_written(fd, iov, n, user_rsp, i, total).0 == wrote(k, fd, f, b)
            &&& k.buffers_written(fd, iov, n, user_rsp, i, total).1 == (if total + b.len() == 0
                && err is Some {
                (-err->0) as i64
            } else {
                (total + b.len()) as i64
            })
        }),
    decreases n - i,
{
    if i < n {
        lemma_file_is_there(k, fd, f, f);
        if let Ok((base, len)) = io::iovec(k.mem, iov, i as u64) {
            if let Ok(b0) = uaccess::user_bytes(k.mem, base, len) {
                let rest = gathered(k.mem, iov, n, i + 1).0;
                assert(b0.len() == len);
                if len == 0 {
                    assert(b0 + rest =~= rest);
                    lemma_buffers_written(k, fd, f, iov, n, user_rsp, i + 1, total);
                } else {
                    let g = io::file_after_write(f, b0);
                    let k1 = k.fd_set(fd, Some(FdView::File(g)));
                    lemma_file_is_there(k, fd, f, g);
                    lemma_write_twice(f, b0, rest);
                    lemma_set_twice(k, fd, g, io::file_after_write(g, rest));
                    lemma_buffers_written(k1, fd, g, iov, n, user_rsp, i + 1, total + len);
                }
            }
        }
    }
}

/// `writev` on a file is one write of its buffers put together: of all of them where they can be
/// read, else of those before the first that cannot, whose error counts only where there is
/// nothing to be written. Too many buffers are refused.
pub proof fn law_writev_is_one_write(
    k: KView,
    fd: u64,
    f: FileView,
    iov: u64,
    iovcnt: u64,
    user_rsp: u64,
    buf: u64,
    count: u64,
)
    requires
        is_file(k, fd, f),
        f.writable,
        !f.is_dir,
        f.offset + gathered(k.mem, iov, iovcnt, 0).0.len() <= u64::MAX,
    ensures
        ({
            let (k2, r) = k.sys_writev(fd, iov, iovcnt, user_rsp);
            let (b, err) = gathered(k.mem, iov, iovcnt, 0);
            &&& iovcnt > abi::IOV_MAX ==> k2 == k && r == -abi::EINVAL
            &&& iovcnt <= abi::IOV_MAX ==> k2 == wrote(k, fd, f, b) && r == (if b.len() == 0 && err
                is Some {
                (-err->0) as i64
            } else {
                b.len() as i64
            })
            &&& iovcnt <= abi::IOV_MAX && b.len() > 0 && uaccess::user_bytes(k.mem, buf, count)
                == Ok::<Seq<u8>, i64>(b) ==> k.sys_write(fd, buf, count, user_rsp) == (k2, r)
        }),
{
    lemma_file_is_there(k, fd, f, f);
    if iovcnt <= abi::IOV_MAX {
        lemma_buffers_written(k, fd, f, iov, iovcnt, user_rsp, 0, 0);
    }
}

// ---------------------------------------------------------------------------------------------
// Several buffers read into
// ---------------------------------------------------------------------------------------------

/// How many bytes buffers hold.
pub open spec fn room(bufs: Seq<(u64, u64)>) -> nat
    decreases bufs.len(),
{
    if bufs.len() == 0 {
        0
    } else {
        bufs[0].1 as nat + room(bufs.skip(1))
    }
}

/// Memory with `data` put into buffers one after the other, as far as it goes.
pub open spec fn scattered(m: MemView, bufs: Seq<(u64, u64)>, data: Seq<u8>) -> MemView
    decreases bufs.len(),
{
    if bufs.len() == 0 || data.len() == 0 {
        m
    } else {
        let n = util::min_nat(data.len(), bufs[0].1 as nat) as int;
        scattered(m.written(bufs[0].0 as int, data.take(n)), bufs.skip(1), data.skip(n))
    }
}

/// What of `data` goes into buffer number `j`.
pub open spec fn part(bufs: Seq<(u64, u64)>, data: Seq<u8>, j: int) -> Seq<u8>
    decreases bufs.len(),
{
    if bufs.len() == 0 {
        Seq::empty()
    } else {
        let n = util::min_nat(data.len(), bufs[0].1 as nat) as int;
        if j <= 0 {
            data.take(n)
        } else {
            part(bufs.skip(1), data.skip(n), j - 1)
        }
    }
}

/// The list at `iov` holds the buffers `bufs` from number `at` on.
pub open spec fn listed(m: MemView, iov: u64, bufs: Seq<(u64, u64)>, at: int) -> bool {
    forall|j: int|
        0 <= j < bufs.len() ==> io::iovec(m, iov, (at + j) as u64) == Ok::<(u64, u64), i64>(
            #[trigger] bufs[j],
        )
}

/// A buffer lies apart from the entries of a list at `iov` of `n` buffers, from entry `from` on.
pub open spec fn apart_from_list(buf: (u64, u64), iov: u64, from: int, n: int) -> bool {
    buf.1 == 0 || from >= n || buf.0 + buf.1 <= iov + 16 * from || iov + 16 * n <= buf.0
}

/// User mode may write to all buffers, of which the first is entry `at` of the list, and those
/// that `left` bytes fill whole lie apart from the entries that are still to be read then.
pub open spec fn fillable(
    m: MemView,
    iov: u64,
    n: u64,
    bufs: Seq<(u64, u64)>,
    at: int,
    left: int,
) -> bool {
    forall|j: int|
        0 <= j < bufs.len() ==> {
            &&& uaccess::user_range(m, (#[trigger] bufs[j]).0, bufs[j].1, true)
            &&& room(bufs.take(j + 1)) <= left ==> apart_from_list(
                bufs[j],
                iov,
                at + j + 1,
                n as int,
            )
        }
}

/// Buffers of which the first is taken away hold so much less.
proof fn lemma_room_skip(bufs: Seq<(u64, u64)>, j: int)
    requires
        0 <= j < bufs.len(),
    ensures
        room(bufs.take(j + 1)) == bufs[0].1 + room(bufs.skip(1).take(j)),
{
    assert(bufs.take(j + 1).skip(1) =~= bufs.skip(1).take(j));
}

/// What is left of a file from its position on, `n` bytes at most.
pub open spec fn rest_of(f: FileView, n: nat) -> Seq<u8> {
    let start = util::min_nat(f.offset as nat, f.data.len()) as int;
    f.data.subrange(start, start + util::min_nat((f.data.len() - start) as nat, n))
}

/// A copy to user memory leaves who may access what.
proof fn lemma_range_kept(m: MemView, base: u64, b: Seq<u8>, s: u64, len: u64, need_write: bool)
    requires
        m.wf(),
        b.len() <= u64::MAX,
        uaccess::user_copied(m, base, b).1 is Ok,
    ensures
        m.written(base as int, b).wf(),
        uaccess::user_range(m.written(base as int, b), s, len, need_write) == uaccess::user_range(
            m,
            s,
            len,
            need_write,
        ),
{
    let m2 = m.written(base as int, b);
    paging::lemma_written(m, base as int, b);
    assert forall|a: int| #[trigger] m2.user_ok(a, need_write) == m.user_ok(a, need_write) by {
        uaccess::law_copy_stays_in_user_memory(m, base, b, a);
    }
    if m.accessible(s, len, need_write) && len > 0 {
        assert forall|a: int| s <= a < s + len implies #[trigger] m2.user_ok(a, need_write) by {
            assert(m.user_ok(a, need_write));
        }
    }
    if m2.accessible(s, len, need_write) && len > 0 {
        assert forall|a: int| s <= a < s + len implies #[trigger] m.user_ok(a, need_write) by {
            assert(m2.user_ok(a, need_write));
        }
    }
}

/// A copy to user memory apart from an entry of a list of buffers leaves the entry.
proof fn lemma_iovec_kept(m: MemView, base: u64, b: Seq<u8>, iov: u64, i: u64)
    requires
        m.wf(),
        b.len() <= u64::MAX,
        uaccess::user_copied(m, base, b).1 is Ok,
        base + b.len() <= iov + 16 * i || iov + 16 * i + 16 <= base,
    ensures
        io::iovec(m.written(base as int, b), iov, i) == io::iovec(m, iov, i),
{
    if iov + i * 16 <= u64::MAX {
        let at = (iov + i * 16) as u64;
        lemma_range_kept(m, base, b, at, 16, false);
        if uaccess::user_range(m, at, 16, false) {
            assert forall|a: int| at <= a < at + 16 implies #[trigger] m.mapped(a) by {
                assert(m.user_ok(a, false));
            }
            paging::lemma_bytes_apart(m, base as int, b, at as int, 16);
        }
    }
}

/// A part of a range that user mode may access is accessible.
proof fn lemma_range_part(m: MemView, start: u64, len: u64, n: u64)
    requires
        uaccess::user_range(m, start, len, true),
        n <= len,
    ensures
        uaccess::user_range(m, start, n, true),
{
    if n > 0 {
        assert forall|a: int| start <= a < start + n implies #[trigger] m.user_ok(a, true) by {}
    }
}

/// Buffers in user space hold a limited number of bytes.
proof fn lemma_room(m: MemView, bufs: Seq<(u64, u64)>)
    requires
        forall|j: int|
            0 <= j < bufs.len() ==> uaccess::user_range(m, (#[trigger] bufs[j]).0, bufs[j].1, true),
    ensures
        room(bufs) <= bufs.len() * USER_SPACE_END,
    decreases bufs.len(),
{
    if bufs.len() > 0 {
        let rest = bufs.skip(1);
        assert forall|j: int| 0 <= j < rest.len() implies uaccess::user_range(
            m,
            (#[trigger] rest[j]).0,
            rest[j].1,
            true,
        ) by {
            assert(rest[j] == bufs[j + 1]);
        }
        lemma_room(m, rest);
        assert(uaccess::user_range(m, bufs[0].0, bufs[0].1, true));
    }
}

/// The first buffer of a list takes what is put into it.
proof fn lemma_first_filled(
    m: MemView,
    b0: Seq<u8>,
    iov: u64,
    n: u64,
    bufs: Seq<(u64, u64)>,
    at: int,
    left: int,
)
    requires
        m.wf(),
        bufs.len() > 0,
        b0.len() <= bufs[0].1,
        fillable(m, iov, n, bufs, at, left),
    ensures
        uaccess::user_copied(m, bufs[0].0, b0) == (m.written(bufs[0].0 as int, b0), Ok::<(), i64>(())),
        m.written(bufs[0].0 as int, b0).wf(),
{
    assert(uaccess::user_range(m, bufs[0].0, bufs[0].1, true));
    lemma_range_part(m, bufs[0].0, bufs[0].1, b0.len() as u64);
    lemma_range_kept(m, bufs[0].0, b0, 0, 0, true);
}

/// Filling the first buffer of a list whole leaves the rest of the list and its buffers.
proof fn lemma_list_kept(
    m: MemView,
    b0: Seq<u8>,
    iov: u64,
    n: u64,
    bufs: Seq<(u64, u64)>,
    at: int,
    left: int,
)
    requires
        m.wf(),
        bufs.len() > 0,
        b0.len() == bufs[0].1,
        b0.len() == 0 || b0.len() <= left,
        0 <= at,
        at + bufs.len() == n,
        listed(m, iov, bufs, at),
        fillable(m, iov, n, bufs, at, left),
    ensures
        listed(m.written(bufs[0].0 as int, b0), iov, bufs.skip(1), at + 1),
        fillable(m.written(bufs[0].0 as int, b0), iov, n, bufs.skip(1), at + 1, left - b0.len()),
{
    let (base, len) = bufs[0];
    let rest = bufs.skip(1);
    let m1 = m.written(base as int, b0);
    lemma_first_filled(m, b0, iov, n, bufs, at, left);
    lemma_room_skip(bufs, 0);
    assert(room(rest.take(0)) == 0);
    assert(bufs[0].1 > 0 ==> apart_from_list(bufs[0], iov, at + 1, n as int));
    assert forall|j: int| 0 <= j < rest.len() implies io::iovec(m1, iov, (at + 1 + j) as u64)
        == Ok::<(u64, u64), i64>(#[trigger] rest[j]) by {
        assert(bufs[j + 1] == rest[j]);
        if len > 0 {
            lemma_iovec_kept(m, base, b0, iov, (at + 1 + j) as u64);
        } else {
            paging::lemma_written_nothing(m, base as int);
            assert(b0 =~= Seq::<u8>::empty());
        }
    }
    assert forall|j: int| 0 <= j < rest.len() implies {
        &&& uaccess::user_range(m1, (#[trigger] rest[j]).0, rest[j].1, true)
        &&& room(rest.take(j + 1)) <= left - b0.len() ==> apart_from_list(
            rest[j],
            iov,
            at + 1 + j + 1,
            n as int,
        )
    } by {
        assert(bufs[j + 1] == rest[j]);
        lemma_room_skip(bufs, j + 1);
        lemma_range_kept(m, base, b0, rest[j].0, rest[j].1, true);
    }
}

/// What is left of a file comes in two parts where the first is read whole.
proof fn lemma_rest_in_parts(f: FileView, len: u64, more: nat)
    requires
        f.data.len() <= u64::MAX,
        len > 0,
    ensures
        ({
            let b0 = io::file_rest(f, len);
            let f1 = FileView { offset: (f.offset + b0.len()) as u64, ..f };
            &&& b0.len() <= len
            &&& b0.len() < len ==> rest_of(f, len as nat + more) == b0
            &&& b0.len() == len ==> f1.offset == f.offset + len && rest_of(f, len as nat + more) == b0
                + rest_of(f1, more)
        }),
{
    let b0 = io::file_rest(f, len);
    let f1 = FileView { offset: (f.offset + b0.len()) as u64, ..f };
    let b = rest_of(f, len as nat + more);
    if b0.len() < len {
        assert(b =~= b0);
    } else {
        assert(b =~= b0 + rest_of(f1, more));
    }
}

/// Data that goes into buffers goes into the first, and what it does not hold into the others.
proof fn lemma_scattered_step(m: MemView, bufs: Seq<(u64, u64)>, b0: Seq<u8>, b1: Seq<u8>)
    requires
        bufs.len() > 0,
        b0.len() <= bufs[0].1,
        b0.len() < bufs[0].1 ==> b1.len() == 0,
    ensures
        scattered(m, bufs, b0 + b1) == scattered(m.written(bufs[0].0 as int, b0), bufs.skip(1), b1),
{
    let b = b0 + b1;
    if b.len() == 0 {
        assert(b0 =~= Seq::<u8>::empty());
        paging::lemma_written_nothing(m, bufs[0].0 as int);
    } else {
        let n = util::min_nat(b.len(), bufs[0].1 as nat) as int;
        assert(b.take(n) =~= b0);
        assert(b.skip(n) =~= b1);
    }
}

/// The kernel after `b` was read from the file that is open as `fd` into memory `m`.
pub open spec fn read_on(k: KView, fd: u64, f: FileView, m: MemView, b: Seq<u8>) -> KView {
    KView {
        mem: m,
        ..k.fd_set(fd, Some(FdView::File(FileView { offset: (f.offset + b.len()) as u64, ..f })))
    }
}

/// Two reads in a row are one.
proof fn lemma_read_twice(
    k: KView,
    fd: u64,
    f: FileView,
    m1: MemView,
    b0: Seq<u8>,
    m2: MemView,
    b1: Seq<u8>,
)
    requires
        is_file(k, fd, f),
        f.offset + b0.len() <= u64::MAX,
    ensures
        ({
            let k1 = read_on(k, fd, f, m1, b0);
            let f1 = FileView { offset: (f.offset + b0.len()) as u64, ..f };
            &&& k1.mem == m1
            &&& is_file(k1, fd, f1)
            &&& read_on(k1, fd, f1, m2, b1) == read_on(k, fd, f, m2, b0 + b1)
        }),
{
    let f1 = FileView { offset: (f.offset + b0.len()) as u64, ..f };
    let f2 = FileView { offset: (f1.offset + b1.len()) as u64, ..f };
    lemma_file_is_there(k, fd, f, f1);
    lemma_set_twice(k, fd, f1, f2);
    let k1 = read_on(k, fd, f, m1, b0);
    assert(k1.proc() == k.fd_set(fd, Some(FdView::File(f1))).proc());
    assert(read_on(k1, fd, f1, m2, b1).procs == k.fd_set(fd, Some(FdView::File(f1))).fd_set(
        fd,
        Some(FdView::File(f2)),
    ).procs);
}

/// Reading into buffers in turn reads what one read of their whole length does.
proof fn lemma_buffers_read(
    k: KView,
    fd: u64,
    f: FileView,
    iov: u64,
    n: u64,
    bufs: Seq<(u64, u64)>,
    at: int,
    total: int,
)
    requires
        k.mem.wf(),
        is_file(k, fd, f),
        !f.is_dir,
        f.data.len() <= u64::MAX,
        n <= abi::IOV_MAX,
        0 <= at,
        at + bufs.len() == n,
        0 <= total,
        listed(k.mem, iov, bufs, at),
        fillable(k.mem, iov, n, bufs, at, f.data.len() - f.offset),
    ensures
        ({
            let b = rest_of(f, room(bufs));
            let (k2, r) = k.buffers_read(fd, iov, n, at, total);
            &&& k2 == read_on(k, fd, f, scattered(k.mem, bufs, b), b)
            &&& r == VecProgress::Done((total + b.len()) as i64)
        }),
    decreases bufs.len(),
{
    lemma_file_is_there(k, fd, f, f);
    if bufs.len() == 0 {
        assert(rest_of(f, 0) =~= Seq::empty());
    } else {
        let (base, len) = bufs[0];
        let rest = bufs.skip(1);
        assert(io::iovec(k.mem, iov, (at + 0) as u64) == Ok::<(u64, u64), i64>(bufs[0]));
        if len == 0 {
            let none = Seq::<u8>::empty();
            lemma_list_kept(k.mem, none, iov, n, bufs, at, f.data.len() - f.offset);
            paging::lemma_written_nothing(k.mem, base as int);
            lemma_buffers_read(k, fd, f, iov, n, rest, at + 1, total);
            let b = rest_of(f, room(rest));
            lemma_scattered_step(k.mem, bufs, none, b);
            assert(none + b =~= b);
        } else {
            let b0 = io::file_rest(f, len);
            let f1 = FileView { offset: (f.offset + b0.len()) as u64, ..f };
            let b1 = if b0.len() < len {
                Seq::empty()
            } else {
                rest_of(f1, room(rest))
            };
            lemma_rest_in_parts(f, len, room(rest));
            let left = f.data.len() - f.offset;
            lemma_first_filled(k.mem, b0, iov, n, bufs, at, left);
            lemma_scattered_step(k.mem, bufs, b0, b1);
            assert(b0.len() < len ==> b0 + b1 =~= b0);
            let m1 = k.mem.written(base as int, b0);
            let k1 = read_on(k, fd, f, m1, b0);
            if b0.len() == len {
                lemma_list_kept(k.mem, b0, iov, n, bufs, at, left);
                lemma_read_twice(k, fd, f, m1, b0, scattered(m1, rest, b1), b1);
                lemma_buffers_read(k1, fd, f1, iov, n, rest, at + 1, total + len);
            }
        }
    }
}

/// What a buffer apart from others holds once they are filled.
proof fn lemma_apart_from_scattered(
    m: MemView,
    bufs: Seq<(u64, u64)>,
    data: Seq<u8>,
    start: int,
    len: nat,
)
    requires
        m.wf(),
        m.all_mapped(start, len as int),
        forall|j: int|
            0 <= j < bufs.len() ==> start + len <= (#[trigger] bufs[j]).0 || bufs[j].0 + bufs[j].1
                <= start,
    ensures
        scattered(m, bufs, data).bytes(start, len) == m.bytes(start, len),
    decreases bufs.len(),
{
    if bufs.len() > 0 && data.len() > 0 {
        let n = util::min_nat(data.len(), bufs[0].1 as nat) as int;
        let m1 = m.written(bufs[0].0 as int, data.take(n));
        let rest = bufs.skip(1);
        assert(start + len <= bufs[0].0 || bufs[0].0 + bufs[0].1 <= start);
        paging::lemma_written(m, bufs[0].0 as int, data.take(n));
        paging::lemma_bytes_apart(m, bufs[0].0 as int, data.take(n), start, len);
        assert forall|j: int| 0 <= j < rest.len() implies start + len <= (#[trigger] rest[j]).0
            || rest[j].0 + rest[j].1 <= start by {
            assert(rest[j] == bufs[j + 1]);
        }
        assert forall|a: int| start <= a < start + len implies #[trigger] m1.mapped(a) by {
            assert(m.mapped(a));
        }
        lemma_apart_from_scattered(m1, rest, data.skip(n), start, len);
    }
}

/// Buffers that are apart hold their parts of what was put into them.
proof fn lemma_scattered_parts(m: MemView, bufs: Seq<(u64, u64)>, data: Seq<u8>, j: int)
    requires
        m.wf(),
        0 <= j < bufs.len(),
        forall|i: int|
            0 <= i < bufs.len() ==> m.all_mapped((#[trigger] bufs[i]).0 as int, bufs[i].1 as int),
        buffers_apart(bufs),
    ensures
        scattered(m, bufs, data).bytes(bufs[j].0 as int, part(bufs, data, j).len()) == part(
            bufs,
            data,
            j,
        ),
    decreases bufs.len(),
{
    let n = util::min_nat(data.len(), bufs[0].1 as nat) as int;
    let first = data.take(n);
    let rest = bufs.skip(1);
    assert(m.all_mapped(bufs[0].0 as int, bufs[0].1 as int));
    if data.len() == 0 {
        lemma_no_part(bufs, data, j);
        assert(m.bytes(bufs[j].0 as int, 0) =~= Seq::<u8>::empty());
    } else {
        let m1 = m.written(bufs[0].0 as int, first);
        paging::lemma_written(m, bufs[0].0 as int, first);
        assert forall|i: int| 0 <= i < rest.len() implies m1.all_mapped(
            (#[trigger] rest[i]).0 as int,
            rest[i].1 as int,
        ) by {
            assert(rest[i] == bufs[i + 1]);
            assert forall|a: int| rest[i].0 <= a < rest[i].0 + rest[i].1 implies #[trigger] m1.mapped(
                a,
            ) by {
                assert(m.mapped(a));
            }
        }
        if j == 0 {
            assert forall|a: int|
                bufs[0].0 <= a < bufs[0].0 + first.len() implies #[trigger] m.mapped(a) by {}
            paging::lemma_bytes_written(m, bufs[0].0 as int, first);
            assert forall|i: int| 0 <= i < rest.len() implies bufs[0].0 + first.len() <= (
            #[trigger] rest[i]).0 || rest[i].0 + rest[i].1 <= bufs[0].0 by {
                assert(rest[i] == bufs[i + 1]);
            }
            assert forall|a: int|
                bufs[0].0 <= a < bufs[0].0 + first.len() implies #[trigger] m1.mapped(a) by {
                assert(m.mapped(a));
            }
            lemma_apart_from_scattered(m1, rest, data.skip(n), bufs[0].0 as int, first.len());
        } else {
            assert(buffers_apart(rest)) by {
                assert forall|i: int, l: int|
                    #![trigger rest[i], rest[l]]
                    0 <= i < l < rest.len() implies rest[i].0 + rest[i].1 <= rest[l].0 || rest[l].0
                    + rest[l].1 <= rest[i].0 by {
                    assert(rest[i] == bufs[i + 1] && rest[l] == bufs[l + 1]);
                }
            }
            lemma_scattered_parts(m1, rest, data.skip(n), j - 1);
        }
    }
}

/// There is no part of nothing.
proof fn lemma_no_part(bufs: Seq<(u64, u64)>, data: Seq<u8>, j: int)
    requires
        data.len() == 0,
    ensures
        part(bufs, data, j).len() == 0,
    decreases bufs.len(),
{
    if bufs.len() > 0 && j > 0 {
        lemma_no_part(bufs.skip(1), data.skip(0), j - 1);
    }
}

/// No two buffers overlap.
pub open spec fn buffers_apart(bufs: Seq<(u64, u64)>) -> bool {
    forall|i: int, j: int|
        #![trigger bufs[i], bufs[j]]
        0 <= i < j < bufs.len() ==> bufs[i].0 + bufs[i].1 <= bufs[j].0 || bufs[j].0 + bufs[j].1
            <= bufs[i].0
}

/// `readv` on a file is one read of as many bytes as its buffers hold together: it gets what that
/// read gets, moves the position as far, and puts the bytes into the buffers in order. Buffers
/// that are apart then hold their parts; one behind the first that is not filled stays as it was.
/// Too many buffers are refused. A buffer may lie on the list itself, but one that is filled whole
/// not on entries that are still to be read then.
pub proof fn law_readv_is_one_read(
    k: KView,
    fd: u64,
    f: FileView,
    iov: u64,
    iovcnt: u64,
    bufs: Seq<(u64, u64)>,
    j: int,
)
    requires
        k.wf(),
        is_file(k, fd, f),
        !f.is_dir,
        f.data.len() <= u64::MAX,
        bufs.len() == iovcnt,
        listed(k.mem, iov, bufs, 0),
        fillable(k.mem, iov, iovcnt, bufs, 0, f.data.len() - f.offset),
    ensures
        ({
            let (k2, r) = k.sys_readv(fd, iov, iovcnt, 0, 0);
            let b = io::file_rest(f, room(bufs) as u64);
            &&& iovcnt > abi::IOV_MAX ==> k2 == k && r == VecProgress::Done((-abi::EINVAL) as i64)
            &&& iovcnt <= abi::IOV_MAX ==> {
                &&& room(bufs) <= u64::MAX
                &&& r == VecProgress::Done(b.len() as i64)
                &&& k2 == read_on(k, fd, f, scattered(k.mem, bufs, b), b)
                &&& buffers_apart(bufs) && 0 <= j < bufs.len() ==> k2.mem.bytes(
                    bufs[j].0 as int,
                    part(bufs, b, j).len(),
                ) == part(bufs, b, j)
            }
        }),
{
    if iovcnt <= abi::IOV_MAX {
        lemma_room(k.mem, bufs);
        assert(bufs.len() * USER_SPACE_END <= 1024 * USER_SPACE_END) by (nonlinear_arith)
            requires
                bufs.len() <= 1024,
        ;
        lemma_buffers_read(k, fd, f, iov, iovcnt, bufs, 0, 0);
        let b = io::file_rest(f, room(bufs) as u64);
        assert(b == rest_of(f, room(bufs)));
        if buffers_apart(bufs) && 0 <= j < bufs.len() {
            assert forall|i: int| 0 <= i < bufs.len() implies k.mem.all_mapped(
                (#[trigger] bufs[i]).0 as int,
                bufs[i].1 as int,
            ) by {
                assert(uaccess::user_range(k.mem, bufs[i].0, bufs[i].1, true));
                assert forall|a: int|
                    bufs[i].0 <= a < bufs[i].0 + bufs[i].1 implies #[trigger] k.mem.mapped(a) by {
                    assert(k.mem.user_ok(a, true));
                }
            }
            lemma_scattered_parts(k.mem, bufs, b, j);
        }
    }
}

// ---------------------------------------------------------------------------------------------
// A directory that is read until its end
// ---------------------------------------------------------------------------------------------

/// A buffer of `count` bytes has room for the record of each entry.
pub open spec fn room_for_each(items: Seq<ItemView>, count: u64) -> bool {
    forall|j: int|
        0 <= j < items.len() ==> dirents::record_len((#[trigger] items[j]).name.len()) <= count
}

/// The kernel after calls of `getdents64`, each with a buffer and its length, and what they handed
/// out, put together.
pub open spec fn listing_read(k: KView, fd: u64, calls: Seq<(u64, u64)>) -> (KView, Seq<u8>)
    decreases calls.len(),
{
    if calls.len() == 0 {
        (k, Seq::empty())
    } else {
        let (buf, count) = calls[0];
        let (k1, r) = k.sys_getdents64(fd, buf, count);
        let out = if r > 0 {
            k1.mem.bytes(buf as int, r as nat)
        } else {
            Seq::empty()
        };
        let (k2, rest) = listing_read(k1, fd, calls.skip(1));
        (k2, out + rest)
    }
}

/// A directory is open as descriptor `fd`, and the next record to be handed out is that of entry
/// `j`.
pub open spec fn reads_listing(k: KView, fd: u64, f: FileView, items: Seq<ItemView>, j: int) -> bool {
    &&& is_file(k, fd, f)
    &&& f.is_dir
    &&& f.data == dirents::dirents(items)
    &&& 0 <= j <= items.len()
    &&& f.offset == dirents::record_start(items, j)
}

/// The records that are next: from entry `j` up to some entry `e`, beyond `j` where there is one
/// left and it fits.
proof fn lemma_next_records(items: Seq<ItemView>, j: int, count: int) -> (e: int)
    requires
        dirents::short_names(items),
        0 <= j <= items.len(),
        0 <= count,
    ensures
        j <= e <= items.len(),
        dirents::dents_span(
            dirents::dirents(items),
            dirents::record_start(items, j),
            0,
            count,
        ) == Some(dirents::record_start(items, e) - dirents::record_start(items, j)),
        dirents::record_start(items, e) - dirents::record_start(items, j) <= count,
        dirents::record_start(items, j) <= dirents::record_start(items, e),
        dirents::record_start(items, e) <= dirents::dirents(items).len(),
        j < items.len() ==> dirents::record_start(items, j) < dirents::dirents(items).len(),
        j < e ==> dirents::record_start(items, j) < dirents::record_start(items, e),
        j < items.len() ==> (j < e <==> dirents::record_len(items[j].name.len()) <= count),
        dirents::record_start(items, items.len() as int) == dirents::dirents(items).len(),
{
    dirents::law_listing_is_handed_out_by_records(items, j, count);
    let e = choose|e: int|
        {
            &&& j <= e <= items.len()
            &&& #[trigger] dirents::record_start(items, e) - dirents::record_start(items, j) <= count
            &&& dirents::dents_span(
                dirents::dirents(items),
                dirents::record_start(items, j),
                0,
                count,
            ) == Some(dirents::record_start(items, e) - dirents::record_start(items, j))
            &&& e < items.len() ==> dirents::record_start(items, e + 1) - dirents::record_start(
                items,
                j,
            ) > count
        };
    if j < items.len() {
        dirents::lemma_record_starts(items, j);
        if e > j {
            dirents::lemma_starts_grow(items, j + 1, e);
        }
    }
    dirents::lemma_starts_grow(items, j, e);
    dirents::lemma_starts_grow(items, e, items.len() as int);
    e
}

/// A copy of `out` to a buffer of `count` bytes.
proof fn lemma_copied_out(m: MemView, buf: u64, count: u64, out: Seq<u8>)
    requires
        m.wf(),
        uaccess::user_range(m, buf, count, true),
        out.len() <= count,
    ensures
        ({
            let m1 = m.written(buf as int, out);
            &&& uaccess::user_copied(m, buf, out) == (m1, Ok::<(), i64>(()))
            &&& m1.wf()
            &&& m1.bytes(buf as int, out.len()) == out
            &&& forall|s: u64, l: u64| #[trigger]
                uaccess::user_range(m1, s, l, true) == uaccess::user_range(m, s, l, true)
        }),
{
    let m1 = m.written(buf as int, out);
    lemma_range_part(m, buf, count, out.len() as u64);
    lemma_range_kept(m, buf, out, 0, 0, true);
    assert forall|a: int| buf <= a < buf + out.len() implies #[trigger] m.mapped(a) by {
        assert(m.user_ok(a, true));
    }
    paging::lemma_bytes_written(m, buf as int, out);
    assert forall|s: u64, l: u64| #[trigger]
        uaccess::user_range(m1, s, l, true) == uaccess::user_range(m, s, l, true) by {
        lemma_range_kept(m, buf, out, s, l, true);
    }
}

/// One call hands out the records from entry `j` up to some entry `e`, beyond `j` where there are
/// any left.
proof fn lemma_one_call(
    k: KView,
    fd: u64,
    f: FileView,
    items: Seq<ItemView>,
    j: int,
    buf: u64,
    count: u64,
) -> (e: int)
    requires
        k.mem.wf(),
        reads_listing(k, fd, f, items, j),
        dirents::short_names(items),
        f.data.len() <= i64::MAX,
        uaccess::user_range(k.mem, buf, count, true),
        j < items.len() ==> dirents::record_len(items[j].name.len()) <= count,
    ensures
        ({
            let (k1, r) = k.sys_getdents64(fd, buf, count);
            let end = dirents::record_start(items, e);
            &&& j <= e <= items.len()
            &&& j < items.len() ==> j < e
            &&& f.offset <= end <= f.data.len()
            &&& r == end - f.offset
            &&& reads_listing(k1, fd, (FileView { offset: end as u64, ..f }), items, e)
            &&& r > 0 ==> k1.mem.bytes(buf as int, r as nat) == f.data.subrange(
                f.offset as int,
                end,
            )
            &&& k1.mem.wf()
            &&& forall|s: u64, l: u64| #[trigger]
                uaccess::user_range(k1.mem, s, l, true) == uaccess::user_range(k.mem, s, l, true)
        }),
{
    let e = lemma_next_records(items, j, count as int);
    let end = dirents::record_start(items, e);
    let g = FileView { offset: end as u64, ..f };
    lemma_file_is_there(k, fd, f, g);
    if e > j {
        let out = f.data.subrange(f.offset as int, end);
        lemma_copied_out(k.mem, buf, count, out);
        let k1 = KView {
            mem: k.mem.written(buf as int, out),
            ..k.fd_set(fd, Some(FdView::File(g)))
        };
        assert(k.sys_getdents64(fd, buf, count) == (k1, (end - f.offset) as i64));
        assert(k1.proc() == k.fd_set(fd, Some(FdView::File(g))).proc());
    } else {
        assert(j == items.len());
        assert(g == f);
        assert(k.sys_getdents64(fd, buf, count) == (k, 0i64));
    }
    e
}

/// A directory that is read call by call, each time with room for the longest of its records, is
/// handed out whole: the records of all its entries, each once and in order. The call after the last record
/// returns 0.
pub proof fn law_listing_is_read_whole(
    k: KView,
    fd: u64,
    f: FileView,
    items: Seq<ItemView>,
    j: int,
    calls: Seq<(u64, u64)>,
    buf: u64,
    count: u64,
)
    requires
        k.mem.wf(),
        reads_listing(k, fd, f, items, j),
        dirents::short_names(items),
        f.data.len() <= i64::MAX,
        calls.len() >= items.len() - j,
        forall|i: int|
            0 <= i < calls.len() ==> room_for_each(items, (#[trigger] calls[i]).1)
                && uaccess::user_range(k.mem, calls[i].0, calls[i].1, true),
    ensures
        listing_read(k, fd, calls).1 == f.data.skip(f.offset as int),
        listing_read(k, fd, calls).0.sys_getdents64(fd, buf, count).1 == 0,
    decreases calls.len(),
{
    assert(items.take(items.len() as int) =~= items);
    if calls.len() == 0 {
        assert(f.data.skip(f.offset as int) =~= Seq::<u8>::empty());
        lemma_next_records(items, j, count as int);
        lemma_file_is_there(k, fd, f, f);
    } else {
        let (b0, c0) = calls[0];
        assert(room_for_each(items, calls[0].1));
        assert(uaccess::user_range(k.mem, calls[0].0, calls[0].1, true));
        let e = lemma_one_call(k, fd, f, items, j, b0, c0);
        let (k1, r) = k.sys_getdents64(fd, b0, c0);
        let end = dirents::record_start(items, e);
        let g = FileView { offset: end as u64, ..f };
        let rest = calls.skip(1);
        assert forall|i: int| 0 <= i < rest.len() implies room_for_each(items, (#[trigger] rest[i]).1)
            && uaccess::user_range(k1.mem, rest[i].0, rest[i].1, true) by {
            assert(rest[i] == calls[i + 1]);
        }
        law_listing_is_read_whole(k1, fd, g, items, e, rest, buf, count);
        let out = if r > 0 {
            k1.mem.bytes(b0 as int, r as nat)
        } else {
            Seq::empty()
        };
        assert(out =~= f.data.subrange(f.offset as int, end));
        assert(out + g.data.skip(end) =~= f.data.skip(f.offset as int));
    }
}

/// A buffer that is too small for the next record is refused, and the position stays.
pub proof fn law_small_buffer_gets_no_record(
    k: KView,
    fd: u64,
    f: FileView,
    items: Seq<ItemView>,
    j: int,
    buf: u64,
    count: u64,
)
    requires
        reads_listing(k, fd, f, items, j),
        dirents::short_names(items),
        j < items.len(),
        count < dirents::record_len(items[j].name.len()),
    ensures
        k.sys_getdents64(fd, buf, count) == (k, (-abi::EINVAL) as i64),
{
    lemma_next_records(items, j, count as int);
    lemma_file_is_there(k, fd, f, f);
}

} // verus!
