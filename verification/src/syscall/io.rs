//! Reading and writing through descriptors: files, devices and pipes.
//!
//! A read that has to wait blocks the caller. It is then to be made anew once the caller runs
//! again.

use crate::drivers::vga;
use crate::mm::paging::MemView;
use crate::sched::thread::{self, BlockReason, SchedView, Switch};
use crate::syscall::abi;
use crate::syscall::files::{self, replace_slot, slot_of};
use crate::syscall::kernel::{
    self, Fd, FdView, FileView, KView, Kernel, OpenFile, PipeBuf, PipeView, Stats,
};
use crate::syscall::uaccess::{self, USER_SPACE_END};
use crate::util;
use vstd::prelude::*;

verus! {

/// How a call that may wait goes on.
#[derive(Debug, Clone, Copy, PartialEq, Eq, Structural)]
pub enum Progress {
    /// The call is over, with this result.
    Done(i64),
    /// The caller is blocked, and another thread is to be switched to. The call is to be made
    /// anew once the caller runs again.
    Blocked(Switch),
}

/// How a call that reads into several buffers goes on.
#[derive(Debug, Clone, Copy, PartialEq, Eq, Structural)]
pub enum VecProgress {
    /// The call is over, with this result.
    Done(i64),
    /// The caller is blocked. Once it runs again, the call is to be taken up at buffer number
    /// `at`, with `total` bytes read so far.
    Blocked { at: u64, total: i64, switch: Switch },
}

/// The sum of bytes.
pub open spec fn byte_sum(b: Seq<u8>) -> int
    decreases b.len(),
{
    if b.len() == 0 {
        0
    } else {
        byte_sum(b.drop_last()) + b.last()
    }
}

/// A file after bytes were written at its position: they replace what was there, the file grows
/// where it is too short, and a gap is filled with zeros.
pub open spec fn file_after_write(f: FileView, b: Seq<u8>) -> FileView {
    let end = f.offset + b.len();
    FileView {
        data: Seq::new(
            if end > f.data.len() {
                end as nat
            } else {
                f.data.len()
            },
            |i: int|
                if f.offset <= i < end {
                    b[i - f.offset]
                } else if i < f.data.len() {
                    f.data[i]
                } else {
                    0u8
                },
        ),
        offset: end as u64,
        dirty: true,
        ..f
    }
}

/// What is left of a file from its position on, `count` bytes at most.
pub open spec fn file_rest(f: FileView, count: u64) -> Seq<u8> {
    let start = util::min_nat(f.offset as nat, f.data.len()) as int;
    let n = util::min_nat((f.data.len() - start) as nat, count as nat);
    f.data.subrange(start, start + n)
}

impl KView {
    /// The kernel after a write to a device was recorded.
    pub open spec fn write_recorded(self, fd: u64, b: Seq<u8>, user_rsp: u64) -> KView {
        KView {
            stats: Stats {
                last_write_fd: fd,
                last_write_len: b.len() as u64,
                last_write_sum: byte_sum(b) as u64,
                last_write_user_rsp: user_rsp,
                ..self.stats
            },
            ..self
        }
    }

    /// What writing the user's bytes to pipe `id` does. Nobody can read what no reading end is
    /// left for.
    pub open spec fn pipe_written(self, id: u64, buf: u64, count: u64) -> (KView, i64) {
        if !self.pipes.dom().contains(id) {
            (self, (-abi::EBADF) as i64)
        } else if count == 0 {
            (self, 0)
        } else {
            match uaccess::user_bytes(self.mem, buf, count) {
                Err(e) => (self, (-e) as i64),
                Ok(b) => {
                    let p = self.pipes[id];
                    if p.readers == 0 {
                        (self, (-abi::EPIPE) as i64)
                    } else {
                        (
                            KView {
                                pipes: self.pipes.insert(id, PipeView { data: p.data + b, ..p }),
                                ..self
                            }.pipe_waiters_woken(),
                            count as i64,
                        )
                    }
                },
            }
        }
    }

    /// What `write` does.
    pub open spec fn sys_write(self, fd: u64, buf: u64, count: u64, user_rsp: u64) -> (
        KView,
        i64,
    ) {
        let k = self.touched();
        let bytes = uaccess::user_bytes(self.mem, buf, count);
        match self.proc().fd(fd) {
            Some(FdView::Vga) => match bytes {
                Err(e) => (k, (-e) as i64),
                Ok(b) => (
                    KView { screen: k.screen.bytes_written(b), ..k }.write_recorded(
                        fd,
                        b,
                        user_rsp,
                    ),
                    count as i64,
                ),
            },
            Some(FdView::Serial) => match bytes {
                Err(e) => (k, (-e) as i64),
                Ok(b) => (
                    KView { serial: k.serial + b, ..k }.write_recorded(fd, b, user_rsp),
                    count as i64,
                ),
            },
            Some(FdView::PipeWrite(id)) => k.pipe_written(id, buf, count),
            Some(FdView::File(f)) => if f.writable && !f.is_dir {
                match bytes {
                    Err(e) => (k, (-e) as i64),
                    Ok(b) => (
                        self.fd_set(fd, Some(FdView::File(file_after_write(f, b)))),
                        count as i64,
                    ),
                }
            } else {
                (k, (-abi::EBADF) as i64)
            },
            _ => (k, (-abi::EBADF) as i64),
        }
    }

    /// What reading from the console does: as much input as there is, at most `count` bytes. The
    /// caller waits where there is none.
    pub open spec fn stdin_read(self, buf: u64, count: u64) -> (KView, Progress) {
        if count == 0 {
            (self, Progress::Done(0))
        } else if self.console.ready.len() == 0 {
            let (s, w) = self.sched.blocked(BlockReason::Stdin).switched();
            (
                KView {
                    sched: SchedView {
                        stdin_blocks: if self.sched.stdin_blocks == u64::MAX {
                            0
                        } else {
                            (self.sched.stdin_blocks + 1) as u64
                        },
                        ..s
                    },
                    ..self
                },
                Progress::Blocked(w->0),
            )
        } else {
            let n = self.console.takes(count);
            match uaccess::user_copied(self.mem, buf, self.console.ready.take(n)) {
                (mem, Ok(_)) => (
                    KView {
                        mem,
                        console: crate::drivers::console::ConsoleView {
                            ready: self.console.ready.skip(n),
                            ..self.console
                        },
                        ..self
                    },
                    Progress::Done(n as i64),
                ),
                (_, Err(e)) => (self, Progress::Done((-e) as i64)),
            }
        }
    }

    /// What reading from pipe `id` does: as much as is in it, at most `count` bytes. An empty pipe
    /// is at its end where no writing end is left; else the caller waits.
    pub open spec fn pipe_read(self, id: u64, buf: u64, count: u64) -> (KView, Progress) {
        if !self.pipes.dom().contains(id) {
            (self, Progress::Done((-abi::EBADF) as i64))
        } else if count == 0 {
            (self, Progress::Done(0))
        } else {
            let p = self.pipes[id];
            if p.data.len() > 0 {
                let n = util::min_nat(count as nat, p.data.len()) as int;
                let k = KView {
                    pipes: self.pipes.insert(id, PipeView { data: p.data.skip(n), ..p }),
                    ..self
                };
                match uaccess::user_copied(self.mem, buf, p.data.take(n)) {
                    (mem, Ok(_)) => (KView { mem, ..k }, Progress::Done(n as i64)),
                    (_, Err(e)) => (k, Progress::Done((-e) as i64)),
                }
            } else if p.writers == 0 {
                (self, Progress::Done(0))
            } else {
                let (s, w) = self.sched.blocked(BlockReason::Pipe).switched();
                (KView { sched: s, ..self }, Progress::Blocked(w->0))
            }
        }
    }

    /// What `read` does.
    pub open spec fn sys_read(self, fd: u64, buf: u64, count: u64) -> (KView, Progress) {
        let k = self.touched();
        match self.proc().fd(fd) {
            Some(FdView::Console) => k.stdin_read(buf, count),
            Some(FdView::PipeRead(id)) => k.pipe_read(id, buf, count),
            Some(FdView::File(f)) => if f.is_dir {
                (k, Progress::Done((-abi::EISDIR) as i64))
            } else {
                let b = file_rest(f, count);
                match uaccess::user_copied(self.mem, buf, b) {
                    (mem, Ok(_)) => (
                        KView {
                            mem,
                            ..self.fd_set(
                                fd,
                                Some(
                                    FdView::File(
                                        FileView { offset: (f.offset + b.len()) as u64, ..f },
                                    ),
                                ),
                            )
                        },
                        Progress::Done(b.len() as i64),
                    ),
                    (_, Err(e)) => (k, Progress::Done((-e) as i64)),
                }
            },
            _ => (k, Progress::Done((-abi::EBADF) as i64)),
        }
    }
}

/// Records a write to a device.
fn record_write(k: &mut Kernel, fd: u64, bytes: &Vec<u8>, user_rsp: u64)
    requires
        bytes@.len() <= USER_SPACE_END,
    ensures
        final(k)@ == old(k)@.write_recorded(fd, bytes@, user_rsp),
{
    let mut sum: u64 = 0;
    let mut i: usize = 0;
    assert(bytes@.take(0) =~= Seq::<u8>::empty());
    while i < bytes.len()
        invariant
            i <= bytes@.len(),
            bytes@.len() <= USER_SPACE_END,
            sum == byte_sum(bytes@.take(i as int)),
            sum <= 255 * i,
        decreases bytes@.len() - i,
    {
        assert(bytes@.take(i + 1).drop_last() =~= bytes@.take(i as int));
        sum += bytes[i] as u64;
        i += 1;
    }
    assert(bytes@.take(i as int) =~= bytes@);
    k.stats.last_write_fd = fd;
    k.stats.last_write_len = bytes.len() as u64;
    k.stats.last_write_sum = sum;
    k.stats.last_write_user_rsp = user_rsp;
}

/// Writes bytes to a file at its position.
fn write_at_position(f: &mut OpenFile, bytes: &Vec<u8>)
    ensures
        final(f)@ == file_after_write(old(f)@, bytes@),
{
    let ghost fv = f@;
    let end: u128 = f.offset as u128 + bytes.len() as u128;
    while (f.data.len() as u128) < end
        invariant
            f@ == (FileView { data: f@.data, ..fv }),
            f@.data.len() >= fv.data.len(),
            f@.data.len() <= end || f@.data.len() == fv.data.len(),
            forall|i: int| 0 <= i < f@.data.len() ==> #[trigger] f@.data[i] == (if i < fv.data.len() {
                fv.data[i]
            } else {
                0u8
            }),
        decreases end - f@.data.len(),
    {
        f.data.push(0);
    }
    let ghost grown = f@.data;
    let mut j: usize = 0;
    while j < bytes.len()
        invariant
            fv.offset + bytes@.len() == end,
            end <= grown.len() == f@.data.len(),
            j <= bytes@.len(),
            f@ == (FileView { data: f@.data, ..fv }),
            f@.data =~= util::splice(grown, fv.offset as int, bytes@.take(j as int)),
        decreases bytes@.len() - j,
    {
        assert(f.offset + j < f.data.len());
        let at = f.offset as usize + j;
        f.data.set(at, bytes[j]);
        j += 1;
    }
    assert(bytes@.take(j as int) =~= bytes@);
    f.offset = end as u64;
    f.dirty = true;
    assert(f@.data =~= file_after_write(fv, bytes@).data);
}


/// `write(fd, buf, count)`: returns how many bytes were written.
pub fn sys_write(k: &mut Kernel, fd: u64, buf: u64, count: u64, user_rsp: u64) -> (r: i64)
    requires
        old(k)@.wf(),
    ensures
        final(k)@.wf(),
        (final(k)@, r) == old(k)@.sys_write(fd, buf, count, user_rsp),
{
    let ghost before = k@;
    let mut p = k.take_proc();
    let ghost pv = p@;
    let i = match slot_of(&p.fds, fd) {
        Some(i) => i,
        None => {
            k.put_proc(p);
            assert(k@.procs =~= before.touched().procs);
            return -abi::EBADF;
        },
    };
    assert(pv.fds[i as int] == kernel::slot_view(p.fds@[i as int]));
    let entry = replace_slot(&mut p.fds, i, None);
    match entry {
        Some(Fd::File(mut f)) => {
            let ghost fv = f@;
            let mut result: i64 = -abi::EBADF;
            if f.writable && !f.is_dir {
                match uaccess::with_user_bytes(&k.mem, buf, count) {
                    Ok(bytes) => {
                        write_at_position(&mut f, &bytes);
                        result = count as i64;
                    },
                    Err(e) => {
                        assert(e == abi::EFAULT);
                        result = -e;
                    },
                }
            }
            let ghost now = FdView::File(f@);
            let _ = replace_slot(&mut p.fds, i, Some(Fd::File(f)));
            assert(p@.fds =~= pv.fds.update(i as int, Some(now)));
            assert(now == FdView::File(fv) ==> p@.fds =~= pv.fds);
            k.put_proc(p);
            assert(k@.procs =~= before.sys_write(fd, buf, count, user_rsp).0.procs);
            result
        },
        other => {
            let kind: u8 = match &other {
                Some(Fd::Vga) => 1,
                Some(Fd::Serial) => 2,
                Some(Fd::PipeWrite(_)) => 3,
                _ => 0,
            };
            let id: u64 = match &other {
                Some(Fd::PipeWrite(id)) => *id,
                _ => 0,
            };
            let _ = replace_slot(&mut p.fds, i, other);
            assert(p@.fds =~= pv.fds);
            k.put_proc(p);
            assert(k@.procs =~= before.touched().procs);
            if kind == 3 {
                write_pipe(k, id, buf, count)
            } else if kind == 0 {
                -abi::EBADF
            } else {
                write_device(k, fd, buf, count, user_rsp, kind == 1)
            }
        },
    }
}

/// Writes the user's bytes to the screen or to the serial port.
fn write_device(k: &mut Kernel, fd: u64, buf: u64, count: u64, user_rsp: u64, to_screen: bool) -> (r:
    i64)
    requires
        old(k)@.wf(),
    ensures
        final(k)@.wf(),
        match uaccess::user_bytes(old(k)@.mem, buf, count) {
            Err(e) => final(k)@ == old(k)@ && r == -e,
            Ok(b) => r == count as i64 && final(k)@ == (if to_screen {
                KView { screen: old(k)@.screen.bytes_written(b), ..old(k)@ }
            } else {
                KView { serial: old(k)@.serial + b, ..old(k)@ }
            }).write_recorded(fd, b, user_rsp),
        },
{
    let ghost before = k@;
    match uaccess::with_user_bytes(&k.mem, buf, count) {
        Ok(bytes) => {
            assert(bytes@.len() == count);
            if to_screen {
                vga::write_bytes(&mut k.screen, bytes.as_slice());
                assert(k@ == KView { screen: before.screen.bytes_written(bytes@), ..before });
            } else {
                k.serial.extend_from_slice(bytes.as_slice());
                assert(k@ =~= KView { serial: before.serial + bytes@, ..before });
            }
            record_write(k, fd, &bytes, user_rsp);
            count as i64
        },
        Err(e) => {
            assert(e == abi::EFAULT);
            -e
        },
    }
}

/// Writes the user's bytes to a pipe and wakes those who wait for them.
fn write_pipe(k: &mut Kernel, id: u64, buf: u64, count: u64) -> (r: i64)
    requires
        old(k)@.wf(),
    ensures
        final(k)@.wf(),
        (final(k)@, r) == old(k)@.pipe_written(id, buf, count),
{
    let ghost before = k@;
    let bytes = uaccess::with_user_bytes(&k.mem, buf, count);
    let mut p = match k.take_pipe(id) {
        Some(p) => p,
        None => {
            assert(k@.pipes =~= before.pipes);
            return -abi::EBADF;
        },
    };
    let ghost pv = p@;
    if count == 0 {
        k.restore_pipe(id, p);
        assert(k@.pipes =~= before.pipes);
        return 0;
    }
    match bytes {
        Err(e) => {
            k.restore_pipe(id, p);
            assert(k@.pipes =~= before.pipes);
            assert(e == abi::EFAULT);
            -e
        },
        Ok(b) => {
            if p.readers == 0 {
                k.restore_pipe(id, p);
                assert(k@.pipes =~= before.pipes);
                return -abi::EPIPE;
            }
            p.data.extend_from_slice(b.as_slice());
            assert(p@ =~= PipeView { data: pv.data + b@, ..pv });
            k.restore_pipe(id, p);
            assert(k@.pipes =~= before.pipes.insert(id, PipeView { data: pv.data + b@, ..pv }));
            thread::wake_pipe_waiters(&mut k.sched);
            assert(k@.wf());
            count as i64
        },
    }
}

/// Reads from the console.
fn read_stdin(k: &mut Kernel, buf: u64, count: u64) -> (r: Progress)
    requires
        old(k)@.wf(),
        old(k)@.stdin_read(buf, count).1 is Blocked ==> old(k)@.sched.has_other_runnable(),
    ensures
        final(k)@.wf(),
        (final(k)@, r) == old(k)@.stdin_read(buf, count),
{
    if count == 0 {
        return Progress::Done(0);
    }
    let ghost before = k@;
    if k.console.ready.len() == 0 {
        match thread::block_current_on_stdin(&mut k.sched) {
            Some(w) => {
                assert(k@.pipes == before.pipes);
                return Progress::Blocked(w);
            },
            None => {
                return Progress::Done(0);
            },
        }
    }
    let bytes = k.console.take_ready(count);
    let n = bytes.len();
    match uaccess::copy_to_user(&mut k.mem, buf, bytes.as_slice()) {
        Ok(_) => {
            assert(k@.pipes == before.pipes);
            Progress::Done(n as i64)
        },
        Err(e) => {
            assert(e == abi::EFAULT);
            k.console.unread(bytes);
            proof {
                crate::drivers::console::law_unread_restores(before.console, count);
            }
            assert(k@.console =~= before.console);
            assert(k@ == before);
            Progress::Done(-e)
        },
    }
}

/// Reads from a pipe.
fn read_pipe(k: &mut Kernel, id: u64, buf: u64, count: u64) -> (r: Progress)
    requires
        old(k)@.wf(),
        old(k)@.pipe_read(id, buf, count).1 is Blocked ==> old(k)@.sched.has_other_runnable(),
    ensures
        final(k)@.wf(),
        (final(k)@, r) == old(k)@.pipe_read(id, buf, count),
{
    let ghost before = k@;
    let mut p = match k.take_pipe(id) {
        Some(p) => p,
        None => {
            assert(k@.pipes =~= before.pipes);
            return Progress::Done(-abi::EBADF);
        },
    };
    let ghost pv = p@;
    let len = p.data.len();
    if count == 0 || len == 0 {
        let ended = p.writers == 0;
        k.restore_pipe(id, p);
        assert(k@.pipes =~= before.pipes);
        assert(k@ == before);
        if count == 0 || ended {
            return Progress::Done(0);
        }
        match thread::block_current_on_pipe(&mut k.sched) {
            Some(w) => {
                assert(k@.pipes == before.pipes);
                return Progress::Blocked(w);
            },
            None => {
                return Progress::Done(0);
            },
        }
    }
    let n: usize = if count < len as u64 { count as usize } else { len };
    let taken = util::slice_to_vec(p.data.as_slice(), 0, n);
    let rest = util::slice_to_vec(p.data.as_slice(), n, len);
    assert(taken@ =~= pv.data.take(n as int));
    assert(rest@ =~= pv.data.skip(n as int));
    p.data = rest;
    k.restore_pipe(id, p);
    assert(k@.pipes =~= before.pipes.insert(id, PipeView { data: pv.data.skip(n as int), ..pv }));
    let ghost mid = k@;
    match uaccess::copy_to_user(&mut k.mem, buf, taken.as_slice()) {
        Ok(_) => {
            assert(k@ == KView { mem: k@.mem, ..mid });
            Progress::Done(n as i64)
        },
        Err(e) => {
            assert(k@ == mid);
            assert(e == abi::EFAULT);
            Progress::Done(-e)
        },
    }
}

/// `read(fd, buf, count)`: returns how many bytes were read, 0 at the end.
pub fn sys_read(k: &mut Kernel, fd: u64, buf: u64, count: u64) -> (r: Progress)
    requires
        old(k)@.wf(),
        old(k)@.sys_read(fd, buf, count).1 is Blocked ==> old(k)@.sched.has_other_runnable(),
    ensures
        final(k)@.wf(),
        (final(k)@, r) == old(k)@.sys_read(fd, buf, count),
{
    let ghost before = k@;
    let mut p = k.take_proc();
    let ghost pv = p@;
    let i = match slot_of(&p.fds, fd) {
        Some(i) => i,
        None => {
            k.put_proc(p);
            assert(k@.procs =~= before.touched().procs);
            return Progress::Done(-abi::EBADF);
        },
    };
    assert(pv.fds[i as int] == kernel::slot_view(p.fds@[i as int]));
    let entry = replace_slot(&mut p.fds, i, None);
    match entry {
        Some(Fd::File(mut f)) => {
            let ghost fv = f@;
            let mut result: i64 = -abi::EISDIR;
            if !f.is_dir {
                let len = f.data.len();
                let start: usize = if f.offset < len as u64 { f.offset as usize } else { len };
                let n: usize = if count < (len - start) as u64 {
                    count as usize
                } else {
                    len - start
                };
                let part = util::slice_to_vec(f.data.as_slice(), start, start + n);
                assert(part@ == file_rest(fv, count));
                match uaccess::copy_to_user(&mut k.mem, buf, part.as_slice()) {
                    Ok(_) => {
                        f.offset = f.offset + n as u64;
                        result = n as i64;
                    },
                    Err(e) => {
                        assert(e == abi::EFAULT);
                        result = -e;
                    },
                }
            }
            let ghost now = FdView::File(f@);
            let _ = replace_slot(&mut p.fds, i, Some(Fd::File(f)));
            assert(p@.fds =~= pv.fds.update(i as int, Some(now)));
            assert(now == FdView::File(fv) ==> p@.fds =~= pv.fds);
            k.put_proc(p);
            assert(k@.procs =~= before.sys_read(fd, buf, count).0.procs);
            Progress::Done(result)
        },
        other => {
            let kind: u8 = match &other {
                Some(Fd::Console) => 1,
                Some(Fd::PipeRead(_)) => 2,
                _ => 0,
            };
            let id: u64 = match &other {
                Some(Fd::PipeRead(id)) => *id,
                _ => 0,
            };
            let _ = replace_slot(&mut p.fds, i, other);
            assert(p@.fds =~= pv.fds);
            k.put_proc(p);
            assert(k@.procs =~= before.touched().procs);
            assert(k@ == before.touched());
            if kind == 1 {
                read_stdin(k, buf, count)
            } else if kind == 2 {
                read_pipe(k, id, buf, count)
            } else {
                Progress::Done(-abi::EBADF)
            }
        },
    }
}

// ---------------------------------------------------------------------------------------------
// Several buffers
// ---------------------------------------------------------------------------------------------

/// Buffer number `index` of a list at `iov`: address and length.
pub open spec fn iovec(m: MemView, iov: u64, index: u64) -> Result<(u64, u64), i64> {
    if iov + index * 16 > u64::MAX {
        Err(abi::EFAULT)
    } else {
        match uaccess::user_bytes(m, (iov + index * 16) as u64, 16) {
            Err(e) => Err(e),
            Ok(b) => Ok((util::le64(b, 0), util::le64(b, 8))),
        }
    }
}

impl KView {
    /// What writing the buffers from number `i` on does, after `total` bytes.
    pub open spec fn buffers_written(
        self,
        fd: u64,
        iov: u64,
        iovcnt: u64,
        user_rsp: u64,
        i: int,
        total: int,
    ) -> (KView, i64)
        decreases iovcnt - i,
    {
        if i >= iovcnt {
            (self, total as i64)
        } else {
            match iovec(self.mem, iov, i as u64) {
                Err(e) => (
                    self,
                    if total == 0 {
                        (-e) as i64
                    } else {
                        total as i64
                    },
                ),
                Ok((base, len)) => if len == 0 {
                    self.buffers_written(fd, iov, iovcnt, user_rsp, i + 1, total)
                } else {
                    let (k, n) = self.sys_write(fd, base, len, user_rsp);
                    if n < 0 {
                        (
                            k,
                            if total == 0 {
                                n
                            } else {
                                total as i64
                            },
                        )
                    } else if n < len {
                        (k, (total + n) as i64)
                    } else {
                        k.buffers_written(fd, iov, iovcnt, user_rsp, i + 1, total + n)
                    }
                },
            }
        }
    }

    /// What `writev` does.
    pub open spec fn sys_writev(self, fd: u64, iov: u64, iovcnt: u64, user_rsp: u64) -> (
        KView,
        i64,
    ) {
        if iovcnt > abi::IOV_MAX {
            (self, (-abi::EINVAL) as i64)
        } else {
            self.buffers_written(fd, iov, iovcnt, user_rsp, 0, 0)
        }
    }

    /// What reading into the buffers from number `i` on does, after `total` bytes.
    pub open spec fn buffers_read(self, fd: u64, iov: u64, iovcnt: u64, i: int, total: int) -> (
        KView,
        VecProgress,
    )
        decreases iovcnt - i,
    {
        if i >= iovcnt {
            (self, VecProgress::Done(total as i64))
        } else {
            match iovec(self.mem, iov, i as u64) {
                Err(e) => (
                    self,
                    VecProgress::Done(
                        if total == 0 {
                            (-e) as i64
                        } else {
                            total as i64
                        },
                    ),
                ),
                Ok((base, len)) => if len == 0 {
                    self.buffers_read(fd, iov, iovcnt, i + 1, total)
                } else {
                    match self.sys_read(fd, base, len) {
                        (k, Progress::Blocked(switch)) => (
                            k,
                            VecProgress::Blocked { at: i as u64, total: total as i64, switch },
                        ),
                        (k, Progress::Done(n)) => if n < 0 {
                            (
                                k,
                                VecProgress::Done(
                                    if total == 0 {
                                        n
                                    } else {
                                        total as i64
                                    },
                                ),
                            )
                        } else if n < len {
                            (k, VecProgress::Done((total + n) as i64))
                        } else {
                            k.buffers_read(fd, iov, iovcnt, i + 1, total + n)
                        },
                    }
                },
            }
        }
    }

    /// What `readv` does, taken up at buffer number `at` with `total` bytes read so far.
    pub open spec fn sys_readv(self, fd: u64, iov: u64, iovcnt: u64, at: u64, total: i64) -> (
        KView,
        VecProgress,
    ) {
        if iovcnt > abi::IOV_MAX {
            (self, VecProgress::Done((-abi::EINVAL) as i64))
        } else {
            self.buffers_read(fd, iov, iovcnt, at as int, total as int)
        }
    }
}

/// Reads the description of a buffer.
fn read_iovec(k: &Kernel, iov: u64, index: u64) -> (r: Result<(u64, u64), i64>)
    requires
        k@.wf(),
        index < abi::IOV_MAX,
    ensures
        r == iovec(k@.mem, iov, index),
        r matches Err(e) ==> e == abi::EFAULT,
{
    let slot = match iov.checked_add(index * 16) {
        Some(s) => s,
        None => {
            return Err(abi::EFAULT);
        },
    };
    match uaccess::with_user_bytes(&k.mem, slot, 16) {
        Err(e) => Err(e),
        Ok(b) => Ok((util::get_u64(b.as_slice(), 0), util::get_u64(b.as_slice(), 8))),
    }
}

/// A write writes at most what fits into user space.
proof fn lemma_write_bound(k: KView, fd: u64, buf: u64, count: u64, user_rsp: u64)
    ensures
        k.sys_write(fd, buf, count, user_rsp).1 <= USER_SPACE_END,
        k.sys_write(fd, buf, count, user_rsp).1 >= -4096,
{
}

/// A read reads at most what fits into user space. It does not change who may run unless it
/// blocks.
proof fn lemma_read_bound(k: KView, fd: u64, buf: u64, count: u64)
    ensures
        k.sys_read(fd, buf, count).1 matches Progress::Done(n) ==> -4096 <= n <= USER_SPACE_END
            && k.sys_read(fd, buf, count).0.sched == k.sched,
{
}

/// `writev(fd, iov, iovcnt)`: writes the buffers in turn until one is not written whole.
pub fn sys_writev(k: &mut Kernel, fd: u64, iov: u64, iovcnt: u64, user_rsp: u64) -> (r: i64)
    requires
        old(k)@.wf(),
    ensures
        final(k)@.wf(),
        (final(k)@, r) == old(k)@.sys_writev(fd, iov, iovcnt, user_rsp),
{
    if iovcnt > abi::IOV_MAX {
        return -abi::EINVAL;
    }
    let ghost whole = k@.sys_writev(fd, iov, iovcnt, user_rsp);
    let mut total: i64 = 0;
    let mut i: u64 = 0;
    while i < iovcnt
        invariant
            k@.wf(),
            i <= iovcnt <= abi::IOV_MAX,
            0 <= total <= i * USER_SPACE_END,
            whole == old(k)@.sys_writev(fd, iov, iovcnt, user_rsp),
            whole == k@.buffers_written(fd, iov, iovcnt, user_rsp, i as int, total as int),
        decreases iovcnt - i,
    {
        let (base, len) = match read_iovec(k, iov, i) {
            Ok(v) => v,
            Err(e) => {
                return if total == 0 { -e } else { total };
            },
        };
        if len != 0 {
            proof {
                lemma_write_bound(k@, fd, base, len, user_rsp);
            }
            let n = sys_write(k, fd, base, len, user_rsp);
            if n < 0 {
                return if total == 0 { n } else { total };
            }
            total = total + n;
            if (n as u64) < len {
                return total;
            }
        }
        i += 1;
    }
    total
}

/// `readv(fd, iov, iovcnt)`: fills the buffers in turn until one is not filled. A call that has
/// blocked is taken up again at `at`, with `total` bytes read so far; a new one at 0 with none.
pub fn sys_readv(k: &mut Kernel, fd: u64, iov: u64, iovcnt: u64, at: u64, total: i64) -> (r:
    VecProgress)
    requires
        old(k)@.wf(),
        at <= iovcnt,
        0 <= total <= at * USER_SPACE_END,
        old(k)@.sys_readv(fd, iov, iovcnt, at, total).1 is Blocked
            ==> old(k)@.sched.has_other_runnable(),
    ensures
        final(k)@.wf(),
        (final(k)@, r) == old(k)@.sys_readv(fd, iov, iovcnt, at, total),
        r matches VecProgress::Blocked { at: a, total: t, .. } ==> a <= iovcnt && 0 <= t <= a
            * USER_SPACE_END,
{
    if iovcnt > abi::IOV_MAX {
        return VecProgress::Done(-abi::EINVAL);
    }
    let ghost whole = k@.sys_readv(fd, iov, iovcnt, at, total);
    let mut sum: i64 = total;
    let mut i: u64 = at;
    while i < iovcnt
        invariant
            k@.wf(),
            i <= iovcnt <= abi::IOV_MAX,
            0 <= sum <= i * USER_SPACE_END,
            whole == old(k)@.sys_readv(fd, iov, iovcnt, at, total),
            whole == k@.buffers_read(fd, iov, iovcnt, i as int, sum as int),
            whole.1 is Blocked ==> k@.sched.has_other_runnable(),
        decreases iovcnt - i,
    {
        let (base, len) = match read_iovec(k, iov, i) {
            Ok(v) => v,
            Err(e) => {
                return VecProgress::Done(if sum == 0 { -e } else { sum });
            },
        };
        if len != 0 {
            proof {
                lemma_read_bound(k@, fd, base, len);
            }
            let n = match sys_read(k, fd, base, len) {
                Progress::Done(n) => n,
                Progress::Blocked(switch) => {
                    return VecProgress::Blocked { at: i, total: sum, switch };
                },
            };
            if n < 0 {
                return VecProgress::Done(if sum == 0 { n } else { sum });
            }
            sum = sum + n;
            if (n as u64) < len {
                return VecProgress::Done(sum);
            }
        }
        i += 1;
    }
    VecProgress::Done(sum)
}

// ---------------------------------------------------------------------------------------------
// Making pipes
// ---------------------------------------------------------------------------------------------

impl KView {
    /// What `pipe` does.
    pub open spec fn sys_pipe(self, fds_ptr: u64) -> (KView, i64) {
        let id = self.next_pipe;
        let k0 = KView {
            pipes: self.pipes.insert(id, PipeView { data: Seq::empty(), readers: 1, writers: 1 }),
            next_pipe: (id + 1) as u64,
            ..self
        };
        let (k1, r) = k0.fd_allocated(FdView::PipeRead(id));
        if r < 0 {
            (k1.dropped(FdView::PipeWrite(id)), r)
        } else {
            let (k2, w) = k1.fd_allocated(FdView::PipeWrite(id));
            if w < 0 {
                (k2.fd_set(r as u64, None).dropped(FdView::PipeRead(id)), w)
            } else {
                k2.handed_out(fds_ptr, util::enc32(r as u32) + util::enc32(w as u32))
            }
        }
    }
}

/// `pipe(fds)`: makes a pipe and stores the numbers of its reading and its writing end.
pub fn sys_pipe(k: &mut Kernel, fds_ptr: u64) -> (r: i64)
    requires
        old(k)@.wf(),
        old(k)@.next_pipe < u64::MAX,
    ensures
        final(k)@.wf(),
        (final(k)@, r) == old(k)@.sys_pipe(fds_ptr),
{
    let ghost before = k@;
    let id = k.next_pipe;
    let buf = PipeBuf { data: Vec::new(), readers: 1, writers: 1 };
    assert(buf@ =~= PipeView { data: Seq::empty(), readers: 1, writers: 1 });
    k.restore_pipe(id, buf);
    k.next_pipe = id + 1;
    let ghost k0 = k@;
    let r = files::alloc_fd(k, Fd::PipeRead(id));
    if r < 0 {
        proof {
            files::lemma_slot_frame(k@, Some(FdView::PipeWrite(id)));
        }
        k.drop_fd(&Fd::PipeWrite(id));
        return r;
    }
    let ghost k1 = k@;
    let w = files::alloc_fd(k, Fd::PipeWrite(id));
    if w < 0 {
        let ghost k2 = k@;
        proof {
            files::lemma_fd_allocated(k0, FdView::PipeRead(id));
            files::lemma_fd_allocated(k1, FdView::PipeWrite(id));
            files::lemma_fd_refused(k1, FdView::PipeWrite(id));
        }
        let mut p = k.take_proc();
        assert(p@ == k1.proc());
        assert(p@.fds.len() == p.fds@.len());
        let _ = replace_slot(&mut p.fds, r as usize, None);
        k.put_proc(p);
        assert(k@.procs =~= k2.fd_set(r as u64, None).procs);
        proof {
            files::lemma_slot_frame(k@, Some(FdView::PipeRead(id)));
        }
        k.drop_fd(&Fd::PipeRead(id));
        return w;
    }
    let mut out = [0u8;8];
    util::put_u32(&mut out, 0, r as u32);
    util::put_u32(&mut out, 4, w as u32);
    assert(out@ =~= util::enc32(r as u32) + util::enc32(w as u32));
    files::hand_out(k, fds_ptr, &out)
}

} // verus!
