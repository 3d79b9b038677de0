//! What calls on files and descriptors do, each said of the bytes and numbers that a process sees.

use crate::fs::fat::FatError;
use crate::fs::fat_dir::NodeView;
use crate::mm::paging::{self, MemView};
use crate::syscall::dirents;
use crate::syscall::files;
use crate::syscall::io::{self, Progress};
use crate::syscall::kernel::{self, FdView, FileView, KView, ProcView};
use crate::syscall::laws;
use crate::syscall::uaccess;
use crate::util;
use vstd::prelude::*;

verus! {

// ---------------------------------------------------------------------------------------------
// What stays
// ---------------------------------------------------------------------------------------------

/// `k2` is `k` but for the descriptors of the calling process.
pub open spec fn only_descriptors(k: KView, k2: KView) -> bool {
    &&& k2 == (KView { procs: k2.procs, ..k })
    &&& k2.proc().cwd == k.proc().cwd
    &&& k2.proc().brk == k.proc().brk
    &&& forall|key: u64|
        key != k.key ==> k2.procs.dom().contains(key) == k.procs.dom().contains(key)
            && #[trigger] k2.procs[key] == k.procs[key]
}

/// No descriptor but `fd` has changed.
pub open spec fn other_descriptors_stay(k: KView, k2: KView, fd: u64) -> bool {
    forall|other: u64| other != fd ==> #[trigger] k2.proc().fd(other) == k.proc().fd(other)
}

/// `k2` is `k`: what the calling process has and all else.
pub open spec fn nothing_changes(k: KView, k2: KView) -> bool {
    only_descriptors(k, k2) && k2.proc().fds == k.proc().fds
}

/// The memory `m2` is `m` with `data` at `start`: all other bytes and all permissions stay.
pub open spec fn memory_gets(m: MemView, m2: MemView, start: int, data: Seq<u8>) -> bool {
    &&& m2.pages.dom() == m.pages.dom()
    &&& forall|a: int| #[trigger]
        m2.byte(a) == (if start <= a < start + data.len() {
            data[a - start]
        } else {
            m.byte(a)
        }) || !m.mapped(a)
    &&& forall|a: int, w: bool| #[trigger] m2.user_ok(a, w) == m.user_ok(a, w)
}

/// User mode may write to all bytes of `start .. start + len`, which lie below the end of user
/// space.
pub open spec fn may_write(m: MemView, start: u64, len: nat) -> bool {
    &&& start + len <= 0x8000_0000_0000
    &&& forall|a: int| start <= a < start + len ==> #[trigger] m.user_ok(a, true)
}

/// A copy to memory that user mode may write to.
pub proof fn lemma_copied(m: MemView, start: u64, data: Seq<u8>)
    requires
        m.wf(),
        may_write(m, start, data.len()),
    ensures
        ({
            let (m2, r) = uaccess::user_copied(m, start, data);
            &&& r is Ok
            &&& m2.wf()
            &&& memory_gets(m, m2, start as int, data)
            &&& m2.bytes(start as int, data.len()) == data
        }),
{
    let m2 = uaccess::user_copied(m, start, data).0;
    paging::lemma_written(m, start as int, data);
    assert(m2.pages.dom() =~= m.pages.dom());
    assert forall|a: int, w: bool| #[trigger] m2.user_ok(a, w) == m.user_ok(a, w) by {
        assert(m2.mapped(a) == m.mapped(a));
        if m.mapped(a) {
            let p = paging::page_of(a) as u64;
            assert(m2.pages[p].user == m.pages[p].user);
        }
    }
    assert forall|a: int| start <= a < start + data.len() implies #[trigger] m.mapped(a) by {
        assert(m.user_ok(a, true));
    }
    paging::lemma_bytes_written(m, start as int, data);
}

/// A copy that is refused.
proof fn lemma_not_copied(m: MemView, start: u64, data: Seq<u8>)
    requires
        0 < data.len() <= u64::MAX,
        !may_write(m, start, data.len()),
    ensures
        uaccess::user_copied(m, start, data) == (m, Err::<(), i64>(14)),
{
}

// ---------------------------------------------------------------------------------------------
// Opening
// ---------------------------------------------------------------------------------------------

/// A file is a node.
proof fn lemma_file_node(k: KView, path: Seq<u8>)
    ensures
        k.fs.file(path) matches Ok(data) ==> k.fs.node(path) == Ok::<NodeView, FatError>(
            NodeView::File(data),
        ),
{
}

/// The descriptor that an open gets.
proof fn lemma_opened(k: KView, f: FdView)
    requires
        k.wf(),
    ensures
        ({
            let (k2, r) = k.fd_allocated(f);
            &&& k2.fs == k.fs
            &&& r >= 0 || r == -24
            &&& r >= 0 ==> {
                &&& k2.proc().fd(r as u64) == Some(f)
                &&& k.proc().fd(r as u64) is None
                &&& only_descriptors(k, k2)
                &&& other_descriptors_stay(k, k2, r as u64)
            }
            &&& r < 0 ==> forall|j: u64| j < 16 ==> #[trigger] k.proc().fd(j) is Some
        }),
{
    let (k2, r) = k.fd_allocated(f);
    assert(k.proc().fds.len() <= kernel::MAX_FDS);
    laws::law_new_descriptor_is_the_lowest_free(k, f, 0);
    files::lemma_fd_allocated(k, f);
    files::lemma_slot_frame(k.touched(), Some(f));
    if r >= 0 {
        assert forall|other: u64| other != r as u64 implies #[trigger] k2.proc().fd(other)
            == k.proc().fd(other) by {
            laws::law_new_descriptor_is_the_lowest_free(k, f, other);
        }
    }
}

/// A relative path that is looked at leaves all as it is.
proof fn lemma_path_arg(k: KView, ptr: u64)
    ensures
        nothing_changes(k, k.path_arg(ptr).0),
        k.path_arg(ptr).0.fs == k.fs,
        k.path_arg(ptr).0.mem == k.mem,
        k.path_arg(ptr).0.key == k.key,
        k.path_arg(ptr).0.proc() == k.proc(),
        k.wf() ==> k.path_arg(ptr).0.wf(),
{
}

/// A file that is opened and not truncated is as it is on the disk: the descriptor holds its
/// contents, at the start, or at the end where it was opened to append. Nothing on the disk changes,
/// whatever else the flags ask for. There is no descriptor only where all are in use.
pub proof fn law_opened_file_holds_its_contents(
    k: KView,
    ptr: u64,
    flags: u64,
    path: Seq<u8>,
    data: Seq<u8>,
)
    requires
        k.wf(),
        k.path_arg(ptr).1 == Ok::<Seq<u8>, i64>(path),
        k.fs.file(path) == Ok::<Seq<u8>, FatError>(data),
        flags & 0x200 == 0,
        data.len() <= u64::MAX,
    ensures
        ({
            let (k2, r) = k.sys_open(ptr, flags);
            &&& k2.fs == k.fs
            &&& r >= 0 || r == -24
            &&& r >= 0 ==> {
                &&& only_descriptors(k, k2)
                &&& other_descriptors_stay(k, k2, r as u64)
                &&& k.proc().fd(r as u64) is None
                &&& k2.proc().fd(r as u64) matches Some(FdView::File(f)) && {
                    &&& f.name == path
                    &&& f.data == data
                    &&& f.offset == (if flags & 0x400 != 0 {
                        data.len()
                    } else {
                        0
                    })
                    &&& f.writable == (flags & 3 != 0)
                    &&& !f.dirty
                    &&& !f.is_dir
                }
            }
            &&& r < 0 ==> forall|j: u64| j < 16 ==> #[trigger] k.proc().fd(j) is Some
        }),
{
    lemma_path_arg(k, ptr);
    lemma_file_node(k, path);
    let k1 = k.path_arg(ptr).0;
    let f = files::open_target(k1.fs, path, flags).1->Ok_0;
    assert(KView { fs: k1.fs, ..k1 } == k1);
    lemma_opened(k1, FdView::File(f));
}

/// A file that is opened to be truncated is empty from then on: it is written over by nothing, and
/// the descriptor holds nothing. Where that fails, its error is returned and there is no descriptor.
/// So it is with a file that does not exist and is to be created.
pub proof fn law_truncated_or_created_file_is_empty(k: KView, ptr: u64, flags: u64, path: Seq<u8>)
    requires
        k.wf(),
        k.path_arg(ptr).1 == Ok::<Seq<u8>, i64>(path),
        (k.fs.file(path) is Ok && flags & 0x200 != 0) || (k.fs.node(path) == Err::<
            NodeView,
            FatError,
        >(FatError::NotFound) && flags & 0x40 != 0),
        k.fs.file_written(path, Seq::empty()).0.wf(),
    ensures
        ({
            let (k2, r) = k.sys_open(ptr, flags);
            let (fs2, w) = k.fs.file_written(path, Seq::empty());
            &&& k2.fs == fs2
            &&& w matches Err(e) ==> r == -files::errno_of(e) && k2.proc().fds == k.proc().fds
            &&& w is Ok ==> r >= 0 || r == -24
            &&& w is Ok && r >= 0 ==> (k2.proc().fd(r as u64) matches Some(FdView::File(f)) && {
                &&& f.name == path
                &&& f.data.len() == 0
                &&& f.offset == 0
                &&& f.writable == (flags & 3 != 0)
                &&& !f.dirty
                &&& !f.is_dir
            })
            &&& w is Ok && r >= 0 ==> other_descriptors_stay(k, k2, r as u64)
        }),
{
    lemma_path_arg(k, ptr);
    lemma_file_node(k, path);
    let k1 = k.path_arg(ptr).0;
    let (fs2, w) = k.fs.file_written(path, Seq::empty());
    let k3 = KView { fs: fs2, ..k1 };
    assert(k3.proc() == k.proc());
    if w is Ok {
        let f = files::open_target(k1.fs, path, flags).1->Ok_0;
        lemma_opened(k3, FdView::File(f));
    }
}

/// What does not exist and is not to be created is not opened, and nothing changes. Any other error
/// of the file system is returned as it is.
pub proof fn law_missing_file_is_not_opened(k: KView, ptr: u64, flags: u64, path: Seq<u8>)
    requires
        k.path_arg(ptr).1 == Ok::<Seq<u8>, i64>(path),
        k.fs.node(path) is Err,
    ensures
        ({
            let (k2, r) = k.sys_open(ptr, flags);
            let e = k.fs.node(path)->Err_0;
            &&& e is NotFound && flags & 0x40 == 0 ==> nothing_changes(k, k2) && r == -2
            &&& !(e is NotFound) ==> nothing_changes(k, k2) && r == -files::errno_of(e)
        }),
{
    lemma_path_arg(k, ptr);
    let k1 = k.path_arg(ptr).0;
    assert(KView { fs: k1.fs, ..k1 } == k1);
}

/// A directory can be opened to be read only; the descriptor then holds its entries, from the
/// first on.
pub proof fn law_opened_directory_holds_its_entries(k: KView, ptr: u64, flags: u64, path: Seq<u8>)
    requires
        k.wf(),
        k.path_arg(ptr).1 == Ok::<Seq<u8>, i64>(path),
        k.fs.node(path) matches Ok(NodeView::Dir(_)),
    ensures
        ({
            let (k2, r) = k.sys_open(ptr, flags);
            let items = k.fs.node(path)->Ok_0->Dir_0;
            &&& k2.fs == k.fs
            &&& flags & 3 != 0 ==> nothing_changes(k, k2) && r == -21
            &&& flags & 3 == 0 ==> r >= 0 || r == -24
            &&& flags & 3 == 0 && r >= 0 ==> (k2.proc().fd(r as u64) matches Some(FdView::File(f))
                && f.is_dir && f.offset == 0 && !f.writable && f.data == dirents::dirents(items))
            &&& flags & 3 == 0 && r >= 0 ==> only_descriptors(k, k2) && other_descriptors_stay(
                k,
                k2,
                r as u64,
            )
        }),
{
    lemma_path_arg(k, ptr);
    let k1 = k.path_arg(ptr).0;
    assert(KView { fs: k1.fs, ..k1 } == k1);
    if flags & 3 == 0 {
        let f = files::open_target(k1.fs, path, flags).1->Ok_0;
        lemma_opened(k1, FdView::File(f));
    }
}

// ---------------------------------------------------------------------------------------------
// Metadata
// ---------------------------------------------------------------------------------------------

/// Where the fields of the structure of `stat` stand.
proof fn lemma_stat_layout(mode: u32, ino: u64, nlink: u64, size: u64)
    ensures
        ({
            let b = files::stat_bytes(mode, ino, nlink, size);
            let blocks = ((size + 511) / 512) as u64;
            &&& b.len() == 144
            &&& b.subrange(8, 16) == util::enc64(ino)
            &&& b.subrange(16, 24) == util::enc64(nlink)
            &&& b.subrange(24, 28) == util::enc32(mode)
            &&& b.subrange(48, 56) == util::enc64(size)
            &&& b.subrange(56, 64) == util::enc64(512)
            &&& b.subrange(64, 72) == util::enc64(blocks)
            &&& forall|i: int|
                (0 <= i < 8 || 28 <= i < 48 || 72 <= i < 144) ==> #[trigger] b[i] == 0
        }),
{
    let b = files::stat_bytes(mode, ino, nlink, size);
    let blocks = ((size + 511) / 512) as u64;
    util::lemma_le64_enc64(ino);
    util::lemma_le64_enc64(nlink);
    util::lemma_le64_enc64(size);
    util::lemma_le64_enc64(512);
    util::lemma_le64_enc64(blocks);
    util::lemma_le32_enc32(mode);
    let z8 = Seq::new(8, |i: int| 0u8);
    let z20 = Seq::new(20, |i: int| 0u8);
    let z72 = Seq::new(72, |i: int| 0u8);
    let p1 = z8 + util::enc64(ino);
    let p2 = p1 + util::enc64(nlink);
    let p3 = p2 + util::enc32(mode);
    let p4 = p3 + z20;
    let p5 = p4 + util::enc64(size);
    let p6 = p5 + util::enc64(512);
    let p7 = p6 + util::enc64(blocks);
    assert(b == p7 + z72);
    lemma_joined(z8, util::enc64(ino));
    lemma_joined(p1, util::enc64(nlink));
    lemma_joined(p2, util::enc32(mode));
    lemma_joined(p3, z20);
    lemma_joined(p4, util::enc64(size));
    lemma_joined(p5, util::enc64(512));
    lemma_joined(p6, util::enc64(blocks));
    lemma_joined(p7, z72);
    assert(b.subrange(8, 16) == util::enc64(ino)) by {
        lemma_kept(p1, util::enc64(nlink), 8, 16);
        lemma_kept(p2, util::enc32(mode), 8, 16);
        lemma_kept(p3, z20, 8, 16);
        lemma_kept(p4, util::enc64(size), 8, 16);
        lemma_kept(p5, util::enc64(512), 8, 16);
        lemma_kept(p6, util::enc64(blocks), 8, 16);
        lemma_kept(p7, z72, 8, 16);
    }
    assert(b.subrange(16, 24) == util::enc64(nlink)) by {
        lemma_kept(p2, util::enc32(mode), 16, 24);
        lemma_kept(p3, z20, 16, 24);
        lemma_kept(p4, util::enc64(size), 16, 24);
        lemma_kept(p5, util::enc64(512), 16, 24);
        lemma_kept(p6, util::enc64(blocks), 16, 24);
        lemma_kept(p7, z72, 16, 24);
    }
    assert(b.subrange(24, 28) == util::enc32(mode)) by {
        lemma_kept(p3, z20, 24, 28);
        lemma_kept(p4, util::enc64(size), 24, 28);
        lemma_kept(p5, util::enc64(512), 24, 28);
        lemma_kept(p6, util::enc64(blocks), 24, 28);
        lemma_kept(p7, z72, 24, 28);
    }
    assert(b.subrange(48, 56) == util::enc64(size)) by {
        lemma_kept(p5, util::enc64(512), 48, 56);
        lemma_kept(p6, util::enc64(blocks), 48, 56);
        lemma_kept(p7, z72, 48, 56);
    }
    assert(b.subrange(56, 64) == util::enc64(512)) by {
        lemma_kept(p6, util::enc64(blocks), 56, 64);
        lemma_kept(p7, z72, 56, 64);
    }
    assert(b.subrange(64, 72) == util::enc64(blocks)) by {
        lemma_kept(p7, z72, 64, 72);
    }
    assert forall|i: int| (0 <= i < 8 || 28 <= i < 48 || 72 <= i < 144) implies #[trigger] b[i]
        == 0 by {
        if i < 8 {
            assert(b[i] == z8[i]);
        } else if i < 48 {
            assert(b[i] == z20[i - 28]);
        } else {
            assert(b[i] == z72[i - 72]);
        }
    }
}

/// What stands behind something.
proof fn lemma_joined(a: Seq<u8>, b: Seq<u8>)
    ensures
        (a + b).len() == a.len() + b.len(),
        (a + b).subrange(a.len() as int, (a.len() + b.len()) as int) == b,
{
    assert((a + b).subrange(a.len() as int, (a.len() + b.len()) as int) =~= b);
}

/// What stood in something stands there with more behind it.
proof fn lemma_kept(a: Seq<u8>, b: Seq<u8>, from: int, to: int)
    requires
        0 <= from <= to <= a.len(),
    ensures
        (a + b).subrange(from, to) == a.subrange(from, to),
{
    assert((a + b).subrange(from, to) =~= a.subrange(from, to));
}

/// The fields of the structure of `stat`.
proof fn lemma_stat_fields(mode: u32, ino: u64, nlink: u64, size: u64)
    ensures
        ({
            let b = files::stat_bytes(mode, ino, nlink, size);
            &&& b.len() == 144
            &&& util::le64(b, 8) == ino
            &&& util::le64(b, 16) == nlink
            &&& util::le32(b, 24) == mode
            &&& util::le64(b, 48) == size
            &&& util::le64(b, 56) == 512
            &&& util::le64(b, 64) == (size + 511) / 512
            &&& forall|i: int|
                (0 <= i < 8 || 28 <= i < 48 || 72 <= i < 144) ==> #[trigger] b[i] == 0
        }),
{
    let b = files::stat_bytes(mode, ino, nlink, size);
    lemma_stat_layout(mode, ino, nlink, size);
    lemma_word(b, 8, ino);
    lemma_word(b, 16, nlink);
    lemma_word(b, 48, size);
    lemma_word(b, 56, 512);
    lemma_word(b, 64, ((size + 511) / 512) as u64);
    util::lemma_le32_enc32(mode);
    let e = util::enc32(mode);
    let s = b.subrange(24, 28);
    assert(s[0] == e[0] && s[1] == e[1] && s[2] == e[2] && s[3] == e[3]);
}

/// A word that stands in bytes.
pub proof fn lemma_word(b: Seq<u8>, at: int, x: u64)
    requires
        0 <= at <= b.len() - 8,
        b.subrange(at, at + 8) == util::enc64(x),
    ensures
        util::le64(b, at) == x,
{
    util::lemma_le64_enc64(x);
    let e = util::enc64(x);
    assert forall|i: int| 0 <= i < 8 implies b[at + i] == #[trigger] e[i] by {
        assert(b.subrange(at, at + 8)[i] == e[i]);
    }
    assert(util::le32(b, at) == util::le32(e, 0)) by {
        assert(b[at + 0] == e[0] && b[at + 1] == e[1] && b[at + 2] == e[2] && b[at + 3] == e[3]);
    }
    assert(util::le32(b, at + 4) == util::le32(e, 4)) by {
        assert(b[at + 4] == e[4] && b[at + 5] == e[5] && b[at + 6] == e[6] && b[at + 7] == e[7]);
    }
}

/// The 144 bytes at `buf` say: type and permissions, number, links and size of what is asked for,
/// its size in blocks of 512 bytes, rounded up, and zeros elsewhere.
pub open spec fn tells(m: MemView, buf: u64, mode: u32, ino: u64, nlink: u64, size: nat) -> bool {
    let b = m.bytes(buf as int, 144);
    &&& util::le64(b, 8) == ino
    &&& util::le64(b, 16) == nlink
    &&& util::le32(b, 24) == mode
    &&& util::le64(b, 48) == size
    &&& util::le64(b, 56) == 512
    &&& 512 * util::le64(b, 64) >= size
    &&& 512 * util::le64(b, 64) < size + 512
    &&& forall|i: int| (0 <= i < 8 || 28 <= i < 48 || 72 <= i < 144) ==> #[trigger] b[i] == 0
}

/// What was stated of a file or a directory.
proof fn lemma_told(k: KView, buf: u64, mode: u32, ino: u64, nlink: u64, size: u64)
    requires
        k.mem.wf(),
        may_write(k.mem, buf, 144),
    ensures
        ({
            let data = files::stat_bytes(mode, ino, nlink, size);
            let (k2, r) = k.handed_out(buf, data);
            &&& r == 0
            &&& k2 == (KView { mem: k2.mem, ..k })
            &&& tells(k2.mem, buf, mode, ino, nlink, size as nat)
            &&& memory_gets(k.mem, k2.mem, buf as int, data)
        }),
{
    let data = files::stat_bytes(mode, ino, nlink, size);
    lemma_stat_fields(mode, ino, nlink, size);
    lemma_copied(k.mem, buf, data);
}

/// Type and permissions are what they are everywhere: `rw-r--r--` of a file, `rwxr-xr-x` of a
/// directory.
proof fn lemma_modes()
    ensures
        files::mode_of(false) == 0o100644,
        files::mode_of(true) == 0o040755,
{
    assert(0o100000u32 | 0o644u32 == 0o100644u32) by (bit_vector);
    assert(0o040000u32 | 0o755u32 == 0o040755u32) by (bit_vector);
}

/// `fstat` tells the size of an open file, which is the number of bytes that it holds, wherever its
/// position is; and that it is a file or a directory. Nothing else changes.
pub proof fn law_fstat_tells_the_size(k: KView, fd: u64, buf: u64, f: FileView)
    requires
        k.wf(),
        k.proc().fd(fd) == Some(FdView::File(f)),
        f.data.len() <= u64::MAX,
        may_write(k.mem, buf, 144),
    ensures
        ({
            let (k2, r) = k.sys_fstat(fd, buf);
            &&& r == 0
            &&& f.is_dir ==> tells(k2.mem, buf, 0o040755, 0, 2, f.data.len())
            &&& !f.is_dir ==> tells(k2.mem, buf, 0o100644, 0, 1, f.data.len())
            &&& nothing_changes(k, (KView { mem: k.mem, ..k2 }))
            &&& memory_gets(k.mem, k2.mem, buf as int, k2.mem.bytes(buf as int, 144))
        }),
{
    lemma_modes();
    lemma_told(
        k.touched(),
        buf,
        files::mode_of(f.is_dir),
        0,
        files::links_of(f.is_dir),
        f.data.len() as u64,
    );
    let data = files::fd_stat(FdView::File(f));
    lemma_stat_fields(
        files::mode_of(f.is_dir),
        0,
        files::links_of(f.is_dir),
        f.data.len() as u64,
    );
    lemma_copied(k.mem, buf, data);
}

/// `fstat` of what is no file tells what kind of thing it is, and that it has no size.
pub proof fn law_fstat_tells_the_kind(k: KView, fd: u64, buf: u64)
    requires
        k.wf(),
        k.proc().fd(fd) is Some,
        !(k.proc().fd(fd)->0 is File),
        may_write(k.mem, buf, 144),
    ensures
        ({
            let (k2, r) = k.sys_fstat(fd, buf);
            &&& r == 0
            &&& nothing_changes(k, (KView { mem: k.mem, ..k2 }))
            &&& match k.proc().fd(fd)->0 {
                FdView::PipeRead(_) => tells(k2.mem, buf, 0o010600, 0, 1, 0),
                FdView::PipeWrite(_) => tells(k2.mem, buf, 0o010600, 0, 1, 0),
                FdView::Socket(_, _) => tells(k2.mem, buf, 0o140600, 0, 1, 0),
                _ => tells(k2.mem, buf, 0o020620, 0, 1, 0),
            }
        }),
{
    assert(0o010000u32 | 0o600u32 == 0o010600u32) by (bit_vector);
    assert(0o140000u32 | 0o600u32 == 0o140600u32) by (bit_vector);
    assert(0o020000u32 | 0o620u32 == 0o020620u32) by (bit_vector);
    let v = k.proc().fd(fd)->0;
    match v {
        FdView::PipeRead(_) => lemma_kind_told(k, fd, buf, 0o010600),
        FdView::PipeWrite(_) => lemma_kind_told(k, fd, buf, 0o010600),
        FdView::Socket(_, _) => lemma_kind_told(k, fd, buf, 0o140600),
        _ => lemma_kind_told(k, fd, buf, 0o020620),
    }
}

proof fn lemma_kind_told(k: KView, fd: u64, buf: u64, mode: u32)
    requires
        k.wf(),
        k.proc().fd(fd) is Some,
        files::fd_stat(k.proc().fd(fd)->0) == files::stat_bytes(mode, 0, 1, 0),
        may_write(k.mem, buf, 144),
    ensures
        k.sys_fstat(fd, buf).1 == 0,
        nothing_changes(k, (KView { mem: k.mem, ..k.sys_fstat(fd, buf).0 })),
        tells(k.sys_fstat(fd, buf).0.mem, buf, mode, 0, 1, 0),
{
    lemma_told(k.touched(), buf, mode, 0, 1, 0);
}

/// `stat` tells the size, the kind and the first cluster of what a path names.
pub proof fn law_stat_tells_the_size(k: KView, ptr: u64, buf: u64, path: Seq<u8>)
    requires
        k.wf(),
        k.path_arg(ptr).1 == Ok::<Seq<u8>, i64>(path),
        may_write(k.mem, buf, 144),
    ensures
        ({
            let (k2, r) = k.sys_stat(ptr, buf);
            &&& nothing_changes(k, (KView { mem: k.mem, ..k2 }))
            &&& k.fs.meta(path) matches Err(e) ==> r == -files::errno_of(e) && k2.mem == k.mem
            &&& k.fs.meta(path) matches Ok(m) ==> {
                &&& r == 0
                &&& m.is_dir ==> tells(
                    k2.mem,
                    buf,
                    0o040755,
                    m.first_cluster as u64,
                    2,
                    m.size as nat,
                )
                &&& !m.is_dir ==> tells(
                    k2.mem,
                    buf,
                    0o100644,
                    m.first_cluster as u64,
                    1,
                    m.size as nat,
                )
            }
        }),
{
    lemma_modes();
    lemma_path_arg(k, ptr);
    if let Ok(m) = k.fs.meta(path) {
        lemma_told(
            k.path_arg(ptr).0,
            buf,
            files::mode_of(m.is_dir),
            m.first_cluster as u64,
            files::links_of(m.is_dir),
            m.size as u64,
        );
    }
}

/// A file that was just opened, and not truncated, has the size that `stat` tells of its path.
pub proof fn law_stat_and_fstat_agree(
    k: KView,
    ptr: u64,
    flags: u64,
    path: Seq<u8>,
    data: Seq<u8>,
    buf: u64,
)
    requires
        k.wf(),
        k.path_arg(ptr).1 == Ok::<Seq<u8>, i64>(path),
        k.fs.file(path) == Ok::<Seq<u8>, FatError>(data),
        flags & 0x200 == 0,
        k.sys_open(ptr, flags).1 >= 0,
        may_write(k.mem, buf, 144),
    ensures
        ({
            let (k2, fd) = k.sys_open(ptr, flags);
            let (k3, r) = k2.sys_fstat(fd as u64, buf);
            let (k4, r4) = k.sys_stat(ptr, buf);
            &&& r == 0 && r4 == 0
            &&& util::le64(k3.mem.bytes(buf as int, 144), 48) == data.len()
            &&& util::le64(k4.mem.bytes(buf as int, 144), 48) == data.len()
        }),
{
    if let Ok(v) = k.fs.volume {
        let e = v.entry_of(k.fs.disk, path)->Ok_0;
        v.lemma_chain_data_len(k.fs.disk, e.first_cluster, e.size as nat);
        assert(data.len() == e.size);
        assert(k.fs.meta(path) == Ok::<crate::fs::fat::DirEntry, FatError>(e));
    }
    law_opened_file_holds_its_contents(k, ptr, flags, path, data);
    let (k2, fd) = k.sys_open(ptr, flags);
    let f = k2.proc().fd(fd as u64)->0->File_0;
    assert(k2.wf()) by {
        lemma_path_arg(k, ptr);
        lemma_file_node(k, path);
        files::lemma_fd_allocated(k.path_arg(ptr).0, FdView::File(f));
    }
    law_fstat_tells_the_size(k2, fd as u64, buf, f);
    law_stat_tells_the_size(k, ptr, buf, path);
}

/// Metadata is not handed out for a number that is no descriptor, nor to memory that user mode may
/// not write to.
pub proof fn law_metadata_is_refused(k: KView, fd: u64, buf: u64, ptr: u64, path: Seq<u8>)
    ensures
        k.proc().fd(fd) is None ==> k.sys_fstat(fd, buf).1 == -9 && nothing_changes(
            k,
            k.sys_fstat(fd, buf).0,
        ),
        k.proc().fd(fd) is Some && !may_write(k.mem, buf, 144) ==> k.sys_fstat(fd, buf).1 == -14
            && nothing_changes(k, k.sys_fstat(fd, buf).0),
        k.path_arg(ptr).1 == Ok::<Seq<u8>, i64>(path) && k.fs.meta(path) is Ok && !may_write(
            k.mem,
            buf,
            144,
        ) ==> k.sys_stat(ptr, buf).1 == -14 && nothing_changes(k, k.sys_stat(ptr, buf).0),
{
    lemma_path_arg(k, ptr);
    if let Some(v) = k.proc().fd(fd) {
        lemma_fd_stat_len(v);
        if !may_write(k.mem, buf, 144) {
            lemma_not_copied(k.mem, buf, files::fd_stat(v));
        }
    }
    if let Ok(m) = k.fs.meta(path) {
        let b = files::stat_bytes(
            files::mode_of(m.is_dir),
            m.first_cluster as u64,
            files::links_of(m.is_dir),
            m.size as u64,
        );
        lemma_stat_fields(
            files::mode_of(m.is_dir),
            m.first_cluster as u64,
            files::links_of(m.is_dir),
            m.size as u64,
        );
        if !may_write(k.mem, buf, 144) {
            lemma_not_copied(k.mem, buf, b);
        }
    }
}

proof fn lemma_fd_stat_len(v: FdView)
    ensures
        files::fd_stat(v).len() == 144,
{
    match v {
        FdView::File(f) => lemma_stat_fields(
            files::mode_of(f.is_dir),
            0,
            files::links_of(f.is_dir),
            f.data.len() as u64,
        ),
        _ => {},
    }
}

// ---------------------------------------------------------------------------------------------
// Reading, writing and seeking
// ---------------------------------------------------------------------------------------------

/// User mode may read all bytes of `start .. start + len`, which lie below the end of user space.
pub open spec fn may_read(m: MemView, start: u64, len: nat) -> bool {
    &&& start + len <= 0x8000_0000_0000
    &&& forall|a: int| start <= a < start + len ==> #[trigger] m.user_ok(a, false)
}

/// A change of one descriptor is that and nothing else.
proof fn lemma_fd_set(k: KView, fd: u64, v: Option<FdView>)
    requires
        fd < k.proc().fds.len(),
    ensures
        only_descriptors(k, k.fd_set(fd, v)),
        other_descriptors_stay(k, k.fd_set(fd, v), fd),
        k.fd_set(fd, v).proc().fd(fd) == v,
{
}

/// A read of a file gets the bytes from its position on, as many as are asked for and as there are,
/// puts them where they are asked for and moves the position behind them. Nothing else changes.
pub proof fn law_file_is_read_from_its_position(
    k: KView,
    fd: u64,
    buf: u64,
    count: u64,
    f: FileView,
    n: nat,
)
    requires
        k.wf(),
        k.proc().fd(fd) == Some(FdView::File(f)),
        !f.is_dir,
        f.data.len() <= u64::MAX,
        n <= count,
        f.offset <= f.data.len() ==> f.offset + n <= f.data.len() && (n == count || f.offset + n
            == f.data.len()),
        f.offset > f.data.len() ==> n == 0,
        may_write(k.mem, buf, n),
    ensures
        ({
            let (k2, r) = k.sys_read(fd, buf, count);
            let got = Seq::new(n, |i: int| f.data[f.offset + i]);
            &&& r == Progress::Done(n as i64)
            &&& k2.proc().fd(fd) == Some(
                FdView::File(FileView { offset: (f.offset + n) as u64, ..f }),
            )
            &&& memory_gets(k.mem, k2.mem, buf as int, got)
            &&& only_descriptors(k, (KView { mem: k.mem, ..k2 }))
            &&& other_descriptors_stay(k, k2, fd)
        }),
{
    let b = crate::syscall::io::file_rest(f, count);
    let got = Seq::new(n, |i: int| f.data[f.offset + i]);
    assert(b =~= got);
    lemma_copied(k.mem, buf, got);
    lemma_fd_set(k, fd, Some(FdView::File(FileView { offset: (f.offset + n) as u64, ..f })));
}

/// A read into memory that user mode may not write to fails, and nothing changes: a file keeps its
/// position.
pub proof fn law_read_into_foreign_memory_is_refused(
    k: KView,
    fd: u64,
    buf: u64,
    count: u64,
    f: FileView,
)
    requires
        k.proc().fd(fd) == Some(FdView::File(f)),
        !f.is_dir,
        f.offset < f.data.len() <= u64::MAX,
        count > 0,
        !may_write(
            k.mem,
            buf,
            if count <= f.data.len() - f.offset {
                count as nat
            } else {
                (f.data.len() - f.offset) as nat
            },
        ),
    ensures
        k.sys_read(fd, buf, count).1 == Progress::Done(-14i64),
        nothing_changes(k, k.sys_read(fd, buf, count).0),
{
    let b = crate::syscall::io::file_rest(f, count);
    lemma_not_copied(k.mem, buf, b);
}

/// A write to a file that was opened for it puts the bytes at its position: what stood there is
/// replaced, what stood elsewhere stays, the file grows where it is too short, and zeros fill a gap.
/// The position moves behind the bytes. The disk does not change yet.
pub proof fn law_file_is_written_at_its_position(
    k: KView,
    fd: u64,
    buf: u64,
    count: u64,
    rsp: u64,
    f: FileView,
    i: int,
)
    requires
        k.wf(),
        k.proc().fd(fd) == Some(FdView::File(f)),
        f.writable,
        !f.is_dir,
        f.offset + count <= u64::MAX,
        may_read(k.mem, buf, count as nat),
    ensures
        ({
            let (k2, r) = k.sys_write(fd, buf, count, rsp);
            let end = f.offset + count;
            &&& r == count
            &&& only_descriptors(k, k2)
            &&& other_descriptors_stay(k, k2, fd)
            &&& k2.proc().fd(fd) matches Some(FdView::File(g)) && {
                &&& g.offset == end
                &&& g.dirty
                &&& g == (FileView { data: g.data, offset: g.offset, dirty: true, ..f })
                &&& g.data.len() == (if end > f.data.len() {
                    end
                } else {
                    f.data.len() as int
                })
                &&& 0 <= i < g.data.len() ==> g.data[i] == (if f.offset <= i < end {
                    k.mem.byte(buf + (i - f.offset))
                } else if i < f.data.len() {
                    f.data[i]
                } else {
                    0
                })
            }
        }),
{
    let b = k.mem.bytes(buf as int, count as nat);
    assert(uaccess::user_bytes(k.mem, buf, count) == Ok::<Seq<u8>, i64>(b));
    lemma_fd_set(
        k,
        fd,
        Some(FdView::File(crate::syscall::io::file_after_write(f, b))),
    );
}

/// Nothing is written through a descriptor that was not opened for it, nor to a directory, nor from
/// memory that user mode may not read; and nothing is read or written through a number that is no
/// descriptor.
pub proof fn law_reads_and_writes_are_refused(k: KView, fd: u64, buf: u64, count: u64, rsp: u64)
    ensures
        k.proc().fd(fd) is None ==> {
            &&& k.sys_write(fd, buf, count, rsp).1 == -9
            &&& nothing_changes(k, k.sys_write(fd, buf, count, rsp).0)
            &&& k.sys_read(fd, buf, count).1 == Progress::Done(-9i64)
            &&& nothing_changes(k, k.sys_read(fd, buf, count).0)
        },
        k.proc().fd(fd) matches Some(FdView::File(f)) ==> {
            &&& f.is_dir || !f.writable ==> {
                &&& k.sys_write(fd, buf, count, rsp).1 == -9
                &&& nothing_changes(k, k.sys_write(fd, buf, count, rsp).0)
            }
            &&& f.is_dir ==> {
                &&& k.sys_read(fd, buf, count).1 == Progress::Done(-21i64)
                &&& nothing_changes(k, k.sys_read(fd, buf, count).0)
            }
            &&& !f.is_dir && f.writable && count > 0 && !may_read(k.mem, buf, count as nat) ==> {
                &&& k.sys_write(fd, buf, count, rsp).1 == -14
                &&& nothing_changes(k, k.sys_write(fd, buf, count, rsp).0)
            }
        },
        k.proc().fd(fd) matches Some(FdView::Console) ==> k.sys_write(fd, buf, count, rsp).1 == -9,
        k.proc().fd(fd) matches Some(FdView::PipeRead(_)) ==> k.sys_write(fd, buf, count, rsp).1
            == -9,
        k.proc().fd(fd) matches Some(FdView::PipeWrite(_)) ==> k.sys_read(fd, buf, count).1
            == Progress::Done(-9i64),
        k.proc().fd(fd) matches Some(FdView::Vga) ==> k.sys_read(fd, buf, count).1
            == Progress::Done(-9i64),
        k.proc().fd(fd) matches Some(FdView::Serial) ==> k.sys_read(fd, buf, count).1
            == Progress::Done(-9i64),
{
}

/// What is written to the serial line goes out behind what went out before; what is written to the
/// screen appears there, byte by byte.
pub proof fn law_devices_get_what_is_written(k: KView, fd: u64, buf: u64, count: u64, rsp: u64)
    requires
        may_read(k.mem, buf, count as nat),
    ensures
        ({
            let (k2, r) = k.sys_write(fd, buf, count, rsp);
            let b = Seq::new(count as nat, |i: int| k.mem.byte(buf + i));
            &&& k.proc().fd(fd) == Some(FdView::Serial) ==> r == count && k2.serial == k.serial + b
                && k2.screen == k.screen && k2.fs == k.fs && k2.mem == k.mem
            &&& k.proc().fd(fd) == Some(FdView::Vga) ==> r == count && k2.serial == k.serial
                && k2.screen == k.screen.bytes_written(b) && k2.fs == k.fs && k2.mem == k.mem
        }),
{
    let b = Seq::new(count as nat, |i: int| k.mem.byte(buf + i));
    assert(k.mem.bytes(buf as int, count as nat) =~= b);
}

/// The sum of bytes is that of their parts, and a byte counts as its value.
proof fn lemma_byte_sum(a: Seq<u8>, b: Seq<u8>)
    ensures
        io::byte_sum(a + b) == io::byte_sum(a) + io::byte_sum(b),
        a.len() == 1 ==> io::byte_sum(a) == a[0],
    decreases b.len(),
{
    if a.len() == 1 {
        assert(a.drop_last() =~= Seq::<u8>::empty());
        assert(io::byte_sum(a.drop_last()) == 0);
    }
    if b.len() == 0 {
        assert(a + b =~= a);
    } else {
        assert((a + b).drop_last() =~= a + b.drop_last());
        lemma_byte_sum(a, b.drop_last());
    }
}

/// The last write to a device is remembered: which descriptor it went to, how long it was and the
/// stack pointer of the caller, and the sum of its bytes, which is that of its parts.
pub proof fn law_last_write_is_remembered(
    k: KView,
    fd: u64,
    buf: u64,
    count: u64,
    rsp: u64,
    a: Seq<u8>,
    b: Seq<u8>,
)
    requires
        may_read(k.mem, buf, count as nat),
        k.proc().fd(fd) == Some(FdView::Serial) || k.proc().fd(fd) == Some(FdView::Vga),
    ensures
        ({
            let (k2, r) = k.sys_write(fd, buf, count, rsp);
            let bytes = Seq::new(count as nat, |i: int| k.mem.byte(buf + i));
            &&& k2.stats.last_write_fd == fd
            &&& k2.stats.last_write_len == count
            &&& k2.stats.last_write_user_rsp == rsp
            &&& k2.stats.last_write_sum == io::byte_sum(bytes) as u64
        }),
        io::byte_sum(a + b) == io::byte_sum(a) + io::byte_sum(b),
        a.len() == 1 ==> io::byte_sum(a) == a[0],
{
    let bytes = Seq::new(count as nat, |i: int| k.mem.byte(buf + i));
    assert(k.mem.bytes(buf as int, count as nat) =~= bytes);
    lemma_byte_sum(a, b);
}

/// The position of a file is moved from its start, from where it is, or from its end, and returned.
/// It cannot be moved before the start, and there is no other way to count.
pub proof fn law_position_is_moved(k: KView, fd: u64, by: i64, whence: u64, f: FileView)
    requires
        k.proc().fd(fd) == Some(FdView::File(f)),
        f.offset <= i64::MAX,
        f.data.len() <= i64::MAX,
    ensures
        ({
            let (k2, r) = k.sys_lseek(fd, by, whence);
            let to = by + (if whence == 0 {
                0
            } else if whence == 1 {
                f.offset as int
            } else {
                f.data.len() as int
            });
            &&& whence <= 2 && 0 <= to <= i64::MAX ==> {
                &&& r == to
                &&& k2.proc().fd(fd) == Some(FdView::File(FileView { offset: to as u64, ..f }))
                &&& only_descriptors(k, k2)
                &&& other_descriptors_stay(k, k2, fd)
            }
            &&& whence > 2 || to < 0 || to > i64::MAX ==> r == -22 && nothing_changes(k, k2)
        }),
{
    let to = by + (if whence == 0 {
        0
    } else if whence == 1 {
        f.offset as int
    } else {
        f.data.len() as int
    });
    lemma_fd_set(k, fd, Some(FdView::File(FileView { offset: to as u64, ..f })));
}

/// What is no file has no position.
pub proof fn law_only_files_have_a_position(k: KView, fd: u64, by: i64, whence: u64)
    requires
        !(k.proc().fd(fd) matches Some(FdView::File(_))),
    ensures
        k.sys_lseek(fd, by, whence).1 == (if k.proc().fd(fd) is None {
            -9int
        } else {
            -29int
        }),
        nothing_changes(k, k.sys_lseek(fd, by, whence).0),
{
}

// ---------------------------------------------------------------------------------------------
// Closing and copying
// ---------------------------------------------------------------------------------------------

/// A descriptor that was closed is free, and no other changes. A file that was written to is
/// written to the disk under its name; one that was not leaves the disk alone.
pub proof fn law_closed_descriptor_is_free(k: KView, fd: u64)
    ensures
        ({
            let (k2, r) = k.sys_close(fd);
            &&& k.proc().fd(fd) is None ==> r == -9 && nothing_changes(k, k2)
            &&& k.proc().fd(fd) is Some ==> k2.proc().fd(fd) is None && other_descriptors_stay(
                k,
                k2,
                fd,
            ) && k2.proc().cwd == k.proc().cwd
            &&& k.proc().fd(fd) matches Some(FdView::File(f)) ==> {
                let (fs2, w) = k.fs.file_written(f.name, f.data);
                &&& f.writable && f.dirty ==> k2.fs == fs2 && (match w {
                    Ok(_) => r == 0,
                    Err(e) => r == -files::errno_of(e),
                })
                &&& !(f.writable && f.dirty) ==> k2.fs == k.fs && r == 0
            }
            &&& k.proc().fd(fd) is Some && !(k.proc().fd(fd)->0 is File) ==> r == 0 && k2.fs == k.fs
        }),
{
    if let Some(v) = k.proc().fd(fd) {
        lemma_fd_set(k, fd, None);
        files::lemma_slot_frame(k.fd_set(fd, None), Some(v));
    }
}

/// `dup2` makes one descriptor stand for what another does. What it stood for before is given up,
/// and no third one changes. A number beyond the table, or one that is no descriptor, is refused.
pub proof fn law_descriptor_is_copied(k: KView, oldfd: u64, newfd: u64, other: u64)
    requires
        k.wf(),
    ensures
        ({
            let (k2, r) = k.sys_dup2(oldfd, newfd);
            &&& newfd >= 16 || k.proc().fd(oldfd) is None ==> r == -9 && nothing_changes(k, k2)
            &&& newfd < 16 && k.proc().fd(oldfd) is Some ==> {
                &&& r == newfd
                &&& k2.proc().fd(newfd) == k.proc().fd(oldfd)
                &&& other != newfd ==> k2.proc().fd(other) == k.proc().fd(other)
                &&& k2.fs == k.fs && k2.mem == k.mem && k2.proc().cwd == k.proc().cwd
            }
        }),
{
    if newfd < 16 && k.proc().fd(oldfd) is Some && oldfd != newfd {
        let v = k.proc().fd(oldfd)->0;
        let fds = files::extended(k.proc().fds, newfd as int);
        let k1 = k.with_proc(ProcView { fds: fds.update(newfd as int, Some(v)), ..k.proc() });
        files::lemma_slot_frame(k1, Some(v));
        files::lemma_slot_frame(k1.copied(v), fds[newfd as int]);
    }
}

/// Where the first free number is.
proof fn lemma_free_from(fds: Seq<Option<FdView>>, i: int)
    requires
        0 <= i <= 16,
    ensures
        ({
            let n = files::free_from(fds, i);
            &&& i <= n <= 16
            &&& n < 16 ==> n >= fds.len() || fds[n] is None
            &&& forall|j: int| i <= j < n ==> j < fds.len() && #[trigger] fds[j] is Some
        }),
    decreases 16 - i,
{
    if i < 16 && i < fds.len() && fds[i] is Some {
        lemma_free_from(fds, i + 1);
    }
}

/// `fcntl` with command 0 copies a descriptor to the lowest number that is free, from a given one
/// on. There is none only where all of these are in use.
pub proof fn law_descriptor_is_copied_upwards(k: KView, fd: u64, from: u64, other: u64)
    requires
        k.wf(),
    ensures
        ({
            let (k2, r) = k.sys_fcntl(fd, 0, from);
            &&& from >= 16 ==> r == -22 && nothing_changes(k, k2)
            &&& from < 16 && k.proc().fd(fd) is None ==> r == -9 && nothing_changes(k, k2)
            &&& from < 16 && k.proc().fd(fd) is Some ==> {
                &&& r == -24 || from <= r < 16
                &&& r >= 0 ==> {
                    &&& k.proc().fd(r as u64) is None
                    &&& k2.proc().fd(r as u64) == k.proc().fd(fd)
                    &&& other != r ==> k2.proc().fd(other) == k.proc().fd(other)
                    &&& forall|j: u64| from <= j < r ==> #[trigger] k.proc().fd(j) is Some
                }
                &&& r < 0 ==> forall|j: u64| from <= j < 16 ==> #[trigger] k.proc().fd(j) is Some
                &&& k2.fs == k.fs && k2.mem == k.mem && k2.proc().cwd == k.proc().cwd
            }
        }),
{
    if from < 16 && k.proc().fd(fd) is Some {
        lemma_free_from(k.proc().fds, from as int);
        let n = files::free_from(k.proc().fds, from as int);
        let v = k.proc().fd(fd)->0;
        files::lemma_slot_frame(k.touched(), Some(v));
        files::lemma_slot_frame(k.touched().copied(v), Some(v));
        if n < 16 {
            let fds = files::extended(k.proc().fds, n);
            let k1 = k.with_proc(ProcView { fds: fds.update(n, Some(v)), ..k.proc() });
            files::lemma_slot_frame(k1, Some(v));
            files::lemma_slot_frame(k1.copied(v), fds[n]);
        }
    }
}

/// `fcntl` with command 3 tells how a descriptor was opened: 0 to be read, 1 to be written, 2 for
/// both. Commands 1, 2 and 4 do nothing to a descriptor, and there is no other.
pub proof fn law_descriptor_tells_its_mode(k: KView, fd: u64, cmd: u64, arg: u64)
    ensures
        ({
            let (k2, r) = k.sys_fcntl(fd, cmd, arg);
            &&& 1 <= cmd <= 4 ==> nothing_changes(k, k2)
            &&& 1 <= cmd <= 4 && k.proc().fd(fd) is None ==> r == -9
            &&& (cmd == 1 || cmd == 2 || cmd == 4) && k.proc().fd(fd) is Some ==> r == 0
            &&& cmd == 3 && k.proc().fd(fd) is Some ==> r == (match k.proc().fd(fd)->0 {
                FdView::Console => 0int,
                FdView::PipeRead(_) => 0,
                FdView::Vga => 1,
                FdView::Serial => 1,
                FdView::PipeWrite(_) => 1,
                FdView::Socket(_, _) => 2,
                FdView::File(f) => if f.writable {
                    2
                } else {
                    0
                },
            })
            &&& cmd > 4 ==> r == -22 && k2 == k
        }),
{
}

// ---------------------------------------------------------------------------------------------
// Directories
// ---------------------------------------------------------------------------------------------

/// A process that changes its directory is in the directory that it named; what is no directory is
/// refused, and the process stays where it is.
pub proof fn law_directory_is_changed(k: KView, ptr: u64, path: Seq<u8>)
    requires
        k.path_arg(ptr).1 == Ok::<Seq<u8>, i64>(path),
    ensures
        ({
            let (k2, r) = k.sys_chdir(ptr);
            &&& k2.fs == k.fs && k2.mem == k.mem && k2.proc().fds == k.proc().fds
            &&& match k.fs.node(path) {
                Ok(NodeView::Dir(_)) => r == 0 && k2.proc().cwd == path && k2.proc().brk
                    == k.proc().brk,
                Ok(NodeView::File(_)) => r == -20 && nothing_changes(k, k2),
                Err(e) => r == -files::errno_of(e) && nothing_changes(k, k2),
            }
        }),
{
    lemma_path_arg(k, ptr);
}

/// The working directory is handed out with a zero behind it, if there is room for both.
pub proof fn law_working_directory_is_told(k: KView, buf: u64, size: u64)
    requires
        k.wf(),
        k.proc().cwd.len() < i64::MAX,
    ensures
        ({
            let (k2, r) = k.sys_getcwd(buf, size);
            let n = k.proc().cwd.len();
            &&& size <= n ==> r == -34 && nothing_changes(k, k2)
            &&& size > n && may_write(k.mem, buf, n + 1) ==> {
                &&& r == n + 1
                &&& memory_gets(k.mem, k2.mem, buf as int, k.proc().cwd.push(0))
                &&& nothing_changes(k, (KView { mem: k.mem, ..k2 }))
            }
            &&& size > n && !may_write(k.mem, buf, n + 1) ==> r == -14 && nothing_changes(k, k2)
        }),
{
    let b = k.proc().cwd.push(0);
    if may_write(k.mem, buf, b.len()) {
        lemma_copied(k.mem, buf, b);
    } else {
        lemma_not_copied(k.mem, buf, b);
    }
}

/// The number that stands for an error of the file system: no such file 2, taken already 17, no
/// directory 20, a directory 21, no room 28, not empty 39; any other is 5.
pub proof fn law_errors_have_their_numbers(e: FatError)
    ensures
        files::errno_of(e) == (match e {
            FatError::NotFound => 2int,
            FatError::AlreadyExists => 17,
            FatError::NotADirectory => 20,
            FatError::IsADirectory => 21,
            FatError::NoSpace => 28,
            FatError::DirFull => 28,
            FatError::NotEmpty => 39,
            FatError::Block(_) => 5,
            FatError::UnsupportedSectorSize => 5,
            FatError::NotFat32 => 5,
            FatError::BrokenChain => 5,
        }),
{
}

/// `mkdir`, `unlink` and `rmdir` do what they say to what the path names, and return 0 or the error
/// of the file system. Nothing but the file system changes.
pub proof fn law_directories_are_changed(k: KView, ptr: u64, path: Seq<u8>)
    requires
        k.path_arg(ptr).1 == Ok::<Seq<u8>, i64>(path),
    ensures
        ({
            let (k2, r) = k.sys_mkdir(ptr);
            let (fs2, w) = k.fs.dir_made(path);
            &&& k2.fs == fs2
            &&& nothing_changes(k, (KView { fs: k.fs, ..k2 }))
            &&& r == (match w {
                Ok(_) => 0int,
                Err(e) => -files::errno_of(e),
            })
        }),
        ({
            let (k2, r) = k.sys_unlink(ptr);
            let (fs2, w) = k.fs.file_removed(path);
            &&& k2.fs == fs2
            &&& nothing_changes(k, (KView { fs: k.fs, ..k2 }))
            &&& r == (match w {
                Ok(_) => 0int,
                Err(e) => -files::errno_of(e),
            })
        }),
        ({
            let (k2, r) = k.sys_rmdir(ptr);
            let (fs2, w) = k.fs.dir_removed(path);
            &&& k2.fs == fs2
            &&& nothing_changes(k, (KView { fs: k.fs, ..k2 }))
            &&& r == (match w {
                Ok(_) => 0int,
                Err(e) => -files::errno_of(e),
            })
        }),
{
    lemma_path_arg(k, ptr);
}

// ---------------------------------------------------------------------------------------------
// Paths
// ---------------------------------------------------------------------------------------------

/// The string at `addr`: bytes that user mode may read, none of them zero, and a zero behind them.
pub open spec fn string_at(m: MemView, addr: u64, s: Seq<u8>) -> bool {
    &&& addr + s.len() < 0x8000_0000_0000
    &&& forall|a: int| addr <= a <= addr + s.len() ==> #[trigger] m.user_ok(a, false)
    &&& forall|i: int| 0 <= i < s.len() ==> #[trigger] s[i] != 0 && m.byte(addr + i) == s[i]
    &&& m.byte((addr + s.len()) as int) == 0
}

pub proof fn lemma_cstr(m: MemView, addr: int, s: Seq<u8>)
    requires
        0 <= addr,
        addr + s.len() < 0x8000_0000_0000,
        forall|a: int| addr <= a <= addr + s.len() ==> #[trigger] m.user_ok(a, false),
        forall|i: int| 0 <= i < s.len() ==> #[trigger] s[i] != 0 && m.byte(addr + i) == s[i],
        m.byte((addr + s.len()) as int) == 0,
    ensures
        uaccess::user_cstr(m, addr) == Ok::<Seq<u8>, i64>(s),
    decreases s.len(),
{
    assert(m.user_ok(addr, false));
    if s.len() > 0 {
        let rest = s.skip(1);
        assert(s[0] != 0 && m.byte(addr + 0) == s[0]);
        assert forall|i: int| 0 <= i < rest.len() implies #[trigger] rest[i] != 0 && m.byte(
            addr + 1 + i,
        ) == rest[i] by {
            assert(s[i + 1] != 0 && m.byte(addr + (i + 1)) == s[i + 1]);
        }
        lemma_cstr(m, addr + 1, rest);
        assert(seq![m.byte(addr)] + rest =~= s);
    } else {
        assert(s =~= Seq::empty());
    }
}

/// A path is the string that the caller points at, up to its zero, resolved from the working
/// directory. One that is empty or no text names nothing.
pub proof fn law_path_is_the_string_pointed_at(k: KView, ptr: u64, s: Seq<u8>)
    requires
        string_at(k.mem, ptr, s),
    ensures
        s.len() > 0 && vstd::utf8::valid_utf8(s) ==> k.path_arg(ptr).1 == Ok::<Seq<u8>, i64>(
            crate::fs::path::resolved(k.proc().cwd, s),
        ),
        s.len() == 0 || !vstd::utf8::valid_utf8(s) ==> k.path_arg(ptr).1 == Err::<Seq<u8>, i64>(2),
        nothing_changes(k, k.path_arg(ptr).0),
{
    lemma_path_arg(k, ptr);
    lemma_cstr(k.mem, ptr as int, s);
}

/// A call whose path cannot be read fails, and nothing changes.
pub proof fn law_unreadable_path_is_refused(k: KView, ptr: u64, arg: u64)
    requires
        k.path_arg(ptr).1 is Err,
    ensures
        ({
            let e = k.path_arg(ptr).1->Err_0;
            &&& e == 14 || e == 2
            &&& k.sys_open(ptr, arg) == (k, (-e) as i64)
            &&& k.sys_stat(ptr, arg) == (k, (-e) as i64)
            &&& k.sys_chdir(ptr) == (k, (-e) as i64)
            &&& k.sys_mkdir(ptr) == (k, (-e) as i64)
            &&& k.sys_unlink(ptr) == (k, (-e) as i64)
            &&& k.sys_rmdir(ptr) == (k, (-e) as i64)
        }),
{
    files::lemma_cstr_errno(k.mem, ptr as int);
}

} // verus!
