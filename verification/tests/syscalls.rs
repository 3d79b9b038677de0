use ferros::arch::syscall::{
    can_be_first, exec, exec_stack_free, ferros_syscall_dispatch, first_program, fork,
    init_fork_child_stack, leaves_stack_free, set_syscall_stack, Entry, Spare, SyscallRegs,
};
use ferros::drivers::virtio_blk::{BlkError, Disk};
use ferros::fs::fat::FatError;
use ferros::fs::fat_dir::DirItem;
use ferros::fs::vfs::FileSystem;
use ferros::mm::paging::{map_user_page, KernelPages};
use ferros::sched::thread::{add_user_task, init, signal, switch_to_next, State};
use ferros::syscall::abi;
use ferros::syscall::dirents::{serialize_dirents, whole_records};
use ferros::syscall::files::{
    alloc_fd, dirents_readable, fat_errno, forget_process, path_arg, process_count, sys_chdir,
    sys_close, sys_dup2, sys_fcntl, sys_fstat, sys_getcwd, sys_getdents64, sys_lseek, sys_mkdir,
    sys_open, sys_rmdir, sys_stat, sys_unlink,
};
use ferros::syscall::heap::sys_brk;
use ferros::syscall::io::{
    sys_pipe, sys_read, sys_readv, sys_write, sys_writev, Progress, VecProgress,
};
use ferros::syscall::kernel::{Fd, Kernel, OpenFile, SockKind};
use ferros::syscall::process::{
    dispatch, kill_for_fault, reap, sys_exit, sys_kill, sys_wait4, SysStep,
};
use ferros::syscall::sockets::{
    call_finished, recv_finished, send_finished, socket_opened, sys_bind, sys_connect, sys_recvfrom,
    sys_sendto, sys_socket, NetCall,
};
use ferros::syscall::sysinfo::sys_uname;
use ferros::syscall::time::{sys_clock_gettime, sys_gettimeofday, sys_time};

const HEAP: u64 = 0x10_0000;
/// Where paths are put for a call, and where a buffer is.
const PATH: u64 = 0x1000;
const BUF: u64 = 0x2000;
const FREE: u64 = 0x9000;

fn empty_volume() -> FileSystem {
    let clusters = 60u32;
    let total = 3 + clusters;
    let mut sectors = vec![[0u8; 512]; total as usize];
    sectors[0][11..13].copy_from_slice(&512u16.to_le_bytes());
    sectors[0][13] = 1;
    sectors[0][14] = 1;
    sectors[0][16] = 2;
    sectors[0][32..36].copy_from_slice(&total.to_le_bytes());
    sectors[0][36] = 1;
    sectors[0][44] = 2;
    for copy in 1..3 {
        for entry in 0..3 {
            sectors[copy][4 * entry..4 * entry + 4].copy_from_slice(&0x0FFF_FFFFu32.to_le_bytes());
        }
    }
    let status = vec![0; total as usize];
    FileSystem::mount(Disk { online: true, sectors, read_status: status.clone(), answers: Vec::new(), used: 0, write_status: status, log: Vec::new() })
        .unwrap()
}

/// A kernel on which the first process runs, with three pages of memory.
fn kernel() -> Kernel {
    let mut sched = init(0x1000);
    add_user_task(&mut sched, 0x100, 0xA000, 0x110, 0x10);
    assert!(switch_to_next(&mut sched).is_some());
    let mut k = Kernel::new(empty_volume(), sched, HEAP, HEAP + 0x10_0000);
    k.key = 0xA000;
    for page in [0x1000, 0x2000, 0x3000] {
        map_user_page(&mut k.mem, page);
    }
    k
}

fn path(k: &mut Kernel, p: &str) -> u64 {
    let mut bytes = p.as_bytes().to_vec();
    bytes.push(0);
    k.mem.write_range(PATH, &bytes);
    PATH
}

fn open(k: &mut Kernel, p: &str, flags: u64) -> i64 {
    let at = path(k, p);
    sys_open(k, at, flags)
}

fn write(k: &mut Kernel, fd: i64, data: &[u8]) -> i64 {
    k.mem.write_range(BUF, data);
    sys_write(k, fd as u64, BUF, data.len() as u64, 0)
}

fn read(k: &mut Kernel, fd: i64, count: u64) -> Vec<u8> {
    match sys_read(k, fd as u64, BUF, count) {
        Progress::Done(n) if n >= 0 => k.mem.read_range(BUF, n as u64),
        _ => panic!("nothing read"),
    }
}

fn make_file(k: &mut Kernel, p: &str, data: &[u8]) {
    assert_eq!(k.fs.write_file(p.as_bytes(), data), Ok(()));
}

// ---- devices ----

#[test]
fn process_starts_with_three_descriptors() {
    let mut k = kernel();
    assert_eq!(sys_fcntl(&mut k, 0, abi::F_GETFL, 0), 0);
    assert_eq!(sys_fcntl(&mut k, 1, abi::F_GETFL, 0), 1);
    assert_eq!(sys_fcntl(&mut k, 2, abi::F_GETFL, 0), 1);
    assert_eq!(sys_fcntl(&mut k, 3, abi::F_GETFL, 0), -abi::EBADF);
    assert_eq!(process_count(&k), 1);
    forget_process(&mut k, 0xA000);
    assert_eq!(process_count(&k), 0);
}

#[test]
fn output_goes_to_the_screen_and_the_serial_line() {
    let mut k = kernel();
    k.mem.write_range(BUF, b"hi");
    assert_eq!(sys_write(&mut k, 1, BUF, 2, 0x77), 2);
    assert_eq!(k.screen.cells[1920].ascii, b'h');
    assert_eq!(k.stats.last_write_fd, 1);
    assert_eq!(k.stats.last_write_len, 2);
    assert_eq!(k.stats.last_write_sum, 209);
    assert_eq!(k.stats.last_write_user_rsp, 0x77);
    assert_eq!(sys_write(&mut k, 2, BUF, 2, 0), 2);
    assert_eq!(k.serial, b"hi");
    assert_eq!(sys_write(&mut k, 1, FREE, 2, 0), -abi::EFAULT);
    assert_eq!(sys_write(&mut k, 0, BUF, 2, 0), -abi::EBADF);
}

#[test]
fn reading_the_console_waits_for_a_line() {
    let mut k = kernel();
    match sys_read(&mut k, 0, BUF, 10) {
        Progress::Blocked(w) => assert_eq!((w.from, w.to), (1, 0)),
        Progress::Done(_) => panic!("no input yet"),
    }
    assert_eq!(k.sched.threads[1].state, State::Blocked);
    let mut k = kernel();
    for b in b"ls\n" {
        k.console.feed_char(&mut k.screen, *b);
    }
    assert_eq!(read(&mut k, 0, 2), b"ls");
    assert_eq!(sys_read(&mut k, 0, BUF, 0), Progress::Done(0));
    // Input that cannot be stored is not lost.
    assert_eq!(sys_read(&mut k, 0, FREE, 5), Progress::Done(-abi::EFAULT));
    assert_eq!(read(&mut k, 0, 5), b"\n");
}

// ---- files ----

#[test]
fn written_bytes_read_back() {
    let mut k = kernel();
    let fd = open(&mut k, "note.txt", abi::O_RDWR | abi::O_CREAT);
    assert_eq!(fd, 3);
    assert_eq!(write(&mut k, fd, b"hello"), 5);
    assert_eq!(sys_lseek(&mut k, 3, 0, 0), 0);
    assert_eq!(read(&mut k, fd, 3), b"hel");
    assert_eq!(read(&mut k, fd, 10), b"lo");
    assert_eq!(read(&mut k, fd, 10), b"");
}

#[test]
fn closed_file_is_stored() {
    let mut k = kernel();
    let fd = open(&mut k, "A", abi::O_WRONLY | abi::O_CREAT);
    assert_eq!(write(&mut k, fd, b"data"), 4);
    assert_eq!(k.fs.open(b"/A").unwrap(), b"");
    assert_eq!(sys_close(&mut k, fd as u64), 0);
    assert_eq!(k.fs.open(b"/A").unwrap(), b"data");
    assert_eq!(sys_close(&mut k, fd as u64), -abi::EBADF);
}

#[test]
fn open_flags() {
    let mut k = kernel();
    assert_eq!(open(&mut k, "NONE", 0), -abi::ENOENT);
    make_file(&mut k, "F", b"12345");
    let fd = open(&mut k, "F", abi::O_RDWR | abi::O_APPEND);
    assert_eq!(sys_lseek(&mut k, fd as u64, 0, 1), 5);
    let fd = open(&mut k, "F", abi::O_RDONLY);
    assert_eq!(write(&mut k, fd, b"x"), -abi::EBADF);
    let fd = open(&mut k, "F", abi::O_RDWR | abi::O_TRUNC);
    assert_eq!(read(&mut k, fd, 5), b"");
    assert_eq!(k.fs.open(b"F").unwrap(), b"");
    assert_eq!(open(&mut k, "/", abi::O_WRONLY), -abi::EISDIR);
    assert_eq!(open(&mut k, "F/X", 0), -abi::ENOTDIR);
    assert_eq!(sys_open(&mut k, FREE, 0), -abi::EFAULT);
}

#[test]
fn paths_are_utf8_and_resolved() {
    let mut k = kernel();
    let at = path(&mut k, "x/../y");
    assert_eq!(path_arg(&mut k, at), Ok(b"/y".to_vec()));
    k.mem.write_range(PATH, &[0xFF, 0]);
    assert!(path_arg(&mut k, PATH).is_err());
}

#[test]
fn new_descriptor_is_the_lowest_free() {
    let mut k = kernel();
    make_file(&mut k, "F", b"");
    assert_eq!(open(&mut k, "F", 0), 3);
    assert_eq!(open(&mut k, "F", 0), 4);
    assert_eq!(sys_close(&mut k, 3), 0);
    assert_eq!(open(&mut k, "F", 0), 3);
    for _ in 0..11 {
        assert!(open(&mut k, "F", 0) > 0);
    }
    assert_eq!(open(&mut k, "F", 0), -abi::EMFILE);
    assert_eq!(alloc_fd(&mut k, Fd::Serial), -abi::EMFILE);
}

#[test]
fn seeking() {
    let mut k = kernel();
    make_file(&mut k, "F", b"12345");
    let fd = open(&mut k, "F", abi::O_RDWR) as u64;
    assert_eq!(sys_lseek(&mut k, fd, -2, 2), 3);
    assert_eq!(sys_lseek(&mut k, fd, 1, 1), 4);
    assert_eq!(sys_lseek(&mut k, fd, -1, 0), -abi::EINVAL);
    assert_eq!(sys_lseek(&mut k, fd, 0, 9), -abi::EINVAL);
    assert_eq!(sys_lseek(&mut k, 1, 0, 0), -abi::ESPIPE);
    assert_eq!(sys_lseek(&mut k, 9, 0, 0), -abi::EBADF);
    // A gap behind the end is filled with zeros.
    assert_eq!(sys_lseek(&mut k, fd, 7, 0), 7);
    assert_eq!(write(&mut k, fd as i64, b"x"), 1);
    assert_eq!(sys_lseek(&mut k, fd, 0, 0), 0);
    assert_eq!(read(&mut k, fd as i64, 20), b"12345\0\0x");
}

#[test]
fn copies_of_descriptors() {
    let mut k = kernel();
    assert_eq!(sys_dup2(&mut k, 2, 7), 7);
    k.mem.write_range(BUF, b"x");
    assert_eq!(sys_write(&mut k, 7, BUF, 1, 0), 1);
    assert_eq!(k.serial, b"x");
    assert_eq!(sys_dup2(&mut k, 5, 6), -abi::EBADF);
    assert_eq!(sys_dup2(&mut k, 2, 16), -abi::EBADF);
    assert_eq!(sys_dup2(&mut k, 2, 2), 2);
    assert_eq!(sys_fcntl(&mut k, 2, abi::F_DUPFD, 7), 8);
    assert_eq!(sys_fcntl(&mut k, 2, abi::F_DUPFD, 16), -abi::EINVAL);
    assert_eq!(sys_fcntl(&mut k, 2, abi::F_GETFD, 0), 0);
    assert_eq!(sys_fcntl(&mut k, 2, 99, 0), -abi::EINVAL);
}

#[test]
fn working_directory() {
    let mut k = kernel();
    let at = path(&mut k, "sub");
    assert_eq!(sys_mkdir(&mut k, at, 0o755), 0);
    assert_eq!(sys_mkdir(&mut k, at, 0o755), -abi::EEXIST);
    assert_eq!(sys_chdir(&mut k, at), 0);
    assert_eq!(sys_getcwd(&mut k, BUF, 100), 5);
    assert_eq!(k.mem.read_range(BUF, 5), b"/sub\0");
    assert_eq!(sys_getcwd(&mut k, BUF, 4), -abi::ERANGE);
    let fd = open(&mut k, "f", abi::O_WRONLY | abi::O_CREAT);
    assert_eq!(sys_close(&mut k, fd as u64), 0);
    assert!(k.fs.stat(b"/SUB/F").is_ok());
    let at = path(&mut k, "f");
    assert_eq!(sys_chdir(&mut k, at), -abi::ENOTDIR);
    assert_eq!(sys_rmdir(&mut k, at), -abi::ENOTDIR);
    assert_eq!(sys_unlink(&mut k, at), 0);
    assert_eq!(sys_unlink(&mut k, at), -abi::ENOENT);
    let at = path(&mut k, "..");
    assert_eq!(sys_chdir(&mut k, at), 0);
    let at = path(&mut k, "sub");
    assert_eq!(sys_unlink(&mut k, at), -abi::EISDIR);
    assert_eq!(sys_rmdir(&mut k, at), 0);
}

#[test]
fn error_numbers_of_the_file_system() {
    assert_eq!(fat_errno(FatError::NotFound), abi::ENOENT);
    assert_eq!(fat_errno(FatError::NotEmpty), abi::ENOTEMPTY);
    assert_eq!(fat_errno(FatError::NoSpace), abi::ENOSPC);
    assert_eq!(fat_errno(FatError::DirFull), abi::ENOSPC);
    assert_eq!(fat_errno(FatError::Block(BlkError::OutOfRange)), abi::EIO);
}

#[test]
fn directory_records() {
    let items = vec![
        DirItem { name: b"A".to_vec(), is_dir: false },
        DirItem { name: b"LONGNAME.TXT".to_vec(), is_dir: true },
    ];
    let data = serialize_dirents(&items);
    assert_eq!(data.len(), 24 + 32);
    assert_eq!(&data[..21], &[1, 0, 0, 0, 0, 0, 0, 0, 24, 0, 0, 0, 0, 0, 0, 0, 24, 0, 8, b'A', 0]);
    assert_eq!(&data[24..43], &[2, 0, 0, 0, 0, 0, 0, 0, 56, 0, 0, 0, 0, 0, 0, 0, 32, 0, 4]);
    assert_eq!(whole_records(&data, 0, 56), Some(56));
    assert_eq!(whole_records(&data, 0, 55), Some(24));
    assert_eq!(whole_records(&data, 24, 100), Some(32));
    assert_eq!(whole_records(&data, 0, 23), Some(0));
    assert_eq!(whole_records(&data, 56, 9), Some(0));
}

#[test]
fn listing_is_handed_out_by_records() {
    let mut k = kernel();
    make_file(&mut k, "A", b"");
    make_file(&mut k, "B", b"");
    let fd = open(&mut k, "/", 0) as u64;
    assert!(dirents_readable(&k, fd, 30));
    assert_eq!(sys_getdents64(&mut k, fd, BUF, 23), -abi::EINVAL);
    assert_eq!(sys_getdents64(&mut k, fd, BUF, 30), 24);
    assert_eq!(k.mem.read_range(BUF + 19, 2), b"A\0");
    assert_eq!(sys_getdents64(&mut k, fd, BUF, 30), 24);
    assert_eq!(k.mem.read_range(BUF + 19, 2), b"B\0");
    assert_eq!(sys_getdents64(&mut k, fd, BUF, 30), 0);
    assert_eq!(sys_read(&mut k, fd, BUF, 1), Progress::Done(-abi::EISDIR));
    let file = open(&mut k, "A", 0) as u64;
    assert_eq!(sys_getdents64(&mut k, file, BUF, 30), -abi::ENOTDIR);
    assert_eq!(sys_getdents64(&mut k, 9, BUF, 30), -abi::EBADF);
}

#[test]
fn metadata_of_files() {
    let mut k = kernel();
    make_file(&mut k, "F", &[1; 600]);
    let at = path(&mut k, "F");
    assert_eq!(sys_stat(&mut k, at, BUF), 0);
    let st = k.mem.read_range(BUF, 144);
    assert_eq!(u32::from_le_bytes([st[24], st[25], st[26], st[27]]), 0o100644);
    assert_eq!(&st[48..56], &600u64.to_le_bytes());
    assert_eq!(&st[56..64], &512u64.to_le_bytes());
    assert_eq!(&st[64..72], &2u64.to_le_bytes());
    assert_eq!(&st[16..24], &1u64.to_le_bytes());
    assert_eq!(sys_fstat(&mut k, 1, BUF), 0);
    let st = k.mem.read_range(BUF, 144);
    assert_eq!(u32::from_le_bytes([st[24], st[25], st[26], st[27]]) & 0o170000, abi::S_IFCHR);
    let at = path(&mut k, "NONE");
    assert_eq!(sys_stat(&mut k, at, BUF), -abi::ENOENT);
    assert_eq!(sys_fstat(&mut k, 9, BUF), -abi::EBADF);
    assert_eq!(sys_fstat(&mut k, 1, FREE), -abi::EFAULT);
}

// ---- vectors ----

fn vectors(k: &mut Kernel) {
    k.mem.write_range(0x3000, &BUF.to_le_bytes());
    k.mem.write_range(0x3008, &3u64.to_le_bytes());
    k.mem.write_range(0x3010, &(BUF + 0x100).to_le_bytes());
    k.mem.write_range(0x3018, &4u64.to_le_bytes());
}

#[test]
fn several_buffers_are_written() {
    let mut k = kernel();
    vectors(&mut k);
    k.mem.write_range(BUF, b"abc");
    k.mem.write_range(BUF + 0x100, b"defg");
    assert_eq!(sys_writev(&mut k, 2, 0x3000, 2, 0), 7);
    assert_eq!(k.serial, b"abcdefg");
    assert_eq!(sys_writev(&mut k, 2, 0x3000, 1025, 0), -abi::EINVAL);
    assert_eq!(sys_writev(&mut k, 2, FREE, 1, 0), -abi::EFAULT);
    assert_eq!(sys_writev(&mut k, 2, 0x3000, 0, 0), 0);
}

#[test]
fn several_buffers_are_one_write_to_a_file() {
    let mut k = kernel();
    make_file(&mut k, "F", b"0123456789");
    let fd = open(&mut k, "F", abi::O_RDWR) as u64;
    vectors(&mut k);
    k.mem.write_range(BUF, b"abc");
    k.mem.write_range(BUF + 0x100, b"defg");
    assert_eq!(sys_writev(&mut k, fd, 0x3000, 2, 0), 7);
    assert_eq!(sys_lseek(&mut k, fd, 0, 1), 7);
    assert_eq!(sys_lseek(&mut k, fd, 0, 0), 0);
    assert_eq!(read(&mut k, fd as i64, 20), b"abcdefg789");
    // The second buffer cannot be read: the first is written all the same.
    k.mem.write_range(0x3010, &FREE.to_le_bytes());
    k.mem.write_range(BUF, b"xyz");
    assert_eq!(sys_writev(&mut k, fd, 0x3000, 2, 0), 3);
    assert_eq!(sys_writev(&mut k, fd, 0x3010, 1, 0), -abi::EFAULT);
    assert_eq!(sys_lseek(&mut k, fd, 0, 0), 0);
    assert_eq!(read(&mut k, fd as i64, 20), b"abcdefg789xyz");
}

#[test]
fn empty_file_reads_back_what_is_written() {
    let mut k = kernel();
    make_file(&mut k, "E", b"");
    let fd = open(&mut k, "E", abi::O_RDWR);
    assert_eq!(write(&mut k, fd, b"new"), 3);
    assert_eq!(sys_lseek(&mut k, fd as u64, 0, 0), 0);
    assert_eq!(read(&mut k, fd, 9), b"new");
}

#[test]
fn several_buffers_are_read() {
    let mut k = kernel();
    make_file(&mut k, "F", b"12345");
    let fd = open(&mut k, "F", 0) as u64;
    vectors(&mut k);
    assert_eq!(sys_readv(&mut k, fd, 0x3000, 2, 0, 0), VecProgress::Done(5));
    assert_eq!(k.mem.read_range(BUF, 3), b"123");
    assert_eq!(k.mem.read_range(BUF + 0x100, 2), b"45");
    assert_eq!(k.mem.read_range(BUF + 0x102, 2), [0, 0]);
    assert_eq!(sys_lseek(&mut k, fd, 0, 1), 5);
    assert_eq!(sys_readv(&mut k, fd, 0x3000, 2, 0, 0), VecProgress::Done(0));
    assert_eq!(
        sys_readv(&mut k, fd, 0x3000, 1025, 0, 0),
        VecProgress::Done(-abi::EINVAL)
    );
}

#[test]
fn buffer_on_a_list_entry_that_was_read() {
    let mut k = kernel();
    make_file(&mut k, "F", b"12345");
    let fd = open(&mut k, "F", 0) as u64;
    vectors(&mut k);
    // The first buffer lies on its own entry, which has been read when it is filled.
    k.mem.write_range(0x3000, &0x3000u64.to_le_bytes());
    assert_eq!(sys_readv(&mut k, fd, 0x3000, 2, 0, 0), VecProgress::Done(5));
    assert_eq!(k.mem.read_range(0x3000, 3), b"123");
    assert_eq!(k.mem.read_range(BUF + 0x100, 2), b"45");
}

// ---- pipes ----

fn pipe(k: &mut Kernel) -> (u64, u64) {
    assert_eq!(sys_pipe(k, BUF), 0);
    let b = k.mem.read_range(BUF, 8);
    (b[0] as u64, b[4] as u64)
}

#[test]
fn pipe_is_first_in_first_out() {
    let mut k = kernel();
    let (r, w) = pipe(&mut k);
    assert_eq!((r, w), (3, 4));
    assert_eq!(write(&mut k, w as i64, b"abc"), 3);
    assert_eq!(write(&mut k, w as i64, b"def"), 3);
    assert_eq!(read(&mut k, r as i64, 4), b"abcd");
    assert_eq!(read(&mut k, r as i64, 4), b"ef");
}

#[test]
fn pipe_without_its_other_side() {
    let mut k = kernel();
    let (r, w) = pipe(&mut k);
    assert!(matches!(sys_read(&mut k, r, BUF, 1), Progress::Blocked(_)));
    let mut k = kernel();
    let (r, w2) = pipe(&mut k);
    assert_eq!(w, w2);
    assert_eq!(sys_close(&mut k, w), 0);
    assert_eq!(sys_read(&mut k, r, BUF, 1), Progress::Done(0));
    let mut k = kernel();
    let (r, w) = pipe(&mut k);
    assert_eq!(sys_close(&mut k, r), 0);
    assert_eq!(write(&mut k, w as i64, b"x"), -abi::EPIPE);
    assert_eq!(sys_close(&mut k, w), 0);
    assert!(k.pipes.is_empty());
}

#[test]
fn pipe_waiters_are_woken() {
    let mut k = kernel();
    let (_, w) = pipe(&mut k);
    k.sched.threads[0].state = State::Blocked;
    k.sched.threads[0].blocked_on = ferros::sched::thread::BlockReason::Pipe;
    assert_eq!(write(&mut k, w as i64, b"x"), 1);
    assert_eq!(k.sched.threads[0].state, State::Runnable);
}

#[test]
fn copies_keep_a_pipe_open() {
    let mut k = kernel();
    let (r, w) = pipe(&mut k);
    assert_eq!(sys_dup2(&mut k, w, 9), 9);
    assert_eq!(sys_close(&mut k, w), 0);
    assert_eq!(write(&mut k, 9, b"x"), 1);
    assert_eq!(read(&mut k, r as i64, 1), b"x");
    assert_eq!(k.pipes.get(&0).unwrap().writers, 1);
}

// ---- heap ----

#[test]
fn heap_grows_and_shrinks() {
    let mut k = kernel();
    assert_eq!(sys_brk(&mut k, 0, 10), HEAP as i64);
    assert_eq!(sys_brk(&mut k, HEAP + 5000, 10), (HEAP + 5000) as i64);
    assert_eq!(k.mem.read_range(HEAP, 8192), vec![0u8; 8192]);
    assert_eq!(sys_brk(&mut k, HEAP + 100, 10), (HEAP + 100) as i64);
    assert!(k.mem.is_mapped(HEAP) && !k.mem.is_mapped(HEAP + 4096));
    // Too little memory, and beyond the end of the heap.
    assert_eq!(sys_brk(&mut k, HEAP + 0x5000, 2), (HEAP + 100) as i64);
    assert_eq!(sys_brk(&mut k, HEAP + 0x20_0000, 1000), (HEAP + 100) as i64);
}

#[test]
fn heap_is_mapped_to_its_end() {
    let mut k = kernel();
    for brk in [HEAP + 1, HEAP + 9000, HEAP + 4096, HEAP + 4097, HEAP] {
        assert_eq!(sys_brk(&mut k, brk, 100), brk as i64);
        for page in 0..5 {
            assert_eq!(k.mem.is_mapped(HEAP + 4096 * page), HEAP + 4096 * page < brk);
        }
    }
}

#[test]
fn boot_thread_stays_ready() {
    let mut k = kernel();
    assert!(matches!(dispatch(&mut k, abi::SYS_READ, [0, BUF, 1, 0, 0, 0], 0), SysStep::Blocked(_)));
    assert_eq!(k.sched.threads[0].state, State::Runnable);
    let mut k = kernel();
    assert!(matches!(dispatch(&mut k, abi::SYS_KILL, [1, 9, 0, 0, 0, 0], 0), SysStep::Exited(_)));
    assert_eq!(k.sched.threads[0].state, State::Runnable);
    let mut k = kernel();
    assert!(matches!(dispatch(&mut k, abi::SYS_EXIT_GROUP, [0; 6], 0), SysStep::Exited(_)));
    assert_eq!(k.sched.threads[0].state, State::Runnable);
}

#[test]
fn working_directory_stays_normal() {
    let mut k = kernel();
    let at = path(&mut k, "/sub");
    assert_eq!(sys_mkdir(&mut k, at, 0), 0);
    let at = path(&mut k, "//./sub/../sub//");
    assert_eq!(sys_chdir(&mut k, at), 0);
    assert_eq!(sys_getcwd(&mut k, BUF, 100), 5);
    assert_eq!(k.mem.read_range(BUF, 5), b"/sub\0");
}

// ---- sockets ----

fn address(k: &mut Kernel, family: u16) {
    let mut b = family.to_le_bytes().to_vec();
    b.extend_from_slice(&[0x1F, 0x90, 10, 0, 2, 2]);
    b.extend_from_slice(&[0; 8]);
    k.mem.write_range(0x3000, &b);
}

fn done(c: NetCall) -> i64 {
    match c {
        NetCall::Done(r) => r,
        _ => panic!("not done"),
    }
}

#[test]
fn socket_kinds() {
    assert!(matches!(sys_socket(2, 2, 0), NetCall::Open(SockKind::Udp)));
    assert!(matches!(sys_socket(2, 1, 0), NetCall::Open(SockKind::Tcp)));
    assert_eq!(done(sys_socket(10, 2, 0)), -abi::EAFNOSUPPORT);
    assert_eq!(done(sys_socket(2, 3, 0)), -abi::EPROTONOSUPPORT);
}

#[test]
fn datagram_calls() {
    let mut k = kernel();
    assert_eq!(socket_opened(&mut k, SockKind::Udp, Ok(77)), 3);
    assert_eq!(socket_opened(&mut k, SockKind::Udp, Err(abi::ENETDOWN)), -abi::ENETDOWN);
    address(&mut k, 2);
    match sys_bind(&mut k, 3, 0x3000, 16) {
        NetCall::Bind { handle, port } => assert_eq!((handle, port), (77, 8080)),
        _ => panic!("no bind"),
    }
    assert_eq!(done(sys_bind(&mut k, 3, 0x3000, 15)), -abi::EINVAL);
    assert_eq!(done(sys_bind(&mut k, 1, 0x3000, 16)), -abi::ENOTSOCK);
    assert_eq!(done(sys_bind(&mut k, 9, 0x3000, 16)), -abi::EBADF);
    assert_eq!(done(sys_connect(&mut k, 3, 0x3000, 16)), -abi::EOPNOTSUPP);
    k.mem.write_range(BUF, b"ping");
    match sys_sendto(&mut k, 3, BUF, 4, 0x3000, 16) {
        NetCall::SendTo { handle, data, ip, port } => {
            assert_eq!((handle, ip, port), (77, [10, 0, 2, 2], 8080));
            assert_eq!(data, b"ping");
        },
        _ => panic!("nothing sent"),
    }
    assert_eq!(done(sys_sendto(&mut k, 3, BUF, 1473, 0x3000, 16)), -abi::EMSGSIZE);
    address(&mut k, 10);
    assert_eq!(done(sys_sendto(&mut k, 3, BUF, 4, 0x3000, 16)), -abi::EAFNOSUPPORT);
    assert!(matches!(
        sys_recvfrom(&mut k, 3, 9000),
        NetCall::Recv { handle: 77, kind: SockKind::Udp, cap: 4096 }
    ));
    assert_eq!(sys_close(&mut k, 3), 0);
    assert_eq!(k.closed_socks, vec![77]);
}

#[test]
fn stream_calls() {
    let mut k = kernel();
    assert_eq!(socket_opened(&mut k, SockKind::Tcp, Ok(5)), 3);
    address(&mut k, 2);
    match sys_connect(&mut k, 3, 0x3000, 16) {
        NetCall::Connect { handle, ip, port } => {
            assert_eq!((handle, ip, port), (5, [10, 0, 2, 2], 8080))
        },
        _ => panic!("no connection"),
    }
    assert_eq!(done(sys_bind(&mut k, 3, 0x3000, 16)), -abi::EOPNOTSUPP);
    k.mem.write_range(BUF, b"GET");
    match sys_sendto(&mut k, 3, BUF, 3, 0, 0) {
        NetCall::Send { handle, data } => {
            assert_eq!(handle, 5);
            assert_eq!(data, b"GET");
        },
        _ => panic!("nothing sent"),
    }
    assert_eq!(call_finished(Ok(())), 0);
    assert_eq!(call_finished(Err(abi::ECONNREFUSED)), -abi::ECONNREFUSED);
    assert_eq!(send_finished(Ok(3)), 3);
    assert_eq!(send_finished(Err(abi::ETIMEDOUT)), -abi::ETIMEDOUT);
}

#[test]
fn received_address_is_stored() {
    let mut k = kernel();
    k.mem.write_range(0x3100, &16u32.to_le_bytes());
    let got = Ok((b"pong".to_vec(), [1, 2, 3, 4], 53));
    assert_eq!(recv_finished(&mut k, SockKind::Udp, got, BUF, 0x3000, 0x3100), 4);
    assert_eq!(k.mem.read_range(BUF, 4), b"pong");
    assert_eq!(k.mem.read_range(0x3000, 8), &[2, 0, 0, 53, 1, 2, 3, 4]);
    let none = Err(abi::EAGAIN);
    assert_eq!(recv_finished(&mut k, SockKind::Udp, none, BUF, 0, 0), -abi::EAGAIN);
    let got = Ok((b"pong".to_vec(), [1, 2, 3, 4], 53));
    assert_eq!(recv_finished(&mut k, SockKind::Tcp, got, FREE, 0, 0), -abi::EFAULT);
}

// ---- time and names ----

#[test]
fn time_is_split_exactly() {
    let mut k = kernel();
    let now = 5_000_000_123u64;
    assert_eq!(sys_clock_gettime(&mut k, 1, BUF, now), 0);
    assert_eq!(k.mem.read_range(BUF, 8), &5u64.to_le_bytes());
    assert_eq!(k.mem.read_range(BUF + 8, 8), &123u64.to_le_bytes());
    assert_eq!(sys_clock_gettime(&mut k, 9, BUF, now), -abi::EINVAL);
    assert_eq!(sys_clock_gettime(&mut k, 0, FREE, now), -abi::EFAULT);
    assert_eq!(sys_gettimeofday(&mut k, BUF, 0, 7_000_042_999), 0);
    assert_eq!(k.mem.read_range(BUF, 8), &7u64.to_le_bytes());
    assert_eq!(k.mem.read_range(BUF + 8, 8), &42u64.to_le_bytes());
    assert_eq!(sys_time(&mut k, 0, now), 5);
    assert_eq!(sys_time(&mut k, BUF, now), 5);
    assert_eq!(k.mem.read_range(BUF, 8), &5u64.to_le_bytes());
}

#[test]
fn system_has_a_name() {
    let mut k = kernel();
    assert_eq!(sys_uname(&mut k, BUF), 0);
    let b = k.mem.read_range(BUF, 390);
    assert!(b.iter().any(|c| *c != 0));
    assert_eq!(b[64], 0);
    assert_eq!(sys_uname(&mut k, FREE), -abi::EFAULT);
}

// ---- processes ----

#[test]
fn unknown_calls_are_refused() {
    let mut k = kernel();
    for nr in [6, 7, 100, 9999] {
        assert_eq!(dispatch(&mut k, nr, [0; 6], 0), SysStep::Done(-abi::ENOSYS));
    }
    assert_eq!(dispatch(&mut k, abi::SYS_GETPID, [0; 6], 0), SysStep::Done(1));
    k.mem.write_range(BUF, b"x");
    assert_eq!(dispatch(&mut k, abi::SYS_WRITE, [2, BUF, 1, 0, 0, 0], 0), SysStep::Done(1));
    assert_eq!(k.serial, b"x");
}

#[test]
fn exit_gives_up_descriptors() {
    let mut k = kernel();
    pipe(&mut k);
    let fd = open(&mut k, "F", abi::O_WRONLY | abi::O_CREAT);
    assert_eq!(write(&mut k, fd, b"saved"), 5);
    match sys_exit(&mut k, 7) {
        SysStep::Exited(w) => assert_eq!(w.to, 0),
        _ => panic!("still there"),
    }
    assert!(k.pipes.is_empty());
    assert_eq!(k.fs.open(b"F").unwrap(), b"saved");
    assert_eq!(k.stats.last_exit_code, 7);
    assert_eq!(k.stats.exit_code_sum, 7);
    assert_eq!(k.stats.exit_calls, 1);
    assert_eq!(k.sched.threads[1].exit_status, Some(7));
}

#[test]
fn faults_kill_the_process() {
    let mut k = kernel();
    assert!(matches!(kill_for_fault(&mut k, 11), SysStep::Exited(_)));
    assert_eq!(k.stats.user_fault_kills, 1);
    assert_eq!(k.sched.threads[1].term_signal, Some(11));
}

#[test]
fn kill_errors() {
    let mut k = kernel();
    assert_eq!(sys_kill(&mut k, 1, 65), SysStep::Done(-abi::EINVAL));
    assert_eq!(sys_kill(&mut k, 0, 9), SysStep::Done(-abi::ESRCH));
    assert_eq!(sys_kill(&mut k, 44, 9), SysStep::Done(-abi::ESRCH));
    assert_eq!(sys_kill(&mut k, 1, 0), SysStep::Done(0));
    assert!(matches!(sys_kill(&mut k, 1, 9), SysStep::Exited(_)));
}

fn spare(cr3: Option<u64>) -> Spare {
    Spare { cr3, kstack: 0x50, kstack_top: 0x5000, return_addr: 0x1234 }
}

fn call(rax: u64, rdi: u64, rsi: u64, rdx: u64) -> SyscallRegs {
    SyscallRegs {
        r15: 15,
        r14: 14,
        r13: 13,
        r12: 12,
        rbp: 6,
        rbx: 3,
        r9: 9,
        r8: 8,
        r10: 10,
        rdx,
        rsi,
        rdi,
        rflags: 0x202,
        rip: 0x400000,
        rax,
        user_rsp: 0x3ff0,
    }
}

#[test]
fn fork_copies_the_parent_and_returns_twice() {
    let mut k = kernel();
    let (r, w) = pipe(&mut k);
    let mut regs = call(abi::SYS_FORK, 0, 0, 0);
    let before = regs;
    match fork(&mut k, &mut regs, spare(Some(0xB000))) {
        Some((words, mem)) => {
            assert_eq!(words.len(), 23);
            assert_eq!(words[6], 0x1234);
            assert_eq!((words[7], words[20], words[21], words[22]), (15, 0x400000, 0, 0x3ff0));
            assert_eq!(mem.page_starts(), k.mem.page_starts());
        },
        None => panic!("no child"),
    }
    assert_eq!(regs, SyscallRegs { rax: 2, ..before });
    assert_eq!(k.sched.threads[2].parent, 1);
    assert_eq!(k.sched.threads[2].rsp, 0x5000 - 23 * 8);
    assert_eq!(k.pipes.get(&0).unwrap().readers, 2);
    // What the parent writes the child can read.
    assert_eq!(write(&mut k, w as i64, b"x"), 1);
    k.key = 0xB000;
    assert_eq!(read(&mut k, r as i64, 1), b"x");
}

#[test]
fn fork_without_memory_fails() {
    let mut k = kernel();
    let mut regs = call(abi::SYS_FORK, 0, 0, 0);
    assert!(fork(&mut k, &mut regs, spare(None)).is_none());
    assert_eq!(regs.rax as i64, -abi::ENOMEM);
    assert_eq!(k.sched.threads.len(), 2);
    assert_eq!(init_fork_child_stack(&regs, 7)[6], 7);
}

/// A program file that is loaded at `vaddr`.
fn program(vaddr: u64) -> Vec<u8> {
    let mut f = vec![0u8; 120];
    f[0..4].copy_from_slice(&[0x7F, b'E', b'L', b'F']);
    f[4] = 2;
    f[0x10] = 2;
    f[0x12] = 0x3E;
    f[0x18..0x20].copy_from_slice(&vaddr.to_le_bytes());
    f[0x20] = 64;
    f[0x36] = 56;
    f[0x38] = 1;
    f[64] = 1;
    f[72] = 120;
    f[80..88].copy_from_slice(&vaddr.to_le_bytes());
    f[96] = 4;
    f[104] = 4;
    f.extend_from_slice(b"code");
    f
}

#[test]
fn exec_keeps_descriptors_and_starts_anew() {
    let mut k = kernel();
    make_file(&mut k, "PROG", &program(0x400000));
    make_file(&mut k, "F", b"abc");
    let fd = open(&mut k, "F", 0);
    k.mem.write_range(0x3000, &0x3100u64.to_le_bytes());
    k.mem.write_range(0x3100, b"PROG\0");
    let at = path(&mut k, "PROG");
    let mut regs = call(abi::SYS_EXECVE, at, 0x3000, 0);
    let shared = KernelPages::new();
    assert!(exec_stack_free(&k, &regs, true, &shared));
    exec(&mut k, &mut regs, Some(0xC000), &shared);
    assert_eq!((regs.rip, regs.rax, regs.rflags, regs.r15), (0x400000, 0, 0x202, 0));
    assert_eq!(k.key, 0xC000);
    assert_eq!(k.sched.threads[1].cr3, Some(0xC000));
    assert!(!k.mem.is_mapped(0x1000));
    assert_eq!(k.mem.read_range(0x400000, 4), b"code");
    let argc = k.mem.read_range(regs.user_rsp, 8);
    assert_eq!(argc, 1u64.to_le_bytes());
    map_user_page(&mut k.mem, 0x2000);
    assert_eq!(read(&mut k, fd, 3), b"abc");
}

#[test]
fn exec_failures_change_nothing() {
    let mut k = kernel();
    make_file(&mut k, "PROG", &program(0x400000));
    make_file(&mut k, "TEXT", b"no program");
    for (file, cr3, errno) in [
        ("NONE", Some(0xC000), abi::ENOENT),
        ("TEXT", Some(0xC000), abi::ENOEXEC),
        ("PROG", None, abi::ENOMEM),
    ] {
        let at = path(&mut k, file);
        let mut regs = call(abi::SYS_EXECVE, at, 0, 0);
        let before = regs;
        exec(&mut k, &mut regs, cr3, &KernelPages::new());
        assert_eq!(regs, SyscallRegs { rax: (-errno) as u64, ..before });
        assert_eq!(k.key, 0xA000);
    }
    let mut regs = call(abi::SYS_EXECVE, FREE, 0, 0);
    exec(&mut k, &mut regs, Some(0xC000), &KernelPages::new());
    assert_eq!(regs.rax as i64, -abi::EFAULT);
}

#[test]
fn program_on_kernel_pages_is_refused() {
    let mut k = kernel();
    let heap = 0x4444_4444_0000;
    make_file(&mut k, "PROG", &program(heap));
    let at = path(&mut k, "PROG");
    let mut shared = KernelPages::new();
    shared.put(heap, heap + 0x1_9000);
    let mut regs = call(abi::SYS_EXECVE, at, 0, 0);
    assert!(exec_stack_free(&k, &regs, true, &shared));
    exec(&mut k, &mut regs, Some(0xC000), &shared);
    assert_eq!(regs.rax as i64, -abi::ENOEXEC);
    assert_eq!(k.key, 0xA000);
    assert!(!can_be_first(&program(heap), &shared));
    assert!(can_be_first(&program(heap + 0x1_9000), &shared));
}

#[test]
fn stack_page_matters_only_where_a_stack_is_built() {
    let mut k = kernel();
    make_file(&mut k, "PROG", &program(0x7F80_1000_0000));
    let at = path(&mut k, "PROG");
    let shared = KernelPages::new();
    assert!(!exec_stack_free(&k, &call(abi::SYS_EXECVE, at, 0, 0), true, &shared));
    assert!(exec_stack_free(&k, &call(abi::SYS_EXECVE, at, 0, 0), false, &shared));
    assert!(exec_stack_free(&k, &call(abi::SYS_EXECVE, at, FREE, 0), true, &shared));
    let mut regs = call(abi::SYS_EXECVE, at, FREE, 0);
    exec(&mut k, &mut regs, Some(0xC000), &shared);
    assert_eq!(regs.rax as i64, -abi::EFAULT);
}

#[test]
fn calls_come_in_by_their_registers() {
    let mut k = kernel();
    let mut regs = call(abi::SYS_GETPID, 0, 0, 0);
    assert!(matches!(ferros_syscall_dispatch(&mut k, &mut regs, spare(None), &KernelPages::new()), Entry::Return));
    assert_eq!(regs.rax, 1);
    let mut regs = call(abi::SYS_FORK, 0, 0, 0);
    assert!(matches!(
        ferros_syscall_dispatch(&mut k, &mut regs, spare(Some(0xB000)), &KernelPages::new()),
        Entry::Forked(_, _)
    ));
    assert_eq!(regs.rax, 2);
    let mut regs = call(abi::SYS_WAIT4, u64::MAX, 0, 0);
    assert!(matches!(ferros_syscall_dispatch(&mut k, &mut regs, spare(None), &KernelPages::new()), Entry::Blocked(_)));
    let mut regs = call(abi::SYS_EXIT, 0, 0, 0);
    assert!(matches!(ferros_syscall_dispatch(&mut k, &mut regs, spare(None), &KernelPages::new()), Entry::Exited(_)));
}

#[test]
fn parent_learns_of_the_end_of_its_child() {
    let mut k = kernel();
    assert_eq!(sys_wait4(&mut k, -1, 0), Progress::Done(-abi::ECHILD));
    assert_eq!(sys_getcwd(&mut k, BUF, 10), 2);
    let mut regs = call(abi::SYS_FORK, 0, 0, 0);
    assert!(fork(&mut k, &mut regs, spare(Some(0xB000))).is_some());
    signal(&mut k.sched, 2, 9);
    assert_eq!(sys_wait4(&mut k, 2, BUF), Progress::Done(2));
    assert_eq!(k.mem.read_range(BUF, 4), 9u32.to_le_bytes());
    // With its status collected, what the child had is given back.
    assert_eq!(process_count(&k), 2);
    assert_eq!(reap(&mut k, true), vec![(Some(0xB000), Some(0x50))]);
    assert_eq!(process_count(&k), 1);
}

#[test]
fn exit_status_is_in_the_second_byte() {
    let mut k = kernel();
    let mut regs = call(abi::SYS_FORK, 0, 0, 0);
    assert!(fork(&mut k, &mut regs, spare(Some(0xB000))).is_some());
    k.sched.current = 2;
    k.key = 0xB000;
    assert!(matches!(sys_exit(&mut k, 0x1FF), SysStep::Exited(_)));
    k.sched.current = 1;
    k.key = 0xA000;
    assert_eq!(sys_wait4(&mut k, -1, BUF), Progress::Done(2));
    assert_eq!(k.mem.read_range(BUF, 4), [0, 0xFF, 0, 0]);
}

#[test]
fn first_program_gets_an_empty_stack() {
    let good = program(0x400000);
    let mut shared = KernelPages::new();
    assert!(can_be_first(&good, &shared) && leaves_stack_free(&good, &shared));
    let (entry, rsp, mem) = first_program(&good, &shared);
    assert_eq!(entry, 0x400000);
    assert_eq!(rsp % 16, 0);
    assert_eq!(mem.read_range(rsp, 8), vec![0u8; 8]);
    assert!(!can_be_first(b"text", &shared));
    assert!(!leaves_stack_free(&program(0x7F80_1000_0000), &shared));
    shared.put(0x7F80_1000_0000, 0x7F80_1000_1000);
    assert!(!leaves_stack_free(&good, &shared));
}

#[test]
fn kernel_stack_top_is_aligned() {
    let mut rsp = 0u64;
    set_syscall_stack(&mut rsp, 0x5FF7);
    assert_eq!(rsp, 0x5FF0);
}

#[test]
fn open_files_are_copied_apart() {
    let f = OpenFile {
        name: b"/F".to_vec(),
        data: b"abc".to_vec(),
        offset: 1,
        writable: true,
        dirty: false,
        is_dir: false,
    };
    let mut copy = f.duplicate();
    copy.data[0] = b'X';
    assert_eq!(f.data, b"abc");
    assert_eq!((copy.offset, copy.writable), (1, true));
}
