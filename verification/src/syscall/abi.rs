//! Numbers of the Linux x86-64 system call interface.
//!
//! A call returns a non-negative result or `-errno`; error numbers are kept positive here.

use vstd::prelude::*;

verus! {

/// `read(fd, buf, count)`.
pub const SYS_READ: u64 = 0;

/// `write(fd, buf, count)`.
pub const SYS_WRITE: u64 = 1;

/// `open(path, flags, mode)`.
pub const SYS_OPEN: u64 = 2;

/// `close(fd)`.
pub const SYS_CLOSE: u64 = 3;

/// `stat(path, buf)`.
pub const SYS_STAT: u64 = 4;

/// `fstat(fd, buf)`.
pub const SYS_FSTAT: u64 = 5;

/// `lseek(fd, offset, whence)`.
pub const SYS_LSEEK: u64 = 8;

/// `brk(addr)`: the new break on success, the old one on failure.
pub const SYS_BRK: u64 = 12;

/// `readv(fd, iov, iovcnt)`.
pub const SYS_READV: u64 = 19;

/// `writev(fd, iov, iovcnt)`.
pub const SYS_WRITEV: u64 = 20;

/// `pipe(fds)`.
pub const SYS_PIPE: u64 = 22;

/// `dup2(oldfd, newfd)`.
pub const SYS_DUP2: u64 = 33;

/// `getpid()`.
pub const SYS_GETPID: u64 = 39;

/// `fork()`.
pub const SYS_FORK: u64 = 57;

/// `execve(path, argv, envp)`.
pub const SYS_EXECVE: u64 = 59;

/// `exit(status)`.
pub const SYS_EXIT: u64 = 60;

/// `wait4(pid, status, options, rusage)`.
pub const SYS_WAIT4: u64 = 61;

/// `kill(pid, sig)`.
pub const SYS_KILL: u64 = 62;

/// `getcwd(buf, size)`.
pub const SYS_GETCWD: u64 = 79;

/// `chdir(path)`.
pub const SYS_CHDIR: u64 = 80;

/// `mkdir(path, mode)`.
pub const SYS_MKDIR: u64 = 83;

/// `rmdir(path)`.
pub const SYS_RMDIR: u64 = 84;

/// `unlink(path)`.
pub const SYS_UNLINK: u64 = 87;

/// `arch_prctl(code, addr)`.
pub const SYS_ARCH_PRCTL: u64 = 158;

/// `getdents64(fd, buf, count)`.
pub const SYS_GETDENTS64: u64 = 217;

/// `exit_group(status)`.
pub const SYS_EXIT_GROUP: u64 = 231;

/// `arch_prctl`: sets the base of the FS segment.
pub const ARCH_SET_FS: u64 = 0x1002;

/// `arch_prctl`: reads the base of the FS segment.
pub const ARCH_GET_FS: u64 = 0x1003;

/// The bits of the access mode of `open`.
pub const O_ACCMODE: u64 = 0o3;

/// Open for reading only.
pub const O_RDONLY: u64 = 0o0;

/// Open for writing only.
pub const O_WRONLY: u64 = 0o1;

/// Open for reading and writing.
pub const O_RDWR: u64 = 0o2;

/// Create the file if it does not exist.
pub const O_CREAT: u64 = 0o100;

/// Truncate the file.
pub const O_TRUNC: u64 = 0o1000;

/// Start at the end of the file.
pub const O_APPEND: u64 = 0o2000;

/// `fcntl`: duplicate a descriptor.
pub const F_DUPFD: u64 = 0;

/// `fcntl`: read descriptor flags.
pub const F_GETFD: u64 = 1;

/// `fcntl`: set descriptor flags.
pub const F_SETFD: u64 = 2;

/// `fcntl`: read status flags.
pub const F_GETFL: u64 = 3;

/// `fcntl`: set status flags.
pub const F_SETFL: u64 = 4;

/// Most elements of an I/O vector.
pub const IOV_MAX: u64 = 1024;

/// File type: pipe.
pub const S_IFIFO: u32 = 0o010000;

/// File type: character device.
pub const S_IFCHR: u32 = 0o020000;

/// File type: directory.
pub const S_IFDIR: u32 = 0o040000;

/// File type: ordinary file.
pub const S_IFREG: u32 = 0o100000;

/// File type: socket.
pub const S_IFSOCK: u32 = 0o140000;

/// Wall-clock time.
pub const CLOCK_REALTIME: u64 = 0;

/// Time since boot.
pub const CLOCK_MONOTONIC: u64 = 1;

/// Internet sockets.
pub const AF_INET: u64 = 2;

/// Stream sockets.
pub const SOCK_STREAM: u64 = 1;

/// Datagram sockets.
pub const SOCK_DGRAM: u64 = 2;

/// Size of an Internet socket address.
pub const SOCKADDR_IN_LEN: usize = 16;

/// Unconditional end.
pub const SIGKILL: u8 = 9;

/// Bad memory access.
pub const SIGSEGV: u8 = 11;

/// Request to end.
pub const SIGTERM: u8 = 15;

/// Highest signal number.
pub const SIG_MAX: u64 = 64;

/// No such file or directory.
pub const ENOENT: i64 = 2;

/// No such process.
pub const ESRCH: i64 = 3;

/// Input/output error.
pub const EIO: i64 = 5;

/// Argument list too long.
pub const E2BIG: i64 = 7;

/// Bad format of an executable.
pub const ENOEXEC: i64 = 8;

/// Bad file descriptor.
pub const EBADF: i64 = 9;

/// No child processes.
pub const ECHILD: i64 = 10;

/// Try again.
pub const EAGAIN: i64 = 11;

/// Out of memory.
pub const ENOMEM: i64 = 12;

/// Bad address.
pub const EFAULT: i64 = 14;

/// Exists already.
pub const EEXIST: i64 = 17;

/// Not a directory.
pub const ENOTDIR: i64 = 20;

/// Is a directory.
pub const EISDIR: i64 = 21;

/// Invalid argument.
pub const EINVAL: i64 = 22;

/// Too many open files.
pub const EMFILE: i64 = 24;

/// No space left.
pub const ENOSPC: i64 = 28;

/// Cannot seek.
pub const ESPIPE: i64 = 29;

/// Nobody reads the pipe.
pub const EPIPE: i64 = 32;

/// Result too large for the buffer.
pub const ERANGE: i64 = 34;

/// No such system call.
pub const ENOSYS: i64 = 38;

/// Directory not empty.
pub const ENOTEMPTY: i64 = 39;

/// Not a socket.
pub const ENOTSOCK: i64 = 88;

/// Message too long.
pub const EMSGSIZE: i64 = 90;

/// Protocol not supported.
pub const EPROTONOSUPPORT: i64 = 93;

/// Operation not supported.
pub const EOPNOTSUPP: i64 = 95;

/// Address family not supported.
pub const EAFNOSUPPORT: i64 = 97;

/// Network is down.
pub const ENETDOWN: i64 = 100;

/// Timed out.
pub const ETIMEDOUT: i64 = 110;

/// Connection refused.
pub const ECONNREFUSED: i64 = 111;

} // verus!
