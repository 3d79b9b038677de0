//! What a system call finds in the registers of its caller and leaves there: the calls that
//! replace or copy the caller, and the way to all others.

use crate::arch::user_stack::{self, build_user_stack, read_user_str_array, USER_STACK_VA};
use crate::fs::path;
use crate::mm::paging::{self, KernelPages, MemView, UserMemory};
use crate::sched::thread::{self, SchedView, Switch, Thread};
use crate::syscall::abi;
use crate::syscall::elf;
use crate::syscall::files;
use crate::syscall::kernel::{KView, Kernel};
use crate::syscall::process::{self, SysStep};
use crate::syscall::uaccess;
use vstd::prelude::*;

verus! {

/// Size of the kernel stack of a process.
pub const USER_KERNEL_STACK_SIZE: usize = 20480;

/// Flags of a program that starts: interrupts are on.
pub const START_FLAGS: u64 = 0x202;

/// Words in the first context of a forked process: six registers of the switch, the address at
/// which it goes on, and the registers of the caller.
pub const FORK_WORDS: u64 = 23;

/// Notes the kernel stack that a system call uses: its top, rounded down to a multiple of 16.
pub fn set_syscall_stack(kernel_rsp: &mut u64, top: u64)
    ensures
        *final(kernel_rsp) == top - top % 16,
{
    *kernel_rsp = top - top % 16;
}

/// The registers of the caller of a system call, in the order in which they lie on its kernel
/// stack from the lowest address up. The number of the call stands in `rax`, where the result is
/// left.
#[derive(Debug, Clone, Copy, PartialEq, Eq, Structural)]
pub struct SyscallRegs {
    pub r15: u64,
    pub r14: u64,
    pub r13: u64,
    pub r12: u64,
    pub rbp: u64,
    pub rbx: u64,
    pub r9: u64,
    pub r8: u64,
    pub r10: u64,
    pub rdx: u64,
    pub rsi: u64,
    pub rdi: u64,
    pub rflags: u64,
    pub rip: u64,
    pub rax: u64,
    pub user_rsp: u64,
}

impl SyscallRegs {
    /// The registers as words, from the lowest address up.
    pub open spec fn words(self) -> Seq<u64> {
        seq![
            self.r15,
            self.r14,
            self.r13,
            self.r12,
            self.rbp,
            self.rbx,
            self.r9,
            self.r8,
            self.r10,
            self.rdx,
            self.rsi,
            self.rdi,
            self.rflags,
            self.rip,
            self.rax,
            self.user_rsp,
        ]
    }

    /// The arguments of the call.
    pub open spec fn args(self) -> Seq<u64> {
        seq![self.rdi, self.rsi, self.rdx, self.r10, self.r8, self.r9]
    }

    /// The registers with the result of the call.
    pub open spec fn with_result(self, r: i64) -> SyscallRegs {
        SyscallRegs { rax: r as u64, ..self }
    }
}

/// The registers of a program that starts: where it starts and its stack, and nothing else.
pub open spec fn start_regs(entry: u64, rsp: u64) -> SyscallRegs {
    SyscallRegs {
        r15: 0,
        r14: 0,
        r13: 0,
        r12: 0,
        rbp: 0,
        rbx: 0,
        r9: 0,
        r8: 0,
        r10: 0,
        rdx: 0,
        rsi: 0,
        rdi: 0,
        rflags: START_FLAGS,
        rip: entry,
        rax: 0,
        user_rsp: rsp,
    }
}

/// What is to be had for a call that makes an address space: its root, if there is memory for it.
/// For a new process also the handle and the top of its kernel stack, and the address at which a
/// system call returns to user mode.
#[derive(Debug, Clone, Copy)]
pub struct Spare {
    pub cr3: Option<u64>,
    pub kstack: u64,
    pub kstack_top: u64,
    pub return_addr: u64,
}

/// How a system call goes on.
pub enum Entry {
    /// Back to the caller, with the registers as they are now.
    Return,
    /// Back to the caller. There is a new process: the words at the top of its kernel stack, and
    /// its memory.
    Forked(Vec<u64>, UserMemory),
    /// The caller is blocked. The call is to be made anew once it runs again.
    Blocked(Switch),
    /// The caller is no more.
    Exited(Switch),
}

/// Memory without pages.
pub open spec fn no_memory() -> MemView {
    MemView { pages: Map::empty() }
}

/// A program file can be started where the kernel has the pages `shared`: where it can be loaded,
/// neither it nor the kernel takes the page of the stack.
pub open spec fn stack_page_free(shared: Set<u64>, bytes: Seq<u8>) -> bool {
    elf::elf_loaded(no_memory(), shared, bytes) matches Ok((_, m)) ==> !m.pages.dom().contains(
        USER_STACK_VA,
    ) && !shared.contains(USER_STACK_VA)
}

/// Start address, stack pointer and memory of a program, or the error. The kernel has the pages
/// `shared` in its address space.
pub open spec fn program_image(
    shared: Set<u64>,
    bytes: Seq<u8>,
    argv: Seq<Seq<u8>>,
    envp: Seq<Seq<u8>>,
) -> Result<(u64, u64, MemView), i64> {
    match elf::elf_loaded(no_memory(), shared, bytes) {
        Err(_) => Err(abi::ENOEXEC),
        Ok((entry, m)) => match user_stack::stack_built(
            m.with_page(USER_STACK_VA),
            (USER_STACK_VA + 4096) as u64,
            USER_STACK_VA,
            argv,
            envp,
        ) {
            None => Err(abi::E2BIG),
            Some((rsp, m2)) => Ok((entry, rsp, m2)),
        },
    }
}

/// The strings of an array that a process passes; none where it passes no array.
pub open spec fn strings_arg(m: MemView, ptr: u64) -> Result<Seq<Seq<u8>>, i64> {
    if ptr == 0 {
        Ok(Seq::empty())
    } else {
        user_stack::user_strings(m, ptr as int, 0)
    }
}

impl KView {
    /// The program file that a process names. Any failure to read it is that there is none.
    pub open spec fn program_arg(self, path_ptr: u64) -> Result<Seq<u8>, i64> {
        match uaccess::user_cstr(self.mem, path_ptr as int) {
            Err(e) => Err(e),
            Ok(p) => if !vstd::utf8::valid_utf8(p) {
                Err(abi::ENOENT)
            } else {
                match self.fs.file(p) {
                    Err(_) => Err(abi::ENOENT),
                    Ok(bytes) => Ok(bytes),
                }
            },
        }
    }

    /// The program that `execve` starts, with its arguments and environment, where there is
    /// memory for it.
    pub open spec fn exec_image(self, regs: SyscallRegs, has_memory: bool, shared: Set<u64>) -> Result<
        (u64, u64, MemView),
        i64,
    > {
        match self.program_arg(regs.rdi) {
            Err(e) => Err(e),
            Ok(bytes) => match strings_arg(self.mem, regs.rsi) {
                Err(e) => Err(e),
                Ok(argv) => match strings_arg(self.mem, regs.rdx) {
                    Err(e) => Err(e),
                    Ok(envp) => if !has_memory {
                        Err(abi::ENOMEM)
                    } else {
                        program_image(shared, bytes, argv, envp)
                    },
                },
            },
        }
    }

    /// Where `execve` comes to build a stack, its page is free.
    pub open spec fn exec_stack_free(self, regs: SyscallRegs, has_memory: bool, shared: Set<u64>) -> bool {
        self.program_arg(regs.rdi) matches Ok(bytes) ==> strings_arg(self.mem, regs.rsi) is Ok
            ==> strings_arg(self.mem, regs.rdx) is Ok ==> has_memory ==> stack_page_free(shared, bytes)
    }

    /// What `execve` does: the caller has a new address space and new memory, its descriptors and
    /// working directory stay, its heap is empty. Where it fails nothing changes but the result.
    pub open spec fn exec(self, regs: SyscallRegs, cr3: Option<u64>, shared: Set<u64>) -> (
        KView,
        SyscallRegs,
    ) {
        match self.exec_image(regs, cr3 is Some, shared) {
            Err(e) => (self, regs.with_result((-e) as i64)),
            Ok((entry, rsp, mem)) => {
                let new = cr3->0;
                let k = KView {
                    mem,
                    key: new,
                    sched: SchedView {
                        threads: self.sched.threads.update(
                            self.sched.current,
                            Thread { cr3: Some(new), ..self.sched.running() },
                        ),
                        ..self.sched
                    },
                    ..self
                };
                (k.rekeyed(self.key, new), start_regs(entry, rsp))
            },
        }
    }

    /// What `fork` does: a process with a copy of the state of the caller. Its parent gets its
    /// number.
    pub open spec fn fork(self, regs: SyscallRegs, spare: Spare) -> (KView, SyscallRegs) {
        match spare.cr3 {
            None => (self, regs.with_result((-abi::ENOMEM) as i64)),
            Some(child) => {
                let k = self.forked(self.key, child);
                (
                    KView {
                        sched: k.sched.spawned(
                            (spare.kstack_top - 8 * FORK_WORDS) as u64,
                            spare.kstack,
                            Some(child),
                            spare.kstack_top,
                        ),
                        ..k
                    },
                    SyscallRegs { rax: k.sched.next_pid as u64, ..regs },
                )
            },
        }
    }
}

/// The words at the top of the kernel stack of a forked process: it goes on as the parent does,
/// with 0 as the result of the call.
pub open spec fn fork_words(parent: SyscallRegs, return_addr: u64) -> Seq<u64> {
    Seq::new(6, |i: int| 0u64) + seq![return_addr] + SyscallRegs { rax: 0, ..parent }.words()
}

/// The words at the top of the kernel stack of a forked process, from the lowest address up.
pub fn init_fork_child_stack(parent: &SyscallRegs, return_addr: u64) -> (words: Vec<u64>)
    ensures
        words@ == fork_words(*parent, return_addr),
        words@.len() == FORK_WORDS,
{
    let mut words: Vec<u64> = Vec::new();
    words.push(0);
    words.push(0);
    words.push(0);
    words.push(0);
    words.push(0);
    words.push(0);
    words.push(return_addr);
    words.push(parent.r15);
    words.push(parent.r14);
    words.push(parent.r13);
    words.push(parent.r12);
    words.push(parent.rbp);
    words.push(parent.rbx);
    words.push(parent.r9);
    words.push(parent.r8);
    words.push(parent.r10);
    words.push(parent.rdx);
    words.push(parent.rsi);
    words.push(parent.rdi);
    words.push(parent.rflags);
    words.push(parent.rip);
    words.push(0);
    words.push(parent.user_rsp);
    assert(words@ =~= fork_words(*parent, return_addr));
    words
}

/// All errors that reading an array of strings gives are small numbers.
proof fn lemma_strings_errno(m: MemView, array: int, i: int)
    ensures
        user_stack::user_strings(m, array, i) matches Err(e) ==> e == abi::EFAULT || e
            == abi::E2BIG,
    decreases user_stack::MAX_STR_ARRAY - i,
{
    if i < user_stack::MAX_STR_ARRAY && array + 8 * i <= u64::MAX {
        if let Ok(b) = uaccess::user_bytes(m, (array + 8 * i) as u64, 8) {
            files::lemma_cstr_errno(m, crate::util::le64(b, 0) as int);
            lemma_strings_errno(m, array, i + 1);
        }
    }
}

/// Reads the program file that a process names.
fn read_program(k: &Kernel, path_ptr: u64) -> (r: Result<Vec<u8>, i64>)
    requires
        k@.wf(),
    ensures
        match k@.program_arg(path_ptr) {
            Err(e) => r matches Err(e2) && e2 == e && 0 < e < 4096,
            Ok(b) => r matches Ok(v) && v@ == b,
        },
{
    proof {
        files::lemma_cstr_errno(k@.mem, path_ptr as int);
    }
    let p = match uaccess::read_user_cstr(&k.mem, path_ptr) {
        Ok(p) => p,
        Err(e) => {
            return Err(e);
        },
    };
    if !files::is_utf8(p.as_slice()) {
        return Err(abi::ENOENT);
    }
    match k.fs.open(p.as_slice()) {
        Ok(bytes) => Ok(bytes),
        Err(_) => Err(abi::ENOENT),
    }
}

/// Reads an array of strings that a process passes.
fn read_strings(k: &Kernel, ptr: u64) -> (r: Result<Vec<Vec<u8>>, i64>)
    requires
        k@.wf(),
    ensures
        match strings_arg(k@.mem, ptr) {
            Err(e) => r matches Err(e2) && e2 == e && 0 < e < 4096,
            Ok(s) => r matches Ok(v) && path::views(v@) == s,
        },
        r matches Ok(v) ==> v@.len() <= user_stack::MAX_STR_ARRAY,
{
    proof {
        lemma_strings_errno(k@.mem, ptr as int, 0);
    }
    let r = read_user_str_array(&k.mem, ptr);
    assert(ptr == 0 ==> path::views(r->Ok_0@) =~= Seq::<Seq<u8>>::empty());
    r
}

/// Whether the page of the stack is free where a program file can be loaded.
pub fn leaves_stack_free(bytes: &[u8], shared: &KernelPages) -> (r: bool)
    ensures
        r == stack_page_free(shared@, bytes@),
{
    let mem = UserMemory::new();
    assert(mem@ =~= no_memory());
    match elf::load(bytes, mem, shared) {
        Err(_) => true,
        Ok((_, m)) => !m.is_mapped(USER_STACK_VA) && !shared.holds(USER_STACK_VA),
    }
}

/// Whether the page of the stack is free where `execve` comes to build one.
pub fn exec_stack_free(k: &Kernel, regs: &SyscallRegs, has_memory: bool, shared: &KernelPages) -> (r:
    bool)
    requires
        k@.wf(),
    ensures
        r == k@.exec_stack_free(*regs, has_memory, shared@),
{
    match (read_program(k, regs.rdi), read_strings(k, regs.rsi), read_strings(k, regs.rdx)) {
        (Ok(bytes), Ok(_), Ok(_)) => !has_memory || leaves_stack_free(bytes.as_slice(), shared),
        _ => true,
    }
}

/// Builds the memory of a program: the file, and a stack with arguments and environment.
fn build_program(shared: &KernelPages, bytes: &[u8], argv: &Vec<Vec<u8>>, envp: &Vec<Vec<u8>>) -> (r:
    Result<(u64, u64, UserMemory), i64>)
    requires
        stack_page_free(shared@, bytes@),
        argv@.len() <= user_stack::MAX_STR_ARRAY,
        envp@.len() <= user_stack::MAX_STR_ARRAY,
    ensures
        match program_image(shared@, bytes@, path::views(argv@), path::views(envp@)) {
            Err(e) => r matches Err(e2) && e2 == e && 0 < e < 4096,
            Ok((entry, rsp, m)) => r matches Ok(x) && x.0 == entry && x.1 == rsp && x.2@ == m
                && x.2.wf(),
        },
{
    let mem = UserMemory::new();
    assert(mem@ =~= no_memory());
    match elf::load(bytes, mem, shared) {
        Err(_) => Err(abi::ENOEXEC),
        Ok((entry, mut m)) => {
            paging::map_user_page(&mut m, USER_STACK_VA);
            assert forall|a: int| USER_STACK_VA <= a < USER_STACK_VA + 4096 implies #[trigger]
                m@.mapped(a) by {
                assert(paging::page_of(a) == USER_STACK_VA);
            }
            match build_user_stack(m, USER_STACK_VA + 4096, USER_STACK_VA, argv, envp) {
                None => Err(abi::E2BIG),
                Some((rsp, m2)) => Ok((entry, rsp, m2)),
            }
        },
    }
}

/// `execve(path, argv, envp)`: replaces the program of the caller. The kernel has the pages `shared`
/// in the new address space.
pub fn exec(k: &mut Kernel, regs: &mut SyscallRegs, new_cr3: Option<u64>, shared: &KernelPages)
    requires
        old(k)@.wf(),
        old(k)@.sched.running().cr3 == Some(old(k)@.key),
        old(k)@.exec_stack_free(*old(regs), new_cr3 is Some, shared@),
    ensures
        final(k)@.wf(),
        (final(k)@, *final(regs)) == old(k)@.exec(*old(regs), new_cr3, shared@),
{
    let ghost before = k@;
    let bytes = match read_program(k, regs.rdi) {
        Ok(b) => b,
        Err(e) => {
            regs.rax = (-e) as u64;
            return ;
        },
    };
    let argv = match read_strings(k, regs.rsi) {
        Ok(v) => v,
        Err(e) => {
            regs.rax = (-e) as u64;
            return ;
        },
    };
    let envp = match read_strings(k, regs.rdx) {
        Ok(v) => v,
        Err(e) => {
            regs.rax = (-e) as u64;
            return ;
        },
    };
    let cr3 = match new_cr3 {
        Some(c) => c,
        None => {
            regs.rax = (-abi::ENOMEM) as u64;
            return ;
        },
    };
    match build_program(shared, bytes.as_slice(), &argv, &envp) {
        Err(e) => {
            regs.rax = (-e) as u64;
        },
        Ok((entry, rsp, mem)) => {
            k.mem = mem;
            let gone = thread::exec_replace_cr3(&mut k.sched, cr3);
            k.key = cr3;
            assert(gone == before.key);
            let ghost mid = k@;
            assert(mid == KView { mem: mid.mem, key: cr3, sched: mid.sched, ..before });
            assert(mid.wf());
            files::rekey_process(k, gone, cr3);
            regs.rip = entry;
            regs.user_rsp = rsp;
            regs.rflags = START_FLAGS;
            regs.rax = 0;
            regs.rdi = 0;
            regs.rsi = 0;
            regs.rdx = 0;
            regs.r10 = 0;
            regs.r8 = 0;
            regs.r9 = 0;
            regs.rbx = 0;
            regs.rbp = 0;
            regs.r12 = 0;
            regs.r13 = 0;
            regs.r14 = 0;
            regs.r15 = 0;
        },
    }
}

/// `fork()`: makes a copy of the caller. Returns the words at the top of the kernel stack of the
/// new process and its memory; none where there is no memory for it.
pub fn fork(k: &mut Kernel, regs: &mut SyscallRegs, spare: Spare) -> (r: Option<
    (Vec<u64>, UserMemory),
>)
    requires
        old(k)@.wf(),
        spare.kstack_top >= 8 * FORK_WORDS,
    ensures
        final(k)@.wf(),
        (final(k)@, *final(regs)) == old(k)@.fork(*old(regs), spare),
        r is Some == spare.cr3 is Some,
        r matches Some((words, mem)) ==> words@ == fork_words(*old(regs), spare.return_addr)
            && mem@ == old(k)@.mem && mem.wf(),
{
    let child = match spare.cr3 {
        Some(c) => c,
        None => {
            regs.rax = (-abi::ENOMEM) as u64;
            return None;
        },
    };
    let mem = k.mem.duplicate();
    let key = k.key;
    files::fork_fds(k, key, child);
    let words = init_fork_child_stack(regs, spare.return_addr);
    let rsp = spare.kstack_top - 8 * FORK_WORDS;
    let ghost mid = k@;
    let pid = thread::add_user_task(&mut k.sched, rsp, child, spare.kstack_top, spare.kstack);
    assert(k@ == KView { sched: k@.sched, ..mid });
    regs.rax = pid as u64;
    Some((words, mem))
}

impl KView {
    /// What a system call does with the registers of its caller.
    pub open spec fn entered(self, regs: SyscallRegs, spare: Spare, shared: Set<u64>) -> (
        KView,
        SyscallRegs,
    ) {
        if regs.rax == abi::SYS_EXECVE {
            self.exec(regs, spare.cr3, shared)
        } else if regs.rax == abi::SYS_FORK {
            self.fork(regs, spare)
        } else {
            match self.dispatch(regs.rax, regs.args(), regs.user_rsp) {
                (k, SysStep::Done(r)) => (k, regs.with_result(r)),
                (k, _) => (k, regs),
            }
        }
    }
}

/// The way of a system call from the registers of its caller and back. The kernel has the pages
/// `shared` in every address space.
pub fn ferros_syscall_dispatch(
    k: &mut Kernel,
    regs: &mut SyscallRegs,
    spare: Spare,
    shared: &KernelPages,
) -> (r: Entry)
    requires
        old(k)@.wf(),
        old(regs).rax == abi::SYS_EXECVE ==> old(k)@.sched.running().cr3 == Some(old(k)@.key)
            && old(k)@.exec_stack_free(*old(regs), spare.cr3 is Some, shared@),
        old(regs).rax == abi::SYS_FORK ==> spare.kstack_top >= 8 * FORK_WORDS,
        old(k)@.callable(old(regs).rax, old(regs).args()),
    ensures
        final(k)@.wf(),
        (final(k)@, *final(regs)) == old(k)@.entered(*old(regs), spare, shared@),
        match r {
            Entry::Return => old(regs).rax == abi::SYS_EXECVE || (old(regs).rax == abi::SYS_FORK
                && spare.cr3 is None) || old(k)@.dispatch(
                old(regs).rax,
                old(regs).args(),
                old(regs).user_rsp,
            ).1 is Done,
            Entry::Forked(words, mem) => old(regs).rax == abi::SYS_FORK && words@ == fork_words(
                *old(regs),
                spare.return_addr,
            ) && mem@ == old(k)@.mem,
            Entry::Blocked(w) => old(k)@.dispatch(
                old(regs).rax,
                old(regs).args(),
                old(regs).user_rsp,
            ).1 == SysStep::Blocked(w),
            Entry::Exited(w) => old(k)@.dispatch(
                old(regs).rax,
                old(regs).args(),
                old(regs).user_rsp,
            ).1 == SysStep::Exited(w),
        },
{
    if regs.rax == abi::SYS_EXECVE {
        exec(k, regs, spare.cr3, shared);
        return Entry::Return;
    }
    if regs.rax == abi::SYS_FORK {
        return match fork(k, regs, spare) {
            Some((words, mem)) => Entry::Forked(words, mem),
            None => Entry::Return,
        };
    }
    let args = [regs.rdi, regs.rsi, regs.rdx, regs.r10, regs.r8, regs.r9];
    assert(args@ =~= regs.args());
    match process::dispatch(k, regs.rax, args, regs.user_rsp) {
        SysStep::Done(r) => {
            regs.rax = r as u64;
            Entry::Return
        },
        SysStep::Blocked(w) => Entry::Blocked(w),
        SysStep::Exited(w) => Entry::Exited(w),
    }
}

/// A program without arguments has room for its stack.
pub proof fn lemma_bare_program(shared: Set<u64>, bytes: Seq<u8>)
    requires
        elf::elf_loaded(no_memory(), shared, bytes) is Ok,
    ensures
        program_image(shared, bytes, Seq::empty(), Seq::empty()) is Ok,
{
    let none = Seq::<Seq<u8>>::empty();
    assert(none + none =~= none);
    assert(user_stack::string_addrs(none, 0, 0, USER_STACK_VA + 4096) =~= Seq::<u64>::empty());
    assert(user_stack::string_block(none).len() == 0);
}

/// A program has none of the pages of the kernel: what it is made of goes elsewhere, whatever its
/// file says.
pub proof fn law_program_spares_the_kernel(
    shared: Set<u64>,
    bytes: Seq<u8>,
    argv: Seq<Seq<u8>>,
    envp: Seq<Seq<u8>>,
    p: u64,
)
    requires
        stack_page_free(shared, bytes),
        shared.contains(p),
    ensures
        program_image(shared, bytes, argv, envp) matches Ok((_, _, m)) ==> !m.pages.dom().contains(p),
{
    if elf::elf_loaded(no_memory(), shared, bytes) is Ok {
        elf::law_load_spares_the_kernel(no_memory(), shared, bytes, p);
    }
}

/// Start address, stack pointer and memory of the first program. The file can be loaded, and the
/// page of the stack is free.
pub fn first_program(bytes: &[u8], shared: &KernelPages) -> (r: (u64, u64, UserMemory))
    requires
        elf::elf_loaded(no_memory(), shared@, bytes@) is Ok,
        stack_page_free(shared@, bytes@),
    ensures
        program_image(shared@, bytes@, Seq::empty(), Seq::empty()) == Ok::<(u64, u64, MemView), i64>(
            (r.0, r.1, r.2@),
        ),
        r.2.wf(),
{
    let none: Vec<Vec<u8>> = Vec::new();
    proof {
        assert(path::views(none@) =~= Seq::<Seq<u8>>::empty());
        lemma_bare_program(shared@, bytes@);
    }
    match build_program(shared, bytes, &none, &none) {
        Ok(x) => x,
        Err(_) => (0, 0, UserMemory::new()),
    }
}

/// Whether a file can be the first program where the kernel has the pages `shared`.
pub fn can_be_first(bytes: &[u8], shared: &KernelPages) -> (r: bool)
    ensures
        r == (elf::elf_loaded(no_memory(), shared@, bytes@) is Ok && stack_page_free(shared@, bytes@)),
{
    let mem = UserMemory::new();
    assert(mem@ =~= no_memory());
    match elf::load(bytes, mem, shared) {
        Err(_) => false,
        Ok((_, m)) => !m.is_mapped(USER_STACK_VA) && !shared.holds(USER_STACK_VA),
    }
}

} // verus!
