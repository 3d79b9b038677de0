//! Access to the memory of the calling process. Every range is checked before it is touched; a
//! bad one yields an error number and no fault.

use crate::mm::paging::{self, MemView, UserMemory};
use crate::syscall::abi;
use vstd::prelude::*;

verus! {

/// First address above user space.
pub const USER_SPACE_END: u64 = 0x0000_8000_0000_0000;

/// Whether user mode may access `start .. start + len`, all of it in user space.
pub open spec fn user_range(m: MemView, start: u64, len: u64, need_write: bool) -> bool {
    len == 0 || (start + len <= USER_SPACE_END && m.accessible(start, len, need_write))
}

/// The bytes of a range of user memory.
pub open spec fn user_bytes(m: MemView, start: u64, len: u64) -> Result<Seq<u8>, i64> {
    if user_range(m, start, len, false) {
        Ok(m.bytes(start as int, len as nat))
    } else {
        Err(abi::EFAULT)
    }
}

/// The string at `addr`, up to the zero that ends it.
pub open spec fn user_cstr(m: MemView, addr: int) -> Result<Seq<u8>, i64>
    decreases USER_SPACE_END - addr,
{
    if addr >= USER_SPACE_END || !m.user_ok(addr, false) {
        Err(abi::EFAULT)
    } else if m.byte(addr) == 0 {
        Ok(Seq::empty())
    } else {
        match user_cstr(m, addr + 1) {
            Ok(rest) => Ok(seq![m.byte(addr)] + rest),
            Err(e) => Err(e),
        }
    }
}

/// The memory after `data` was copied to `start`, or the error.
pub open spec fn user_copied(m: MemView, start: u64, data: Seq<u8>) -> (MemView, Result<(), i64>) {
    if user_range(m, start, data.len() as u64, true) {
        (m.written(start as int, data), Ok(()))
    } else {
        (m, Err(abi::EFAULT))
    }
}

/// Whether user mode may access `start .. start + len`, all of it in user space.
pub fn check_user_range(mem: &UserMemory, start: u64, len: u64, need_write: bool) -> (r: bool)
    requires
        mem.wf(),
    ensures
        r == user_range(mem@, start, len, need_write),
{
    if len == 0 {
        return true;
    }
    if start >= USER_SPACE_END || len > USER_SPACE_END - start {
        return false;
    }
    paging::user_range_accessible(mem, start, len, need_write)
}

/// A copy of `len` bytes of user memory at `start`.
pub fn with_user_bytes(mem: &UserMemory, start: u64, len: u64) -> (r: Result<Vec<u8>, i64>)
    requires
        mem.wf(),
    ensures
        match user_bytes(mem@, start, len) {
            Ok(bytes) => r matches Ok(v) && v@ == bytes,
            Err(e) => r == Err::<Vec<u8>, i64>(e),
        },
{
    if !check_user_range(mem, start, len, false) {
        return Err(abi::EFAULT);
    }
    if len == 0 {
        let v: Vec<u8> = Vec::new();
        assert(v@ =~= mem@.bytes(start as int, 0));
        return Ok(v);
    }
    assert forall|a: int| start <= a < start + len implies #[trigger] mem@.mapped(a) by {
        assert(mem@.user_ok(a, false));
    }
    Ok(mem.read_range(start, len))
}

/// The string at `ptr` in user memory, without the zero that ends it.
pub fn read_user_cstr(mem: &UserMemory, ptr: u64) -> (r: Result<Vec<u8>, i64>)
    requires
        mem.wf(),
    ensures
        match user_cstr(mem@, ptr as int) {
            Ok(s) => r matches Ok(v) && v@ == s,
            Err(e) => r == Err::<Vec<u8>, i64>(e),
        },
{
    let mut v: Vec<u8> = Vec::new();
    let mut addr = ptr;
    proof {
        if let Ok(s) = user_cstr(mem@, ptr as int) {
            assert(Seq::<u8>::empty() + s =~= s);
        }
    }
    while addr < USER_SPACE_END
        invariant
            mem.wf(),
            match user_cstr(mem@, addr as int) {
                Ok(rest) => user_cstr(mem@, ptr as int) == Ok::<Seq<u8>, i64>(v@ + rest),
                Err(e) => user_cstr(mem@, ptr as int) == Err::<Seq<u8>, i64>(e),
            },
        decreases USER_SPACE_END - addr,
    {
        if !check_user_range(mem, addr, 1, false) {
            proof {
                assert(!mem@.user_ok(addr as int, false));
            }
            return Err(abi::EFAULT);
        }
        assert(mem@.user_ok(addr as int, false));
        let b = mem.read_byte(addr);
        if b == 0 {
            assert(v@ + Seq::<u8>::empty() =~= v@);
            return Ok(v);
        }
        proof {
            if let Ok(rest) = user_cstr(mem@, addr + 1) {
                assert(v@ + (seq![b] + rest) =~= v@.push(b) + rest);
            }
        }
        v.push(b);
        addr += 1;
    }
    Err(abi::EFAULT)
}

/// Copies `data` to user memory at `start`.
pub fn copy_to_user(mem: &mut UserMemory, start: u64, data: &[u8]) -> (r: Result<(), i64>)
    requires
        old(mem).wf(),
    ensures
        final(mem).wf(),
        (final(mem)@, r) == user_copied(old(mem)@, start, data@),
{
    assert(data.len() == data@.len());
    if !check_user_range(mem, start, data.len() as u64, true) {
        return Err(abi::EFAULT);
    }
    if data.len() == 0 {
        proof {
            paging::lemma_written_nothing(mem@, start as int);
            assert(data@ =~= Seq::<u8>::empty());
        }
        return Ok(());
    }
    assert forall|a: int| start <= a < start + data@.len() implies #[trigger] mem@.mapped(a) by {
        assert(mem@.user_ok(a, true));
    }
    mem.write_range(start, data);
    Ok(())
}

/// What was copied to user memory reads back.
pub proof fn law_copied_bytes_read_back(m: MemView, start: u64, data: Seq<u8>)
    requires
        m.wf(),
        data.len() <= u64::MAX,
        user_copied(m, start, data).1 is Ok,
    ensures
        user_bytes(user_copied(m, start, data).0, start, data.len() as u64) == Ok::<Seq<u8>, i64>(
            data,
        ),
{
    let m2 = user_copied(m, start, data).0;
    let len = data.len() as u64;
    paging::lemma_written(m, start as int, data);
    if len > 0 {
        assert forall|a: int| start <= a < start + len implies #[trigger] m2.user_ok(a, false) by {
            assert(m.user_ok(a, true));
            assert(m2.mapped(a));
            let p = paging::page_of(a) as u64;
            assert(m2.pages[p].user == m.pages[p].user);
        }
        assert forall|i: int| 0 <= i < len implies m2.byte(start + i) == data[i] by {
            assert(m.user_ok(start + i, true));
            assert(m.mapped(start + i));
        }
    }
    assert(m2.bytes(start as int, len as nat) =~= data);
}

/// A copy to user memory changes nothing but bytes that user mode may write to, within user space:
/// no page is mapped, unmapped or given other permissions. A copy that is refused changes nothing.
pub proof fn law_copy_stays_in_user_memory(m: MemView, start: u64, data: Seq<u8>, a: int)
    requires
        m.wf(),
        data.len() <= u64::MAX,
    ensures
        ({
            let (m2, r) = user_copied(m, start, data);
            &&& r is Err ==> m2 == m
            &&& m2.pages.dom() == m.pages.dom()
            &&& m2.user_ok(a, true) == m.user_ok(a, true)
            &&& m2.user_ok(a, false) == m.user_ok(a, false)
            &&& m.mapped(a) && m2.byte(a) != m.byte(a) ==> m.user_ok(a, true) && a < USER_SPACE_END
                && start <= a < start + data.len()
        }),
{
    let (m2, r) = user_copied(m, start, data);
    if r is Ok {
        paging::lemma_written(m, start as int, data);
        assert(m2.mapped(a) == m.mapped(a));
        assert(m2.pages.dom() =~= m.pages.dom());
        if m.mapped(a) {
            let p = paging::page_of(a) as u64;
            assert(m.pages.dom().contains(p));
            assert(m2.pages[p].user == m.pages[p].user);
            if start <= a < start + data.len() {
                assert(m.user_ok(a, true));
            }
        }
    }
}

/// Nothing is read for a process but bytes that user mode may read, within user space.
pub proof fn law_reads_stay_in_user_memory(m: MemView, start: u64, len: u64, a: int)
    requires
        user_bytes(m, start, len) is Ok,
        start <= a < start + len,
    ensures
        m.user_ok(a, false),
        a < USER_SPACE_END,
{
}

} // verus!
