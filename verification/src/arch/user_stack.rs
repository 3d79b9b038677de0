//! The first stack of a program, as the System V ABI for x86-64 lays it out.
//!
//! From the stack pointer up: the argument count, the pointers to the arguments and a zero, the
//! pointers to the environment and a zero, an empty auxiliary vector. The strings stand above,
//! at the top of the stack. The stack pointer is a multiple of 16.

use crate::fs::path;
use crate::mm::paging::{self, MemView, UserMemory};
use crate::syscall::abi;
use crate::syscall::uaccess;
use crate::util;
use vstd::prelude::*;

verus! {

/// Address of the page of the user stack.
pub const USER_STACK_VA: u64 = 0x7F80_1000_0000;

/// Most elements of an argument or environment array.
pub const MAX_STR_ARRAY: usize = 128;

/// The strings `strs` as they stand in memory, each with a zero behind it, the first one highest.
pub open spec fn string_block(strs: Seq<Seq<u8>>) -> Seq<u8>
    decreases strs.len(),
{
    if strs.len() == 0 {
        Seq::empty()
    } else {
        strs.last().push(0u8) + string_block(strs.drop_last())
    }
}

/// Address of string `k` where the block of strings ends at `top`.
pub open spec fn string_addr(strs: Seq<Seq<u8>>, k: int, top: int) -> int {
    top - string_block(strs.take(k + 1)).len()
}

/// Addresses of the strings `from .. to`.
pub open spec fn string_addrs(strs: Seq<Seq<u8>>, from: int, to: int, top: int) -> Seq<u64> {
    Seq::new((to - from) as nat, |i: int| string_addr(strs, from + i, top) as u64)
}

/// The words from the stack pointer up, for the arguments and the environment at the given
/// addresses. Their number is even.
pub open spec fn stack_words(args: Seq<u64>, envs: Seq<u64>) -> Seq<u64> {
    let words = seq![args.len() as u64] + args + seq![0u64] + envs + seq![0u64, 0u64, 0u64];
    if words.len() % 2 == 0 {
        words
    } else {
        words.push(0)
    }
}

/// The bytes of `words`, each low byte first.
pub open spec fn words_bytes(words: Seq<u64>) -> Seq<u8>
    decreases words.len(),
{
    if words.len() == 0 {
        Seq::empty()
    } else {
        words_bytes(words.drop_last()) + util::enc64(words.last())
    }
}

/// Stack pointer and memory once the stack is built in `floor .. top`; none where it does not
/// fit.
pub open spec fn stack_built(
    m: MemView,
    top: u64,
    floor: u64,
    argv: Seq<Seq<u8>>,
    envp: Seq<Seq<u8>>,
) -> Option<(u64, MemView)> {
    let strs = argv + envp;
    let block = string_block(strs);
    let strings = top - block.len();
    let base = strings - strings % 16;
    let n = argv.len() as int;
    let words = stack_words(
        string_addrs(strs, 0, n, top as int),
        string_addrs(strs, n, strs.len() as int, top as int),
    );
    let rsp = base - 8 * words.len();
    if strings < floor || rsp < floor {
        None
    } else {
        Some((rsp as u64, m.written(strings, block).written(rsp, words_bytes(words))))
    }
}

/// A write right below another one extends it downwards.
proof fn lemma_written_below(m: MemView, start: int, a: Seq<u8>, b: Seq<u8>)
    ensures
        m.written(start + a.len(), b).written(start, a) == m.written(start, a + b),
{
    let w1 = m.written(start + a.len(), b).written(start, a);
    let w2 = m.written(start, a + b);
    assert forall|p: u64| m.pages.dom().contains(p) implies w1.pages[p] == w2.pages[p] by {
        assert(w1.pages[p].data =~= w2.pages[p].data);
        assert(w1.pages[p] =~= w2.pages[p]);
    }
    assert(w1.pages =~= w2.pages);
}

/// The block of more strings is longer.
proof fn lemma_block_grows(strs: Seq<Seq<u8>>, k: int)
    requires
        0 <= k < strs.len(),
    ensures
        string_block(strs.take(k + 1)) == strs[k].push(0u8) + string_block(strs.take(k)),
        string_block(strs.take(k + 1)).len() == string_block(strs.take(k)).len() + strs[k].len() + 1,
{
    assert(strs.take(k + 1).drop_last() =~= strs.take(k));
    assert(strs.take(k + 1).last() == strs[k]);
}

/// The block of all strings is at least as long as that of some.
proof fn lemma_block_total(strs: Seq<Seq<u8>>, k: int)
    requires
        0 <= k <= strs.len(),
    ensures
        string_block(strs.take(k)).len() <= string_block(strs).len(),
    decreases strs.len() - k,
{
    if k < strs.len() {
        lemma_block_grows(strs, k);
        lemma_block_total(strs, k + 1);
    } else {
        assert(strs.take(k) =~= strs);
    }
}

/// The bytes of a sequence of words are eight for each.
pub proof fn lemma_words_len(words: Seq<u64>)
    ensures
        words_bytes(words).len() == 8 * words.len(),
    decreases words.len(),
{
    if words.len() > 0 {
        lemma_words_len(words.drop_last());
    }
}

/// Writes the strings `list` downwards from `sp`, each with a zero behind it, and appends their
/// addresses to `ptrs`. `None` where they do not fit above `floor`.
fn put_strings(
    mem: &mut UserMemory,
    sp: u64,
    floor: u64,
    top: u64,
    list: &Vec<Vec<u8>>,
    Ghost(before): Ghost<Seq<Seq<u8>>>,
    Ghost(m0): Ghost<MemView>,
) -> (r: Option<(u64, Vec<u64>)>)
    requires
        old(mem).wf(),
        m0.wf(),
        floor <= sp <= top,
        m0.all_mapped(floor as int, top - floor),
        sp == top - string_block(before).len(),
        old(mem)@ == m0.written(sp as int, string_block(before)),
    ensures
        ({
            let all = before + path::views(list@);
            match r {
                None => top - string_block(all).len() < floor,
                Some((sp2, ptrs)) => {
                    &&& floor <= sp2 <= sp
                    &&& sp2 == top - string_block(all).len()
                    &&& ptrs@ == string_addrs(
                        all,
                        before.len() as int,
                        all.len() as int,
                        top as int,
                    )
                    &&& final(mem).wf()
                    &&& final(mem)@ == m0.written(sp2 as int, string_block(all))
                },
            }
        }),
{
    let ghost all = before + path::views(list@);
    let ghost n0 = before.len() as int;
    let mut at = sp;
    let mut ptrs: Vec<u64> = Vec::new();
    let mut i: usize = 0;
    assert(all.take(n0) =~= before);
    assert(ptrs@ =~= string_addrs(all, n0, n0, top as int));
    while i < list.len()
        invariant
            mem.wf(),
            m0.wf(),
            i <= list@.len(),
            floor <= at <= sp <= top,
            m0.all_mapped(floor as int, top - floor),
            all == before + path::views(list@),
            n0 == before.len(),
            at == top - string_block(all.take(n0 + i)).len(),
            mem@ == m0.written(at as int, string_block(all.take(n0 + i))),
            ptrs@ == string_addrs(all, n0, n0 + i, top as int),
        decreases list@.len() - i,
    {
        let ghost k = n0 + i;
        proof {
            lemma_block_grows(all, k);
            lemma_block_total(all, k + 1);
            assert(all[k] == list@[i as int]@);
        }
        let len = list[i].len();
        if at - floor <= len as u64 {
            return None;
        }
        let need = len as u64 + 1;
        at = at - need;
        let ghost blk = string_block(all.take(k));
        let ghost m1 = mem@;
        proof {
            paging::lemma_written(m0, at + need, blk);
            assert forall|a: int| at <= a < at + need implies #[trigger] mem@.mapped(a) by {
                assert(m0.mapped(a));
            }
        }
        let mut s = util::slice_to_vec(list[i].as_slice(), 0, len);
        assert(s@ =~= list@[i as int]@);
        s.push(0);
        mem.write_range(at, s.as_slice());
        proof {
            lemma_written_below(m0, at as int, s@, blk);
        }
        ptrs.push(at);
        assert(ptrs@ =~= string_addrs(all, n0, n0 + i + 1, top as int));
        i += 1;
    }
    assert(all.take(n0 + i) =~= all);
    Some((at, ptrs))
}

/// Writes `words` upwards from `start`.
fn put_words(mem: &mut UserMemory, start: u64, words: &Vec<u64>)
    requires
        old(mem).wf(),
        start + 8 * words@.len() <= u64::MAX,
        old(mem)@.all_mapped(start as int, 8 * words@.len() as int),
    ensures
        final(mem).wf(),
        final(mem)@ == old(mem)@.written(start as int, words_bytes(words@)),
{
    let ghost m0 = mem@;
    let mut i: usize = 0;
    proof {
        paging::lemma_written_nothing(m0, start as int);
        assert(words@.take(0) =~= Seq::<u64>::empty());
    }
    while i < words.len()
        invariant
            mem.wf(),
            m0.wf(),
            m0 == old(mem)@,
            i <= words@.len(),
            start + 8 * words@.len() <= u64::MAX,
            m0.all_mapped(start as int, 8 * words@.len() as int),
            mem@ == m0.written(start as int, words_bytes(words@.take(i as int))),
        decreases words@.len() - i,
    {
        let ghost done = words@.take(i as int);
        let ghost w = words@[i as int];
        proof {
            lemma_words_len(done);
            paging::lemma_written(m0, start as int, words_bytes(done));
            assert forall|a: int| start + 8 * i <= a < start + 8 * i + 8 implies #[trigger] mem@.mapped(
                a,
            ) by {
                assert(m0.mapped(a));
            }
        }
        let mut b = [0u8; 8];
        util::put_u64(&mut b, 0, words[i]);
        assert(b@ =~= util::enc64(w));
        mem.write_range(start + 8 * i as u64, &b);
        proof {
            paging::lemma_written_twice(m0, start as int, words_bytes(done), util::enc64(w));
            assert(words@.take(i + 1).drop_last() =~= done);
            assert(words@.take(i + 1).last() == w);
        }
        i += 1;
    }
    assert(words@.take(i as int) =~= words@);
}

/// The words from the stack pointer up.
fn make_words(args: &Vec<u64>, envs: &Vec<u64>) -> (words: Vec<u64>)
    ensures
        words@ == stack_words(args@, envs@),
        words@.len() % 2 == 0,
        words@.len() <= args@.len() + envs@.len() + 6,
{
    let mut words: Vec<u64> = Vec::new();
    words.push(args.len() as u64);
    let mut i: usize = 0;
    while i < args.len()
        invariant
            i <= args@.len(),
            words@ =~= seq![args@.len() as u64] + args@.take(i as int),
        decreases args@.len() - i,
    {
        words.push(args[i]);
        i += 1;
    }
    assert(args@.take(i as int) =~= args@);
    words.push(0);
    let ghost head = words@;
    let mut k: usize = 0;
    while k < envs.len()
        invariant
            k <= envs@.len(),
            words@ =~= head + envs@.take(k as int),
        decreases envs@.len() - k,
    {
        words.push(envs[k]);
        k += 1;
    }
    assert(envs@.take(k as int) =~= envs@);
    words.push(0);
    words.push(0);
    words.push(0);
    assert(words@ =~= seq![args@.len() as u64] + args@ + seq![0u64] + envs@ + seq![0u64, 0u64, 0u64]);
    if words.len() % 2 == 1 {
        words.push(0);
    }
    words
}

/// Builds the first stack of a program in the pages `floor .. top` of its memory. Returns the
/// stack pointer and the memory, or nothing where the strings do not fit.
pub fn build_user_stack(
    mem: UserMemory,
    top: u64,
    floor: u64,
    argv: &Vec<Vec<u8>>,
    envp: &Vec<Vec<u8>>,
) -> (r: Option<(u64, UserMemory)>)
    requires
        mem.wf(),
        floor <= top,
        floor % 16 == 0,
        mem@.all_mapped(floor as int, top - floor),
    ensures
        match stack_built(mem@, top, floor, path::views(argv@), path::views(envp@)) {
            None => r is None,
            Some((rsp, m2)) => r matches Some(x) && x.0 == rsp && x.1@ == m2 && x.1.wf(),
        },
{
    let ghost m0 = mem@;
    let ghost a = path::views(argv@);
    let ghost e = path::views(envp@);
    let ghost strs = a + e;
    let ghost n = a.len() as int;
    let mut space = mem;
    proof {
        paging::lemma_written_nothing(m0, top as int);
        assert(Seq::<Seq<u8>>::empty() + a =~= a);
        lemma_block_total(strs, n);
        assert(strs.take(n) =~= a);
    }
    let (sp1, args) = match put_strings(
        &mut space,
        top,
        floor,
        top,
        argv,
        Ghost(Seq::empty()),
        Ghost(m0),
    ) {
        Some(x) => x,
        None => {
            return None;
        },
    };
    let (sp2, envs) = match put_strings(&mut space, sp1, floor, top, envp, Ghost(a), Ghost(m0)) {
        Some(x) => x,
        None => {
            return None;
        },
    };
    proof {
        assert(args@ =~= string_addrs(strs, 0, n, top as int)) by {
            assert forall|i: int| 0 <= i < n implies string_addr(a, i, top as int) == string_addr(
                strs,
                i,
                top as int,
            ) by {
                assert(a.take(i + 1) =~= strs.take(i + 1));
            }
        }
    }
    let base = sp2 - sp2 % 16;
    let words = make_words(&args, &envs);
    assert(base >= floor);
    if (base - floor) / 8 < words.len() as u64 {
        return None;
    }
    let size = 8 * words.len() as u64;
    let rsp = base - size;
    proof {
        let block = string_block(strs);
        paging::lemma_written(m0, sp2 as int, block);
        assert forall|x: int| rsp <= x < rsp + size implies #[trigger] space@.mapped(x) by {
            assert(m0.mapped(x));
        }
    }
    put_words(&mut space, rsp, &words);
    proof {
        paging::lemma_written(space@, rsp as int, words_bytes(words@));
    }
    Some((rsp, space))
}

/// The strings that the pointers of a user array from number `i` on point to, up to the zero that
/// ends the array.
pub open spec fn user_strings(m: MemView, array: int, i: int) -> Result<Seq<Seq<u8>>, i64>
    decreases MAX_STR_ARRAY - i,
{
    if i >= MAX_STR_ARRAY {
        Err(abi::E2BIG)
    } else if array + 8 * i > u64::MAX {
        Err(abi::EFAULT)
    } else {
        match uaccess::user_bytes(m, (array + 8 * i) as u64, 8) {
            Err(e) => Err(e),
            Ok(b) => if util::le64(b, 0) == 0 {
                Ok(Seq::empty())
            } else {
                match uaccess::user_cstr(m, util::le64(b, 0) as int) {
                    Err(e) => Err(e),
                    Ok(s) => match user_strings(m, array, i + 1) {
                        Err(e) => Err(e),
                        Ok(rest) => Ok(seq![s] + rest),
                    },
                }
            },
        }
    }
}

/// Reads a zero-terminated array of pointers to strings from user memory. No array at all is an
/// empty one.
pub fn read_user_str_array(mem: &UserMemory, array_ptr: u64) -> (r: Result<Vec<Vec<u8>>, i64>)
    requires
        mem.wf(),
    ensures
        array_ptr == 0 ==> (r matches Ok(v) && v@.len() == 0),
        array_ptr != 0 ==> match user_strings(mem@, array_ptr as int, 0) {
            Ok(s) => r matches Ok(v) && path::views(v@) == s,
            Err(e) => r matches Err(e2) && e2 == e,
        },
        r matches Ok(v) ==> v@.len() <= MAX_STR_ARRAY,
{
    let mut out: Vec<Vec<u8>> = Vec::new();
    if array_ptr == 0 {
        return Ok(out);
    }
    let ghost whole = user_strings(mem@, array_ptr as int, 0);
    let mut i: usize = 0;
    proof {
        if let Ok(s) = whole {
            assert(path::views(out@) + s =~= s);
        }
    }
    while i < MAX_STR_ARRAY
        invariant
            mem.wf(),
            array_ptr != 0,
            whole == user_strings(mem@, array_ptr as int, 0),
            i <= MAX_STR_ARRAY,
            out@.len() == i,
            match user_strings(mem@, array_ptr as int, i as int) {
                Ok(rest) => whole == Ok::<Seq<Seq<u8>>, i64>(path::views(out@) + rest),
                Err(e) => whole == Err::<Seq<Seq<u8>>, i64>(e),
            },
        decreases MAX_STR_ARRAY - i,
    {
        let slot = match array_ptr.checked_add(8 * i as u64) {
            Some(s) => s,
            None => {
                return Err(abi::EFAULT);
            },
        };
        let b = match uaccess::with_user_bytes(mem, slot, 8) {
            Ok(b) => b,
            Err(e) => {
                return Err(e);
            },
        };
        let ptr = util::get_u64(b.as_slice(), 0);
        if ptr == 0 {
            assert(path::views(out@) + Seq::<Seq<u8>>::empty() =~= path::views(out@));
            return Ok(out);
        }
        let s = match uaccess::read_user_cstr(mem, ptr) {
            Ok(s) => s,
            Err(e) => {
                return Err(e);
            },
        };
        let ghost before = path::views(out@);
        let ghost sv = s@;
        out.push(s);
        proof {
            assert(path::views(out@) =~= before.push(sv));
            if let Ok(rest) = user_strings(mem@, array_ptr as int, i + 1) {
                assert(before + (seq![sv] + rest) =~= before.push(sv) + rest);
            }
        }
        i += 1;
    }
    Err(abi::E2BIG)
}


/// Word `i` of the bytes of `words`.
proof fn lemma_word_at(words: Seq<u64>, i: int)
    requires
        0 <= i < words.len(),
    ensures
        util::le64(words_bytes(words), 8 * i) == words[i],
    decreases words.len(),
{
    let init = words.drop_last();
    let b = words_bytes(words);
    lemma_words_len(words);
    lemma_words_len(init);
    if i == words.len() - 1 {
        let e = util::enc64(words.last());
        util::lemma_le64_enc64(words.last());
        assert(forall|j: int| 0 <= j < 8 ==> b[8 * i + j] == e[j]);
        assert(util::le32(b, 8 * i) == util::le32(e, 0));
        assert(util::le32(b, 8 * i + 4) == util::le32(e, 4));
    } else {
        lemma_word_at(init, i);
        let c = words_bytes(init);
        assert(forall|j: int| 0 <= j < c.len() ==> b[j] == c[j]);
        assert(util::le32(b, 8 * i) == util::le32(c, 8 * i));
        assert(util::le32(b, 8 * i + 4) == util::le32(c, 8 * i + 4));
    }
}

/// String `k` stands in the block of all strings where its address says.
proof fn lemma_string_in_block(strs: Seq<Seq<u8>>, k: int)
    requires
        0 <= k < strs.len(),
    ensures
        ({
            let off = string_block(strs).len() - string_block(strs.take(k + 1)).len();
            &&& 0 <= off
            &&& off + strs[k].len() + 1 <= string_block(strs).len()
            &&& string_block(strs).subrange(off, off + strs[k].len() + 1) == strs[k].push(0u8)
        }),
    decreases strs.len(),
{
    let block = string_block(strs);
    lemma_block_total(strs, k + 1);
    lemma_block_grows(strs, k);
    let off = block.len() - string_block(strs.take(k + 1)).len();
    let n = strs[k].len() + 1;
    if k == strs.len() - 1 {
        assert(strs.take(k + 1) =~= strs);
        assert(block.subrange(0, n as int) =~= strs[k].push(0u8));
    } else {
        let init = strs.drop_last();
        lemma_string_in_block(init, k);
        assert(init.take(k + 1) =~= strs.take(k + 1));
        let head = strs.last().push(0u8);
        let rest = string_block(init);
        assert(block =~= head + rest);
        assert(block.subrange(off, off + n) =~= rest.subrange(
            off - head.len(),
            off - head.len() + n,
        ));
    }
}

/// The words of a stack read back.
proof fn lemma_words_stand(w1: MemView, rsp: int, words: Seq<u64>, i: int)
    requires
        w1.wf(),
        0 <= rsp,
        w1.all_mapped(rsp, (8 * words.len()) as int),
        0 <= i < words.len(),
    ensures
        util::le64(
            w1.written(rsp, words_bytes(words)).bytes(rsp, 8 * words.len()),
            8 * i,
        ) == words[i],
{
    lemma_words_len(words);
    paging::lemma_bytes_written(w1, rsp, words_bytes(words));
    lemma_word_at(words, i);
}

/// The strings of a stack read back, whatever is written below them.
proof fn lemma_string_stands(
    m: MemView,
    strings: int,
    strs: Seq<Seq<u8>>,
    k: int,
    rsp: int,
    wb: Seq<u8>,
)
    requires
        m.wf(),
        0 <= rsp,
        rsp + wb.len() <= strings,
        m.all_mapped(strings, string_block(strs).len() as int),
        0 <= k < strs.len(),
    ensures
        m.written(strings, string_block(strs)).written(rsp, wb).bytes(
            string_addr(strs, k, strings + string_block(strs).len()),
            (strs[k].len() + 1) as nat,
        ) == strs[k].push(0u8),
{
    let block = string_block(strs);
    let w1 = m.written(strings, block);
    paging::lemma_written(m, strings, block);
    lemma_string_in_block(strs, k);
    let off = block.len() - string_block(strs.take(k + 1)).len();
    paging::lemma_bytes_written(m, strings, block);
    lemma_part_of_bytes(w1, strings, block, off, (strs[k].len() + 1) as nat);
    assert(w1.all_mapped(strings + off, (strs[k].len() + 1) as int)) by {
        assert forall|a: int|
            strings + off <= a < strings + off + strs[k].len() + 1 implies #[trigger] w1.mapped(
            a,
        ) by {
            assert(m.mapped(a));
        }
    }
    paging::lemma_bytes_apart(w1, rsp, wb, strings + off, (strs[k].len() + 1) as nat);
}

/// A stack that was built has the layout of the ABI: the stack pointer is a multiple of 16, the
/// words stand from it upwards, and each argument and each string of the environment, if there are
/// any, stands, with a zero behind it, at the address that its word holds.
#[verifier::spinoff_prover]
#[verifier::rlimit(40)]
pub proof fn law_user_stack_layout(
    m: MemView,
    top: u64,
    floor: u64,
    argv: Seq<Seq<u8>>,
    envp: Seq<Seq<u8>>,
    i: int,
    k: int,
)
    requires
        m.wf(),
        floor <= top,
        m.all_mapped(floor as int, top - floor),
        stack_built(m, top, floor, argv, envp) is Some,
    ensures
        ({
            let (rsp, m2) = stack_built(m, top, floor, argv, envp)->0;
            let strs = argv + envp;
            let n = argv.len() as int;
            let words = stack_words(
                string_addrs(strs, 0, n, top as int),
                string_addrs(strs, n, strs.len() as int, top as int),
            );
            &&& rsp % 16 == 0
            &&& floor <= rsp
            &&& 0 <= i < words.len() ==> util::le64(
                m2.bytes(rsp as int, 8 * words.len()),
                8 * i,
            ) == words[i]
            &&& words[0] == argv.len() as u64
            &&& 0 <= k < strs.len() ==> m2.bytes(
                string_addr(strs, k, top as int),
                (strs[k].len() + 1) as nat,
            ) == strs[k].push(0u8)
        }),
{
    let strs = argv + envp;
    let block = string_block(strs);
    let strings = top - block.len();
    let base = strings - strings % 16;
    let n = argv.len() as int;
    let words = stack_words(
        string_addrs(strs, 0, n, top as int),
        string_addrs(strs, n, strs.len() as int, top as int),
    );
    let rsp = base - 8 * words.len();
    let w1 = m.written(strings, block);
    let wb = words_bytes(words);
    assert(words.len() % 2 == 0 && words[0] == argv.len() as u64) by {
        lemma_stack_words(
            string_addrs(strs, 0, n, top as int),
            string_addrs(strs, n, strs.len() as int, top as int),
        );
    }
    assert(rsp % 16 == 0);
    assert(wb.len() == 8 * words.len()) by {
        lemma_words_len(words);
    }
    assert(m.all_mapped(strings, block.len() as int));
    if 0 <= k < strs.len() {
        assert(w1.written(rsp, wb).bytes(
            string_addr(strs, k, top as int),
            (strs[k].len() + 1) as nat,
        ) == strs[k].push(0u8)) by {
            lemma_string_stands(m, strings, strs, k, rsp, wb);
        }
    }
    if 0 <= i < words.len() {
        assert(w1.wf() && w1.all_mapped(rsp, (8 * words.len()) as int)) by {
            paging::lemma_written(m, strings, block);
            assert forall|a: int| rsp <= a < rsp + 8 * words.len() implies #[trigger] w1.mapped(
                a,
            ) by {
                assert(m.mapped(a));
            }
        }
        lemma_words_stand(w1, rsp, words, i);
    }
}

/// The words of a stack are even in number, and the first is the number of arguments.
proof fn lemma_stack_words(args: Seq<u64>, envs: Seq<u64>)
    ensures
        stack_words(args, envs).len() % 2 == 0,
        stack_words(args, envs)[0] == args.len() as u64,
{
}

/// A part of a range.
proof fn lemma_part_of_bytes(m: MemView, start: int, data: Seq<u8>, off: int, len: nat)
    requires
        m.bytes(start, data.len()) == data,
        0 <= off,
        off + len <= data.len(),
    ensures
        m.bytes(start + off, len) == data.subrange(off, off + len),
{
    let got = m.bytes(start + off, len);
    assert forall|j: int| 0 <= j < len implies #[trigger] got[j] == data[off + j] by {
        assert(m.bytes(start, data.len())[off + j] == m.byte(start + (off + j)));
    }
    assert(got =~= data.subrange(off, off + len));
}

/// A stack lies where it was built: what lies below or above stays, byte by byte, and so do all
/// permissions.
pub proof fn lemma_stack_in_page(
    m: MemView,
    top: u64,
    floor: u64,
    argv: Seq<Seq<u8>>,
    envp: Seq<Seq<u8>>,
)
    requires
        floor <= top,
        stack_built(m, top, floor, argv, envp) is Some,
    ensures
        ({
            let (rsp, m2) = stack_built(m, top, floor, argv, envp)->0;
            &&& floor <= rsp < top
            &&& rsp % 16 == 0
            &&& m2.pages.dom() == m.pages.dom()
            &&& forall|p: u64|
                m.pages.dom().contains(p) ==> (#[trigger] m2.pages[p]).user == m.pages[p].user
                    && m2.pages[p].writable == m.pages[p].writable && m2.pages[p].data.len()
                    == m.pages[p].data.len()
            &&& forall|p: u64, i: int|
                m.pages.dom().contains(p) && 0 <= i < m.pages[p].data.len() && !(floor <= p + i < top)
                    ==> #[trigger] m2.pages[p].data[i] == m.pages[p].data[i]
        }),
{
    let strs = argv + envp;
    let block = string_block(strs);
    let strings = top - block.len();
    let base = strings - strings % 16;
    let n = argv.len() as int;
    let words = stack_words(
        string_addrs(strs, 0, n, top as int),
        string_addrs(strs, n, strs.len() as int, top as int),
    );
    let rsp = base - 8 * words.len();
    lemma_words_len(words);
    assert(words.len() % 2 == 0 && words.len() > 0);
    assert(rsp % 16 == 0);
    let (_, m2) = stack_built(m, top, floor, argv, envp)->0;
    assert(m2.pages.dom() =~= m.pages.dom());
}

/// The word at address `a`, low byte first.
#[verifier::opaque]
pub open spec fn word_at(m: MemView, a: int) -> u64 {
    util::le64(m.bytes(a, 8), 0)
}

/// A word in the middle of bytes.
proof fn lemma_word_within(m: MemView, start: int, len: nat, off: int)
    requires
        0 <= off,
        off + 8 <= len,
    ensures
        word_at(m, start + off) == util::le64(m.bytes(start, len), off),
{
    reveal(word_at);
    let a = m.bytes(start + off, 8);
    let b = m.bytes(start, len);
    assert forall|i: int| 0 <= i < 8 implies #[trigger] a[i] == b[off + i] by {}
    assert(a[0] == b[off + 0] && a[1] == b[off + 1] && a[2] == b[off + 2] && a[3] == b[off + 3]);
    assert(a[4] == b[off + 4] && a[5] == b[off + 5] && a[6] == b[off + 6] && a[7] == b[off + 7]);
}

/// What a program finds on its stack: at the stack pointer the number of its arguments, then for
/// each of them the address of a string that holds it, then a zero; then the same for the strings
/// of its environment, and a zero. Behind that stand two words of zeros, which end the list of what
/// else it could be told.
pub proof fn law_program_finds_its_arguments(
    m: MemView,
    top: u64,
    floor: u64,
    argv: Seq<Seq<u8>>,
    envp: Seq<Seq<u8>>,
    i: int,
)
    requires
        m.wf(),
        floor <= top,
        m.all_mapped(floor as int, top - floor),
        stack_built(m, top, floor, argv, envp) is Some,
    ensures
        ({
            let (rsp, m2) = stack_built(m, top, floor, argv, envp)->0;
            let n = argv.len() as int;
            let e = envp.len() as int;
            &&& rsp % 16 == 0
            &&& word_at(m2, rsp as int) == n
            &&& 0 <= i < n ==> m2.bytes(
                word_at(m2, rsp + 8 + 8 * i) as int,
                (argv[i].len() + 1) as nat,
            ) == argv[i].push(0)
            &&& word_at(m2, rsp + 8 + 8 * n) == 0
            &&& 0 <= i < e ==> m2.bytes(
                word_at(m2, rsp + 16 + 8 * n + 8 * i) as int,
                (envp[i].len() + 1) as nat,
            ) == envp[i].push(0)
            &&& word_at(m2, rsp + 16 + 8 * n + 8 * e) == 0
            &&& word_at(m2, rsp + 24 + 8 * n + 8 * e) == 0
            &&& word_at(m2, rsp + 32 + 8 * n + 8 * e) == 0
        }),
{
    let (rsp, m2) = stack_built(m, top, floor, argv, envp)->0;
    let strs = argv + envp;
    let n = argv.len() as int;
    let e = envp.len() as int;
    lemma_stack_in_page(m, top, floor, argv, envp);
    lemma_word_stands(m, top, floor, argv, envp, 0);
    lemma_word_stands(m, top, floor, argv, envp, n + 1);
    lemma_word_stands(m, top, floor, argv, envp, n + e + 2);
    lemma_word_stands(m, top, floor, argv, envp, n + e + 3);
    lemma_word_stands(m, top, floor, argv, envp, n + e + 4);
    lemma_words_are(strs, n, top as int, i);
    if 0 <= i < n {
        lemma_word_stands(m, top, floor, argv, envp, 1 + i);
        lemma_string_found(m, top, floor, argv, envp, i);
        assert(strs[i] == argv[i]);
    }
    if 0 <= i < e {
        lemma_word_stands(m, top, floor, argv, envp, n + 2 + i);
        lemma_string_found(m, top, floor, argv, envp, n + i);
        assert(strs[n + i] == envp[i]);
    }
}

/// The words of a stack one by one.
proof fn lemma_words_are(strs: Seq<Seq<u8>>, n: int, top: int, i: int)
    requires
        0 <= n <= strs.len(),
    ensures
        ({
            let e = strs.len() - n;
            let words = stack_words(
                string_addrs(strs, 0, n, top),
                string_addrs(strs, n, strs.len() as int, top),
            );
            &&& words.len() >= n + e + 5
            &&& words[0] == n as u64
            &&& 0 <= i < n ==> words[1 + i] == string_addr(strs, i, top) as u64
            &&& words[n + 1] == 0
            &&& 0 <= i < e ==> words[n + 2 + i] == string_addr(strs, n + i, top) as u64
            &&& words[n + e + 2] == 0 && words[n + e + 3] == 0 && words[n + e + 4] == 0
        }),
{
    let e = strs.len() - n;
    let args = string_addrs(strs, 0, n, top);
    let envs = string_addrs(strs, n, strs.len() as int, top);
    let base = seq![args.len() as u64] + args + seq![0u64] + envs + seq![0u64, 0u64, 0u64];
    let words = stack_words(args, envs);
    assert(base.len() == n + e + 5);
    assert forall|j: int| 0 <= j < base.len() implies #[trigger] words[j] == base[j] by {}
    if 0 <= i < n {
        assert(base[1 + i] == args[i]);
    }
    assert(base[n + 1] == 0);
    if 0 <= i < e {
        assert(base[n + 2 + i] == envs[i]);
    }
}

proof fn lemma_word_stands(
    m: MemView,
    top: u64,
    floor: u64,
    argv: Seq<Seq<u8>>,
    envp: Seq<Seq<u8>>,
    w: int,
)
    requires
        m.wf(),
        floor <= top,
        m.all_mapped(floor as int, top - floor),
        stack_built(m, top, floor, argv, envp) is Some,
        0 <= w < argv.len() + envp.len() + 5,
    ensures
        ({
            let (rsp, m2) = stack_built(m, top, floor, argv, envp)->0;
            let strs = argv + envp;
            let n = argv.len() as int;
            let words = stack_words(
                string_addrs(strs, 0, n, top as int),
                string_addrs(strs, n, strs.len() as int, top as int),
            );
            &&& w < words.len()
            &&& word_at(m2, rsp + 8 * w) == words[w]
        }),
{
    let (rsp, m2) = stack_built(m, top, floor, argv, envp)->0;
    let strs = argv + envp;
    let n = argv.len() as int;
    let words = stack_words(
        string_addrs(strs, 0, n, top as int),
        string_addrs(strs, n, strs.len() as int, top as int),
    );
    law_user_stack_layout(m, top, floor, argv, envp, w, 0);
    lemma_word_within(m2, rsp as int, 8 * words.len(), 8 * w);
}

proof fn lemma_string_found(
    m: MemView,
    top: u64,
    floor: u64,
    argv: Seq<Seq<u8>>,
    envp: Seq<Seq<u8>>,
    k: int,
)
    requires
        m.wf(),
        floor <= top,
        m.all_mapped(floor as int, top - floor),
        stack_built(m, top, floor, argv, envp) is Some,
        0 <= k < argv.len() + envp.len(),
    ensures
        ({
            let (rsp, m2) = stack_built(m, top, floor, argv, envp)->0;
            let strs = argv + envp;
            let at = string_addr(strs, k, top as int);
            &&& 0 <= at <= u64::MAX
            &&& m2.bytes(at, (strs[k].len() + 1) as nat) == strs[k].push(0u8)
        }),
{
    let strs = argv + envp;
    law_user_stack_layout(m, top, floor, argv, envp, 0, k);
    lemma_block_total(strs, k + 1);
    assert(string_block(strs.take(k + 1)).len() <= string_block(strs).len());
}

/// Word `j` of an array points at the string `strs[j]`.
pub open spec fn points_at_string(m: MemView, array: int, strs: Seq<Seq<u8>>, j: int) -> bool {
    let w = word_at(m, array + 8 * j);
    w != 0 && uaccess::user_cstr(m, w as int) == Ok::<Seq<u8>, i64>(strs[j])
}

/// The strings of an array are those that its words point at, up to a zero: 127 at most.
pub proof fn law_strings_are_those_pointed_at(m: MemView, array: u64, strs: Seq<Seq<u8>>, i: int)
    requires
        0 <= i <= strs.len() < 128,
        array + 8 * strs.len() + 8 <= 0x8000_0000_0000,
        forall|a: int| array <= a < array + 8 * strs.len() + 8 ==> #[trigger] m.user_ok(a, false),
        word_at(m, (array + 8 * strs.len()) as int) == 0,
        forall|j: int| 0 <= j < strs.len() ==> #[trigger] points_at_string(m, array as int, strs, j),
    ensures
        user_strings(m, array as int, i) == Ok::<Seq<Seq<u8>>, i64>(strs.skip(i)),
    decreases strs.len() - i,
{
    let at = (array + 8 * i) as u64;
    assert forall|a: int| at <= a < at + 8 implies #[trigger] m.user_ok(a, false) by {}
    lemma_strings_step(m, array as int, i);
    if i < strs.len() {
        law_strings_are_those_pointed_at(m, array, strs, i + 1);
        assert(points_at_string(m, array as int, strs, i));
        assert(seq![strs[i]] + strs.skip(i + 1) =~= strs.skip(i));
    } else {
        assert(strs.skip(i) =~= Seq::empty());
    }
}

/// One word of an array of strings.
proof fn lemma_strings_step(m: MemView, array: int, i: int)
    requires
        0 <= i < 128,
        0 <= array,
        array + 8 * i + 8 <= 0x8000_0000_0000,
        forall|a: int| array + 8 * i <= a < array + 8 * i + 8 ==> #[trigger] m.user_ok(a, false),
    ensures
        ({
            let w = word_at(m, array + 8 * i);
            &&& w == 0 ==> user_strings(m, array, i) == Ok::<Seq<Seq<u8>>, i64>(Seq::empty())
            &&& w != 0 ==> user_strings(m, array, i) == (match uaccess::user_cstr(m, w as int) {
                Err(e) => Err(e),
                Ok(s) => match user_strings(m, array, i + 1) {
                    Err(e) => Err(e),
                    Ok(rest) => Ok(seq![s] + rest),
                },
            })
        }),
{
    let at = (array + 8 * i) as u64;
    let b = m.bytes(at as int, 8);
    assert(uaccess::user_bytes(m, at, 8) == Ok::<Seq<u8>, i64>(b));
    assert(util::le64(b, 0) == word_at(m, array + 8 * i)) by {
        reveal(word_at);
    }
}

/// No string is longer than the longest.
proof fn lemma_block_bound(strs: Seq<Seq<u8>>, longest: nat)
    requires
        forall|i: int| 0 <= i < strs.len() ==> (#[trigger] strs[i]).len() <= longest,
    ensures
        string_block(strs).len() <= strs.len() * (longest + 1),
    decreases strs.len(),
{
    if strs.len() > 0 {
        let rest = strs.drop_last();
        lemma_block_bound(rest, longest);
        assert(strs.last().len() <= longest);
        assert(strs.len() * (longest + 1) == rest.len() * (longest + 1) + (longest + 1))
            by (nonlinear_arith)
            requires
                strs.len() == rest.len() + 1,
        ;
    } else {
        assert(0 * (longest + 1) == 0);
    }
}

/// A stack is built wherever there is room for it: for each string its bytes and a zero, a word for
/// each string, six words more, and what it takes to start at a multiple of sixteen.
pub proof fn law_stack_is_built_where_it_fits(
    m: MemView,
    top: u64,
    floor: u64,
    argv: Seq<Seq<u8>>,
    envp: Seq<Seq<u8>>,
    longest: nat,
)
    requires
        forall|i: int| 0 <= i < argv.len() ==> (#[trigger] argv[i]).len() <= longest,
        forall|i: int| 0 <= i < envp.len() ==> (#[trigger] envp[i]).len() <= longest,
        floor + (argv.len() + envp.len()) * (longest + 1) + 8 * (argv.len() + envp.len() + 6) + 15
            <= top,
    ensures
        stack_built(m, top, floor, argv, envp) is Some,
{
    let strs = argv + envp;
    assert forall|i: int| 0 <= i < strs.len() implies (#[trigger] strs[i]).len() <= longest by {
        if i >= argv.len() {
            assert(strs[i] == envp[i - argv.len()]);
        } else {
            assert(strs[i] == argv[i]);
        }
    }
    lemma_block_bound(strs, longest);
    assert(strs.len() == argv.len() + envp.len());
}

} // verus!
