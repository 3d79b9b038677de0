//! Address spaces of processes.
//!
//! Every process has a root page table (PML4) of its own in which the memory of the kernel is
//! shared: a new root is a copy of the root of the kernel, and user pages go to slots that are
//! empty there, so that they form private subtrees. Tearing an address space down frees these
//! subtrees and the root, and nothing that is shared.

use crate::mm::frame::{BootInfoFrameAllocator, FramesView, FREE_LIST_END};
use std::collections::BTreeMap;
use vstd::prelude::*;

verus! {

/// Entries in a page table.
pub const ENTRY_COUNT: usize = 512;

/// Bit of a page table entry: it is in use.
pub const PRESENT: u64 = 0x1;

/// Bit of a page table entry: the page may be written to.
pub const WRITABLE: u64 = 0x2;

/// Bit of a page table entry: user mode may access the page.
pub const USER_ACCESSIBLE: u64 = 0x4;

/// Bit of a page table entry: it maps a large page.
pub const HUGE_PAGE: u64 = 0x80;

/// The bits of a page table entry that hold an address.
pub const ADDRESS_MASK: u64 = 0x000f_ffff_ffff_f000;

/// Whether an entry is in use.
pub open spec fn present(entry: u64) -> bool {
    entry & PRESENT != 0
}

/// The frame that an entry points to, unless it is not in use or maps a large page.
pub open spec fn entry_frame(entry: u64) -> Option<u64> {
    if entry & PRESENT != 0 && entry & HUGE_PAGE == 0 {
        Some(entry & ADDRESS_MASK)
    } else {
        None
    }
}

/// Page tables in memory: what the table in each frame holds.
pub struct PageTables {
    pub tables: BTreeMap<u64, Vec<u64>>,
}

impl View for PageTables {
    type V = Map<u64, Seq<u64>>;

    open spec fn view(&self) -> Map<u64, Seq<u64>> {
        self.tables@.map_values(|t: Vec<u64>| t@)
    }
}

impl PageTables {
    /// Every table has its 512 entries.
    pub open spec fn wf(&self) -> bool {
        forall|f: u64| self@.dom().contains(f) ==> (#[trigger] self@[f]).len() == ENTRY_COUNT
    }

    /// No tables.
    pub fn new() -> (t: PageTables)
        ensures
            t.wf(),
            t@ == Map::<u64, Seq<u64>>::empty(),
    {
        let t = PageTables { tables: BTreeMap::new() };
        assert(t@ =~= Map::<u64, Seq<u64>>::empty());
        t
    }

    /// Puts a table into a frame.
    pub fn put(&mut self, frame: u64, table: Vec<u64>)
        requires
            old(self).wf(),
            table@.len() == ENTRY_COUNT,
        ensures
            final(self).wf(),
            final(self)@ == old(self)@.insert(frame, table@),
    {
        self.tables.insert(frame, table);
        assert(self@ =~= old(self)@.insert(frame, table@));
        assert forall|f: u64| self@.dom().contains(f) implies (#[trigger] self@[f]).len()
            == ENTRY_COUNT by {
            if f != frame {
                assert(old(self)@[f].len() == ENTRY_COUNT);
            }
        }
    }

    /// Entry `i` of the table in `frame`.
    pub fn entry(&self, frame: u64, i: usize) -> (e: u64)
        requires
            self.wf(),
            self@.dom().contains(frame),
            i < ENTRY_COUNT,
        ensures
            e == self@[frame][i as int],
    {
        assert(self@[frame].len() == ENTRY_COUNT);
        match self.tables.get(&frame) {
            Some(t) => t[i],
            None => 0,
        }
    }
}

/// The frames that are freed for one entry of a table of the given level.
pub open spec fn entry_freed(m: Map<u64, Seq<u64>>, entry: u64, level: nat) -> Seq<u64>
    decreases level, 0nat,
{
    match entry_frame(entry) {
        None => Seq::empty(),
        Some(f) => if level <= 1 {
            seq![f]
        } else {
            subtree_freed(m, f, (level - 1) as nat)
        },
    }
}

/// The frames that are freed for the first `n` entries of the table in `frame`.
pub open spec fn entries_freed(m: Map<u64, Seq<u64>>, frame: u64, level: nat, n: nat) -> Seq<u64>
    decreases level, 1nat, n,
{
    if n == 0 {
        Seq::empty()
    } else {
        entries_freed(m, frame, level, (n - 1) as nat) + entry_freed(m, m[frame][n - 1], level)
    }
}

/// The frames that are freed for the whole tree under the table in `frame`, that frame last.
pub open spec fn subtree_freed(m: Map<u64, Seq<u64>>, frame: u64, level: nat) -> Seq<u64>
    decreases level, 2nat,
{
    entries_freed(m, frame, level, 512).push(frame)
}

/// Whether an entry of a root is the one of the kernel: in use in both, with the same table.
pub open spec fn shared(entry: u64, kernel_entry: u64) -> bool {
    present(kernel_entry) && kernel_entry & ADDRESS_MASK == entry & ADDRESS_MASK
}

/// The frames that are freed for the first `n` entries of the root `pml4`: those of the private
/// subtrees.
pub open spec fn private_freed(m: Map<u64, Seq<u64>>, pml4: u64, kernel: u64, n: nat) -> Seq<u64>
    decreases n,
{
    if n == 0 {
        Seq::empty()
    } else {
        let before = private_freed(m, pml4, kernel, (n - 1) as nat);
        let e = m[pml4][n - 1];
        match entry_frame(e) {
            Some(l3) => if shared(e, m[kernel][n - 1]) {
                before
            } else {
                before + subtree_freed(m, l3, 3)
            },
            None => before,
        }
    }
}

/// The frames that are freed with the address space of root `pml4`, in their order.
pub open spec fn space_freed(m: Map<u64, Seq<u64>>, pml4: u64, kernel: u64) -> Seq<u64> {
    private_freed(m, pml4, kernel, 512).push(pml4)
}

/// The tree under the table in `frame` is made of user pages: the tables are there, none maps a
/// large page, and the pages at the leaves are accessible to user mode.
pub open spec fn user_tree(m: Map<u64, Seq<u64>>, frame: u64, level: nat) -> bool
    decreases level,
{
    &&& frame != FREE_LIST_END
    &&& m.dom().contains(frame)
    &&& m[frame].len() == ENTRY_COUNT
    &&& forall|i: int|
        0 <= i < ENTRY_COUNT && present(#[trigger] m[frame][i]) ==> if level <= 1 {
            &&& m[frame][i] & USER_ACCESSIBLE != 0
            &&& entry_frame(m[frame][i]) != Some(FREE_LIST_END)
        } else {
            &&& m[frame][i] & HUGE_PAGE == 0
            &&& user_tree(m, m[frame][i] & ADDRESS_MASK, (level - 1) as nat)
        }
}

/// The private subtrees of root `pml4` are trees of user pages.
pub open spec fn private_trees(m: Map<u64, Seq<u64>>, pml4: u64, kernel: u64) -> bool {
    &&& pml4 != FREE_LIST_END
    &&& pml4 != kernel
    &&& m.dom().contains(pml4)
    &&& m.dom().contains(kernel)
    &&& forall|i: int|
        0 <= i < ENTRY_COUNT && !shared(#[trigger] m[pml4][i], m[kernel][i]) ==> (entry_frame(
            m[pml4][i],
        ) matches Some(l3) ==> user_tree(m, l3, 3))
}

/// The address space of a process: its root page table.
#[derive(Debug, Clone, Copy)]
pub struct AddressSpace {
    pub pml4_frame: u64,
}

impl AddressSpace {
    /// A new address space that shares all memory of the kernel: a fresh root that holds the
    /// entries of `kernel_pml4`. A frame has to be available.
    pub fn new_sharing_kernel(
        tables: &mut PageTables,
        kernel_pml4: u64,
        frame_allocator: &mut BootInfoFrameAllocator,
    ) -> (space: AddressSpace)
        requires
            old(tables).wf(),
            old(frame_allocator).wf(),
            old(tables)@.dom().contains(kernel_pml4),
            old(frame_allocator)@.taken().1 matches Some(f) && f != kernel_pml4,
        ensures
            final(tables).wf(),
            final(frame_allocator).wf(),
            old(frame_allocator)@.taken() == (final(frame_allocator)@, Some(space.pml4_frame)),
            final(tables)@ == old(tables)@.insert(
                space.pml4_frame,
                old(tables)@[kernel_pml4],
            ),
    {
        let frame = match frame_allocator.allocate_frame() {
            Some(f) => f,
            None => 0,
        };
        let mut root: Vec<u64> = Vec::new();
        let mut i: usize = 0;
        assert(tables@[kernel_pml4].len() == ENTRY_COUNT);
        while i < ENTRY_COUNT
            invariant
                tables.wf(),
                *tables == *old(tables),
                tables@.dom().contains(kernel_pml4),
                i <= ENTRY_COUNT,
                tables@[kernel_pml4].len() == ENTRY_COUNT,
                root@ =~= tables@[kernel_pml4].take(i as int),
            decreases ENTRY_COUNT - i,
        {
            root.push(tables.entry(kernel_pml4, i));
            i += 1;
        }
        assert(root@ =~= tables@[kernel_pml4]);
        tables.put(frame, root);
        AddressSpace { pml4_frame: frame }
    }

    /// The frame of the root, to be loaded when the address space is entered.
    pub fn pml4_frame(&self) -> (f: u64)
        ensures
            f == self.pml4_frame,
    {
        self.pml4_frame
    }

    /// The address space whose root is in `frame`.
    pub fn from_pml4_frame(frame: u64) -> (space: AddressSpace)
        ensures
            space.pml4_frame == frame,
    {
        AddressSpace { pml4_frame: frame }
    }

    /// Frees the private subtrees of an address space that is not in use, and its root. What is
    /// shared with the kernel, whose root is in `kernel_frame`, is left alone.
    pub fn destroy(
        self,
        tables: &PageTables,
        kernel_frame: u64,
        fa: &mut BootInfoFrameAllocator,
    )
        requires
            tables.wf(),
            old(fa).wf(),
            private_trees(tables@, self.pml4_frame, kernel_frame),
        ensures
            final(fa).wf(),
            final(fa)@ == (FramesView {
                free: old(fa)@.free + space_freed(tables@, self.pml4_frame, kernel_frame),
                ..old(fa)@
            }),
    {
        let ghost m = tables@;
        let ghost free0 = fa@.free;
        let pml4 = self.pml4_frame;
        let mut i: usize = 0;
        assert(fa@.free =~= free0 + private_freed(m, pml4, kernel_frame, 0));
        while i < ENTRY_COUNT
            invariant
                tables.wf(),
                m == tables@,
                fa.wf(),
                private_trees(m, pml4, kernel_frame),
                i <= ENTRY_COUNT,
                fa@ == (FramesView {
                    free: free0 + private_freed(m, pml4, kernel_frame, i as nat),
                    ..old(fa)@
                }),
            decreases ENTRY_COUNT - i,
        {
            let e = tables.entry(pml4, i);
            let k = tables.entry(kernel_frame, i);
            let is_shared = k & PRESENT != 0 && k & ADDRESS_MASK == e & ADDRESS_MASK;
            if e & PRESENT != 0 && !is_shared && e & HUGE_PAGE == 0 {
                let ghost before = private_freed(m, pml4, kernel_frame, i as nat);
                let ghost more = subtree_freed(m, e & ADDRESS_MASK, 3);
                free_subtree(tables, e & ADDRESS_MASK, 3, fa);
                assert((free0 + before) + more =~= free0 + (before + more));
            }
            i += 1;
        }
        let ghost before = private_freed(m, pml4, kernel_frame, 512);
        fa.deallocate_frame(pml4);
        assert((free0 + before).push(pml4) =~= free0 + before.push(pml4));
        assert(fa@ =~= (FramesView {
            free: free0 + space_freed(m, pml4, kernel_frame),
            ..old(fa)@
        }));
    }
}

/// Frees the tree under the table in `frame`, from the leaves up.
fn free_subtree(tables: &PageTables, frame: u64, level: u8, fa: &mut BootInfoFrameAllocator)
    requires
        tables.wf(),
        old(fa).wf(),
        1 <= level,
        user_tree(tables@, frame, level as nat),
    ensures
        final(fa).wf(),
        final(fa)@ == (FramesView {
            free: old(fa)@.free + subtree_freed(tables@, frame, level as nat),
            ..old(fa)@
        }),
    decreases level,
{
    let ghost m = tables@;
    let ghost free0 = fa@.free;
    let mut i: usize = 0;
    assert(fa@.free =~= free0 + entries_freed(m, frame, level as nat, 0));
    while i < ENTRY_COUNT
        invariant
            tables.wf(),
            m == tables@,
            fa.wf(),
            1 <= level,
            user_tree(m, frame, level as nat),
            i <= ENTRY_COUNT,
            fa@ == (FramesView {
                free: free0 + entries_freed(m, frame, level as nat, i as nat),
                ..old(fa)@
            }),
        decreases ENTRY_COUNT - i,
    {
        let e = tables.entry(frame, i);
        let ghost before = entries_freed(m, frame, level as nat, i as nat);
        let ghost more = entry_freed(m, e, level as nat);
        if e & PRESENT != 0 && e & HUGE_PAGE == 0 {
            let child = e & ADDRESS_MASK;
            assert(present(m[frame][i as int]));
            if level == 1 {
                fa.deallocate_frame(child);
                assert((free0 + before).push(child) =~= free0 + (before + seq![child]));
            } else {
                free_subtree(tables, child, level - 1, fa);
                assert((free0 + before) + more =~= free0 + (before + more));
            }
        } else {
            assert(before + more =~= before);
        }
        i += 1;
    }
    let ghost before = entries_freed(m, frame, level as nat, 512);
    fa.deallocate_frame(frame);
    assert((free0 + before).push(frame) =~= free0 + before.push(frame));
}

/// An address space that was just made shares everything: its teardown frees its root and no
/// other frame.
pub proof fn law_fresh_space_frees_its_root_only(m: Map<u64, Seq<u64>>, kernel: u64, pml4: u64)
    requires
        m.dom().contains(kernel),
        m[kernel].len() == ENTRY_COUNT,
        pml4 != kernel,
    ensures
        space_freed(m.insert(pml4, m[kernel]), pml4, kernel) == seq![pml4],
{
    let m2 = m.insert(pml4, m[kernel]);
    lemma_all_shared(m2, pml4, kernel, 512);
    assert(Seq::<u64>::empty().push(pml4) =~= seq![pml4]);
}

proof fn lemma_all_shared(m: Map<u64, Seq<u64>>, pml4: u64, kernel: u64, n: nat)
    requires
        m[pml4] == m[kernel],
    ensures
        private_freed(m, pml4, kernel, n) == Seq::<u64>::empty(),
    decreases n,
{
    if n > 0 {
        lemma_all_shared(m, pml4, kernel, (n - 1) as nat);
    }
}

/// Teardown does not depend on what the kernel's own tables hold below the shared entries: a
/// change of a table that no private subtree contains changes nothing that is freed.
pub proof fn law_shared_tables_are_left_alone(
    m: Map<u64, Seq<u64>>,
    pml4: u64,
    kernel: u64,
    other: u64,
    table: Seq<u64>,
)
    requires
        other != pml4,
        other != kernel,
        forall|i: int|
            0 <= i < ENTRY_COUNT && !shared(#[trigger] m[pml4][i], m[kernel][i]) ==> (entry_frame(
                m[pml4][i],
            ) matches Some(l3) ==> tree_avoids(m, l3, 3, other)),
    ensures
        space_freed(m.insert(other, table), pml4, kernel) == space_freed(m, pml4, kernel),
{
    lemma_private_avoids(m, pml4, kernel, other, table, 512);
}

/// No table of the tree under the table in `frame` is in the frame `other`.
pub open spec fn tree_avoids(m: Map<u64, Seq<u64>>, frame: u64, level: nat, other: u64) -> bool
    decreases level,
{
    &&& frame != other
    &&& level > 1 ==> forall|i: int|
        0 <= i < ENTRY_COUNT ==> (entry_frame(#[trigger] m[frame][i]) matches Some(c)
            ==> tree_avoids(m, c, (level - 1) as nat, other))
}

proof fn lemma_private_avoids(
    m: Map<u64, Seq<u64>>,
    pml4: u64,
    kernel: u64,
    other: u64,
    table: Seq<u64>,
    n: nat,
)
    requires
        n <= 512,
        other != pml4,
        other != kernel,
        forall|i: int|
            0 <= i < ENTRY_COUNT && !shared(#[trigger] m[pml4][i], m[kernel][i]) ==> (entry_frame(
                m[pml4][i],
            ) matches Some(l3) ==> tree_avoids(m, l3, 3, other)),
    ensures
        private_freed(m.insert(other, table), pml4, kernel, n) == private_freed(m, pml4, kernel, n),
    decreases n,
{
    if n > 0 {
        lemma_private_avoids(m, pml4, kernel, other, table, (n - 1) as nat);
        let e = m[pml4][n - 1];
        if let Some(l3) = entry_frame(e) {
            if !shared(e, m[kernel][n - 1]) {
                lemma_subtree_avoids(m, l3, 3, other, table);
            }
        }
    }
}

proof fn lemma_subtree_avoids(
    m: Map<u64, Seq<u64>>,
    frame: u64,
    level: nat,
    other: u64,
    table: Seq<u64>,
)
    requires
        tree_avoids(m, frame, level, other),
    ensures
        subtree_freed(m.insert(other, table), frame, level) == subtree_freed(m, frame, level),
    decreases level, 2nat, 0nat,
{
    lemma_entries_avoid(m, frame, level, other, table, 512);
}

proof fn lemma_entries_avoid(
    m: Map<u64, Seq<u64>>,
    frame: u64,
    level: nat,
    other: u64,
    table: Seq<u64>,
    n: nat,
)
    requires
        n <= 512,
        tree_avoids(m, frame, level, other),
    ensures
        entries_freed(m.insert(other, table), frame, level, n) == entries_freed(m, frame, level, n),
    decreases level, 1nat, n,
{
    if n > 0 {
        lemma_entries_avoid(m, frame, level, other, table, (n - 1) as nat);
        let e = m[frame][n - 1];
        if let Some(c) = entry_frame(e) {
            if level > 1 {
                lemma_subtree_avoids(m, c, (level - 1) as nat, other, table);
            }
        }
        let m2 = m.insert(other, table);
        assert(m2[frame] == m[frame]);
        assert(entry_freed(m2, e, level) == entry_freed(m, e, level));
        assert(entries_freed(m, frame, level, n) == entries_freed(m, frame, level, (n - 1) as nat)
            + entry_freed(m, e, level));
        assert(entries_freed(m2, frame, level, n) == entries_freed(m2, frame, level, (n - 1) as nat)
            + entry_freed(m2, e, level));
    }
}

/// An entry of a page table leads on where its lowest bit is set and its eighth is not: to the frame
/// whose number stands in bits 12 to 51.
pub proof fn law_entry_leads_to_its_frame(e: u64)
    ensures
        e % 2 == 1 && e / 128 % 2 == 0 ==> entry_frame(e) == Some(
            (e % 0x10_0000_0000_0000 - e % 4096) as u64,
        ),
        e % 2 == 0 || e / 128 % 2 == 1 ==> entry_frame(e) is None,
{
    assert((e & 1u64 != 0) == (e % 2 == 1)) by (bit_vector);
    assert((e & 0x80u64 == 0) == (e / 128 % 2 == 0)) by (bit_vector);
    assert((e & 0x000F_FFFF_FFFF_F000u64) + e % 4096 == e % 0x10_0000_0000_0000) by (bit_vector);
}

/// What is freed for one of the entries of a table is freed for all of them.
proof fn lemma_entry_among(m: Map<u64, Seq<u64>>, frame: u64, level: nat, n: nat, i: int, f: u64)
    requires
        0 <= i < n,
        entry_freed(m, m[frame][i], level).contains(f),
    ensures
        entries_freed(m, frame, level, n).contains(f),
    decreases n,
{
    let before = entries_freed(m, frame, level, (n - 1) as nat);
    let here = entry_freed(m, m[frame][n - 1], level);
    if i < n - 1 {
        lemma_entry_among(m, frame, level, (n - 1) as nat, i, f);
        let k = choose|k: int| 0 <= k < before.len() && before[k] == f;
        assert((before + here)[k] == f);
    } else {
        let k = choose|k: int| 0 <= k < here.len() && here[k] == f;
        assert((before + here)[before.len() + k] == f);
    }
}

/// What is freed for an entry is freed for the tree under its table, and so is the table.
proof fn lemma_among_tree(m: Map<u64, Seq<u64>>, frame: u64, level: nat, i: int, f: u64)
    requires
        0 <= i < 512,
    ensures
        subtree_freed(m, frame, level).contains(frame),
        entry_freed(m, m[frame][i], level).contains(f) ==> subtree_freed(m, frame, level).contains(f),
{
    let all = entries_freed(m, frame, level, 512);
    assert(all.push(frame)[all.len() as int] == frame);
    if entry_freed(m, m[frame][i], level).contains(f) {
        lemma_entry_among(m, frame, level, 512, i, f);
        let k = choose|k: int| 0 <= k < all.len() && all[k] == f;
        assert(all.push(frame)[k] == f);
    }
}

/// What is freed for a private entry of a root is freed for the address space.
proof fn lemma_private_among(m: Map<u64, Seq<u64>>, pml4: u64, kernel: u64, n: nat, i: int, f: u64)
    requires
        0 <= i < n,
        entry_frame(m[pml4][i]) is Some,
        !shared(m[pml4][i], m[kernel][i]),
        subtree_freed(m, entry_frame(m[pml4][i])->0, 3).contains(f),
    ensures
        private_freed(m, pml4, kernel, n).contains(f),
    decreases n,
{
    let before = private_freed(m, pml4, kernel, (n - 1) as nat);
    let all = private_freed(m, pml4, kernel, n);
    if i < n - 1 {
        lemma_private_among(m, pml4, kernel, (n - 1) as nat, i, f);
        let k = choose|k: int| 0 <= k < before.len() && before[k] == f;
        assert(all[k] == f);
    } else {
        let here = subtree_freed(m, entry_frame(m[pml4][i])->0, 3);
        let k = choose|k: int| 0 <= k < here.len() && here[k] == f;
        assert(all == before + here);
        assert(all[before.len() + k] == f);
    }
}

/// An address space that is torn down gives back its root, and for every page that it has for
/// itself the frame of the page and those of the three tables that lead to it.
pub proof fn law_teardown_frees_every_private_frame(
    m: Map<u64, Seq<u64>>,
    pml4: u64,
    kernel: u64,
    i4: int,
    i3: int,
    i2: int,
    i1: int,
    f: u64,
)
    requires
        0 <= i4 < 512,
        0 <= i3 < 512,
        0 <= i2 < 512,
        0 <= i1 < 512,
        !shared(m[pml4][i4], m[kernel][i4]),
    ensures
        space_freed(m, pml4, kernel).contains(pml4),
        entry_frame(m[pml4][i4]) matches Some(t3) ==> {
            &&& space_freed(m, pml4, kernel).contains(t3)
            &&& entry_frame(m[t3][i3]) matches Some(t2) ==> {
                &&& space_freed(m, pml4, kernel).contains(t2)
                &&& entry_frame(m[t2][i2]) matches Some(t1) ==> {
                    &&& space_freed(m, pml4, kernel).contains(t1)
                    &&& entry_frame(m[t1][i1]) matches Some(page) ==> space_freed(
                        m,
                        pml4,
                        kernel,
                    ).contains(page)
                }
            }
        },
{
    let all = private_freed(m, pml4, kernel, 512);
    assert(all.push(pml4)[all.len() as int] == pml4);
    if let Some(t3) = entry_frame(m[pml4][i4]) {
        lemma_among_tree(m, t3, 3, i3, t3);
        lemma_in_space(m, pml4, kernel, i4, t3);
        if let Some(t2) = entry_frame(m[t3][i3]) {
            lemma_among_tree(m, t2, 2, i2, t2);
            lemma_among_tree(m, t3, 3, i3, t2);
            lemma_in_space(m, pml4, kernel, i4, t2);
            if let Some(t1) = entry_frame(m[t2][i2]) {
                lemma_among_tree(m, t1, 1, i1, t1);
                lemma_among_tree(m, t2, 2, i2, t1);
                lemma_among_tree(m, t3, 3, i3, t1);
                lemma_in_space(m, pml4, kernel, i4, t1);
                if let Some(page) = entry_frame(m[t1][i1]) {
                    assert(entry_freed(m, m[t1][i1], 1) == seq![page]);
                    assert(seq![page][0] == page);
                    lemma_among_tree(m, t1, 1, i1, page);
                    lemma_among_tree(m, t2, 2, i2, page);
                    lemma_among_tree(m, t3, 3, i3, page);
                    lemma_in_space(m, pml4, kernel, i4, page);
                }
            }
        }
    }
}

proof fn lemma_in_space(m: Map<u64, Seq<u64>>, pml4: u64, kernel: u64, i: int, f: u64)
    requires
        0 <= i < 512,
        entry_frame(m[pml4][i]) is Some,
        !shared(m[pml4][i], m[kernel][i]),
        subtree_freed(m, entry_frame(m[pml4][i])->0, 3).contains(f),
    ensures
        space_freed(m, pml4, kernel).contains(f),
{
    lemma_private_among(m, pml4, kernel, 512, i, f);
    let all = private_freed(m, pml4, kernel, 512);
    let k = choose|k: int| 0 <= k < all.len() && all[k] == f;
    assert(all.push(pml4)[k] == f);
}

} // verus!
