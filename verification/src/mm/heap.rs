//! The heap of the kernel.

use vstd::prelude::*;

verus! {

/// First address of the heap.
pub const HEAP_START: u64 = 0x5555_5555_0000;

/// Size of the heap.
pub const HEAP_SIZE: u64 = 102_400;

/// Whether a page holds a byte of the heap.
pub open spec fn in_heap(page: u64) -> bool {
    page % 4096 == 0 && page + 4096 > HEAP_START && page < HEAP_START + HEAP_SIZE
}

/// The pages that the heap takes, in order.
pub fn heap_pages() -> (pages: Vec<u64>)
    ensures
        pages@ == Seq::new(25, |i: int| (HEAP_START + 4096 * i) as u64),
        forall|page: u64| in_heap(page) <==> #[trigger] pages@.contains(page),
{
    let mut pages: Vec<u64> = Vec::new();
    let mut page: u64 = HEAP_START;
    while page < HEAP_START + HEAP_SIZE
        invariant
            page == HEAP_START + 4096 * pages@.len(),
            page <= HEAP_START + HEAP_SIZE,
            pages@ =~= Seq::new(pages@.len(), |i: int| (HEAP_START + 4096 * i) as u64),
        decreases HEAP_START + HEAP_SIZE - page,
    {
        pages.push(page);
        page += 4096;
    }
    assert(pages@.len() == 25);
    assert forall|p: u64| in_heap(p) <==> #[trigger] pages@.contains(p) by {
        if in_heap(p) {
            let i = (p - HEAP_START) / 4096;
            assert(pages@[i] == p);
        }
        if pages@.contains(p) {
            let i = choose|i: int| 0 <= i < pages@.len() && pages@[i] == p;
            assert(p == HEAP_START + 4096 * i);
        }
    }
    pages
}

} // verus!
