//! The allocator of physical frames.
//!
//! Frames are taken from the usable regions of the boot memory map, in order. Frames that are
//! given back go to a stack and are handed out again before new ones are taken.

use vstd::prelude::*;

verus! {

/// Size of a frame in bytes.
pub const FRAME_SIZE: u64 = 4096;

/// No frame number reaches this: physical addresses have at most 52 bits.
pub const MAX_FRAME_NUMBER: u64 = 0x100_0000_0000;

/// The address that no frame to be freed may have: low memory is reserved.
pub const FREE_LIST_END: u64 = 0;

/// A region of the boot memory map: the frames from `start_frame` up to `end_frame`.
#[derive(Debug, Clone, Copy)]
pub struct MemoryRegion {
    pub start_frame: u64,
    pub end_frame: u64,
    /// Whether the region is free for the kernel to use.
    pub usable: bool,
}

impl MemoryRegion {
    /// The region lies in physical memory.
    pub open spec fn wf(self) -> bool {
        self.start_frame <= self.end_frame <= MAX_FRAME_NUMBER
    }

    /// Number of frames in the region that may be handed out.
    pub open spec fn count(self) -> nat {
        if self.usable {
            (self.end_frame - self.start_frame) as nat
        } else {
            0
        }
    }

    /// Addresses of the frames in the region that may be handed out.
    pub open spec fn frames(self) -> Seq<u64> {
        Seq::new(self.count(), |i: int| ((self.start_frame + i) * FRAME_SIZE) as u64)
    }
}

/// Addresses of all frames that may be handed out, in the order of the memory map.
pub open spec fn usable_frames(regions: Seq<MemoryRegion>) -> Seq<u64>
    decreases regions.len(),
{
    if regions.len() == 0 {
        Seq::empty()
    } else {
        regions[0].frames() + usable_frames(regions.skip(1))
    }
}

/// Whether the `count` frames from index `at` on lie one after the other in memory.
pub open spec fn is_run(frames: Seq<u64>, at: int, count: int) -> bool {
    &&& 0 <= at
    &&& at + count <= frames.len()
    &&& forall|j: int| 0 <= j < count ==> #[trigger] frames[at + j] == frames[at] + j * FRAME_SIZE
}

/// Index, from `at` on, of the first run of `count` frames; the number of frames if there is none.
pub open spec fn first_run(frames: Seq<u64>, at: int, count: int) -> int
    decreases frames.len() - at,
{
    if at >= frames.len() || is_run(frames, at, count) {
        at
    } else {
        first_run(frames, at + 1, count)
    }
}

/// The allocator over the boot memory map.
pub struct BootInfoFrameAllocator {
    pub regions: Vec<MemoryRegion>,
    /// How many frames of the memory map have been passed.
    pub next: usize,
    /// Frames that were given back, the last one on top.
    pub free: Vec<u64>,
}

/// What a [`BootInfoFrameAllocator`] holds.
#[verifier::ext_equal]
pub struct FramesView {
    /// All frames that may be handed out.
    pub frames: Seq<u64>,
    pub next: nat,
    pub free: Seq<u64>,
}

impl FramesView {
    /// The allocator after a frame was asked for, and the frame.
    pub open spec fn taken(self) -> (FramesView, Option<u64>) {
        if self.free.len() > 0 {
            (FramesView { free: self.free.drop_last(), ..self }, Some(self.free.last()))
        } else if self.next < self.frames.len() {
            (FramesView { next: self.next + 1, ..self }, Some(self.frames[self.next as int]))
        } else {
            (self, None)
        }
    }

    /// The allocator after frame `f` was given back.
    pub open spec fn given_back(self, f: u64) -> FramesView {
        FramesView { free: self.free.push(f), ..self }
    }

    /// The allocator after a run of `count` frames was asked for, and its first frame. Runs come
    /// from the memory map only; frames before the run are passed over.
    pub open spec fn run_taken(self, count: int) -> (FramesView, Option<u64>) {
        let at = first_run(self.frames, self.next as int, count);
        if count == 0 || at >= self.frames.len() {
            (self, None)
        } else {
            (FramesView { next: (at + count) as nat, ..self }, Some(self.frames[at]))
        }
    }

    /// The frames that can still be handed out.
    pub open spec fn available(self) -> Set<u64> {
        Set::new(
            |f: u64|
                self.free.contains(f) || exists|i: int|
                    self.next <= i < self.frames.len() && #[trigger] self.frames[i] == f,
        )
    }

    /// No frame is available twice.
    pub open spec fn distinct(self) -> bool {
        &&& self.frames.no_duplicates()
        &&& self.free.no_duplicates()
        &&& forall|i: int|
            self.next <= i < self.frames.len() ==> !self.free.contains(#[trigger] self.frames[i])
    }
}

impl View for BootInfoFrameAllocator {
    type V = FramesView;

    open spec fn view(&self) -> FramesView {
        FramesView {
            frames: usable_frames(self.regions@),
            next: self.next as nat,
            free: self.free@,
        }
    }
}

impl BootInfoFrameAllocator {
    /// The memory map describes physical memory, and no more of its frames have been passed than
    /// there are.
    pub open spec fn wf(&self) -> bool {
        &&& self.next <= usable_frames(self.regions@).len()
        &&& forall|i: int| 0 <= i < self.regions@.len() ==> (#[trigger] self.regions@[i]).wf()
        &&& usable_frames(self.regions@).len() < usize::MAX
    }

    /// An allocator over a memory map.
    pub fn init(regions: Vec<MemoryRegion>) -> (a: Self)
        requires
            forall|i: int| 0 <= i < regions@.len() ==> (#[trigger] regions@[i]).wf(),
            usable_frames(regions@).len() < usize::MAX,
        ensures
            a.wf(),
            a@ == (FramesView {
                frames: usable_frames(regions@),
                next: 0,
                free: Seq::empty(),
            }),
    {
        BootInfoFrameAllocator { regions, next: 0, free: Vec::new() }
    }

    /// How many frames of the memory map have been handed out or passed over for a run. Frames that
    /// were given back and handed out again do not count.
    pub fn cursor(&self) -> (n: usize)
        ensures
            n == self@.next,
    {
        self.next
    }

    /// How many frames that were given back wait to be handed out again.
    pub fn free_list_len(&self) -> (n: usize)
        ensures
            n == self@.free.len(),
    {
        self.free.len()
    }

    /// Address of frame `k` of the memory map.
    fn usable_frame(&self, k: usize) -> (r: Option<u64>)
        requires
            self.wf(),
        ensures
            r == (if k < self@.frames.len() {
                Some(self@.frames[k as int])
            } else {
                None
            }),
            r matches Some(f) ==> f < 0x10_0000_0000_0000,
    {
        let mut left = k;
        let mut i: usize = 0;
        assert(self.regions@.skip(0) =~= self.regions@);
        while i < self.regions.len()
            invariant
                self.wf(),
                i <= self.regions@.len(),
                left <= k,
                k < usable_frames(self.regions@).len() <==> left < usable_frames(
                    self.regions@.skip(i as int),
                ).len(),
                left < usable_frames(self.regions@.skip(i as int)).len() ==> usable_frames(
                    self.regions@,
                )[k as int] == usable_frames(self.regions@.skip(i as int))[left as int],
            decreases self.regions@.len() - i,
        {
            let r = self.regions[i];
            assert(self.regions@.skip(i as int)[0] == r);
            assert(self.regions@.skip(i as int).skip(1) =~= self.regions@.skip(i + 1));
            if r.usable {
                let count = r.end_frame - r.start_frame;
                if (left as u64) < count {
                    assert(r.frames()[left as int] == usable_frames(
                        self.regions@.skip(i as int),
                    )[left as int]);
                    return Some((r.start_frame + left as u64) * FRAME_SIZE);
                }
                left = left - count as usize;
            }
            i += 1;
        }
        assert(usable_frames(self.regions@.skip(i as int)).len() == 0);
        None
    }

    /// Hands out a frame: one that was given back if there is any, else the next one of the
    /// memory map.
    pub fn allocate_frame(&mut self) -> (r: Option<u64>)
        requires
            old(self).wf(),
        ensures
            final(self).wf(),
            (final(self)@, r) == old(self)@.taken(),
    {
        match self.free.pop() {
            Some(f) => {
                assert(self@ =~= old(self)@.taken().0);
                Some(f)
            },
            None => {
                let frame = self.usable_frame(self.next);
                if frame.is_some() {
                    self.next += 1;
                }
                assert(self@ =~= old(self)@.taken().0);
                frame
            },
        }
    }

    /// Takes a frame back. It must not be in use any more.
    pub fn deallocate_frame(&mut self, frame: u64)
        requires
            old(self).wf(),
            frame != FREE_LIST_END,
        ensures
            final(self).wf(),
            final(self)@ == old(self)@.given_back(frame),
    {
        self.free.push(frame);
        assert(self@ =~= old(self)@.given_back(frame));
    }

    /// Hands out `count` frames that lie one after the other and returns the first.
    pub fn allocate_contiguous(&mut self, count: usize) -> (r: Option<u64>)
        requires
            old(self).wf(),
        ensures
            final(self).wf(),
            (final(self)@, r) == old(self)@.run_taken(count as int),
    {
        if count == 0 {
            return None;
        }
        let ghost frames = self@.frames;
        let ghost from = self.next as int;
        let mut run_start: u64 = 0;
        let mut run_at: usize = self.next;
        let mut run_len: usize = 0;
        let mut prev: u64 = 0;
        let mut i: usize = self.next;
        loop
            invariant_except_break
                *self == *old(self),
                self.wf(),
                frames == self@.frames,
                from == self.next,
                count > 0,
                from <= run_at <= i < usize::MAX,
                i <= frames.len(),
                run_len == i - run_at,
                run_len < count,
                run_len == 0 ==> i == from,
                run_len > 0 ==> i <= frames.len() && run_start == frames[run_at as int] && prev
                    == frames[i - 1] && prev < 0x10_0000_0000_0000,
                forall|j: int|
                    0 <= j < run_len ==> #[trigger] frames[run_at + j] == frames[run_at as int] + j
                        * FRAME_SIZE,
                forall|a: int| from <= a < run_at ==> !#[trigger] is_run(frames, a, count as int),
            ensures
                *self == *old(self),
                first_run(frames, from, count as int) >= frames.len(),
            decreases frames.len() - i,
        {
            match self.usable_frame(i) {
                None => {
                    proof {
                        assert forall|a: int| from <= a < frames.len() implies !#[trigger] is_run(
                            frames,
                            a,
                            count as int,
                        ) by {
                            if a >= run_at {
                                assert(a + count > frames.len());
                            }
                        }
                        lemma_no_run(frames, from, count as int);
                    }
                    break ;
                },
                Some(frame) => {
                    if run_len > 0 && frame == prev + FRAME_SIZE {
                        proof {
                            assert(frames[run_at + (run_len - 1)] == frames[run_at as int] + (
                            run_len - 1) * FRAME_SIZE);
                            assert(frames[run_at + run_len] == frames[run_at as int] + run_len
                                * FRAME_SIZE);
                        }
                        run_len += 1;
                    } else {
                        proof {
                            if run_len > 0 {
                                assert forall|a: int| from <= a < i implies !#[trigger] is_run(
                                    frames,
                                    a,
                                    count as int,
                                ) by {
                                    if a >= run_at && is_run(frames, a, count as int) {
                                        let j = i - a;
                                        assert(j < count);
                                        assert(frames[a + j] == frames[a] + j * FRAME_SIZE);
                                        assert(frames[a + (j - 1)] == frames[a] + (j - 1)
                                            * FRAME_SIZE);
                                    }
                                }
                            }
                        }
                        run_start = frame;
                        run_at = i;
                        run_len = 1;
                    }
                    prev = frame;
                    i += 1;
                    if run_len == count {
                        self.next = i;
                        proof {
                            assert(is_run(frames, run_at as int, count as int));
                            lemma_first_run(frames, from, run_at as int, count as int);
                            assert(self@ =~= old(self)@.run_taken(count as int).0);
                        }
                        return Some(run_start);
                    }
                },
            }
        }
        None
    }
}

/// Where the first run stands.
proof fn lemma_first_run(frames: Seq<u64>, at: int, run: int, count: int)
    requires
        0 <= at <= run < frames.len(),
        is_run(frames, run, count),
        forall|a: int| at <= a < run ==> !#[trigger] is_run(frames, a, count),
    ensures
        first_run(frames, at, count) == run,
    decreases run - at,
{
    if at < run {
        assert(!is_run(frames, at, count));
        lemma_first_run(frames, at + 1, run, count);
    }
}

/// Where there is no run, none is found.
proof fn lemma_no_run(frames: Seq<u64>, at: int, count: int)
    requires
        0 <= at,
        forall|a: int| at <= a < frames.len() ==> !#[trigger] is_run(frames, a, count),
    ensures
        first_run(frames, at, count) >= frames.len(),
    decreases frames.len() - at,
{
    if at < frames.len() {
        assert(!is_run(frames, at, count));
        lemma_no_run(frames, at + 1, count);
    }
}

/// A frame that is handed out was available and is not available any more: nobody else gets it
/// until it is given back.
pub proof fn law_frame_is_handed_out_once(v: FramesView)
    requires
        v.distinct(),
    ensures
        v.taken().0.distinct(),
        v.taken().1 matches Some(f) ==> v.available().contains(f) && v.taken().0.available()
            =~= v.available().remove(f),
        v.taken().1 is None ==> v.available() =~= Set::empty(),
{
    let (v2, r) = v.taken();
    if v.free.len() > 0 {
        let f = v.free.last();
        let rest = v.free.drop_last();
        assert(v.free[v.free.len() - 1] == f);
        assert(rest.no_duplicates());
        assert forall|g: u64| v2.free.contains(g) == (v.free.contains(g) && g != f) by {
            if rest.contains(g) {
                let i = choose|i: int| 0 <= i < rest.len() && rest[i] == g;
                assert(v.free[i] == g);
            }
            if v.free.contains(g) && g != f {
                let i = choose|i: int| 0 <= i < v.free.len() && v.free[i] == g;
                assert(rest[i] == g);
            }
        }
        assert(v2.available() =~= v.available().remove(f));
    } else if v.next < v.frames.len() {
        let f = v.frames[v.next as int];
        assert forall|g: u64| v2.available().contains(g) == (v.available().contains(g) && g != f) by {
            if v.available().contains(g) && g != f {
                let i = choose|i: int|
                    v.next <= i < v.frames.len() && #[trigger] v.frames[i] == g;
                assert(v2.next <= i);
            }
        }
        assert(v2.available() =~= v.available().remove(f));
    }
}

/// A frame that is given back is available again, and is the next one to be handed out.
pub proof fn law_freed_frame_is_reused(v: FramesView, f: u64)
    requires
        v.distinct(),
        !v.available().contains(f),
    ensures
        v.given_back(f).distinct(),
        v.given_back(f).available() =~= v.available().insert(f),
        v.given_back(f).taken() == (v, Some(f)),
{
    let v2 = v.given_back(f);
    assert(v2.free.drop_last() =~= v.free);
    assert(!v.free.contains(f));
    assert forall|g: u64| v2.free.contains(g) == (v.free.contains(g) || g == f) by {
        if v.free.contains(g) {
            let i = choose|i: int| 0 <= i < v.free.len() && v.free[i] == g;
            assert(v2.free[i] == g);
        }
        if g == f {
            assert(v2.free[v.free.len() as int] == f);
        }
    }
    assert forall|i: int|
        v2.next <= i < v2.frames.len() implies !v2.free.contains(#[trigger] v2.frames[i]) by {
        assert(v.available().contains(v.frames[i]));
    }
    assert(v2.available() =~= v.available().insert(f));
}

/// The frames of a run were all available, lie one after the other, and none of them is available
/// afterwards.
pub proof fn law_run_is_contiguous(v: FramesView, count: int, j: int)
    requires
        v.distinct(),
        0 < count,
        0 <= j < count,
        v.run_taken(count).1 is Some,
        forall|i: int| 0 <= i < v.frames.len() ==> #[trigger] v.frames[i] < 0x10_0000_0000_0000,
    ensures
        ({
            let (v2, first) = v.run_taken(count);
            let f = (first->0 + j * FRAME_SIZE) as u64;
            &&& first->0 + j * FRAME_SIZE < 0x10_0000_0000_0000
            &&& v.available().contains(f)
            &&& !v2.available().contains(f)
        }),
{
    let at = first_run(v.frames, v.next as int, count);
    lemma_first_run_is(v.frames, v.next as int, count);
    assert(v.frames[at + j] == v.frames[at] + j * FRAME_SIZE);
    let f = v.frames[at + j];
    let v2 = v.run_taken(count).0;
    assert(v.available().contains(f));
    if v2.available().contains(f) {
        if v.free.contains(f) {
            assert(!v.free.contains(v.frames[at + j]));
        } else {
            let i = choose|i: int| v2.next <= i < v2.frames.len() && #[trigger] v2.frames[i] == f;
            assert(v.frames[i] == v.frames[at + j]);
        }
    }
}

/// What is known of the first run.
proof fn lemma_first_run_is(frames: Seq<u64>, at: int, count: int)
    requires
        0 <= at,
    ensures
        first_run(frames, at, count) >= at,
        first_run(frames, at, count) < frames.len() ==> is_run(
            frames,
            first_run(frames, at, count),
            count,
        ),
    decreases frames.len() - at,
{
    if at < frames.len() && !is_run(frames, at, count) {
        lemma_first_run_is(frames, at + 1, count);
    }
}

/// The frames that may be handed out are those of usable memory: a frame is one of them exactly
/// where it lies in a usable region of the memory map.
pub proof fn law_frames_are_those_of_usable_memory(regions: Seq<MemoryRegion>, f: u64)
    requires
        forall|i: int| 0 <= i < regions.len() ==> (#[trigger] regions[i]).wf(),
    ensures
        usable_frames(regions).contains(f) <==> f % 4096 == 0 && exists|i: int|
            0 <= i < regions.len() && (#[trigger] regions[i]).usable && regions[i].start_frame * 4096
                <= f < regions[i].end_frame * 4096,
    decreases regions.len(),
{
    if regions.len() > 0 {
        let r = regions[0];
        let rest = regions.skip(1);
        assert(r.wf());
        assert forall|i: int| 0 <= i < rest.len() implies (#[trigger] rest[i]).wf() by {
            assert(rest[i] == regions[i + 1]);
        }
        law_frames_are_those_of_usable_memory(rest, f);
        let a = r.frames();
        let b = usable_frames(rest);
        assert(a.contains(f) <==> f % 4096 == 0 && r.usable && r.start_frame * 4096 <= f
            < r.end_frame * 4096) by {
            if a.contains(f) {
                let i = choose|i: int| 0 <= i < a.len() && a[i] == f;
                assert(f == (r.start_frame + i) * 4096);
            }
            if f % 4096 == 0 && r.usable && r.start_frame * 4096 <= f < r.end_frame * 4096 {
                let i = f as int / 4096 - r.start_frame;
                assert(a[i] == f);
            }
        }
        assert((a + b).contains(f) <==> a.contains(f) || b.contains(f)) by {
            if (a + b).contains(f) {
                let i = choose|i: int| 0 <= i < (a + b).len() && (a + b)[i] == f;
                if i < a.len() {
                    assert(a[i] == f);
                } else {
                    assert(b[i - a.len()] == f);
                }
            }
            if a.contains(f) {
                let i = choose|i: int| 0 <= i < a.len() && a[i] == f;
                assert((a + b)[i] == f);
            }
            if b.contains(f) {
                let i = choose|i: int| 0 <= i < b.len() && b[i] == f;
                assert((a + b)[a.len() + i] == f);
            }
        }
        if exists|i: int|
            0 <= i < rest.len() && (#[trigger] rest[i]).usable && rest[i].start_frame * 4096 <= f
                < rest[i].end_frame * 4096 {
            let i = choose|i: int|
                0 <= i < rest.len() && (#[trigger] rest[i]).usable && rest[i].start_frame * 4096 <= f
                    < rest[i].end_frame * 4096;
            assert(regions[i + 1] == rest[i]);
        }
        if exists|i: int|
            0 <= i < regions.len() && (#[trigger] regions[i]).usable && regions[i].start_frame * 4096
                <= f < regions[i].end_frame * 4096 {
            let i = choose|i: int|
                0 <= i < regions.len() && (#[trigger] regions[i]).usable && regions[i].start_frame
                    * 4096 <= f < regions[i].end_frame * 4096;
            if i > 0 {
                assert(rest[i - 1] == regions[i]);
            }
        }
    }
}

/// A run is handed out where there is one among the frames that were not passed yet, and none that
/// starts before the first such run. Frames that were given back are not looked at.
pub proof fn law_run_is_found_where_there_is_one(v: FramesView, count: int, at: int)
    requires
        count > 0,
        v.next <= at,
        is_run(v.frames, at, count),
        forall|a: int| v.next <= a < at ==> !#[trigger] is_run(v.frames, a, count),
    ensures
        v.run_taken(count).1 == Some(v.frames[at]),
        v.run_taken(count).0.next == at + count,
        v.run_taken(count).0.free == v.free,
{
    lemma_first_run_at(v.frames, v.next as int, count, at);
}

proof fn lemma_first_run_at(frames: Seq<u64>, from: int, count: int, at: int)
    requires
        0 <= from <= at < frames.len(),
        is_run(frames, at, count),
        forall|a: int| from <= a < at ==> !#[trigger] is_run(frames, a, count),
    ensures
        first_run(frames, from, count) == at,
    decreases at - from,
{
    if from < at {
        assert(!is_run(frames, from, count));
        lemma_first_run_at(frames, from + 1, count, at);
    }
}

} // verus!
