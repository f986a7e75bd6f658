//! Page-frame descriptors and the descriptor store.
//!
//! One `PageState` describes one physical frame. A live allocation of `n`
//! frames is recorded as `n - 1` descriptors that are taken but not last,
//! followed by one descriptor that is taken and last; run length is never
//! stored explicitly, it is recovered by scanning the states.

use vstd::prelude::*;

use crate::addr::VirtAddr;
use crate::PAGE_SIZE;

verus! {

/// The state of one physical page frame.
#[derive(Clone, Copy, Debug, PartialEq, Eq, Structural)]
pub struct PageState {
    /// The frame belongs to a live allocation.
    pub taken: bool,
    /// The frame is the final frame of its allocation run.
    pub last: bool,
}

/// The state of a frame that is not allocated.
pub open spec fn empty_state() -> PageState {
    PageState { taken: false, last: false }
}

impl PageState {
    /// A descriptor for a free frame.
    pub fn new() -> (s: Self)
        ensures
            s == empty_state(),
    {
        PageState { taken: false, last: false }
    }

    /// Whether the frame is the final frame of a run.
    pub fn is_last(&self) -> (r: bool)
        ensures
            r == self.last,
    {
        self.last
    }

    /// Whether the frame belongs to a live allocation.
    pub fn is_taken(&self) -> (r: bool)
        ensures
            r == self.taken,
    {
        self.taken
    }

    /// Whether the frame is free.
    pub fn is_empty(&self) -> (r: bool)
        ensures
            r == !self.taken,
    {
        !self.taken
    }

    /// Sets or clears the taken mark, leaving the last mark unchanged.
    pub fn set_taken(&mut self, v: bool)
        ensures
            final(self).taken == v,
            final(self).last == old(self).last,
    {
        self.taken = v;
    }

    /// Sets or clears the last mark, leaving the taken mark unchanged.
    pub fn set_last(&mut self, v: bool)
        ensures
            final(self).last == v,
            final(self).taken == old(self).taken,
    {
        self.last = v;
    }
}

/// Frames `[i, i + n)` are all free in `ss`.
pub open spec fn free_run(ss: Seq<PageState>, i: int, n: int) -> bool {
    forall|j: int| i <= j < i + n ==> ss[j] == empty_state()
}

/// The descriptor states after marking `[i, i + n)` as one allocation run:
/// the first `n - 1` frames taken, the final frame taken and last.
pub open spec fn mark_run(ss: Seq<PageState>, i: int, n: int) -> Seq<PageState> {
    Seq::new(
        ss.len(),
        |j: int|
            if i <= j < i + n - 1 {
                PageState { taken: true, last: false }
            } else if j == i + n - 1 {
                PageState { taken: true, last: true }
            } else {
                ss[j]
            },
    )
}

/// The descriptor states after releasing frames `[i, k]`.
pub open spec fn clear_run(ss: Seq<PageState>, i: int, k: int) -> Seq<PageState> {
    Seq::new(ss.len(), |j: int| if i <= j <= k { empty_state() } else { ss[j] })
}

/// The index of the descriptor that ends the run starting at `i`: the walk
/// crosses taken, non-last descriptors and stops at the first descriptor
/// marked last. `None` when a free descriptor comes first, or when the walk
/// runs off the end of the store: such a walk is a double free.
pub open spec fn run_end(ss: Seq<PageState>, i: int) -> Option<int>
    decreases ss.len() - i,
{
    if i < 0 || i >= ss.len() {
        None
    } else if ss[i].last {
        Some(i)
    } else if ss[i].taken {
        run_end(ss, i + 1)
    } else {
        None
    }
}

/// How many descriptors of `ss` are marked taken.
pub open spec fn count_taken(ss: Seq<PageState>) -> int
    decreases ss.len(),
{
    if ss.len() == 0 {
        0
    } else {
        count_taken(ss.drop_last()) + if ss.last().taken {
            1int
        } else {
            0int
        }
    }
}

/// How many descriptors of `ss` are free.
pub open spec fn count_free(ss: Seq<PageState>) -> int
    decreases ss.len(),
{
    if ss.len() == 0 {
        0
    } else {
        count_free(ss.drop_last()) + if ss.last() == empty_state() {
            1int
        } else {
            0int
        }
    }
}

/// Overwriting one descriptor moves the free count by the obvious amount.
pub proof fn lemma_count_free_update(ss: Seq<PageState>, i: int, v: PageState)
    requires
        0 <= i < ss.len(),
    ensures
        count_free(ss.update(i, v)) == count_free(ss) - (if ss[i] == empty_state() {
            1int
        } else {
            0int
        }) + (if v == empty_state() {
            1int
        } else {
            0int
        }),
    decreases ss.len(),
{
    if i == ss.len() - 1 {
        assert(ss.update(i, v).drop_last() =~= ss.drop_last());
    } else {
        assert(ss.update(i, v).drop_last() =~= ss.drop_last().update(i, v));
        lemma_count_free_update(ss.drop_last(), i, v);
    }
}

/// A store without a single free descriptor counts zero free frames.
pub proof fn lemma_count_free_none(ss: Seq<PageState>)
    requires
        forall|j: int| 0 <= j < ss.len() ==> ss[j] != empty_state(),
    ensures
        count_free(ss) == 0,
    decreases ss.len(),
{
    if ss.len() > 0 {
        lemma_count_free_none(ss.drop_last());
    }
}

/// A store of nothing but free descriptors counts them all.
pub proof fn lemma_count_free_all(ss: Seq<PageState>)
    requires
        forall|j: int| 0 <= j < ss.len() ==> ss[j] == empty_state(),
    ensures
        count_free(ss) == ss.len(),
    decreases ss.len(),
{
    if ss.len() > 0 {
        lemma_count_free_all(ss.drop_last());
    }
}

/// When no single-frame run is free, no frame at all is free.
pub proof fn lemma_no_free_run_count(ss: Seq<PageState>)
    requires
        forall|q: int| 0 <= q <= ss.len() - 1 ==> !free_run(ss, q, 1),
    ensures
        count_free(ss) == 0,
{
    assert forall|j: int| 0 <= j < ss.len() implies ss[j] != empty_state() by {
        if ss[j] == empty_state() {
            assert(free_run(ss, j, 1));
        }
    }
    lemma_count_free_none(ss);
}

/// Marking a free frame as a one-frame run lowers the free count by one.
pub proof fn lemma_count_free_mark_one(ss: Seq<PageState>, i: int)
    requires
        0 <= i < ss.len(),
        free_run(ss, i, 1),
    ensures
        count_free(mark_run(ss, i, 1)) == count_free(ss) - 1,
{
    assert(mark_run(ss, i, 1) =~= ss.update(i, PageState { taken: true, last: true }));
    assert(ss[i] == empty_state());
    lemma_count_free_update(ss, i, PageState { taken: true, last: true });
}

/// The descriptor store: one `PageState` for every frame of the heap, plus
/// the base address that converts between frame indices and frame addresses.
pub struct PageStateList {
    /// One descriptor per frame, frame index order.
    pub states: Vec<PageState>,
    /// Address of frame 0; frame `i` starts at `base + i * PAGE_SIZE`.
    pub base: VirtAddr,
}

impl PageStateList {
    /// A store of `page_capacity` free descriptors based at `base_ptr`.
    pub fn new(page_capacity: usize, base_ptr: VirtAddr) -> (r: Self)
        ensures
            r.states@.len() == page_capacity,
            forall|j: int| 0 <= j < page_capacity ==> r.states@[j] == empty_state(),
            r.base == base_ptr,
    {
        let mut states: Vec<PageState> = Vec::new();
        let mut i: usize = 0;
        while i < page_capacity
            invariant
                i <= page_capacity,
                states@.len() == i,
                forall|j: int| 0 <= j < i ==> states@[j] == empty_state(),
            decreases page_capacity - i,
        {
            states.push(PageState::new());
            i = i + 1;
        }
        PageStateList { states, base: base_ptr }
    }

    /// How many frames the store describes.
    pub fn capacity(&self) -> (r: usize)
        ensures
            r == self.states@.len(),
    {
        self.states.len()
    }

    /// The descriptor of frame `idx`.
    pub fn state_at(&self, idx: usize) -> (r: PageState)
        requires
            idx < self.states@.len(),
        ensures
            r == self.states@[idx as int],
    {
        self.states[idx]
    }

    /// Overwrites the descriptor of frame `idx`.
    pub fn set_state(&mut self, idx: usize, s: PageState)
        requires
            idx < old(self).states@.len(),
        ensures
            final(self).states@ == old(self).states@.update(idx as int, s),
            final(self).base == old(self).base,
    {
        self.states[idx] = s;
    }

    /// Whether frames `[i, i + n)` are all free.
    fn is_free_run(&self, i: usize, n: usize) -> (r: bool)
        requires
            i + n <= self.states@.len(),
        ensures
            r == free_run(self.states@, i as int, n as int),
    {
        let cap = self.states.len();
        let mut j: usize = 0;
        while j < n
            invariant
                j <= n,
                i + n <= cap,
                cap == self.states@.len(),
                forall|q: int| i <= q < i + j ==> self.states@[q] == empty_state(),
            decreases n - j,
        {
            let s = self.states[i + j];
            if s.taken || s.last {
                assert(!(self.states@[i + j] == empty_state()));
                return false;
            }
            assert(self.states@[i + j] == empty_state());
            j = j + 1;
        }
        true
    }

    /// First-fit scan: the lowest frame index that starts `requested_pages`
    /// contiguous free frames, or `None` when no such run exists.
    pub fn has_contig_free_space(&self, requested_pages: usize) -> (r: Option<usize>)
        requires
            requested_pages >= 1,
        ensures
            match r {
                Some(i) => {
                    &&& i + requested_pages <= self.states@.len()
                    &&& free_run(self.states@, i as int, requested_pages as int)
                    &&& forall|q: int|
                        0 <= q < i ==> !free_run(self.states@, q, requested_pages as int)
                },
                None => forall|q: int|
                    0 <= q <= self.states@.len() - requested_pages ==> !free_run(
                        self.states@,
                        q,
                        requested_pages as int,
                    ),
            },
    {
        let cap = self.states.len();
        if requested_pages > cap {
            assert forall|q: int| 0 <= q <= self.states@.len() - requested_pages implies !free_run(
                self.states@,
                q,
                requested_pages as int,
            ) by {};
            return None;
        }
        let mut i: usize = 0;
        while i <= cap - requested_pages
            invariant
                requested_pages <= cap,
                cap == self.states@.len(),
                forall|q: int| 0 <= q < i ==> !free_run(self.states@, q, requested_pages as int),
            decreases cap - i,
        {
            if self.is_free_run(i, requested_pages) {
                return Some(i);
            }
            i = i + 1;
        }
        None
    }

    /// Marks every frame in `rng` as taken; last marks are unchanged.
    pub fn take_range(&mut self, rng: core::ops::Range<usize>)
        requires
            rng.start <= rng.end,
            rng.end <= old(self).states@.len(),
        ensures
            final(self).states@.len() == old(self).states@.len(),
            final(self).base == old(self).base,
            forall|j: int|
                0 <= j < old(self).states@.len() ==> final(self).states@[j] == (if rng.start <= j
                    < rng.end {
                    PageState { taken: true, last: old(self).states@[j].last }
                } else {
                    old(self).states@[j]
                }),
    {
        let end = rng.end;
        let mut i: usize = rng.start;
        while i < end
            invariant
                rng.start <= i <= end,
                end <= self.states@.len(),
                self.states@.len() == old(self).states@.len(),
                self.base == old(self).base,
                forall|j: int|
                    0 <= j < old(self).states@.len() ==> self.states@[j] == (if rng.start <= j
                        < i {
                        PageState { taken: true, last: old(self).states@[j].last }
                    } else {
                        old(self).states@[j]
                    }),
            decreases end - i,
        {
            let s = PageState { taken: true, last: self.states[i].last };
            self.states[i] = s;
            i = i + 1;
        }
    }

    /// Releases every frame in `rng`: both marks cleared.
    pub fn free_range(&mut self, rng: core::ops::Range<usize>)
        requires
            rng.start <= rng.end,
            rng.end <= old(self).states@.len(),
        ensures
            final(self).states@.len() == old(self).states@.len(),
            final(self).base == old(self).base,
            forall|j: int|
                0 <= j < old(self).states@.len() ==> final(self).states@[j] == (if rng.start <= j
                    < rng.end {
                    empty_state()
                } else {
                    old(self).states@[j]
                }),
    {
        let end = rng.end;
        let mut i: usize = rng.start;
        while i < end
            invariant
                rng.start <= i <= end,
                end <= self.states@.len(),
                self.states@.len() == old(self).states@.len(),
                self.base == old(self).base,
                forall|j: int|
                    0 <= j < old(self).states@.len() ==> self.states@[j] == (if rng.start <= j
                        < i {
                        empty_state()
                    } else {
                        old(self).states@[j]
                    }),
            decreases end - i,
        {
            self.states[i] = PageState { taken: false, last: false };
            i = i + 1;
        }
    }

    /// Releases every frame of the store.
    pub fn clear_all(&mut self)
        ensures
            final(self).states@.len() == old(self).states@.len(),
            final(self).base == old(self).base,
            forall|j: int|
                0 <= j < final(self).states@.len() ==> final(self).states@[j] == empty_state(),
    {
        let cap = self.states.len();
        self.free_range(0..cap);
    }

    /// How many frames are currently allocated.
    pub fn pages_in_use(&self) -> (r: usize)
        ensures
            r == count_taken(self.states@),
    {
        let mut n: usize = 0;
        let mut i: usize = 0;
        while i < self.states.len()
            invariant
                i <= self.states@.len(),
                n == count_taken(self.states@.take(i as int)),
                n <= i,
            decreases self.states@.len() - i,
        {
            if self.states[i].taken {
                n = n + 1;
            }
            assert(self.states@.take(i + 1).drop_last() == self.states@.take(i as int));
            assert(self.states@.take(i + 1).last() == self.states@[i as int]);
            i = i + 1;
        }
        assert(self.states@.take(self.states@.len() as int) == self.states@);
        n
    }

    /// The frame index of the frame that starts at `ptr`, recovered as
    /// `(ptr - base) / PAGE_SIZE`.
    pub fn index_from_ptr(&self, ptr: u64) -> (r: usize)
        requires
            self.base.bits <= ptr,
            (ptr - self.base.bits) / (PAGE_SIZE as int) < self.states@.len(),
        ensures
            r == (ptr - self.base.bits) / (PAGE_SIZE as int),
    {
        let cap = self.states.len();
        let idx = (ptr - self.base.bits) / PAGE_SIZE;
        assert(idx < cap);
        idx as usize
    }
}

/// One page-sized extent of memory, read out of the allocator word by word.
pub struct Page {
    /// The page's contents as 512 eight-byte words.
    pub words: Vec<u64>,
}

/// A half-open range of addresses, in whole pages.
#[derive(Clone, Copy, Debug, PartialEq, Eq, Structural)]
pub struct PageRange(pub VirtAddr, pub VirtAddr);

impl PageRange {
    /// The range of `offset` bytes starting at `start`.
    pub fn new(start: u64, offset: usize) -> (r: Self)
        requires
            start + offset <= u64::MAX,
        ensures
            r.0.bits == start,
            r.1.bits == start + offset,
    {
        let s_addr = VirtAddr::new(start);
        let e_addr = s_addr.at_offset(offset);
        PageRange(s_addr, e_addr)
    }
}

} // verus!
