//! The physical page-frame allocator.
//!
//! The allocator owns the descriptor store and a word-by-word model of the
//! usable heap region, so the effect of every operation on both frame
//! states and memory contents is stated exactly. Frame index `i` maps to
//! the usable address `usable_base + i * PAGE_SIZE`; the usable base is the
//! page-aligned address just past the descriptor array, which occupies one
//! byte per frame at the start of the heap region.

use vstd::prelude::*;

use vstd::arithmetic::div_mod::{lemma_fundamental_div_mod, lemma_multiply_divide_lt};
use vstd::arithmetic::mul::lemma_mul_inequality;

use crate::addr::VirtAddr;
use crate::page::{
    clear_run, empty_state, free_run, mark_run, run_end, PageState, PageStateList, Page,
};
use crate::PAGE_SIZE;

verus! {

/// Why an allocator operation was refused. A refusal reports corruption or
/// a caller error; the allocator never mutates state before refusing.
#[derive(Clone, Copy, Debug, PartialEq, Eq, Structural)]
pub enum AllocError {
    /// The pointer handed to `free` lies outside the usable heap region.
    OutOfRange,
    /// The walk from the freed pointer met a free descriptor before any
    /// descriptor marked last: the run was already freed or is corrupt.
    DoubleFree,
    /// A mapping was requested whose flags grant none of read, write or
    /// execute, so the entry would not be a leaf.
    InvalidLeafFlags,
    /// No contiguous free run of the requested size exists.
    ExhaustedMemory,
}

/// `val` rounded up to the next multiple of `2^order`.
pub open spec fn spec_align_val(val: u64, order: u64) -> u64 {
    (((val + (((1u64 << order) - 1) as u64)) as u64) & !(((1u64 << order) - 1) as u64))
}

/// Frames `[j, k]` form one live allocation run: every frame before `k` is
/// taken and not last, and frame `k` is taken and last.
pub open spec fn live_run(ss: Seq<PageState>, j: int, k: int) -> bool {
    &&& 0 <= j <= k < ss.len()
    &&& forall|q: int| j <= q < k ==> ss[q].taken && !ss[q].last
    &&& ss[k].taken && ss[k].last
}

/// The physical page allocator: descriptor store, derived usable base
/// address, and the contents of the usable region as eight-byte words.
pub struct MaqAllocator {
    /// One descriptor per frame; its base address is the usable base.
    pub descriptors: PageStateList,
    /// Start of the heap region, where the descriptor array lives.
    pub heap_base: u64,
    /// The usable region's contents: 512 words per frame.
    pub memory: Vec<u64>,
}

impl MaqAllocator {
    /// How many frames the allocator manages.
    pub open spec fn n_frames(&self) -> int {
        self.descriptors.states@.len() as int
    }

    /// The page-aligned address of frame 0.
    pub open spec fn usable_base(&self) -> u64 {
        self.descriptors.base.bits
    }

    /// The frame descriptors, frame index order.
    pub open spec fn states(&self) -> Seq<PageState> {
        self.descriptors.states@
    }

    /// The usable region's words.
    pub open spec fn mem(&self) -> Seq<u64> {
        self.memory@
    }

    /// One past the last usable address.
    pub open spec fn usable_end(&self) -> int {
        self.usable_base() + self.n_frames() * (PAGE_SIZE as int)
    }

    /// Structural soundness: the memory model covers exactly the frames,
    /// the usable base is page-aligned just past the descriptor array, all
    /// frame addresses fit the machine word, and a descriptor marked last
    /// is always marked taken.
    pub open spec fn wf(&self) -> bool {
        &&& self.mem().len() == self.n_frames() * 512
        &&& self.usable_base() % (PAGE_SIZE as u64) == 0
        &&& self.usable_base() == spec_align_val((self.heap_base + self.n_frames()) as u64, 12)
        &&& self.heap_base <= self.usable_base() <= self.heap_base + self.n_frames() + 4095
        &&& self.usable_end() <= usize::MAX
        &&& forall|j: int| 0 <= j < self.n_frames() ==> (self.states()[j].last ==> self.states()[j].taken)
    }

    /// Rounds `val` up to the next multiple of `2^order` with a mask.
    pub fn align_val(val: usize, order: usize) -> (r: usize)
        requires
            order < 64,
            val + (1u64 << (order as u64)) - 1 <= usize::MAX,
        ensures
            r == spec_align_val(val as u64, order as u64),
    {
        proof {
            let o = order as u64;
            assert(1u64 << o >= 1) by (bit_vector)
                requires
                    o < 64,
            ;
        }
        let mask: u64 = (1u64 << (order as u64)) - 1;
        let aligned: u64 = (val as u64 + mask) & !mask;
        proof {
            let vm = (val as u64 + mask) as u64;
            assert(vm & !mask <= vm) by (bit_vector);
        }
        aligned as usize
    }

    /// Builds an allocator over the heap region `[heap_start,
    /// heap_start + heap_size)`: one descriptor per `PAGE_SIZE`-sized
    /// frame, every frame free, every modeled word zero.
    pub fn new(heap_start: u64, heap_size: u64) -> (r: Self)
        requires
            heap_start % (PAGE_SIZE as u64) == 0,
            heap_start + heap_size + heap_size as int / (PAGE_SIZE as int) + (PAGE_SIZE as int)
                <= usize::MAX,
        ensures
            r.wf(),
            r.heap_base == heap_start,
            r.n_frames() == heap_size as int / (PAGE_SIZE as int),
            forall|j: int| 0 <= j < r.n_frames() ==> r.states()[j] == empty_state(),
            forall|w: int| 0 <= w < r.mem().len() ==> r.mem()[w] == 0,
    {
        let n = (heap_size / PAGE_SIZE) as usize;
        proof {
            lemma_fundamental_div_mod(heap_size as int, PAGE_SIZE as int);
            assert(n * (PAGE_SIZE as int) <= heap_size);
            assert(1u64 << 12u64 == 4096) by (bit_vector);
        }
        let raw = heap_start as usize + n;
        let usable = Self::align_val(raw, crate::PAGE_ORDER);
        proof {
            let v = raw as u64;
            let m: u64 = ((1u64 << 12u64) - 1) as u64;
            assert((((v + m) as u64) & !m) % 4096 == 0 && v <= (((v + m) as u64) & !m) && (((v
                + m) as u64) & !m) <= (v + 4095) as u64) by (bit_vector)
                requires
                    m == 4095u64,
                    v <= 0xffff_ffff_ffff_f000u64,
            ;
            assert(spec_align_val(v, 12) == ((v + m) as u64) & !m);
        }
        let descriptors = PageStateList::new(n, VirtAddr::new(usable as u64));
        let words = n * 512;
        let mut memory: Vec<u64> = Vec::new();
        let mut i: usize = 0;
        while i < words
            invariant
                i <= words,
                memory@.len() == i,
                forall|w: int| 0 <= w < i ==> memory@[w] == 0,
            decreases words - i,
        {
            memory.push(0);
            i = i + 1;
        }
        MaqAllocator { descriptors, heap_base: heap_start, memory }
    }

    /// The usable address of frame `idx`, or `None` past the last frame.
    pub fn page_by_idx_mut(&self, idx: usize) -> (r: Option<u64>)
        requires
            self.wf(),
        ensures
            match r {
                Some(a) => idx < self.n_frames() && a == self.usable_base() + idx * (
                PAGE_SIZE as int),
                None => idx >= self.n_frames(),
            },
    {
        if idx < self.descriptors.capacity() {
            Some(self.descriptors.base.bits + (idx as u64) * PAGE_SIZE)
        } else {
            None
        }
    }

    /// Allocates `pages` contiguous frames, first fit from frame 0: the
    /// run's first `pages - 1` descriptors become taken, its final
    /// descriptor taken and last, every other descriptor and all memory
    /// contents are untouched. Returns the usable address of the run's
    /// first frame, or `None` when no free run of that length exists.
    pub fn alloc_pages(&mut self, pages: usize) -> (r: Option<u64>)
        requires
            old(self).wf(),
            pages >= 1,
        ensures
            final(self).wf(),
            final(self).heap_base == old(self).heap_base,
            final(self).usable_base() == old(self).usable_base(),
            final(self).n_frames() == old(self).n_frames(),
            final(self).mem() == old(self).mem(),
            match r {
                Some(addr) => exists|i: int|
                    {
                        &&& 0 <= i
                        &&& i + pages <= old(self).n_frames()
                        &&& addr == old(self).usable_base() + i * (PAGE_SIZE as int)
                        &&& free_run(old(self).states(), i, pages as int)
                        &&& forall|q: int| 0 <= q < i ==> !free_run(old(self).states(), q, pages as int)
                        &&& final(self).states() == mark_run(old(self).states(), i, pages as int)
                    },
                None => {
                    &&& final(self).states() == old(self).states()
                    &&& forall|q: int|
                        0 <= q <= old(self).n_frames() - pages ==> !free_run(
                            old(self).states(),
                            q,
                            pages as int,
                        )
                },
            },
    {
        let cap = self.descriptors.capacity();
        match self.descriptors.has_contig_free_space(pages) {
            Some(idx) => {
                let ghost pre = self.descriptors.states@;
                self.descriptors.take_range(idx..idx + pages);
                self.descriptors.set_state(
                    idx + pages - 1,
                    PageState { taken: true, last: true },
                );
                proof {
                    let marked = mark_run(pre, idx as int, pages as int);
                    assert forall|j: int| 0 <= j < pre.len() implies self.descriptors.states@[j]
                        == marked[j] by {
                        assert(free_run(pre, idx as int, pages as int));
                        if idx <= j < idx + pages {
                            assert(pre[j] == empty_state());
                        }
                    }
                    assert(self.descriptors.states@ =~= marked);
                    lemma_mul_inequality(idx + pages, cap as int, PAGE_SIZE as int);
                    assert(idx * (PAGE_SIZE as int) + pages * (PAGE_SIZE as int) == (idx
                        + pages) * (PAGE_SIZE as int)) by (nonlinear_arith);
                    assert(self.states() == mark_run(old(self).states(), idx as int, pages as int));
                    assert(free_run(old(self).states(), idx as int, pages as int));
                    assert(self.wf());
                }
                Some(self.descriptors.base.bits + (idx as u64) * PAGE_SIZE)
            },
            None => None,
        }
    }

    /// Allocates like `alloc_pages`, then zero-fills the run's entire
    /// `pages * PAGE_SIZE` byte extent before returning it.
    #[verifier::loop_isolation(false)]
    pub fn zalloc(&mut self, pages: usize) -> (r: Option<u64>)
        requires
            old(self).wf(),
            pages >= 1,
        ensures
            final(self).wf(),
            final(self).heap_base == old(self).heap_base,
            final(self).usable_base() == old(self).usable_base(),
            final(self).n_frames() == old(self).n_frames(),
            match r {
                Some(addr) => exists|i: int|
                    {
                        &&& 0 <= i
                        &&& i + pages <= old(self).n_frames()
                        &&& addr == old(self).usable_base() + i * (PAGE_SIZE as int)
                        &&& free_run(old(self).states(), i, pages as int)
                        &&& forall|q: int| 0 <= q < i ==> !free_run(old(self).states(), q, pages as int)
                        &&& final(self).states() == mark_run(old(self).states(), i, pages as int)
                        &&& final(self).mem().len() == old(self).mem().len()
                        &&& forall|w: int|
                            0 <= w < final(self).mem().len() ==> final(self).mem()[w] == (if i * 512
                                <= w < (i + pages) * 512 {
                                0u64
                            } else {
                                old(self).mem()[w]
                            })
                    },
                None => {
                    &&& final(self).states() == old(self).states()
                    &&& final(self).mem() == old(self).mem()
                    &&& forall|q: int|
                        0 <= q <= old(self).n_frames() - pages ==> !free_run(
                            old(self).states(),
                            q,
                            pages as int,
                        )
                },
            },
    {
        let r = self.alloc_pages(pages);
        match r {
            Some(addr) => {
                let ghost i = choose|i: int|
                    {
                        &&& 0 <= i
                        &&& i + pages <= old(self).n_frames()
                        &&& addr == old(self).usable_base() + i * (PAGE_SIZE as int)
                        &&& free_run(old(self).states(), i, pages as int)
                        &&& forall|q: int| 0 <= q < i ==> !free_run(old(self).states(), q, pages as int)
                        &&& self.descriptors.states@ == mark_run(
                            old(self).states(),
                            i,
                            pages as int,
                        )
                    };
                proof {
                    assert(addr - self.usable_base() == i * (PAGE_SIZE as int));
                    assert((i * (PAGE_SIZE as int)) / 8 == i * 512 && i * (PAGE_SIZE as int) % 8
                        == 0) by (nonlinear_arith);
                    lemma_mul_inequality(i + pages, self.n_frames(), 512);
                    assert(i * 512 + pages * 512 == (i + pages) * 512) by (nonlinear_arith);
                    assert(i * 512 >= 0) by (nonlinear_arith)
                        requires
                            i >= 0,
                    ;
                }
                let start = ((addr - self.descriptors.base.bits) / 8) as usize;
                let count = pages * 512;
                let ghost mid = *self;
                let mut w: usize = 0;
                while w < count
                    invariant
                        w <= count,
                        start + count <= self.memory@.len(),
                        self.memory@.len() == mid.mem().len(),
                        self.descriptors == mid.descriptors,
                        self.heap_base == mid.heap_base,
                        forall|q: int|
                            0 <= q < self.memory@.len() ==> self.memory@[q] == (if start <= q
                                < start + w {
                                0u64
                            } else {
                                mid.mem()[q]
                            }),
                    decreases count - w,
                {
                    self.memory[start + w] = 0;
                    w = w + 1;
                }
                Some(addr)
            },
            None => None,
        }
    }

    /// Releases the run that starts at `ptr`, a usable address previously
    /// returned by `alloc_pages` or `zalloc`. The walk from the recovered
    /// frame index clears each taken descriptor until it clears the one
    /// marked last; meeting a free descriptor first is a double free and
    /// refuses without mutating anything.
    #[verifier::loop_isolation(false)]
    pub fn free(&mut self, ptr: u64) -> (r: Result<(), AllocError>)
        requires
            old(self).wf(),
        ensures
            final(self).wf(),
            final(self).heap_base == old(self).heap_base,
            final(self).usable_base() == old(self).usable_base(),
            final(self).n_frames() == old(self).n_frames(),
            final(self).mem() == old(self).mem(),
            ({
                let idx = (ptr - old(self).usable_base()) / (PAGE_SIZE as int);
                let in_range = old(self).usable_base() <= ptr < old(self).usable_end();
                match r {
                    Ok(()) => {
                        &&& in_range
                        &&& run_end(old(self).states(), idx).is_some()
                        &&& final(self).states() == clear_run(
                            old(self).states(),
                            idx,
                            run_end(old(self).states(), idx).unwrap(),
                        )
                    },
                    Err(AllocError::OutOfRange) => !in_range && final(self).states() == old(
                        self,
                    ).states(),
                    Err(AllocError::DoubleFree) => {
                        &&& in_range
                        &&& run_end(old(self).states(), idx).is_none()
                        &&& final(self).states() == old(self).states()
                    },
                    Err(_) => false,
                }
            }),
    {
        let base = self.descriptors.base.bits;
        let cap = self.descriptors.capacity();
        if ptr < base || ptr >= base + (cap as u64) * PAGE_SIZE {
            return Err(AllocError::OutOfRange);
        }
        proof {
            lemma_multiply_divide_lt(ptr - base, cap as int, PAGE_SIZE as int);
        }
        let idx = self.descriptors.index_from_ptr(ptr);
        let ghost gidx = idx as int;
        let mut k = idx;
        loop
            invariant
                self == old(self),
                idx <= k <= cap,
                run_end(self.states(), gidx) == run_end(self.states(), k as int),
            decreases cap - k,
        {
            if k == cap {
                proof {
                    assert(run_end(self.states(), k as int).is_none());
                }
                return Err(AllocError::DoubleFree);
            }
            let s = self.descriptors.state_at(k);
            if s.last {
                proof {
                    assert(run_end(self.states(), k as int) == Some(k as int));
                }
                let ghost pre = self.descriptors.states@;
                self.descriptors.free_range(idx..k + 1);
                proof {
                    assert(self.descriptors.states@ =~= clear_run(pre, gidx, k as int));
                }
                return Ok(());
            }
            if !s.taken {
                proof {
                    assert(run_end(self.states(), k as int).is_none());
                }
                return Err(AllocError::DoubleFree);
            }
            proof {
                assert(run_end(self.states(), k as int) == run_end(self.states(), k + 1));
            }
            k = k + 1;
        }
    }

    /// The word stored at the eight-byte-aligned usable address `addr`.
    pub fn read_word(&self, addr: u64) -> (r: u64)
        requires
            self.wf(),
            self.usable_base() <= addr < self.usable_end(),
        ensures
            r == self.mem()[(addr - self.usable_base()) / 8],
    {
        let widx = ((addr - self.descriptors.base.bits) / 8) as usize;
        self.memory[widx]
    }

    /// Stores `v` in the word at the usable address `addr`; frame states
    /// and every other word are untouched.
    pub fn write_word(&mut self, addr: u64, v: u64)
        requires
            old(self).wf(),
            old(self).usable_base() <= addr < old(self).usable_end(),
        ensures
            final(self).wf(),
            final(self).heap_base == old(self).heap_base,
            final(self).usable_base() == old(self).usable_base(),
            final(self).states() == old(self).states(),
            final(self).mem() == old(self).mem().update(
                (addr - old(self).usable_base()) / 8,
                v,
            ),
    {
        proof {
            lemma_multiply_divide_lt(
                addr - self.usable_base(),
                8,
                self.n_frames() * 512,
            );
            assert(self.n_frames() * (PAGE_SIZE as int) == 8 * (self.n_frames() * 512));
        }
        let widx = ((addr - self.descriptors.base.bits) / 8) as usize;
        self.memory[widx] = v;
        proof {
            assert(self.states() == old(self).states());
            assert(self.wf());
        }
    }

    /// The live allocation runs, low frames first, each as the index of
    /// its first frame and its length in frames: every reported run is a
    /// live run of the descriptor store, no two overlap, and every
    /// descriptor marked last ends exactly one reported run.
    #[verifier::loop_isolation(false)]
    pub fn allocation_runs(&self) -> (r: Vec<(usize, usize)>)
        requires
            self.wf(),
        ensures
            forall|k: int|
                0 <= k < r@.len() ==> (#[trigger] r@[k]).1 >= 1 && live_run(
                    self.states(),
                    r@[k].0 as int,
                    r@[k].0 + r@[k].1 - 1,
                ),
            forall|k1: int, k2: int|
                0 <= k1 < k2 < r@.len() ==> (#[trigger] r@[k1]).0 + r@[k1].1
                    <= (#[trigger] r@[k2]).0,
            forall|j: int|
                0 <= j < self.n_frames() && self.states()[j].taken && self.states()[j].last
                    ==> exists|k: int| 0 <= k < r@.len() && (#[trigger] r@[k]).0 + r@[k].1 - 1 == j,
    {
        let n = self.descriptors.capacity();
        let mut runs: Vec<(usize, usize)> = Vec::new();
        let mut i: usize = 0;
        while i < n
            invariant
                i <= n,
                forall|k: int|
                    0 <= k < runs@.len() ==> (#[trigger] runs@[k]).1 >= 1 && live_run(
                        self.states(),
                        runs@[k].0 as int,
                        runs@[k].0 + runs@[k].1 - 1,
                    ) && runs@[k].0 + runs@[k].1 <= i,
                forall|k1: int, k2: int|
                    0 <= k1 < k2 < runs@.len() ==> (#[trigger] runs@[k1]).0 + runs@[k1].1
                        <= (#[trigger] runs@[k2]).0,
                forall|j: int|
                    0 <= j < i && self.states()[j].taken && self.states()[j].last ==> exists|
                        k: int,
                    | 0 <= k < runs@.len() && (#[trigger] runs@[k]).0 + runs@[k].1 - 1 == j,
            decreases n - i,
        {
            if self.descriptors.state_at(i).is_empty() {
                i = i + 1;
            } else {
                let start = i;
                let mut j = i;
                while j < n && self.descriptors.state_at(j).is_taken()
                    && !self.descriptors.state_at(j).is_last()
                    invariant
                        start <= j <= n,
                        forall|q: int|
                            start <= q < j ==> self.states()[q].taken && !self.states()[q].last,
                    decreases n - j,
                {
                    j = j + 1;
                }
                if j < n && self.descriptors.state_at(j).is_last() {
                    let ghost pre = runs@;
                    runs.push((start, j - start + 1));
                    proof {
                        assert(live_run(self.states(), start as int, j as int));
                        assert(runs@ == pre.push((start, (j - start + 1) as usize)));
                        assert forall|k1: int, k2: int|
                            0 <= k1 < k2 < runs@.len() implies (#[trigger] runs@[k1]).0
                            + runs@[k1].1 <= (#[trigger] runs@[k2]).0 by {
                            if k2 == pre.len() {
                                assert(runs@[k1] == pre[k1]);
                                assert(pre[k1].0 + pre[k1].1 <= start);
                            } else {
                                assert(runs@[k1] == pre[k1] && runs@[k2] == pre[k2]);
                            }
                        }
                        assert forall|jj: int|
                            0 <= jj < j + 1 && self.states()[jj].taken
                                && self.states()[jj].last implies exists|k: int|
                            0 <= k < runs@.len() && (#[trigger] runs@[k]).0 + runs@[k].1 - 1
                                == jj by {
                            if jj == j {
                                assert(runs@[pre.len() as int].0 + runs@[pre.len() as int].1 - 1
                                    == jj);
                            } else if jj < start {
                                let k = choose|k: int|
                                    0 <= k < pre.len() && (#[trigger] pre[k]).0 + pre[k].1 - 1
                                        == jj;
                                assert(runs@[k] == pre[k]);
                                assert(runs@[k].0 + runs@[k].1 - 1 == jj);
                            } else {
                                assert(!self.states()[jj].last);
                            }
                        }
                    }
                    i = j + 1;
                } else {
                    // the stretch holds no last descriptor: nothing to report
                    i = if j < n {
                        j + 1
                    } else {
                        n
                    };
                }
            }
        }
        runs
    }

    /// A snapshot of frame `idx`'s 512 words.
    pub fn read_page(&self, idx: usize) -> (r: Page)
        requires
            self.wf(),
            idx < self.n_frames(),
        ensures
            r.words@.len() == 512,
            forall|w: int| 0 <= w < 512 ==> r.words@[w] == self.mem()[idx * 512 + w],
    {
        let mut words: Vec<u64> = Vec::new();
        let mut w: usize = 0;
        while w < 512
            invariant
                w <= 512,
                words@.len() == w,
                self.wf(),
                idx < self.n_frames(),
                forall|q: int| 0 <= q < w ==> words@[q] == self.mem()[idx * 512 + q],
            decreases 512 - w,
        {
            words.push(self.memory[idx * 512 + w]);
            w = w + 1;
        }
        Page { words }
    }
}

/// Releasing a run immediately after allocating it restores the descriptor
/// store exactly: the walk from the run's first frame stops at its final
/// frame, and clearing those frames undoes the marking, because the run
/// was free before the allocation.
pub proof fn lemma_alloc_free_round_trip(ss: Seq<PageState>, i: int, n: int)
    requires
        0 <= i,
        1 <= n,
        i + n <= ss.len(),
        free_run(ss, i, n),
    ensures
        run_end(mark_run(ss, i, n), i) == Some(i + n - 1),
        clear_run(mark_run(ss, i, n), i, i + n - 1) == ss,
{
    lemma_run_end_of_marked(ss, i, n, i);
    assert(clear_run(mark_run(ss, i, n), i, i + n - 1) =~= ss);
}

/// The walk of `run_end` started anywhere inside a freshly marked run
/// finds the run's final frame.
proof fn lemma_run_end_of_marked(ss: Seq<PageState>, i: int, n: int, j: int)
    requires
        0 <= i,
        1 <= n,
        i + n <= ss.len(),
        i <= j < i + n,
    ensures
        run_end(mark_run(ss, i, n), j) == Some(i + n - 1),
    decreases i + n - j,
{
    if j < i + n - 1 {
        lemma_run_end_of_marked(ss, i, n, j + 1);
    }
}

/// Allocating a free run never touches any other live run: every live run
/// is disjoint from the free frames being marked and keeps its descriptors
/// unchanged.
pub proof fn lemma_alloc_preserves_live_runs(ss: Seq<PageState>, i: int, n: int, j: int, k: int)
    requires
        0 <= i,
        1 <= n,
        i + n <= ss.len(),
        free_run(ss, i, n),
        live_run(ss, j, k),
    ensures
        k < i || j >= i + n,
        forall|q: int| j <= q <= k ==> mark_run(ss, i, n)[q] == ss[q],
        live_run(mark_run(ss, i, n), j, k),
{
    assert(ss[k].taken);
    if i <= k < i + n {
        assert(ss[k] == empty_state());
        assert(false);
    }
    if i <= j < i + n {
        assert(ss[j].taken);
        assert(ss[j] == empty_state());
        assert(false);
    }
    if j < i && k >= i {
        assert(ss[i].taken && ss[i] == empty_state());
        assert(false);
    }
}

} // verus!
