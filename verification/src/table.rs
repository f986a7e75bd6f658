//! The sv39 page-table manager: a three-level radix tree of 512-entry
//! tables, stored inside frames drawn from the physical page allocator.
//!
//! An entry is classified a leaf when any of its read, write or execute
//! bits is set; a valid entry without them is a branch, whose physical page
//! numbers, shifted left by two, reconstruct the address of the next-level
//! table. A ghost map from table address to level and frame index carries
//! the tree's shape: every branch target is a known table one level down,
//! no two branch entries share a target, and nothing points back at the
//! root.

use vstd::prelude::*;

use vstd::arithmetic::div_mod::{
    lemma_div_by_multiple, lemma_div_is_ordered, lemma_fundamental_div_mod,
    lemma_mod_multiples_basic,
};

use crate::addr::{spec_vpn, PhysAddr, VirtAddr};
use crate::allocator::{AllocError, MaqAllocator};
use crate::page::{
    clear_run, count_free, empty_state, free_run, lemma_count_free_mark_one,
    lemma_no_free_run_count, mark_run, run_end, PageState,
};
use crate::PAGE_SIZE;

verus! {

/// Entry bit: the entry maps something.
pub const PTE_VALID: u64 = 1;

/// Entry bit: the mapped page may be read.
pub const PTE_READ: u64 = 2;

/// Entry bit: the mapped page may be written.
pub const PTE_WRITE: u64 = 4;

/// Entry bit: the mapped page may be executed.
pub const PTE_EXECUTE: u64 = 8;

/// Entry bit: the mapping is visible to user mode.
pub const PTE_USER: u64 = 16;

/// Entry bit: the mapping exists in every address space.
pub const PTE_GLOBAL: u64 = 32;

/// Entry bit: the page was touched since the bit was cleared.
pub const PTE_ACCESSED: u64 = 64;

/// Entry bit: the page was written since the bit was cleared.
pub const PTE_DIRTY: u64 = 128;

/// The entry maps something.
pub open spec fn pte_valid(e: u64) -> bool {
    e & PTE_VALID == PTE_VALID
}

/// Some of the read, write or execute bits are set.
pub open spec fn pte_rwx(e: u64) -> bool {
    e & 0xeu64 != 0
}

/// A leaf that is also valid: translation stops here.
pub open spec fn pte_valid_leaf(e: u64) -> bool {
    pte_valid(e) && pte_rwx(e)
}

/// A branch that is also valid: the walk descends through it to the
/// next-level table.
pub open spec fn pte_valid_branch(e: u64) -> bool {
    pte_valid(e) && !pte_rwx(e)
}

/// The next-level table's address held in a branch entry: the entry with
/// its flag bits masked off, shifted left by two.
pub open spec fn pte_child(e: u64) -> u64 {
    (e & 0xffff_ffff_ffff_fc00u64) << 2
}

/// The physical address a leaf entry found at `level` translates `va` to:
/// the entry's page numbers down to `level`, then `va`'s low `12 + 9 *
/// level` bits untranslated.
pub open spec fn pte_leaf_pa(e: u64, va: u64, level: int) -> u64 {
    if level == 0 {
        (((e >> 10) & 0xfff_ffff_ffffu64) << 12) | (va & 0xfffu64)
    } else if level == 1 {
        (((e >> 19) & 0x7_ffff_ffffu64) << 21) | (va & 0x1f_ffffu64)
    } else {
        (((e >> 28) & 0x3ff_ffffu64) << 30) | (va & 0x3fff_ffffu64)
    }
}

/// The leaf entry that `map_range` writes: the physical page numbers of
/// `pa` in bits 10 and up, the caller's flag bits, and valid, accessed and
/// dirty set eagerly.
pub open spec fn spec_leaf_entry(pa: u64, flags: u64) -> u64 {
    ((((pa >> 30) & 0x3ff_ffffu64) << 28) | (((pa >> 21) & 0x1ffu64) << 19) | (((pa >> 12)
        & 0x1ffu64) << 10) | flags | PTE_VALID | PTE_ACCESSED | PTE_DIRTY)
}

/// The frame index a table address falls in.
pub open spec fn table_frame(a: MaqAllocator, t: u64) -> int {
    (t - a.usable_base()) / (PAGE_SIZE as int)
}

/// The raw entry stored at slot `s` of the table at address `t`.
pub open spec fn entry_of(a: MaqAllocator, t: u64, s: int) -> u64 {
    a.mem()[table_frame(a, t) * 512 + s]
}

/// The translation walk from the table at `t`, which sits at `level`:
/// an invalid entry fails, a leaf resolves, a branch descends, and a
/// branch in a level-0 table fails rather than walk below the last level.
pub open spec fn translate_from(a: MaqAllocator, t: u64, va: u64, level: int) -> Option<u64>
    decreases level,
{
    if level < 0 {
        None
    } else {
        let e = entry_of(a, t, spec_vpn(va, level) as int);
        if !pte_valid(e) {
            None
        } else if pte_rwx(e) {
            Some(pte_leaf_pa(e, va, level))
        } else if level == 0 {
            None
        } else {
            translate_from(a, pte_child(e), va, level - 1)
        }
    }
}

/// The table that the walk for `va` from `t` (at `level`) stands at when
/// it has descended to `down_to`, or `None` when a non-branch entry stops
/// the descent first.
pub open spec fn walk_table(a: MaqAllocator, t: u64, va: u64, level: int, down_to: int) -> Option<
    u64,
>
    decreases level - down_to,
{
    if level < down_to {
        None
    } else if level == down_to {
        Some(t)
    } else {
        let e = entry_of(a, t, spec_vpn(va, level) as int);
        if pte_valid_branch(e) {
            walk_table(a, pte_child(e), va, level - 1, down_to)
        } else {
            None
        }
    }
}

/// The walk for `va` meets no leaf strictly above `down_to`, so a mapping
/// may be installed for `va` at level `down_to` without descending through
/// a leaf.
pub open spec fn path_mappable(a: MaqAllocator, t: u64, va: u64, level: int, down_to: int) -> bool
    decreases level - down_to,
{
    level <= down_to || {
        let e = entry_of(a, t, spec_vpn(va, level) as int);
        &&& !pte_valid_leaf(e)
        &&& (pte_valid_branch(e) ==> path_mappable(a, pte_child(e), va, level - 1, down_to))
    }
}

/// Where one table of the tree lives: its level and its frame index.
pub struct TableMeta {
    /// The level this table is indexed at: 2 for the root, 0 for the last.
    pub level: int,
    /// The frame of the allocator's usable region holding the table.
    pub frame: int,
}

/// The tree's shape, relative to the allocator `a`, for the ghost map
/// `tables` from table address to its place:
/// every known table occupies one whole live frame and is indexed at a
/// level at most 2; every branch entry of a known table targets a known
/// table exactly one level down and never the table at `root`; and no two
/// branch entries share a target.
pub open spec fn tables_wf(tables: Map<u64, TableMeta>, root: u64, a: MaqAllocator) -> bool {
    &&& forall|t: u64| #[trigger]
        tables.dom().contains(t) ==> {
            &&& 0 <= tables[t].level <= 2
            &&& 0 <= tables[t].frame < a.n_frames()
            &&& t == a.usable_base() + tables[t].frame * (PAGE_SIZE as int)
            &&& a.states()[tables[t].frame].taken
            &&& a.states()[tables[t].frame].last
        }
    &&& forall|t: u64, s: int|
        tables.dom().contains(t) && 0 <= s < 512 && #[trigger] pte_valid_branch(entry_of(a, t, s)) ==> {
            &&& tables[t].level >= 1
            &&& tables.dom().contains(pte_child(entry_of(a, t, s)))
            &&& tables[pte_child(entry_of(a, t, s))].level == tables[t].level - 1
            &&& pte_child(entry_of(a, t, s)) != root
        }
    &&& forall|t1: u64, s1: int, t2: u64, s2: int|
        tables.dom().contains(t1) && tables.dom().contains(t2) && 0 <= s1 < 512 && 0 <= s2 < 512
            && #[trigger] pte_valid_branch(entry_of(a, t1, s1)) && #[trigger] pte_valid_branch(
            entry_of(a, t2, s2),
        ) && (t1 != t2 || s1 != s2) ==> pte_child(entry_of(a, t1, s1)) != pte_child(
            entry_of(a, t2, s2),
        )
}

/// No table above level 0 holds a leaf entry, so every address can still
/// be mapped at level 0.
pub open spec fn no_high_leaves(tables: Map<u64, TableMeta>, a: MaqAllocator) -> bool {
    forall|t: u64, s: int|
        tables.dom().contains(t) && 0 <= s < 512 && tables[t].level >= 1 ==> !pte_valid_leaf(
            #[trigger] entry_of(a, t, s),
        )
}

/// One sv39 page-table entry.
#[derive(Clone, Copy, Debug, PartialEq, Eq, Structural)]
pub struct PageTableEntry {
    /// The raw 64-bit entry.
    pub bits: u64,
}

impl PageTableEntry {
    /// An entry with the given raw bits.
    pub fn from_bits(v: u64) -> (r: Self)
        ensures
            r.bits == v,
    {
        PageTableEntry { bits: v }
    }

    /// Whether this entry maps something.
    pub fn is_valid(&self) -> (r: bool)
        ensures
            r == pte_valid(self.bits),
    {
        self.bits & PTE_VALID == PTE_VALID
    }

    /// Whether this entry fails translation.
    pub fn is_invalid(&self) -> (r: bool)
        ensures
            r == !pte_valid(self.bits),
    {
        !self.is_valid()
    }

    /// Whether this entry is classified a leaf: some of its read, write
    /// or execute bits are set. Validity plays no part in the
    /// classification; a valid leaf terminates translation.
    pub fn is_leaf(&self) -> (r: bool)
        ensures
            r == pte_rwx(self.bits),
    {
        self.bits & 0xe != 0
    }

    /// Whether this entry is classified a branch: none of its access bits
    /// are set, the complement of `is_leaf`. A valid branch points at the
    /// next-level table.
    pub fn is_branch(&self) -> (r: bool)
        ensures
            r == !pte_rwx(self.bits),
    {
        self.bits & 0xe == 0
    }

    /// Overwrites the raw bits.
    pub fn set_bits(&mut self, v: u64)
        ensures
            final(self).bits == v,
    {
        self.bits = v;
    }

    /// The raw bits.
    pub fn into_inner(&self) -> (r: u64)
        ensures
            r == self.bits,
    {
        self.bits
    }
}

/// The handle to one three-level page-table tree: the root table's address
/// and, as ghost state, where every table of the tree lives.
pub struct PageTable {
    /// Address of the root table's frame.
    pub root: u64,
    /// Each table's address, level and frame.
    pub tables: Ghost<Map<u64, TableMeta>>,
}

impl PageTable {
    /// The tree is well formed over the allocator `a`.
    pub open spec fn wf(&self, a: MaqAllocator) -> bool {
        &&& a.wf()
        &&& self.tables@.dom().contains(self.root)
        &&& self.tables@[self.root].level == 2
        &&& tables_wf(self.tables@, self.root, a)
    }

    /// No leaf sits above level 0 anywhere in the tree.
    pub open spec fn only_level0_leaves(&self, a: MaqAllocator) -> bool {
        no_high_leaves(self.tables@, a)
    }

    /// Builds an empty tree: the root frame is the lowest free frame of
    /// `a`, drawn zero-filled, so all 512 root slots are invalid and every
    /// translation fails. Returns `None` exactly when no frame is free.
    pub fn new(a: &mut MaqAllocator) -> (r: Option<PageTable>)
        requires
            old(a).wf(),
        ensures
            final(a).wf(),
            final(a).usable_base() == old(a).usable_base(),
            final(a).n_frames() == old(a).n_frames(),
            final(a).heap_base == old(a).heap_base,
            match r {
                Some(pt) => {
                    &&& pt.wf(*final(a))
                    &&& pt.only_level0_leaves(*final(a))
                    &&& forall|va: u64| translate_from(*final(a), pt.root, va, 2) is None
                    &&& forall|s: int|
                        0 <= s < 512 ==> #[trigger] entry_of(*final(a), pt.root, s) == 0u64
                    &&& ({
                        let f = table_frame(*final(a), pt.root);
                        &&& 0 <= f < old(a).n_frames()
                        &&& pt.root == old(a).usable_base() + f * (PAGE_SIZE as int)
                        &&& old(a).states()[f] == empty_state()
                        &&& forall|q: int| 0 <= q < f ==> !free_run(old(a).states(), q, 1)
                        &&& final(a).states() == mark_run(old(a).states(), f, 1)
                        &&& count_free(final(a).states()) == count_free(old(a).states()) - 1
                    })
                    &&& forall|j: int|
                        0 <= j < old(a).n_frames() && old(a).states()[j].taken
                            ==> final(a).states()[j] == old(a).states()[j]
                    &&& forall|w: int|
                        0 <= w < old(a).mem().len() && !(table_frame(*final(a), pt.root) * 512 <= w
                            < table_frame(*final(a), pt.root) * 512 + 512) ==> final(a).mem()[w]
                            == old(a).mem()[w]
                },
                None => {
                    &&& final(a).states() == old(a).states()
                    &&& final(a).mem() == old(a).mem()
                    &&& count_free(old(a).states()) == 0
                },
            },
    {
        match a.zalloc(1) {
            Some(addr) => {
                let ghost i = choose|i: int|
                    {
                        &&& 0 <= i
                        &&& i + 1 <= old(a).n_frames()
                        &&& addr == old(a).usable_base() + i * (PAGE_SIZE as int)
                        &&& free_run(old(a).states(), i, 1)
                        &&& forall|q: int| 0 <= q < i ==> !free_run(old(a).states(), q, 1)
                        &&& a.states() == mark_run(old(a).states(), i, 1)
                        &&& a.mem().len() == old(a).mem().len()
                        &&& forall|w: int|
                            0 <= w < a.mem().len() ==> a.mem()[w] == (if i * 512 <= w < (i + 1)
                                * 512 {
                                0u64
                            } else {
                                old(a).mem()[w]
                            })
                    };
                let pt = PageTable {
                    root: addr,
                    tables: Ghost(
                        Map::empty().insert(addr, TableMeta { level: 2, frame: i }),
                    ),
                };
                proof {
                    lemma_table_frame_of(*a, addr, i);
                    lemma_count_free_mark_one(old(a).states(), i);
                    assert(0u64 & 1u64 == 0u64) by (bit_vector);
                    assert forall|s: int| 0 <= s < 512 implies entry_of(*a, addr, s) == 0u64 by {
                        assert(i * 512 <= i * 512 + s < (i + 1) * 512);
                        assert(a.mem()[i * 512 + s] == 0u64);
                    }
                    assert forall|va: u64| translate_from(*a, pt.root, va, 2) is None by {
                        lemma_vpn_bounds(va);
                        assert(entry_of(*a, addr, spec_vpn(va, 2) as int) == 0u64);
                        assert(!pte_valid(0u64));
                    }
                }
                Some(pt)
            },
            None => {
                proof {
                    lemma_no_free_run_count(a.states());
                }
                None
            },
        }
    }

    /// Makes the entry at slot `slot` of the table at `t` (a known table
    /// at level `lvl`) a branch: an already-valid entry is followed, an
    /// invalid one gets a fresh zero-filled table drawn from `a`. Returns
    /// the next-level table's address; translations are unchanged either
    /// way.
    fn ensure_branch(&mut self, a: &mut MaqAllocator, t: u64, slot: u64, Ghost(lvl): Ghost<int>)
        -> (r: Result<u64, AllocError>)
        requires
            old(self).wf(*old(a)),
            old(self).tables@.dom().contains(t),
            old(self).tables@[t].level == lvl,
            1 <= lvl <= 2,
            slot < 512,
            !pte_valid_leaf(entry_of(*old(a), t, slot as int)),
        ensures
            final(self).root == old(self).root,
            final(a).usable_base() == old(a).usable_base(),
            final(a).n_frames() == old(a).n_frames(),
            final(a).heap_base == old(a).heap_base,
            final(a).mem().len() == old(a).mem().len(),
            match r {
                Ok(c) => {
                    &&& final(self).wf(*final(a))
                    &&& forall|t0: u64| #[trigger]
                        old(self).tables@.dom().contains(t0) ==> final(self).tables@.dom().contains(t0) && final(self).tables@[t0] == old(self).tables@[t0]
                    &&& final(self).tables@.dom().contains(c)
                    &&& final(self).tables@[c].level == lvl - 1
                    &&& forall|t0: u64| #[trigger]
                        final(self).tables@.dom().contains(t0)
                            ==> old(self).tables@.dom().contains(t0) || t0 == c
                    &&& pte_valid_branch(entry_of(*final(a), t, slot as int))
                    &&& pte_child(entry_of(*final(a), t, slot as int)) == c
                    &&& forall|t0: u64, s: int|
                        old(self).tables@.dom().contains(t0) && 0 <= s < 512 && (t0 != t || s
                            != slot as int) ==> #[trigger] entry_of(*final(a), t0, s) == entry_of(
                            *old(a),
                            t0,
                            s,
                        )
                    &&& (pte_valid_branch(entry_of(*old(a), t, slot as int)) ==> final(self).tables@
                        == old(self).tables@ && final(a).mem() == old(a).mem() && final(a).states()
                        == old(a).states())
                    &&& (!pte_valid(entry_of(*old(a), t, slot as int)) ==> !old(self).tables@.dom().contains(c) && (forall|s: int|
                        0 <= s < 512 ==> #[trigger] entry_of(*final(a), c, s) == 0u64)
                        && old(a).states()[final(self).tables@[c].frame] == empty_state()
                        && final(a).states() == mark_run(
                        old(a).states(),
                        final(self).tables@[c].frame,
                        1,
                    ))
                    &&& count_free(final(a).states()) >= count_free(old(a).states()) - 1
                    &&& forall|va: u64|
                        translate_from(*final(a), old(self).root, va, 2) == translate_from(
                            *old(a),
                            old(self).root,
                            va,
                            2,
                        )
                    &&& forall|j: int|
                        0 <= j < old(a).n_frames() && old(a).states()[j].taken ==> final(a).states()[j] == old(a).states()[j]
                    &&& forall|w: int|
                        0 <= w < old(a).mem().len() && !word_in_tables(final(self).tables@, w)
                            ==> final(a).mem()[w] == old(a).mem()[w]
                    &&& (no_high_leaves(old(self).tables@, *old(a)) ==> no_high_leaves(
                        final(self).tables@,
                        *final(a),
                    ))
                },
                Err(AllocError::ExhaustedMemory) => {
                    &&& final(self).tables@ == old(self).tables@
                    &&& final(a).states() == old(a).states()
                    &&& final(a).mem() == old(a).mem()
                    &&& count_free(old(a).states()) == 0
                    &&& !pte_valid(entry_of(*old(a), t, slot as int))
                },
                Err(_) => false,
            },
    {
        let ghost tables = self.tables@;
        let ghost ft = tables[t].frame;
        let e = read_entry(a, t, slot, Ghost(ft));
        if e & PTE_VALID == PTE_VALID {
            let c = (e & 0xffff_ffff_ffff_fc00u64) << 2;
            proof {
                assert(pte_valid_branch(entry_of(*a, t, slot as int)));
                assert(c == pte_child(entry_of(*a, t, slot as int)));
            }
            Ok(c)
        } else {
            match a.zalloc(1) {
                Some(page) => {
                    let ghost fc = choose|i: int|
                        {
                            &&& 0 <= i
                            &&& i + 1 <= old(a).n_frames()
                            &&& page == old(a).usable_base() + i * (PAGE_SIZE as int)
                            &&& free_run(old(a).states(), i, 1)
                            &&& a.states() == mark_run(old(a).states(), i, 1)
                            &&& a.mem().len() == old(a).mem().len()
                            &&& forall|w: int|
                                0 <= w < a.mem().len() ==> a.mem()[w] == (if i * 512 <= w < (i + 1)
                                    * 512 {
                                    0u64
                                } else {
                                    old(a).mem()[w]
                                })
                        };
                    let ghost a1 = *a;
                    proof {
                        lemma_zero_entry();
                        lemma_count_free_mark_one(old(a).states(), fc);
                        assert(a1.states()[fc] == PageState { taken: true, last: true });
                        // every known table keeps its frame state and entries
                        assert forall|t0: u64| #[trigger]
                            tables.dom().contains(t0) implies a1.states()[tables[t0].frame]
                            == old(a).states()[tables[t0].frame] && tables[t0].frame != fc by {
                            assert(old(a).states()[fc] == empty_state());
                            assert(old(a).states()[tables[t0].frame].taken);
                        }
                        assert forall|t0: u64, s: int|
                            tables.dom().contains(t0) && 0 <= s < 512 implies #[trigger] entry_of(
                            a1,
                            t0,
                            s,
                        ) == entry_of(*old(a), t0, s) by {
                            let f0 = tables[t0].frame;
                            lemma_entry_of_frame(a1, t0, f0);
                            lemma_entry_of_frame(*old(a), t0, f0);
                            lemma_words_distinct(f0, s, fc, s);
                            assert(!(fc * 512 <= f0 * 512 + s < (fc + 1) * 512));
                        }
                        lemma_tables_wf_preserved(tables, self.root, *old(a), a1);
                        vstd::arithmetic::div_mod::lemma_mod_multiples_vanish(
                            fc,
                            a1.usable_base() as int,
                            PAGE_SIZE as int,
                        );
                        assert(page % 4096 == 0);
                        lemma_branch_entry_bits(page);
                    }
                    let v = (page >> 2) | PTE_VALID;
                    write_entry(a, t, slot, v, Ghost(ft));
                    proof {
                        let ghost newmeta = TableMeta { level: lvl - 1, frame: fc };
                        self.tables@ = tables.insert(page, newmeta);
                    }
                    proof {
                        let a2 = *a;
                        let newtables = self.tables@;
                        lemma_entry_of_frame(a2, t, ft);
                        lemma_entry_of_frame(a1, t, ft);
                        lemma_entry_of_frame(a2, page, fc);
                        assert(entry_of(a2, t, slot as int) == v);
                        // entries elsewhere are untouched by the one-word write
                        assert forall|t0: u64, s: int|
                            newtables.dom().contains(t0) && 0 <= s < 512 && (t0 != t || s
                                != slot as int) implies #[trigger] entry_of(a2, t0, s) == entry_of(
                            a1,
                            t0,
                            s,
                        ) by {
                            let f0 = newtables[t0].frame;
                            lemma_entry_of_frame(a2, t0, f0);
                            lemma_entry_of_frame(a1, t0, f0);
                            lemma_words_distinct(f0, s, ft, slot as int);
                        }
                        // the fresh table is zero-filled
                        assert forall|s: int| 0 <= s < 512 implies #[trigger] entry_of(
                            a2,
                            page,
                            s,
                        ) == 0u64 by {
                            lemma_words_distinct(fc, s, ft, slot as int);
                            assert(a1.mem()[fc * 512 + s] == 0u64);
                        }
                        // the tree, one table larger, is well formed again
                        assert(self.wf(a2));
                        // translations are untouched: the fresh frame was
                        // invisible, and the written slot was invalid
                        assert forall|va: u64|
                            translate_from(a2, old(self).root, va, 2) == translate_from(
                                *old(a),
                                old(self).root,
                                va,
                                2,
                            ) by {
                            lemma_translate_agree(tables, old(self).root, *old(a), a1, old(self).root, va, 2);
                            assert(a2.mem() == a1.mem().update(
                                ft * 512 + slot as int,
                                a2.mem()[ft * 512 + slot as int],
                            ));
                            lemma_translate_branch_write(
                                tables,
                                old(self).root,
                                a1,
                                a2,
                                t,
                                slot as int,
                                page,
                                fc,
                                old(self).root,
                                va,
                                2,
                            );
                        }
                        // words outside the enlarged tree are untouched
                        assert forall|w: int|
                            0 <= w < old(a).mem().len() && !word_in_tables(newtables, w) implies a2.mem()[w]
                            == old(a).mem()[w] by {
                            assert(newtables.dom().contains(page));
                            assert(newtables.dom().contains(t));
                            assert(!(fc * 512 <= w < fc * 512 + 512));
                            assert(!(ft * 512 <= w < ft * 512 + 512));
                            assert(w != ft * 512 + slot as int);
                        }
                        // a level-0-leaves-only tree stays that way
                        if no_high_leaves(tables, *old(a)) {
                            assert forall|t0: u64, s: int|
                                newtables.dom().contains(t0) && 0 <= s < 512 && newtables[t0].level
                                    >= 1 implies !pte_valid_leaf(#[trigger] entry_of(a2, t0, s)) by {
                                if t0 == page {
                                    assert(entry_of(a2, t0, s) == 0u64);
                                } else if t0 == t && s == slot as int {
                                    assert(entry_of(a2, t0, s) == v);
                                } else {
                                    assert(entry_of(a2, t0, s) == entry_of(*old(a), t0, s));
                                    assert(!pte_valid_leaf(entry_of(*old(a), t0, s)));
                                }
                            }
                        }
                    }
                    Ok(page)
                },
                None => {
                    proof {
                        lemma_no_free_run_count(a.states());
                    }
                    Err(AllocError::ExhaustedMemory)
                },
            }
        }
    }

    /// Installs one mapping from `virt` to `phys` at `lvl`, walking from
    /// the root and creating intermediate tables from `a` as needed. The
    /// final write is a leaf entry carrying `phys`'s page numbers, the
    /// caller's flags, and valid, accessed and dirty. Flags that grant
    /// none of read, write or execute are a caller error, refused before
    /// anything is touched. The call draws exactly the tables `virt`'s
    /// walk was missing — each fresh, zero-filled but for its one written
    /// slot — writes at most one slot per level, always at that level's
    /// page number of `virt`, and touches no other slot of any table;
    /// running out of frames can happen only when fewer free frames
    /// remain than the walk was missing, and leaves a well formed tree
    /// with every translation as it was. On success, exactly the
    /// addresses sharing `virt`'s page numbers down to `lvl` now resolve
    /// through the new leaf; all others translate as before.
    #[verifier::rlimit(100)]
    pub fn map_range(
        &mut self,
        a: &mut MaqAllocator,
        virt: VirtAddr,
        phys: PhysAddr,
        flags: PageTableEntry,
        lvl: usize,
    ) -> (r: Result<(), AllocError>)
        requires
            old(self).wf(*old(a)),
            lvl <= 2,
            path_mappable(*old(a), old(self).root, virt.bits, 2, lvl as int),
        ensures
            final(self).root == old(self).root,
            final(a).usable_base() == old(a).usable_base(),
            final(a).n_frames() == old(a).n_frames(),
            final(a).heap_base == old(a).heap_base,
            final(a).mem().len() == old(a).mem().len(),
            final(self).wf(*final(a)),
            forall|t0: u64| #[trigger]
                old(self).tables@.dom().contains(t0) ==> final(self).tables@.dom().contains(t0)
                    && final(self).tables@[t0] == old(self).tables@[t0],
            forall|j: int|
                0 <= j < old(a).n_frames() && old(a).states()[j].taken ==> final(a).states()[j]
                    == old(a).states()[j],
            forall|w: int|
                0 <= w < old(a).mem().len() && !word_in_tables(final(self).tables@, w)
                    ==> final(a).mem()[w] == old(a).mem()[w],
            (lvl == 0 && no_high_leaves(old(self).tables@, *old(a)) ==> no_high_leaves(
                final(self).tables@,
                *final(a),
            )),
            forall|t0: u64, s: int|
                old(self).tables@.dom().contains(t0) && 0 <= s < 512 && s != spec_vpn(
                    virt.bits,
                    old(self).tables@[t0].level,
                ) as int ==> #[trigger] entry_of(*final(a), t0, s) == entry_of(*old(a), t0, s),
            forall|t0: u64| #[trigger]
                final(self).tables@.dom().contains(t0) && !old(self).tables@.dom().contains(t0)
                    ==> ({
                    let meta = final(self).tables@[t0];
                    &&& 0 <= meta.frame < old(a).n_frames()
                    &&& t0 == old(a).usable_base() + meta.frame * (PAGE_SIZE as int)
                    &&& old(a).states()[meta.frame] == empty_state()
                    &&& final(a).states()[meta.frame] == PageState { taken: true, last: true }
                    &&& forall|s: int|
                        0 <= s < 512 && s != spec_vpn(virt.bits, meta.level) as int
                            ==> #[trigger] entry_of(*final(a), t0, s) == 0u64
                }),
            match r {
                Ok(()) => {
                    &&& pte_rwx(flags.bits)
                    &&& count_free(final(a).states()) >= count_free(old(a).states())
                        - missing_tables(*old(a), old(self).root, virt.bits, 2, lvl as int)
                    &&& walk_table(*final(a), old(self).root, virt.bits, 2, lvl as int) is Some
                    &&& forall|va: u64|
                        vpn_match(va, virt.bits, lvl as int) ==> translate_from(
                            *final(a),
                            old(self).root,
                            va,
                            2,
                        ) == Some(
                            pte_leaf_pa(spec_leaf_entry(phys.bits, flags.bits), va, lvl as int),
                        )
                    &&& forall|va: u64|
                        !vpn_match(va, virt.bits, lvl as int) ==> translate_from(
                            *final(a),
                            old(self).root,
                            va,
                            2,
                        ) == translate_from(*old(a), old(self).root, va, 2)
                },
                Err(AllocError::InvalidLeafFlags) => {
                    &&& !pte_rwx(flags.bits)
                    &&& final(self).tables@ == old(self).tables@
                    &&& final(a).states() == old(a).states()
                    &&& final(a).mem() == old(a).mem()
                },
                Err(AllocError::ExhaustedMemory) => {
                    &&& pte_rwx(flags.bits)
                    &&& forall|va: u64|
                        translate_from(*final(a), old(self).root, va, 2) == translate_from(
                            *old(a),
                            old(self).root,
                            va,
                            2,
                        )
                    &&& count_free(old(a).states()) < missing_tables(
                        *old(a),
                        old(self).root,
                        virt.bits,
                        2,
                        lvl as int,
                    )
                },
                Err(_) => false,
            },
    {
        if flags.bits & 0xe == 0 {
            proof {
                lemma_tables_wf_preserved(self.tables@, self.root, *a, *a);
            }
            return Err(AllocError::InvalidLeafFlags);
        }
        proof {
            lemma_vpn_bounds(virt.bits);
        }
        let vpn = virt.vpn();
        let ppn = phys.ppn();
        let ghost root = self.root;
        let mut t = self.root;
        let ghost a0 = *a;
        let ghost tab0 = self.tables@;
        if lvl < 2 {
            proof {
                assert(!pte_valid_leaf(entry_of(*a, root, spec_vpn(virt.bits, 2) as int)));
            }
            match self.ensure_branch(a, t, vpn[2], Ghost(2int)) {
                Ok(c) => {
                    t = c;
                },
                Err(e) => {
                    proof {
                        assert forall|va: u64|
                            translate_from(*a, root, va, 2) == translate_from(
                                a0,
                                root,
                                va,
                                2,
                            ) by {
                            lemma_translate_agree(tab0, root, a0, *a, root, va, 2);
                        }
                        lemma_tables_wf_preserved(tab0, root, a0, *a);
                        assert(!pte_valid(entry_of(a0, root, spec_vpn(virt.bits, 2) as int)));
                        assert(missing_tables(a0, root, virt.bits, 2, lvl as int) == 2
                            - lvl as int);
                        assert forall|t0: u64, s: int|
                            tab0.dom().contains(t0) && 0 <= s < 512 implies #[trigger] entry_of(
                            *a,
                            t0,
                            s,
                        ) == entry_of(a0, t0, s) by {}
                        if no_high_leaves(tab0, a0) {
                            assert forall|t0: u64, s: int|
                                tab0.dom().contains(t0) && 0 <= s < 512 && tab0[t0].level
                                    >= 1 implies !pte_valid_leaf(#[trigger] entry_of(*a, t0, s)) by {
                                assert(entry_of(*a, t0, s) == entry_of(a0, t0, s));
                                assert(!pte_valid_leaf(entry_of(a0, t0, s)));
                            }
                        }
                    }
                    return Err(e);
                },
            }
            proof {
                let e2 = entry_of(*a, root, spec_vpn(virt.bits, 2) as int);
                assert(pte_valid_branch(e2));
                assert(pte_child(e2) == t);
                assert(walk_table(*a, t, virt.bits, 1, 1) == Some(t));
                assert(walk_table(*a, root, virt.bits, 2, 1) == Some(t));
            }
        }
        let ghost a1 = *a;
        let ghost tab1 = self.tables@;
        let ghost t1 = t;
        if lvl == 0 {
            proof {
                let s1 = spec_vpn(virt.bits, 1) as int;
                let s2 = spec_vpn(virt.bits, 2) as int;
                let e_root0 = entry_of(a0, root, s2);
                assert(path_mappable(a0, root, virt.bits, 2, 0));
                if pte_valid_branch(e_root0) {
                    assert(path_mappable(a0, pte_child(e_root0), virt.bits, 1, 0));
                    assert(!pte_valid_leaf(entry_of(a0, pte_child(e_root0), s1)));
                    assert(a.mem() == a0.mem());
                    assert(entry_of(*a, root, s2) == e_root0);
                    assert(t == pte_child(e_root0));
                    assert(entry_of(*a, t, s1) == entry_of(a0, t, s1));
                } else {
                    assert(!pte_valid(e_root0));
                    assert(entry_of(*a, t, s1) == 0u64);
                    lemma_zero_entry();
                }
                assert(!pte_valid_leaf(entry_of(*a, t, s1)));
            }
            match self.ensure_branch(a, t, vpn[1], Ghost(1int)) {
                Ok(c) => {
                    t = c;
                },
                Err(e) => {
                    proof {
                        assert forall|va: u64|
                            translate_from(*a, root, va, 2) == translate_from(
                                a0,
                                root,
                                va,
                                2,
                            ) by {
                            lemma_translate_agree(tab1, root, a1, *a, root, va, 2);
                        }
                        lemma_tables_wf_preserved(tab1, root, a1, *a);
                        if lvl == 0 && no_high_leaves(tab0, a0) {
                            assert(no_high_leaves(tab1, a1));
                            assert forall|t0: u64, s: int|
                                tab1.dom().contains(t0) && 0 <= s < 512 && tab1[t0].level
                                    >= 1 implies !pte_valid_leaf(#[trigger] entry_of(*a, t0, s)) by {
                                assert(entry_of(*a, t0, s) == entry_of(a1, t0, s));
                                assert(!pte_valid_leaf(entry_of(a1, t0, s)));
                            }
                        }
                        let s2 = spec_vpn(virt.bits, 2) as int;
                        let s1 = spec_vpn(virt.bits, 1) as int;
                        let e0 = entry_of(a0, root, s2);
                        assert(!pte_valid(entry_of(a1, t1, s1)));
                        if pte_valid_branch(e0) {
                            assert(count_free(a1.states()) == count_free(a0.states()));
                            assert(entry_of(a0, t1, s1) == entry_of(a1, t1, s1));
                            assert(missing_tables(a0, t1, virt.bits, 1, 0) == 1);
                            assert(missing_tables(a0, root, virt.bits, 2, 0) == 1);
                        } else {
                            assert(!pte_valid(e0));
                            assert(missing_tables(a0, root, virt.bits, 2, 0) == 2);
                            assert(a1.states() == mark_run(a0.states(), tab1[t1].frame, 1));
                            assert(a0.states()[tab1[t1].frame] == empty_state());
                            assert(free_run(a0.states(), tab1[t1].frame, 1));
                            lemma_count_free_mark_one(a0.states(), tab1[t1].frame);
                        }
                        assert(count_free(a0.states()) < missing_tables(
                            a0,
                            root,
                            virt.bits,
                            2,
                            lvl as int,
                        ));
                        assert forall|t0: u64, s: int|
                            tab0.dom().contains(t0) && 0 <= s < 512 && s != spec_vpn(
                                virt.bits,
                                tab0[t0].level,
                            ) as int implies #[trigger] entry_of(*a, t0, s) == entry_of(
                            a0,
                            t0,
                            s,
                        ) by {
                            assert(entry_of(*a, t0, s) == entry_of(a1, t0, s));
                            if t0 == root {
                                assert(tab0[t0].level == 2);
                                assert(s != s2);
                            }
                            assert(entry_of(a1, t0, s) == entry_of(a0, t0, s));
                        }
                        assert forall|t0: u64| #[trigger]
                            tab1.dom().contains(t0) && !tab0.dom().contains(t0) implies ({
                            let meta = tab1[t0];
                            &&& 0 <= meta.frame < a0.n_frames()
                            &&& t0 == a0.usable_base() + meta.frame * (PAGE_SIZE as int)
                            &&& a0.states()[meta.frame] == empty_state()
                            &&& a.states()[meta.frame] == PageState { taken: true, last: true }
                            &&& forall|s: int|
                                0 <= s < 512 && s != spec_vpn(virt.bits, meta.level) as int
                                    ==> #[trigger] entry_of(*a, t0, s) == 0u64
                        }) by {
                            assert(t0 == t1);
                            assert(!pte_valid(entry_of(a0, root, s2)));
                            assert(a1.states()[tab1[t0].frame] == PageState {
                                taken: true,
                                last: true,
                            });
                            assert forall|s: int| 0 <= s < 512 implies #[trigger] entry_of(
                                *a,
                                t0,
                                s,
                            ) == 0u64 by {
                                assert(entry_of(a1, t0, s) == 0u64);
                                assert(entry_of(*a, t0, s) == entry_of(a1, t0, s));
                            }
                        }
                    }
                    return Err(e);
                },
            }
            proof {
                assert(t1 != root);
                assert(entry_of(*a, root, spec_vpn(virt.bits, 2) as int) == entry_of(
                    a1,
                    root,
                    spec_vpn(virt.bits, 2) as int,
                ));
                let e2 = entry_of(*a, root, spec_vpn(virt.bits, 2) as int);
                let e1 = entry_of(*a, t1, spec_vpn(virt.bits, 1) as int);
                assert(pte_valid_branch(e2) && pte_child(e2) == t1);
                assert(pte_valid_branch(e1) && pte_child(e1) == t);
                assert(walk_table(*a, t, virt.bits, 0, 0) == Some(t));
                assert(walk_table(*a, t1, virt.bits, 1, 0) == Some(t));
                assert(walk_table(*a, root, virt.bits, 2, 0) == Some(t));
            }
        }
        proof {
            assert(walk_table(*a, root, virt.bits, 2, lvl as int) == Some(t));
            assert(self.tables@[t].level == lvl as int);
        }
        let enew = (ppn[2] << 28) | (ppn[1] << 19) | (ppn[0] << 10) | flags.bits | PTE_VALID
            | PTE_ACCESSED | PTE_DIRTY;
        proof {
            assert(enew == spec_leaf_entry(phys.bits, flags.bits));
            lemma_leaf_entry_bits(phys.bits, flags.bits);
        }
        let ghost a2 = *a;
        let ghost tab2 = self.tables@;
        let slot = vpn[lvl];
        write_entry(a, t, slot, enew, Ghost(self.tables@[t].frame));
        proof {
            let a3 = *a;
            let sw = spec_vpn(virt.bits, lvl as int) as int;
            let ft = tab2[t].frame;
            lemma_entry_of_frame(a3, t, ft);
            assert(entry_of(a3, t, sw) == enew);
            assert(a3.mem() == a2.mem().update(ft * 512 + sw, a3.mem()[ft * 512 + sw]));
            // translations move exactly where the page numbers match
            assert forall|va: u64|
                translate_from(a3, root, va, 2) == (if vpn_match(va, virt.bits, lvl as int) {
                    Some(pte_leaf_pa(spec_leaf_entry(phys.bits, flags.bits), va, lvl as int))
                } else {
                    translate_from(a0, root, va, 2)
                }) by {
                lemma_translate_leaf_write(tab2, root, a2, a3, t, sw, root, va, 2, lvl as int);
                lemma_vpn_bounds(va);
                if vpn_match(va, virt.bits, lvl as int) {
                    lemma_walk_same_of_vpn(a2, root, va, virt.bits, 2, lvl as int);
                    assert(walk_table(a2, root, va, 2, lvl as int) == Some(t));
                    assert(spec_vpn(va, lvl as int) == spec_vpn(virt.bits, lvl as int));
                } else {
                    if walk_table(a2, root, va, 2, lvl as int) == Some(t) && spec_vpn(
                        va,
                        lvl as int,
                    ) as int == sw {
                        lemma_walk_same_vpn(tab2, root, a2, root, va, virt.bits, 2, lvl as int);
                        assert(vpn_match(va, virt.bits, lvl as int));
                        assert(false);
                    }
                }
            }
            // every table keeps its shape: the one changed entry is a leaf
            assert forall|t0: u64, s: int|
                tab2.dom().contains(t0) && 0 <= s < 512 && (t0 != t || s != sw)
                    implies #[trigger] entry_of(a3, t0, s) == entry_of(a2, t0, s) by {
                let f0 = tab2[t0].frame;
                lemma_entry_of_frame(a3, t0, f0);
                lemma_entry_of_frame(a2, t0, f0);
                lemma_words_distinct(f0, s, ft, sw);
            }
            assert forall|t0: u64, s: int|
                tab2.dom().contains(t0) && 0 <= s < 512 && #[trigger] pte_valid_branch(
                    entry_of(a3, t0, s),
                ) implies {
                &&& tab2[t0].level >= 1
                &&& tab2.dom().contains(pte_child(entry_of(a3, t0, s)))
                &&& tab2[pte_child(entry_of(a3, t0, s))].level == tab2[t0].level - 1
                &&& pte_child(entry_of(a3, t0, s)) != root
            } by {
                if t0 == t && s == sw {
                    assert(pte_valid_leaf(entry_of(a3, t0, s)));
                    assert(false);
                } else {
                    assert(entry_of(a3, t0, s) == entry_of(a2, t0, s));
                }
            }
            assert forall|t1: u64, s1: int, t2: u64, s2: int|
                tab2.dom().contains(t1) && tab2.dom().contains(t2) && 0 <= s1 < 512 && 0 <= s2
                    < 512 && #[trigger] pte_valid_branch(entry_of(a3, t1, s1)) && #[trigger] pte_valid_branch(
                    entry_of(a3, t2, s2),
                ) && (t1 != t2 || s1 != s2) implies pte_child(entry_of(a3, t1, s1)) != pte_child(
                entry_of(a3, t2, s2),
            ) by {
                assert(!(t1 == t && s1 == sw) && !(t2 == t && s2 == sw));
                assert(entry_of(a3, t1, s1) == entry_of(a2, t1, s1));
                assert(entry_of(a3, t2, s2) == entry_of(a2, t2, s2));
            }
            assert(self.wf(a3));
            // a tree with only level-0 leaves keeps that shape when the
            // new leaf lands at level 0
            if lvl == 0 && no_high_leaves(tab0, a0) {
                assert forall|t0: u64, s: int|
                    tab2.dom().contains(t0) && 0 <= s < 512 && tab2[t0].level >= 1 implies !pte_valid_leaf(
                    #[trigger] entry_of(a3, t0, s),
                ) by {
                    assert(t0 != t || s != sw);
                    assert(entry_of(a3, t0, s) == entry_of(a2, t0, s));
                }
            }
            // the written word lies inside a known table's frame
            assert forall|w: int|
                0 <= w < a0.mem().len() && !word_in_tables(tab2, w) implies a3.mem()[w]
                    == a0.mem()[w] by {
                assert(tab2.dom().contains(t));
                assert(!(ft * 512 <= w < ft * 512 + 512));
                assert(w != ft * 512 + sw);
            }
            // the walk of `virt` now exists down to the mapped level
            let sv2 = spec_vpn(virt.bits, 2) as int;
            let sv1 = spec_vpn(virt.bits, 1) as int;
            if lvl == 2 {
                assert(walk_table(a3, root, virt.bits, 2, 2) == Some(t));
            } else if lvl == 1 {
                assert(entry_of(a3, root, sv2) == entry_of(a2, root, sv2));
                assert(walk_table(a3, t, virt.bits, 1, 1) == Some(t));
                assert(walk_table(a3, root, virt.bits, 2, 1) == Some(t));
            } else {
                assert(entry_of(a3, root, sv2) == entry_of(a2, root, sv2));
                assert(entry_of(a3, t1, sv1) == entry_of(a2, t1, sv1));
                assert(walk_table(a3, t, virt.bits, 0, 0) == Some(t));
                assert(walk_table(a3, t1, virt.bits, 1, 0) == Some(t));
                assert(walk_table(a3, root, virt.bits, 2, 0) == Some(t));
            }
            // slots of the entering tables off the walk path are untouched:
            // each level's one write lands at that level's page number
            let s2 = spec_vpn(virt.bits, 2) as int;
            let s1 = spec_vpn(virt.bits, 1) as int;
            // frame accounting: the call drew exactly the tables the walk
            // of `virt` was missing on entry
            let m0 = missing_tables(a0, root, virt.bits, 2, lvl as int);
            let e0 = entry_of(a0, root, s2);
            lemma_missing_tables_bound(a0, root, virt.bits, 2, lvl as int);
            if lvl < 2 {
                if pte_valid_branch(e0) {
                    assert(count_free(a1.states()) == count_free(a0.states()));
                    assert(m0 == missing_tables(a0, t1, virt.bits, 1, lvl as int));
                } else {
                    assert(!pte_valid(e0));
                    assert(a1.states() == mark_run(a0.states(), tab1[t1].frame, 1));
                    assert(a0.states()[tab1[t1].frame] == empty_state());
                    assert(free_run(a0.states(), tab1[t1].frame, 1));
                    lemma_count_free_mark_one(a0.states(), tab1[t1].frame);
                    assert(m0 == 2 - lvl as int);
                }
            }
            if lvl == 0 {
                let e1 = entry_of(a1, t1, s1);
                if pte_valid_branch(e1) {
                    assert(count_free(a2.states()) == count_free(a1.states()));
                    if pte_valid_branch(e0) {
                        assert(entry_of(a0, t1, s1) == e1);
                        assert(missing_tables(a0, t1, virt.bits, 1, 0) == missing_tables(
                            a0,
                            pte_child(e1),
                            virt.bits,
                            0,
                            0,
                        ));
                        assert(missing_tables(a0, pte_child(e1), virt.bits, 0, 0) == 0);
                        assert(m0 == 0);
                    } else {
                        assert(e1 == 0u64);
                        lemma_zero_entry();
                        assert(false);
                    }
                } else {
                    assert(!pte_valid(e1));
                    assert(a2.states() == mark_run(a1.states(), tab2[t].frame, 1));
                    assert(a1.states()[tab2[t].frame] == empty_state());
                    assert(free_run(a1.states(), tab2[t].frame, 1));
                    lemma_count_free_mark_one(a1.states(), tab2[t].frame);
                    if pte_valid_branch(e0) {
                        assert(entry_of(a0, t1, s1) == e1);
                        assert(m0 == 1);
                    } else {
                        assert(m0 == 2);
                    }
                }
            } else {
                assert(count_free(a2.states()) == count_free(a1.states()));
            }
            assert(count_free(a3.states()) == count_free(a2.states()));
            assert(count_free(a3.states()) >= count_free(a0.states()) - m0);
            assert forall|t0: u64, s: int|
                tab0.dom().contains(t0) && 0 <= s < 512 && s != spec_vpn(
                    virt.bits,
                    tab0[t0].level,
                ) as int implies #[trigger] entry_of(a3, t0, s) == entry_of(a0, t0, s) by {
                assert(tab2.dom().contains(t0) && tab2[t0] == tab0[t0]);
                if t0 == t {
                    assert(tab0[t0].level == lvl as int);
                    assert(s != sw);
                }
                assert(entry_of(a3, t0, s) == entry_of(a2, t0, s));
                if lvl == 0 {
                    assert(tab1.dom().contains(t0) && tab1[t0] == tab0[t0]);
                    if t0 == t1 {
                        assert(tab0[t0].level == 1);
                        assert(s != s1);
                    }
                    assert(entry_of(a2, t0, s) == entry_of(a1, t0, s));
                }
                if lvl < 2 {
                    if t0 == root {
                        assert(tab0[t0].level == 2);
                        assert(s != s2);
                    }
                    assert(entry_of(a1, t0, s) == entry_of(a0, t0, s));
                }
            }
            // tables created by this call are fresh frames drawn from the
            // allocator, zero-filled but for the one slot written into them
            assert forall|t0: u64| #[trigger]
                tab2.dom().contains(t0) && !tab0.dom().contains(t0) implies ({
                let meta = tab2[t0];
                &&& 0 <= meta.frame < a0.n_frames()
                &&& t0 == a0.usable_base() + meta.frame * (PAGE_SIZE as int)
                &&& a0.states()[meta.frame] == empty_state()
                &&& a3.states()[meta.frame] == PageState { taken: true, last: true }
                &&& forall|s: int|
                    0 <= s < 512 && s != spec_vpn(virt.bits, meta.level) as int
                        ==> #[trigger] entry_of(a3, t0, s) == 0u64
            }) by {
                let meta = tab2[t0];
                if tab1.dom().contains(t0) {
                    // created while walking from the root: a level-1 table
                    assert(t0 == t1);
                    assert(!pte_valid(entry_of(a0, root, s2)));
                    assert(meta == tab1[t0]);
                    assert(meta.level == 1);
                    assert(a1.states()[meta.frame] == PageState { taken: true, last: true });
                    assert(a3.states()[meta.frame] == PageState { taken: true, last: true });
                    assert forall|s: int|
                        0 <= s < 512 && s != spec_vpn(virt.bits, meta.level) as int implies #[trigger] entry_of(
                        a3,
                        t0,
                        s,
                    ) == 0u64 by {
                        assert(entry_of(a1, t0, s) == 0u64);
                        if lvl == 0 {
                            assert(entry_of(a2, t0, s) == entry_of(a1, t0, s));
                        }
                        assert(entry_of(a3, t0, s) == entry_of(a2, t0, s));
                    }
                } else {
                    // created while descending to level 0: the leaf's table
                    assert(lvl == 0);
                    assert(t0 == t);
                    assert(!pte_valid(entry_of(a1, t1, s1)));
                    assert(meta.level == 0);
                    assert(a1.states()[meta.frame] == empty_state());
                    if lvl < 2 && !tab0.dom().contains(t1) {
                        assert(a1.states() == mark_run(a0.states(), tab1[t1].frame, 1));
                        assert(meta.frame != tab1[t1].frame);
                    }
                    assert(a0.states()[meta.frame] == empty_state());
                    assert(a2.states()[meta.frame] == PageState { taken: true, last: true });
                    assert(a3.states()[meta.frame] == PageState { taken: true, last: true });
                    assert forall|s: int|
                        0 <= s < 512 && s != spec_vpn(virt.bits, meta.level) as int implies #[trigger] entry_of(
                        a3,
                        t0,
                        s,
                    ) == 0u64 by {
                        assert(entry_of(a2, t0, s) == 0u64);
                        assert(s != sw);
                        assert(entry_of(a3, t0, s) == entry_of(a2, t0, s));
                    }
                }
            }
        }
        Ok(())
    }

    /// Identity-maps every page of `[start, end)`, rounded out to page
    /// boundaries, at level 0: afterwards every address whose page bits
    /// fall in the range translates to itself (its low 39 bits), and every
    /// other translation is exactly as before. Requires a tree whose
    /// leaves all sit at level 0, and keeps it that way. Consecutive pages
    /// share their tables, so the whole range draws at most its table
    /// span — two frames plus one per block boundary crossed — and runs
    /// out only when fewer free frames than that remain.
    #[verifier::loop_isolation(false)]
    #[verifier::rlimit(100)]
    pub fn id_map_range(
        &mut self,
        a: &mut MaqAllocator,
        start: VirtAddr,
        end: VirtAddr,
        flags: PageTableEntry,
    ) -> (r: Result<(), AllocError>)
        requires
            old(self).wf(*old(a)),
            old(self).only_level0_leaves(*old(a)),
            start.bits <= end.bits,
            end.bits <= 0x80_0000_0000u64,
            flags.bits & 0x3ffu64 == flags.bits,
        ensures
            final(self).root == old(self).root,
            final(self).wf(*final(a)),
            final(self).only_level0_leaves(*final(a)),
            final(a).usable_base() == old(a).usable_base(),
            final(a).n_frames() == old(a).n_frames(),
            final(a).heap_base == old(a).heap_base,
            final(a).mem().len() == old(a).mem().len(),
            forall|t0: u64| #[trigger]
                old(self).tables@.dom().contains(t0) ==> final(self).tables@.dom().contains(t0)
                    && final(self).tables@[t0] == old(self).tables@[t0],
            forall|j: int|
                0 <= j < old(a).n_frames() && old(a).states()[j].taken ==> final(a).states()[j]
                    == old(a).states()[j],
            forall|w: int|
                0 <= w < old(a).mem().len() && !word_in_tables(final(self).tables@, w)
                    ==> final(a).mem()[w] == old(a).mem()[w],
            match r {
                Ok(()) => {
                    let lo = start.bits as int / 4096 * 4096;
                    let hi = (end.bits + 4095) as int / 4096 * 4096;
                    &&& count_free(final(a).states()) >= count_free(old(a).states())
                        - spec_table_span(start.bits, end.bits)
                    &&& forall|va: u64|
                        lo <= (va & 0x7f_ffff_f000u64) < hi ==> translate_from(
                            *final(a),
                            old(self).root,
                            va,
                            2,
                        ) == Some((va & 0x7f_ffff_ffffu64) as u64)
                    &&& forall|va: u64|
                        !(lo <= (va & 0x7f_ffff_f000u64) < hi) ==> translate_from(
                            *final(a),
                            old(self).root,
                            va,
                            2,
                        ) == translate_from(*old(a), old(self).root, va, 2)
                },
                Err(AllocError::InvalidLeafFlags) => {
                    &&& !pte_rwx(flags.bits)
                    &&& final(a).states() == old(a).states()
                    &&& final(a).mem() == old(a).mem()
                },
                Err(AllocError::ExhaustedMemory) => {
                    &&& pte_rwx(flags.bits)
                    &&& count_free(old(a).states()) < spec_table_span(start.bits, end.bits)
                },
                Err(_) => false,
            },
    {
        if flags.bits & 0xe == 0 {
            return Err(AllocError::InvalidLeafFlags);
        }
        let lo = start.as_u64() / PAGE_SIZE * PAGE_SIZE;
        let hi = (end.as_u64() + (PAGE_SIZE - 1)) / PAGE_SIZE * PAGE_SIZE;
        proof {
            lemma_mod_multiples_basic(start.bits as int / 4096, 4096);
            lemma_mod_multiples_basic((end.bits + 4095) as int / 4096, 4096);
            lemma_fundamental_div_mod(start.bits as int, 4096);
            lemma_fundamental_div_mod((end.bits + 4095) as int, 4096);
            assert(lo % 4096 == 0 && hi % 4096 == 0);
            assert(hi <= 0x80_0000_0000u64);
        }
        let ghost a0 = *a;
        let ghost tab0 = self.tables@;
        let ghost root = self.root;
        let mut p = lo;
        let ghost mut mapped: int = 0;
        let ghost mut used: int = 0;
        while p < hi
            invariant
                self.wf(*a),
                self.only_level0_leaves(*a),
                self.root == root,
                a.usable_base() == a0.usable_base(),
                a.n_frames() == a0.n_frames(),
                a.heap_base == a0.heap_base,
                a.mem().len() == a0.mem().len(),
                lo <= p <= hi,
                p % 4096 == 0,
                0 <= mapped,
                p == lo + mapped * 4096,
                0 <= used,
                count_free(a.states()) >= count_free(a0.states()) - used,
                mapped == 0 ==> used == 0,
                mapped > 0 ==> walk_table(*a, root, (p - 4096) as u64, 2, 0) is Some,
                mapped > 0 ==> used <= (p - 4096) as int / 0x20_0000 - lo as int / 0x20_0000 + (p
                    - 4096) as int / 0x4000_0000 - lo as int / 0x4000_0000 + 2,
                forall|t0: u64| #[trigger]
                    tab0.dom().contains(t0) ==> self.tables@.dom().contains(t0)
                        && self.tables@[t0] == tab0[t0],
                forall|j: int|
                    0 <= j < a0.n_frames() && a0.states()[j].taken ==> a.states()[j]
                        == a0.states()[j],
                forall|w: int|
                    0 <= w < a0.mem().len() && !word_in_tables(self.tables@, w) ==> a.mem()[w]
                        == a0.mem()[w],
                forall|va: u64|
                    lo <= (va & 0x7f_ffff_f000u64) < p ==> translate_from(*a, root, va, 2)
                        == Some((va & 0x7f_ffff_ffffu64) as u64),
                forall|va: u64|
                    !(lo <= (va & 0x7f_ffff_f000u64) < p) ==> translate_from(*a, root, va, 2)
                        == translate_from(a0, root, va, 2),
            decreases hi - p,
        {
            proof {
                lemma_no_high_leaves_mappable(self.tables@, root, *a, root, p, 2);
                lemma_missing_tables_bound(*a, root, p, 2, 0);
                if mapped > 0 {
                    lemma_page_step(p);
                    let prev = (p - 4096) as u64;
                    assert(walk_table(*a, root, prev, 2, 0) is Some);
                    if p % 0x20_0000 != 0 {
                        // same two-megabyte block: the whole path exists
                        assert forall|l: int| 0 < l <= 2 implies spec_vpn(p, l) == spec_vpn(
                            prev,
                            l,
                        ) by {}
                        lemma_walk_same_of_vpn(*a, root, p, prev, 2, 0);
                        lemma_walked_needs_nothing(*a, root, p, 2, 0);
                        assert(missing_tables(*a, root, p, 2, 0) == 0);
                    } else if p % 0x4000_0000 != 0 {
                        // same gigabyte block: the mid-level table exists
                        assert(spec_vpn(p, 2) == spec_vpn(prev, 2));
                        assert(pte_valid_branch(entry_of(*a, root, spec_vpn(p, 2) as int)));
                        let c = pte_child(entry_of(*a, root, spec_vpn(p, 2) as int));
                        assert(missing_tables(*a, root, p, 2, 0) == missing_tables(
                            *a,
                            c,
                            p,
                            1,
                            0,
                        ));
                        lemma_missing_tables_bound(*a, c, p, 1, 0);
                        assert(missing_tables(*a, root, p, 2, 0) <= 1);
                    }
                }
            }
            let ghost a_pre = *a;
            let ghost tab_pre = self.tables@;
            let ghost m = missing_tables(*a, root, p, 2, 0);
            match self.map_range(a, VirtAddr::new(p), PhysAddr::new(p), flags, 0) {
                Ok(()) => {},
                Err(e) => {
                    proof {
                        assert(e == AllocError::ExhaustedMemory);
                        assert(count_free(a_pre.states()) < m);
                        assert(count_free(a0.states()) < used + m);
                        if mapped > 0 {
                            assert(used + m <= p as int / 0x20_0000 - lo as int / 0x20_0000
                                + p as int / 0x4000_0000 - lo as int / 0x4000_0000 + 2);
                        }
                        lemma_div_is_ordered(p as int, hi as int - 4096, 0x20_0000);
                        lemma_div_is_ordered(p as int, hi as int - 4096, 0x4000_0000);
                        assert(count_free(a0.states()) < spec_table_span(start.bits, end.bits));
                    }
                    return Err(e);
                },
            }
            proof {
                assert forall|va: u64|
                    lo <= (va & 0x7f_ffff_f000u64) < p + 4096 implies translate_from(
                    *a,
                    root,
                    va,
                    2,
                ) == Some((va & 0x7f_ffff_ffffu64) as u64) by {
                    lemma_identity_leaf(p, flags.bits, va);
                    if (va & 0x7f_ffff_f000u64) == p {
                        assert(vpn_match(va, p, 0));
                    } else {
                        assert(!vpn_match(va, p, 0));
                        assert(translate_from(*a, root, va, 2) == translate_from(
                            a_pre,
                            root,
                            va,
                            2,
                        ));
                    }
                }
                assert forall|va: u64|
                    !(lo <= (va & 0x7f_ffff_f000u64) < p + 4096) implies translate_from(
                    *a,
                    root,
                    va,
                    2,
                ) == translate_from(a0, root, va, 2) by {
                    lemma_identity_leaf(p, flags.bits, va);
                    assert(!vpn_match(va, p, 0));
                }
                assert forall|w: int|
                    0 <= w < a0.mem().len() && !word_in_tables(self.tables@, w) implies a.mem()[w]
                    == a0.mem()[w] by {
                    if word_in_tables(tab_pre, w) {
                        let t0 = choose|t0: u64| #[trigger]
                            tab_pre.dom().contains(t0) && tab_pre[t0].frame * 512 <= w
                                < tab_pre[t0].frame * 512 + 512;
                        assert(self.tables@.dom().contains(t0));
                        assert(word_in_tables(self.tables@, w));
                        assert(false);
                    }
                }
            }
            p = p + PAGE_SIZE;
            proof {
                mapped = mapped + 1;
                used = used + m;
                let op = (p - 4096) as u64;
                assert(walk_table(*a, root, op, 2, 0) is Some);
                if mapped > 1 {
                    assert(used <= op as int / 0x20_0000 - lo as int / 0x20_0000
                        + op as int / 0x4000_0000 - lo as int / 0x4000_0000 + 2);
                }
            }
        }
        proof {
            assert(mapped == spec_page_span(start.bits, end.bits));
            if mapped > 0 {
                assert(hi > lo);
                assert(used <= spec_table_span(start.bits, end.bits));
            } else {
                assert(spec_table_span(start.bits, end.bits) == 0);
            }
        }
        Ok(())
    }

    /// Tears the tree down: every frame holding a table that a valid
    /// branch of the root reaches — each child, and each grandchild its
    /// branches reach — goes back to the allocator. The root's own frame is
    /// caller-owned and stays live; memory contents are untouched, so the
    /// torn-down entries keep their stale bit patterns and this handle's
    /// tree is no longer well formed.
    #[verifier::loop_isolation(false)]
    #[verifier::rlimit(50)]
    pub fn unmap(&self, a: &mut MaqAllocator)
        requires
            self.wf(*old(a)),
        ensures
            final(a).wf(),
            final(a).usable_base() == old(a).usable_base(),
            final(a).n_frames() == old(a).n_frames(),
            final(a).heap_base == old(a).heap_base,
            final(a).mem() == old(a).mem(),
            forall|j: int|
                0 <= j < old(a).n_frames() && final(a).states()[j] != old(a).states()[j] ==> final(a).states()[j] == empty_state() && (exists|t: u64| #[trigger]
                    self.tables@.dom().contains(t) && t != self.root && self.tables@[t].frame == j),
            forall|s: int|
                0 <= s < 512 && pte_valid_branch(#[trigger] entry_of(*old(a), self.root, s)) ==> final(a).states()[table_frame(*old(a), pte_child(entry_of(*old(a), self.root, s)))]
                    == empty_state(),
            forall|s: int, s2: int|
                0 <= s < 512 && 0 <= s2 < 512 && pte_valid_branch(
                    #[trigger] entry_of(*old(a), self.root, s),
                ) && pte_valid_branch(
                    #[trigger] entry_of(
                        *old(a),
                        pte_child(entry_of(*old(a), self.root, s)),
                        s2,
                    ),
                ) ==> final(a).states()[table_frame(
                    *old(a),
                    pte_child(
                        entry_of(*old(a), pte_child(entry_of(*old(a), self.root, s)), s2),
                    ),
                )] == empty_state(),
            ({
                let fr = self.tables@[self.root].frame;
                final(a).states()[fr] == old(a).states()[fr]
            }),
    {
        let ghost a0 = *old(a);
        let ghost tables = self.tables@;
        let ghost root = self.root;
        let ghost froot = tables[root].frame;
        let mut s: usize = 0;
        while s < 512
            invariant
                a.wf(),
                a.usable_base() == a0.usable_base(),
                a.n_frames() == a0.n_frames(),
                a.heap_base == a0.heap_base,
                a.mem() == a0.mem(),
                s <= 512,
                forall|j: int|
                    0 <= j < a0.n_frames() && a.states()[j] != a0.states()[j] ==> a.states()[j]
                        == empty_state() && (exists|t: u64| #[trigger]
                        tables.dom().contains(t) && t != root && tables[t].frame == j),
                forall|sp: int|
                    0 <= sp < s && pte_valid_branch(#[trigger] entry_of(a0, root, sp))
                        ==> a.states()[table_frame(a0, pte_child(entry_of(a0, root, sp)))]
                        == empty_state(),
                forall|sp: int, s2: int|
                    0 <= sp < s && 0 <= s2 < 512 && pte_valid_branch(
                        #[trigger] entry_of(a0, root, sp),
                    ) && pte_valid_branch(
                        #[trigger] entry_of(a0, pte_child(entry_of(a0, root, sp)), s2),
                    ) ==> a.states()[table_frame(
                        a0,
                        pte_child(entry_of(a0, pte_child(entry_of(a0, root, sp)), s2)),
                    )] == empty_state(),
            decreases 512 - s,
        {
            let e = read_entry(a, self.root, s as u64, Ghost(froot));
            proof {
                assert(entry_of(*a, root, s as int) == entry_of(a0, root, s as int));
            }
            if e & PTE_VALID == PTE_VALID && e & 0xe == 0 {
                let c = (e & 0xffff_ffff_ffff_fc00u64) << 2;
                proof {
                    assert(pte_valid_branch(entry_of(a0, root, s as int)));
                    assert(c == pte_child(entry_of(a0, root, s as int)));
                    assert(tables.dom().contains(c) && c != root && tables[c].level == 1);
                    lemma_table_frame_of(a0, c, tables[c].frame);
                }
                let ghost fcld = tables[c].frame;
                let mut s2: usize = 0;
                while s2 < 512
                    invariant
                        a.wf(),
                        a.usable_base() == a0.usable_base(),
                        a.n_frames() == a0.n_frames(),
                        a.heap_base == a0.heap_base,
                        a.mem() == a0.mem(),
                        s2 <= 512,
                        forall|j: int|
                            0 <= j < a0.n_frames() && a.states()[j] != a0.states()[j]
                                ==> a.states()[j] == empty_state() && (exists|t: u64| #[trigger]
                                tables.dom().contains(t) && t != root && tables[t].frame == j),
                        forall|sp: int|
                            0 <= sp < s && pte_valid_branch(#[trigger] entry_of(a0, root, sp))
                                ==> a.states()[table_frame(a0, pte_child(entry_of(a0, root, sp)))]
                                == empty_state(),
                        forall|sp: int, sq: int|
                            0 <= sp < s && 0 <= sq < 512 && pte_valid_branch(
                                #[trigger] entry_of(a0, root, sp),
                            ) && pte_valid_branch(
                                #[trigger] entry_of(a0, pte_child(entry_of(a0, root, sp)), sq),
                            ) ==> a.states()[table_frame(
                                a0,
                                pte_child(entry_of(a0, pte_child(entry_of(a0, root, sp)), sq)),
                            )] == empty_state(),
                        forall|sq: int|
                            0 <= sq < s2 && pte_valid_branch(#[trigger] entry_of(a0, c, sq))
                                ==> a.states()[table_frame(a0, pte_child(entry_of(a0, c, sq)))]
                                == empty_state(),
                    decreases 512 - s2,
                {
                    let e2 = read_entry(a, c, s2 as u64, Ghost(fcld));
                    proof {
                        assert(entry_of(*a, c, s2 as int) == entry_of(a0, c, s2 as int));
                    }
                    if e2 & PTE_VALID == PTE_VALID && e2 & 0xe == 0 {
                        let g = (e2 & 0xffff_ffff_ffff_fc00u64) << 2;
                        proof {
                            assert(pte_valid_branch(entry_of(a0, c, s2 as int)));
                            assert(g == pte_child(entry_of(a0, c, s2 as int)));
                            assert(tables.dom().contains(g) && g != root);
                            lemma_table_frame_of(a0, g, tables[g].frame);
                        }
                        free_table_frame(a, g, Ghost(tables[g].frame), Ghost(a0));
                    }
                    s2 = s2 + 1;
                }
                free_table_frame(a, c, Ghost(fcld), Ghost(a0));
            }
            s = s + 1;
        }
    }

    /// Read-only translation of `vaddr` through this tree: the walk of
    /// `translate_from`, performed on the allocator's memory.
    #[verifier::loop_isolation(false)]
    pub fn virt_to_phys(&self, a: &MaqAllocator, vaddr: VirtAddr) -> (r: Option<PhysAddr>)
        requires
            self.wf(*a),
        ensures
            match r {
                Some(p) => translate_from(*a, self.root, vaddr.bits, 2) == Some(p.bits),
                None => translate_from(*a, self.root, vaddr.bits, 2) is None,
            },
    {
        let vpn = vaddr.vpn();
        proof {
            lemma_vpn_bounds(vaddr.bits);
        }
        let mut t = self.root;
        let mut level: usize = 2;
        let ghost tables = self.tables@;
        loop
            invariant
                self.wf(*a),
                level <= 2,
                tables == self.tables@,
                tables.dom().contains(t),
                tables[t].level == level,
                translate_from(*a, self.root, vaddr.bits, 2) == translate_from(
                    *a,
                    t,
                    vaddr.bits,
                    level as int,
                ),
            decreases level,
        {
            let slot = vpn[level];
            let e = read_entry(a, t, slot, Ghost(tables[t].frame));
            if e & PTE_VALID != PTE_VALID {
                return None;
            }
            if e & 0xe != 0 {
                let pa = leaf_pa(e, vaddr.bits, level);
                return Some(PhysAddr::new(pa));
            }
            if level == 0 {
                return None;
            }
            let child = (e & 0xffff_ffff_ffff_fc00u64) << 2;
            proof {
                assert(pte_valid_branch(e));
                assert(pte_valid_branch(entry_of(*a, t, slot as int)));
                assert(child == pte_child(e));
            }
            t = child;
            level = level - 1;
        }
    }
}

/// The word at index `w` of the usable region belongs to some known table.
pub open spec fn word_in_tables(tables: Map<u64, TableMeta>, w: int) -> bool {
    exists|t: u64|
        #[trigger] tables.dom().contains(t) && tables[t].frame * 512 <= w < tables[t].frame * 512
            + 512
}

/// How many whole pages `[start, end)` spans once rounded out to page
/// boundaries.
pub open spec fn spec_page_span(start: u64, end: u64) -> int {
    (end + 4095) as int / 4096 - start as int / 4096
}

/// How many fresh tables mapping `va` at `down` still needs: the walk
/// descends through existing branches for free, and pays one table per
/// remaining level from the first invalid slot on.
pub open spec fn missing_tables(a: MaqAllocator, t: u64, va: u64, level: int, down: int) -> int
    decreases level - down,
{
    if level <= down {
        0
    } else {
        let e = entry_of(a, t, spec_vpn(va, level) as int);
        if pte_valid_branch(e) {
            missing_tables(a, pte_child(e), va, level - 1, down)
        } else {
            level - down
        }
    }
}

/// A mapping never needs more tables than it has levels to descend.
pub proof fn lemma_missing_tables_bound(a: MaqAllocator, t: u64, va: u64, level: int, down: int)
    ensures
        0 <= missing_tables(a, t, va, level, down),
        level >= down ==> missing_tables(a, t, va, level, down) <= level - down,
        level < down ==> missing_tables(a, t, va, level, down) == 0,
    decreases level - down,
{
    if level > down {
        let e = entry_of(a, t, spec_vpn(va, level) as int);
        if pte_valid_branch(e) {
            lemma_missing_tables_bound(a, pte_child(e), va, level - 1, down);
        }
    }
}

/// An address whose walk already reaches `down` needs no fresh tables.
pub proof fn lemma_walked_needs_nothing(a: MaqAllocator, t: u64, va: u64, level: int, down: int)
    requires
        walk_table(a, t, va, level, down) is Some,
    ensures
        missing_tables(a, t, va, level, down) == 0,
    decreases level - down,
{
    if level > down {
        let e = entry_of(a, t, spec_vpn(va, level) as int);
        lemma_walked_needs_nothing(a, pte_child(e), va, level - 1, down);
    }
}

/// An upper bound on the tables that identity-mapping `[start, end)` page
/// by page can draw: two for the first page, one more per two-megabyte
/// boundary crossed (a fresh last-level table) and one more per
/// gigabyte boundary crossed (a fresh mid-level table).
pub open spec fn spec_table_span(start: u64, end: u64) -> int {
    let lo = start as int / 4096 * 4096;
    let hi = (end + 4095) as int / 4096 * 4096;
    if hi <= lo {
        0
    } else {
        (hi - 4096) / 0x20_0000 - lo / 0x20_0000 + (hi - 4096) / 0x4000_0000 - lo / 0x4000_0000
            + 2
    }
}

/// `va` and `vb` agree on every virtual page number from level 2 down to
/// `down_to`, so their translation walks cannot part above that level.
pub open spec fn vpn_match(va: u64, vb: u64, down_to: int) -> bool {
    forall|l: int| down_to <= l <= 2 ==> spec_vpn(va, l) == spec_vpn(vb, l)
}

/// The zero word is no entry at all.
proof fn lemma_zero_entry()
    ensures
        !pte_valid(0u64),
        !pte_valid_leaf(0u64),
        !pte_valid_branch(0u64),
{
    assert(0u64 & 1u64 == 0u64) by (bit_vector);
}

/// Distinct (frame, slot) pairs live in distinct words.
proof fn lemma_words_distinct(f0: int, s0: int, f1: int, s1: int)
    requires
        0 <= s0 < 512,
        0 <= s1 < 512,
        f0 != f1 || s0 != s1,
    ensures
        f0 * 512 + s0 != f1 * 512 + s1,
{
}

/// Every slot of the table in frame `f` at address `t` reads from word
/// `f * 512 + slot`.
proof fn lemma_entry_of_frame(a: MaqAllocator, t: u64, f: int)
    requires
        0 <= f,
        t == a.usable_base() + f * (PAGE_SIZE as int),
    ensures
        forall|s: int| 0 <= s < 512 ==> #[trigger] entry_of(a, t, s) == a.mem()[f * 512 + s],
{
    lemma_table_frame_of(a, t, f);
}

/// A branch entry built from the page-aligned table address `p`: the
/// address shifted right by two, with the valid bit set. It is a branch
/// and its child address reconstructs `p` exactly.
proof fn lemma_branch_entry_bits(p: u64)
    requires
        p % 4096 == 0,
    ensures
        pte_valid_branch((p >> 2) | 1u64),
        !pte_valid_leaf((p >> 2) | 1u64),
        pte_child((p >> 2) | 1u64) == p,
{
    assert(((p >> 2) | 1u64) & 1u64 == 1u64 && ((p >> 2) | 1u64) & 0xeu64 == 0u64 && ((((p >> 2)
        | 1u64) & 0xffff_ffff_ffff_fc00u64) << 2) == p) by (bit_vector)
        requires
            p % 4096 == 0,
    ;
}

/// Two allocators that agree on every word of every known table translate
/// every address alike from any known table.
proof fn lemma_translate_agree(
    tables: Map<u64, TableMeta>,
    root: u64,
    a1: MaqAllocator,
    a2: MaqAllocator,
    t0: u64,
    va: u64,
    level: int,
)
    requires
        tables_wf(tables, root, a1),
        a1.wf(),
        a2.usable_base() == a1.usable_base(),
        a2.n_frames() == a1.n_frames(),
        forall|t: u64, s: int|
            tables.dom().contains(t) && 0 <= s < 512 ==> #[trigger] entry_of(a2, t, s)
                == entry_of(a1, t, s),
        tables.dom().contains(t0),
        tables[t0].level == level,
    ensures
        translate_from(a2, t0, va, level) == translate_from(a1, t0, va, level),
    decreases level,
{
    lemma_vpn_bounds(va);
    let s = spec_vpn(va, level) as int;
    assert(entry_of(a2, t0, s) == entry_of(a1, t0, s));
    let e = entry_of(a1, t0, s);
    if pte_valid(e) && !pte_rwx(e) && level > 0 {
        assert(pte_valid_branch(e));
        lemma_translate_agree(tables, root, a1, a2, pte_child(e), va, level - 1);
    }
}

/// Writing a branch entry into a slot that was invalid, pointing at a
/// zero-filled frame outside the known tables, changes no translation:
/// walks that read the slot failed before and fail one level further down
/// now.
proof fn lemma_translate_branch_write(
    tables: Map<u64, TableMeta>,
    root: u64,
    a1: MaqAllocator,
    a2: MaqAllocator,
    tw: u64,
    sw: int,
    c: u64,
    fc: int,
    t0: u64,
    va: u64,
    level: int,
)
    requires
        tables_wf(tables, root, a1),
        a1.wf(),
        a2.usable_base() == a1.usable_base(),
        a2.n_frames() == a1.n_frames(),
        a2.mem() == a1.mem().update(tables[tw].frame * 512 + sw, a2.mem()[tables[tw].frame * 512
            + sw]),
        tables.dom().contains(tw),
        0 <= sw < 512,
        !pte_valid(entry_of(a1, tw, sw)),
        pte_valid_branch(entry_of(a2, tw, sw)),
        pte_child(entry_of(a2, tw, sw)) == c,
        !tables.dom().contains(c),
        c == a1.usable_base() + fc * (PAGE_SIZE as int),
        0 <= fc < a1.n_frames(),
        fc != tables[tw].frame,
        forall|s: int| 0 <= s < 512 ==> #[trigger] a1.mem()[fc * 512 + s] == 0u64,
        tables.dom().contains(t0),
        tables[t0].level == level,
    ensures
        translate_from(a2, t0, va, level) == translate_from(a1, t0, va, level),
    decreases level,
{
    lemma_vpn_bounds(va);
    lemma_zero_entry();
    let s = spec_vpn(va, level) as int;
    let wi = tables[tw].frame * 512 + sw;
    let f0 = tables[t0].frame;
    lemma_entry_of_frame(a1, t0, f0);
    lemma_entry_of_frame(a2, t0, f0);
    lemma_entry_of_frame(a1, tw, tables[tw].frame);
    lemma_entry_of_frame(a2, tw, tables[tw].frame);
    if t0 == tw && s == sw {
        assert(!pte_valid(entry_of(a1, t0, s)));
        assert(translate_from(a1, t0, va, level) is None);
        if level > 0 {
            let s1 = spec_vpn(va, level - 1) as int;
            lemma_words_distinct(fc, s1, tables[tw].frame, sw);
            lemma_entry_of_frame(a2, c, fc);
            assert(entry_of(a2, c, s1) == a1.mem()[fc * 512 + s1]);
            assert(!pte_valid(entry_of(a2, c, s1)));
            assert(translate_from(a2, c, va, level - 1) is None);
        }
    } else {
        lemma_words_distinct(f0, s, tables[tw].frame, sw);
        assert(entry_of(a2, t0, s) == entry_of(a1, t0, s));
        let e = entry_of(a1, t0, s);
        if pte_valid(e) && !pte_rwx(e) && level > 0 {
            assert(pte_valid_branch(e));
            lemma_translate_branch_write(
                tables,
                root,
                a1,
                a2,
                tw,
                sw,
                c,
                fc,
                pte_child(e),
                va,
                level - 1,
            );
        }
    }
}

/// An entry built by `spec_leaf_entry` is valid and carries exactly the
/// flag's access bits.
proof fn lemma_leaf_entry_bits(p: u64, f: u64)
    ensures
        pte_valid(spec_leaf_entry(p, f)),
        pte_rwx(spec_leaf_entry(p, f)) == (f & 0xeu64 != 0),
{
    assert(((((p >> 30) & 0x3ff_ffffu64) << 28) | (((p >> 21) & 0x1ffu64) << 19) | (((p >> 12)
        & 0x1ffu64) << 10) | f | 1u64 | 64u64 | 128u64) & 1u64 == 1u64 && ((((p >> 30)
        & 0x3ff_ffffu64) << 28) | (((p >> 21) & 0x1ffu64) << 19) | (((p >> 12) & 0x1ffu64) << 10)
        | f | 1u64 | 64u64 | 128u64) & 0xeu64 == f & 0xeu64) by (bit_vector);
}

/// Overwriting one slot of a known table at `lvl` with a leaf entry moves
/// exactly the translations whose walk reads that slot: those that reach
/// the written table at `lvl` with the written slot's page number now
/// resolve through the new leaf, every other translation is unchanged.
proof fn lemma_translate_leaf_write(
    tables: Map<u64, TableMeta>,
    root: u64,
    a1: MaqAllocator,
    a2: MaqAllocator,
    tw: u64,
    sw: int,
    t0: u64,
    va: u64,
    level: int,
    lvl: int,
)
    requires
        tables_wf(tables, root, a1),
        a1.wf(),
        a2.usable_base() == a1.usable_base(),
        a2.n_frames() == a1.n_frames(),
        a2.mem() == a1.mem().update(tables[tw].frame * 512 + sw, a2.mem()[tables[tw].frame * 512
            + sw]),
        tables.dom().contains(tw),
        tables[tw].level == lvl,
        0 <= sw < 512,
        pte_valid_leaf(entry_of(a2, tw, sw)),
        tables.dom().contains(t0),
        tables[t0].level == level,
    ensures
        translate_from(a2, t0, va, level) == (if walk_table(a1, t0, va, level, lvl) == Some(tw)
            && spec_vpn(va, lvl) as int == sw {
            Some(pte_leaf_pa(entry_of(a2, tw, sw), va, lvl))
        } else {
            translate_from(a1, t0, va, level)
        }),
    decreases level,
{
    lemma_vpn_bounds(va);
    let s = spec_vpn(va, level) as int;
    let ftw = tables[tw].frame;
    let f0 = tables[t0].frame;
    lemma_entry_of_frame(a1, t0, f0);
    lemma_entry_of_frame(a2, t0, f0);
    lemma_entry_of_frame(a1, tw, ftw);
    lemma_entry_of_frame(a2, tw, ftw);
    if t0 == tw && s == sw {
        assert(level == lvl);
        assert(walk_table(a1, t0, va, level, lvl) == Some(tw));
    } else {
        lemma_words_distinct(f0, s, ftw, sw);
        assert(entry_of(a2, t0, s) == entry_of(a1, t0, s));
        let e = entry_of(a1, t0, s);
        if pte_valid_branch(e) && level > 0 {
            lemma_translate_leaf_write(
                tables,
                root,
                a1,
                a2,
                tw,
                sw,
                pte_child(e),
                va,
                level - 1,
                lvl,
            );
            if level == lvl {
                assert(walk_table(a1, pte_child(e), va, level - 1, lvl) is None);
            }
        }
    }
}

/// Walks for any two addresses that start at distinct tables of the same
/// level end at distinct tables: branch targets never collide.
proof fn lemma_walk_distinct(
    tables: Map<u64, TableMeta>,
    root: u64,
    a: MaqAllocator,
    ta: u64,
    tb: u64,
    va: u64,
    vb: u64,
    level: int,
    down: int,
)
    requires
        tables_wf(tables, root, a),
        tables.dom().contains(ta),
        tables.dom().contains(tb),
        ta != tb,
        tables[ta].level == level,
        tables[tb].level == level,
        walk_table(a, ta, va, level, down) is Some,
        walk_table(a, tb, vb, level, down) is Some,
        down <= level,
    ensures
        walk_table(a, ta, va, level, down) != walk_table(a, tb, vb, level, down),
    decreases level - down,
{
    lemma_vpn_bounds(va);
    lemma_vpn_bounds(vb);
    if level > down {
        let ea = entry_of(a, ta, spec_vpn(va, level) as int);
        let eb = entry_of(a, tb, spec_vpn(vb, level) as int);
        assert(pte_valid_branch(ea) && pte_valid_branch(eb));
        assert(pte_child(ea) != pte_child(eb));
        lemma_walk_distinct(
            tables,
            root,
            a,
            pte_child(ea),
            pte_child(eb),
            va,
            vb,
            level - 1,
            down,
        );
    }
}

/// Two addresses whose walks from one table reach the same table agree on
/// every page number along the way: the tree has no other route.
proof fn lemma_walk_same_vpn(
    tables: Map<u64, TableMeta>,
    root: u64,
    a: MaqAllocator,
    t0: u64,
    va: u64,
    vb: u64,
    level: int,
    down: int,
)
    requires
        tables_wf(tables, root, a),
        tables.dom().contains(t0),
        tables[t0].level == level,
        down <= level,
        walk_table(a, t0, va, level, down) is Some,
        walk_table(a, t0, va, level, down) == walk_table(a, t0, vb, level, down),
    ensures
        forall|l: int| down < l <= level ==> spec_vpn(va, l) == spec_vpn(vb, l),
    decreases level - down,
{
    lemma_vpn_bounds(va);
    lemma_vpn_bounds(vb);
    if level > down {
        let sa = spec_vpn(va, level) as int;
        let sb = spec_vpn(vb, level) as int;
        let ea = entry_of(a, t0, sa);
        let eb = entry_of(a, t0, sb);
        assert(pte_valid_branch(ea) && pte_valid_branch(eb));
        if sa != sb {
            assert(pte_child(ea) != pte_child(eb));
            lemma_walk_distinct(
                tables,
                root,
                a,
                pte_child(ea),
                pte_child(eb),
                va,
                vb,
                level - 1,
                down,
            );
            assert(false);
        } else {
            lemma_walk_same_vpn(tables, root, a, pte_child(ea), va, vb, level - 1, down);
            assert forall|l: int| down < l <= level implies spec_vpn(va, l) == spec_vpn(
                vb,
                l,
            ) by {
                if l < level {
                    assert(spec_vpn(va, l) == spec_vpn(vb, l));
                }
            }
        }
    }
}

/// Two addresses with equal page numbers down to `down` walk alike.
proof fn lemma_walk_same_of_vpn(
    a: MaqAllocator,
    t0: u64,
    va: u64,
    vb: u64,
    level: int,
    down: int,
)
    requires
        forall|l: int| down < l <= level ==> spec_vpn(va, l) == spec_vpn(vb, l),
    ensures
        walk_table(a, t0, va, level, down) == walk_table(a, t0, vb, level, down),
    decreases level - down,
{
    if level > down {
        assert(spec_vpn(va, level) == spec_vpn(vb, level));
        let e = entry_of(a, t0, spec_vpn(va, level) as int);
        if pte_valid_branch(e) {
            lemma_walk_same_of_vpn(a, pte_child(e), va, vb, level - 1, down);
        }
    }
}

/// A range never spans a negative table count.
pub proof fn lemma_table_span_nonneg(start: u64, end: u64)
    ensures
        spec_table_span(start, end) >= 0,
{
    let lo = start as int / 4096 * 4096;
    let hi = (end + 4095) as int / 4096 * 4096;
    if hi > lo {
        assert(hi - 4096 >= lo);
        lemma_div_is_ordered(lo, hi - 4096, 0x20_0000);
        lemma_div_is_ordered(lo, hi - 4096, 0x4000_0000);
    }
}

/// Stepping one page forward changes the upper page numbers only at the
/// matching power-of-two boundaries: the nine-bit fields above the page
/// offset advance exactly when the two-megabyte (and gigabyte) blocks do,
/// and those blocks are the shifts, which are the divisions.
proof fn lemma_page_step(p: u64)
    requires
        p % 4096 == 0,
        p >= 4096,
    ensures
        p % 0x20_0000 != 0 ==> p >> 21 == (p - 4096) as u64 >> 21 && p >> 30 == (p
            - 4096) as u64 >> 30,
        p % 0x20_0000 == 0 ==> p >> 21 == ((p - 4096) as u64 >> 21) + 1,
        p % 0x4000_0000 != 0 ==> p >> 30 == (p - 4096) as u64 >> 30,
        p % 0x4000_0000 == 0 ==> p >> 30 == ((p - 4096) as u64 >> 30) + 1 && p % 0x20_0000 == 0,
        p >> 21 == p / 0x20_0000u64,
        p >> 30 == p / 0x4000_0000u64,
        (p - 4096) as u64 >> 21 == (p - 4096) as u64 / 0x20_0000u64,
        (p - 4096) as u64 >> 30 == (p - 4096) as u64 / 0x4000_0000u64,
{
    assert((p % 0x20_0000 != 0 ==> p >> 21 == (p - 4096) as u64 >> 21 && p >> 30 == (p
        - 4096) as u64 >> 30) && (p % 0x20_0000 == 0 ==> p >> 21 == ((p - 4096) as u64 >> 21)
        + 1) && (p % 0x4000_0000 != 0 ==> p >> 30 == (p - 4096) as u64 >> 30) && (p
        % 0x4000_0000 == 0 ==> p >> 30 == ((p - 4096) as u64 >> 30) + 1 && p % 0x20_0000 == 0)
        && p >> 21 == p / 0x20_0000u64 && p >> 30 == p / 0x4000_0000u64 && (p - 4096) as u64 >> 21
        == (p - 4096) as u64 / 0x20_0000u64 && (p - 4096) as u64 >> 30 == (p
        - 4096) as u64 / 0x4000_0000u64) by (bit_vector)
        requires
            p % 4096 == 0,
            p >= 4096,
    ;
}

/// In a tree whose leaves all sit at level 0, every address can be mapped
/// at level 0: no walk meets a leaf above the last level.
pub proof fn lemma_no_high_leaves_mappable(
    tables: Map<u64, TableMeta>,
    root: u64,
    a: MaqAllocator,
    t0: u64,
    va: u64,
    level: int,
)
    requires
        tables_wf(tables, root, a),
        no_high_leaves(tables, a),
        tables.dom().contains(t0),
        tables[t0].level == level,
    ensures
        path_mappable(a, t0, va, level, 0),
    decreases level,
{
    lemma_vpn_bounds(va);
    if level > 0 {
        let e = entry_of(a, t0, spec_vpn(va, level) as int);
        assert(!pte_valid_leaf(e));
        if pte_valid_branch(e) {
            lemma_no_high_leaves_mappable(tables, root, a, pte_child(e), va, level - 1);
        }
    }
}

/// For a page-aligned `p` inside the 39-bit space, an address `va` shares
/// all three of `p`'s page numbers exactly when its page bits equal `p`;
/// the level-0 leaf entry built from `p` then translates `va` to `va`'s
/// own low 39 bits — the identity, up to sv39's address width.
pub proof fn lemma_identity_leaf(p: u64, f: u64, va: u64)
    requires
        p % 4096 == 0,
        p < 0x80_0000_0000u64,
        f & 0x3ffu64 == f,
    ensures
        vpn_match(va, p, 0) <==> (va & 0x7f_ffff_f000u64 == p),
        (va & 0x7f_ffff_f000u64 == p) ==> pte_leaf_pa(spec_leaf_entry(p, f), va, 0) == (va
            & 0x7f_ffff_ffffu64),
        (va & 0x7f_ffff_f000u64) % 4096 == 0,
{
    assert((va & 0x7f_ffff_f000u64) % 4096 == 0) by (bit_vector);
    assert((va >> 12 & 0x1ff == p >> 12 & 0x1ff && va >> 21 & 0x1ff == p >> 21 & 0x1ff && va >> 30
        & 0x1ff == p >> 30 & 0x1ff) <==> va & 0x7f_ffff_f000u64 == p) by (bit_vector)
        requires
            p % 4096 == 0,
            p < 0x80_0000_0000u64,
    ;
    if va & 0x7f_ffff_f000u64 == p {
        assert forall|l: int| 0 <= l <= 2 implies spec_vpn(va, l) == spec_vpn(p, l) by {}
        assert(((p >> 30 & 0x3ff_ffffu64) << 28 | (p >> 21 & 0x1ffu64) << 19 | (p >> 12
            & 0x1ffu64) << 10 | f | 1u64 | 64u64 | 128u64) >> 10 == p >> 12) by (bit_vector)
            requires
                p % 4096 == 0,
                p < 0x80_0000_0000u64,
                f & 0x3ffu64 == f,
        ;
        assert(spec_leaf_entry(p, f) >> 10 == p >> 12);
        assert((p >> 12 & 0xfff_ffff_ffffu64) << 12 | (va & 0xfffu64) == va & 0x7f_ffff_ffffu64)
            by (bit_vector)
            requires
                p % 4096 == 0,
                p < 0x80_0000_0000u64,
                va & 0x7f_ffff_f000u64 == p,
        ;
        assert(pte_leaf_pa(spec_leaf_entry(p, f), va, 0) == (va & 0x7f_ffff_ffffu64));
    } else {
        if vpn_match(va, p, 0) {
            assert(spec_vpn(va, 0) == spec_vpn(p, 0));
            assert(spec_vpn(va, 1) == spec_vpn(p, 1));
            assert(spec_vpn(va, 2) == spec_vpn(p, 2));
            assert(false);
        }
    }
}

/// Well-formedness of the tree carries from one allocator to another that
/// keeps every known table's entries and frame state.
proof fn lemma_tables_wf_preserved(
    tables: Map<u64, TableMeta>,
    root: u64,
    a1: MaqAllocator,
    a2: MaqAllocator,
)
    requires
        tables_wf(tables, root, a1),
        a2.usable_base() == a1.usable_base(),
        a2.n_frames() == a1.n_frames(),
        forall|t: u64, s: int|
            tables.dom().contains(t) && 0 <= s < 512 ==> #[trigger] entry_of(a2, t, s)
                == entry_of(a1, t, s),
        forall|t: u64| #[trigger]
            tables.dom().contains(t) ==> a2.states()[tables[t].frame]
                == a1.states()[tables[t].frame],
    ensures
        tables_wf(tables, root, a2),
{
    assert forall|t: u64, s: int|
        tables.dom().contains(t) && 0 <= s < 512 && #[trigger] pte_valid_branch(
            entry_of(a2, t, s),
        ) implies {
        &&& tables[t].level >= 1
        &&& tables.dom().contains(pte_child(entry_of(a2, t, s)))
        &&& tables[pte_child(entry_of(a2, t, s))].level == tables[t].level - 1
        &&& pte_child(entry_of(a2, t, s)) != root
    } by {
        assert(entry_of(a2, t, s) == entry_of(a1, t, s));
        assert(pte_valid_branch(entry_of(a1, t, s)));
    }
    assert forall|t1: u64, s1: int, t2: u64, s2: int|
        tables.dom().contains(t1) && tables.dom().contains(t2) && 0 <= s1 < 512 && 0 <= s2 < 512
            && #[trigger] pte_valid_branch(entry_of(a2, t1, s1)) && #[trigger] pte_valid_branch(
            entry_of(a2, t2, s2),
        ) && (t1 != t2 || s1 != s2) implies pte_child(entry_of(a2, t1, s1)) != pte_child(
        entry_of(a2, t2, s2),
    ) by {
        assert(entry_of(a2, t1, s1) == entry_of(a1, t1, s1));
        assert(entry_of(a2, t2, s2) == entry_of(a1, t2, s2));
        assert(pte_valid_branch(entry_of(a1, t1, s1)));
        assert(pte_valid_branch(entry_of(a1, t2, s2)));
    }
}

/// Writes `v` into slot `slot` of the table at `t`, which occupies frame
/// `f` of the allocator's usable region.
fn write_entry(a: &mut MaqAllocator, t: u64, slot: u64, v: u64, Ghost(f): Ghost<int>)
    requires
        old(a).wf(),
        slot < 512,
        0 <= f < old(a).n_frames(),
        t == old(a).usable_base() + f * (PAGE_SIZE as int),
    ensures
        final(a).wf(),
        final(a).heap_base == old(a).heap_base,
        final(a).usable_base() == old(a).usable_base(),
        final(a).states() == old(a).states(),
        final(a).mem() == old(a).mem().update(f * 512 + slot as int, v),
{
    proof {
        lemma_entry_word(*old(a), t, f, slot as int);
    }
    a.write_word(t + 8 * slot, v);
}

/// The three virtual page numbers are nine-bit fields.
pub proof fn lemma_vpn_bounds(va: u64)
    ensures
        spec_vpn(va, 0) < 512,
        spec_vpn(va, 1) < 512,
        spec_vpn(va, 2) < 512,
{
    assert((va >> 12) & 0x1ff < 512 && (va >> 21) & 0x1ff < 512 && (va >> 30) & 0x1ff < 512)
        by (bit_vector);
}

/// A table address of the form `base + f * PAGE_SIZE` sits in frame `f`.
pub proof fn lemma_table_frame_of(a: MaqAllocator, t: u64, f: int)
    requires
        t == a.usable_base() + f * (PAGE_SIZE as int),
        0 <= f,
    ensures
        table_frame(a, t) == f,
{
    assert(t - a.usable_base() == f * (PAGE_SIZE as int));
    lemma_div_by_multiple(f, PAGE_SIZE as int);
}

/// Reads slot `slot` of the table at `t`, which occupies frame `f`.
fn read_entry(a: &MaqAllocator, t: u64, slot: u64, Ghost(f): Ghost<int>) -> (r: u64)
    requires
        a.wf(),
        slot < 512,
        0 <= f < a.n_frames(),
        t == a.usable_base() + f * (PAGE_SIZE as int),
    ensures
        r == entry_of(*a, t, slot as int),
{
    proof {
        lemma_table_frame_of(*a, t, f);
        lemma_entry_word(*a, t, f, slot as int);
    }
    a.read_word(t + 8 * slot)
}

/// The word holding slot `slot` of the table in frame `f` has index
/// `f * 512 + slot` and lies inside the usable region.
proof fn lemma_entry_word(a: MaqAllocator, t: u64, f: int, slot: int)
    requires
        a.wf(),
        0 <= f < a.n_frames(),
        0 <= slot < 512,
        t == a.usable_base() + f * (PAGE_SIZE as int),
    ensures
        a.usable_base() <= t + 8 * slot < a.usable_end(),
        ((t + 8 * slot) - a.usable_base()) / 8 == f * 512 + slot,
        0 <= f * 512 + slot < a.mem().len(),
{
    assert((t + 8 * slot) - a.usable_base() == (f * 512 + slot) * 8);
    lemma_div_by_multiple(f * 512 + slot, 8);
}

/// Releases the single frame `f` holding the table at `t` during
/// teardown. In the snapshot `a0` the frame held a live one-frame run; by
/// now it is either still that run or already free — a walk can reach one
/// frame twice only through entries that alias, and the release must not
/// corrupt the store — so a refusal from the allocator means the frame is
/// already free and is left alone.
fn free_table_frame(a: &mut MaqAllocator, t: u64, Ghost(f): Ghost<int>, Ghost(a0): Ghost<
    MaqAllocator,
>)
    requires
        old(a).wf(),
        0 <= f < old(a).n_frames(),
        t == old(a).usable_base() + f * (PAGE_SIZE as int),
        old(a).states()[f] == a0.states()[f] || old(a).states()[f]
            == empty_state(),
        a0.states()[f].taken && a0.states()[f].last,
    ensures
        final(a).wf(),
        final(a).usable_base() == old(a).usable_base(),
        final(a).n_frames() == old(a).n_frames(),
        final(a).heap_base == old(a).heap_base,
        final(a).mem() == old(a).mem(),
        final(a).states()[f] == empty_state(),
        forall|j: int|
            0 <= j < old(a).n_frames() && j != f ==> final(a).states()[j] == old(a).states()[j],
{
    proof {
        lemma_div_by_multiple(f, PAGE_SIZE as int);
        assert(t - old(a).usable_base() == f * (PAGE_SIZE as int));
        assert((t - old(a).usable_base()) / (PAGE_SIZE as int) == f);
    }
    let r = a.free(t);
    proof {
        let idx = (t - old(a).usable_base()) / (PAGE_SIZE as int);
        assert(idx == f);
        if old(a).states()[f].last {
            assert(run_end(old(a).states(), f) == Some(f));
            assert(r is Ok);
            assert(a.states() == clear_run(old(a).states(), f, f));
        } else {
            assert(old(a).states()[f] == empty_state());
            assert(run_end(old(a).states(), f) is None);
            assert(a.states() == old(a).states());
        }
    }
    match r {
        Ok(()) => {},
        Err(_) => {},
    }
}

/// Computes the leaf physical address of `pte_leaf_pa` for `level`.
fn leaf_pa(e: u64, va: u64, level: usize) -> (r: u64)
    requires
        level <= 2,
    ensures
        r == pte_leaf_pa(e, va, level as int),
{
    if level == 0 {
        (((e >> 10) & 0xfff_ffff_ffffu64) << 12) | (va & 0xfffu64)
    } else if level == 1 {
        (((e >> 19) & 0x7_ffff_ffffu64) << 21) | (va & 0x1f_ffffu64)
    } else {
        (((e >> 28) & 0x3ff_ffffu64) << 30) | (va & 0x3fff_ffffu64)
    }
}

} // verus!
