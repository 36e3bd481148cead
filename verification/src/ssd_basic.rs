use vstd::prelude::*;

use crate::block::{
    block_invalidated, block_programmed, count_valid, lemma_count_valid_zero,
    lemma_invalidate_keeps_discipline, lemma_program_keeps_discipline, Block, BlockState,
    WearStats, PAGES_PER_BLOCK,
};
use crate::mapping::{MappingTable, PhysicalAddress};
use crate::page::{Page, PageState};

verus! {

/// The one error surfaced to the host: even after garbage collection no free
/// block was left to take the write.
#[derive(PartialEq, Eq, Clone, Copy, Debug, Structural)]
pub enum SsdError {
    DeviceFull,
}

/// Number of Free blocks in a block sequence.
pub open spec fn count_free(s: Seq<Block>) -> int
    decreases s.len(),
{
    if s.len() == 0 {
        0
    } else {
        count_free(s.drop_last()) + if s.last().state == BlockState::Free {
            1int
        } else {
            0int
        }
    }
}

/// A sequence with at least one Free block has a Free block.
pub proof fn lemma_count_free_pos(s: Seq<Block>)
    requires
        count_free(s) >= 1,
    ensures
        exists|j: int| 0 <= j < s.len() && (#[trigger] s[j]).state == BlockState::Free,
    decreases s.len(),
{
    if s.len() > 0 {
        if s.last().state == BlockState::Free {
            assert(s[s.len() - 1].state == BlockState::Free);
        } else {
            lemma_count_free_pos(s.drop_last());
            let j = choose|j: int|
                0 <= j < s.drop_last().len() && (#[trigger] s.drop_last()[j]).state
                    == BlockState::Free;
            assert(s[j].state == BlockState::Free);
        }
    }
}

/// When two block sequences agree on every state except possibly at one
/// index, their Free counts differ exactly by what that index contributes.
pub proof fn lemma_count_free_one_change(s1: Seq<Block>, s2: Seq<Block>, i: int)
    requires
        s1.len() == s2.len(),
        0 <= i < s1.len(),
        forall|j: int| 0 <= j < s1.len() && j != i ==> s1[j].state == (#[trigger] s2[j]).state,
    ensures
        count_free(s2) - count_free(s1) == (if s2[i].state == BlockState::Free {
            1int
        } else {
            0int
        }) - (if s1[i].state == BlockState::Free {
            1int
        } else {
            0int
        }),
    decreases s1.len(),
{
    if s1.len() > 0 {
        assert forall|j: int|
            0 <= j < s1.drop_last().len() && j != i implies s1.drop_last()[j].state == (
            #[trigger] s2.drop_last()[j]).state by {
            assert(s1[j].state == s2[j].state);
        }
        if i < s1.len() - 1 {
            lemma_count_free_one_change(s1.drop_last(), s2.drop_last(), i);
            assert(s1.drop_last()[i] == s1[i]);
            assert(s2.drop_last()[i] == s2[i]);
            assert(s1.last().state == s2.last().state);
        } else if s1.len() >= 2 {
            // The prefixes agree on every state; their counts agree too.
            assert(s1.drop_last()[0] == s1[0]);
            assert(s2.drop_last()[0] == s2[0]);
            assert(s1[0].state == s2[0].state);
            lemma_count_free_one_change(s1.drop_last(), s2.drop_last(), 0);
            assert(s1.last() == s1[i]);
            assert(s2.last() == s2[i]);
        } else {
            assert(s1.drop_last().len() == 0);
            assert(count_free(s1.drop_last()) == 0);
            assert(count_free(s2.drop_last()) == 0);
            assert(s1.last() == s1[i]);
            assert(s2.last() == s2[i]);
        }
    }
}

/// Least erase count over a non-empty block sequence.
pub open spec fn min_erase(s: Seq<Block>) -> int
    decreases s.len(),
{
    if s.len() <= 1 {
        if s.len() == 0 {
            0
        } else {
            s[0].erase_count as int
        }
    } else if s.last().erase_count < min_erase(s.drop_last()) {
        s.last().erase_count as int
    } else {
        min_erase(s.drop_last())
    }
}

/// Greatest erase count over a non-empty block sequence.
pub open spec fn max_erase(s: Seq<Block>) -> int
    decreases s.len(),
{
    if s.len() <= 1 {
        if s.len() == 0 {
            0
        } else {
            s[0].erase_count as int
        }
    } else if s.last().erase_count > max_erase(s.drop_last()) {
        s.last().erase_count as int
    } else {
        max_erase(s.drop_last())
    }
}

/// Sum of all erase counts of a block sequence.
pub open spec fn sum_erase(s: Seq<Block>) -> int
    decreases s.len(),
{
    if s.len() == 0 {
        0
    } else {
        sum_erase(s.drop_last()) + s.last().erase_count
    }
}

/// The FTL controller: owns all blocks and the mapping table, rotates the
/// active block, garbage-collects, and keeps the write-amplification
/// counters. `wear_leveling` selects the free-block allocation policy:
/// sequential scan when false, lowest-erase-count-first when true.
pub struct SSD {
    pub blocks: Vec<Block>,
    pub mapping_table: MappingTable,
    pub active_block_idx: usize,
    pub user_write_cnt: u64,
    pub nand_write_cnt: u64,
    pub wear_leveling: bool,
}

impl SSD {
    /// Structural health of the block array: sized, indexed by id, healthy,
    /// and every block obeys the prefix discipline with a matching aggregate
    /// state.
    pub open spec fn blocks_wf(self) -> bool {
        &&& 1 <= self.blocks@.len() <= u32::MAX
        &&& self.active_block_idx < self.blocks@.len()
        &&& forall|i: int| 0 <= i < self.blocks@.len() ==> (#[trigger] self.blocks@[i]).wf()
        &&& forall|i: int| 0 <= i < self.blocks@.len() ==> (#[trigger] self.blocks@[i]).id == i
        &&& forall|i: int| 0 <= i < self.blocks@.len() ==> !(#[trigger] self.blocks@[i]).is_bad
        &&& forall|i: int|
            0 <= i < self.blocks@.len() ==> (#[trigger] self.blocks@[i]).prefix_programmed()
        &&& forall|i: int|
            0 <= i < self.blocks@.len() ==> (#[trigger] self.blocks@[i]).state_consistent()
    }

    /// The physical address names an existing page.
    pub open spec fn pba_in_range(self, p: PhysicalAddress) -> bool {
        p.block_id < self.blocks@.len() && p.page_offset < PAGES_PER_BLOCK
    }

    /// The page a physical address names.
    pub open spec fn page_at(self, p: PhysicalAddress) -> Page {
        self.blocks@[p.block_id as int].pages@[p.page_offset as int]
    }

    /// Every mapped LBA names an existing page that is currently Valid.
    pub open spec fn mapping_valid(self) -> bool {
        forall|l: int|
            0 <= l < self.mapping_table@.len() ==> ((#[trigger] self.mapping_table@[l]) matches
            Some(p) ==> self.pba_in_range(p) && self.page_at(p).state == PageState::Valid)
    }

    /// No two LBAs are mapped to the same physical page.
    pub open spec fn mapping_injective(self) -> bool {
        forall|l1: int, l2: int|
            0 <= l1 < self.mapping_table@.len() && 0 <= l2 < self.mapping_table@.len() && l1 != l2
                && (#[trigger] self.mapping_table@[l1]) is Some && (
            #[trigger] self.mapping_table@[l2]) is Some ==> self.mapping_table@[l1]
                != self.mapping_table@[l2]
    }

    /// Every Valid page is the current target of some mapped LBA; together
    /// with injectivity, Valid pages and mapped LBAs are in one-to-one
    /// correspondence.
    pub open spec fn valid_pages_mapped(self) -> bool {
        forall|i: int, o: int|
            0 <= i < self.blocks@.len() && 0 <= o < PAGES_PER_BLOCK
                && (#[trigger] self.blocks@[i].pages@[o]).state == PageState::Valid
                ==> exists|l: int|
                0 <= l < self.mapping_table@.len() && #[trigger] self.mapping_table@[l] == Some(
                    PhysicalAddress { block_id: i as u32, page_offset: o as usize },
                )
    }

    /// The controller's full invariant: every operation both assumes and
    /// re-establishes it.
    pub open spec fn inv(self) -> bool {
        &&& self.blocks_wf()
        &&& self.mapping_valid()
        &&& self.mapping_injective()
        &&& self.valid_pages_mapped()
    }

    /// The logical contents of the device: for each LBA, the data readable
    /// through its current mapping, or None while it is unmapped. Writes
    /// update exactly one slot of this view; GC never changes it.
    pub open spec fn logical(self) -> Seq<Option<u32>> {
        Seq::new(
            self.mapping_table@.len(),
            |l: int|
                match self.mapping_table@[l] {
                    None => None,
                    Some(p) => Some(self.page_at(p).content),
                },
        )
    }

    /// A block GC may reclaim: in range, not the active block, and not Free.
    pub open spec fn eligible_victim(self, j: int) -> bool {
        &&& 0 <= j < self.blocks@.len()
        &&& j != self.active_block_idx
        &&& self.blocks@[j].state != BlockState::Free
    }

    /// A device GC cannot help: the active block is Full, no other block is
    /// Free, and every eligible victim still holds valid data — migrating it
    /// would need a free page that does not exist.
    pub open spec fn gc_blocked(self) -> bool {
        &&& self.blocks@[self.active_block_idx as int].state == BlockState::Full
        &&& forall|j: int|
            0 <= j < self.blocks@.len() && j != self.active_block_idx ==> (
            #[trigger] self.blocks@[j]).state != BlockState::Free
        &&& forall|j: int|
            #[trigger] self.eligible_victim(j) ==> count_valid(self.blocks@[j].pages@) >= 1
    }

    /// A fresh device: `num_blocks` erased blocks and an empty mapping table
    /// over `num_lbas` logical addresses, under the baseline (sequential)
    /// allocation policy.
    pub fn new(num_blocks: usize, num_lbas: usize) -> (s: SSD)
        requires
            1 <= num_blocks <= u32::MAX,
        ensures
            s.inv(),
            s.is_fresh(num_blocks as int, num_lbas as int),
            !s.wear_leveling,
    {
        Self::init(num_blocks, num_lbas, false)
    }

    /// A fresh device under the wear-aware policy: free-block rotation
    /// prefers the block with the lowest erase count.
    pub fn new_wear_leveling(num_blocks: usize, num_lbas: usize) -> (s: SSD)
        requires
            1 <= num_blocks <= u32::MAX,
        ensures
            s.inv(),
            s.is_fresh(num_blocks as int, num_lbas as int),
            s.wear_leveling,
    {
        Self::init(num_blocks, num_lbas, true)
    }

    /// What both constructors deliver: sized structures, zero counters, all
    /// blocks erased and never worn, nothing mapped.
    pub open spec fn is_fresh(self, num_blocks: int, num_lbas: int) -> bool {
        &&& self.blocks@.len() == num_blocks
        &&& self.mapping_table@.len() == num_lbas
        &&& self.active_block_idx == 0
        &&& self.user_write_cnt == 0
        &&& self.nand_write_cnt == 0
        &&& forall|i: int|
            0 <= i < num_blocks ==> (#[trigger] self.blocks@[i]).state == BlockState::Free
        &&& forall|i: int| 0 <= i < num_blocks ==> (#[trigger] self.blocks@[i]).erase_count == 0
        &&& forall|l: int| 0 <= l < num_lbas ==> self.mapping_table@[l] is None
        &&& count_free(self.blocks@) == num_blocks
    }

    fn init(num_blocks: usize, num_lbas: usize, wear_leveling: bool) -> (s: SSD)
        requires
            1 <= num_blocks <= u32::MAX,
        ensures
            s.inv(),
            s.is_fresh(num_blocks as int, num_lbas as int),
            s.wear_leveling == wear_leveling,
    {
        let mut blocks: Vec<Block> = Vec::new();
        let mut i: usize = 0;
        while i < num_blocks
            invariant
                i <= num_blocks <= u32::MAX,
                blocks@.len() == i,
                count_free(blocks@) == i,
                forall|k: int|
                    0 <= k < i ==> {
                        let b = #[trigger] blocks@[k];
                        &&& b.wf()
                        &&& b.id == k
                        &&& b.erase_count == 0
                        &&& !b.is_bad
                        &&& b.state == BlockState::Free
                        &&& b.prefix_programmed()
                        &&& b.state_consistent()
                        &&& forall|o: int|
                            0 <= o < PAGES_PER_BLOCK ==> b.pages@[o].state == PageState::Free
                    },
            decreases num_blocks - i,
        {
            let ghost prev = blocks@;
            blocks.push(Block::new(i as u32));
            proof {
                assert(blocks@.drop_last() =~= prev);
            }
            i += 1;
        }
        SSD {
            blocks,
            mapping_table: MappingTable::new(num_lbas),
            active_block_idx: 0,
            user_write_cnt: 0,
            nand_write_cnt: 0,
            wear_leveling,
        }
    }

    /// Number of Free blocks; the write path keeps one in reserve and
    /// triggers GC when at most one is left.
    fn count_free_blocks(&self) -> (n: usize)
        requires
            self.blocks_wf(),
        ensures
            n == count_free(self.blocks@),
            n <= self.blocks@.len(),
    {
        let mut n: usize = 0;
        let mut i: usize = 0;
        let len = self.blocks.len();
        while i < len
            invariant
                i <= len,
                len == self.blocks@.len(),
                self.blocks_wf(),
                n <= i,
                n == count_free(self.blocks@.take(i as int)),
            decreases len - i,
        {
            proof {
                assert(self.blocks@.take(i + 1).drop_last() =~= self.blocks@.take(i as int));
                assert(self.blocks@.take(i + 1).last() == self.blocks@[i as int]);
            }
            if matches!(self.blocks[i].state, BlockState::Free) {
                n += 1;
            }
            i += 1;
        }
        proof {
            assert(self.blocks@.take(len as int) =~= self.blocks@);
        }
        n
    }

    /// Pick the Free block the write path should rotate to, never the one
    /// currently active. The baseline policy takes the first Free block in
    /// index order; the wear-aware policy takes a Free block with the lowest
    /// erase count.
    fn find_next_free_block(&self) -> (r: Option<usize>)
        requires
            self.blocks_wf(),
        ensures
            r is None ==> forall|j: int|
                0 <= j < self.blocks@.len() && j != self.active_block_idx ==> (
                #[trigger] self.blocks@[j]).state != BlockState::Free,
            r matches Some(i) ==> {
                &&& i < self.blocks@.len()
                &&& i != self.active_block_idx
                &&& self.blocks@[i as int].state == BlockState::Free
                &&& !self.wear_leveling ==> forall|j: int|
                    0 <= j < i && j != self.active_block_idx ==> (#[trigger] self.blocks@[j]).state
                        != BlockState::Free
                &&& self.wear_leveling ==> forall|j: int|
                    0 <= j < self.blocks@.len() && j != self.active_block_idx && (
                    #[trigger] self.blocks@[j]).state == BlockState::Free
                        ==> self.blocks@[i as int].erase_count <= self.blocks@[j].erase_count
            },
    {
        let len = self.blocks.len();
        let mut best: Option<usize> = None;
        let mut i: usize = 0;
        while i < len
            invariant
                i <= len,
                len == self.blocks@.len(),
                self.blocks_wf(),
                !self.wear_leveling ==> best is None,
                best is None ==> forall|j: int|
                    0 <= j < i && j != self.active_block_idx ==> (#[trigger] self.blocks@[j]).state
                        != BlockState::Free,
                best matches Some(b) ==> {
                    &&& b < self.blocks@.len()
                    &&& b != self.active_block_idx
                    &&& self.blocks@[b as int].state == BlockState::Free
                    &&& !self.wear_leveling ==> forall|j: int|
                        0 <= j < b && j != self.active_block_idx ==> (
                        #[trigger] self.blocks@[j]).state != BlockState::Free
                    &&& self.wear_leveling ==> forall|j: int|
                        0 <= j < i && j != self.active_block_idx && (
                        #[trigger] self.blocks@[j]).state == BlockState::Free
                            ==> self.blocks@[b as int].erase_count <= self.blocks@[j].erase_count
                },
            decreases len - i,
        {
            if i != self.active_block_idx && matches!(self.blocks[i].state, BlockState::Free) {
                if !self.wear_leveling {
                    return Some(i);
                }
                match best {
                    None => {
                        best = Some(i);
                    },
                    Some(b) => {
                        if self.blocks[i].erase_count < self.blocks[b].erase_count {
                            best = Some(i);
                        }
                    },
                }
            }
            i += 1;
        }
        best
    }

    /// The public write path, the host's entry point. Proactively
    /// garbage-collects when at most one Free block is left, delegates to
    /// the internal write, and rotates to a fresh block when the active one
    /// is Full. A completed host write — and only a completed one — counts
    /// on `user_write_cnt`, and programs at least one page, so
    /// `nand_write_cnt` never falls behind `user_write_cnt`. On success the
    /// LBA reads back the new data and no other LBA's contents move; a
    /// rejected write changes no logical contents. With at least two Free
    /// blocks beforehand the write succeeds in exactly one program and
    /// consumes at most one Free block; when the device is wedged (active
    /// block Full, no Free block, every GC victim still holding valid data)
    /// it fails, with DeviceFull, the one error surfaced to the host.
    #[verifier::rlimit(80)]
    pub fn write(&mut self, lba: usize, data: u32) -> (r: Result<(), SsdError>)
        requires
            old(self).inv(),
            lba < old(self).mapping_table@.len(),
            old(self).user_write_cnt < u64::MAX,
            old(self).nand_write_cnt + PAGES_PER_BLOCK + 1 <= u64::MAX,
        ensures
            final(self).inv(),
            r is Ok ==> final(self).user_write_cnt == old(self).user_write_cnt + 1,
            r is Err ==> final(self).user_write_cnt == old(self).user_write_cnt,
            old(self).nand_write_cnt <= final(self).nand_write_cnt <= old(self).nand_write_cnt
                + PAGES_PER_BLOCK + 1,
            final(self).mapping_table@.len() == old(self).mapping_table@.len(),
            final(self).blocks@.len() == old(self).blocks@.len(),
            final(self).wear_leveling == old(self).wear_leveling,
            old(self).nand_write_cnt >= old(self).user_write_cnt ==> final(self).nand_write_cnt
                >= final(self).user_write_cnt,
            r is Ok ==> final(self).nand_write_cnt >= old(self).nand_write_cnt + 1,
            r is Ok ==> (final(self).mapping_table@[lba as int] matches Some(p)
                && final(self).pba_in_range(p)
                && final(self).page_at(p) == (Page { content: data, state: PageState::Valid })),
            r is Ok ==> final(self).logical() == old(self).logical().update(
                lba as int,
                Some(data),
            ),
            r is Err ==> final(self).logical() == old(self).logical(),
            r is Err ==> final(self).blocks@[final(self).active_block_idx as int].state
                == BlockState::Full && forall|j: int|
                0 <= j < final(self).blocks@.len() && j != final(self).active_block_idx ==> (
                #[trigger] final(self).blocks@[j]).state != BlockState::Free,
            old(self).gc_blocked() ==> r is Err,
            count_free(old(self).blocks@) >= 2 ==> r is Ok,
            count_free(old(self).blocks@) >= 2 ==> final(self).nand_write_cnt == old(
                self,
            ).nand_write_cnt + 1,
            count_free(old(self).blocks@) >= 2 ==> count_free(final(self).blocks@) >= count_free(
                old(self).blocks@,
            ) - 1,
            count_free(old(self).blocks@) >= 2 && r is Ok ==> (old(self).mapping_table@[
                lba as int] matches Some(q) ==> final(self).page_at(q).state
                == PageState::Invalid),
    {
        let ghost pre = *self;
        if self.count_free_blocks() <= 1 {
            self.gc();
        }
        let ghost post_gc = *self;
        let first = self.write_internal(lba, data);
        if first.is_none() {
            match self.find_next_free_block() {
                Some(next_idx) => {
                    self.active_block_idx = next_idx;
                    let ghost s1 = *self;
                    proof {
                        assert(s1.logical() =~= post_gc.logical());
                        if pre.gc_blocked() {
                            // GC changed nothing on a wedged device, so no
                            // Free block can have turned up.
                            assert(post_gc.blocks@[next_idx as int].state == BlockState::Free);
                            assert(false);
                        }
                    }
                    let second = self.write_internal(lba, data);
                    let ghost s2 = *self;
                    proof {
                        assert(second is Some);
                    }
                    self.user_write_cnt = self.user_write_cnt + 1;
                    proof {
                        Self::lemma_counter_only(s2, *self);
                    }
                    return Ok(());
                },
                None => {
                    proof {
                        // Were two blocks Free on entry, GC would not have
                        // run and a Free block would still exist; but every
                        // block is now non-Free.
                        if count_free(pre.blocks@) >= 2 {
                            assert(post_gc.blocks@ == pre.blocks@);
                            lemma_count_free_pos(self.blocks@);
                            let j = choose|j: int|
                                0 <= j < self.blocks@.len() && (#[trigger] self.blocks@[j]).state
                                    == BlockState::Free;
                            assert(false);
                        }
                    }
                    return Err(SsdError::DeviceFull);
                },
            }
        }
        let ghost s3 = *self;
        proof {
            if pre.gc_blocked() {
                assert(false);
            }
        }
        self.user_write_cnt = self.user_write_cnt + 1;
        proof {
            Self::lemma_counter_only(s3, *self);
        }
        Ok(())
    }

    /// Bumping a counter moves neither the blocks nor the mapping, so the
    /// logical view is untouched.
    proof fn lemma_counter_only(s1: SSD, s2: SSD)
        requires
            s2.blocks@ == s1.blocks@,
            s2.mapping_table@ == s1.mapping_table@,
        ensures
            s2.logical() == s1.logical(),
    {
        assert forall|l: int|
            0 <= l < s2.logical().len() implies s2.logical()[l] == s1.logical()[l] by {
            match s2.mapping_table@[l] {
                Some(q) => {
                    assert(s2.page_at(q) == s1.page_at(q));
                },
                None => {},
            }
        }
        assert(s2.logical() =~= s1.logical());
    }

    /// What one internal write does when the active block still has a Free
    /// page at offset `off`: the first-fit page is programmed with the data,
    /// the LBA is remapped onto it, the NAND counter grows by exactly one,
    /// and the page the LBA previously occupied (if any) is invalidated —
    /// whether it sits in the active block itself or in another one. Nothing
    /// else changes.
    pub open spec fn write_applied(pre: SSD, post: SSD, lba: int, data: u32, off: int) -> bool {
        let a = pre.active_block_idx as int;
        let npba = PhysicalAddress {
            block_id: pre.active_block_idx as u32,
            page_offset: off as usize,
        };
        &&& 0 <= off < PAGES_PER_BLOCK
        &&& pre.blocks@[a].pages@[off].state == PageState::Free
        &&& forall|j: int| 0 <= j < off ==> pre.blocks@[a].pages@[j].state != PageState::Free
        &&& post.nand_write_cnt == pre.nand_write_cnt + 1
        &&& post.user_write_cnt == pre.user_write_cnt
        &&& post.active_block_idx == pre.active_block_idx
        &&& post.wear_leveling == pre.wear_leveling
        &&& post.blocks@.len() == pre.blocks@.len()
        &&& post.mapping_table@ == pre.mapping_table@.update(lba, Some(npba))
        &&& match pre.mapping_table@[lba] {
            None => {
                &&& forall|i: int|
                    0 <= i < pre.blocks@.len() && i != a ==> (#[trigger] post.blocks@[i])
                        == pre.blocks@[i]
                &&& block_programmed(pre.blocks@[a], post.blocks@[a], off, data)
            },
            Some(p) => {
                let ob = p.block_id as int;
                let po = p.page_offset as int;
                if ob == a {
                    &&& po != off
                    &&& forall|i: int|
                        0 <= i < pre.blocks@.len() && i != a ==> (#[trigger] post.blocks@[i])
                            == pre.blocks@[i]
                    &&& post.blocks@[a].id == pre.blocks@[a].id
                    &&& post.blocks@[a].erase_count == pre.blocks@[a].erase_count
                    &&& post.blocks@[a].is_bad == pre.blocks@[a].is_bad
                    &&& post.blocks@[a].state == (if off == PAGES_PER_BLOCK - 1 {
                        BlockState::Full
                    } else if pre.blocks@[a].state == BlockState::Free {
                        BlockState::Active
                    } else {
                        pre.blocks@[a].state
                    })
                    &&& post.blocks@[a].pages@ == pre.blocks@[a].pages@.update(
                        off,
                        Page { content: data, state: PageState::Valid },
                    ).update(
                        po,
                        Page {
                            content: pre.blocks@[a].pages@[po].content,
                            state: PageState::Invalid,
                        },
                    )
                } else {
                    &&& forall|i: int|
                        0 <= i < pre.blocks@.len() && i != a && i != ob ==> (
                        #[trigger] post.blocks@[i]) == pre.blocks@[i]
                    &&& block_programmed(pre.blocks@[a], post.blocks@[a], off, data)
                    &&& block_invalidated(pre.blocks@[ob], post.blocks@[ob], po)
                }
            },
        }
    }

    /// The internal write path, shared by the public write and by GC
    /// migration so that GC-induced programs never touch `user_write_cnt`.
    /// Programs the first Free page of the active block, remaps the LBA,
    /// and invalidates the superseded page. Returns the programmed offset,
    /// or None — leaving the device untouched — when the active block is
    /// Full, signalling the caller to rotate blocks.
    fn write_internal(&mut self, lba: usize, data: u32) -> (r: Option<usize>)
        requires
            old(self).inv(),
            lba < old(self).mapping_table@.len(),
            old(self).nand_write_cnt < u64::MAX,
        ensures
            final(self).inv(),
            r is None ==> *final(self) == *old(self)
                && old(self).blocks@[old(self).active_block_idx as int].state == BlockState::Full,
            r matches Some(off) ==> Self::write_applied(
                *old(self),
                *final(self),
                lba as int,
                data,
                off as int,
            ) && old(self).blocks@[old(self).active_block_idx as int].state != BlockState::Full,
            r is Some ==> final(self).logical() == old(self).logical().update(
                lba as int,
                Some(data),
            ),
            r is Some ==> count_free(old(self).blocks@) - 1 <= count_free(final(self).blocks@)
                <= count_free(old(self).blocks@),
    {
        let ghost pre = *self;
        let a = self.active_block_idx;
        let off = match self.blocks[a].first_free_offset() {
            Some(o) => o,
            None => {
                proof {
                    assert(pre.blocks@[a as int].pages@[PAGES_PER_BLOCK - 1].state
                        != PageState::Free);
                }
                return None;
            },
        };
        proof {
            // A Free page at `off` rules out a Full block.
            assert(pre.blocks@[a as int].pages@[off as int].state == PageState::Free);
            if pre.blocks@[a as int].pages@[PAGES_PER_BLOCK - 1].state != PageState::Free {
                assert(pre.blocks@[a as int].pages@[off as int].state != PageState::Free);
            }
        }
        self.nand_write_cnt = self.nand_write_cnt + 1;
        let id = self.blocks[a].id;
        self.blocks[a].program(off, data);
        let ghost mid = *self;
        proof {
            lemma_program_keeps_discipline(
                pre.blocks@[a as int],
                mid.blocks@[a as int],
                off as int,
                data,
            );
        }
        let new_pba = PhysicalAddress { block_id: id, page_offset: off };
        let old_pba_opt = self.mapping_table.update(lba, new_pba);
        if let Some(old_pba) = old_pba_opt {
            proof {
                // The superseded address is in range and its page is Valid.
                assert(pre.mapping_table@[lba as int] matches Some(p) && pre.pba_in_range(p)
                    && pre.page_at(p).state == PageState::Valid);
            }
            let ob = old_pba.block_id as usize;
            self.blocks[ob].invalidate(old_pba.page_offset);
            proof {
                lemma_invalidate_keeps_discipline(
                    mid.blocks@[ob as int],
                    self.blocks@[ob as int],
                    old_pba.page_offset as int,
                );
            }
        }
        proof {
            Self::lemma_write_reestablishes_inv(pre, *self, lba as int, data, off as int);
        }
        Some(off)
    }

    /// The single-write transition preserves the controller invariant.
    proof fn lemma_write_reestablishes_inv(pre: SSD, post: SSD, lba: int, data: u32, off: int)
        requires
            pre.inv(),
            0 <= lba < pre.mapping_table@.len(),
            Self::write_applied(pre, post, lba, data, off),
            post.blocks@[pre.active_block_idx as int].wf(),
            post.blocks@[pre.active_block_idx as int].prefix_programmed(),
            post.blocks@[pre.active_block_idx as int].state_consistent(),
            pre.mapping_table@[lba] matches Some(p) ==> post.blocks@[p.block_id as int].wf()
                && post.blocks@[p.block_id as int].prefix_programmed()
                && post.blocks@[p.block_id as int].state_consistent(),
        ensures
            post.inv(),
            post.logical() == pre.logical().update(lba, Some(data)),
            count_free(pre.blocks@) - 1 <= count_free(post.blocks@) <= count_free(pre.blocks@),
    {
        let a = pre.active_block_idx as int;
        let npba = PhysicalAddress {
            block_id: pre.active_block_idx as u32,
            page_offset: off as usize,
        };
        // blocks_wf
        assert forall|i: int| 0 <= i < post.blocks@.len() implies (#[trigger] post.blocks@[i]).wf()
            && post.blocks@[i].id == i && !post.blocks@[i].is_bad
            && post.blocks@[i].prefix_programmed() && post.blocks@[i].state_consistent() by {
            assert(pre.blocks@[i].wf() && pre.blocks@[i].id == i && !pre.blocks@[i].is_bad
                && pre.blocks@[i].prefix_programmed() && pre.blocks@[i].state_consistent());
        }
        // No LBA was mapped onto the page just programmed: it was Free.
        assert forall|l: int|
            0 <= l < pre.mapping_table@.len() && l != lba implies #[trigger] pre.mapping_table@[l]
            != Some(npba) by {
            if pre.mapping_table@[l] == Some(npba) {
                assert(pre.page_at(npba).state == PageState::Valid);
            }
        }
        // mapping_valid
        assert forall|l: int|
            0 <= l < post.mapping_table@.len() implies ((#[trigger] post.mapping_table@[l]) matches
        Some(q) ==> post.pba_in_range(q) && post.page_at(q).state == PageState::Valid) by {
            match post.mapping_table@[l] {
                Some(q) => {
                    if l == lba {
                        assert(q == npba);
                        assert(post.page_at(q).state == PageState::Valid);
                    } else {
                        assert(pre.mapping_table@[l] == post.mapping_table@[l]);
                        assert(pre.pba_in_range(q) && pre.page_at(q).state == PageState::Valid);
                        match pre.mapping_table@[lba] {
                            Some(p) => {
                                assert(pre.mapping_table@[l] != pre.mapping_table@[lba]);
                                assert(q != p);
                                if q.block_id == p.block_id && q.block_id as int != a {
                                    assert(post.page_at(q) == pre.page_at(q));
                                }
                            },
                            None => {},
                        }
                        assert(post.page_at(q).state == PageState::Valid);
                    }
                },
                None => {},
            }
        }
        // mapping_injective
        assert forall|l1: int, l2: int|
            0 <= l1 < post.mapping_table@.len() && 0 <= l2 < post.mapping_table@.len() && l1 != l2
                && (#[trigger] post.mapping_table@[l1]) is Some && (
            #[trigger] post.mapping_table@[l2]) is Some implies post.mapping_table@[l1]
            != post.mapping_table@[l2] by {
            if l1 != lba && l2 != lba {
                assert(pre.mapping_table@[l1] == post.mapping_table@[l1]);
                assert(pre.mapping_table@[l2] == post.mapping_table@[l2]);
            }
        }
        // valid_pages_mapped
        assert forall|i: int, o: int|
            0 <= i < post.blocks@.len() && 0 <= o < PAGES_PER_BLOCK
                && (#[trigger] post.blocks@[i].pages@[o]).state == PageState::Valid
                implies exists|l: int|
            0 <= l < post.mapping_table@.len() && #[trigger] post.mapping_table@[l] == Some(
                PhysicalAddress { block_id: i as u32, page_offset: o as usize },
            ) by {
            let pba = PhysicalAddress { block_id: i as u32, page_offset: o as usize };
            if i == a && o == off {
                assert(post.mapping_table@[lba] == Some(npba));
            } else {
                assert(pre.blocks@[i].pages@[o].state == PageState::Valid);
                let l0 = choose|l: int|
                    0 <= l < pre.mapping_table@.len() && #[trigger] pre.mapping_table@[l] == Some(
                        pba,
                    );
                if l0 == lba {
                    // Then pba was the superseded address, whose page is now
                    // Invalid — contradicting Valid above.
                    assert(post.blocks@[i].pages@[o].state == PageState::Invalid);
                } else {
                    assert(post.mapping_table@[l0] == Some(pba));
                }
            }
        }
        // Only the programmed page's content changed.
        assert forall|q: PhysicalAddress|
            pre.pba_in_range(q) && q != npba implies post.page_at(q).content == pre.page_at(
            q,
        ).content by {
            match pre.mapping_table@[lba] {
                None => {
                    if q.block_id as int != a {
                        assert(post.blocks@[q.block_id as int] == pre.blocks@[q.block_id as int]);
                    }
                },
                Some(p) => {
                    if q.block_id as int != a && q.block_id != p.block_id {
                        assert(post.blocks@[q.block_id as int] == pre.blocks@[q.block_id as int]);
                    }
                },
            }
        }
        // The logical view changes in exactly one slot.
        assert forall|l: int| 0 <= l < post.logical().len() implies post.logical()[l]
            == pre.logical().update(lba, Some(data))[l] by {
            if l == lba {
                assert(post.mapping_table@[lba] == Some(npba));
                assert(post.page_at(npba).content == data);
            } else {
                assert(post.mapping_table@[l] == pre.mapping_table@[l]);
                match pre.mapping_table@[l] {
                    None => {},
                    Some(q) => {
                        assert(pre.pba_in_range(q) && pre.page_at(q).state == PageState::Valid);
                        assert(q != npba);
                        assert(post.page_at(q).content == pre.page_at(q).content);
                    },
                }
            }
        }
        assert(post.logical() =~= pre.logical().update(lba, Some(data)));
        // The active block stops being Free (if it was); no other state moves.
        assert forall|j: int|
            0 <= j < pre.blocks@.len() && j != a implies pre.blocks@[j].state == (
            #[trigger] post.blocks@[j]).state by {
            match pre.mapping_table@[lba] {
                None => {
                    assert(post.blocks@[j] == pre.blocks@[j]);
                },
                Some(p) => {
                    if j != p.block_id as int {
                        assert(post.blocks@[j] == pre.blocks@[j]);
                    }
                },
            }
        }
        lemma_count_free_one_change(pre.blocks@, post.blocks@, a);
        assert(post.blocks@[a].state != BlockState::Free);
    }

    /// One garbage-collection pass. Victim selection: among all blocks that
    /// are neither the active block nor Free, the one with the fewest Valid
    /// pages; when none is eligible the pass is a no-op. Every Valid page of
    /// the victim is migrated through the internal write path — so
    /// `user_write_cnt` never moves — rotating the active block if it fills
    /// mid-migration; then the victim is erased back to Free. When no free
    /// block is left to finish a migration the pass stops early, leaving the
    /// device consistent and still short of space.
    pub fn gc(&mut self)
        requires
            old(self).inv(),
            old(self).nand_write_cnt + PAGES_PER_BLOCK <= u64::MAX,
        ensures
            final(self).inv(),
            final(self).user_write_cnt == old(self).user_write_cnt,
            final(self).mapping_table@.len() == old(self).mapping_table@.len(),
            final(self).blocks@.len() == old(self).blocks@.len(),
            final(self).wear_leveling == old(self).wear_leveling,
            old(self).nand_write_cnt <= final(self).nand_write_cnt <= old(self).nand_write_cnt
                + PAGES_PER_BLOCK,
            (forall|j: int|
                0 <= j < old(self).blocks@.len() && j != old(self).active_block_idx ==> (
                #[trigger] old(self).blocks@[j]).state == BlockState::Free) ==> *final(self)
                == *old(self),
            final(self).logical() == old(self).logical(),
            old(self).gc_blocked() ==> *final(self) == *old(self),
            (exists|j: int|
                #[trigger] old(self).eligible_victim(j) && count_valid(
                    old(self).blocks@[j].pages@,
                ) == 0) ==> count_free(final(self).blocks@) > count_free(old(self).blocks@),
            count_free(final(self).blocks@) > count_free(old(self).blocks@) ==> (exists|v: int|
                {
                    &&& #[trigger] old(self).eligible_victim(v)
                    &&& forall|j: int|
                        #[trigger] old(self).eligible_victim(j) ==> count_valid(
                            old(self).blocks@[v].pages@,
                        ) <= count_valid(old(self).blocks@[j].pages@)
                    &&& final(self).blocks@[v].state == BlockState::Free
                    &&& forall|o: int|
                        0 <= o < PAGES_PER_BLOCK ==> final(self).blocks@[v].pages@[o] == (Page {
                            content: 0u32,
                            state: PageState::Free,
                        })
                    &&& final(self).blocks@[v].erase_count == (if old(self).blocks@[v].erase_count
                        < u32::MAX {
                        old(self).blocks@[v].erase_count + 1
                    } else {
                        old(self).blocks@[v].erase_count as int
                    })
                }),
    {
        let ghost pre = *self;
        let len = self.blocks.len();
        let mut victim: Option<usize> = None;
        let mut min_valid: usize = usize::MAX;
        let mut i: usize = 0;
        while i < len
            invariant
                *self == pre,
                pre == *old(self),
                pre.inv(),
                len == self.blocks@.len(),
                i <= len,
                victim is None ==> min_valid == usize::MAX,
                victim is None ==> forall|j: int|
                    0 <= j < i && j != self.active_block_idx ==> (
                    #[trigger] self.blocks@[j]).state == BlockState::Free,
                victim matches Some(v) ==> {
                    &&& v < len
                    &&& v != self.active_block_idx
                    &&& self.blocks@[v as int].state != BlockState::Free
                    &&& min_valid == count_valid(self.blocks@[v as int].pages@)
                    &&& forall|j: int|
                        0 <= j < i && j != self.active_block_idx && (
                        #[trigger] self.blocks@[j]).state != BlockState::Free ==> min_valid
                            <= count_valid(self.blocks@[j].pages@)
                },
            decreases len - i,
        {
            if i != self.active_block_idx && !matches!(self.blocks[i].state, BlockState::Free) {
                let vcnt = self.blocks[i].count_valid_pages();
                if vcnt < min_valid {
                    min_valid = vcnt;
                    victim = Some(i);
                }
            }
            i += 1;
        }
        let victim_idx = match victim {
            Some(v) => v,
            None => {
                proof {
                    // Nothing is eligible: every non-active block is Free.
                    if exists|j: int|
                        #[trigger] pre.eligible_victim(j) && count_valid(pre.blocks@[j].pages@)
                            == 0 {
                        let j = choose|j: int|
                            #[trigger] pre.eligible_victim(j) && count_valid(
                                pre.blocks@[j].pages@,
                            ) == 0;
                        assert(pre.blocks@[j].state == BlockState::Free);
                        assert(false);
                    }
                }
                return ;
            },
        };
        let mut page_idx: usize = 0;
        while page_idx < PAGES_PER_BLOCK
            invariant
                pre == *old(self),
                self.inv(),
                self.blocks@.len() == pre.blocks@.len(),
                self.mapping_table@.len() == pre.mapping_table@.len(),
                self.user_write_cnt == pre.user_write_cnt,
                self.wear_leveling == pre.wear_leveling,
                victim_idx < self.blocks@.len(),
                victim_idx != self.active_block_idx,
                victim_idx != pre.active_block_idx,
                self.blocks@[victim_idx as int].state != BlockState::Free,
                pre.blocks@[victim_idx as int].state != BlockState::Free,
                page_idx <= PAGES_PER_BLOCK,
                pre.nand_write_cnt <= self.nand_write_cnt,
                self.nand_write_cnt <= pre.nand_write_cnt + page_idx,
                pre.nand_write_cnt + PAGES_PER_BLOCK <= u64::MAX,
                forall|j: int|
                    0 <= j < page_idx ==> self.blocks@[victim_idx as int].pages@[j].state
                        != PageState::Valid,
                self.logical() == pre.logical(),
                count_free(self.blocks@) <= count_free(pre.blocks@),
                self.blocks@[victim_idx as int].erase_count == pre.blocks@[victim_idx as int].erase_count,
                pre.eligible_victim(victim_idx as int),
                0 <= count_valid(pre.blocks@[victim_idx as int].pages@),
                forall|j: int|
                    #[trigger] pre.eligible_victim(j) ==> count_valid(
                        pre.blocks@[victim_idx as int].pages@,
                    ) <= count_valid(pre.blocks@[j].pages@),
                count_valid(pre.blocks@[victim_idx as int].pages@) == 0 ==> *self == pre,
                pre.gc_blocked() ==> *self == pre,
            decreases PAGES_PER_BLOCK - page_idx,
        {
            let vstate = self.blocks[victim_idx].read(page_idx).state;
            if matches!(vstate, PageState::Valid) {
                let data = self.blocks[victim_idx].read(page_idx).content;
                let vid = self.blocks[victim_idx].id;
                match self.find_lba_by_pba(vid, page_idx) {
                    Some(target_lba) => {
                        let ghost s0 = *self;
                        proof {
                            // The page being migrated holds this LBA's
                            // current data, so rewriting it leaves the
                            // logical contents untouched. A victim chosen
                            // with zero valid pages could not reach here.
                            assert(s0.logical()[target_lba as int] == Some(data));
                            if count_valid(pre.blocks@[victim_idx as int].pages@) == 0 {
                                lemma_count_valid_zero(pre.blocks@[victim_idx as int].pages@);
                                assert(false);
                            }
                        }
                        let first = self.write_internal(target_lba, data);
                        if first.is_none() {
                            match self.find_next_free_block() {
                                Some(next_idx) => {
                                    self.active_block_idx = next_idx;
                                    let ghost s1 = *self;
                                    proof {
                                        assert(s1.logical() =~= s0.logical());
                                        if pre.gc_blocked() {
                                            assert(s0.blocks@[next_idx as int].state
                                                == BlockState::Free);
                                            assert(false);
                                        }
                                    }
                                    let second = self.write_internal(target_lba, data);
                                    proof {
                                        assert(second is Some);
                                        assert(self.logical() =~= s0.logical());
                                    }
                                },
                                None => {
                                    proof {
                                        // This valid page rules out a
                                        // zero-valid victim, so no free
                                        // space was owed.
                                        if exists|j: int|
                                            #[trigger] pre.eligible_victim(j) && count_valid(
                                                pre.blocks@[j].pages@,
                                            ) == 0 {
                                            let j = choose|j: int|
                                                #[trigger] pre.eligible_victim(j) && count_valid(
                                                    pre.blocks@[j].pages@,
                                                ) == 0;
                                            lemma_count_valid_zero(
                                                pre.blocks@[victim_idx as int].pages@,
                                            );
                                            assert(false);
                                        }
                                    }
                                    // No free block anywhere: the migration
                                    // cannot finish. Stop with the device
                                    // consistent; the victim keeps what was
                                    // not yet moved.
                                    return ;
                                },
                            }
                        } else {
                            proof {
                                assert(self.logical() =~= s0.logical());
                                if pre.gc_blocked() {
                                    assert(false);
                                }
                            }
                        }
                    },
                    None => {
                        proof {
                            // A Valid page is always mapped by some LBA, so
                            // the reverse lookup cannot fail here.
                            let pba = PhysicalAddress {
                                block_id: victim_idx as u32,
                                page_offset: page_idx,
                            };
                            assert(self.blocks@[victim_idx as int].pages@[page_idx as int].state
                                == PageState::Valid);
                            let l0 = choose|l: int|
                                0 <= l < self.mapping_table@.len()
                                    && #[trigger] self.mapping_table@[l] == Some(pba);
                            assert(self.mapping_table@[l0] == Some(pba));
                            assert(false);
                        }
                    },
                }
            }
            page_idx += 1;
        }
        let ghost before_erase = *self;
        let _erased = self.blocks[victim_idx].erase();
        proof {
            let v = victim_idx as int;
            assert forall|k: int|
                0 <= k < self.blocks@.len() implies (#[trigger] self.blocks@[k]).wf()
                && self.blocks@[k].id == k && !self.blocks@[k].is_bad
                && self.blocks@[k].prefix_programmed() && self.blocks@[k].state_consistent() by {
                if k == v {
                    assert forall|x: int, y: int|
                        #![trigger self.blocks@[v].pages@[x], self.blocks@[v].pages@[y]]
                        0 <= x <= y < self.blocks@[v].pages@.len()
                            && self.blocks@[v].pages@[y].state != PageState::Free
                        implies self.blocks@[v].pages@[x].state != PageState::Free by {}
                } else {
                    assert(self.blocks@[k] == before_erase.blocks@[k]);
                    assert(before_erase.blocks@[k].wf() && before_erase.blocks@[k].id == k
                        && !before_erase.blocks@[k].is_bad
                        && before_erase.blocks@[k].prefix_programmed()
                        && before_erase.blocks@[k].state_consistent());
                }
            }
            // No LBA is mapped into the victim: its pages were all non-Valid.
            assert forall|l: int|
                0 <= l < self.mapping_table@.len() implies ((#[trigger] self.mapping_table@[l])
                matches Some(q) ==> self.pba_in_range(q) && self.page_at(q).state
                == PageState::Valid) by {
                match self.mapping_table@[l] {
                    Some(q) => {
                        assert(before_erase.pba_in_range(q) && before_erase.page_at(q).state
                            == PageState::Valid);
                        if q.block_id as int == v {
                            assert(before_erase.blocks@[v].pages@[q.page_offset as int].state
                                != PageState::Valid);
                        }
                        assert(self.page_at(q) == before_erase.page_at(q));
                    },
                    None => {},
                }
            }
            assert forall|bi: int, o: int|
                0 <= bi < self.blocks@.len() && 0 <= o < PAGES_PER_BLOCK
                    && (#[trigger] self.blocks@[bi].pages@[o]).state == PageState::Valid
                    implies exists|l: int|
                0 <= l < self.mapping_table@.len() && #[trigger] self.mapping_table@[l] == Some(
                    PhysicalAddress { block_id: bi as u32, page_offset: o as usize },
                ) by {
                assert(bi != v);
                assert(before_erase.blocks@[bi].pages@[o].state == PageState::Valid);
            }
            // A wedged device never reaches the erase: its victim would have
            // kept a valid page.
            if pre.gc_blocked() {
                lemma_count_valid_zero(pre.blocks@[v].pages@);
                assert(false);
            }
            // The logical contents survive the erase: no LBA maps into the
            // victim, whose pages were all stale.
            assert forall|l: int| 0 <= l < self.logical().len() implies self.logical()[l]
                == before_erase.logical()[l] by {
                match self.mapping_table@[l] {
                    Some(q) => {
                        assert(before_erase.pba_in_range(q) && before_erase.page_at(q).state
                            == PageState::Valid);
                        if q.block_id as int == v {
                            assert(before_erase.blocks@[v].pages@[q.page_offset as int].state
                                != PageState::Valid);
                        }
                        assert(self.page_at(q).content == before_erase.page_at(q).content);
                    },
                    None => {},
                }
            }
            assert(self.logical() =~= before_erase.logical());
            // Exactly one block changed state: the victim, now Free.
            assert forall|j: int|
                0 <= j < before_erase.blocks@.len() && j != v implies before_erase.blocks@[
                j].state == (#[trigger] self.blocks@[j]).state by {
                assert(self.blocks@[j] == before_erase.blocks@[j]);
            }
            lemma_count_free_one_change(before_erase.blocks@, self.blocks@, v);
            assert(count_free(self.blocks@) == count_free(before_erase.blocks@) + 1);
            // If a zero-valid victim existed, the greedy choice had zero too,
            // so nothing was migrated and a block was reclaimed outright.
            if exists|j: int|
                #[trigger] pre.eligible_victim(j) && count_valid(pre.blocks@[j].pages@) == 0 {
                let j = choose|j: int|
                    #[trigger] pre.eligible_victim(j) && count_valid(pre.blocks@[j].pages@) == 0;
                assert(count_valid(pre.blocks@[v].pages@) <= count_valid(pre.blocks@[j].pages@));
                assert(before_erase == pre);
                assert(count_free(self.blocks@) > count_free(pre.blocks@));
            }
            // The reclaimed block is the greedy-optimal victim.
            assert(pre.eligible_victim(v));
        }
    }

    /// Reverse lookup: the lowest LBA currently mapped to this physical
    /// page, by linear scan of the mapping table (under the controller
    /// invariant at most one LBA can match).
    fn find_lba_by_pba(&self, block_id: u32, page_offset: usize) -> (r: Option<usize>)
        ensures
            r matches Some(l) ==> l < self.mapping_table@.len() && self.mapping_table@[l as int]
                == Some(PhysicalAddress { block_id, page_offset }) && forall|k: int|
                0 <= k < l ==> #[trigger] self.mapping_table@[k] != Some(
                    PhysicalAddress { block_id, page_offset },
                ),
            r is None ==> forall|l: int|
                0 <= l < self.mapping_table@.len() ==> #[trigger] self.mapping_table@[l] != Some(
                    PhysicalAddress { block_id, page_offset },
                ),
    {
        let entries = self.mapping_table.entries();
        let len = entries.len();
        let mut l: usize = 0;
        while l < len
            invariant
                l <= len,
                len == self.mapping_table@.len(),
                entries@ == self.mapping_table@,
                forall|k: int|
                    0 <= k < l ==> #[trigger] self.mapping_table@[k] != Some(
                        PhysicalAddress { block_id, page_offset },
                    ),
            decreases len - l,
        {
            if let Some(pba) = entries[l] {
                if pba.block_id == block_id && pba.page_offset == page_offset {
                    return Some(l);
                }
            }
            l += 1;
        }
        None
    }

    /// Wear-distribution query: minimum, maximum, gap and exact average
    /// (as `erase_total / block_count`) of the per-block erase counts. Used
    /// to quantify wear skew between the allocation policies.
    pub fn compute_wear_metrics(&self) -> (r: WearStats)
        requires
            self.blocks_wf(),
        ensures
            r.min == min_erase(self.blocks@),
            r.max == max_erase(self.blocks@),
            r.min <= r.max,
            r.gap == r.max - r.min,
            r.erase_total == sum_erase(self.blocks@),
            r.block_count == self.blocks@.len(),
    {
        let len = self.blocks.len();
        let mut mn: u32 = self.blocks[0].erase_count;
        let mut mx: u32 = mn;
        let mut total: u64 = mn as u64;
        let mut i: usize = 1;
        proof {
            assert(self.blocks@.take(1).drop_last() =~= self.blocks@.take(0));
            assert(self.blocks@.take(1).last() == self.blocks@[0]);
            assert(self.blocks@.take(1)[0] == self.blocks@[0]);
            assert(sum_erase(self.blocks@.take(0)) == 0);
        }
        while i < len
            invariant
                1 <= i <= len,
                len == self.blocks@.len(),
                self.blocks_wf(),
                mn == min_erase(self.blocks@.take(i as int)),
                mx == max_erase(self.blocks@.take(i as int)),
                mn <= mx,
                total == sum_erase(self.blocks@.take(i as int)),
                total <= i * (u32::MAX as int),
            decreases len - i,
        {
            proof {
                assert(self.blocks@.take(i + 1).drop_last() =~= self.blocks@.take(i as int));
                assert(self.blocks@.take(i + 1).last() == self.blocks@[i as int]);
                assert((i + 1) * (u32::MAX as int) == i * (u32::MAX as int) + u32::MAX) by (nonlinear_arith);
                assert(i + 1 <= u32::MAX);
                assert((i + 1) * (u32::MAX as int) <= (u32::MAX as int) * (u32::MAX as int)) by (nonlinear_arith)
                    requires 1 <= i + 1 <= u32::MAX as int;
            }
            let ec = self.blocks[i].erase_count;
            if ec < mn {
                mn = ec;
            }
            if ec > mx {
                mx = ec;
            }
            total = total + ec as u64;
            i += 1;
        }
        proof {
            assert(self.blocks@.take(len as int) =~= self.blocks@);
        }
        WearStats { min: mn, max: mx, gap: mx - mn, erase_total: total, block_count: len as u64 }
    }
}

/// Mapping uniqueness: under the controller invariant each mapped LBA names
/// an existing page that is currently Valid, and no two distinct LBAs name
/// the same physical page — so at most one page per LBA is ever Valid for
/// its current mapping.
pub proof fn lemma_mapping_uniqueness(s: SSD)
    requires
        s.inv(),
    ensures
        forall|l: int|
            0 <= l < s.mapping_table@.len() ==> ((#[trigger] s.mapping_table@[l]) matches Some(p)
                ==> s.pba_in_range(p) && s.page_at(p).state == PageState::Valid),
        forall|l1: int, l2: int|
            0 <= l1 < s.mapping_table@.len() && 0 <= l2 < s.mapping_table@.len() && l1 != l2 && (
            #[trigger] s.mapping_table@[l1]) is Some && (#[trigger] s.mapping_table@[l2]) is Some
                ==> s.mapping_table@[l1] != s.mapping_table@[l2],
{
}

} // verus!
