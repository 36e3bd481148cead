use vstd::prelude::*;

use crate::page::{Page, PageState};

verus! {

/// Fixed page capacity of every block.
pub const PAGES_PER_BLOCK: usize = 64;

/// Aggregate block state. Free: no page programmed since the last erase;
/// Active: some but not all pages programmed; Full: every page programmed
/// (Valid and Invalid pages may coexist in a Full block).
#[derive(PartialEq, Eq, Clone, Copy, Debug, Structural)]
pub enum BlockState {
    Free,
    Active,
    Full,
}

/// Wear skew over all blocks of a device: extremes of the per-block erase
/// counts, their gap, and the exact average as the fraction
/// `erase_total / block_count`.
#[derive(PartialEq, Eq, Clone, Copy, Debug, Structural)]
pub struct WearStats {
    pub min: u32,
    pub max: u32,
    pub gap: u32,
    pub erase_total: u64,
    pub block_count: u64,
}

/// Fixed-length ordered sequence of pages. Enforces NAND's erase-before-
/// rewrite constraint: only a whole-block erase ever returns a page to Free.
#[derive(Clone, Debug)]
pub struct Block {
    pub id: u32,
    pub pages: Vec<Page>,
    pub erase_count: u32,
    pub is_bad: bool,
    pub state: BlockState,
}

/// Number of Valid pages in a page sequence.
pub open spec fn count_valid(s: Seq<Page>) -> int
    decreases s.len(),
{
    if s.len() == 0 {
        0
    } else {
        count_valid(s.drop_last()) + if s.last().state == PageState::Valid {
            1int
        } else {
            0int
        }
    }
}

/// A count of Valid pages is never negative.
pub proof fn lemma_count_valid_nonneg(s: Seq<Page>)
    ensures
        0 <= count_valid(s),
    decreases s.len(),
{
    if s.len() > 0 {
        lemma_count_valid_nonneg(s.drop_last());
    }
}

/// A page sequence counts zero Valid pages exactly when none of its pages is
/// Valid.
pub proof fn lemma_count_valid_zero(s: Seq<Page>)
    ensures
        count_valid(s) == 0 <==> forall|o: int|
            0 <= o < s.len() ==> (#[trigger] s[o]).state != PageState::Valid,
    decreases s.len(),
{
    if s.len() > 0 {
        lemma_count_valid_nonneg(s.drop_last());
        lemma_count_valid_zero(s.drop_last());
        if count_valid(s) == 0 {
            assert forall|o: int| 0 <= o < s.len() implies (#[trigger] s[o]).state
                != PageState::Valid by {
                if o < s.len() - 1 {
                    assert(s.drop_last()[o] == s[o]);
                } else {
                    assert(s[o] == s.last());
                }
            }
        }
        if forall|o: int| 0 <= o < s.len() ==> (#[trigger] s[o]).state != PageState::Valid {
            assert forall|o: int|
                0 <= o < s.drop_last().len() implies (#[trigger] s.drop_last()[o]).state
                != PageState::Valid by {
                assert(s.drop_last()[o] == s[o]);
            }
            assert(s.last().state != PageState::Valid);
        }
    }
}

/// How one program operation rewrites a block: the target page takes the data
/// and becomes Valid, the aggregate state advances, everything else stays.
pub open spec fn block_programmed(pre: Block, post: Block, off: int, data: u32) -> bool {
    &&& post.id == pre.id
    &&& post.erase_count == pre.erase_count
    &&& post.is_bad == pre.is_bad
    &&& post.pages@ == pre.pages@.update(off, Page { content: data, state: PageState::Valid })
    &&& post.state == (if off == PAGES_PER_BLOCK - 1 {
        BlockState::Full
    } else if pre.state == BlockState::Free {
        BlockState::Active
    } else {
        pre.state
    })
}

/// How invalidation rewrites a block: the target page keeps its content but
/// becomes Invalid; the aggregate state and everything else stay.
pub open spec fn block_invalidated(pre: Block, post: Block, off: int) -> bool {
    &&& post.id == pre.id
    &&& post.erase_count == pre.erase_count
    &&& post.is_bad == pre.is_bad
    &&& post.state == pre.state
    &&& post.pages@ == pre.pages@.update(
        off,
        Page { content: pre.pages@[off].content, state: PageState::Invalid },
    )
}

/// Programming the first Free offset keeps the prefix discipline and the
/// aggregate-state bookkeeping of `Block::program` consistent with the pages.
pub proof fn lemma_program_keeps_discipline(pre: Block, post: Block, off: int, data: u32)
    requires
        pre.wf(),
        pre.prefix_programmed(),
        pre.state_consistent(),
        0 <= off < PAGES_PER_BLOCK,
        pre.pages@[off].state == PageState::Free,
        forall|j: int| 0 <= j < off ==> pre.pages@[j].state != PageState::Free,
        block_programmed(pre, post, off, data),
    ensures
        post.wf(),
        post.prefix_programmed(),
        post.state_consistent(),
{
    assert forall|i: int, j: int|
        #![trigger post.pages@[i], post.pages@[j]]
        0 <= i <= j < post.pages@.len() && post.pages@[j].state != PageState::Free
        implies post.pages@[i].state != PageState::Free by {
        if i != off {
            if j == off {
                assert(pre.pages@[i].state != PageState::Free);
            } else {
                assert(pre.pages@[i].state != PageState::Free || pre.pages@[j].state
                    == PageState::Free);
            }
        }
    }
    // The last page was still Free before this program: otherwise the prefix
    // discipline would contradict the target page being Free.
    if pre.pages@[PAGES_PER_BLOCK - 1].state != PageState::Free {
        assert(pre.pages@[off].state != PageState::Free);
    }
    if off > 0 {
        assert(pre.pages@[0].state != PageState::Free);
    }
}

/// Invalidating a programmed page leaves Free-ness of every page as it was,
/// so the prefix discipline and the aggregate state survive unchanged.
pub proof fn lemma_invalidate_keeps_discipline(pre: Block, post: Block, off: int)
    requires
        pre.wf(),
        pre.prefix_programmed(),
        pre.state_consistent(),
        0 <= off < PAGES_PER_BLOCK,
        pre.pages@[off].state != PageState::Free,
        block_invalidated(pre, post, off),
    ensures
        post.wf(),
        post.prefix_programmed(),
        post.state_consistent(),
{
    assert forall|i: int|
        0 <= i < post.pages@.len() implies ((#[trigger] post.pages@[i]).state == PageState::Free
        <==> pre.pages@[i].state == PageState::Free) by {}
    assert forall|i: int, j: int|
        #![trigger post.pages@[i], post.pages@[j]]
        0 <= i <= j < post.pages@.len() && post.pages@[j].state != PageState::Free
        implies post.pages@[i].state != PageState::Free by {
        assert(pre.pages@[i].state != PageState::Free || pre.pages@[j].state == PageState::Free);
    }
    assert(post.pages@[0].state == PageState::Free <==> pre.pages@[0].state == PageState::Free);
    assert(post.pages@[PAGES_PER_BLOCK - 1].state == PageState::Free
        <==> pre.pages@[PAGES_PER_BLOCK - 1].state == PageState::Free);
}

impl Block {
    /// The pages vector has exactly the fixed capacity.
    pub open spec fn wf(self) -> bool {
        self.pages@.len() == PAGES_PER_BLOCK
    }

    /// Programmed (non-Free) pages form a prefix of the block: pages are
    /// consumed in offset order and only an erase clears them.
    pub open spec fn prefix_programmed(self) -> bool {
        forall|i: int, j: int|
            #![trigger self.pages@[i], self.pages@[j]]
            0 <= i <= j < self.pages@.len() && self.pages@[j].state != PageState::Free
                ==> self.pages@[i].state != PageState::Free
    }

    /// The aggregate state agrees with the page states, given the prefix
    /// discipline: Free iff the first page is untouched, Full iff the last
    /// page is programmed.
    pub open spec fn state_consistent(self) -> bool {
        &&& (self.state == BlockState::Free <==> self.pages@[0].state == PageState::Free)
        &&& (self.state == BlockState::Full <==> self.pages@[PAGES_PER_BLOCK - 1].state
            != PageState::Free)
    }

    pub fn new(id: u32) -> (b: Block)
        ensures
            b.wf(),
            b.id == id,
            b.erase_count == 0,
            !b.is_bad,
            b.state == BlockState::Free,
            forall|i: int|
                0 <= i < PAGES_PER_BLOCK ==> b.pages@[i] == (Page {
                    content: 0u32,
                    state: PageState::Free,
                }),
            b.prefix_programmed(),
            b.state_consistent(),
    {
        let mut pages: Vec<Page> = Vec::new();
        let mut i: usize = 0;
        while i < PAGES_PER_BLOCK
            invariant
                i <= PAGES_PER_BLOCK,
                pages@.len() == i,
                forall|k: int|
                    0 <= k < i ==> pages@[k] == (Page { content: 0u32, state: PageState::Free }),
            decreases PAGES_PER_BLOCK - i,
        {
            pages.push(Page { content: 0, state: PageState::Free });
            i += 1;
        }
        Block { id, pages, erase_count: 0, is_bad: false, state: BlockState::Free }
    }

    /// Read the page at an offset; an out-of-range offset is a caller error.
    pub fn read(&self, page_offset: usize) -> (p: &Page)
        requires
            self.wf(),
            page_offset < PAGES_PER_BLOCK,
        ensures
            *p == self.pages@[page_offset as int],
    {
        &self.pages[page_offset]
    }

    /// Program one page: write `data` and mark it Valid. Programming a bad
    /// block, an out-of-range offset, or a page that is not Free violates the
    /// erase-before-rewrite contract, so those calls are excluded outright.
    pub fn program(&mut self, page_offset: usize, data: u32)
        requires
            old(self).wf(),
            !old(self).is_bad,
            page_offset < PAGES_PER_BLOCK,
            old(self).pages@[page_offset as int].state == PageState::Free,
        ensures
            final(self).wf(),
            block_programmed(*old(self), *final(self), page_offset as int, data),
    {
        self.pages.set(page_offset, Page { content: data, state: PageState::Valid });
        if self.state == BlockState::Free {
            self.state = BlockState::Active;
        }
        if page_offset == PAGES_PER_BLOCK - 1 {
            self.state = BlockState::Full;
        }
    }

    /// Mark the page at an offset Invalid: its logical address has been
    /// remapped elsewhere and the content is now stale.
    pub fn invalidate(&mut self, page_offset: usize)
        requires
            old(self).wf(),
            page_offset < PAGES_PER_BLOCK,
        ensures
            final(self).wf(),
            block_invalidated(*old(self), *final(self), page_offset as int),
    {
        let p = self.pages[page_offset];
        self.pages.set(page_offset, Page { content: p.content, state: PageState::Invalid });
    }

    /// Erase the whole block: every page returns to Free with empty content
    /// and the erase count grows (saturating at its width). Erasing a bad
    /// block is refused, signalled by the result; erasing an already-Free
    /// block is a no-op and in particular leaves the erase count unchanged.
    pub fn erase(&mut self) -> (erased: bool)
        requires
            old(self).wf(),
        ensures
            final(self).wf(),
            erased == !old(self).is_bad,
            old(self).is_bad ==> *final(self) == *old(self),
            !old(self).is_bad && old(self).state == BlockState::Free ==> *final(self) == *old(
                self,
            ),
            !old(self).is_bad && old(self).state != BlockState::Free ==> {
                &&& final(self).id == old(self).id
                &&& final(self).is_bad == old(self).is_bad
                &&& final(self).state == BlockState::Free
                &&& final(self).erase_count == (if old(self).erase_count < u32::MAX {
                    old(self).erase_count + 1
                } else {
                    old(self).erase_count as int
                })
                &&& forall|i: int|
                    0 <= i < PAGES_PER_BLOCK ==> final(self).pages@[i] == (Page {
                        content: 0u32,
                        state: PageState::Free,
                    })
            },
    {
        if self.is_bad {
            return false;
        }
        if let BlockState::Free = self.state {
            return true;
        }
        if self.erase_count < u32::MAX {
            self.erase_count = self.erase_count + 1;
        }
        self.state = BlockState::Free;
        let mut i: usize = 0;
        while i < PAGES_PER_BLOCK
            invariant
                i <= PAGES_PER_BLOCK,
                self.wf(),
                self.id == old(self).id,
                self.is_bad == old(self).is_bad,
                self.state == BlockState::Free,
                self.erase_count == (if old(self).erase_count < u32::MAX {
                    old(self).erase_count + 1
                } else {
                    old(self).erase_count as int
                }),
                forall|k: int|
                    0 <= k < i ==> self.pages@[k] == (Page {
                        content: 0u32,
                        state: PageState::Free,
                    }),
            decreases PAGES_PER_BLOCK - i,
        {
            self.pages.set(i, Page { content: 0, state: PageState::Free });
            i += 1;
        }
        true
    }

    /// First-fit scan: the lowest offset whose page is still Free, or None
    /// when every page has been programmed.
    pub fn first_free_offset(&self) -> (r: Option<usize>)
        requires
            self.wf(),
        ensures
            r matches Some(o) ==> o < PAGES_PER_BLOCK && self.pages@[o as int].state
                == PageState::Free && forall|j: int|
                0 <= j < o ==> self.pages@[j].state != PageState::Free,
            r is None ==> forall|j: int|
                0 <= j < PAGES_PER_BLOCK ==> self.pages@[j].state != PageState::Free,
    {
        let mut off: usize = 0;
        while off < PAGES_PER_BLOCK
            invariant
                off <= PAGES_PER_BLOCK,
                self.wf(),
                forall|j: int| 0 <= j < off ==> self.pages@[j].state != PageState::Free,
            decreases PAGES_PER_BLOCK - off,
        {
            if matches!(self.pages[off].state, PageState::Free) {
                return Some(off);
            }
            off += 1;
        }
        None
    }

    /// Count of pages currently Valid; used by the GC victim scoring.
    pub fn count_valid_pages(&self) -> (n: usize)
        requires
            self.wf(),
        ensures
            n == count_valid(self.pages@),
            n <= PAGES_PER_BLOCK,
    {
        let mut n: usize = 0;
        let mut i: usize = 0;
        while i < PAGES_PER_BLOCK
            invariant
                i <= PAGES_PER_BLOCK,
                self.wf(),
                n <= i,
                n == count_valid(self.pages@.take(i as int)),
            decreases PAGES_PER_BLOCK - i,
        {
            proof {
                assert(self.pages@.take(i + 1).drop_last() =~= self.pages@.take(i as int));
                assert(self.pages@.take(i + 1).last() == self.pages@[i as int]);
            }
            if self.pages[i].state == PageState::Valid {
                n += 1;
            }
            i += 1;
        }
        proof {
            assert(self.pages@.take(PAGES_PER_BLOCK as int) =~= self.pages@);
        }
        n
    }
}

} // verus!
