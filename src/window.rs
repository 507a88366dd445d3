use crate::hash::BlockHash;
use crate::sortable::{lemma_sortable_order, sortable_lt, BlueWork, SortableBlock};
use vstd::prelude::*;

verus! {

/// Whether `b` ranks at or below every block of `s`.
pub open spec fn is_lowest_of(s: Seq<SortableBlock>, b: SortableBlock) -> bool {
    forall|j: int| 0 <= j < s.len() ==> !sortable_lt(#[trigger] s[j], b)
}

/// A window of blocks: the order in which they are held carries no meaning;
/// the block of least rank is the first to leave.
pub struct BlockWindowHeap {
    blocks: Vec<SortableBlock>,
}

impl View for BlockWindowHeap {
    type V = Seq<SortableBlock>;

    closed spec fn view(&self) -> Seq<SortableBlock> {
        self.blocks@
    }
}

impl BlockWindowHeap {
    pub fn new() -> (r: BlockWindowHeap)
        ensures
            r@ == Seq::<SortableBlock>::empty(),
    {
        BlockWindowHeap { blocks: Vec::new() }
    }

    pub fn len(&self) -> (r: usize)
        ensures
            r == self@.len(),
    {
        self.blocks.len()
    }

    pub fn is_empty(&self) -> (r: bool)
        ensures
            r == (self@.len() == 0),
    {
        self.blocks.len() == 0
    }

    /// The block at `i` in the window's own order.
    pub fn get(&self, i: usize) -> (r: SortableBlock)
        requires
            i < self@.len(),
        ensures
            r == self@[i as int],
    {
        self.blocks[i]
    }

    /// Adds a block, whatever the window holds.
    pub fn push(&mut self, block: SortableBlock)
        ensures
            final(self)@ == old(self)@.push(block),
    {
        self.blocks.push(block);
    }

    /// The position of a block of least rank, the first such one; `None` when
    /// the window is empty.
    pub fn lowest_index(&self) -> (r: Option<usize>)
        ensures
            r is None <==> self@.len() == 0,
            r matches Some(i) ==> i < self@.len() && is_lowest_of(self@, self@[i as int]),
    {
        if self.blocks.len() == 0 {
            return None;
        }
        let mut best: usize = 0;
        let mut i: usize = 1;
        while i < self.blocks.len()
            invariant
                1 <= i <= self.blocks@.len(),
                best < i,
                forall|j: int| 0 <= j < i ==> !sortable_lt(#[trigger] self.blocks@[j], self.blocks@[best as int]),
            decreases self.blocks@.len() - i,
        {
            if self.blocks[i].less_than(&self.blocks[best]) {
                proof {
                    assert forall|j: int| 0 <= j < i + 1 implies !sortable_lt(
                        #[trigger] self.blocks@[j],
                        self.blocks@[i as int],
                    ) by {
                        lemma_sortable_order(
                            self.blocks@[j],
                            self.blocks@[best as int],
                            self.blocks@[i as int],
                        );
                        lemma_sortable_order(
                            self.blocks@[i as int],
                            self.blocks@[best as int],
                            self.blocks@[j],
                        );
                        lemma_sortable_order(
                            self.blocks@[j],
                            self.blocks@[i as int],
                            self.blocks@[best as int],
                        );
                    }
                }
                best = i;
            }
            i = i + 1;
        }
        Some(best)
    }

    /// A block of least rank, if the window holds any.
    pub fn peek_lowest(&self) -> (r: Option<SortableBlock>)
        ensures
            r is None <==> self@.len() == 0,
            r matches Some(b) ==> self@.contains(b) && is_lowest_of(self@, b),
    {
        match self.lowest_index() {
            None => None,
            Some(i) => Some(self.blocks[i]),
        }
    }

    /// Removes the block at `i`.
    fn remove_at(&mut self, i: usize)
        requires
            i < old(self)@.len(),
        ensures
            final(self)@ == old(self)@.remove(i as int),
    {
        self.blocks.remove(i);
    }
}

/// A window with a bound on its size that keeps the blocks of highest rank
/// offered to it.
pub struct BoundedSizeBlockHeap {
    pub binary_heap: BlockWindowHeap,
    pub size_bound: usize,
}

impl BoundedSizeBlockHeap {
    pub open spec fn wf(&self) -> bool {
        &&& self.size_bound >= 1
        &&& self.binary_heap@.len() <= self.size_bound
    }

    pub fn new(size_bound: usize) -> (r: BoundedSizeBlockHeap)
        requires
            size_bound >= 1,
        ensures
            r.wf(),
            r.size_bound == size_bound,
            r.binary_heap@ == Seq::<SortableBlock>::empty(),
    {
        BoundedSizeBlockHeap::from_binary_heap(size_bound, BlockWindowHeap::new())
    }

    pub fn from_binary_heap(size_bound: usize, binary_heap: BlockWindowHeap) -> (r:
        BoundedSizeBlockHeap)
        requires
            size_bound >= 1,
            binary_heap@.len() <= size_bound,
        ensures
            r.wf(),
            r.size_bound == size_bound,
            r.binary_heap@ == binary_heap@,
    {
        BoundedSizeBlockHeap { size_bound, binary_heap }
    }

    pub fn reached_size_bound(&self) -> (r: bool)
        ensures
            r == (self.binary_heap@.len() == self.size_bound),
    {
        self.binary_heap.len() == self.size_bound
    }

    /// Offers a block. Below the bound it is always taken. At the bound it is
    /// taken only if it ranks above the lowest block held, which then leaves.
    pub fn try_push(&mut self, hash: BlockHash, blue_work: BlueWork) -> (r: bool)
        requires
            old(self).wf(),
        ensures
            final(self).wf(),
            final(self).size_bound == old(self).size_bound,
            ({
                let cand = SortableBlock { hash, blue_work };
                let s = old(self).binary_heap@;
                if s.len() < old(self).size_bound {
                    r && final(self).binary_heap@ == s.push(cand)
                } else {
                    exists|i: int|
                        0 <= i < s.len() && is_lowest_of(s, #[trigger] s[i]) && (r == sortable_lt(
                            s[i],
                            cand,
                        )) && (if r {
                            final(self).binary_heap@ == s.remove(i).push(cand)
                        } else {
                            final(self).binary_heap@ == s
                        })
                }
            }),
    {
        let cand = SortableBlock { hash, blue_work };
        if self.reached_size_bound() {
            let i = self.binary_heap.lowest_index().unwrap();
            let lowest = self.binary_heap.get(i);
            if !lowest.less_than(&cand) {
                return false;
            }
            self.binary_heap.remove_at(i);
        }
        self.binary_heap.push(cand);
        true
    }
}

} // verus!
