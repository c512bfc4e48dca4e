//! Planning the removal of blocks that cannot execute.
//!
//! A block is kept when a root reaches it: the function's entry block, the
//! entries of the regions of its parameters' default expressions, exception
//! handler entries, and the body and completion blocks of labeled
//! statements. From a kept block, its operations lead to the targets of
//! their successors, to their structural blocks and to the entries of the
//! regions they own. Every other block of every region is removed.

use vstd::prelude::*;

use crate::dependence::lists_in_range;
use crate::dependence::reach_from;
use crate::dependence::reached_from;

verus! {

/// The block structure the pruning reads, blocks numbered densely.
pub struct BlockLinks {
    /// For each block, the blocks its operations lead to.
    pub links: Vec<Vec<usize>>,
    /// The blocks kept whatever leads to them.
    pub roots: Vec<usize>,
    /// The blocks of every region, region by region in layout order.
    pub layout: Vec<usize>,
}

impl BlockLinks {
    /// Every block named is a block of the function.
    pub open spec fn wf(&self) -> bool {
        let n = self.links@.len();
        &&& lists_in_range(self.links@)
        &&& forall|j: int| #![trigger self.roots@[j]] 0 <= j < self.roots@.len() ==> self.roots@[j] < n
        &&& forall|j: int| #![trigger self.layout@[j]] 0 <= j < self.layout@.len() ==> self.layout@[j] < n
    }

    /// Whether a root reaches block `b`.
    pub open spec fn retains(&self, b: int) -> bool {
        reached_from(self.links@, self.roots@, b)
    }

    /// The blocks among the first `k` of the layout that no root reaches, in layout order.
    pub open spec fn unreachable_upto(&self, k: int) -> Seq<usize>
        decreases k,
    {
        if k <= 0 {
            Seq::empty()
        } else if self.retains(self.layout@[k - 1] as int) {
            self.unreachable_upto(k - 1)
        } else {
            self.unreachable_upto(k - 1).push(self.layout@[k - 1])
        }
    }
}

/// The blocks of the layout that no root reaches, in layout order: the
/// blocks to remove.
pub fn plan_unreachable_blocks(blocks: &BlockLinks) -> (unreachable: Vec<usize>)
    requires
        blocks.wf(),
    ensures
        unreachable@ == blocks.unreachable_upto(blocks.layout@.len() as int),
{
    let retained = reach_from(&blocks.links, blocks.roots.as_slice());
    let mut unreachable: Vec<usize> = Vec::new();
    let mut k: usize = 0;
    while k < blocks.layout.len()
        invariant
            blocks.wf(),
            k <= blocks.layout@.len(),
            retained@.len() == blocks.links@.len(),
            forall|x: int|
                #![trigger retained@[x]]
                0 <= x < blocks.links@.len() ==> (retained@[x] <==> blocks.retains(x)),
            unreachable@ == blocks.unreachable_upto(k as int),
        decreases blocks.layout.len() - k,
    {
        let block = blocks.layout[k];
        assert(block < blocks.links@.len());
        if !retained[block] {
            unreachable.push(block);
        }
        k = k + 1;
    }
    unreachable
}

} // verus!
