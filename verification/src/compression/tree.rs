//! The Huffman code tree and the queue it is built from.
//!
//! The tree is built by repeatedly merging the two nodes of least
//! frequency. Among nodes of equal frequency the one that entered the
//! queue first leaves first; a merged node enters at the back.

use vstd::prelude::*;

verus! {

/// A node of a Huffman tree: a leaf for one byte value, or an internal node
/// that owns exactly two subtrees.
pub enum HuffmanNode {
    Leaf { byte: u8, freq: u32 },
    Internal { freq: u32, left: Box<HuffmanNode>, right: Box<HuffmanNode> },
}

impl HuffmanNode {
    /// The frequency recorded at this node.
    pub open spec fn frequency(self) -> u32 {
        match self {
            HuffmanNode::Leaf { freq, .. } => freq,
            HuffmanNode::Internal { freq, .. } => freq,
        }
    }

    /// Whether some leaf of the tree carries `byte`.
    pub open spec fn has_leaf(self, byte: u8) -> bool
        decreases self,
    {
        match self {
            HuffmanNode::Leaf { byte: b, .. } => b == byte,
            HuffmanNode::Internal { left, right, .. } => left.has_leaf(byte) || right.has_leaf(
                byte,
            ),
        }
    }

    /// The sum of the frequencies of the leaves.
    pub open spec fn weight(self) -> nat
        decreases self,
    {
        match self {
            HuffmanNode::Leaf { freq, .. } => freq as nat,
            HuffmanNode::Internal { left, right, .. } => left.weight() + right.weight(),
        }
    }

    /// Every node records the sum of the frequencies of the leaves below it.
    pub open spec fn consistent(self) -> bool
        decreases self,
    {
        match self {
            HuffmanNode::Leaf { .. } => true,
            HuffmanNode::Internal { freq, left, right } => freq == left.weight() + right.weight()
                && left.consistent() && right.consistent(),
        }
    }

    /// The bit path from the root to the leaf that carries `byte`: `false`
    /// for a left branch, `true` for a right branch. Where several leaves
    /// carry the byte, the rightmost one counts.
    pub open spec fn code_of(self, byte: u8) -> Option<Seq<bool>>
        decreases self,
    {
        match self {
            HuffmanNode::Leaf { byte: b, .. } => if b == byte {
                Some(Seq::empty())
            } else {
                None
            },
            HuffmanNode::Internal { left, right, .. } => match right.code_of(byte) {
                Some(code) => Some(seq![true] + code),
                None => match left.code_of(byte) {
                    Some(code) => Some(seq![false] + code),
                    None => None,
                },
            },
        }
    }

    /// A leaf for `byte` with frequency `freq`.
    pub fn new_leaf(byte: u8, freq: u32) -> (node: Self)
        ensures
            node == (HuffmanNode::Leaf { byte, freq }),
            node.consistent(),
    {
        HuffmanNode::Leaf { byte, freq }
    }

    /// An internal node over two subtrees, which it takes ownership of.
    pub fn new_internal(freq: u32, left: HuffmanNode, right: HuffmanNode) -> (node: Self)
        ensures
            node == (HuffmanNode::Internal { freq, left: Box::new(left), right: Box::new(right) }),
            node.consistent() <==> freq == left.weight() + right.weight() && left.consistent()
                && right.consistent(),
    {
        HuffmanNode::Internal { freq, left: Box::new(left), right: Box::new(right) }
    }

    /// Whether this node is a leaf.
    pub fn is_leaf(&self) -> (leaf: bool)
        ensures
            leaf == (self is Leaf),
    {
        match self {
            HuffmanNode::Leaf { .. } => true,
            HuffmanNode::Internal { .. } => false,
        }
    }

    /// The frequency recorded at this node.
    pub fn freq(&self) -> (freq: u32)
        ensures
            freq == self.frequency(),
    {
        match self {
            HuffmanNode::Leaf { freq, .. } => *freq,
            HuffmanNode::Internal { freq, .. } => *freq,
        }
    }
}

/// The sum of the frequencies recorded at the nodes of a queue.
pub open spec fn total_frequency(queue: Seq<HuffmanNode>) -> nat
    decreases queue.len(),
{
    if queue.len() == 0 {
        0
    } else {
        total_frequency(queue.drop_last()) + queue.last().frequency() as nat
    }
}

/// Every tree of the queue is consistent and records the sum of the
/// frequencies of its leaves.
pub open spec fn queue_consistent(queue: Seq<HuffmanNode>) -> bool {
    forall|i: int|
        0 <= i < queue.len() ==> (#[trigger] queue[i]).consistent() && queue[i].frequency()
            == queue[i].weight()
}

/// Index of the node that leaves the queue next: the first one among those
/// of least frequency.
pub open spec fn min_index(queue: Seq<HuffmanNode>) -> int
    decreases queue.len(),
{
    if queue.len() <= 1 {
        0
    } else {
        let m = min_index(queue.drop_last());
        if queue.last().frequency() < queue[m].frequency() {
            queue.len() - 1
        } else {
            m
        }
    }
}

/// The node made of the two nodes that leave the queue next.
pub open spec fn merged_node(queue: Seq<HuffmanNode>) -> HuffmanNode {
    let i = min_index(queue);
    let rest = queue.remove(i);
    let j = min_index(rest);
    HuffmanNode::Internal {
        freq: (queue[i].frequency() + rest[j].frequency()) as u32,
        left: Box::new(queue[i]),
        right: Box::new(rest[j]),
    }
}

/// The queue after one merge: the two nodes of least frequency have left,
/// and the node made of them has entered at the back.
pub open spec fn merge_step(queue: Seq<HuffmanNode>) -> Seq<HuffmanNode> {
    let rest = queue.remove(min_index(queue));
    rest.remove(min_index(rest)).push(merged_node(queue))
}

/// The tree that remains when the nodes of a queue have been merged until
/// one is left.
pub open spec fn huffman_tree(queue: Seq<HuffmanNode>) -> HuffmanNode
    decreases queue.len(),
    via huffman_tree_decreases
{
    if queue.len() <= 1 {
        queue[0]
    } else {
        huffman_tree(merge_step(queue))
    }
}

#[via_fn]
proof fn huffman_tree_decreases(queue: Seq<HuffmanNode>) {
    if queue.len() > 1 {
        lemma_merge_step_len(queue);
    }
}

/// One merge shortens the queue by one node.
pub proof fn lemma_merge_step_len(queue: Seq<HuffmanNode>)
    requires
        queue.len() >= 2,
    ensures
        merge_step(queue).len() == queue.len() - 1,
{
    lemma_min_index(queue);
    lemma_min_index(queue.remove(min_index(queue)));
}

/// `min_index` is an index into the queue, of a node of least frequency,
/// and no node before it has the same frequency.
pub proof fn lemma_min_index(queue: Seq<HuffmanNode>)
    requires
        queue.len() > 0,
    ensures
        0 <= min_index(queue) < queue.len(),
        forall|k: int|
            0 <= k < queue.len() ==> queue[min_index(queue)].frequency()
                <= #[trigger] queue[k].frequency(),
        forall|k: int|
            0 <= k < min_index(queue) ==> queue[min_index(queue)].frequency()
                < #[trigger] queue[k].frequency(),
    decreases queue.len(),
{
    if queue.len() > 1 {
        lemma_min_index(queue.drop_last());
        let m = min_index(queue.drop_last());
        assert forall|k: int| 0 <= k < queue.len() implies queue[min_index(queue)].frequency()
            <= #[trigger] queue[k].frequency() by {
            if k < queue.len() - 1 {
                assert(queue.drop_last()[k] == queue[k]);
            }
        }
        assert forall|k: int| 0 <= k < min_index(queue) implies queue[min_index(queue)].frequency()
            < #[trigger] queue[k].frequency() by {
            assert(queue.drop_last()[k] == queue[k]);
        }
    }
}

/// Removing a node lowers the total frequency by that node's frequency.
pub proof fn lemma_total_frequency_remove(queue: Seq<HuffmanNode>, i: int)
    requires
        0 <= i < queue.len(),
    ensures
        total_frequency(queue.remove(i)) + queue[i].frequency() == total_frequency(queue),
    decreases queue.len(),
{
    if i == queue.len() - 1 {
        assert(queue.remove(i) =~= queue.drop_last());
    } else {
        lemma_total_frequency_remove(queue.drop_last(), i);
        assert(queue.remove(i).drop_last() =~= queue.drop_last().remove(i));
        assert(queue.remove(i).last() == queue.last());
    }
}

/// Pushing a node raises the total frequency by that node's frequency.
pub proof fn lemma_total_frequency_push(queue: Seq<HuffmanNode>, node: HuffmanNode)
    ensures
        total_frequency(queue.push(node)) == total_frequency(queue) + node.frequency(),
{
    assert(queue.push(node).drop_last() =~= queue);
}

/// Takes the next node out of the queue: the first among those of least
/// frequency. The other nodes keep their order.
pub fn pop_min(queue: &mut Vec<HuffmanNode>) -> (node: HuffmanNode)
    requires
        old(queue).len() > 0,
    ensures
        node == old(queue)@[min_index(old(queue)@)],
        final(queue)@ == old(queue)@.remove(min_index(old(queue)@)),
{
    let mut best: usize = 0;
    let mut k: usize = 1;
    assert(queue@.take(1).drop_last() =~= queue@.take(0));
    while k < queue.len()
        invariant
            1 <= k <= queue.len(),
            best == min_index(queue@.take(k as int)),
            0 <= best < k,
        decreases queue.len() - k,
    {
        proof {
            assert(queue@.take(k + 1).drop_last() =~= queue@.take(k as int));
            assert(queue@.take(k + 1).last() == queue@[k as int]);
            assert(queue@.take(k as int)[best as int] == queue@[best as int]);
        }
        if queue[k].freq() < queue[best].freq() {
            best = k;
        }
        k = k + 1;
    }
    assert(queue@.take(k as int) =~= queue@);
    queue.remove(best)
}

/// Merges the nodes of a queue, two of least frequency at a time, until a
/// single tree is left.
pub fn build_tree(queue: Vec<HuffmanNode>) -> (root: HuffmanNode)
    requires
        queue.len() > 0,
        total_frequency(queue@) <= u32::MAX,
    ensures
        root == huffman_tree(queue@),
        queue_consistent(queue@) ==> root.consistent() && root.weight() == total_frequency(
            queue@,
        ),
{
    let mut queue = queue;
    let ghost initial = queue@;
    while queue.len() > 1
        invariant
            queue.len() > 0,
            total_frequency(queue@) == total_frequency(initial),
            total_frequency(initial) <= u32::MAX,
            huffman_tree(queue@) == huffman_tree(initial),
            queue_consistent(initial) ==> queue_consistent(queue@),
        decreases queue.len(),
    {
        let ghost before = queue@;
        proof {
            lemma_min_index(before);
            lemma_total_frequency_remove(before, min_index(before));
        }
        let left = pop_min(&mut queue);
        let ghost rest = queue@;
        proof {
            lemma_min_index(rest);
            lemma_total_frequency_remove(rest, min_index(rest));
        }
        let right = pop_min(&mut queue);
        let parent = HuffmanNode::new_internal(left.freq() + right.freq(), left, right);
        proof {
            lemma_total_frequency_push(queue@, parent);
            assert(parent == merged_node(before));
            assert(queue@.push(parent) == merge_step(before));
            if queue_consistent(initial) {
                let after = queue@.push(parent);
                assert(left == before[min_index(before)]);
                assert(right == rest[min_index(rest)]);
                assert(left.consistent() && left.frequency() == left.weight());
                assert(right.consistent() && right.frequency() == right.weight());
                assert forall|i: int| 0 <= i < after.len() implies (#[trigger] after[i]).consistent()
                    && after[i].frequency() == after[i].weight() by {
                    if i < queue@.len() {
                        assert(after[i] == queue@[i]);
                    }
                }
            }
        }
        queue.push(parent);
    }
    proof {
        assert(queue@.len() == 1);
        assert(queue@.drop_last().len() == 0);
        assert(total_frequency(queue@.drop_last()) == 0);
        assert(queue@.last() == queue@[0]);
        assert(total_frequency(queue@) == queue@[0].frequency());
    }
    let root = queue.remove(0);
    root
}

} // verus!
