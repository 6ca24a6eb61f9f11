//! The Merkle accumulator: turns appended blocks into leaf and parent nodes
//! and keeps the roots of the tree built so far.
use crate::node::{be_bytes, Node, NodeModel, HASH_SIZE};
use crate::tree::{
    full_roots_spec, lemma_push_subtree, lemma_roots_of_len, lemma_roots_of_full, lemma_span_strict, roots_of, span,
    strictly_decreasing, subtree_root, sum_spans,
};
use vstd::prelude::*;

verus! {

/// The unkeyed 32-byte BLAKE2b digest of a byte string.
pub uninterp spec fn blake2b_digest(data: Seq<u8>) -> Seq<u8>;

/// Relies on blake2_rfc::blake2b::blake2b: with output size 32 and an empty
/// key it returns the 32-byte BLAKE2b digest of `data`.
#[verifier::external_body]
fn blake2b(data: &[u8]) -> (r: Vec<u8>)
    ensures
        r@ == blake2b_digest(data@),
        r@.len() == HASH_SIZE,
{
    blake2_rfc::blake2b::blake2b(32, &[], data).as_bytes().to_vec()
}

/// Digest of a leaf: the digest of the block's raw bytes.
pub open spec fn leaf_hash(data: Seq<u8>) -> Seq<u8> {
    blake2b_digest(data)
}

/// Digest of a parent: the children's digests, left first, followed by
/// their lengths, each as 8 big-endian bytes.
pub open spec fn parent_hash(left: NodeModel, right: NodeModel) -> Seq<u8> {
    blake2b_digest(left.hash + right.hash + be_bytes(left.length as u64) + be_bytes(right.length as u64))
}

/// The leaf node for block number `block` holding `data`.
pub open spec fn leaf_node(block: nat, data: Seq<u8>) -> NodeModel {
    NodeModel { index: 2 * block, length: data.len(), hash: leaf_hash(data) }
}

/// The parent of two sibling nodes.
pub open spec fn parent_node(left: NodeModel, right: NodeModel) -> NodeModel {
    NodeModel {
        index: (left.index + right.index) / 2,
        length: left.length + right.length,
        hash: parent_hash(left, right),
    }
}

/// A node made by the `k`-th step of an append that brought the block count
/// to `blocks`: its subtree holds `span(k)` leaves and ends at the last one.
#[verifier::opaque]
pub open spec fn made_at_step(index: nat, k: nat, blocks: nat) -> bool {
    index + span(k) + 1 == 2 * blocks
}

/// The values of a sequence of nodes.
pub open spec fn models(nodes: Seq<Node>) -> Seq<NodeModel> {
    nodes.map_values(|n: Node| n@)
}

/// The flat-tree positions of a sequence of nodes.
pub open spec fn indices(nodes: Seq<NodeModel>) -> Seq<nat> {
    nodes.map_values(|n: NodeModel| n.index)
}

/// Sum of the lengths of a sequence of nodes.
pub open spec fn total_length(nodes: Seq<NodeModel>) -> nat
    decreases nodes.len(),
{
    if nodes.len() == 0 {
        0
    } else {
        total_length(nodes.drop_last()) + nodes.last().length
    }
}

/// Appends `src` to `buf`.
fn append_bytes(buf: &mut Vec<u8>, src: &[u8])
    ensures
        final(buf)@ == old(buf)@ + src@,
{
    let ghost start = buf@;
    let mut i: usize = 0;
    while i < src.len()
        invariant
            i <= src@.len(),
            buf@ == start + src@.subrange(0, i as int),
        decreases src@.len() - i,
    {
        buf.push(src[i]);
        i = i + 1;
        assert(buf@ =~= start + src@.subrange(0, i as int));
    }
    assert(src@.subrange(0, i as int) =~= src@);
}

/// Appends the big-endian bytes of `v` to `buf`.
fn append_be_u64(buf: &mut Vec<u8>, v: u64)
    ensures
        final(buf)@ == old(buf)@ + be_bytes(v),
{
    let ghost start = buf@;
    buf.push((v >> 56u64) as u8);
    buf.push((v >> 48u64) as u8);
    buf.push((v >> 40u64) as u8);
    buf.push((v >> 32u64) as u8);
    buf.push((v >> 24u64) as u8);
    buf.push((v >> 16u64) as u8);
    buf.push((v >> 8u64) as u8);
    buf.push(v as u8);
    assert(buf@ =~= start + be_bytes(v));
}

/// The leaf node for block number `block`.
fn make_leaf(block: usize, data: &[u8]) -> (r: Node)
    requires
        block <= usize::MAX / 2,
    ensures
        r@ == leaf_node(block as nat, data@),
        r.hash@.len() == HASH_SIZE,
{
    Node { index: 2 * block, length: data.len(), hash: blake2b(data) }
}

/// The parent of `left` and `right`, whose subtrees hold `width` leaves each.
fn make_parent(left: &Node, right: &Node, width: usize) -> (r: Node)
    requires
        left.index + width <= usize::MAX,
        right.index == left.index + 2 * width,
        left.length + right.length <= usize::MAX,
    ensures
        r@ == parent_node(left@, right@),
        r.hash@.len() == HASH_SIZE,
{
    let length = left.length + right.length;
    let mut input: Vec<u8> = Vec::new();
    append_bytes(&mut input, left.hash.as_slice());
    append_bytes(&mut input, right.hash.as_slice());
    append_be_u64(&mut input, left.length as u64);
    append_be_u64(&mut input, right.length as u64);
    assert(input@ =~= left@.hash + right@.hash + be_bytes(left@.length as u64) + be_bytes(
        right@.length as u64,
    ));
    Node { index: left.index + width, length, hash: blake2b(input.as_slice()) }
}

/// Incremental Merkle tree over a growing sequence of blocks.
pub struct Merkle {
    roots: Vec<Node>,
    widths: Vec<usize>,
    blocks: usize,
    depths: Ghost<Seq<nat>>,
}

impl Merkle {
    /// The pending roots, left to right.
    pub closed spec fn spec_roots(&self) -> Seq<NodeModel> {
        models(self.roots@)
    }

    /// The number of blocks taken in so far.
    pub closed spec fn spec_blocks(&self) -> nat {
        self.blocks as nat
    }

    /// The roots are complete subtrees of strictly decreasing size, laid side
    /// by side over all the blocks, each with a digest of the fixed size.
    pub closed spec fn wf(&self) -> bool {
        let ds = self.depths@;
        &&& self.roots@.len() == ds.len()
        &&& self.widths@.len() == ds.len()
        &&& forall|k: int| 0 <= k < ds.len() ==> self.widths@[k] == span(#[trigger] ds[k])
        &&& strictly_decreasing(ds)
        &&& indices(models(self.roots@)) == roots_of(0, ds)
        &&& sum_spans(ds) == self.blocks
        &&& forall|k: int| 0 <= k < ds.len() ==> (#[trigger] self.roots@[k]).hash@.len() == HASH_SIZE
    }

    /// An accumulator that has taken in no block.
    pub fn new() -> (r: Merkle)
        ensures
            r.wf(),
            r.spec_blocks() == 0,
            r.spec_roots() == Seq::<NodeModel>::empty(),
    {
        let r = Merkle { roots: Vec::new(), widths: Vec::new(), blocks: 0, depths: Ghost(Seq::empty()) };
        assert(indices(models(r.roots@)) =~= roots_of(0, Seq::empty()));
        assert(r.spec_roots() =~= Seq::<NodeModel>::empty());
        r
    }

    /// A copy of the accumulator.
    pub fn duplicate(&self) -> (r: Merkle)
        requires
            self.wf(),
        ensures
            r.wf(),
            r.spec_roots() == self.spec_roots(),
            r.spec_blocks() == self.spec_blocks(),
    {
        let mut roots: Vec<Node> = Vec::new();
        let mut widths: Vec<usize> = Vec::new();
        let mut i: usize = 0;
        while i < self.roots.len()
            invariant
                self.roots@.len() == self.widths@.len(),
                i <= self.roots@.len(),
                roots@.len() == i,
                widths@ == self.widths@.subrange(0, i as int),
                forall|k: int| 0 <= k < i ==> (#[trigger] roots@[k])@ == self.roots@[k]@,
            decreases self.roots@.len() - i,
        {
            roots.push(self.roots[i].duplicate());
            widths.push(self.widths[i]);
            i = i + 1;
            assert(widths@ =~= self.widths@.subrange(0, i as int));
        }
        let r = Merkle { roots, widths, blocks: self.blocks, depths: Ghost(self.depths@) };
        assert(models(r.roots@) =~= models(self.roots@));
        assert(r.widths@ =~= self.widths@);
        assert forall|k: int| 0 <= k < r.roots@.len() implies (#[trigger] r.roots@[k]).hash@.len() == HASH_SIZE by {
            assert(r.roots@[k]@ == self.roots@[k]@);
        }
        r
    }

    /// The number of blocks taken in so far.
    pub fn blocks(&self) -> (r: usize)
        ensures
            r == self.spec_blocks(),
    {
        self.blocks
    }

    /// The pending roots, left to right.
    pub fn roots(&self) -> (r: &Vec<Node>)
        ensures
            models(r@) == self.spec_roots(),
    {
        &self.roots
    }

    /// Each root's length fits a machine word.
    pub proof fn lemma_root_lengths_fit(&self)
        ensures
            forall|k: int| 0 <= k < self.spec_roots().len() ==> (#[trigger] self.spec_roots()[k]).length <= usize::MAX,
    {
    }

    /// After any number of blocks, the pending roots stand exactly at the
    /// full roots of the tree over those blocks.
    pub proof fn lemma_roots_are_full_roots(&self)
        requires
            self.wf(),
        ensures
            indices(self.spec_roots()) == full_roots_spec(2 * self.spec_blocks()),
    {
        lemma_roots_of_full(0, self.depths@);
        assert(2 * self.spec_blocks() / 2 == self.spec_blocks());
    }

    #[verifier::rlimit(60)]
    /// Take in one block: returns the new leaf followed by every parent that
    /// it completes, in order of creation.
    pub fn next(&mut self, data: &[u8]) -> (r: Vec<Node>)
        requires
            old(self).wf(),
            old(self).spec_blocks() < usize::MAX / 2,
            total_length(old(self).spec_roots()) + data@.len() <= usize::MAX,
        ensures
            final(self).wf(),
            final(self).spec_blocks() == old(self).spec_blocks() + 1,
            total_length(final(self).spec_roots()) == total_length(old(self).spec_roots())
                + data@.len(),
            r@.len() >= 1,
            r@.len() - 1 <= old(self).spec_roots().len(),
            r@[0]@ == leaf_node(old(self).spec_blocks(), data@),
            forall|k: int|
                1 <= k < r@.len() ==> (#[trigger] r@[k])@ == parent_node(
                    old(self).spec_roots()[old(self).spec_roots().len() - k],
                    r@[k - 1]@,
                ),
            final(self).spec_roots() == old(self).spec_roots().subrange(
                0,
                old(self).spec_roots().len() - (r@.len() - 1),
            ).push(r@[r@.len() - 1]@),
            forall|k: int| 0 <= k < r@.len() ==> (#[trigger] r@[k]).hash@.len() == HASH_SIZE,
            forall|k: int| 0 <= k < r@.len() ==> (#[trigger] r@[k]).index < 2 * final(self).spec_blocks(),
            forall|k: int|
                0 <= k < r@.len() ==> made_at_step(
                    (#[trigger] r@[k]).index as nat,
                    k as nat,
                    final(self).spec_blocks(),
                ),
            forall|j: int, k: int| 0 <= j < k < r@.len() ==> r@[j].index != r@[k].index,
            forall|j: int, k: int|
                0 <= j < final(self).spec_roots().len() - 1 && 0 <= k < r@.len()
                    ==> final(self).spec_roots()[j].index < r@[k].index,
    {
        let ghost old_roots = models(self.roots@);
        let ghost n0 = old_roots.len();
        let ghost old_ds = self.depths@;
        let leaf = make_leaf(self.blocks, data);
        let mut created: Vec<Node> = Vec::new();
        created.push(leaf.duplicate());
        proof {
            lemma_push_subtree(0, old_ds, 0);
        }
        self.roots.push(leaf);
        self.widths.push(1);
        self.depths = Ghost(old_ds.push(0));
        self.blocks = self.blocks + 1;
        assert(models(self.roots@) =~= old_roots.push(created@[0]@));
        assert(indices(models(self.roots@)) =~= indices(old_roots).push((2 * (self.blocks - 1)) as nat));
        assert(made_at_step(created@[0].index as nat, 0, self.blocks as nat)) by {
            reveal(made_at_step);
        }
        assert(total_length(models(self.roots@)) == total_length(old_roots) + data@.len()) by {
            assert(models(self.roots@).drop_last() =~= old_roots);
        }
        while self.roots.len() >= 2 && self.widths[self.roots.len() - 1] == self.widths[self.roots.len() - 2]
            invariant
                self.roots@.len() == self.depths@.len(),
                self.widths@.len() == self.depths@.len(),
                self.roots@.len() >= 1,
                forall|k: int| 0 <= k < self.depths@.len() ==> self.widths@[k] == span(#[trigger] self.depths@[k]),
                forall|i: int, j: int| 0 <= i < j < self.depths@.len() - 1 ==> self.depths@[i] > self.depths@[j],
                self.depths@.len() >= 2 ==> self.depths@[self.depths@.len() - 2] >= self.depths@[self.depths@.len() - 1],
                indices(models(self.roots@)) == roots_of(0, self.depths@),
                sum_spans(self.depths@) == self.blocks,
                self.blocks == old(self).blocks + 1,
                self.blocks <= usize::MAX / 2,
                forall|k: int| 0 <= k < self.roots@.len() ==> (#[trigger] self.roots@[k]).hash@.len() == HASH_SIZE,
                total_length(models(self.roots@)) == total_length(old_roots) + data@.len(),
                total_length(old_roots) + data@.len() <= usize::MAX,
                old_roots == old(self).spec_roots(),
                n0 == old_roots.len(),
                created@.len() >= 1,
                created@.len() - 1 <= n0,
                self.roots@.len() == n0 - (created@.len() - 1) + 1,
                models(self.roots@).subrange(0, self.roots@.len() - 1) == old_roots.subrange(0, n0 - (created@.len() - 1)),
                self.roots@[self.roots@.len() - 1]@ == created@[created@.len() - 1]@,
                created@[0]@ == leaf_node(old(self).blocks as nat, data@),
                forall|k: int| 1 <= k < created@.len() ==> (#[trigger] created@[k])@ == parent_node(old_roots[n0 - k], created@[k - 1]@),
                forall|k: int| 0 <= k < created@.len() ==> (#[trigger] created@[k]).hash@.len() == HASH_SIZE,
                forall|k: int| 0 <= k < created@.len() ==> (#[trigger] created@[k]).index < 2 * self.blocks,
                forall|k: int| 0 <= k < created@.len() ==> made_at_step((#[trigger] created@[k]).index as nat, k as nat, self.blocks as nat),
                self.depths@[self.depths@.len() - 1] == created@.len() - 1,
            decreases self.roots@.len(),
        {
            let ghost ds = self.depths@;
            let ghost len = ds.len();
            let ghost pre = ds.subrange(0, len - 2);
            let ghost d = ds[len - 1];
            let ghost roots_before = models(self.roots@);
            let ghost c = created@.len();
            proof {
                if ds[len - 2] > d {
                    lemma_span_strict(d, ds[len - 2]);
                }
                assert(ds[len - 2] == d);
                assert(ds =~= pre.push(d).push(d));
                lemma_push_subtree(0, pre, d);
                lemma_push_subtree(0, pre.push(d), d);
                lemma_push_subtree(0, pre, d + 1);
                assert(span(d + 1) == 2 * span(d));
                assert(indices(roots_before)[len - 2] == roots_before[len - 2].index);
                assert(indices(roots_before)[len - 1] == roots_before[len - 1].index);
                assert(total_length(roots_before) == total_length(roots_before.drop_last())
                    + roots_before[len - 1].length);
                assert(roots_before.drop_last().last() == roots_before[len - 2]);
                assert(total_length(roots_before.drop_last()) == total_length(roots_before.drop_last().drop_last())
                    + roots_before[len - 2].length);
                lemma_roots_of_len(0, pre);
                let rs = roots_of(0, pre).push(subtree_root(sum_spans(pre), span(d))).push(
                    subtree_root(sum_spans(pre) + span(d), span(d)));
                assert(roots_of(0, ds) == rs);
                assert(rs[len - 2] == subtree_root(sum_spans(pre), span(d)));
                assert(rs[len - 1] == subtree_root(sum_spans(pre) + span(d), span(d)));
                assert(sum_spans(ds) == sum_spans(pre) + 2 * span(d));
                assert(total_length(roots_before) == total_length(roots_before.drop_last().drop_last())
                    + roots_before[len - 2].length + roots_before[len - 1].length);
                assert(roots_before[len - 2] == old_roots[n0 - c]) by {
                    assert(roots_before.subrange(0, len - 1)[len - 2] == roots_before[len - 2]);
                }
            }
            let right = self.roots.pop().unwrap();
            let left = self.roots.pop().unwrap();
            let width = self.widths.pop().unwrap();
            let _ = self.widths.pop();
            let parent = make_parent(&left, &right, width);
            created.push(parent.duplicate());
            self.roots.push(parent);
            self.widths.push(2 * width);
            self.depths = Ghost(pre.push(d + 1));
            proof {
                let roots_after = models(self.roots@);
                assert(roots_after =~= roots_before.subrange(0, len - 2).push(parent@));
                assert(roots_after.drop_last() =~= roots_before.drop_last().drop_last());
                assert(indices(roots_after) =~= indices(roots_before.subrange(0, len - 2)).push(parent@.index));
                assert(indices(roots_before.subrange(0, len - 2)) =~= roots_of(0, pre)) by {
                    assert(indices(roots_before) =~= roots_of(0, pre).push(subtree_root(sum_spans(pre), span(d))).push(
                        subtree_root(sum_spans(pre) + span(d), span(d))));
                    assert forall|i: int| 0 <= i < len - 2 implies indices(roots_before.subrange(0, len - 2))[i] == roots_of(0, pre)[i] by {
                        assert(indices(roots_before)[i] == roots_before[i].index);
                    }
                }
                assert(roots_after.subrange(0, len - 2) =~= old_roots.subrange(0, n0 - c));
                assert forall|k: int| 1 <= k < created@.len() implies (#[trigger] created@[k])@ == parent_node(old_roots[n0 - k], created@[k - 1]@) by {
                    if k < c {
                    } else {
                        assert(k == c);
                    }
                }
                assert(created@[c as int].index < 2 * self.blocks) by {
                    crate::tree::lemma_span_positive(d);
                }
                assert(made_at_step(created@[c as int].index as nat, c as nat, self.blocks as nat)) by {
                    reveal(made_at_step);
                    assert(span(c as nat) == 2 * span(d));
                }
                assert forall|i: int, j: int| 0 <= i < j < self.depths@.len() - 1 implies self.depths@[i] > self.depths@[j] by {
                    assert(ds[i] > ds[j]);
                }
                assert forall|k: int| 0 <= k < self.depths@.len() implies self.widths@[k] == span(#[trigger] self.depths@[k]) by {
                    if k < len - 2 {
                        assert(ds[k] == self.depths@[k]);
                    }
                }
            }
        }
        proof {
            let ds = self.depths@;
            let len = ds.len();
            if len >= 2 {
                if ds[len - 2] == ds[len - 1] {
                    assert(self.widths@[len - 1] == self.widths@[len - 2]);
                }
            }
            assert(strictly_decreasing(ds)) by {
                assert forall|i: int, j: int| 0 <= i < j < ds.len() implies ds[i] > ds[j] by {
                    if j == len - 1 && i < len - 2 {
                        assert(ds[i] > ds[len - 2]);
                    }
                }
            }
            assert forall|j: int, k: int| 0 <= j < k < created@.len() implies created@[j].index
                != created@[k].index by {
                lemma_span_strict(j as nat, k as nat);
                assert(made_at_step(created@[j].index as nat, j as nat, self.blocks as nat));
                assert(made_at_step(created@[k].index as nat, k as nat, self.blocks as nat));
                reveal(made_at_step);
            }
            let pre = ds.drop_last();
            let c = created@.len();
            assert(ds =~= pre.push(ds[len - 1]));
            assert(strictly_decreasing(pre));
            lemma_push_subtree(0, pre, ds[len - 1]);
            lemma_roots_of_full(0, pre);
            lemma_roots_of_len(0, pre);
            crate::tree::lemma_roots_below(0, sum_spans(pre));
            crate::tree::lemma_span_positive((c - 1) as nat);
            assert forall|j: int, k: int| 0 <= j < len - 1 && 0 <= k < c implies models(self.roots@)[j].index
                < created@[k].index by {
                assert(indices(models(self.roots@))[j] == models(self.roots@)[j].index);
                assert(roots_of(0, ds)[j] == roots_of(0, pre)[j]);
                assert(made_at_step(created@[k].index as nat, k as nat, self.blocks as nat));
                reveal(made_at_step);
                crate::tree::lemma_span_monotonic(k as nat, (c - 1) as nat);
            }
            let fin = models(self.roots@);
            assert(fin =~= old_roots.subrange(0, n0 - (created@.len() - 1)).push(created@[created@.len() - 1]@));
        }
        created
    }
}

} // verus!
