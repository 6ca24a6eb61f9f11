//! The feed: an append-only log over a storage engine.
use crate::error::Error;
use crate::merkle::{indices, models, total_length, Merkle};
use crate::merkle::{leaf_node, parent_node};
use crate::node::{Node, NodeModel, HASH_SIZE, NODE_RECORD_SIZE};
use crate::storage::{
    block_addressable, block_location, find_cached, lengths_sum, node_record_offset, stored_node, DataOffset,
    Storage,
};
use crate::tree::lemma_roots_below;
use crate::store::{write_at, ByteStore};
use crate::tree::full_roots_spec;
use vstd::prelude::*;

verus! {

/// When the tree region holds every root and `cache` holds none of them,
/// their lengths add up to their total.
proof fn lemma_stored_roots_sum(cache: Seq<NodeModel>, tree: Seq<u8>, roots: Seq<NodeModel>)
    requires
        forall|k: int|
            0 <= k < roots.len() ==> stored_node(tree, (#[trigger] roots[k]).index) == Some(roots[k])
                && roots[k].length <= usize::MAX && find_cached(cache, roots[k].index) is None,
    ensures
        lengths_sum(cache, tree, indices(roots)) == Some(total_length(roots)),
    decreases roots.len(),
{
    if roots.len() > 0 {
        let d = roots.drop_last();
        assert forall|k: int| 0 <= k < d.len() implies stored_node(tree, (#[trigger] d[k]).index) == Some(d[k])
            && d[k].length <= usize::MAX && find_cached(cache, d[k].index) is None by {
            assert(d[k] == roots[k]);
        }
        lemma_stored_roots_sum(cache, tree, d);
        assert(indices(roots).drop_last() =~= indices(d));
        assert(indices(roots).last() == roots.last().index);
        assert(roots.last() == roots[roots.len() - 1]);
    }
}

/// The signing key pair of a feed, as raw key bytes.
pub struct KeyPair {
    pub public: Vec<u8>,
    pub secret: Vec<u8>,
}

/// Append-only log structure.
pub struct Feed<T: ByteStore> {
    merkle: Merkle,
    key_pair: KeyPair,
    storage: Storage<T>,
    byte_length: usize,
    created: Ghost<Seq<NodeModel>>,
}

impl<T: ByteStore> Feed<T> {
    /// The roots of the tree over the blocks appended so far.
    pub closed spec fn spec_roots(&self) -> Seq<NodeModel> {
        self.merkle.spec_roots()
    }

    /// The number of blocks appended so far.
    pub closed spec fn spec_blocks(&self) -> nat {
        self.merkle.spec_blocks()
    }

    /// The number of data bytes appended so far.
    pub closed spec fn spec_byte_length(&self) -> nat {
        self.byte_length as nat
    }

    /// The public key of the feed.
    pub closed spec fn spec_public_key(&self) -> Seq<u8> {
        self.key_pair.public@
    }

    /// The storage engine the feed writes to.
    pub closed spec fn spec_storage(&self) -> Storage<T> {
        self.storage
    }

    /// The tree region holds the record of every pending root.
    pub open spec fn tree_holds_roots(&self) -> bool {
        forall|k: int|
            0 <= k < self.spec_roots().len() ==> stored_node(
                self.spec_storage().tree.bytes(),
                (#[trigger] self.spec_roots()[k]).index,
            ) == Some(self.spec_roots()[k])
    }

    /// The nodes made by the last successful append, leaf first.
    pub closed spec fn spec_last_created(&self) -> Seq<NodeModel> {
        self.created@
    }

    /// The accumulator and storage are consistent, the byte count is the
    /// sum of the roots' lengths, and every block so far can be addressed.
    pub closed spec fn wf(&self) -> bool {
        &&& self.merkle.wf()
        &&& self.storage.wf()
        &&& self.byte_length == total_length(self.merkle.spec_roots())
        &&& block_addressable(self.merkle.spec_blocks())
    }

    /// Create a feed with no blocks over already opened storage.
    pub fn with_storage(storage: Storage<T>, key_pair: KeyPair) -> (r: Result<Self, Error>)
        requires
            storage.wf(),
        ensures
            r matches Ok(f) && f.wf() && f.spec_blocks() == 0 && f.spec_byte_length() == 0
                && f.spec_roots() == Seq::<NodeModel>::empty() && f.spec_storage() == storage
                && f.spec_public_key() == key_pair.public@ && f.tree_holds_roots(),
    {
        let merkle = Merkle::new();
        Ok(Feed { merkle, key_pair, storage, byte_length: 0, created: Ghost(Seq::empty()) })
    }

    /// The number of blocks appended so far.
    pub fn len(&self) -> (r: usize)
        ensures
            r == self.spec_blocks(),
    {
        self.merkle.blocks()
    }

    /// Whether no block has been appended.
    pub fn is_empty(&self) -> (r: bool)
        ensures
            r == (self.spec_blocks() == 0),
    {
        self.merkle.blocks() == 0
    }

    /// The number of data bytes appended so far.
    pub fn byte_length(&self) -> (r: usize)
        ensures
            r == self.spec_byte_length(),
    {
        self.byte_length
    }

    /// The roots of the tree over the blocks appended so far, left to right.
    pub fn roots(&self) -> (r: &Vec<Node>)
        ensures
            models(r@) == self.spec_roots(),
    {
        self.merkle.roots()
    }

    /// The public key of the feed.
    pub fn public_key(&self) -> (r: &Vec<u8>)
        ensures
            r@ == self.spec_public_key(),
    {
        &self.key_pair.public
    }

    /// Offset and length of block `index` in the data region, as the tree
    /// region records them.
    pub fn data_offset(&mut self, index: usize) -> (r: Result<DataOffset, Error>)
        requires
            old(self).wf(),
            index <= old(self).spec_blocks(),
        ensures
            final(self).wf(),
            final(self).spec_storage().same_contents(&old(self).spec_storage()),
            final(self).spec_roots() == old(self).spec_roots(),
            final(self).spec_blocks() == old(self).spec_blocks(),
            final(self).spec_byte_length() == old(self).spec_byte_length(),
            final(self).tree_holds_roots() == old(self).tree_holds_roots(),
            r matches Ok(d) ==> block_location(Seq::empty(), old(self).spec_storage().tree.bytes(), index as nat)
                == Some((d.offset as nat, d.length as nat)),
            block_location(Seq::empty(), old(self).spec_storage().tree.bytes(), index as nat) is None ==> r is Err,
            old(self).spec_storage().tree.reliable() && (block_location(
                Seq::empty(),
                old(self).spec_storage().tree.bytes(),
                index as nat,
            ) matches Some((o, l)) && o <= usize::MAX) ==> r is Ok,
    {
        let cached: Vec<Node> = Vec::new();
        assert(models(cached@) =~= Seq::<NodeModel>::empty());
        self.storage.data_offset(index, cached.as_slice())
    }

    /// Append one block: the accumulator makes its leaf and the parents it
    /// completes, the block goes to the data region and the nodes to the tree
    /// region. On failure the feed's own state is left as it was.
    #[verifier::rlimit(100)]
    pub fn append(&mut self, data: &[u8]) -> (r: Result<(), Error>)
        requires
            old(self).wf(),
            block_addressable(old(self).spec_blocks() + 1),
            old(self).spec_byte_length() + data@.len() <= usize::MAX,
        ensures
            final(self).wf(),
            r is Ok ==> final(self).spec_blocks() == old(self).spec_blocks() + 1,
            r is Ok ==> indices(old(self).spec_roots()) == full_roots_spec(2 * old(self).spec_blocks())
                && final(self).spec_byte_length() == total_length(old(self).spec_roots()) + data@.len(),
            r is Ok ==> indices(final(self).spec_roots()) == full_roots_spec(2 * final(self).spec_blocks()),
            r is Ok && data@.len() > 0 ==> exists|o: nat|
                final(self).spec_storage().data.bytes() == write_at(
                    old(self).spec_storage().data.bytes(),
                    o,
                    data@,
                ),
            r is Ok ==> stored_node(final(self).spec_storage().tree.bytes(), 2 * old(self).spec_blocks())
                == Some(leaf_node(old(self).spec_blocks(), data@)),
            r is Ok ==> stored_node(
                final(self).spec_storage().tree.bytes(),
                final(self).spec_roots().last().index,
            ) == Some(final(self).spec_roots().last()),
            r is Ok ==> final(self).spec_byte_length() == old(self).spec_byte_length() + data@.len(),
            r is Ok ==> total_length(final(self).spec_roots()) == final(self).spec_byte_length(),
            final(self).spec_storage().reliable() == old(self).spec_storage().reliable(),
            old(self).tree_holds_roots() ==> lengths_sum(
                Seq::empty(),
                old(self).spec_storage().tree.bytes(),
                full_roots_spec(2 * old(self).spec_blocks()),
            ) == Some(old(self).spec_byte_length()),
            old(self).tree_holds_roots() && old(self).spec_storage().reliable() ==> r is Ok,
            r is Ok && old(self).tree_holds_roots() ==> final(self).tree_holds_roots(),
            r is Ok && data@.len() > 0 && old(self).tree_holds_roots() ==> final(self).spec_storage().data.bytes()
                == write_at(old(self).spec_storage().data.bytes(), old(self).spec_byte_length(), data@),
            r is Ok ==> final(self).spec_last_created().len() >= 1,
            r is Ok ==> final(self).spec_last_created().len() - 1 <= old(self).spec_roots().len(),
            r is Ok ==> final(self).spec_last_created()[0] == leaf_node(old(self).spec_blocks(), data@),
            r is Ok ==> forall|k: int|
                1 <= k < final(self).spec_last_created().len() ==> (#[trigger] final(self).spec_last_created()[k])
                    == parent_node(
                    old(self).spec_roots()[old(self).spec_roots().len() - k],
                    final(self).spec_last_created()[k - 1],
                ),
            r is Ok ==> final(self).spec_roots() == old(self).spec_roots().subrange(
                0,
                old(self).spec_roots().len() - (final(self).spec_last_created().len() - 1),
            ).push(final(self).spec_last_created().last()),
            r is Ok ==> forall|k: int|
                0 <= k < final(self).spec_last_created().len() ==> stored_node(
                    final(self).spec_storage().tree.bytes(),
                    (#[trigger] final(self).spec_last_created()[k]).index,
                ) == Some(final(self).spec_last_created()[k]),
            r is Ok ==> forall|idx: nat|
                (forall|k: int|
                    0 <= k < final(self).spec_last_created().len() ==> final(self).spec_last_created()[k].index
                        != idx) && (#[trigger] stored_node(old(self).spec_storage().tree.bytes(), idx)) is Some
                    ==> stored_node(final(self).spec_storage().tree.bytes(), idx) == stored_node(
                    old(self).spec_storage().tree.bytes(),
                    idx,
                ),
            r is Err ==> final(self).spec_blocks() == old(self).spec_blocks()
                && final(self).spec_roots() == old(self).spec_roots()
                && final(self).spec_byte_length() == old(self).spec_byte_length(),
    {
        proof {
            self.merkle.lemma_roots_are_full_roots();
        }
        let mut merkle = self.merkle.duplicate();
        let nodes = merkle.next(data);
        let block = self.merkle.blocks();
        let ghost tree_before = self.storage.tree.bytes();
        let ghost old_roots = self.merkle.spec_roots();
        let mut leaf_only: Vec<Node> = Vec::new();
        leaf_only.push(nodes[0].duplicate());
        proof {
            self.merkle.lemma_root_lengths_fit();
            let cache = models(leaf_only@);
            assert(cache =~= seq![nodes@[0]@]);
            assert(2 * (block as nat) / 2 == block as nat);
            lemma_roots_below(0, block as nat);
            assert(full_roots_spec(2 * block as nat) == crate::tree::roots_from(0, block as nat));
            assert forall|k: int| 0 <= k < old_roots.len() implies find_cached(cache, (#[trigger] old_roots[k]).index)
                is None by {
                assert(indices(old_roots)[k] == old_roots[k].index);
                assert(old_roots[k].index < 2 * block);
                assert(cache.drop_first() =~= Seq::<NodeModel>::empty());
                assert(find_cached(Seq::<NodeModel>::empty(), old_roots[k].index) is None);
            }
            assert(find_cached(cache, 2 * block as nat) == Some(nodes@[0]@));
            assert forall|k: int| 0 <= k < old_roots.len() implies find_cached(Seq::<NodeModel>::empty(), (#[trigger] old_roots[k]).index)
                is None by {}
            if self.tree_holds_roots() {
                lemma_stored_roots_sum(cache, tree_before, old_roots);
                lemma_stored_roots_sum(Seq::empty(), tree_before, old_roots);
            }
        }
        self.storage.put_data(block, data, leaf_only.as_slice())?;
        let ghost data_after = self.storage.data.bytes();
        let ghost o = block_location(models(leaf_only@), tree_before, block as nat)->Some_0.0;
        let ghost new_roots = merkle.spec_roots();
        let ghost held = old(self).tree_holds_roots();
        proof {
            assert forall|k: int| 0 <= k < nodes@.len() implies (#[trigger] nodes@[k]).hash@.len() == HASH_SIZE
                && node_record_offset(nodes@[k].index as nat) + NODE_RECORD_SIZE <= usize::MAX by {
                assert(nodes@[k].index < 2 * merkle.spec_blocks());
            }
        }
        self.storage.put_nodes(nodes.as_slice())?;
        proof {
            if held {
                assert forall|j: int| 0 <= j < new_roots.len() - 1 implies stored_node(self.storage.tree.bytes(), (#[trigger] new_roots[j]).index)
                    == Some(new_roots[j]) by {
                    assert(new_roots[j] == old_roots[j]);
                    assert(stored_node(tree_before, old_roots[j].index) == Some(old_roots[j]));
                    assert forall|k: int| 0 <= k < nodes@.len() implies nodes@[k].index != new_roots[j].index by {
                        assert(new_roots[j].index < nodes@[k].index);
                    }
                }
            }
        }
        self.merkle = merkle;
        self.byte_length = self.byte_length + data.len();
        self.created = Ghost(models(nodes@));
        proof {
            let c = self.spec_last_created();
            assert(c =~= models(nodes@));
            assert(c.len() == nodes@.len());
            assert forall|k: int| 0 <= k < c.len() implies #[trigger] c[k] == nodes@[k]@ by {}
            assert forall|k: int| 1 <= k < c.len() implies (#[trigger] c[k]) == parent_node(
                old_roots[old_roots.len() - k],
                c[k - 1],
            ) by {
                assert(c[k] == nodes@[k]@);
                assert(c[k - 1] == nodes@[k - 1]@);
            }
            assert forall|k: int| 0 <= k < c.len() implies stored_node(
                self.storage.tree.bytes(),
                (#[trigger] c[k]).index,
            ) == Some(c[k]) by {
                assert(c[k] == nodes@[k]@);
            }
            assert forall|idx: nat|
                (forall|k: int| 0 <= k < c.len() ==> c[k].index != idx) && (#[trigger] stored_node(
                    old(self).storage.tree.bytes(),
                    idx,
                )) is Some implies stored_node(self.storage.tree.bytes(), idx) == stored_node(
                old(self).storage.tree.bytes(),
                idx,
            ) by {
                assert forall|k: int| 0 <= k < nodes@.len() implies nodes@[k].index != idx by {
                    assert(c[k] == nodes@[k]@);
                }
            }
        }
        proof {
            self.merkle.lemma_roots_are_full_roots();
            assert(nodes@[0]@ == leaf_node(old(self).spec_blocks(), data@));
            if held {
                assert forall|k: int| 0 <= k < self.merkle.spec_roots().len() implies stored_node(
                    self.storage.tree.bytes(),
                    (#[trigger] self.merkle.spec_roots()[k]).index,
                ) == Some(self.merkle.spec_roots()[k]) by {
                    if k == self.merkle.spec_roots().len() - 1 {
                        assert(nodes@[nodes@.len() - 1]@ == self.merkle.spec_roots()[k]);
                    }
                }
            }
            assert(self.spec_roots().last() == nodes@[nodes@.len() - 1]@);
            if data@.len() > 0 {
                assert(self.spec_storage().data.bytes() == write_at(old(self).spec_storage().data.bytes(), o, data@));
            }
        }
        Ok(())
    }

    /// Read block `index`, or nothing when no such block has been appended.
    pub fn get(&mut self, index: usize) -> (r: Result<Option<Vec<u8>>, Error>)
        requires
            old(self).wf(),
        ensures
            final(self).wf(),
            final(self).spec_storage().same_contents(&old(self).spec_storage()),
            final(self).spec_roots() == old(self).spec_roots(),
            final(self).spec_blocks() == old(self).spec_blocks(),
            final(self).spec_byte_length() == old(self).spec_byte_length(),
            final(self).tree_holds_roots() == old(self).tree_holds_roots(),
            index >= old(self).spec_blocks() ==> r == Ok::<Option<Vec<u8>>, Error>(None),
            index < old(self).spec_blocks() && old(self).spec_storage().reliable() && (block_location(
                Seq::empty(),
                old(self).spec_storage().tree.bytes(),
                index as nat,
            ) matches Some((o, l)) && o + l <= usize::MAX && o + l <= old(self).spec_storage().data.bytes().len())
                ==> r is Ok,
            index < old(self).spec_blocks() ==> !(r matches Ok(None)),
            r matches Ok(Some(v)) ==> {
                &&& index < old(self).spec_blocks()
                &&& block_location(Seq::empty(), old(self).spec_storage().tree.bytes(), index as nat) matches Some((o, l))
                &&& v@ == old(self).spec_storage().data.bytes().subrange(o as int, (o + l) as int)
            },
    {
        if index >= self.merkle.blocks() {
            return Ok(None);
        }
        let bytes = self.storage.get_data(index)?;
        Ok(Some(bytes))
    }

    /// Give back the storage engine.
    pub fn into_storage(self) -> (r: Storage<T>)
        ensures
            r == self.spec_storage(),
    {
        self.storage
    }
}

} // verus!
