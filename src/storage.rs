//! The storage engine: tree, data, bitfield and signature regions, each kept
//! in its own byte store.
use crate::error::Error;
use crate::merkle::models;
use crate::node::{
    decode_node, encode_node, lemma_node_codec_round_trip, node_encodable, Node, NodeModel, HASH_SIZE,
    NODE_RECORD_SIZE,
};
use crate::store::{lemma_write_elsewhere, lemma_write_then_read, write_at, ByteStore};
use crate::tree::{full_roots, full_roots_spec, lemma_roots_below};
use vstd::prelude::*;

verus! {

/// Size in bytes of the header at the start of the tree, bitfield and
/// signature regions.
pub const HEADER_SIZE: usize = 32;

/// Size in bytes of a signature record.
pub const SIGNATURE_SIZE: usize = 64;

/// A SLEEP header: magic bytes, file type, protocol version zero, the
/// big-endian entry size, the algorithm name with its length, then zeros up
/// to 32 bytes.
pub open spec fn sleep_header(file_type: u8, entry_size: u16, algorithm: Seq<u8>) -> Seq<u8> {
    seq![5u8, 2u8, 87u8, file_type, 0u8, (entry_size >> 8u16) as u8, entry_size as u8, algorithm.len() as u8]
        + algorithm + Seq::new((24 - algorithm.len()) as nat, |i: int| 0u8)
}

/// Header of the tree region: 40-byte entries hashed with BLAKE2b.
pub open spec fn tree_header_spec() -> Seq<u8> {
    sleep_header(2, 40, seq![66u8, 76u8, 65u8, 75u8, 69u8, 50u8, 98u8])
}

/// Header of the signature region: 64-byte Ed25519 entries.
pub open spec fn signatures_header_spec() -> Seq<u8> {
    sleep_header(1, 64, seq![69u8, 100u8, 50u8, 53u8, 53u8, 49u8, 57u8])
}

/// Header of the bitfield region: 3328-byte entries, no algorithm.
pub open spec fn bitfield_header_spec() -> Seq<u8> {
    sleep_header(0, 3328, Seq::empty())
}

/// Relies on sleep_parser::create_tree and Header::to_vec: the tree header,
/// zero-padded to the capacity of a `Vec::with_capacity(32)`, which is at
/// least 32.
#[verifier::external_body]
fn tree_header() -> (r: Vec<u8>)
    ensures
        r@.len() >= HEADER_SIZE,
        r@.subrange(0, HEADER_SIZE as int) == tree_header_spec(),
        forall|i: int| HEADER_SIZE <= i < r@.len() ==> r@[i] == 0u8,
{
    sleep_parser::create_tree().to_vec()
}

/// Relies on sleep_parser::create_signatures and Header::to_vec: the
/// signature header, zero-padded to the capacity of a
/// `Vec::with_capacity(32)`, which is at least 32.
#[verifier::external_body]
fn signatures_header() -> (r: Vec<u8>)
    ensures
        r@.len() >= HEADER_SIZE,
        r@.subrange(0, HEADER_SIZE as int) == signatures_header_spec(),
        forall|i: int| HEADER_SIZE <= i < r@.len() ==> r@[i] == 0u8,
{
    sleep_parser::create_signatures().to_vec()
}

/// Relies on sleep_parser::create_bitfield and Header::to_vec: the bitfield
/// header, zero-padded to the capacity of a `Vec::with_capacity(32)`, which
/// is at least 32.
#[verifier::external_body]
fn bitfield_header() -> (r: Vec<u8>)
    ensures
        r@.len() >= HEADER_SIZE,
        r@.subrange(0, HEADER_SIZE as int) == bitfield_header_spec(),
        forall|i: int| HEADER_SIZE <= i < r@.len() ==> r@[i] == 0u8,
{
    sleep_parser::create_bitfield().to_vec()
}

/// A region as left by opening it: an empty store gets `header`, any other
/// store is kept as it is.
pub open spec fn init_region(s: Seq<u8>, header: Seq<u8>) -> Seq<u8> {
    if s.len() == 0 {
        header
    } else {
        s
    }
}

/// Opening storage again over the stores that an opening left behind
/// changes none of them: each header is written once, into an empty store.
pub proof fn lemma_reopen_keeps_regions(tree: Seq<u8>, bitfield: Seq<u8>, signatures: Seq<u8>)
    ensures
        init_region(init_region(tree, tree_header_spec()), tree_header_spec()) == init_region(
            tree,
            tree_header_spec(),
        ),
        init_region(init_region(bitfield, bitfield_header_spec()), bitfield_header_spec())
            == init_region(bitfield, bitfield_header_spec()),
        init_region(init_region(signatures, signatures_header_spec()), signatures_header_spec())
            == init_region(signatures, signatures_header_spec()),
{
    assert(tree_header_spec().len() == 32);
    assert(bitfield_header_spec().len() == 32);
    assert(signatures_header_spec().len() == 32);
}

/// Where the record of tree node `index` starts in the tree region.
pub open spec fn node_record_offset(index: nat) -> nat {
    (HEADER_SIZE + NODE_RECORD_SIZE * index) as nat
}

/// Where the signature of block `index` starts in the signature region.
pub open spec fn signature_offset(index: nat) -> nat {
    (HEADER_SIZE + SIGNATURE_SIZE * index) as nat
}

/// The node recorded for position `index` in the tree region, if the region
/// reaches that far.
pub open spec fn stored_node(tree: Seq<u8>, index: nat) -> Option<NodeModel> {
    let off = node_record_offset(index);
    if off + NODE_RECORD_SIZE <= tree.len() {
        Some(decode_node(index, tree.subrange(off as int, off + NODE_RECORD_SIZE)))
    } else {
        None
    }
}

/// The first node of `nodes` standing at position `index`.
pub open spec fn find_cached(nodes: Seq<NodeModel>, index: nat) -> Option<NodeModel>
    decreases nodes.len(),
{
    if nodes.len() == 0 {
        None
    } else if nodes[0].index == index {
        Some(nodes[0])
    } else {
        find_cached(nodes.drop_first(), index)
    }
}

/// Length of the node at `index`: from the cache when it holds that node,
/// else from the tree region.
pub open spec fn node_length(cache: Seq<NodeModel>, tree: Seq<u8>, index: nat) -> Option<nat> {
    match find_cached(cache, index) {
        Some(n) => Some(n.length),
        None => match stored_node(tree, index) {
            Some(n) => if n.length <= usize::MAX {
                Some(n.length)
            } else {
                None
            },
            None => None,
        },
    }
}

/// Sum of the lengths of the nodes at `roots`, if all are known.
pub open spec fn lengths_sum(cache: Seq<NodeModel>, tree: Seq<u8>, roots: Seq<nat>) -> Option<nat>
    decreases roots.len(),
{
    if roots.len() == 0 {
        Some(0)
    } else {
        match (lengths_sum(cache, tree, roots.drop_last()), node_length(cache, tree, roots.last())) {
            (Some(a), Some(b)) => Some(a + b),
            _ => None,
        }
    }
}

/// Every position of `ks` has a node in `cache`.
pub open spec fn all_cached(cache: Seq<NodeModel>, ks: Seq<nat>) -> bool {
    forall|j: int| 0 <= j < ks.len() ==> (#[trigger] find_cached(cache, ks[j])) is Some
}

/// When the lengths at `roots` are all known, so are those of every prefix,
/// and a prefix sums to no more than the whole.
pub proof fn lemma_prefix_sum(cache: Seq<NodeModel>, tree: Seq<u8>, roots: Seq<nat>, i: int)
    requires
        lengths_sum(cache, tree, roots) is Some,
        0 <= i <= roots.len(),
    ensures
        lengths_sum(cache, tree, roots.subrange(0, i)) is Some,
        lengths_sum(cache, tree, roots.subrange(0, i))->Some_0 <= lengths_sum(cache, tree, roots)->Some_0,
        i < roots.len() ==> node_length(cache, tree, roots[i]) is Some,
    decreases roots.len(),
{
    if i == roots.len() {
        assert(roots.subrange(0, i) =~= roots);
    } else {
        let d = roots.drop_last();
        lemma_prefix_sum(cache, tree, d, i);
        assert(d.subrange(0, i) =~= roots.subrange(0, i));
        if i < d.len() {
            assert(d[i] == roots[i]);
        }
    }
}

/// Root `i` of `roots` is the first whose node is neither cached nor stored,
/// while the lengths before it are known, could be read, and fit a machine
/// word.
pub open spec fn first_missing_root(
    cache: Seq<NodeModel>,
    tree: Seq<u8>,
    roots: Seq<nat>,
    i: int,
    reliable: bool,
) -> bool {
    &&& 0 <= i < roots.len()
    &&& reliable || all_cached(cache, roots.subrange(0, i))
    &&& lengths_sum(cache, tree, roots.subrange(0, i)) matches Some(o) && o <= usize::MAX
    &&& find_cached(cache, roots[i]) is None
    &&& stored_node(tree, roots[i]) is None
}

/// Before the first missing root, every length is known, can be read, and
/// the running sum fits a machine word.
pub proof fn lemma_before_missing_root(
    cache: Seq<NodeModel>,
    tree: Seq<u8>,
    roots: Seq<nat>,
    i: int,
    i0: int,
    reliable: bool,
)
    requires
        first_missing_root(cache, tree, roots, i0, reliable),
        0 <= i < i0,
    ensures
        node_length(cache, tree, roots[i]) is Some,
        reliable || find_cached(cache, roots[i]) is Some,
        lengths_sum(cache, tree, roots.subrange(0, i + 1)) is Some,
        lengths_sum(cache, tree, roots.subrange(0, i + 1))->Some_0 <= usize::MAX,
{
    let pre = roots.subrange(0, i0);
    lemma_prefix_sum(cache, tree, pre, i);
    lemma_prefix_sum(cache, tree, pre, i + 1);
    assert(pre[i] == roots[i]);
    assert(pre.subrange(0, i + 1) =~= roots.subrange(0, i + 1));
    if !reliable {
        assert(find_cached(cache, pre[i]) is Some);
    }
}

/// Offset and length of block `index` in the data region: the lengths of the
/// full roots before the block add up to its offset, and its leaf gives its
/// length.
pub open spec fn block_location(cache: Seq<NodeModel>, tree: Seq<u8>, index: nat) -> Option<(nat, nat)> {
    match (
        lengths_sum(cache, tree, full_roots_spec(2 * index)),
        node_length(cache, tree, 2 * index),
    ) {
        (Some(o), Some(l)) => Some((o, l)),
        _ => None,
    }
}

/// Largest block index whose tree records can be addressed.
pub open spec fn block_addressable(index: nat) -> bool {
    node_record_offset(2 * index + 1) <= usize::MAX
}

/// Writing a node's record into the tree region and reading the record at
/// the node's position gives the same node back: index, length and digest.
pub proof fn lemma_node_round_trip(tree: Seq<u8>, n: NodeModel)
    requires
        node_encodable(n),
    ensures
        stored_node(write_at(tree, node_record_offset(n.index), encode_node(n)), n.index) == Some(n),
{
    lemma_node_codec_round_trip(n);
    lemma_write_then_read(tree, node_record_offset(n.index), encode_node(n));
}

/// Writing the record of one node leaves the record of any other node as it
/// was.
pub proof fn lemma_other_node_kept(tree: Seq<u8>, n: NodeModel, index: nat)
    requires
        index != n.index,
        n.hash.len() == HASH_SIZE,
        stored_node(tree, index) is Some,
    ensures
        stored_node(write_at(tree, node_record_offset(n.index), encode_node(n)), index) == stored_node(
            tree,
            index,
        ),
{
    let a = node_record_offset(index);
    let o = node_record_offset(n.index);
    let m = n.index;
    if index < m {
        assert(40 * index + 40 <= 40 * m) by (nonlinear_arith)
            requires
                index < m,
        ;
    } else {
        assert(40 * m + 40 <= 40 * index) by (nonlinear_arith)
            requires
                m < index,
        ;
    }
    assert(encode_node(n).len() == NODE_RECORD_SIZE);
    lemma_write_elsewhere(tree, o, encode_node(n), a, (a + NODE_RECORD_SIZE) as nat);
}

/// A non-empty block written where `put_data` places it (with the nodes
/// `cache` and tree region `tree_at_put`) reads back unchanged where
/// `get_data` later looks for it (with tree region `tree_at_get`), whenever
/// the two agree on where the block lies.
pub proof fn lemma_data_round_trip(
    cache: Seq<NodeModel>,
    tree_at_put: Seq<u8>,
    tree_at_get: Seq<u8>,
    region: Seq<u8>,
    index: nat,
    bytes: Seq<u8>,
)
    requires
        bytes.len() > 0,
        block_location(cache, tree_at_put, index) == block_location(Seq::empty(), tree_at_get, index),
        block_location(cache, tree_at_put, index) matches Some((o, l)) && l == bytes.len(),
    ensures
        block_location(Seq::empty(), tree_at_get, index) matches Some((o, l)) && o + l <= write_at(
            region,
            o,
            bytes,
        ).len() && write_at(region, o, bytes).subrange(o as int, (o + l) as int) == bytes,
{
    let (o, l) = block_location(cache, tree_at_put, index)->Some_0;
    lemma_write_then_read(region, o, bytes);
}

/// The storage regions.
#[derive(Debug, Clone, Copy, PartialEq, Eq, Structural)]
pub enum Store {
    /// Tree
    Tree,
    /// Data
    Data,
    /// Bitfield
    Bitfield,
    /// Signatures
    Signatures,
}

/// Position and length of a block in the data region.
#[derive(Debug)]
pub struct DataOffset {
    pub length: usize,
    pub offset: usize,
}

impl DataOffset {
    /// Create a new instance.
    pub fn new(offset: usize, length: usize) -> (r: Self)
        ensures
            r.offset == offset,
            r.length == length,
    {
        Self { offset, length }
    }

    /// Get the offset.
    pub fn offset(&self) -> (r: usize)
        ensures
            r == self.offset,
    {
        self.offset
    }

    /// Get the length.
    pub fn len(&self) -> (r: usize)
        ensures
            r == self.length,
    {
        self.length
    }

    /// Check whether the length is zero.
    pub fn is_empty(&self) -> (r: bool)
        ensures
            r == (self.length == 0),
    {
        self.length == 0
    }
}

/// Get a node from a slice of nodes: the first one at position `index`.
pub fn find_node(nodes: &[Node], index: usize) -> (r: Option<&Node>)
    ensures
        r matches Some(n) ==> find_cached(models(nodes@), index as nat) == Some(n@),
        r is None ==> find_cached(models(nodes@), index as nat) is None,
{
    let ghost all = models(nodes@);
    assert(all.subrange(0, all.len() as int) =~= all);
    let mut i: usize = 0;
    while i < nodes.len()
        invariant
            i <= nodes@.len(),
            all == models(nodes@),
            find_cached(all, index as nat) == find_cached(all.subrange(i as int, all.len() as int), index as nat),
        decreases nodes@.len() - i,
    {
        let ghost rest = all.subrange(i as int, all.len() as int);
        assert(rest[0] == nodes@[i as int]@);
        assert(rest.drop_first() =~= all.subrange(i + 1, all.len() as int));
        if nodes[i].index == index {
            return Some(&nodes[i]);
        }
        i = i + 1;
    }
    assert(all.subrange(i as int, all.len() as int).len() == 0);
    None
}

/// The four regions of a log, each in a byte store.
pub struct Storage<T: ByteStore> {
    pub tree: T,
    pub data: T,
    pub bitfield: T,
    pub signatures: T,
}

impl<T: ByteStore> Storage<T> {
    /// Both hold the same bytes in every region, and `self` is consistent.
    pub open spec fn same_contents(&self, other: &Self) -> bool {
        &&& self.wf()
        &&& self.tree.bytes() == other.tree.bytes()
        &&& self.data.bytes() == other.data.bytes()
        &&& self.bitfield.bytes() == other.bitfield.bytes()
        &&& self.signatures.bytes() == other.signatures.bytes()
        &&& self.reliable() == other.reliable()
        &&& self.tree.reliable() == other.tree.reliable()
        &&& self.data.reliable() == other.data.reliable()
    }

    /// Every region's store is reliable.
    pub open spec fn reliable(&self) -> bool {
        self.tree.reliable() && self.data.reliable() && self.bitfield.reliable() && self.signatures.reliable()
    }

    /// Every region's store is consistent.
    pub open spec fn wf(&self) -> bool {
        self.tree.inv() && self.data.inv() && self.bitfield.inv() && self.signatures.inv()
    }

    /// Open storage over four stores, writing each header into a store that
    /// is still empty and leaving any other store as it is. The data region
    /// has no header.
    pub fn open(tree: T, data: T, bitfield: T, signatures: T) -> (r: Result<Self, Error>)
        requires
            tree.inv(),
            data.inv(),
            bitfield.inv(),
            signatures.inv(),
        ensures
            r matches Err(e) ==> e == Error::Io,
            (tree.bytes().len() > 0 || tree.reliable()) && (bitfield.bytes().len() > 0 || bitfield.reliable())
                && (signatures.bytes().len() > 0 || signatures.reliable()) ==> r is Ok,
            r matches Ok(s) ==> {
                &&& s.wf()
                &&& s.tree.reliable() == tree.reliable() && s.data.reliable() == data.reliable()
                &&& s.bitfield.reliable() == bitfield.reliable() && s.signatures.reliable() == signatures.reliable()
                &&& s.tree.bytes() == init_region(tree.bytes(), tree_header_spec())
                &&& s.data.bytes() == data.bytes()
                &&& s.bitfield.bytes() == init_region(bitfield.bytes(), bitfield_header_spec())
                &&& s.signatures.bytes() == init_region(signatures.bytes(), signatures_header_spec())
            },
    {
        let mut instance = Storage { tree, data, bitfield, signatures };
        if instance.bitfield.len() == 0 {
            let mut header = bitfield_header();
            header.truncate(HEADER_SIZE);
            instance.bitfield.write(0, header.as_slice())?;
            proof {
                assert(bitfield_header_spec().len() == HEADER_SIZE);
                assert(write_at(bitfield.bytes(), 0, header@) =~= header@);
            }
        }
        if instance.signatures.len() == 0 {
            let mut header = signatures_header();
            header.truncate(HEADER_SIZE);
            instance.signatures.write(0, header.as_slice())?;
            proof {
                assert(signatures_header_spec().len() == HEADER_SIZE);
                assert(write_at(signatures.bytes(), 0, header@) =~= header@);
            }
        }
        if instance.tree.len() == 0 {
            let mut header = tree_header();
            header.truncate(HEADER_SIZE);
            instance.tree.write(0, header.as_slice())?;
            proof {
                assert(tree_header_spec().len() == HEADER_SIZE);
                assert(write_at(tree.bytes(), 0, header@) =~= header@);
            }
        }
        Ok(instance)
    }

    /// Create a new instance from a callback that makes the store of each
    /// region, then open it as [`Storage::open`] does.
    pub fn new<Cb>(create: Cb) -> (r: Result<Self, Error>)
        where
            Cb: Fn(Store) -> T,
        requires
            forall|s: Store| create.requires((s,)),
            forall|s: Store, t: T| create.ensures((s,), t) ==> t.inv(),
        ensures
            r matches Err(e) ==> e == Error::Io,
            (forall|s: Store, t: T|
                s != Store::Data && create.ensures((s,), t) ==> t.bytes().len() > 0 || t.reliable())
                ==> r is Ok,
            (forall|s: Store, t: T| create.ensures((s,), t) ==> t.reliable()) ==> (r matches Ok(st)
                ==> st.reliable()),
            r matches Ok(s) ==> {
                &&& s.wf()
                &&& exists|t: T|
                    create.ensures((Store::Tree,), t) && s.tree.bytes() == init_region(
                        t.bytes(),
                        tree_header_spec(),
                    )
                &&& exists|t: T| create.ensures((Store::Data,), t) && s.data.bytes() == t.bytes()
                &&& exists|t: T|
                    create.ensures((Store::Bitfield,), t) && s.bitfield.bytes() == init_region(
                        t.bytes(),
                        bitfield_header_spec(),
                    )
                &&& exists|t: T|
                    create.ensures((Store::Signatures,), t) && s.signatures.bytes()
                        == init_region(t.bytes(), signatures_header_spec())
            },
    {
        let tree = create(Store::Tree);
        let data = create(Store::Data);
        let bitfield = create(Store::Bitfield);
        let signatures = create(Store::Signatures);
        let r = Self::open(tree, data, bitfield, signatures);
        proof {
            if r is Ok {
                let s = r->Ok_0;
                assert(create.ensures((Store::Tree,), tree) && s.tree.bytes() == init_region(tree.bytes(), tree_header_spec()));
                assert(create.ensures((Store::Data,), data) && s.data.bytes() == data.bytes());
                assert(create.ensures((Store::Bitfield,), bitfield));
                assert(create.ensures((Store::Signatures,), signatures));
            }
            assert(create.ensures((Store::Tree,), tree));
            assert(create.ensures((Store::Bitfield,), bitfield));
            assert(create.ensures((Store::Signatures,), signatures));
            assert(create.ensures((Store::Data,), data));
        }
        r
    }

    /// Write data to the data region.
    pub fn write_data(&mut self, offset: usize, data: &[u8]) -> (r: Result<(), Error>)
        requires
            old(self).wf(),
            offset + data@.len() <= usize::MAX,
        ensures
            old(self).data.reliable() ==> r is Ok,
            final(self).reliable() == old(self).reliable(),
            final(self).tree.reliable() == old(self).tree.reliable(),
            final(self).data.reliable() == old(self).data.reliable(),
            final(self).wf(),
            final(self).tree == old(self).tree,
            final(self).bitfield == old(self).bitfield,
            final(self).signatures == old(self).signatures,
            r is Ok ==> final(self).data.bytes() == write_at(old(self).data.bytes(), offset as nat, data@),
    {
        self.data.write(offset, data)
    }

    /// Write a node's record to the tree region.
    pub fn put_node(&mut self, node: &Node) -> (r: Result<(), Error>)
        requires
            old(self).wf(),
            node.hash@.len() == HASH_SIZE,
            node_record_offset(node.index as nat) + NODE_RECORD_SIZE <= usize::MAX,
        ensures
            old(self).tree.reliable() ==> r is Ok,
            final(self).reliable() == old(self).reliable(),
            final(self).tree.reliable() == old(self).tree.reliable(),
            final(self).data.reliable() == old(self).data.reliable(),
            final(self).wf(),
            final(self).data == old(self).data,
            final(self).bitfield == old(self).bitfield,
            final(self).signatures == old(self).signatures,
            r is Ok ==> final(self).tree.bytes() == write_at(
                old(self).tree.bytes(),
                node_record_offset(node.index as nat),
                encode_node(node@),
            ),
    {
        let buf = node.to_vec();
        self.tree.write(HEADER_SIZE + NODE_RECORD_SIZE * node.index, buf.as_slice())
    }

    /// Write the records of `nodes` to the tree region, in order.
    pub fn put_nodes(&mut self, nodes: &[Node]) -> (r: Result<(), Error>)
        requires
            old(self).wf(),
            forall|k: int|
                0 <= k < nodes@.len() ==> (#[trigger] nodes@[k]).hash@.len() == HASH_SIZE && node_record_offset(
                    nodes@[k].index as nat,
                ) + NODE_RECORD_SIZE <= usize::MAX,
            forall|j: int, k: int| 0 <= j < k < nodes@.len() ==> nodes@[j].index != nodes@[k].index,
        ensures
            final(self).wf(),
            final(self).data.bytes() == old(self).data.bytes(),
            final(self).bitfield.bytes() == old(self).bitfield.bytes(),
            final(self).signatures.bytes() == old(self).signatures.bytes(),
            final(self).reliable() == old(self).reliable(),
            final(self).tree.reliable() == old(self).tree.reliable(),
            final(self).data.reliable() == old(self).data.reliable(),
            old(self).tree.reliable() ==> r is Ok,
            r is Ok ==> forall|k: int|
                0 <= k < nodes@.len() ==> stored_node(final(self).tree.bytes(), (#[trigger] nodes@[k]).index as nat)
                    == Some(nodes@[k]@),
            r is Ok ==> forall|idx: nat|
                (forall|k: int| 0 <= k < nodes@.len() ==> nodes@[k].index != idx) && (#[trigger] stored_node(
                    old(self).tree.bytes(),
                    idx,
                )) is Some ==> stored_node(final(self).tree.bytes(), idx) == stored_node(old(self).tree.bytes(), idx),
    {
        let ghost tree0 = self.tree.bytes();
        let mut i: usize = 0;
        while i < nodes.len()
            invariant
                self.wf(),
                i <= nodes@.len(),
                tree0 == old(self).tree.bytes(),
                self.data.bytes() == old(self).data.bytes(),
                self.bitfield.bytes() == old(self).bitfield.bytes(),
                self.signatures.bytes() == old(self).signatures.bytes(),
                self.reliable() == old(self).reliable(),
                self.tree.reliable() == old(self).tree.reliable(),
                self.data.reliable() == old(self).data.reliable(),
                forall|k: int|
                    0 <= k < nodes@.len() ==> (#[trigger] nodes@[k]).hash@.len() == HASH_SIZE && node_record_offset(
                        nodes@[k].index as nat,
                    ) + NODE_RECORD_SIZE <= usize::MAX,
                forall|j: int, k: int| 0 <= j < k < nodes@.len() ==> nodes@[j].index != nodes@[k].index,
                forall|j: int| 0 <= j < i ==> stored_node(self.tree.bytes(), (#[trigger] nodes@[j]).index as nat)
                    == Some(nodes@[j]@),
                forall|idx: nat|
                    (forall|k: int| 0 <= k < nodes@.len() ==> nodes@[k].index != idx) && (#[trigger] stored_node(
                        tree0,
                        idx,
                    )) is Some ==> stored_node(self.tree.bytes(), idx) == stored_node(tree0, idx),
            decreases nodes@.len() - i,
        {
            let ghost before = self.tree.bytes();
            assert(nodes@[i as int].hash@.len() == HASH_SIZE);
            self.put_node(&nodes[i])?;
            proof {
                let n = nodes@[i as int]@;
                lemma_node_round_trip(before, n);
                assert forall|j: int| 0 <= j < i + 1 implies stored_node(self.tree.bytes(), (#[trigger] nodes@[j]).index as nat)
                    == Some(nodes@[j]@) by {
                    if j < i {
                        lemma_other_node_kept(before, n, nodes@[j].index as nat);
                    }
                }
                assert forall|idx: nat|
                    (forall|k: int| 0 <= k < nodes@.len() ==> nodes@[k].index != idx) && (#[trigger] stored_node(
                        tree0,
                        idx,
                    )) is Some implies stored_node(self.tree.bytes(), idx) == stored_node(tree0, idx) by {
                    assert(nodes@[i as int].index != idx);
                    lemma_other_node_kept(before, n, idx);
                }
            }
            i = i + 1;
        }
        Ok(())
    }

    /// Read a node back from the tree region.
    pub fn get_node(&mut self, index: usize) -> (r: Result<Node, Error>)
        requires
            old(self).wf(),
            node_record_offset(index as nat) + NODE_RECORD_SIZE <= usize::MAX,
        ensures
            final(self).same_contents(old(self)),
            stored_node(old(self).tree.bytes(), index as nat) is None ==> r == Err::<Node, Error>(
                Error::NotFound { index },
            ),
            r matches Ok(n) ==> stored_node(old(self).tree.bytes(), index as nat) == Some(n@),
            old(self).tree.reliable() && (stored_node(old(self).tree.bytes(), index as nat) matches Some(n)
                && n.length <= usize::MAX) ==> r is Ok,
            r matches Err(e) ==> e == Error::Io || e == Error::Decode || (e == Error::NotFound {
                index,
            } && stored_node(old(self).tree.bytes(), index as nat) is None),
    {
        let off = HEADER_SIZE + NODE_RECORD_SIZE * index;
        if off + NODE_RECORD_SIZE > self.tree.len() {
            return Err(Error::NotFound { index });
        }
        let buf = self.tree.read(off, NODE_RECORD_SIZE)?;
        Node::from_vec(index, buf.as_slice())
    }

    /// Length of the node at `index`, from `cached` when it holds that node,
    /// else from the tree region.
    fn node_len(&mut self, cached: &[Node], index: usize) -> (r: Result<usize, Error>)
        requires
            old(self).wf(),
            node_record_offset(index as nat) + NODE_RECORD_SIZE <= usize::MAX,
        ensures
            final(self).same_contents(old(self)),
            r matches Ok(l) ==> node_length(models(cached@), old(self).tree.bytes(), index as nat)
                == Some(l as nat),
            node_length(models(cached@), old(self).tree.bytes(), index as nat) is None ==> r is Err,
            r matches Err(Error::NotFound { index: k }) ==> k == index && find_cached(
                models(cached@),
                index as nat,
            ) is None && stored_node(old(self).tree.bytes(), index as nat) is None,
            find_cached(models(cached@), index as nat) is Some ==> r is Ok,
            old(self).tree.reliable() && node_length(models(cached@), old(self).tree.bytes(), index as nat)
                is Some ==> r is Ok,
            find_cached(models(cached@), index as nat) is None && stored_node(old(self).tree.bytes(), index as nat)
                is None ==> r == Err::<usize, Error>(Error::NotFound { index }),
            r matches Err(e) ==> (e == Error::Io || e == Error::Decode || e == Error::NotFound { index }),
    {
        match find_node(cached, index) {
            Some(node) => Ok(node.length),
            None => {
                let node = self.get_node(index)?;
                Ok(node.length)
            },
        }
    }

    /// Offset and length of block `index` in the data region: the lengths of
    /// the full roots before the block, and of its leaf, taken from `cached`
    /// where it holds them and from the tree region otherwise.
    pub fn data_offset(&mut self, index: usize, cached: &[Node]) -> (r: Result<DataOffset, Error>)
        requires
            old(self).wf(),
            block_addressable(index as nat),
        ensures
            final(self).same_contents(old(self)),
            r matches Ok(d) ==> block_location(models(cached@), old(self).tree.bytes(), index as nat)
                == Some((d.offset as nat, d.length as nat)),
            block_location(models(cached@), old(self).tree.bytes(), index as nat) is None ==> r is Err,
            r matches Err(e) ==> e == Error::Io || e == Error::Decode || e == Error::Corrupt || e is NotFound,
            r matches Err(Error::NotFound { index: k }) ==> find_cached(models(cached@), k as nat)
                is None && stored_node(old(self).tree.bytes(), k as nat) is None,
            (old(self).tree.reliable() || (all_cached(models(cached@), full_roots_spec(2 * index as nat))
                && find_cached(models(cached@), 2 * index as nat) is Some)) && (block_location(
                models(cached@),
                old(self).tree.bytes(),
                index as nat,
            ) matches Some((o, l)) && o <= usize::MAX) ==> r is Ok,
            r == Err::<DataOffset, Error>(Error::Corrupt) ==> !(block_location(
                models(cached@),
                old(self).tree.bytes(),
                index as nat,
            ) matches Some((o, l)) && o <= usize::MAX),
            (old(self).tree.reliable() || all_cached(models(cached@), full_roots_spec(2 * index as nat)))
                && (lengths_sum(models(cached@), old(self).tree.bytes(), full_roots_spec(2 * index as nat))
                matches Some(o) && o <= usize::MAX) && find_cached(models(cached@), 2 * index as nat) is None
                && stored_node(old(self).tree.bytes(), 2 * index as nat) is None ==> r
                == Err::<DataOffset, Error>(Error::NotFound { index: (2 * index) as usize }),
            forall|i0: int|
                #[trigger] first_missing_root(
                    models(cached@),
                    old(self).tree.bytes(),
                    full_roots_spec(2 * index as nat),
                    i0,
                    old(self).tree.reliable(),
                ) ==> r == Err::<DataOffset, Error>(
                    Error::NotFound { index: full_roots_spec(2 * index as nat)[i0] as usize },
                ),
    {
        let ghost cache = models(cached@);
        let ghost tree = self.tree.bytes();
        let blk = 2 * index;
        let roots = full_roots(blk);
        let ghost spec_roots = full_roots_spec(blk as nat);
        proof {
            lemma_roots_below(0, index as nat);
        }
        let mut offset: usize = 0;
        let mut i: usize = 0;
        while i < roots.len()
            invariant
                self.same_contents(old(self)),
                self.wf(),
                cache == models(cached@),
                tree == self.tree.bytes(),
                blk == 2 * index,
                block_addressable(index as nat),
                spec_roots == full_roots_spec(blk as nat),
                spec_roots == crate::tree::roots_from(0, index as nat),
                roots@.len() == spec_roots.len(),
                forall|j: int| 0 <= j < roots@.len() ==> roots@[j] as nat == spec_roots[j],
                forall|j: int| 0 <= j < spec_roots.len() ==> spec_roots[j] < 2 * index,
                i <= roots@.len(),
                lengths_sum(cache, tree, spec_roots.subrange(0, i as int)) == Some(offset as nat),
                self.tree.reliable() == old(self).tree.reliable(),
                forall|i0: int|
                    #[trigger] first_missing_root(cache, tree, spec_roots, i0, old(self).tree.reliable()) ==> i0 >= i,
            decreases roots@.len() - i,
        {
            let root = roots[i];
            assert(roots@[i as int] as nat == spec_roots[i as int]);
            assert(root < 2 * index);
            proof {
                if lengths_sum(cache, tree, spec_roots) is Some {
                    lemma_prefix_sum(cache, tree, spec_roots, i + 1);
                    lemma_prefix_sum(cache, tree, spec_roots, i as int);
                }
                if all_cached(cache, spec_roots) {
                    assert(find_cached(cache, spec_roots[i as int]) is Some);
                }
            }
            let ghost rel = old(self).tree.reliable();
            let len_r = self.node_len(cached, root);
            proof {
                assert forall|i0: int| first_missing_root(cache, tree, spec_roots, i0, rel) implies (len_r is Err
                    ==> len_r == Err::<usize, Error>(Error::NotFound { index: spec_roots[i0] as usize })) by {
                    if i0 == i {
                        assert(spec_roots[i0] as usize == root);
                    }
                    if i0 > i {
                        lemma_before_missing_root(cache, tree, spec_roots, i as int, i0, rel);
                    }
                }
            }
            let len = len_r?;
            proof {
                assert forall|i0: int| first_missing_root(cache, tree, spec_roots, i0, rel) implies i0 > i by {
                    if i0 == i {
                        assert(node_length(cache, tree, spec_roots[i0]) is Some);
                    }
                }
                let pre = spec_roots.subrange(0, i + 1);
                assert(pre.drop_last() =~= spec_roots.subrange(0, i as int));
                assert(pre.last() == root as nat);
            }
            if len > usize::MAX - offset {
                proof {
                    assert forall|i0: int| first_missing_root(cache, tree, spec_roots, i0, rel) implies false by {
                        lemma_before_missing_root(cache, tree, spec_roots, i as int, i0, rel);
                    }
                }
                return Err(Error::Corrupt);
            }
            offset = offset + len;
            i = i + 1;
        }
        assert(spec_roots.subrange(0, i as int) =~= spec_roots);
        let length = self.node_len(cached, blk)?;
        Ok(DataOffset::new(offset, length))
    }

    /// Read block `index` from the data region, locating it through the tree
    /// region alone.
    pub fn get_data(&mut self, index: usize) -> (r: Result<Vec<u8>, Error>)
        requires
            old(self).wf(),
            block_addressable(index as nat),
        ensures
            final(self).same_contents(old(self)),
            r matches Ok(v) ==> {
                &&& block_location(Seq::empty(), old(self).tree.bytes(), index as nat) matches Some((o, l))
                &&& o + l <= old(self).data.bytes().len()
                &&& v@ == old(self).data.bytes().subrange(o as int, (o + l) as int)
            },
            block_location(Seq::empty(), old(self).tree.bytes(), index as nat) is None ==> r is Err,
            r matches Err(Error::NotFound { index: k }) ==> stored_node(old(self).tree.bytes(), k as nat) is None,
            stored_node(old(self).tree.bytes(), 2 * index as nat) is None ==> r is Err,
            old(self).tree.reliable() && old(self).data.reliable() && (block_location(
                Seq::empty(),
                old(self).tree.bytes(),
                index as nat,
            ) matches Some((o, l)) && o + l <= usize::MAX && o + l <= old(self).data.bytes().len()) ==> r is Ok,
            (old(self).tree.reliable() || index == 0) && (lengths_sum(
                Seq::empty(),
                old(self).tree.bytes(),
                full_roots_spec(2 * index as nat),
            ) matches Some(o) && o <= usize::MAX) && stored_node(old(self).tree.bytes(), 2 * index as nat)
                is None ==> r == Err::<Vec<u8>, Error>(Error::NotFound { index: (2 * index) as usize }),
    {
        let cached_nodes: Vec<Node> = Vec::new();
        assert(models(cached_nodes@) =~= Seq::<NodeModel>::empty());
        proof {
            if index == 0 {
                assert(full_roots_spec(0) =~= Seq::<nat>::empty());
            }
            assert(find_cached(Seq::<NodeModel>::empty(), 2 * index as nat) is None);
        }
        let offset = self.data_offset(index, cached_nodes.as_slice())?;
        if offset.length > usize::MAX - offset.offset {
            return Err(Error::Corrupt);
        }
        self.data.read(offset.offset, offset.length)
    }

    /// Write block `index` to the data region at the place its tree nodes
    /// give it, taking lengths from `nodes` first. An empty block writes
    /// nothing; a block whose length differs from its leaf's is refused and
    /// nothing is written.
    pub fn put_data(&mut self, index: usize, data: &[u8], nodes: &[Node]) -> (r: Result<(), Error>)
        requires
            old(self).wf(),
            block_addressable(index as nat),
        ensures
            final(self).reliable() == old(self).reliable(),
            final(self).tree.reliable() == old(self).tree.reliable(),
            final(self).data.reliable() == old(self).data.reliable(),
            final(self).wf(),
            final(self).tree.bytes() == old(self).tree.bytes(),
            final(self).bitfield.bytes() == old(self).bitfield.bytes(),
            final(self).signatures.bytes() == old(self).signatures.bytes(),
            data@.len() == 0 ==> r is Ok && final(self).same_contents(old(self)),
            data@.len() > 0 && r is Ok ==> {
                &&& block_location(models(nodes@), old(self).tree.bytes(), index as nat) matches Some((o, l))
                &&& l == data@.len()
                &&& final(self).data.bytes() == write_at(old(self).data.bytes(), o, data@)
            },
            data@.len() > 0 && block_location(models(nodes@), old(self).tree.bytes(), index as nat) is None
                ==> r is Err,
            data@.len() > 0 && (block_location(models(nodes@), old(self).tree.bytes(), index as nat) matches Some((o, l))
                && l != data@.len()) ==> r is Err,
            data@.len() > 0 && (old(self).tree.reliable() || (all_cached(models(nodes@), full_roots_spec(2 * index as nat))
                && find_cached(models(nodes@), 2 * index as nat) is Some)) && (block_location(
                models(nodes@),
                old(self).tree.bytes(),
                index as nat,
            ) matches Some((o, l)) && o <= usize::MAX && l != data@.len()) ==> r == Err::<(), Error>(
                Error::LengthMismatch {
                    expected: block_location(models(nodes@), old(self).tree.bytes(), index as nat)->Some_0.1 as usize,
                    actual: data@.len() as usize,
                },
            ),
            data@.len() > 0 && old(self).tree.reliable() && old(self).data.reliable() && (block_location(
                models(nodes@),
                old(self).tree.bytes(),
                index as nat,
            ) matches Some((o, l)) && o + l <= usize::MAX && l == data@.len()) ==> r is Ok,
            r is Err && !(block_location(models(nodes@), old(self).tree.bytes(), index as nat) matches Some((o, l))
                && l == data@.len()) ==> final(self).same_contents(old(self)),
            r matches Err(e) && e != Error::Io ==> final(self).same_contents(old(self)),
            r matches Err(Error::LengthMismatch { expected, actual }) ==> {
                &&& block_location(models(nodes@), old(self).tree.bytes(), index as nat) matches Some((o, l))
                &&& l == expected && actual == data@.len() && expected != actual
                &&& final(self).same_contents(old(self))
            },
    {
        if data.len() == 0 {
            return Ok(());
        }
        let offset = self.data_offset(index, nodes)?;
        if offset.length != data.len() {
            return Err(Error::LengthMismatch { expected: offset.length, actual: data.len() });
        }
        if offset.length > usize::MAX - offset.offset {
            return Err(Error::Corrupt);
        }
        self.data.write(offset.offset, data)
    }

    /// Write the signature of block `index` to the signature region.
    pub fn put_signature(&mut self, index: usize, signature: &[u8; 64]) -> (r: Result<(), Error>)
        requires
            old(self).wf(),
            signature_offset(index as nat) + SIGNATURE_SIZE <= usize::MAX,
        ensures
            old(self).signatures.reliable() ==> r is Ok,
            final(self).reliable() == old(self).reliable(),
            final(self).tree.reliable() == old(self).tree.reliable(),
            final(self).data.reliable() == old(self).data.reliable(),
            final(self).wf(),
            final(self).tree == old(self).tree,
            final(self).data == old(self).data,
            final(self).bitfield == old(self).bitfield,
            r is Ok ==> final(self).signatures.bytes() == write_at(
                old(self).signatures.bytes(),
                signature_offset(index as nat),
                signature@,
            ),
    {
        let bytes = vstd::array::array_as_slice(signature);
        self.signatures.write(HEADER_SIZE + SIGNATURE_SIZE * index, bytes)
    }

    /// Read the signature of block `index` from the signature region.
    pub fn get_signature(&mut self, index: usize) -> (r: Result<Vec<u8>, Error>)
        requires
            old(self).wf(),
            signature_offset(index as nat) + SIGNATURE_SIZE <= usize::MAX,
        ensures
            final(self).same_contents(old(self)),
            signature_offset(index as nat) + SIGNATURE_SIZE > old(self).signatures.bytes().len() ==> r is Err,
            old(self).signatures.reliable() && signature_offset(index as nat) + SIGNATURE_SIZE
                <= old(self).signatures.bytes().len() ==> r is Ok,
            r matches Ok(v) ==> v@ == old(self).signatures.bytes().subrange(
                signature_offset(index as nat) as int,
                signature_offset(index as nat) + SIGNATURE_SIZE,
            ),
    {
        self.signatures.read(HEADER_SIZE + SIGNATURE_SIZE * index, SIGNATURE_SIZE)
    }

    /// Write raw bytes into the bitfield region, after its header.
    pub fn put_bitfield(&mut self, offset: usize, data: &[u8]) -> (r: Result<(), Error>)
        requires
            old(self).wf(),
            HEADER_SIZE + offset + data@.len() <= usize::MAX,
        ensures
            old(self).bitfield.reliable() ==> r is Ok,
            final(self).reliable() == old(self).reliable(),
            final(self).tree.reliable() == old(self).tree.reliable(),
            final(self).data.reliable() == old(self).data.reliable(),
            final(self).wf(),
            final(self).tree == old(self).tree,
            final(self).data == old(self).data,
            final(self).signatures == old(self).signatures,
            r is Ok ==> final(self).bitfield.bytes() == write_at(
                old(self).bitfield.bytes(),
                (HEADER_SIZE + offset) as nat,
                data@,
            ),
    {
        self.bitfield.write(HEADER_SIZE + offset, data)
    }
}

} // verus!
