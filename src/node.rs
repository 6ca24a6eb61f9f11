//! Tree nodes and their fixed-size record encoding.
use crate::error::Error;
use vstd::prelude::*;

verus! {

/// Size in bytes of a node's digest.
pub const HASH_SIZE: usize = 32;

/// Size in bytes of a node record in the tree region: an 8-byte big-endian
/// length followed by the digest.
pub const NODE_RECORD_SIZE: usize = 40;

/// A vertex of the Merkle tree: its flat-tree position, the number of data
/// bytes under it and its digest.
pub struct Node {
    pub index: usize,
    pub length: usize,
    pub hash: Vec<u8>,
}

/// Mathematical value of a [`Node`].
pub struct NodeModel {
    pub index: nat,
    pub length: nat,
    pub hash: Seq<u8>,
}

impl View for Node {
    type V = NodeModel;

    open spec fn view(&self) -> NodeModel {
        NodeModel { index: self.index as nat, length: self.length as nat, hash: self.hash@ }
    }
}

/// Big-endian bytes of a 64-bit integer.
pub open spec fn be_bytes(v: u64) -> Seq<u8> {
    seq![
        (v >> 56u64) as u8,
        (v >> 48u64) as u8,
        (v >> 40u64) as u8,
        (v >> 32u64) as u8,
        (v >> 24u64) as u8,
        (v >> 16u64) as u8,
        (v >> 8u64) as u8,
        v as u8,
    ]
}

/// The integer whose big-endian bytes are the first eight of `b`.
pub open spec fn from_be_bytes(b: Seq<u8>) -> u64 {
    ((b[0] as u64) << 56u64) | ((b[1] as u64) << 48u64) | ((b[2] as u64) << 40u64) | ((
    b[3] as u64) << 32u64) | ((b[4] as u64) << 24u64) | ((b[5] as u64) << 16u64) | ((b[6] as u64)
        << 8u64) | (b[7] as u64)
}

/// The record stored for a node: its length, big-endian, then its digest.
pub open spec fn encode_node(n: NodeModel) -> Seq<u8> {
    be_bytes(n.length as u64) + n.hash
}

/// The node that a record read back from position `index` stands for.
pub open spec fn decode_node(index: nat, record: Seq<u8>) -> NodeModel {
    NodeModel {
        index,
        length: from_be_bytes(record) as nat,
        hash: record.subrange(8, record.len() as int),
    }
}

/// A node whose record can be written: its digest has the fixed size.
pub open spec fn node_encodable(n: NodeModel) -> bool {
    n.hash.len() == HASH_SIZE && n.length <= usize::MAX
}

pub proof fn lemma_be_round_trip(v: u64)
    ensures
        from_be_bytes(be_bytes(v)) == v,
{
    let b = be_bytes(v);
    assert(b[0] == (v >> 56u64) as u8 && b[1] == (v >> 48u64) as u8 && b[2] == (v >> 40u64) as u8
        && b[3] == (v >> 32u64) as u8 && b[4] == (v >> 24u64) as u8 && b[5] == (v >> 16u64) as u8
        && b[6] == (v >> 8u64) as u8 && b[7] == v as u8);
    assert(((((v >> 56u64) as u8) as u64) << 56u64) | ((((v >> 48u64) as u8) as u64) << 48u64) | ((
    ((v >> 40u64) as u8) as u64) << 40u64) | ((((v >> 32u64) as u8) as u64) << 32u64) | ((((v
        >> 24u64) as u8) as u64) << 24u64) | ((((v >> 16u64) as u8) as u64) << 16u64) | ((((v
        >> 8u64) as u8) as u64) << 8u64) | ((v as u8) as u64) == v) by (bit_vector);
}

/// Decoding the record of a node gives the node back.
pub proof fn lemma_node_codec_round_trip(n: NodeModel)
    requires
        node_encodable(n),
    ensures
        encode_node(n).len() == NODE_RECORD_SIZE,
        decode_node(n.index, encode_node(n)) == n,
{
    let rec = encode_node(n);
    lemma_be_round_trip(n.length as u64);
    assert(rec.subrange(0, 8) =~= be_bytes(n.length as u64));
    assert(rec.subrange(8, 40) =~= n.hash);
    assert(from_be_bytes(rec) == from_be_bytes(be_bytes(n.length as u64)));
}

impl Node {
    /// Create a node.
    pub fn new(index: usize, length: usize, hash: Vec<u8>) -> (r: Node)
        ensures
            r.index == index,
            r.length == length,
            r.hash@ == hash@,
    {
        Node { index, length, hash }
    }

    /// Flat-tree index of the node.
    pub fn index(&self) -> (r: usize)
        ensures
            r == self.index,
    {
        self.index
    }

    /// Number of data bytes under the node.
    pub fn len(&self) -> (r: usize)
        ensures
            r == self.length,
    {
        self.length
    }

    /// Whether no data bytes lie under the node.
    pub fn is_empty(&self) -> (r: bool)
        ensures
            r == (self.length == 0),
    {
        self.length == 0
    }

    /// A copy of the node.
    pub fn duplicate(&self) -> (r: Node)
        ensures
            r@ == self@,
    {
        let mut hash: Vec<u8> = Vec::new();
        let mut i: usize = 0;
        while i < self.hash.len()
            invariant
                i <= self.hash@.len(),
                hash@ == self.hash@.subrange(0, i as int),
            decreases self.hash@.len() - i,
        {
            hash.push(self.hash[i]);
            i = i + 1;
        }
        assert(hash@ =~= self.hash@);
        Node { index: self.index, length: self.length, hash }
    }

    /// The fixed-size record stored for the node in the tree region.
    pub fn to_vec(&self) -> (r: Vec<u8>)
        requires
            self.hash@.len() == HASH_SIZE,
        ensures
            r@ == encode_node(self@),
            r@.len() == NODE_RECORD_SIZE,
    {
        let v = self.length as u64;
        let mut buf: Vec<u8> = Vec::new();
        buf.push((v >> 56u64) as u8);
        buf.push((v >> 48u64) as u8);
        buf.push((v >> 40u64) as u8);
        buf.push((v >> 32u64) as u8);
        buf.push((v >> 24u64) as u8);
        buf.push((v >> 16u64) as u8);
        buf.push((v >> 8u64) as u8);
        buf.push(v as u8);
        assert(buf@ =~= be_bytes(v));
        let mut i: usize = 0;
        while i < self.hash.len()
            invariant
                i <= self.hash@.len(),
                buf@ == be_bytes(v) + self.hash@.subrange(0, i as int),
            decreases self.hash@.len() - i,
        {
            buf.push(self.hash[i]);
            i = i + 1;
            assert(buf@ =~= be_bytes(v) + self.hash@.subrange(0, i as int));
        }
        assert(self.hash@.subrange(0, i as int) =~= self.hash@);
        buf
    }

    /// Read a node back from the record stored for position `index`.
    pub fn from_vec(index: usize, buf: &[u8]) -> (r: Result<Node, Error>)
        ensures
            r is Ok <==> (buf@.len() == NODE_RECORD_SIZE && from_be_bytes(buf@) <= usize::MAX),
            r matches Ok(n) ==> n@ == decode_node(index as nat, buf@),
            r matches Err(e) ==> e == Error::Decode,
    {
        if buf.len() != NODE_RECORD_SIZE {
            return Err(Error::Decode);
        }
        let v: u64 = ((buf[0] as u64) << 56u64) | ((buf[1] as u64) << 48u64) | ((buf[2] as u64)
            << 40u64) | ((buf[3] as u64) << 32u64) | ((buf[4] as u64) << 24u64) | ((buf[5] as u64)
            << 16u64) | ((buf[6] as u64) << 8u64) | (buf[7] as u64);
        if v > usize::MAX as u64 {
            return Err(Error::Decode);
        }
        let mut hash: Vec<u8> = Vec::new();
        let mut i: usize = 8;
        while i < NODE_RECORD_SIZE
            invariant
                8 <= i <= NODE_RECORD_SIZE,
                buf@.len() == NODE_RECORD_SIZE,
                hash@ == buf@.subrange(8, i as int),
            decreases NODE_RECORD_SIZE - i,
        {
            hash.push(buf[i]);
            i = i + 1;
            assert(hash@ =~= buf@.subrange(8, i as int));
        }
        Ok(Node { index, length: v as usize, hash })
    }
}

} // verus!
