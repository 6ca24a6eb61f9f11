use hypercore::merkle::Merkle;
use hypercore::storage::DataOffset;
use hypercore::{ByteStore, Error, MemoryStore, Node, Storage};

fn memory_storage() -> Storage<MemoryStore> {
    Storage::open(MemoryStore::new(), MemoryStore::new(), MemoryStore::new(), MemoryStore::new()).unwrap()
}

fn header(file_type: u8, entry_size: u16, name: &[u8]) -> Vec<u8> {
    let mut h = vec![5, 2, 87, file_type, 0, (entry_size >> 8) as u8, entry_size as u8, name.len() as u8];
    h.extend_from_slice(name);
    h.resize(32, 0);
    h
}

#[test]
fn open_writes_headers() {
    let mut storage = memory_storage();
    assert_eq!(storage.tree.len(), 32);
    assert_eq!(storage.bitfield.len(), 32);
    assert_eq!(storage.signatures.len(), 32);
    assert_eq!(storage.data.len(), 0);
    assert_eq!(storage.tree.read(0, 32).unwrap(), header(2, 40, b"BLAKE2b"));
    assert_eq!(storage.signatures.read(0, 32).unwrap(), header(1, 64, b"Ed25519"));
    assert_eq!(storage.bitfield.read(0, 32).unwrap(), header(0, 3328, b""));
}

#[test]
fn new_with_callback_writes_headers() {
    let storage: Storage<MemoryStore> = Storage::new(|_| MemoryStore::new()).unwrap();
    assert_eq!(storage.tree.len(), 32);
    assert_eq!(storage.data.len(), 0);
}

#[test]
fn reopening_keeps_headers_and_records() {
    let mut storage = memory_storage();
    let node = Node::new(2, 5, vec![7u8; 32]);
    storage.put_node(&node).unwrap();
    let Storage { tree, data, bitfield, signatures } = storage;
    let mut again = Storage::open(tree, data, bitfield, signatures).unwrap();
    assert_eq!(again.tree.len(), 32 + 40 * 3);
    assert_eq!(again.bitfield.len(), 32);
    assert_eq!(again.tree.read(0, 32).unwrap(), header(2, 40, b"BLAKE2b"));
    let back = again.get_node(2).unwrap();
    assert_eq!(back.len(), 5);
}

#[test]
fn put_node_then_get_node() {
    let mut storage = memory_storage();
    let node = Node::new(3, 1234, (100u8..132).collect());
    storage.put_node(&node).unwrap();
    let back = storage.get_node(3).unwrap();
    assert_eq!(back.index(), 3);
    assert_eq!(back.len(), 1234);
    assert_eq!(back.hash, node.hash);
}

#[test]
fn get_node_past_the_end_is_not_found() {
    let mut storage = memory_storage();
    assert!(matches!(storage.get_node(0), Err(Error::NotFound { index: 0 })));
    storage.put_node(&Node::new(0, 1, vec![0u8; 32])).unwrap();
    assert!(matches!(storage.get_node(1), Err(Error::NotFound { index: 1 })));
}

#[test]
fn put_data_then_get_data() {
    let mut storage = memory_storage();
    let mut merkle = Merkle::new();
    let blocks: [&[u8]; 3] = [b"hello", b"big", b"world!"];
    for (i, block) in blocks.iter().enumerate() {
        let nodes = merkle.next(block);
        storage.put_data(i, block, &nodes).unwrap();
        for node in &nodes {
            storage.put_node(node).unwrap();
        }
    }
    for (i, block) in blocks.iter().enumerate() {
        assert_eq!(storage.get_data(i).unwrap(), block.to_vec());
    }
    assert_eq!(storage.data.len(), 14);
}

#[test]
fn put_data_with_wrong_length_writes_nothing() {
    let mut storage = memory_storage();
    let mut merkle = Merkle::new();
    let nodes = merkle.next(b"abc");
    let r = storage.put_data(0, b"ab", &nodes);
    assert!(matches!(r, Err(Error::LengthMismatch { expected: 3, actual: 2 })));
    assert_eq!(storage.data.len(), 0);
}

#[test]
fn put_data_of_empty_block_writes_nothing() {
    let mut storage = memory_storage();
    assert!(storage.put_data(7, b"", &[]).is_ok());
    assert_eq!(storage.data.len(), 0);
}

#[test]
fn get_data_past_committed_blocks_is_not_found() {
    let mut storage = memory_storage();
    let mut merkle = Merkle::new();
    let nodes = merkle.next(b"abc");
    storage.put_data(0, b"abc", &nodes).unwrap();
    for node in &nodes {
        storage.put_node(node).unwrap();
    }
    assert!(matches!(storage.get_data(1), Err(Error::NotFound { .. })));
    assert!(matches!(storage.get_data(4), Err(Error::NotFound { .. })));
}

#[test]
fn data_offset_uses_cached_nodes() {
    let mut storage = memory_storage();
    let mut merkle = Merkle::new();
    let nodes = merkle.next(b"abcd");
    let d = storage.data_offset(0, &nodes).unwrap();
    assert_eq!((d.offset(), d.len()), (0, 4));
    assert!(matches!(storage.data_offset(0, &[]), Err(Error::NotFound { index: 0 })));
}

#[test]
fn data_offset_accessors() {
    let d = DataOffset::new(3, 0);
    assert_eq!(d.offset(), 3);
    assert_eq!(d.len(), 0);
    assert!(d.is_empty());
    assert!(!DataOffset::new(0, 2).is_empty());
}

#[test]
fn signatures_and_bitfield_are_placed_after_header() {
    let mut storage = memory_storage();
    let sig = [9u8; 64];
    storage.put_signature(2, &sig).unwrap();
    assert_eq!(storage.signatures.len(), 32 + 64 * 3);
    assert_eq!(storage.signatures.read(32 + 128, 64).unwrap(), sig.to_vec());
    assert_eq!(storage.signatures.read(32, 64).unwrap(), vec![0u8; 64]);
    assert_eq!(storage.get_signature(2).unwrap(), sig.to_vec());
    assert_eq!(storage.get_signature(0).unwrap(), vec![0u8; 64]);
    assert!(storage.get_signature(3).is_err());
    storage.put_bitfield(4, &[1, 2, 3]).unwrap();
    assert_eq!(storage.bitfield.read(36, 3).unwrap(), vec![1, 2, 3]);
    storage.write_data(2, b"xy").unwrap();
    assert_eq!(storage.data.read(0, 4).unwrap(), vec![0, 0, b'x', b'y']);
}

#[test]
fn memory_store_reads_fail_past_the_end() {
    let mut store = MemoryStore::new();
    assert!(store.read(0, 1).is_err());
    store.write(3, b"ab").unwrap();
    assert_eq!(store.len(), 5);
    assert_eq!(store.read(0, 5).unwrap(), vec![0, 0, 0, b'a', b'b']);
    assert!(matches!(store.read(4, 2), Err(Error::Io)));
}

#[test]
fn lengths_past_the_address_space_are_corrupt() {
    let mut storage = memory_storage();
    storage.put_node(&Node::new(0, usize::MAX, vec![0u8; 32])).unwrap();
    storage.put_node(&Node::new(2, 1, vec![0u8; 32])).unwrap();
    let d = storage.data_offset(1, &[]).unwrap();
    assert_eq!((d.offset(), d.len()), (usize::MAX, 1));
    assert!(matches!(storage.get_data(1), Err(Error::Corrupt)));
    storage.put_node(&Node::new(4, 1, vec![0u8; 32])).unwrap();
    storage.put_node(&Node::new(1, usize::MAX, vec![0u8; 32])).unwrap();
    let small = vec![Node::new(1, 5, vec![0u8; 32]), Node::new(4, 1, vec![0u8; 32])];
    assert!(matches!(storage.data_offset(3, &small), Err(Error::NotFound { index: 6 })));
    let d = storage.data_offset(2, &small).unwrap();
    assert_eq!((d.offset(), d.len()), (5, 1));
    assert!(matches!(storage.data_offset(3, &[]), Err(Error::Corrupt)));
}

#[test]
fn missing_full_root_is_not_found() {
    let mut storage = memory_storage();
    let leaf = vec![Node::new(2, 2, vec![0u8; 32])];
    assert!(matches!(storage.data_offset(1, &leaf), Err(Error::NotFound { index: 0 })));
    let cached = vec![Node::new(0, 1, vec![0u8; 32]), Node::new(2, 2, vec![0u8; 32])];
    let d = storage.data_offset(1, &cached).unwrap();
    assert_eq!((d.offset(), d.len()), (1, 2));
}
