use hypercore::{full_roots, ByteStore, Feed, KeyPair, MemoryStore, Storage};

fn memory_feed() -> Feed<MemoryStore> {
    let storage =
        Storage::open(MemoryStore::new(), MemoryStore::new(), MemoryStore::new(), MemoryStore::new()).unwrap();
    Feed::with_storage(storage, KeyPair { public: vec![1u8; 32], secret: vec![2u8; 64] }).unwrap()
}

#[test]
fn three_blocks_scenario() {
    let mut feed = memory_feed();
    assert!(feed.is_empty());
    feed.append(b"a").unwrap();
    assert_eq!(feed.byte_length(), 1);
    feed.append(b"bb").unwrap();
    assert_eq!(feed.byte_length(), 3);
    let d = feed.data_offset(1).unwrap();
    assert_eq!((d.offset(), d.len()), (1, 2));
    feed.append(b"ccc").unwrap();
    let d = feed.data_offset(2).unwrap();
    assert_eq!((d.offset(), d.len()), (3, 3));
    let roots: Vec<(usize, usize)> = feed.roots().iter().map(|n| (n.index(), n.len())).collect();
    assert_eq!(roots, vec![(1, 3), (4, 3)]);
    assert_eq!(feed.len(), 3);
    assert_eq!(feed.public_key(), &vec![1u8; 32]);
}

#[test]
fn appended_blocks_read_back() {
    let mut feed = memory_feed();
    let blocks: Vec<Vec<u8>> = (1..12u8).map(|n| vec![n; n as usize]).collect();
    for b in &blocks {
        feed.append(b).unwrap();
    }
    for (i, b) in blocks.iter().enumerate() {
        assert_eq!(feed.get(i).unwrap(), Some(b.clone()));
    }
}

#[test]
fn offset_of_each_block_ends_at_byte_length() {
    let mut feed = memory_feed();
    for n in 1..20usize {
        let before = feed.byte_length();
        let root_sum: usize = feed.roots().iter().map(|r| r.len()).sum();
        assert_eq!(root_sum, before);
        let indices: Vec<usize> = feed.roots().iter().map(|r| r.index()).collect();
        assert_eq!(indices, full_roots(2 * (n - 1)));
        feed.append(&vec![7u8; n]).unwrap();
        let d = feed.data_offset(n - 1).unwrap();
        assert_eq!(d.offset(), before);
        assert_eq!(d.offset() + d.len(), feed.byte_length());
    }
}

#[test]
fn get_past_the_end_is_absent() {
    let mut feed = memory_feed();
    assert_eq!(feed.get(0).unwrap(), None);
    feed.append(b"abc").unwrap();
    assert_eq!(feed.get(1).unwrap(), None);
    assert_eq!(feed.get(0).unwrap(), Some(b"abc".to_vec()));
}

#[test]
fn storage_after_appends_holds_all_bytes() {
    let mut feed = memory_feed();
    feed.append(b"xy").unwrap();
    feed.append(b"z").unwrap();
    let mut storage = feed.into_storage();
    assert_eq!(storage.data.read(0, 3).unwrap(), b"xyz".to_vec());
    assert_eq!(storage.get_node(1).unwrap().len(), 3);
}
