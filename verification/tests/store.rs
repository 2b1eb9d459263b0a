use blockdag::block::{Block, BlockContent};
use blockdag::codec::encode_block;
use blockdag::digest::hash_bytes;
use blockdag::error::StoreError;
use blockdag::store::{block_record, read_block, read_block_file, write_block, BlockStore};
use blockdag::table::Table;

fn block_with(parents: Vec<String>, timestamp: u64) -> Block {
    let content = BlockContent { encrypted: vec![], plain: Some("aGk".to_string()), signature: None };
    Block::new(content, parents, timestamp)
}

#[test]
fn new_store_is_empty() {
    let store = BlockStore::new();
    assert_eq!(store.len(), 0);
    assert!(!store.contains("anything"));
    assert_eq!(store.get("anything"), Err(StoreError::NotFound));
}

#[test]
fn put_files_bytes_under_their_hash() {
    let mut store = BlockStore::new();
    let hash = store.put(b"some bytes".to_vec());
    assert_eq!(hash, hash_bytes(b"some bytes"));
    assert!(store.contains(&hash));
    assert_eq!(store.len(), 1);
}

#[test]
fn get_returns_what_put_stored() {
    let mut store = BlockStore::new();
    let first = store.put(vec![1, 2, 3]);
    let second = store.put(vec![]);
    let third = store.put(vec![0xff; 1000]);
    assert_eq!(store.get(&first), Ok(vec![1, 2, 3]));
    assert_eq!(store.get(&second), Ok(vec![]));
    assert_eq!(store.get(&third), Ok(vec![0xff; 1000]));
    assert_eq!(store.len(), 3);
}

#[test]
fn put_of_the_same_bytes_changes_nothing() {
    let mut store = BlockStore::new();
    let first = store.put(b"same".to_vec());
    let second = store.put(b"same".to_vec());
    assert_eq!(first, second);
    assert_eq!(store.len(), 1);
    assert_eq!(store.get(&first), Ok(b"same".to_vec()));
}

#[test]
fn get_of_an_unknown_hash_is_not_found() {
    let mut store = BlockStore::new();
    store.put(b"here".to_vec());
    assert_eq!(store.get(&hash_bytes(b"elsewhere")), Err(StoreError::NotFound));
    assert_eq!(read_block_file(&store, ""), Err(StoreError::NotFound));
}

#[test]
fn load_takes_entries_as_they_are() {
    let store = BlockStore::load(&vec![
        ("name".to_string(), vec![1]),
        ("other".to_string(), vec![3]),
        ("name".to_string(), vec![2, 2]),
    ]);
    assert_eq!(store.get("name"), Ok(vec![2, 2]));
    assert_eq!(store.get("other"), Ok(vec![3]));
    assert_eq!(store.get("none"), Err(StoreError::NotFound));
    assert_eq!(store.len(), 2);
    assert_eq!(BlockStore::load(&vec![]).len(), 0);
}

#[test]
fn block_record_pairs_the_bytes_with_their_hash() {
    let block = block_with(vec!["a".to_string()], 10);
    let (hash, bytes) = block_record(&block);
    assert_eq!(bytes, encode_block(&block));
    assert_eq!(hash, hash_bytes(&bytes));
    let mut store = BlockStore::new();
    assert_eq!(write_block(&mut store, &block), Ok(hash.clone()));
    assert_eq!(store.get(&hash), Ok(bytes));
}

#[test]
fn write_block_writes_a_block_with_short_parent_names() {
    let content = BlockContent {
        encrypted: vec!["YQ".to_string(), "Yg".to_string()],
        plain: Some("".to_string()),
        signature: None,
    };
    let block = Block::new(content, vec!["b".to_string(), "a".to_string()], u64::MAX);
    let mut store = BlockStore::new();
    let hash = write_block(&mut store, &block).unwrap();
    let expected = "{\"content\":{\"encrypted\":[\"YQ\",\"Yg\"],\"plain\":\"\",\"signature\":null},\"parents\":[\"a\",\"b\"],\"timestamp\":18446744073709551615}";
    assert_eq!(store.len(), 1);
    assert_eq!(store.get(&hash), Ok(expected.as_bytes().to_vec()));
    assert_eq!(hash, hash_bytes(expected.as_bytes()));
}

#[test]
fn read_block_reads_a_record_under_any_name() {
    let text = "{\"content\":{\"encrypted\":[\"YQ\",\"Yg\"],\"plain\":\"\",\"signature\":null},\"parents\":[\"a\",\"b\"],\"timestamp\":18446744073709551615}";
    let store = BlockStore::load(&vec![("k".to_string(), text.as_bytes().to_vec())]);
    let block = read_block(&store, "k").unwrap();
    assert_eq!(block.content().encrypted, vec!["YQ".to_string(), "Yg".to_string()]);
    assert_eq!(block.content().plain, Some("".to_string()));
    assert_eq!(block.content().signature, None);
    assert_eq!(block.parents(), &vec!["a".to_string(), "b".to_string()]);
    assert_eq!(block.timestamp(), u64::MAX);
}

#[test]
fn write_block_files_the_block_under_the_hash_of_its_bytes() {
    let mut store = BlockStore::new();
    let block = block_with(vec![], 10);
    let hash = write_block(&mut store, &block).unwrap();
    let bytes = encode_block(&block);
    assert_eq!(hash, hash_bytes(&bytes));
    assert_eq!(read_block_file(&store, &hash), Ok(bytes));
}

#[test]
fn write_block_twice_gives_the_same_hash() {
    let mut store = BlockStore::new();
    let first = write_block(&mut store, &block_with(vec![], 10)).unwrap();
    let second = write_block(&mut store, &block_with(vec![], 10)).unwrap();
    let third = write_block(&mut store, &block_with(vec![], 11)).unwrap();
    assert_eq!(first, second);
    assert_ne!(first, third);
    assert_eq!(store.len(), 2);
}

#[test]
fn read_block_gives_back_what_was_written() {
    let mut store = BlockStore::new();
    let parent = write_block(&mut store, &block_with(vec![], 1)).unwrap();
    let child = write_block(&mut store, &block_with(vec![parent.clone()], 2)).unwrap();
    let block = read_block(&store, &child).unwrap();
    assert_eq!(block.parents(), &vec![parent]);
    assert_eq!(block.timestamp(), 2);
    assert_eq!(block.content().plain, Some("aGk".to_string()));
}

#[test]
fn read_block_of_an_unknown_hash_is_not_found() {
    let store = BlockStore::new();
    assert!(matches!(read_block(&store, &hash_bytes(b"x")), Err(StoreError::NotFound)));
}

#[test]
fn read_block_of_other_bytes_is_a_corrupt_encoding() {
    let mut store = BlockStore::new();
    let hash = store.put(b"these bytes are no block".to_vec());
    assert!(matches!(read_block(&store, &hash), Err(StoreError::CorruptEncoding)));
}

#[test]
fn table_files_values_by_name() {
    let mut table: Table<u32> = Table::new();
    assert_eq!(table.len(), 0);
    assert_eq!(table.get("a"), None);
    table.insert("a".to_string(), 1);
    table.insert("b".to_string(), 2);
    assert_eq!(table.get("a"), Some(&1));
    assert_eq!(table.get("b"), Some(&2));
    assert_eq!(table.get("c"), None);
    table.insert("a".to_string(), 3);
    assert_eq!(table.get("a"), Some(&3));
    assert_eq!(table.get("b"), Some(&2));
    assert_eq!(table.len(), 2);
}
