//! The block store: raw block bytes filed under the content hash of
//! those bytes. Entries are added and read, never changed or removed.

use vstd::prelude::*;
use crate::block::Block;
use crate::codec::{block_bytes, encode_block};
use crate::dag::Entries;
use crate::decode::decode_block;
use crate::digest::{content_hash, hash_bytes, is_hash_text};
use crate::error::StoreError;
use crate::grammar::parse_block;
use crate::table::Table;

verus! {

/// What the first `n` of `entries` make, each filed under its name in
/// turn.
pub open spec fn loaded(entries: Seq<(String, Vec<u8>)>, n: int) -> Entries
    decreases n,
{
    if n <= 0 {
        Map::empty()
    } else {
        loaded(entries, n - 1).insert(entries[n - 1].0@, entries[n - 1].1@)
    }
}

/// A store of raw block bytes, each entry under a name.
pub struct BlockStore {
    table: Table<Vec<u8>>,
}

impl View for BlockStore {
    type V = Entries;

    /// The entries of the store, by name.
    closed spec fn view(&self) -> Entries {
        Map::new(
            |name: Seq<char>| self.table.holds(name),
            |name: Seq<char>| self.table.value_of(name)@,
        )
    }
}

impl BlockStore {
    /// The store is in order: no name is filed twice.
    pub closed spec fn wf(&self) -> bool {
        self.table.wf()
    }

    /// An empty store.
    pub fn new() -> (store: BlockStore)
        ensures
            store.wf(),
            store@ == Map::<Seq<char>, Seq<u8>>::empty(),
    {
        let store = BlockStore { table: Table::new() };
        assert(store@ =~= Map::<Seq<char>, Seq<u8>>::empty());
        store
    }

    /// The number of entries.
    pub fn len(&self) -> (n: usize)
        requires
            self.wf(),
        ensures
            self@.dom().finite(),
            n == self@.dom().len(),
    {
        assert(self@.dom() =~= self.table.names());
        self.table.len()
    }

    /// Whether an entry is filed under `name`.
    pub fn contains(&self, name: &str) -> (yes: bool)
        requires
            self.wf(),
        ensures
            yes == self@.dom().contains(name@),
    {
        self.table.get(name).is_some()
    }

    /// The bytes filed under `name`. Fails with `NotFound` where there
    /// are none.
    pub fn get(&self, name: &str) -> (r: Result<Vec<u8>, StoreError>)
        requires
            self.wf(),
        ensures
            match r {
                Ok(bytes) => self@.dom().contains(name@) && bytes@ == self@[name@],
                Err(e) => e == StoreError::NotFound && !self@.dom().contains(name@),
            },
    {
        match self.table.get(name) {
            Some(bytes) => Ok(bytes.clone()),
            None => Err(StoreError::NotFound),
        }
    }

    /// The store with the entries of a storage, taken over as they are
    /// found there. Nothing is checked: whether bytes belong under their
    /// name shows when the block is verified. Of two entries with one
    /// name the later is kept.
    pub fn load(entries: &Vec<(String, Vec<u8>)>) -> (store: BlockStore)
        ensures
            store.wf(),
            store@ == loaded(entries@, entries@.len() as int),
    {
        let mut store = BlockStore::new();
        let mut i: usize = 0;
        while i < entries.len()
            invariant
                0 <= i <= entries.len(),
                store.wf(),
                store@ == loaded(entries@, i as int),
            decreases entries.len() - i,
        {
            store.file(entries[i].0.clone(), entries[i].1.clone());
            i += 1;
        }
        store
    }

    /// Files `bytes` under `name`, in place of what was filed there.
    fn file(&mut self, name: String, bytes: Vec<u8>)
        requires
            old(self).wf(),
        ensures
            final(self).wf(),
            final(self)@ == old(self)@.insert(name@, bytes@),
    {
        let ghost key = name@;
        let ghost value = bytes@;
        self.table.insert(name, bytes);
        proof {
            assert forall|k: Seq<char>| #[trigger]
                self@.dom().contains(k) == old(self)@.insert(key, value).dom().contains(k) by {
                assert(self.table.holds(k) == (k == key || old(self).table.holds(k)));
            }
            assert forall|k: Seq<char>| #[trigger] self@.dom().contains(k) implies self@[k] == old(
                self,
            )@.insert(key, value)[k] by {
                assert(self.table.holds(k));
            }
            assert(self@ =~= old(self)@.insert(key, value));
        }
    }

    /// Files `bytes` under their content hash and returns that hash.
    /// Filing the same bytes again changes nothing.
    pub fn put(&mut self, bytes: Vec<u8>) -> (hash: String)
        requires
            old(self).wf(),
        ensures
            final(self).wf(),
            hash@ == content_hash(bytes@),
            is_hash_text(hash@),
            final(self)@ == old(self)@.insert(hash@, bytes@),
    {
        let hash = hash_bytes(bytes.as_slice());
        self.file(hash.clone(), bytes);
        hash
    }
}

/// The raw bytes of the block `hash`. Fails with `NotFound` where the
/// store has no such block.
pub fn read_block_file(store: &BlockStore, hash: &str) -> (r: Result<Vec<u8>, StoreError>)
    requires
        store.wf(),
    ensures
        match r {
            Ok(bytes) => store@.dom().contains(hash@) && bytes@ == store@[hash@],
            Err(e) => e == StoreError::NotFound && !store@.dom().contains(hash@),
        },
{
    store.get(hash)
}

/// The block `hash`. Fails with `NotFound` where the store has no such
/// block, and with `CorruptEncoding` where the bytes stored under `hash`
/// stand for no block.
pub fn read_block(store: &BlockStore, hash: &str) -> (r: Result<Block, StoreError>)
    requires
        store.wf(),
    ensures
        match r {
            Ok(block) => store@.dom().contains(hash@) && parse_block(store@[hash@]) == Some(
                block@,
            ) && block@.valid() && block_bytes(block@) == store@[hash@],
            Err(e) => if store@.dom().contains(hash@) {
                e == StoreError::CorruptEncoding && parse_block(store@[hash@]) is None
            } else {
                e == StoreError::NotFound
            },
        },
{
    let bytes = match store.get(hash) {
        Ok(bytes) => bytes,
        Err(e) => {
            return Err(e);
        },
    };
    decode_block(bytes.as_slice())
}

/// The record of `block`: its bytes, and the content hash of those
/// bytes, under which the record is filed.
pub fn block_record(block: &Block) -> (record: (String, Vec<u8>))
    ensures
        record.1@ == block_bytes(block@),
        record.0@ == content_hash(record.1@),
        is_hash_text(record.0@),
{
    let bytes = encode_block(block);
    let hash = hash_bytes(bytes.as_slice());
    (hash, bytes)
}

/// Files `block` in the store, under the content hash of its bytes, and
/// returns that hash. It does not fail.
pub fn write_block(store: &mut BlockStore, block: &Block) -> (r: Result<String, StoreError>)
    requires
        old(store).wf(),
    ensures
        final(store).wf(),
        r matches Ok(hash) && hash@ == content_hash(block_bytes(block@)) && is_hash_text(hash@)
            && final(store)@ == old(store)@.insert(hash@, block_bytes(block@)),
{
    let (hash, bytes) = block_record(block);
    store.file(hash.clone(), bytes);
    Ok(hash)
}

} // verus!
