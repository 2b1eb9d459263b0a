//! What it means for a block of a store to verify: its bytes hash to its
//! name, and so do those of all its ancestors.

use vstd::prelude::*;
use crate::digest::content_hash;
use crate::error::StoreError;
use crate::grammar::parse_block;

verus! {

/// What a store holds: raw bytes by name.
pub type Entries = Map<Seq<char>, Seq<u8>>;

/// What the check of one block comes to.
pub enum Outcome {
    /// The check was made: the block and its ancestors hold, or one of
    /// them does not.
    Verified(bool),
    /// Nothing is stored under the block's name.
    Absent,
    /// The check could not be made.
    Failed(StoreError),
}

/// Whether `store` holds bytes under `name` that hash to `name`.
pub open spec fn intact(store: Entries, name: Seq<char>) -> bool {
    store.dom().contains(name) && content_hash(store[name]) == name
}

/// The parents that the block stored under `name` declares, where the
/// bytes under `name` stand for a block.
pub open spec fn parents_of(store: Entries, name: Seq<char>) -> Seq<Seq<char>> {
    match parse_block(store[name]) {
        Some(b) => b.parents,
        None => Seq::empty(),
    }
}

/// The check of the block stored under `name`, going at most `depth`
/// generations up.
pub open spec fn check_block(store: Entries, name: Seq<char>, depth: nat) -> Outcome
    decreases depth, 0nat, 0nat,
{
    if !store.dom().contains(name) {
        Outcome::Absent
    } else if content_hash(store[name]) != name {
        Outcome::Verified(false)
    } else {
        match parse_block(store[name]) {
            None => Outcome::Failed(StoreError::CorruptEncoding),
            Some(b) => if b.parents.len() == 0 {
                Outcome::Verified(true)
            } else if depth == 0 {
                Outcome::Failed(StoreError::DepthExceeded)
            } else {
                check_all(store, b.parents, 0, (depth - 1) as nat)
            },
        }
    }
}

/// The check of the blocks `names[from..]` in turn, each going at most
/// `depth` generations up. The first that does not hold decides: a block
/// that is not verified or not stored makes the answer `false`, a check
/// that cannot be made is handed on.
pub open spec fn check_all(store: Entries, names: Seq<Seq<char>>, from: nat, depth: nat) -> Outcome
    decreases depth, 1nat, names.len() - from,
{
    if from >= names.len() {
        Outcome::Verified(true)
    } else {
        match check_block(store, names[from as int], depth) {
            Outcome::Verified(true) => check_all(store, names, from + 1, depth),
            Outcome::Verified(false) => Outcome::Verified(false),
            Outcome::Absent => Outcome::Verified(false),
            Outcome::Failed(e) => Outcome::Failed(e),
        }
    }
}

/// What the verification of the block `name` answers: whether the block
/// and all its ancestors hold. It fails with `NotFound` where the block
/// itself is not stored, with `CorruptEncoding` where bytes that hash to
/// their name stand for no block, and with `DepthExceeded` where the
/// ancestors go further up than `max_depth` generations.
pub open spec fn verdict(store: Entries, name: Seq<char>, max_depth: nat) -> Result<
    bool,
    StoreError,
> {
    match check_block(store, name, max_depth) {
        Outcome::Verified(ok) => Ok(ok),
        Outcome::Absent => Err(StoreError::NotFound),
        Outcome::Failed(e) => Err(e),
    }
}

/// Whether block `k` of `path` has bytes that hash to its name and
/// declares the next block of `path` as a parent.
pub open spec fn is_link(store: Entries, path: Seq<Seq<char>>, k: int) -> bool {
    intact(store, path[k]) && parents_of(store, path[k]).contains(path[k + 1])
}

/// Whether `path` leads from a block up to an ancestor: each block on
/// it but the last has bytes that hash to its name, and declares the
/// next as a parent.
pub open spec fn is_lineage(store: Entries, path: Seq<Seq<char>>) -> bool {
    &&& path.len() >= 1
    &&& forall|k: int| 0 <= k < path.len() - 1 ==> #[trigger] is_link(store, path, k)
}

/// A check of several blocks never answers that one of them is absent.
pub proof fn lemma_check_all_is_definite(
    store: Entries,
    names: Seq<Seq<char>>,
    from: nat,
    depth: nat,
)
    ensures
        check_all(store, names, from, depth) != Outcome::Absent,
    decreases names.len() - from,
{
    if from < names.len() {
        lemma_check_all_is_definite(store, names, from + 1, depth);
    }
}

/// Several blocks hold together exactly if each of them holds.
pub proof fn lemma_check_all_holds(store: Entries, names: Seq<Seq<char>>, from: nat, depth: nat)
    ensures
        check_all(store, names, from, depth) == Outcome::Verified(true) <==> forall|k: int|
            from <= k < names.len() ==> #[trigger] check_block(store, names[k], depth)
                == Outcome::Verified(true),
    decreases names.len() - from,
{
    if from < names.len() {
        lemma_check_all_holds(store, names, from + 1, depth);
        if check_all(store, names, from, depth) == Outcome::Verified(true) {
            assert forall|k: int| from <= k < names.len() implies #[trigger] check_block(
                store,
                names[k],
                depth,
            ) == Outcome::Verified(true) by {
                if k > from {
                    assert(from + 1 <= k);
                }
            }
        } else {
            if check_block(store, names[from as int], depth) == Outcome::Verified(true) {
                let k = choose|k: int|
                    from + 1 <= k < names.len() && #[trigger] check_block(store, names[k], depth)
                        != Outcome::Verified(true);
                assert(from <= k);
            }
        }
    }
}

/// Completeness at a leaf: a block without parents whose bytes hash to
/// its name verifies, whatever the bound on the depth.
pub proof fn lemma_leaf_verifies(store: Entries, name: Seq<char>, max_depth: nat)
    requires
        intact(store, name),
        parse_block(store[name]) is Some,
        parents_of(store, name).len() == 0,
    ensures
        verdict(store, name, max_depth) == Ok::<bool, StoreError>(true),
{
}

/// Completeness one generation up: a block whose bytes hash to its name
/// verifies where each of its parents verifies one generation less deep.
pub proof fn lemma_child_verifies(store: Entries, name: Seq<char>, max_depth: nat)
    requires
        intact(store, name),
        parse_block(store[name]) is Some,
        max_depth > 0,
        forall|i: int|
            0 <= i < parents_of(store, name).len() ==> #[trigger] verdict(
                store,
                parents_of(store, name)[i],
                (max_depth - 1) as nat,
            ) == Ok::<bool, StoreError>(true),
    ensures
        verdict(store, name, max_depth) == Ok::<bool, StoreError>(true),
{
    let parents = parents_of(store, name);
    let depth = (max_depth - 1) as nat;
    lemma_check_all_holds(store, parents, 0, depth);
    assert forall|k: int| 0 <= k < parents.len() implies #[trigger] check_block(
        store,
        parents[k],
        depth,
    ) == Outcome::Verified(true) by {
        assert(verdict(store, parents[k], depth) == Ok::<bool, StoreError>(true));
    }
}

/// Soundness at the block itself: stored bytes that do not hash to their
/// name make the answer `false`.
pub proof fn lemma_tampered_fails(store: Entries, name: Seq<char>, max_depth: nat)
    requires
        store.dom().contains(name),
        content_hash(store[name]) != name,
    ensures
        verdict(store, name, max_depth) == Ok::<bool, StoreError>(false),
{
}

/// Where a block holds, so does every block on a lineage from it, and
/// the lineage is no longer than the depth allowed.
pub proof fn lemma_verified_lineage(store: Entries, path: Seq<Seq<char>>, depth: nat)
    requires
        is_lineage(store, path),
        check_block(store, path[0], depth) == Outcome::Verified(true),
    ensures
        path.len() - 1 <= depth,
        check_block(store, path.last(), (depth - (path.len() - 1)) as nat) == Outcome::Verified(
            true,
        ),
        intact(store, path.last()),
    decreases path.len(),
{
    if path.len() > 1 {
        let name = path[0];
        let parents = parents_of(store, name);
        assert(is_link(store, path, 0));
        let i = choose|i: int| 0 <= i < parents.len() && parents[i] == path[1];
        lemma_check_all_holds(store, parents, 0, (depth - 1) as nat);
        assert(check_block(store, parents[i], (depth - 1) as nat) == Outcome::Verified(true));
        let rest = path.skip(1);
        assert forall|k: int| 0 <= k < rest.len() - 1 implies #[trigger] is_link(
            store,
            rest,
            k,
        ) by {
            assert(is_link(store, path, k + 1));
        }
        lemma_verified_lineage(store, rest, (depth - 1) as nat);
        assert(rest.last() == path.last());
    }
}

/// Soundness: where the bytes of an ancestor do not hash to its name, or
/// the ancestor is missing, no block with a lineage to it verifies.
pub proof fn lemma_tampered_ancestor_fails(store: Entries, path: Seq<Seq<char>>, max_depth: nat)
    requires
        is_lineage(store, path),
        !intact(store, path.last()),
    ensures
        verdict(store, path[0], max_depth) != Ok::<bool, StoreError>(true),
{
    if check_block(store, path[0], max_depth) == Outcome::Verified(true) {
        lemma_verified_lineage(store, path, max_depth);
    }
}

/// Along a chain, where each block has one parent, the answer goes down
/// unchanged: a block whose bytes hash to its name answers what its sole
/// parent answers, and `false` where that parent is missing.
pub proof fn lemma_sole_parent_decides(store: Entries, name: Seq<char>, max_depth: nat)
    requires
        intact(store, name),
        parse_block(store[name]) is Some,
        parents_of(store, name).len() == 1,
        max_depth > 0,
    ensures
        verdict(store, name, max_depth) == match check_block(
            store,
            parents_of(store, name)[0],
            (max_depth - 1) as nat,
        ) {
            Outcome::Verified(ok) => Ok::<bool, StoreError>(ok),
            Outcome::Absent => Ok(false),
            Outcome::Failed(e) => Err(e),
        },
{
    let parents = parents_of(store, name);
    let depth = (max_depth - 1) as nat;
    assert(check_all(store, parents, 1, depth) == Outcome::Verified(true));
}

/// The check of a block answers that it is absent only where it is.
pub proof fn lemma_stored_is_not_absent(store: Entries, name: Seq<char>, depth: nat)
    requires
        store.dom().contains(name),
    ensures
        check_block(store, name, depth) != Outcome::Absent,
{
    if content_hash(store[name]) == name {
        if let Some(b) = parse_block(store[name]) {
            if b.parents.len() > 0 && depth > 0 {
                lemma_check_all_is_definite(store, b.parents, 0, (depth - 1) as nat);
            }
        }
    }
}

/// Whether every block on a lineage from `name` whose bytes hash to its
/// name stands for a block, as it is where the ancestry of `name` was
/// filled block by block, whatever was done to single entries since.
pub open spec fn holds_blocks_from(store: Entries, name: Seq<char>) -> bool {
    forall|path: Seq<Seq<char>>|
        #[trigger] is_lineage(store, path) && path[0] == name && intact(store, path.last())
            ==> parse_block(store[path.last()]) is Some
}

/// What holds of the lineages from a block holds of those from each of
/// its parents.
proof fn lemma_holds_blocks_from_parent(store: Entries, name: Seq<char>, k: int)
    requires
        holds_blocks_from(store, name),
        intact(store, name),
        0 <= k < parents_of(store, name).len(),
    ensures
        holds_blocks_from(store, parents_of(store, name)[k]),
{
    let parent = parents_of(store, name)[k];
    assert forall|q: Seq<Seq<char>>|
        #[trigger] is_lineage(store, q) && q[0] == parent && intact(
            store,
            q.last(),
        ) implies parse_block(store[q.last()]) is Some by {
        let path = seq![name] + q;
        assert forall|j: int| 0 <= j < path.len() - 1 implies #[trigger] is_link(
            store,
            path,
            j,
        ) by {
            if j == 0 {
                assert(path[0] == name);
                assert(path[1] == q[0]);
            } else {
                assert(is_link(store, q, j - 1));
                assert(path[j] == q[j - 1]);
                assert(path[j + 1] == q[j - 1 + 1]);
            }
        }
        assert(is_lineage(store, path));
        assert(path[0] == name);
        assert(path.last() == q.last());
    }
}

/// Where the ancestry of a block holds blocks, its check fails only for
/// want of depth.
pub proof fn lemma_check_fails_for_depth_only(store: Entries, name: Seq<char>, depth: nat)
    requires
        holds_blocks_from(store, name),
    ensures
        check_block(store, name, depth) matches Outcome::Failed(e) ==> e
            == StoreError::DepthExceeded,
    decreases depth, 0nat, 0nat,
{
    if intact(store, name) {
        let alone = seq![name];
        assert(is_lineage(store, alone));
        assert(alone[0] == name && alone.last() == name);
        assert(parse_block(store[name]) is Some);
        if depth > 0 {
            let parents = parents_of(store, name);
            assert forall|k: int| 0 <= k < parents.len() implies holds_blocks_from(
                store,
                #[trigger] parents[k],
            ) by {
                lemma_holds_blocks_from_parent(store, name, k);
            }
            lemma_check_all_fails_for_depth_only(store, parents, 0, (depth - 1) as nat);
        }
    }
}

/// Where the ancestries of several blocks hold blocks, their check fails
/// only for want of depth.
pub proof fn lemma_check_all_fails_for_depth_only(
    store: Entries,
    names: Seq<Seq<char>>,
    from: nat,
    depth: nat,
)
    requires
        forall|k: int| from <= k < names.len() ==> holds_blocks_from(store, #[trigger] names[k]),
    ensures
        check_all(store, names, from, depth) matches Outcome::Failed(e) ==> e
            == StoreError::DepthExceeded,
    decreases depth, 1nat, names.len() - from,
{
    if from < names.len() {
        lemma_check_fails_for_depth_only(store, names[from as int], depth);
        lemma_check_all_fails_for_depth_only(store, names, from + 1, depth);
    }
}

/// Soundness where the ancestry of a block holds blocks: where the bytes
/// of an ancestor were changed, so that they no longer hash to its name,
/// the block answers `false`, unless the bound on the depth stops the
/// check before.
pub proof fn lemma_tampered_ancestor_answers_false(
    store: Entries,
    path: Seq<Seq<char>>,
    max_depth: nat,
)
    requires
        holds_blocks_from(store, path[0]),
        is_lineage(store, path),
        store.dom().contains(path.last()),
        content_hash(store[path.last()]) != path.last(),
    ensures
        verdict(store, path[0], max_depth) == Ok::<bool, StoreError>(false) || verdict(
            store,
            path[0],
            max_depth,
        ) == Err::<bool, StoreError>(StoreError::DepthExceeded),
{
    lemma_tampered_ancestor_fails(store, path, max_depth);
    lemma_check_fails_for_depth_only(store, path[0], max_depth);
    if path.len() > 1 {
        assert(is_link(store, path, 0));
    } else {
        assert(path.last() == path[0]);
    }
    lemma_stored_is_not_absent(store, path[0], max_depth);
}

/// Whether block `k` of `path` is a block of a chain: its bytes hash to
/// its name and stand for a block, and it declares the next block of
/// `path` as its sole parent, or no parent where it is the last.
pub open spec fn is_chain_link(store: Entries, path: Seq<Seq<char>>, k: int) -> bool {
    &&& intact(store, path[k])
    &&& parse_block(store[path[k]]) is Some
    &&& parents_of(store, path[k]) == if k == path.len() - 1 {
        Seq::<Seq<char>>::empty()
    } else {
        seq![path[k + 1]]
    }
}

/// Whether `path` is a chain of blocks, each as it was stored.
pub open spec fn is_chain(store: Entries, path: Seq<Seq<char>>) -> bool {
    &&& path.len() >= 1
    &&& forall|k: int| 0 <= k < path.len() ==> #[trigger] is_chain_link(store, path, k)
}

/// Completeness along a chain: where every block of a chain is as it was
/// stored, the chain verifies from end to end, given the depth for it.
pub proof fn lemma_chain_verifies(store: Entries, path: Seq<Seq<char>>, max_depth: nat)
    requires
        is_chain(store, path),
        max_depth >= path.len() - 1,
    ensures
        verdict(store, path[0], max_depth) == Ok::<bool, StoreError>(true),
    decreases path.len(),
{
    assert(is_chain_link(store, path, 0));
    if path.len() > 1 {
        let rest = path.skip(1);
        assert forall|k: int| 0 <= k < rest.len() implies #[trigger] is_chain_link(
            store,
            rest,
            k,
        ) by {
            assert(is_chain_link(store, path, k + 1));
        }
        lemma_chain_verifies(store, rest, (max_depth - 1) as nat);
        assert(parents_of(store, path[0])[0] == rest[0]);
        lemma_sole_parent_decides(store, path[0], max_depth);
    }
}

/// Whether `path` is a chain whose last block was changed: the bytes of
/// the last no longer hash to its name, and every block before it is as
/// it was stored and declares the next as its sole parent.
pub open spec fn is_broken_chain(store: Entries, path: Seq<Seq<char>>) -> bool {
    &&& path.len() >= 1
    &&& store.dom().contains(path.last())
    &&& content_hash(store[path.last()]) != path.last()
    &&& forall|k: int| 0 <= k < path.len() - 1 ==> #[trigger] is_chain_link(store, path, k)
}

/// Soundness along a chain: where one block of a chain was changed, so
/// that its bytes no longer hash to its name, every block that descends
/// from it answers `false`, given the depth to get there.
pub proof fn lemma_broken_chain_fails(store: Entries, path: Seq<Seq<char>>, max_depth: nat)
    requires
        is_broken_chain(store, path),
        max_depth >= path.len() - 1,
    ensures
        verdict(store, path[0], max_depth) == Ok::<bool, StoreError>(false),
    decreases path.len(),
{
    if path.len() > 1 {
        let rest = path.skip(1);
        assert(rest.last() == path.last());
        assert forall|k: int| 0 <= k < rest.len() - 1 implies #[trigger] is_chain_link(
            store,
            rest,
            k,
        ) by {
            assert(is_chain_link(store, path, k + 1));
        }
        lemma_broken_chain_fails(store, rest, (max_depth - 1) as nat);
        assert(is_chain_link(store, path, 0));
        assert(parents_of(store, path[0])[0] == rest[0]);
        lemma_sole_parent_decides(store, path[0], max_depth);
    } else {
        assert(path.last() == path[0]);
    }
}

} // verus!
