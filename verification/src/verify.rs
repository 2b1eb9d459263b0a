//! Verification of a block of a store: the walk over its ancestors,
//! driven to its answer, and why that answer is the one that the
//! definition of verification gives.

use vstd::prelude::*;
use crate::dag::{check_all, check_block, lemma_check_all_is_definite, verdict, Entries, Outcome};
use crate::digest::content_hash;
use crate::error::StoreError;
use crate::grammar::parse_block;
use crate::store::BlockStore;
use crate::walk::{Fetched, FetchedView, FrameView, Walk, WalkView};

verus! {

/// A bound on the depth that suits a store of any common size.
pub const DEFAULT_MAX_DEPTH: usize = 4096;

/// What fetching `name` from `store` gives.
pub open spec fn lookup(store: Entries, name: Seq<char>) -> FetchedView {
    if store.dom().contains(name) {
        FetchedView::Found(store[name])
    } else {
        FetchedView::Missing
    }
}

/// The check of the blocks `names[from..]` where they are asked about
/// themselves and are no parents: as `check_all`, but a block that is not
/// stored makes the check fail with `NotFound`.
pub open spec fn check_roots(store: Entries, names: Seq<Seq<char>>, from: nat, depth: nat) -> Outcome
    decreases names.len() - from,
{
    if from >= names.len() {
        Outcome::Verified(true)
    } else {
        match check_block(store, names[from as int], depth) {
            Outcome::Verified(true) => check_roots(store, names, from + 1, depth),
            Outcome::Verified(false) => Outcome::Verified(false),
            Outcome::Absent => Outcome::Failed(StoreError::NotFound),
            Outcome::Failed(e) => Outcome::Failed(e),
        }
    }
}

/// What is left to check for frame `j`: its parents from the one being
/// checked on where `current` says so, else from the one after it.
pub open spec fn pending(store: Entries, frames: Seq<FrameView>, j: int, current: bool) -> Outcome {
    let f = frames[j];
    let from = if current {
        f.next
    } else {
        f.next + 1
    };
    if j == 0 {
        check_roots(store, f.parents, from, f.depth)
    } else {
        check_all(store, f.parents, from, f.depth)
    }
}

/// What the frames below `k` come to, from the uppermost down: the first
/// that does not hold decides.
pub open spec fn pending_below(store: Entries, frames: Seq<FrameView>, k: nat, current: bool) -> Outcome
    decreases k,
{
    if k == 0 {
        Outcome::Verified(true)
    } else {
        match pending(store, frames, k - 1, current) {
            Outcome::Verified(true) => pending_below(store, frames, (k - 1) as nat, false),
            other => other,
        }
    }
}

/// The answer that an outcome stands for.
pub open spec fn conclude(outcome: Outcome) -> Result<bool, StoreError> {
    match outcome {
        Outcome::Verified(ok) => Ok(ok),
        Outcome::Absent => Err(StoreError::NotFound),
        Outcome::Failed(e) => Err(e),
    }
}

/// The answer that the walk `w` comes to when it is driven over `store`.
pub open spec fn promise(store: Entries, w: WalkView) -> Result<bool, StoreError> {
    match w.answer {
        Some(answer) => answer,
        None => conclude(pending_below(store, w.frames, w.frames.len(), true)),
    }
}

/// The number of blocks that checking `name` fetches at most.
pub open spec fn cost_block(store: Entries, name: Seq<char>, depth: nat) -> nat
    decreases depth, 0nat, 0nat,
{
    if store.dom().contains(name) && content_hash(store[name]) == name && depth > 0 {
        match parse_block(store[name]) {
            Some(b) => 1 + cost_all(store, b.parents, 0, (depth - 1) as nat),
            None => 1,
        }
    } else {
        1
    }
}

/// The number of blocks that checking `names[from..]` fetches at most.
pub open spec fn cost_all(store: Entries, names: Seq<Seq<char>>, from: nat, depth: nat) -> nat
    decreases depth, 1nat, names.len() - from,
{
    if from >= names.len() {
        0
    } else {
        cost_block(store, names[from as int], depth) + cost_all(store, names, from + 1, depth)
    }
}

/// The number of blocks that the frames below `k` fetch at most.
pub open spec fn cost_below(store: Entries, frames: Seq<FrameView>, k: nat, current: bool) -> nat
    decreases k,
{
    if k == 0 {
        0
    } else {
        let f = frames[k - 1];
        let from = if current {
            f.next
        } else {
            f.next + 1
        };
        cost_all(store, f.parents, from, f.depth) + cost_below(
            store,
            frames,
            (k - 1) as nat,
            false,
        )
    }
}

/// The number of blocks that the walk `w` fetches at most before it is
/// finished.
pub open spec fn cost(store: Entries, w: WalkView) -> nat {
    match w.answer {
        Some(_) => 0,
        None => cost_below(store, w.frames, w.frames.len(), true),
    }
}

/// What the frames below `k` come to depends on those frames alone.
proof fn lemma_below_prefix(
    store: Entries,
    a: Seq<FrameView>,
    b: Seq<FrameView>,
    k: nat,
    current: bool,
)
    requires
        k <= a.len(),
        k <= b.len(),
        forall|j: int| 0 <= j < k ==> a[j] == b[j],
    ensures
        pending_below(store, a, k, current) == pending_below(store, b, k, current),
        cost_below(store, a, k, current) == cost_below(store, b, k, current),
    decreases k,
{
    if k > 0 {
        lemma_below_prefix(store, a, b, (k - 1) as nat, false);
    }
}

/// After the block wanted was found to hold, the walk comes to what was
/// left to check behind that block, and fetches no more than that takes.
proof fn lemma_advance(store: Entries, frames: Seq<FrameView>)
    requires
        forall|j: int| 0 <= j < frames.len() ==> (#[trigger] frames[j]).next < frames[j].parents.len(),
    ensures
        promise(store, WalkView::advance(frames)) == conclude(
            pending_below(store, frames, frames.len(), false),
        ),
        cost(store, WalkView::advance(frames)) <= cost_below(store, frames, frames.len(), false),
    decreases frames.len(),
{
    let n = frames.len();
    if n > 0 {
        let top = frames.last();
        if top.next + 1 < top.parents.len() {
            let moved = frames.drop_last().push(
                FrameView { parents: top.parents, next: top.next + 1, depth: top.depth },
            );
            lemma_below_prefix(store, frames, moved, (n - 1) as nat, false);
            assert(pending(store, moved, n - 1, true) == pending(store, frames, n - 1, false));
        } else {
            let rest = frames.drop_last();
            lemma_advance(store, rest);
            lemma_below_prefix(store, frames, rest, (n - 1) as nat, false);
            assert(pending(store, frames, n - 1, false) == Outcome::Verified(true));
        }
    }
}

/// The walk for one block comes to the verdict on that block.
pub proof fn lemma_begin_promises_verdict(store: Entries, name: Seq<char>, max_depth: nat)
    ensures
        promise(store, WalkView::begin(name, max_depth)) == verdict(store, name, max_depth),
{
    let w = WalkView::begin(name, max_depth);
    let names = seq![name];
    assert(check_roots(store, names, 1, max_depth) == Outcome::Verified(true));
    assert(pending(store, w.frames, 0, true) == check_roots(store, names, 0, max_depth));
    assert(pending_below(store, w.frames, 0, false) == Outcome::Verified(true));
}

/// A step with what the store holds under the name wanted leaves the
/// answer that the walk comes to unchanged, and brings the walk nearer
/// to it.
pub proof fn lemma_step_keeps_promise(store: Entries, w: WalkView)
    requires
        w.wf(),
        w.answer is None,
    ensures
        promise(store, w.step(lookup(store, w.wanted()))) == promise(store, w),
        cost(store, w.step(lookup(store, w.wanted()))) < cost(store, w),
{
    let frames = w.frames;
    let n = frames.len();
    let top = frames.last();
    let name = w.wanted();
    let fetched = lookup(store, name);
    let after = w.step(fetched);
    let here = check_block(store, name, top.depth);
    assert(top.next < top.parents.len());
    // What the uppermost frame comes to, by what the block wanted comes to.
    assert(pending(store, frames, n - 1, true) == match here {
        Outcome::Verified(true) => pending(store, frames, n - 1, false),
        Outcome::Verified(false) => Outcome::Verified(false),
        Outcome::Absent => if n == 1 {
            Outcome::Failed(StoreError::NotFound)
        } else {
            Outcome::Verified(false)
        },
        Outcome::Failed(e) => Outcome::Failed(e),
    });
    assert(cost_below(store, frames, n, true) == cost_block(store, name, top.depth) + cost_below(
        store,
        frames,
        n,
        false,
    ));
    if store.dom().contains(name) && content_hash(store[name]) == name {
        match parse_block(store[name]) {
            None => {},
            Some(b) => {
                if b.parents.len() == 0 {
                    lemma_advance(store, frames);
                } else if top.depth == 0 {
                } else {
                    let child = FrameView {
                        parents: b.parents,
                        next: 0,
                        depth: (top.depth - 1) as nat,
                    };
                    let more = frames.push(child);
                    lemma_check_all_is_definite(store, b.parents, 0, (top.depth - 1) as nat);
                    lemma_below_prefix(store, frames, more, n, false);
                    assert(pending(store, more, n as int, true) == here);
                    assert(pending_below(store, more, n + 1, true) == match here {
                        Outcome::Verified(true) => pending_below(store, more, n, false),
                        other => other,
                    });
                    assert(cost_below(store, more, n + 1, true) == cost_all(
                        store,
                        b.parents,
                        0,
                        (top.depth - 1) as nat,
                    ) + cost_below(store, more, n, false));
                }
            },
        }
    }
}

/// Whether the block `hash` of `store` and all its ancestors hold: the
/// bytes of each hash to its name. Fails with `NotFound` where the block
/// itself is not stored, with `CorruptEncoding` where bytes that hash to
/// their name stand for no block, and with `DepthExceeded` where the
/// ancestors go further up than `max_depth` generations.
pub fn block_verify(store: &BlockStore, hash: &str, max_depth: usize) -> (answer: Result<
    bool,
    StoreError,
>)
    requires
        store.wf(),
    ensures
        answer == verdict(store@, hash@, max_depth as nat),
{
    let mut walk = Walk::begin(hash.to_owned(), max_depth);
    proof {
        lemma_begin_promises_verdict(store@, hash@, max_depth as nat);
    }
    loop
        invariant
            store.wf(),
            walk@.wf(),
            promise(store@, walk@) == verdict(store@, hash@, max_depth as nat),
        ensures
            walk@.answer is Some,
        decreases cost(store@, walk@),
    {
        let name = match walk.wanted() {
            Some(name) => name,
            None => {
                break;
            },
        };
        let fetched = match store.get(name.as_str()) {
            Ok(bytes) => Fetched::Found(bytes),
            Err(_) => Fetched::Missing,
        };
        proof {
            lemma_step_keeps_promise(store@, walk@);
        }
        walk.supply(fetched);
    }
    match walk.answer() {
        Some(answer) => answer,
        None => Err(StoreError::IoError),
    }
}

} // verus!
