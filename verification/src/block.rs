//! Blocks: the immutable units of the DAG, and the payload envelope that
//! each of them carries.

use vstd::prelude::*;
use crate::order::{
    ascending, lemma_precedes_transitive, lemma_precedes_trichotomy, precedes, str_precedes,
};

verus! {

/// The payload envelope of a block.
#[derive(Debug, PartialEq, Eq)]
pub struct BlockContent {
    /// One ciphertext per recipient, as base64 text, in the order in
    /// which the recipients were named.
    pub encrypted: Vec<String>,
    /// The payload itself as base64 text, where it is stored unencrypted.
    pub plain: Option<String>,
    /// A signature over the payload, as base64 text.
    pub signature: Option<String>,
}

/// A block: its content, the names of its parents and its time of
/// creation in seconds. The parents are a set: they are kept in ascending
/// order, each once.
#[derive(Debug, PartialEq, Eq)]
pub struct Block {
    content: BlockContent,
    parents: Vec<String>,
    timestamp: u64,
}

/// What a `BlockContent` holds.
pub struct ContentView {
    pub encrypted: Seq<Seq<char>>,
    pub plain: Option<Seq<char>>,
    pub signature: Option<Seq<char>>,
}

/// What a `Block` holds.
pub struct BlockView {
    pub content: ContentView,
    pub parents: Seq<Seq<char>>,
    pub timestamp: u64,
}

/// The texts that a list of strings holds.
pub open spec fn texts(list: Seq<String>) -> Seq<Seq<char>> {
    Seq::new(list.len(), |i: int| list[i]@)
}

/// The text that an optional string holds.
pub open spec fn opt_text(s: Option<String>) -> Option<Seq<char>> {
    match s {
        Some(t) => Some(t@),
        None => None,
    }
}

impl View for BlockContent {
    type V = ContentView;

    open spec fn view(&self) -> ContentView {
        ContentView {
            encrypted: texts(self.encrypted@),
            plain: opt_text(self.plain),
            signature: opt_text(self.signature),
        }
    }
}

impl View for Block {
    type V = BlockView;

    closed spec fn view(&self) -> BlockView {
        BlockView {
            content: self.content@,
            parents: texts(self.parents@),
            timestamp: self.timestamp,
        }
    }
}

impl ContentView {
    /// The envelope carries a payload: a ciphertext or the plain text.
    pub open spec fn has_payload(self) -> bool {
        self.encrypted.len() > 0 || self.plain is Some
    }
}

impl BlockView {
    /// The parents stand in ascending order, each once.
    pub open spec fn valid(self) -> bool {
        ascending(self.parents)
    }
}

impl BlockContent {
    /// Whether the envelope carries a ciphertext or the plain text.
    pub fn has_payload(&self) -> (yes: bool)
        ensures
            yes == self@.has_payload(),
    {
        self.encrypted.len() > 0 || self.plain.is_some()
    }
}

/// Whether `list` is in strictly ascending order.
pub fn is_ascending(list: &Vec<String>) -> (ok: bool)
    ensures
        ok == ascending(texts(list@)),
{
    let ghost all = texts(list@);
    let mut i: usize = 1;
    while i < list.len()
        invariant
            1 <= i,
            all == texts(list@),
            forall|k: int, l: int| 0 <= k < l < i && l < all.len() ==> precedes(
                #[trigger] all[k],
                #[trigger] all[l],
            ),
        decreases list.len() - i,
    {
        if !str_precedes(list[i - 1].as_str(), list[i].as_str()) {
            assert(!precedes(all[i - 1], all[i as int]));
            return false;
        }
        proof {
            assert forall|k: int| 0 <= k < i implies precedes(#[trigger] all[k], all[i as int]) by {
                if k < i - 1 {
                    assert(precedes(all[k], all[i - 1]));
                    lemma_precedes_transitive(all[k], all[i - 1], all[i as int]);
                }
            }
        }
        i += 1;
    }
    true
}

/// Puts `name` into the ascending list `list`, unless it is there.
fn insert_parent(list: &mut Vec<String>, name: String)
    requires
        ascending(texts(old(list)@)),
    ensures
        ascending(texts(final(list)@)),
        texts(final(list)@).to_set() == texts(old(list)@).to_set().insert(name@),
        final(list)@.len() <= old(list)@.len() + 1,
{
    let ghost before = texts(list@);
    let mut p: usize = 0;
    while p < list.len() && str_precedes(list[p].as_str(), name.as_str())
        invariant
            0 <= p <= list.len(),
            list@ == old(list)@,
            before == texts(list@),
            forall|k: int| 0 <= k < p ==> precedes(#[trigger] before[k], name@),
        decreases list.len() - p,
    {
        assert(precedes(before[p as int], name@));
        p += 1;
    }
    assert(p < list.len() ==> !precedes(before[p as int], name@));
    if p < list.len() && list[p] == name {
        assert(before[p as int] == name@);
        assert(before.to_set().insert(name@) =~= before.to_set());
        return;
    }
    list.insert(p, name);
    proof {
        let after = texts(list@);
        assert(after =~= before.insert(p as int, name@));
        assert forall|i: int, j: int| 0 <= i < j < after.len() implies precedes(
            #[trigger] after[i],
            #[trigger] after[j],
        ) by {
            if j < p {
                assert(precedes(before[i], before[j]));
            } else if j == p {
                assert(precedes(before[i], name@));
            } else if i == p {
                // The name comes before the entry it displaced, and so
                // before all later ones.
                lemma_precedes_trichotomy(before[p as int], name@);
                assert(precedes(name@, before[p as int]));
                if j - 1 > p {
                    assert(precedes(before[p as int], before[j - 1]));
                    lemma_precedes_transitive(name@, before[p as int], before[j - 1]);
                }
            } else if i < p {
                assert(precedes(before[i], before[j - 1]));
            } else {
                assert(precedes(before[i - 1], before[j - 1]));
            }
        }
        assert forall|t: Seq<char>| after.to_set().contains(t) <==> before.to_set().insert(
            name@,
        ).contains(t) by {
            if after.to_set().contains(t) {
                let i = choose|i: int| 0 <= i < after.len() && after[i] == t;
                if i < p {
                    assert(before[i] == t);
                } else if i > p {
                    assert(before[i - 1] == t);
                }
            }
            if before.to_set().contains(t) {
                let i = choose|i: int| 0 <= i < before.len() && before[i] == t;
                if i < p {
                    assert(after[i] == t);
                } else {
                    assert(after[i + 1] == t);
                }
            }
            if t == name@ {
                assert(after[p as int] == t);
            }
        }
        assert(after.to_set() =~= before.to_set().insert(name@));
    }
}

impl Block {
    #[verifier::type_invariant]
    spec fn parents_ascend(self) -> bool {
        ascending(texts(self.parents@))
    }

    /// Makes a block from its content, its parents in any order and with
    /// repetitions, and its time of creation. The parents are put in
    /// ascending order and each is kept once. Nothing is asked of the
    /// texts: whether a parent names a block shows when the block is
    /// verified.
    pub fn new(content: BlockContent, parents: Vec<String>, timestamp: u64) -> (b: Block)
        ensures
            b@.valid(),
            b@.content == content@,
            b@.timestamp == timestamp,
            b@.parents.to_set() == texts(parents@).to_set(),
            b@.parents.len() <= parents@.len(),
    {
        let mut sorted: Vec<String> = Vec::new();
        let mut i: usize = 0;
        assert(texts(sorted@).to_set() =~= texts(parents@).take(0).to_set());
        while i < parents.len()
            invariant
                0 <= i <= parents.len(),
                ascending(texts(sorted@)),
                sorted@.len() <= i,
                texts(sorted@).to_set() == texts(parents@).take(i as int).to_set(),
            decreases parents.len() - i,
        {
            insert_parent(&mut sorted, parents[i].clone());
            proof {
                let all = texts(parents@);
                let head = all.take(i as int);
                let next = all.take(i + 1);
                assert(next =~= head.push(all[i as int]));
                assert forall|t: Seq<char>| next.to_set().contains(t) <==> head.to_set().insert(
                    all[i as int],
                ).contains(t) by {
                    if next.to_set().contains(t) {
                        let k = choose|k: int| 0 <= k < next.len() && next[k] == t;
                        if k < i {
                            assert(head[k] == t);
                        }
                    }
                    if head.to_set().contains(t) {
                        let k = choose|k: int| 0 <= k < head.len() && head[k] == t;
                        assert(next[k] == t);
                    }
                    if t == all[i as int] {
                        assert(next[i as int] == t);
                    }
                }
                assert(next.to_set() =~= head.to_set().insert(all[i as int]));
            }
            i += 1;
        }
        proof {
            assert(texts(parents@).take(i as int) =~= texts(parents@));
        }
        Block { content, parents: sorted, timestamp }
    }

    /// Makes a block from its content, its parents as they stand and its
    /// time of creation, where the parents stand in ascending order.
    pub fn from_parts(content: BlockContent, parents: Vec<String>, timestamp: u64) -> (made: Option<
        Block,
    >)
        ensures
            match made {
                Some(b) => {
                    &&& ascending(texts(parents@))
                    &&& b@.content == content@
                    &&& b@.parents == texts(parents@)
                    &&& b@.timestamp == timestamp
                },
                None => !ascending(texts(parents@)),
            },
    {
        if is_ascending(&parents) {
            Some(Block { content, parents, timestamp })
        } else {
            None
        }
    }

    /// The content of the block.
    pub fn content(&self) -> (content: &BlockContent)
        ensures
            content@ == self@.content,
    {
        &self.content
    }

    /// The names of the parents, in ascending order.
    pub fn parents(&self) -> (parents: &Vec<String>)
        ensures
            texts(parents@) == self@.parents,
            ascending(texts(parents@)),
    {
        proof {
            use_type_invariant(self);
        }
        &self.parents
    }

    /// The names of the parents, in ascending order, for whoever takes
    /// the block apart.
    pub fn into_parents(self) -> (parents: Vec<String>)
        ensures
            texts(parents@) == self@.parents,
    {
        self.parents
    }

    /// The time of creation, in seconds.
    pub fn timestamp(&self) -> (timestamp: u64)
        ensures
            timestamp == self@.timestamp,
    {
        self.timestamp
    }
}

/// Blocks made from the same content and time, and from parent lists with
/// the same members in whatever order, hold the same.
pub proof fn lemma_parent_order_is_immaterial(a: BlockView, b: BlockView)
    requires
        a.valid(),
        b.valid(),
        a.content == b.content,
        a.timestamp == b.timestamp,
        a.parents.to_set() == b.parents.to_set(),
    ensures
        a == b,
{
    crate::order::lemma_ascending_unique(a.parents, b.parents);
}

} // verus!
