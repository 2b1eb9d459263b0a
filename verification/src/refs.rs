//! Tags: names that point at block hashes and may be pointed anew. A
//! reference is the name of a tag or, where no such tag exists, a hash
//! written out.

use vstd::prelude::*;
use crate::error::StoreError;
use crate::table::Table;

verus! {

/// A tag, known by its name.
#[derive(Debug, PartialEq, Eq)]
pub struct Tag {
    pub name: String,
}

/// A reference to a block.
#[derive(Debug, PartialEq, Eq)]
pub enum Ref {
    /// The name of a tag.
    Tag(Tag),
    /// A hash written out.
    Hash(String),
}

/// What a `Ref` holds.
pub enum RefView {
    Tag(Seq<char>),
    Hash(Seq<char>),
}

impl View for Tag {
    type V = Seq<char>;

    open spec fn view(&self) -> Seq<char> {
        self.name@
    }
}

impl View for Ref {
    type V = RefView;

    open spec fn view(&self) -> RefView {
        match self {
            Ref::Tag(tag) => RefView::Tag(tag@),
            Ref::Hash(hash) => RefView::Hash(hash@),
        }
    }
}

/// What the tags point at, by name.
pub type Pointers = Map<Seq<char>, Seq<char>>;

/// The tags and what each of them points at.
pub struct RefTable {
    table: Table<String>,
}

impl View for RefTable {
    type V = Pointers;

    closed spec fn view(&self) -> Pointers {
        Map::new(
            |name: Seq<char>| self.table.holds(name),
            |name: Seq<char>| self.table.value_of(name)@,
        )
    }
}

/// The reference that `text` is, given the tags: a tag where there is one
/// of that name, else a hash.
pub open spec fn classify(tags: Pointers, text: Seq<char>) -> RefView {
    if tags.dom().contains(text) {
        RefView::Tag(text)
    } else {
        RefView::Hash(text)
    }
}

/// The hash that `text` refers to, given the tags: what the tag of that
/// name points at, or, where there is none, `text` itself.
pub open spec fn resolve(tags: Pointers, text: Seq<char>) -> Seq<char> {
    if tags.dom().contains(text) {
        tags[text]
    } else {
        text
    }
}

impl RefTable {
    /// The table is in order: no tag stands twice.
    pub closed spec fn wf(&self) -> bool {
        self.table.wf()
    }

    /// A table without tags.
    pub fn new() -> (refs: RefTable)
        ensures
            refs.wf(),
            refs@ == Map::<Seq<char>, Seq<char>>::empty(),
    {
        let refs = RefTable { table: Table::new() };
        assert(refs@ =~= Map::<Seq<char>, Seq<char>>::empty());
        refs
    }

    /// What the tag `name` points at, if there is such a tag.
    fn get(&self, name: &str) -> (found: Option<String>)
        requires
            self.wf(),
        ensures
            match found {
                Some(hash) => self@.dom().contains(name@) && hash@ == self@[name@],
                None => !self@.dom().contains(name@),
            },
    {
        match self.table.get(name) {
            Some(hash) => Some(hash.clone()),
            None => None,
        }
    }

    /// Points the tag `name` at `hash`, whatever it pointed at before.
    fn set(&mut self, name: String, hash: String)
        requires
            old(self).wf(),
        ensures
            final(self).wf(),
            final(self)@ == old(self)@.insert(name@, hash@),
    {
        let ghost key = name@;
        let ghost value = hash@;
        self.table.insert(name, hash);
        proof {
            assert forall|k: Seq<char>| #[trigger]
                self@.dom().contains(k) == old(self)@.insert(key, value).dom().contains(k) by {
                assert(self.table.holds(k) == (k == key || old(self).table.holds(k)));
            }
            assert forall|k: Seq<char>| #[trigger] self@.dom().contains(k) implies self@[k] == old(
                self,
            )@.insert(key, value)[k] by {
                assert(self.table.holds(k));
            }
            assert(self@ =~= old(self)@.insert(key, value));
        }
    }
}

impl Tag {
    /// What the tag points at. Fails with `NotFound` where there is no
    /// tag of this name.
    pub fn resolve(&self, refs: &RefTable) -> (r: Result<String, StoreError>)
        requires
            refs.wf(),
        ensures
            match r {
                Ok(hash) => refs@.dom().contains(self@) && hash@ == refs@[self@],
                Err(e) => e == StoreError::NotFound && !refs@.dom().contains(self@),
            },
    {
        match refs.get(self.name.as_str()) {
            Some(hash) => Ok(hash),
            None => Err(StoreError::NotFound),
        }
    }

    /// Points the tag at `hash`. A tag of this name that exists points
    /// there from now on; the other tags stay as they are.
    pub fn write(&self, refs: &mut RefTable, hash: &str)
        requires
            old(refs).wf(),
        ensures
            final(refs).wf(),
            final(refs)@ == old(refs)@.insert(self@, hash@),
    {
        refs.set(self.name.clone(), hash.to_owned());
    }
}

impl Ref {
    /// The reference that `text` is: a tag where `refs` has one of that
    /// name, else a hash.
    pub fn parse(refs: &RefTable, text: &str) -> (r: Ref)
        requires
            refs.wf(),
        ensures
            r@ == classify(refs@, text@),
    {
        match refs.get(text) {
            Some(_) => Ref::Tag(Tag { name: text.to_owned() }),
            None => Ref::Hash(text.to_owned()),
        }
    }

    /// The hash that the reference stands for: what its tag points at,
    /// or the hash that it is. A tag that no longer exists stands for its
    /// own name.
    pub fn hash(&self, refs: &RefTable) -> (hash: String)
        requires
            refs.wf(),
        ensures
            hash@ == match self@ {
                RefView::Tag(name) => resolve(refs@, name),
                RefView::Hash(text) => text,
            },
    {
        match self {
            Ref::Tag(tag) => match tag.resolve(refs) {
                Ok(hash) => hash,
                Err(_) => tag.name.clone(),
            },
            Ref::Hash(text) => text.clone(),
        }
    }

    /// The hash that `text` refers to: what the tag of that name points
    /// at or, where there is no such tag, `text` itself, unchanged and
    /// unchecked. It never fails.
    pub fn from_str(refs: &RefTable, text: &str) -> (r: Result<String, StoreError>)
        requires
            refs.wf(),
        ensures
            r matches Ok(hash) && hash@ == resolve(refs@, text@),
    {
        let tag = Tag { name: text.to_owned() };
        Ok(Ref::fallback(text, tag.resolve(refs)))
    }

    /// The hash that `text` refers to, given what reading the tag of that
    /// name gave: what was read or, where the reading failed in whatever
    /// way, `text` itself.
    pub fn fallback(text: &str, read: Result<String, StoreError>) -> (hash: String)
        ensures
            hash@ == match read {
                Ok(found) => found@,
                Err(_) => text@,
            },
    {
        match read {
            Ok(found) => found,
            Err(_) => text.to_owned(),
        }
    }
}

/// Fallback: a name without a tag refers to itself.
pub proof fn lemma_resolve_without_tag(tags: Pointers, text: Seq<char>)
    requires
        !tags.dom().contains(text),
    ensures
        resolve(tags, text) == text,
{
}

/// Overwrite: a tag refers to what it was pointed at last, and pointing
/// one tag leaves what every other name refers to unchanged.
pub proof fn lemma_resolve_after_write(
    tags: Pointers,
    name: Seq<char>,
    first: Seq<char>,
    second: Seq<char>,
    other: Seq<char>,
)
    ensures
        resolve(tags.insert(name, first), name) == first,
        resolve(tags.insert(name, first).insert(name, second), name) == second,
        other != name ==> resolve(tags.insert(name, first), other) == resolve(tags, other),
{
}

} // verus!
