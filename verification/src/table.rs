//! A table of values by name, in which each name stands once.

use vstd::prelude::*;
use crate::text::str_eq;

verus! {

/// Values filed under names.
pub struct Table<V> {
    names: Vec<String>,
    values: Vec<V>,
}

/// The first index at or after `from` at which `names` holds `name`, or
/// the length of `names`.
pub open spec fn position(names: Seq<String>, name: Seq<char>, from: int) -> int
    decreases names.len() - from,
{
    if 0 <= from < names.len() && names[from]@ != name {
        position(names, name, from + 1)
    } else {
        from
    }
}

/// The position of a name lies in the list or at its end; where it lies
/// in the list the name stands there, and nowhere before.
pub proof fn lemma_position(names: Seq<String>, name: Seq<char>, from: int)
    requires
        0 <= from <= names.len(),
    ensures
        from <= position(names, name, from) <= names.len(),
        position(names, name, from) < names.len() ==> names[position(names, name, from)]@ == name,
        forall|k: int| from <= k < position(names, name, from) ==> (#[trigger] names[k])@ != name,
    decreases names.len() - from,
{
    if from < names.len() && names[from]@ != name {
        lemma_position(names, name, from + 1);
    }
}

impl<V> Table<V> {
    /// No name is filed twice, and every name has its value.
    pub closed spec fn wf(&self) -> bool {
        &&& self.names.len() == self.values.len()
        &&& forall|i: int, j: int|
            0 <= i < j < self.names.len() ==> (#[trigger] self.names[i])@ != (
            #[trigger] self.names[j])@
    }

    /// Whether a value is filed under `name`.
    pub closed spec fn holds(&self, name: Seq<char>) -> bool {
        position(self.names@, name, 0) < self.names.len()
    }

    /// The value filed under `name`.
    pub closed spec fn value_of(&self, name: Seq<char>) -> V {
        self.values[position(self.names@, name, 0)]
    }

    /// The names under which something is filed.
    pub open spec fn names(&self) -> Set<Seq<char>> {
        Set::new(|name: Seq<char>| self.holds(name))
    }

    /// An empty table.
    pub fn new() -> (table: Table<V>)
        ensures
            table.wf(),
            forall|name: Seq<char>| !table.holds(name),
    {
        Table { names: Vec::new(), values: Vec::new() }
    }

    /// The names among the first `n` are `n` in number.
    proof fn lemma_count(&self, n: int)
        requires
            self.wf(),
            0 <= n <= self.names.len(),
        ensures
            Set::new(|name: Seq<char>| position(self.names@, name, 0) < n).finite(),
            Set::new(|name: Seq<char>| position(self.names@, name, 0) < n).len() == n,
        decreases n,
    {
        let now = Set::new(|name: Seq<char>| position(self.names@, name, 0) < n);
        if n == 0 {
            assert forall|name: Seq<char>| !now.contains(name) by {
                lemma_position(self.names@, name, 0);
            }
            assert(now =~= Set::<Seq<char>>::empty());
        } else {
            self.lemma_count(n - 1);
            let before = Set::new(|name: Seq<char>| position(self.names@, name, 0) < n - 1);
            let last = self.names[n - 1]@;
            assert forall|name: Seq<char>| now.contains(name) <==> before.insert(last).contains(
                name,
            ) by {
                lemma_position(self.names@, name, 0);
                lemma_position(self.names@, last, 0);
            }
            assert(now =~= before.insert(last));
            assert(!before.contains(last)) by {
                lemma_position(self.names@, last, 0);
            }
        }
    }

    /// The number of names.
    pub fn len(&self) -> (n: usize)
        requires
            self.wf(),
        ensures
            self.names().finite(),
            n == self.names().len(),
    {
        proof {
            self.lemma_count(self.names.len() as int);
            assert(self.names() =~= Set::new(
                |name: Seq<char>| position(self.names@, name, 0) < self.names.len(),
            ));
        }
        self.names.len()
    }

    /// The index of the value filed under `name`, or the number of names
    /// where there is none.
    fn find(&self, name: &str) -> (i: usize)
        ensures
            i == position(self.names@, name@, 0),
            i <= self.names.len(),
    {
        let mut i: usize = 0;
        while i < self.names.len() && !str_eq(self.names[i].as_str(), name)
            invariant
                0 <= i <= self.names.len(),
                position(self.names@, name@, 0) == position(self.names@, name@, i as int),
            decreases self.names.len() - i,
        {
            i += 1;
        }
        i
    }

    /// The value filed under `name`, if there is one.
    pub fn get(&self, name: &str) -> (found: Option<&V>)
        requires
            self.wf(),
        ensures
            match found {
                Some(value) => self.holds(name@) && *value == self.value_of(name@),
                None => !self.holds(name@),
            },
    {
        let i = self.find(name);
        if i < self.names.len() {
            Some(&self.values[i])
        } else {
            None
        }
    }

    /// Files `value` under `name`, in place of what was filed there.
    pub fn insert(&mut self, name: String, value: V)
        requires
            old(self).wf(),
        ensures
            final(self).wf(),
            forall|k: Seq<char>| #[trigger] final(self).holds(k) == (k == name@ || old(self).holds(k)),
            forall|k: Seq<char>|
                final(self).holds(k) ==> #[trigger] final(self).value_of(k) == if k == name@ {
                    value
                } else {
                    old(self).value_of(k)
                },
    {
        let i = self.find(name.as_str());
        proof {
            lemma_position(self.names@, name@, 0);
        }
        let ghost key = name@;
        if i < self.names.len() {
            self.values.set(i, value);
        } else {
            self.names.push(name);
            self.values.push(value);
        }
        proof {
            assert forall|k: Seq<char>| #[trigger]
                self.holds(k) == (k == key || old(self).holds(k)) && (self.holds(k)
                    ==> self.value_of(k) == if k == key {
                    value
                } else {
                    old(self).value_of(k)
                }) by {
                lemma_position(old(self).names@, k, 0);
                lemma_position(self.names@, k, 0);
                let p = position(old(self).names@, k, 0);
                let q = position(self.names@, k, 0);
                if p < old(self).names.len() {
                    assert(self.names[p]@ == k);
                    if q < p {
                        assert(old(self).names[q]@ == k);
                    }
                } else if k == key {
                    assert(self.names[i as int]@ == k);
                    if q < i {
                        assert(old(self).names[q]@ == k);
                    }
                } else {
                    if q < self.names.len() {
                        if q < old(self).names.len() {
                            assert(old(self).names[q]@ == k);
                        }
                    }
                }
            }
        }
    }
}

} // verus!
