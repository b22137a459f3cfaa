//! The tags of map elements: text values by text key.

use vstd::prelude::*;

verus! {

/// The entry of index `i` has key `k`.
spec fn entry_at(entries: Seq<(String, String)>, i: int, k: Seq<char>) -> bool {
    0 <= i < entries.len() && entries[i].0@ == k
}

/// The values of the entries, by key.
spec fn tag_map(entries: Seq<(String, String)>) -> Map<Seq<char>, Seq<char>> {
    Map::new(
        |k: Seq<char>| exists|i: int| entry_at(entries, i, k),
        |k: Seq<char>| entries[choose|i: int| entry_at(entries, i, k)].1@,
    )
}

/// The tags of an element, by key.
#[derive(Debug)]
pub struct Tags {
    entries: Vec<(String, String)>,
}

impl View for Tags {
    type V = Map<Seq<char>, Seq<char>>;

    closed spec fn view(&self) -> Map<Seq<char>, Seq<char>> {
        tag_map(self.entries@)
    }
}

impl Tags {
    /// No key occurs twice.
    #[verifier::type_invariant]
    spec fn keys_are_distinct(self) -> bool {
        forall|i: int, j: int|
            0 <= i < j < self.entries@.len() ==> (#[trigger] self.entries@[i]).0@ != (
            #[trigger] self.entries@[j]).0@
    }

    pub fn new() -> (r: Tags)
        ensures
            r@ == Map::<Seq<char>, Seq<char>>::empty(),
    {
        let r = Tags { entries: Vec::new() };
        assert(r@ =~= Map::<Seq<char>, Seq<char>>::empty());
        r
    }

    proof fn lemma_entry(&self, i: int)
        requires
            self.keys_are_distinct(),
            0 <= i < self.entries@.len(),
        ensures
            self@.contains_key(self.entries@[i].0@),
            self@[self.entries@[i].0@] == self.entries@[i].1@,
    {
        let k = self.entries@[i].0@;
        assert(entry_at(self.entries@, i, k));
        let j = choose|j: int| entry_at(self.entries@, j, k);
        assert(entry_at(self.entries@, j, k));
        assert(i == j);
    }

    /// The index of the entry with key `key`; the number of entries if there
    /// is none.
    fn find(&self, key: &str) -> (at: usize)
        ensures
            at <= self.entries@.len(),
            at < self.entries@.len() ==> entry_at(self.entries@, at as int, key@),
            at == self.entries@.len() ==> forall|i: int| !entry_at(self.entries@, i, key@),
    {
        let wanted: String = key.to_owned();
        let mut at: usize = 0;
        while at < self.entries.len()
            invariant
                at <= self.entries@.len(),
                wanted@ == key@,
                forall|i: int| 0 <= i < at ==> !entry_at(self.entries@, i, key@),
            decreases self.entries@.len() - at,
        {
            if self.entries[at].0 == wanted {
                return at;
            }
            at = at + 1;
        }
        at
    }

    pub fn contains_key(&self, key: &str) -> (r: bool)
        ensures
            r == self@.contains_key(key@),
    {
        let at = self.find(key);
        at < self.entries.len()
    }

    pub fn get(&self, key: &str) -> (r: Option<&String>)
        ensures
            r is Some <==> self@.contains_key(key@),
            r matches Some(value) ==> value@ == self@[key@],
    {
        proof {
            use_type_invariant(self);
        }
        let at = self.find(key);
        if at < self.entries.len() {
            proof {
                self.lemma_entry(at as int);
            }
            Some(&self.entries[at].1)
        } else {
            None
        }
    }

    /// Whether the tag `key` is present with the value `value`.
    pub fn has_value(&self, key: &str, value: &str) -> (r: bool)
        ensures
            r == (self@.contains_key(key@) && self@[key@] == value@),
    {
        match self.get(key) {
            Some(found) => *found == value.to_owned(),
            None => false,
        }
    }

    /// Sets the tag `key` to `value`, in place of its former value if it had
    /// one.
    pub fn insert(&mut self, key: String, value: String)
        ensures
            final(self)@ == old(self)@.insert(key@, value@),
    {
        proof {
            use_type_invariant(&*self);
        }
        let at = self.find(key.as_str());
        let ghost before = *self;
        let mut entries: Vec<(String, String)> = Vec::new();
        std::mem::swap(&mut entries, &mut self.entries);
        let ghost k = key@;
        let ghost v = value@;
        if at < entries.len() {
            entries.set(at, (key, value));
        } else {
            entries.push((key, value));
        }
        proof {
            assert forall|i: int, j: int| 0 <= i < j < entries@.len() implies (
            #[trigger] entries@[i]).0@ != (#[trigger] entries@[j]).0@ by {
                assert(!entry_at(before.entries@, i, k) || i == at);
                assert(!entry_at(before.entries@, j, k) || j == at);
            }
        }
        *self = Tags { entries };
        proof {
            assert(self.entries@[at as int].0@ == k);
            assert forall|j: int, c: Seq<char>| c != k implies entry_at(self.entries@, j, c)
                == entry_at(before.entries@, j, c) by {}
            self.lemma_entry(at as int);
            assert forall|c: Seq<char>| self@.contains_key(c) == before@.insert(k, v).contains_key(
                c,
            ) by {
                if c != k {
                    if self@.contains_key(c) {
                        let j = choose|j: int| entry_at(self.entries@, j, c);
                        assert(entry_at(before.entries@, j, c));
                    }
                    if before@.contains_key(c) {
                        let j = choose|j: int| entry_at(before.entries@, j, c);
                        assert(entry_at(self.entries@, j, c));
                    }
                }
            }
            assert forall|c: Seq<char>| #[trigger] self@.contains_key(c) implies self@[c]
                == before@.insert(k, v)[c] by {
                if c != k {
                    let j = choose|j: int| entry_at(self.entries@, j, c);
                    assert(entry_at(self.entries@, j, c));
                    assert(entry_at(before.entries@, j, c));
                    self.lemma_entry(j);
                    before.lemma_entry(j);
                }
            }
            assert(self@ =~= before@.insert(k, v));
        }
    }
}

impl Clone for Tags {
    fn clone(&self) -> (r: Self)
        ensures
            r@ == self@,
    {
        proof {
            use_type_invariant(self);
        }
        let mut entries: Vec<(String, String)> = Vec::new();
        let mut i: usize = 0;
        while i < self.entries.len()
            invariant
                i <= self.entries@.len(),
                entries@ == self.entries@.take(i as int),
            decreases self.entries@.len() - i,
        {
            let entry = &self.entries[i];
            entries.push((entry.0.clone(), entry.1.clone()));
            i = i + 1;
            assert(entries@ =~= self.entries@.take(i as int));
        }
        assert(entries@ =~= self.entries@);
        Tags { entries }
    }
}

} // verus!
