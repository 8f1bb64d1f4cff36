//! An insertion-ordered child→similarity map, as the resolver returns it.
//!
//! Insertion keeps the position of an existing key and overwrites its value,
//! so the order in which children first appear is preserved.

use vstd::prelude::*;

verus! {

/// The index of the first entry whose key is `key`.
pub open spec fn spec_map_find(entries: Seq<(Seq<char>, int)>, key: Seq<char>) -> Option<int>
    decreases entries.len(),
{
    if entries.len() == 0 {
        None
    } else if entries[0].0 == key {
        Some(0int)
    } else {
        match spec_map_find(entries.drop_first(), key) {
            Some(i) => Some(i + 1),
            None => None,
        }
    }
}

/// Ordered-map insertion: an existing key keeps its position and takes the
/// new value; a new key goes to the end.
pub open spec fn spec_map_insert(
    entries: Seq<(Seq<char>, int)>,
    key: Seq<char>,
    value: int,
) -> Seq<(Seq<char>, int)> {
    match spec_map_find(entries, key) {
        Some(i) => entries.update(i, (key, value)),
        None => entries.push((key, value)),
    }
}

/// The value stored under `key`, if any.
pub open spec fn spec_map_get(entries: Seq<(Seq<char>, int)>, key: Seq<char>) -> Option<int> {
    match spec_map_find(entries, key) {
        Some(i) => Some(entries[i].1),
        None => None,
    }
}

/// The entry models of a vector of entries.
pub open spec fn entries_view(s: Seq<(String, i64)>) -> Seq<(Seq<char>, int)> {
    s.map_values(|e: (String, i64)| (e.0@, e.1 as int))
}

/// Properties of the first-match search: where it points, the key matches;
/// everything earlier does not; a miss means nothing matches.
pub proof fn lemma_map_find_props(entries: Seq<(Seq<char>, int)>, key: Seq<char>)
    ensures
        match spec_map_find(entries, key) {
            Some(i) => 0 <= i < entries.len() && entries[i].0 == key && (forall|k: int|
                0 <= k < i ==> (#[trigger] entries[k]).0 != key),
            None => forall|k: int| 0 <= k < entries.len() ==> (#[trigger] entries[k]).0 != key,
        },
    decreases entries.len(),
{
    if entries.len() > 0 && entries[0].0 != key {
        lemma_map_find_props(entries.drop_first(), key);
        assert(forall|k: int| 1 <= k < entries.len() ==> entries[k] == entries.drop_first()[k - 1]);
    }
}

/// The first-match search finds exactly the position that a left-to-right
/// scan stops at.
pub proof fn lemma_map_find_at(entries: Seq<(Seq<char>, int)>, key: Seq<char>, i: int)
    requires
        0 <= i <= entries.len(),
        forall|k: int| 0 <= k < i ==> (#[trigger] entries[k]).0 != key,
        i < entries.len() ==> entries[i].0 == key,
    ensures
        spec_map_find(entries, key) == (if i < entries.len() {
            Some(i)
        } else {
            None::<int>
        }),
    decreases entries.len(),
{
    if entries.len() == 0 {
    } else if entries[0].0 == key {
        assert(i == 0);
    } else {
        assert(i >= 1);
        assert(forall|k: int|
            0 <= k < entries.len() - 1 ==> entries.drop_first()[k] == entries[k + 1]);
        lemma_map_find_at(entries.drop_first(), key, i - 1);
    }
}

/// An insertion-ordered map from child artist name to integer similarity.
pub struct SimMap {
    entries: Vec<(String, i64)>,
}

impl View for SimMap {
    type V = Seq<(Seq<char>, int)>;

    closed spec fn view(&self) -> Seq<(Seq<char>, int)> {
        entries_view(self.entries@)
    }
}

impl SimMap {
    /// Keys are distinct.
    #[verifier::type_invariant]
    spec fn inv(self) -> bool {
        forall|i: int, j: int|
            #![trigger self@[i], self@[j]]
            0 <= i < j < self@.len() ==> self@[i].0 != self@[j].0
    }

    /// An empty map.
    pub fn new() -> (r: SimMap)
        ensures
            r@ == Seq::<(Seq<char>, int)>::empty(),
    {
        let r = SimMap { entries: Vec::new() };
        proof {
            assert(r@ =~= Seq::<(Seq<char>, int)>::empty());
        }
        r
    }

    /// The number of entries.
    pub fn len(&self) -> (r: usize)
        ensures
            r == self@.len(),
    {
        proof {
            assert(self@.len() == self.entries@.len());
        }
        self.entries.len()
    }

    /// The position of `key`, if present.
    fn find(&self, key: &String) -> (r: Option<usize>)
        ensures
            match r {
                Some(i) => i < self.entries.len() && spec_map_find(self@, key@) == Some(i as int),
                None => spec_map_find(self@, key@) is None,
            },
    {
        let n = self.entries.len();
        let mut i: usize = 0;
        while i < n
            invariant
                0 <= i <= n,
                n == self.entries.len(),
                forall|k: int| 0 <= k < i ==> (#[trigger] self@[k]).0 != key@,
            decreases n - i,
        {
            if self.entries[i].0.eq(key) {
                proof {
                    lemma_map_find_at(self@, key@, i as int);
                }
                return Some(i);
            }
            i = i + 1;
        }
        proof {
            lemma_map_find_at(self@, key@, n as int);
        }
        None
    }

    /// Insert `name` with `similarity`: an existing key keeps its position
    /// and takes the new value; a new key goes to the end.
    pub fn insert(&mut self, name: String, similarity: i64)
        ensures
            final(self)@ == spec_map_insert(old(self)@, name@, similarity as int),
    {
        proof {
            use_type_invariant(&*self);
        }
        let ghost old_model = self@;
        match self.find(&name) {
            Some(i) => {
                let mut rows: Vec<(String, i64)> = Vec::new();
                core::mem::swap(&mut rows, &mut self.entries);
                rows[i] = (name, similarity);
                proof {
                    lemma_map_find_props(old_model, name@);
                    assert(old_model[i as int].0 == name@);
                    assert(entries_view(rows@) =~= old_model.update(
                        i as int,
                        (name@, similarity as int),
                    ));
                    assert forall|a: int, b: int|
                        #![trigger entries_view(rows@)[a], entries_view(rows@)[b]]
                        0 <= a < b < entries_view(rows@).len() implies entries_view(rows@)[a].0
                        != entries_view(rows@)[b].0 by {
                        assert(entries_view(rows@)[a].0 == old_model[a].0);
                        assert(entries_view(rows@)[b].0 == old_model[b].0);
                    }
                }
                core::mem::swap(&mut rows, &mut self.entries);
                proof {
                    assert(final(self)@ =~= spec_map_insert(old_model, name@, similarity as int));
                }
            },
            None => {
                proof {
                    lemma_map_find_props(old_model, name@);
                }
                let mut rows: Vec<(String, i64)> = Vec::new();
                core::mem::swap(&mut rows, &mut self.entries);
                rows.push((name, similarity));
                proof {
                    assert(entries_view(rows@) =~= old_model.push((name@, similarity as int)));
                    assert forall|a: int, b: int|
                        #![trigger entries_view(rows@)[a], entries_view(rows@)[b]]
                        0 <= a < b < entries_view(rows@).len() implies entries_view(rows@)[a].0
                        != entries_view(rows@)[b].0 by {
                        if b < old_model.len() {
                            assert(entries_view(rows@)[a] == old_model[a]);
                            assert(entries_view(rows@)[b] == old_model[b]);
                        } else {
                            assert(entries_view(rows@)[a] == old_model[a]);
                            assert(entries_view(rows@)[b].0 == name@);
                        }
                    }
                }
                core::mem::swap(&mut rows, &mut self.entries);
                proof {
                    assert(final(self)@ =~= spec_map_insert(old_model, name@, similarity as int));
                }
            },
        }
    }

    /// The similarity stored under `name`, if any.
    pub fn get(&self, name: &str) -> (r: Option<i64>)
        ensures
            match r {
                Some(v) => spec_map_get(self@, name@) == Some(v as int),
                None => spec_map_get(self@, name@) is None,
            },
    {
        let key = name.to_owned();
        match self.find(&key) {
            Some(i) => Some(self.entries[i].1),
            None => None,
        }
    }

    /// The entries in insertion order.
    pub fn entries(&self) -> (r: &Vec<(String, i64)>)
        ensures
            entries_view(r@) == self@,
    {
        &self.entries
    }
}

} // verus!
