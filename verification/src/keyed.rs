//! An ordered map from strings, kept as a sorted list of entries.

use vstd::prelude::*;

use crate::text;
use crate::text::{rank_text, Rank};

verus! {

/// A map from strings whose entries are kept in the order of their keys.
pub struct TextMap<V> {
    entries: Vec<(String, V)>,
}

/// Whether the keys of a list of entries rise strictly.
pub open spec fn keys_rise<V>(entries: Seq<(String, V)>) -> bool {
    forall|i: int, j: int|
        0 <= i < j < entries.len() ==> text::text_before(
            #[trigger] entries[i].0@,
            #[trigger] entries[j].0@,
        )
}

/// Whether a list of entries holds `key` at index `i`.
pub open spec fn key_at<V>(entries: Seq<(String, V)>, key: Seq<char>, i: int) -> bool {
    0 <= i < entries.len() && entries[i].0@ == key
}

/// Whether a list of entries holds `key`.
pub open spec fn has_key<V>(entries: Seq<(String, V)>, key: Seq<char>) -> bool {
    exists|i: int| key_at(entries, key, i)
}

/// Where a list of entries holds `key`.
pub open spec fn index_of_key<V>(entries: Seq<(String, V)>, key: Seq<char>) -> int {
    choose|i: int| key_at(entries, key, i)
}

/// The map that a list of entries stands for.
pub open spec fn map_of<V: View>(entries: Seq<(String, V)>) -> Map<Seq<char>, V::V> {
    Map::new(
        |key: Seq<char>| has_key(entries, key),
        |key: Seq<char>| entries[index_of_key(entries, key)].1@,
    )
}

impl<V> TextMap<V> {
    #[verifier::type_invariant]
    spec fn well_formed(self) -> bool {
        keys_rise(self.entries@)
    }
}

impl<V: View> View for TextMap<V> {
    type V = Map<Seq<char>, V::V>;

    closed spec fn view(&self) -> Map<Seq<char>, V::V> {
        map_of(self.entries@)
    }
}

/// A key stands at one index only.
proof fn lemma_one_index<V>(entries: Seq<(String, V)>, key: Seq<char>, i: int)
    requires
        keys_rise(entries),
        key_at(entries, key, i),
    ensures
        has_key(entries, key),
        index_of_key(entries, key) == i,
{
    let k = index_of_key(entries, key);
    assert(key_at(entries, key, k));
    text::lemma_text_before_irreflexive(key);
    if k < i {
        assert(text::text_before(entries[k].0@, entries[i].0@));
    }
    if i < k {
        assert(text::text_before(entries[i].0@, entries[k].0@));
    }
}

/// Whether the entries in front of `at` come before `key` and the others do not.
spec fn splits<V>(entries: Seq<(String, V)>, key: Seq<char>, at: int) -> bool {
    &&& 0 <= at <= entries.len()
    &&& forall|j: int| 0 <= j < at ==> text::text_before(#[trigger] entries[j].0@, key)
    &&& forall|j: int| at <= j < entries.len() ==> !text::text_before(#[trigger] entries[j].0@, key)
}

/// Where `key` stands or would be put.
fn slot<V>(entries: &Vec<(String, V)>, key: &str) -> (r: (usize, bool))
    requires
        keys_rise(entries@),
    ensures
        splits(entries@, key@, r.0 as int),
        r.1 == has_key(entries@, key@),
        r.1 ==> key_at(entries@, key@, r.0 as int),
        !r.1 ==> forall|j: int|
            r.0 <= j < entries@.len() ==> text::text_before(key@, #[trigger] entries@[j].0@),
{
    let mut low: usize = 0;
    let mut high: usize = entries.len();
    while low < high
        invariant
            keys_rise(entries@),
            low <= high <= entries@.len(),
            forall|j: int| 0 <= j < low ==> text::text_before(#[trigger] entries@[j].0@, key@),
            forall|j: int|
                high <= j < entries@.len() ==> text::text_before(key@, #[trigger] entries@[j].0@),
        decreases high - low,
    {
        let mid: usize = low + (high - low) / 2;
        let ghost found = entries@[mid as int].0@;
        match rank_text(entries[mid].0.as_str(), key) {
            Rank::Before => {
                assert forall|j: int| 0 <= j < mid + 1 implies text::text_before(
                    #[trigger] entries@[j].0@,
                    key@,
                ) by {
                    if j < mid {
                        text::lemma_text_before_transitive(entries@[j].0@, found, key@);
                    }
                }
                low = mid + 1;
            },
            Rank::After => {
                assert forall|j: int| mid <= j < entries@.len() implies text::text_before(
                    key@,
                    #[trigger] entries@[j].0@,
                ) by {
                    if j > mid {
                        text::lemma_text_before_transitive(key@, found, entries@[j].0@);
                    }
                }
                high = mid;
            },
            Rank::Same => {
                proof {
                    assert(key_at(entries@, key@, mid as int));
                    text::lemma_text_before_irreflexive(key@);
                    assert forall|j: int| mid <= j < entries@.len() implies !text::text_before(
                        #[trigger] entries@[j].0@,
                        key@,
                    ) by {
                        if j > mid && text::text_before(entries@[j].0@, key@) {
                            text::lemma_text_before_transitive(key@, entries@[j].0@, key@);
                        }
                    }
                }
                return (mid, true);
            },
        }
    }
    proof {
        text::lemma_text_before_irreflexive(key@);
        assert forall|j: int| low <= j < entries@.len() implies !text::text_before(
            #[trigger] entries@[j].0@,
            key@,
        ) by {
            if text::text_before(entries@[j].0@, key@) {
                text::lemma_text_before_transitive(key@, entries@[j].0@, key@);
            }
        }
        if has_key(entries@, key@) {
            let i = index_of_key(entries@, key@);
            assert(key_at(entries@, key@, i));
            assert(text::text_before(entries@[i].0@, key@) || text::text_before(
                key@,
                entries@[i].0@,
            ));
        }
    }
    (low, false)
}

proof fn lemma_put_new<V: View>(entries: Seq<(String, V)>, at: int, key: String, value: V)
    requires
        keys_rise(entries),
        splits(entries, key@, at),
        forall|j: int|
            at <= j < entries.len() ==> text::text_before(key@, #[trigger] entries[j].0@),
    ensures
        keys_rise(entries.insert(at, (key, value))),
        map_of(entries.insert(at, (key, value))) == map_of(entries).insert(key@, value@),
{
    let longer = entries.insert(at, (key, value));
    assert forall|i: int, j: int| 0 <= i < j < longer.len() implies text::text_before(
        #[trigger] longer[i].0@,
        #[trigger] longer[j].0@,
    ) by {
        let a = if i < at {
            i
        } else {
            i - 1
        };
        let b = if j < at {
            j
        } else {
            j - 1
        };
        if i != at {
            assert(longer[i] == entries[a]);
        }
        if j != at {
            assert(longer[j] == entries[b]);
        }
    }
    let before = map_of(entries);
    let after = map_of(longer);
    assert(key_at(longer, key@, at));
    lemma_one_index(longer, key@, at);
    let expected = before.insert(key@, value@);
    assert forall|k: Seq<char>| #[trigger] after.contains_key(k) implies expected.contains_key(k)
        && after[k] == expected[k] by {
        let i = index_of_key(longer, k);
        assert(key_at(longer, k, i));
        if k != key@ {
            let a = if i < at {
                i
            } else {
                i - 1
            };
            assert(key_at(entries, k, a));
            lemma_one_index(entries, k, a);
        }
    }
    assert forall|k: Seq<char>| #[trigger] expected.contains_key(k) implies after.contains_key(k) by {
        if k != key@ {
            let a = index_of_key(entries, k);
            assert(key_at(entries, k, a));
            let i = if a < at {
                a
            } else {
                a + 1
            };
            assert(key_at(longer, k, i));
        }
    }
    assert(after =~= expected);
}

proof fn lemma_put_over<V: View>(entries: Seq<(String, V)>, at: int, key: String, value: V)
    requires
        keys_rise(entries),
        key_at(entries, key@, at),
    ensures
        keys_rise(entries.update(at, (key, value))),
        map_of(entries.update(at, (key, value))) == map_of(entries).insert(key@, value@),
{
    let changed = entries.update(at, (key, value));
    assert forall|i: int, j: int| 0 <= i < j < changed.len() implies text::text_before(
        #[trigger] changed[i].0@,
        #[trigger] changed[j].0@,
    ) by {
        assert(changed[i].0@ == entries[i].0@);
        assert(changed[j].0@ == entries[j].0@);
    }
    let before = map_of(entries);
    let after = map_of(changed);
    assert(key_at(changed, key@, at));
    lemma_one_index(changed, key@, at);
    let expected = before.insert(key@, value@);
    assert forall|k: Seq<char>| #[trigger] after.contains_key(k) implies expected.contains_key(k)
        && after[k] == expected[k] by {
        let i = index_of_key(changed, k);
        assert(key_at(changed, k, i));
        assert(key_at(entries, k, i));
        lemma_one_index(entries, k, i);
        lemma_one_index(entries, key@, at);
    }
    assert forall|k: Seq<char>| #[trigger] expected.contains_key(k) implies after.contains_key(k) by {
        if k != key@ {
            let i = index_of_key(entries, k);
            assert(key_at(entries, k, i));
            assert(key_at(changed, k, i));
        }
    }
    assert(after =~= expected);
}

impl<V: View> TextMap<V> {
    /// An empty map.
    pub fn new() -> (r: TextMap<V>)
        ensures
            r@ == Map::<Seq<char>, V::V>::empty(),
    {
        let r = TextMap { entries: Vec::new() };
        assert(r@ =~= Map::<Seq<char>, V::V>::empty()) by {
            assert forall|k: Seq<char>| !(#[trigger] r@.contains_key(k)) by {
                if has_key(r.entries@, k) {
                    let i = index_of_key(r.entries@, k);
                    assert(key_at(r.entries@, k, i));
                }
            }
        }
        r
    }

    /// Whether the map has a value for `key`.
    pub fn contains_key(&self, key: &str) -> (r: bool)
        ensures
            r == self@.contains_key(key@),
    {
        proof {
            use_type_invariant(self);
        }
        slot(&self.entries, key).1
    }

    /// The value for `key`.
    pub fn get(&self, key: &str) -> (r: Option<&V>)
        ensures
            match r {
                Some(value) => self@.contains_key(key@) && self@[key@] == value@,
                None => !self@.contains_key(key@),
            },
    {
        proof {
            use_type_invariant(self);
        }
        let (at, found): (usize, bool) = slot(&self.entries, key);
        if found {
            proof {
                lemma_one_index(self.entries@, key@, at as int);
            }
            Some(&self.entries[at].1)
        } else {
            None
        }
    }

    /// Puts a value for `key`, in place of the one before it.
    pub fn insert(&mut self, key: String, value: V)
        ensures
            final(self)@ == old(self)@.insert(key@, value@),
    {
        proof {
            use_type_invariant(&*self);
        }
        let mut entries: Vec<(String, V)> = Vec::new();
        std::mem::swap(&mut entries, &mut self.entries);
        let ghost before = entries@;
        let (at, found): (usize, bool) = slot(&entries, key.as_str());
        if found {
            proof {
                lemma_put_over(before, at as int, key, value);
            }
            entries.set(at, (key, value));
        } else {
            proof {
                lemma_put_new(before, at as int, key, value);
            }
            entries.insert(at, (key, value));
        }
        self.entries = entries;
    }

    /// The entries in the order of their keys.
    pub fn into_entries(self) -> (r: Vec<(String, V)>)
        ensures
            keys_rise(r@),
            map_of(r@) == self@,
            forall|i: int|
                0 <= i < r@.len() ==> self@.dom().contains((#[trigger] r@[i]).0@)
                    && self@[r@[i].0@] == r@[i].1@,
            forall|key: Seq<char>| #[trigger]
                self@.dom().contains(key) ==> exists|i: int|
                    0 <= i < r@.len() && (#[trigger] r@[i]).0@ == key,
    {
        proof {
            use_type_invariant(&self);
            assert forall|i: int| 0 <= i < self.entries@.len() implies self@.dom().contains(
                (#[trigger] self.entries@[i]).0@,
            ) && self@[self.entries@[i].0@] == self.entries@[i].1@ by {
                assert(key_at(self.entries@, self.entries@[i].0@, i));
                lemma_one_index(self.entries@, self.entries@[i].0@, i);
            }
            assert forall|key: Seq<char>| #[trigger] self@.dom().contains(key) implies exists|
                i: int,
            | 0 <= i < self.entries@.len() && (#[trigger] self.entries@[i]).0@ == key by {
                let i = index_of_key(self.entries@, key);
                assert(key_at(self.entries@, key, i));
                assert(self.entries@[i].0@ == key);
            }
        }
        self.entries
    }
}

} // verus!
