//! A map keyed by path, kept as a vector sorted by key so that lookups take
//! a binary search and listings come out in path order.

use crate::text::{lemma_lex_transitive, lemma_lex_trichotomy, lex_lt, lex_order, Order};
use vstd::prelude::*;

verus! {

/// The keys of `entries`, in order.
pub open spec fn entry_keys<V>(entries: Seq<(String, V)>) -> Seq<Seq<char>> {
    Seq::new(entries.len(), |i: int| entries[i].0@)
}

/// Each key precedes the next.
pub open spec fn strictly_sorted(keys: Seq<Seq<char>>) -> bool {
    forall|i: int, j: int| 0 <= i < j < keys.len() ==> lex_lt(#[trigger] keys[i], #[trigger] keys[j])
}

/// The map that sorted `entries` stand for.
pub open spec fn entries_map<V>(entries: Seq<(String, V)>) -> Map<Seq<char>, V> {
    Map::new(
        |k: Seq<char>| entry_keys(entries).contains(k),
        |k: Seq<char>| entries[entry_keys(entries).index_of(k)].1,
    )
}

/// Sorted keys are pairwise distinct.
pub proof fn lemma_sorted_distinct(keys: Seq<Seq<char>>)
    requires
        strictly_sorted(keys),
    ensures
        keys.no_duplicates(),
{
    assert forall|i: int, j: int| 0 <= i < keys.len() && 0 <= j < keys.len() && i != j implies keys[i]
        != keys[j] by {
        if i < j {
            lemma_lex_trichotomy(keys[i], keys[j]);
        } else {
            lemma_lex_trichotomy(keys[j], keys[i]);
        }
    }
}

/// Where every key of sorted `a` occurs in sorted `b`, the key at index `i`
/// of `a` stands at that index of `b` or later.
pub proof fn lemma_sorted_index_bound(a: Seq<Seq<char>>, b: Seq<Seq<char>>, i: int) -> (j: int)
    requires
        strictly_sorted(a),
        strictly_sorted(b),
        forall|k: int| 0 <= k < a.len() ==> b.contains(#[trigger] a[k]),
        0 <= i < a.len(),
    ensures
        i <= j < b.len(),
        b[j] == a[i],
    decreases i,
{
    assert(b.contains(a[i]));
    let j = b.index_of(a[i]);
    if i > 0 {
        let before = lemma_sorted_index_bound(a, b, i - 1);
        assert(lex_lt(a[i - 1], a[i]));
        lemma_lex_trichotomy(a[i - 1], a[i]);
        if j < before {
            assert(lex_lt(b[j], b[before]));
        }
    }
    j
}

/// Two sorted sequences with the same keys are the same sequence.
pub proof fn lemma_sorted_keys_unique(a: Seq<Seq<char>>, b: Seq<Seq<char>>)
    requires
        strictly_sorted(a),
        strictly_sorted(b),
        a.to_set() == b.to_set(),
    ensures
        a == b,
{
    assert forall|k: int| 0 <= k < a.len() implies b.contains(#[trigger] a[k]) by {
        assert(a.contains(a[k]));
        assert(a.to_set().contains(a[k]));
        assert(b.to_set().contains(a[k]));
    }
    assert forall|k: int| 0 <= k < b.len() implies a.contains(#[trigger] b[k]) by {
        assert(b.contains(b[k]));
        assert(b.to_set().contains(b[k]));
        assert(a.to_set().contains(b[k]));
    }
    lemma_sorted_distinct(a);
    lemma_sorted_distinct(b);
    assert forall|i: int| 0 <= i < a.len() implies i < b.len() && #[trigger] a[i] == b[i] by {
        let j = lemma_sorted_index_bound(a, b, i);
        let back = lemma_sorted_index_bound(b, a, j);
        assert(a[back] == a[i]);
    }
    if a.len() > 0 {
        assert(a[a.len() - 1] == b[a.len() - 1]);
    }
    if b.len() > 0 {
        let j = lemma_sorted_index_bound(b, a, b.len() - 1);
    }
    assert(a =~= b);
}

/// In a sorted sequence each entry is found under its own key.
pub proof fn lemma_entry_in_map<V>(entries: Seq<(String, V)>, i: int)
    requires
        strictly_sorted(entry_keys(entries)),
        0 <= i < entries.len(),
    ensures
        entries_map(entries).contains_key(entries[i].0@),
        entries_map(entries)[entries[i].0@] == entries[i].1,
{
    let keys = entry_keys(entries);
    let k = entries[i].0@;
    assert(keys[i] == k);
    let j = keys.index_of(k);
    assert(0 <= j < keys.len() && keys[j] == k);
    lemma_sorted_distinct(keys);
}

/// Putting a new key at its place in a sorted sequence keeps it sorted and
/// adds the key to the map.
pub proof fn lemma_insert_entry<V>(before: Seq<(String, V)>, idx: int, entry: (String, V))
    requires
        strictly_sorted(entry_keys(before)),
        0 <= idx <= before.len(),
        forall|i: int| 0 <= i < idx ==> lex_lt(#[trigger] before[i].0@, entry.0@),
        forall|i: int| idx <= i < before.len() ==> lex_lt(entry.0@, #[trigger] before[i].0@),
    ensures
        strictly_sorted(entry_keys(before.insert(idx, entry))),
        entries_map(before.insert(idx, entry)) == entries_map(before).insert(entry.0@, entry.1),
{
    let after = before.insert(idx, entry);
    let keys = entry_keys(before);
    let new_keys = entry_keys(after);
    before.insert_ensures(idx, entry);
    assert forall|i: int, j: int| 0 <= i < j < new_keys.len() implies lex_lt(
        #[trigger] new_keys[i],
        #[trigger] new_keys[j],
    ) by {
        let oi = if i < idx {
            i
        } else {
            i - 1
        };
        let oj = if j < idx {
            j
        } else {
            j - 1
        };
        if i == idx {
            assert(after[j] == before[oj]);
        } else if j == idx {
            assert(after[i] == before[oi]);
        } else {
            assert(after[i] == before[oi]);
            assert(after[j] == before[oj]);
            assert(lex_lt(keys[oi], keys[oj]));
        }
    }
    let goal = entries_map(before).insert(entry.0@, entry.1);
    assert forall|k: Seq<char>| entries_map(after).contains_key(k) == goal.contains_key(k) by {
        if entries_map(after).contains_key(k) {
            let j = new_keys.index_of(k);
            assert(new_keys[j] == k);
            if j < idx {
                assert(keys[j] == k);
            } else if j > idx {
                assert(after[j] == before[j - 1]);
                assert(keys[j - 1] == k);
            }
        }
        if goal.contains_key(k) {
            if k == entry.0@ {
                assert(new_keys[idx] == k);
            } else {
                let j = keys.index_of(k);
                assert(keys[j] == k);
                if j < idx {
                    assert(new_keys[j] == k);
                } else {
                    assert(after[j + 1] == before[j]);
                    assert(new_keys[j + 1] == k);
                }
            }
        }
    }
    assert forall|k: Seq<char>| entries_map(after).contains_key(k) implies entries_map(after)[k]
        == goal[k] by {
        let j = new_keys.index_of(k);
        assert(new_keys[j] == k);
        lemma_entry_in_map(after, j);
        if j < idx {
            lemma_entry_in_map(before, j);
            lemma_lex_trichotomy(k, entry.0@);
        } else if j > idx {
            assert(after[j] == before[j - 1]);
            lemma_entry_in_map(before, j - 1);
            lemma_lex_trichotomy(entry.0@, k);
        }
    }
    assert(entries_map(after) =~= goal);
}

/// Replacing the entry of a key that is present keeps the sequence sorted
/// and updates the map.
pub proof fn lemma_update_entry<V>(before: Seq<(String, V)>, idx: int, entry: (String, V))
    requires
        strictly_sorted(entry_keys(before)),
        0 <= idx < before.len(),
        before[idx].0@ == entry.0@,
    ensures
        strictly_sorted(entry_keys(before.update(idx, entry))),
        entries_map(before.update(idx, entry)) == entries_map(before).insert(entry.0@, entry.1),
{
    let after = before.update(idx, entry);
    let keys = entry_keys(before);
    let new_keys = entry_keys(after);
    assert(new_keys =~= keys);
    let goal = entries_map(before).insert(entry.0@, entry.1);
    assert(keys[idx] == entry.0@);
    lemma_sorted_distinct(keys);
    assert forall|k: Seq<char>| entries_map(after).contains_key(k) implies entries_map(after)[k]
        == goal[k] by {
        let j = new_keys.index_of(k);
        assert(new_keys[j] == k);
        lemma_entry_in_map(after, j);
        lemma_entry_in_map(before, j);
    }
    assert(entries_map(after) =~= goal);
}

/// Taking an entry out keeps the sequence sorted and removes its key from
/// the map.
pub proof fn lemma_remove_entry<V>(before: Seq<(String, V)>, idx: int)
    requires
        strictly_sorted(entry_keys(before)),
        0 <= idx < before.len(),
    ensures
        strictly_sorted(entry_keys(before.remove(idx))),
        entries_map(before.remove(idx)) == entries_map(before).remove(before[idx].0@),
{
    let after = before.remove(idx);
    let keys = entry_keys(before);
    let new_keys = entry_keys(after);
    before.remove_ensures(idx);
    lemma_sorted_distinct(keys);
    assert forall|i: int, j: int| 0 <= i < j < new_keys.len() implies lex_lt(
        #[trigger] new_keys[i],
        #[trigger] new_keys[j],
    ) by {
        let oi = if i < idx {
            i
        } else {
            i + 1
        };
        let oj = if j < idx {
            j
        } else {
            j + 1
        };
        assert(after[i] == before[oi]);
        assert(after[j] == before[oj]);
        assert(lex_lt(keys[oi], keys[oj]));
    }
    let gone = before[idx].0@;
    let goal = entries_map(before).remove(gone);
    assert forall|k: Seq<char>| entries_map(after).contains_key(k) == goal.contains_key(k) by {
        if entries_map(after).contains_key(k) {
            let j = new_keys.index_of(k);
            assert(new_keys[j] == k);
            let oj = if j < idx {
                j
            } else {
                j + 1
            };
            assert(after[j] == before[oj]);
            assert(keys[oj] == k);
            assert(keys[idx] == gone);
        }
        if goal.contains_key(k) {
            let j = keys.index_of(k);
            assert(keys[j] == k);
            assert(keys[idx] == gone);
            if j < idx {
                assert(after[j] == before[j]);
                assert(new_keys[j] == k);
            } else {
                assert(after[j - 1] == before[j]);
                assert(new_keys[j - 1] == k);
            }
        }
    }
    assert forall|k: Seq<char>| entries_map(after).contains_key(k) implies entries_map(after)[k]
        == goal[k] by {
        let j = new_keys.index_of(k);
        assert(new_keys[j] == k);
        lemma_entry_in_map(after, j);
        let oj = if j < idx {
            j
        } else {
            j + 1
        };
        assert(after[j] == before[oj]);
        lemma_entry_in_map(before, oj);
        assert(keys[oj] == k);
        assert(keys[idx] == gone);
    }
    assert(entries_map(after) =~= goal);
}

/// A map from path to `V`. Its view is the mathematical map.
pub struct PathMap<V> {
    entries: Vec<(String, V)>,
}

impl<V> View for PathMap<V> {
    type V = Map<Seq<char>, V>;

    closed spec fn view(&self) -> Map<Seq<char>, V> {
        entries_map(self.entries@)
    }
}

impl<V> PathMap<V> {
    #[verifier::type_invariant]
    spec fn sorted(self) -> bool {
        strictly_sorted(entry_keys(self.entries@))
    }

    /// The keys in ascending order.
    pub closed spec fn ordered_keys(&self) -> Seq<Seq<char>> {
        entry_keys(self.entries@)
    }

    /// The empty map.
    pub fn new() -> (m: PathMap<V>)
        ensures
            m@ == Map::<Seq<char>, V>::empty(),
    {
        let m = PathMap { entries: Vec::new() };
        assert(m@ =~= Map::<Seq<char>, V>::empty());
        m
    }

    /// The keys are exactly the elements of `ordered_keys`, each once and in
    /// ascending order.
    pub proof fn lemma_ordered_keys(&self)
        requires
            strictly_sorted(self.ordered_keys()),
        ensures
            self@.dom() == self.ordered_keys().to_set(),
            self.ordered_keys().no_duplicates(),
            self@.dom().finite(),
            self@.len() == self.ordered_keys().len(),
    {
        let keys = entry_keys(self.entries@);
        assert(self@.dom() =~= keys.to_set());
        lemma_sorted_distinct(keys);
        keys.unique_seq_to_set();
        vstd::seq_lib::seq_to_set_is_finite(keys);
    }

    /// The number of keys.
    pub fn len(&self) -> (n: usize)
        ensures
            n == self@.len(),
            self@.dom().finite(),
    {
        proof {
            use_type_invariant(self);
            self.lemma_ordered_keys();
        }
        self.entries.len()
    }

    /// The index of the first entry whose key does not precede `key`, and
    /// whether that entry's key is `key`.
    fn find(&self, key: &str) -> (r: (bool, usize))
        ensures
            r.1 <= self.entries.len(),
            forall|i: int| 0 <= i < r.1 ==> lex_lt(#[trigger] self.entries[i].0@, key@),
            forall|i: int| r.1 <= i < self.entries.len() ==> !lex_lt(#[trigger] self.entries[i].0@, key@),
            r.0 <==> (r.1 < self.entries.len() && self.entries[r.1 as int].0@ == key@),
            r.0 <==> self@.contains_key(key@),
    {
        proof {
            use_type_invariant(self);
        }
        let ghost keys = entry_keys(self.entries@);
        let mut lo: usize = 0;
        let mut hi: usize = self.entries.len();
        while lo < hi
            invariant
                lo <= hi <= self.entries.len(),
                keys == entry_keys(self.entries@),
                strictly_sorted(keys),
                forall|i: int| 0 <= i < lo ==> lex_lt(#[trigger] self.entries[i].0@, key@),
                forall|i: int|
                    hi <= i < self.entries.len() ==> !lex_lt(#[trigger] self.entries[i].0@, key@),
            decreases hi - lo,
        {
            let mid = lo + (hi - lo) / 2;
            let ghost pivot = self.entries[mid as int].0@;
            match lex_order(self.entries[mid].0.as_str(), key) {
                Order::Before => {
                    assert forall|i: int| 0 <= i < mid + 1 implies lex_lt(
                        #[trigger] self.entries[i].0@,
                        key@,
                    ) by {
                        if i < mid {
                            assert(lex_lt(keys[i], keys[mid as int]));
                            lemma_lex_transitive(self.entries[i].0@, pivot, key@);
                        }
                    }
                    lo = mid + 1;
                },
                _ => {
                    assert forall|i: int| mid <= i < self.entries.len() implies !lex_lt(
                        #[trigger] self.entries[i].0@,
                        key@,
                    ) by {
                        if mid < i {
                            assert(lex_lt(keys[mid as int], keys[i]));
                            if lex_lt(self.entries[i].0@, key@) {
                                lemma_lex_transitive(pivot, self.entries[i].0@, key@);
                            }
                        }
                    }
                    hi = mid;
                },
            }
        }
        let found = lo < self.entries.len() && lex_order(self.entries[lo].0.as_str(), key)
            == Order::Same;
        proof {
            if found {
                lemma_entry_in_map(self.entries@, lo as int);
            } else if self@.contains_key(key@) {
                let j = keys.index_of(key@);
                assert(keys[j] == key@);
                lemma_lex_trichotomy(key@, key@);
                if j > lo {
                    assert(lex_lt(keys[lo as int], keys[j]));
                    lemma_lex_trichotomy(keys[lo as int], key@);
                }
            }
        }
        (found, lo)
    }

    /// The value recorded for `key`, if any.
    pub fn get(&self, key: &str) -> (r: Option<&V>)
        ensures
            r == if self@.contains_key(key@) {
                Some(&self@[key@])
            } else {
                None
            },
    {
        proof {
            use_type_invariant(self);
        }
        let (found, idx) = self.find(key);
        if found {
            proof {
                lemma_entry_in_map(self.entries@, idx as int);
            }
            Some(&self.entries[idx].1)
        } else {
            None
        }
    }

    /// Whether the map holds `key`.
    pub fn contains(&self, key: &str) -> (r: bool)
        ensures
            r == self@.contains_key(key@),
    {
        let (found, _) = self.find(key);
        found
    }

    /// Records `value` for `key`, in place of any value it had.
    pub fn insert(&mut self, key: String, value: V)
        ensures
            final(self)@ == old(self)@.insert(key@, value),
    {
        proof {
            use_type_invariant(&*self);
        }
        let (found, idx) = self.find(key.as_str());
        let entry = (key, value);
        let mut entries: Vec<(String, V)> = Vec::new();
        core::mem::swap(&mut self.entries, &mut entries);
        if found {
            proof {
                lemma_update_entry(entries@, idx as int, entry);
            }
            entries.set(idx, entry);
        } else {
            proof {
                let keys = entry_keys(entries@);
                assert forall|i: int| idx <= i < entries.len() implies lex_lt(
                    entry.0@,
                    #[trigger] entries[i].0@,
                ) by {
                    assert(keys[i] == entries[i].0@);
                    assert(keys.contains(keys[i]));
                    lemma_lex_trichotomy(entry.0@, entries[i].0@);
                }
                lemma_insert_entry(entries@, idx as int, entry);
            }
            entries.insert(idx, entry);
        }
        self.entries = entries;
    }

    /// Forgets `key`. A key that is absent changes nothing.
    pub fn remove(&mut self, key: &str)
        ensures
            final(self)@ == old(self)@.remove(key@),
    {
        proof {
            use_type_invariant(&*self);
        }
        let (found, idx) = self.find(key);
        if found {
            let mut entries: Vec<(String, V)> = Vec::new();
            core::mem::swap(&mut self.entries, &mut entries);
            proof {
                lemma_remove_entry(entries@, idx as int);
            }
            entries.remove(idx);
            self.entries = entries;
        } else {
            assert(self@ =~= self@.remove(key@));
        }
    }

    /// Forgets every key.
    pub fn clear(&mut self)
        ensures
            final(self)@ == Map::<Seq<char>, V>::empty(),
    {
        self.entries = Vec::new();
        assert(self@ =~= Map::<Seq<char>, V>::empty());
    }

    /// The values in ascending order of their keys.
    pub fn into_values(self) -> (out: Vec<V>)
        ensures
            out@.len() == self.ordered_keys().len(),
            forall|i: int| 0 <= i < out@.len() ==> #[trigger] out@[i] == self@[self.ordered_keys()[i]],
            strictly_sorted(self.ordered_keys()),
            self@.dom() == self.ordered_keys().to_set(),
    {
        proof {
            use_type_invariant(&self);
            self.lemma_ordered_keys();
        }
        let ghost all = self.entries@;
        let entries = self.entries;
        let mut out: Vec<V> = Vec::new();
        for pair in it: entries
            invariant
                it.seq() == all,
                strictly_sorted(entry_keys(all)),
                out@.len() == it.index(),
                forall|k: int| 0 <= k < it.index() ==> #[trigger] out@[k] == all[k].1,
        {
            out.push(pair.1);
        }
        proof {
            assert forall|i: int| 0 <= i < out@.len() implies #[trigger] out@[i] == entries_map(all)[entry_keys(
                all,
            )[i]] by {
                lemma_entry_in_map(all, i);
            }
        }
        out
    }

    /// The keys in ascending order.
    pub fn keys(&self) -> (out: Vec<String>)
        ensures
            out@.len() == self.ordered_keys().len(),
            forall|i: int| 0 <= i < out@.len() ==> (#[trigger] out@[i])@ == self.ordered_keys()[i],
            strictly_sorted(self.ordered_keys()),
            self@.dom() == self.ordered_keys().to_set(),
    {
        proof {
            use_type_invariant(self);
            self.lemma_ordered_keys();
        }
        let mut out: Vec<String> = Vec::new();
        let mut i: usize = 0;
        while i < self.entries.len()
            invariant
                i <= self.entries.len(),
                out@.len() == i,
                forall|k: int| 0 <= k < i ==> (#[trigger] out@[k])@ == self.entries@[k].0@,
            decreases self.entries.len() - i,
        {
            out.push(self.entries[i].0.clone());
            i += 1;
        }
        out
    }
}

/// The views of a vector of strings.
pub open spec fn string_views(v: Seq<String>) -> Seq<Seq<char>> {
    Seq::new(v.len(), |i: int| v[i]@)
}

/// A set of paths. Its view is the mathematical set.
pub struct PathSet {
    members: PathMap<()>,
}

impl View for PathSet {
    type V = Set<Seq<char>>;

    closed spec fn view(&self) -> Set<Seq<char>> {
        self.members@.dom()
    }
}

impl PathSet {
    /// The empty set.
    pub fn new() -> (s: PathSet)
        ensures
            s@ == Set::<Seq<char>>::empty(),
    {
        let s = PathSet { members: PathMap::new() };
        assert(s@ =~= Set::<Seq<char>>::empty());
        s
    }

    /// Adds `path`. Adding a member again changes nothing.
    pub fn insert(&mut self, path: String)
        ensures
            final(self)@ == old(self)@.insert(path@),
    {
        self.members.insert(path, ());
        assert(self@ =~= old(self)@.insert(path@));
    }

    /// Takes `path` out, if it is a member.
    pub fn remove(&mut self, path: &str)
        ensures
            final(self)@ == old(self)@.remove(path@),
    {
        self.members.remove(path);
        assert(self@ =~= old(self)@.remove(path@));
    }

    /// Empties the set.
    pub fn clear(&mut self)
        ensures
            final(self)@ == Set::<Seq<char>>::empty(),
    {
        self.members.clear();
        assert(self@ =~= Set::<Seq<char>>::empty());
    }

    /// Whether `path` is a member.
    pub fn contains(&self, path: &str) -> (r: bool)
        ensures
            r == self@.contains(path@),
    {
        self.members.contains(path)
    }

    /// The number of members.
    pub fn len(&self) -> (n: usize)
        ensures
            self@.finite(),
            n == self@.len(),
    {
        self.members.len()
    }

    /// Every member, each once, in ascending order.
    pub fn to_vec(&self) -> (out: Vec<String>)
        ensures
            string_views(out@).to_set() == self@,
            string_views(out@).no_duplicates(),
            strictly_sorted(string_views(out@)),
    {
        let out = self.members.keys();
        proof {
            assert(string_views(out@) =~= self.members.ordered_keys());
            lemma_sorted_distinct(string_views(out@));
        }
        out
    }
}

} // verus!
