//! A map from names to values, kept as a vector in ascending order of the
//! names, so that walking it front to back visits the names in order.

use crate::name_order::ascending;
use crate::name_order::compare;
use crate::name_order::lemma_name_lt_asymmetric;
use crate::name_order::lemma_name_lt_transitive;
use crate::name_order::name_lt;
use crate::name_order::Order;
use vstd::prelude::*;

verus! {

/// A map keyed by name. Its entries lie in strictly ascending order of their
/// keys, so no key occurs twice.
#[derive(Debug)]
pub struct SortedMap<V> {
    entries: Vec<(String, V)>,
}

/// The map that a list of pairs folds into when each pair in turn is put
/// under its key, a later pair taking the place of an earlier one with the
/// same key.
pub open spec fn collect<V>(pairs: Seq<(Seq<char>, V)>) -> Map<Seq<char>, V>
    decreases pairs.len(),
{
    if pairs.len() == 0 {
        Map::empty()
    } else {
        collect(pairs.drop_last()).insert(pairs.last().0, pairs.last().1)
    }
}

/// No key occurs in two pairs of the list.
pub open spec fn distinct_keys<V>(pairs: Seq<(Seq<char>, V)>) -> bool {
    forall|i: int, j: int|
        0 <= i < pairs.len() && 0 <= j < pairs.len() && i != j ==> (#[trigger] pairs[i]).0 != (
        #[trigger] pairs[j]).0
}

/// The keys of the folded map are the keys of the pairs.
pub proof fn lemma_collect_keys<V>(pairs: Seq<(Seq<char>, V)>, key: Seq<char>)
    ensures
        collect(pairs).contains_key(key) <==> exists|i: int|
            0 <= i < pairs.len() && (#[trigger] pairs[i]).0 == key,
    decreases pairs.len(),
{
    if pairs.len() > 0 {
        let front = pairs.drop_last();
        lemma_collect_keys(front, key);
        if collect(pairs).contains_key(key) {
            if pairs.last().0 == key {
                assert(pairs[pairs.len() - 1].0 == key);
            } else {
                let i = choose|i: int| 0 <= i < front.len() && (#[trigger] front[i]).0 == key;
                assert(pairs[i].0 == key);
            }
        }
        if exists|i: int| 0 <= i < pairs.len() && (#[trigger] pairs[i]).0 == key {
            let i = choose|i: int| 0 <= i < pairs.len() && (#[trigger] pairs[i]).0 == key;
            if i < pairs.len() - 1 {
                assert(front[i].0 == key);
            }
        }
    }
}

/// The last write wins: a pair after which its key does not occur again
/// gives the value that the folded map holds under that key.
pub proof fn lemma_collect_last_wins<V>(pairs: Seq<(Seq<char>, V)>, i: int)
    requires
        0 <= i < pairs.len(),
        forall|j: int| i < j < pairs.len() ==> (#[trigger] pairs[j]).0 != pairs[i].0,
    ensures
        collect(pairs).contains_key(pairs[i].0),
        collect(pairs)[pairs[i].0] == pairs[i].1,
    decreases pairs.len(),
{
    if i < pairs.len() - 1 {
        let front = pairs.drop_last();
        assert(pairs[pairs.len() - 1].0 != pairs[i].0);
        assert forall|j: int| i < j < front.len() implies (#[trigger] front[j]).0 != front[i].0 by {
            assert(pairs[j].0 != pairs[i].0);
        }
        lemma_collect_last_wins(front, i);
    }
}

/// Where no key occurs twice the order of the pairs does not matter: two
/// lists of the same pairs fold into the same map.
pub proof fn lemma_collect_any_order<V>(a: Seq<(Seq<char>, V)>, b: Seq<(Seq<char>, V)>)
    requires
        distinct_keys(a),
        distinct_keys(b),
        forall|i: int| 0 <= i < a.len() ==> b.contains(#[trigger] a[i]),
        forall|j: int| 0 <= j < b.len() ==> a.contains(#[trigger] b[j]),
    ensures
        collect(a) == collect(b),
{
    assert forall|key: Seq<char>| collect(a).contains_key(key) <==> collect(b).contains_key(
        key,
    ) by {
        lemma_collect_keys(a, key);
        lemma_collect_keys(b, key);
        if collect(a).contains_key(key) {
            let i = choose|i: int| 0 <= i < a.len() && (#[trigger] a[i]).0 == key;
            let j = b.index_of(a[i]);
            assert(b[j].0 == key);
        }
        if collect(b).contains_key(key) {
            let j = choose|j: int| 0 <= j < b.len() && (#[trigger] b[j]).0 == key;
            let i = a.index_of(b[j]);
            assert(a[i].0 == key);
        }
    }
    assert forall|key: Seq<char>| collect(a).contains_key(key) implies collect(a)[key] == collect(
        b,
    )[key] by {
        lemma_collect_keys(a, key);
        let i = choose|i: int| 0 <= i < a.len() && (#[trigger] a[i]).0 == key;
        let j = b.index_of(a[i]);
        assert(b[j] == a[i]);
        lemma_collect_last_wins(a, i);
        lemma_collect_last_wins(b, j);
    }
    assert(collect(a) =~= collect(b));
}

/// In a strictly ascending sequence a name stands at one position only.
pub proof fn lemma_ascending_distinct(names: Seq<Seq<char>>, i: int, j: int)
    requires
        ascending(names),
        0 <= i < names.len(),
        0 <= j < names.len(),
        names[i] == names[j],
    ensures
        i == j,
{
    if i < j {
        lemma_name_lt_asymmetric(names[i], names[j]);
    } else if j < i {
        lemma_name_lt_asymmetric(names[j], names[i]);
    }
}

/// The keys of a list of entries, in the order of the entries.
spec fn keys_of<V>(entries: Seq<(String, V)>) -> Seq<Seq<char>> {
    entries.map_values(|e: (String, V)| e.0@)
}

/// The map that a list of entries stands for.
spec fn map_of<V>(entries: Seq<(String, V)>) -> Map<Seq<char>, V> {
    Map::new(
        |k: Seq<char>| keys_of(entries).contains(k),
        |k: Seq<char>| entries[keys_of(entries).index_of(k)].1,
    )
}

/// In an ascending list the value at position `i` is the one that the map
/// holds under the key at that position.
proof fn lemma_value_at<V>(entries: Seq<(String, V)>, i: int)
    requires
        ascending(keys_of(entries)),
        0 <= i < entries.len(),
    ensures
        map_of(entries).contains_key(keys_of(entries)[i]),
        map_of(entries)[keys_of(entries)[i]] == entries[i].1,
{
    let keys = keys_of(entries);
    assert(keys.contains(keys[i]));
    lemma_ascending_distinct(keys, keys.index_of(keys[i]), i);
}

/// Putting a new value in the place of the entry that holds `key` keeps the
/// list ascending and changes the map under that key only.
proof fn lemma_replace<V>(entries: Seq<(String, V)>, at: int, key: String, value: V)
    requires
        ascending(keys_of(entries)),
        0 <= at < entries.len(),
        keys_of(entries)[at] == key@,
    ensures
        ascending(keys_of(entries.update(at, (key, value)))),
        map_of(entries.update(at, (key, value))) == map_of(entries).insert(key@, value),
{
    let after = entries.update(at, (key, value));
    assert(keys_of(after) =~= keys_of(entries));
    assert forall|k: Seq<char>| map_of(after).contains_key(k) implies #[trigger] map_of(after)[k]
        == map_of(entries).insert(key@, value)[k] by {
        let i = keys_of(after).index_of(k);
        lemma_value_at(entries, i);
        lemma_value_at(after, i);
        if k == key@ {
            lemma_ascending_distinct(keys_of(after), i, at);
        }
    }
    assert(map_of(after) =~= map_of(entries).insert(key@, value));
}

/// Putting an entry between the keys that sort before its key and those
/// that sort after it keeps the list ascending and adds the entry to the
/// map.
proof fn lemma_put<V>(entries: Seq<(String, V)>, at: int, key: String, value: V)
    requires
        ascending(keys_of(entries)),
        0 <= at <= entries.len(),
        forall|j: int| 0 <= j < at ==> name_lt(keys_of(entries)[j], key@),
        forall|j: int| at <= j < entries.len() ==> name_lt(key@, keys_of(entries)[j]),
    ensures
        ascending(keys_of(entries.insert(at, (key, value)))),
        map_of(entries.insert(at, (key, value))) == map_of(entries).insert(key@, value),
{
    let after = entries.insert(at, (key, value));
    let keys = keys_of(after);
    let prior = keys_of(entries);
    assert(keys =~= prior.insert(at, key@));
    assert forall|i: int, j: int| 0 <= i < j < keys.len() implies name_lt(keys[i], keys[j]) by {
        if j < at {
            assert(keys[i] == prior[i] && keys[j] == prior[j]);
        } else if j == at {
            assert(keys[i] == prior[i]);
        } else if i < at {
            assert(keys[i] == prior[i] && keys[j] == prior[j - 1]);
        } else if i == at {
            assert(keys[j] == prior[j - 1]);
        } else {
            assert(keys[i] == prior[i - 1] && keys[j] == prior[j - 1]);
        }
    }
    assert forall|k: Seq<char>|
        map_of(after).contains_key(k) <==> map_of(entries).insert(key@, value).contains_key(k) by {
        if prior.contains(k) {
            let i = prior.index_of(k);
            assert(keys[if i < at { i } else { i + 1 }] == k);
        }
        if k == key@ {
            assert(keys[at] == k);
        }
        if keys.contains(k) {
            let i = keys.index_of(k);
            if i < at {
                assert(prior[i] == k);
            } else if i > at {
                assert(prior[i - 1] == k);
            }
        }
    }
    assert forall|k: Seq<char>| map_of(after).contains_key(k) implies #[trigger] map_of(after)[k]
        == map_of(entries).insert(key@, value)[k] by {
        let i = keys.index_of(k);
        lemma_value_at(after, i);
        if i < at {
            lemma_value_at(entries, i);
        } else if i > at {
            lemma_value_at(entries, i - 1);
        }
    }
    assert(map_of(after) =~= map_of(entries).insert(key@, value));
}

impl<V> View for SortedMap<V> {
    type V = Map<Seq<char>, V>;

    /// The map that the entries stand for.
    closed spec fn view(&self) -> Map<Seq<char>, V> {
        map_of(self.entries@)
    }
}

impl<V> SortedMap<V> {
    /// The entries are in strictly ascending order of their keys.
    #[verifier::type_invariant]
    spec fn inv(self) -> bool {
        ascending(keys_of(self.entries@))
    }

    /// The keys in the order in which the entries are stored.
    pub closed spec fn keys(&self) -> Seq<Seq<char>> {
        keys_of(self.entries@)
    }

    /// An empty map.
    pub fn new() -> (m: Self)
        ensures
            m@ == Map::<Seq<char>, V>::empty(),
            m.keys() == Seq::<Seq<char>>::empty(),
    {
        SortedMap { entries: Vec::new() }
    }

    /// The number of entries. The stored keys are in ascending order, and
    /// they are the keys of the map, each stored once.
    pub fn len(&self) -> (n: usize)
        ensures
            n == self.keys().len(),
            ascending(self.keys()),
            forall|k: Seq<char>| self@.contains_key(k) <==> self.keys().contains(k),
            self@.dom().finite(),
            self@.dom().len() == n,
    {
        proof {
            use_type_invariant(self);
            let keys = self.keys();
            assert forall|i: int, j: int|
                0 <= i < keys.len() && 0 <= j < keys.len() && i != j implies keys[i] != keys[j] by {
                if keys[i] == keys[j] {
                    lemma_ascending_distinct(keys, i, j);
                }
            }
            assert(self@.dom() =~= keys.to_set());
            vstd::seq_lib::seq_to_set_is_finite(keys);
            keys.unique_seq_to_set();
        }
        self.entries.len()
    }

    /// The position at which `key` stands or, if it is absent, at which it
    /// would have to be put to keep the order.
    fn locate(&self, key: &str) -> (at: (usize, bool))
        ensures
            at.0 <= self.keys().len(),
            at.1 ==> at.0 < self.keys().len() && self.keys()[at.0 as int] == key@,
            !at.1 ==> !self.keys().contains(key@),
            !at.1 ==> forall|j: int| 0 <= j < at.0 ==> name_lt(self.keys()[j], key@),
            !at.1 ==> forall|j: int| at.0 <= j < self.keys().len() ==> name_lt(key@, self.keys()[j]),
    {
        proof {
            use_type_invariant(self);
        }
        let ghost keys = self.keys();
        let mut lo: usize = 0;
        let mut hi: usize = self.entries.len();
        while lo < hi
            invariant
                keys == self.keys(),
                ascending(keys),
                keys.len() == self.entries@.len(),
                lo <= hi <= keys.len(),
                forall|j: int| 0 <= j < lo ==> name_lt(keys[j], key@),
                forall|j: int| hi <= j < keys.len() ==> name_lt(key@, keys[j]),
            decreases hi - lo,
        {
            let mid = lo + (hi - lo) / 2;
            match compare(self.entries[mid].0.as_str(), key) {
                Order::Less => {
                    proof {
                        assert forall|j: int| 0 <= j < mid + 1 implies name_lt(keys[j], key@) by {
                            if j < mid {
                                lemma_name_lt_transitive(keys[j], keys[mid as int], key@);
                            }
                        }
                    }
                    lo = mid + 1;
                },
                Order::Equal => {
                    return (mid, true);
                },
                Order::Greater => {
                    proof {
                        assert forall|j: int| mid <= j < keys.len() implies name_lt(key@, keys[j]) by {
                            if mid < j {
                                lemma_name_lt_transitive(key@, keys[mid as int], keys[j]);
                            }
                        }
                    }
                    hi = mid;
                },
            }
        }
        proof {
            assert forall|j: int| 0 <= j < keys.len() implies keys[j] != key@ by {
                if j < lo {
                    lemma_name_lt_asymmetric(keys[j], key@);
                } else {
                    lemma_name_lt_asymmetric(key@, keys[j]);
                }
            }
        }
        (lo, false)
    }

    /// The value stored under `key`, if there is one.
    pub fn get(&self, key: &str) -> (r: Option<&V>)
        ensures
            match r {
                Some(v) => self@.contains_key(key@) && *v == self@[key@],
                None => !self@.contains_key(key@),
            },
    {
        let (at, found) = self.locate(key);
        if found {
            proof {
                use_type_invariant(self);
                lemma_value_at(self.entries@, at as int);
            }
            Some(&self.entries[at].1)
        } else {
            None
        }
    }

    /// The key and the value at position `index`, counted in ascending
    /// order of the keys.
    pub fn entry(&self, index: usize) -> (r: (&String, &V))
        requires
            index < self.keys().len(),
        ensures
            r.0@ == self.keys()[index as int],
            self@.contains_key(r.0@),
            *r.1 == self@[r.0@],
    {
        proof {
            use_type_invariant(self);
            lemma_value_at(self.entries@, index as int);
        }
        let e = &self.entries[index];
        (&e.0, &e.1)
    }

    /// Stores `value` under `key`. A value that was stored under the same
    /// key before is replaced.
    pub fn insert(&mut self, key: String, value: V)
        ensures
            final(self)@ == old(self)@.insert(key@, value),
    {
        proof {
            use_type_invariant(&*self);
        }
        let (at, found) = self.locate(key.as_str());
        let mut entries = Vec::new();
        std::mem::swap(&mut entries, &mut self.entries);
        if found {
            proof {
                lemma_replace(entries@, at as int, key, value);
            }
            entries.set(at, (key, value));
        } else {
            proof {
                lemma_put(entries@, at as int, key, value);
            }
            entries.insert(at, (key, value));
        }
        self.entries = entries;
    }
}

} // verus!
