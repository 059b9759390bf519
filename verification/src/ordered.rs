//! A map from strings to values, kept as a list of pairs in ascending order
//! of their keys, so that walking it always yields the same order.

use vstd::prelude::*;
use crate::text::{compare, lemma_lex_irreflexive, lemma_lex_transitive, lex_less, Place};

verus! {

/// The value that a list of pairs gives to `key`: that of the last pair with
/// this key, if there is one.
pub open spec fn lookup<V>(pairs: Seq<(Seq<char>, V)>, key: Seq<char>) -> Option<V>
    decreases pairs.len(),
{
    if pairs.len() == 0 {
        None
    } else if pairs.last().0 == key {
        Some(pairs.last().1)
    } else {
        lookup(pairs.drop_last(), key)
    }
}

/// The map that a list of pairs stands for; a later pair overrides an
/// earlier one with the same key.
pub open spec fn pairs_map<V>(pairs: Seq<(Seq<char>, V)>) -> Map<Seq<char>, V> {
    Map::new(
        |k: Seq<char>| lookup(pairs, k) is Some,
        |k: Seq<char>| lookup(pairs, k).unwrap(),
    )
}

/// The keys stand in strictly ascending lexicographic order.
pub open spec fn ascending<V>(pairs: Seq<(Seq<char>, V)>) -> bool {
    forall|i: int, j: int|
        #![trigger pairs[i], pairs[j]]
        0 <= i < j < pairs.len() ==> lex_less(pairs[i].0, pairs[j].0)
}

/// A key that no pair carries has no value.
pub proof fn lemma_lookup_absent<V>(pairs: Seq<(Seq<char>, V)>, key: Seq<char>)
    requires
        forall|i: int| 0 <= i < pairs.len() ==> (#[trigger] pairs[i]).0 != key,
    ensures
        lookup(pairs, key) is None,
    decreases pairs.len(),
{
    if pairs.len() > 0 {
        assert(pairs.last() == pairs[pairs.len() - 1]);
        assert forall|i: int| 0 <= i < pairs.drop_last().len() implies (#[trigger] pairs.drop_last()[i]).0 != key by {
            assert(pairs.drop_last()[i] == pairs[i]);
        }
        lemma_lookup_absent(pairs.drop_last(), key);
    }
}

/// In an ascending list every pair's key has that pair's value.
pub proof fn lemma_lookup_present<V>(pairs: Seq<(Seq<char>, V)>, i: int)
    requires
        ascending(pairs),
        0 <= i < pairs.len(),
    ensures
        lookup(pairs, pairs[i].0) == Some(pairs[i].1),
    decreases pairs.len(),
{
    if i < pairs.len() - 1 {
        let last = pairs.len() - 1;
        assert(lex_less(pairs[i].0, pairs[last].0));
        lemma_lex_irreflexive(pairs[i].0);
        assert forall|a: int, b: int| 0 <= a < b < pairs.drop_last().len() implies lex_less(
            (#[trigger] pairs.drop_last()[a]).0,
            (#[trigger] pairs.drop_last()[b]).0,
        ) by {
            assert(pairs.drop_last()[a] == pairs[a]);
            assert(pairs.drop_last()[b] == pairs[b]);
        }
        lemma_lookup_present(pairs.drop_last(), i);
        assert(pairs.drop_last()[i] == pairs[i]);
    }
}

/// A key with a value is carried by some pair; the lemma returns where.
pub proof fn lemma_lookup_found<V>(pairs: Seq<(Seq<char>, V)>, key: Seq<char>) -> (i: int)
    requires
        lookup(pairs, key) is Some,
    ensures
        0 <= i < pairs.len(),
        pairs[i].0 == key,
        lookup(pairs, key) == Some(pairs[i].1),
    decreases pairs.len(),
{
    if pairs.last().0 == key {
        pairs.len() - 1
    } else {
        let i = lemma_lookup_found(pairs.drop_last(), key);
        assert(pairs.drop_last()[i] == pairs[i]);
        i
    }
}

/// Two ascending lists that stand for the same map are the same list.
pub proof fn lemma_ascending_unique<V>(a: Seq<(Seq<char>, V)>, b: Seq<(Seq<char>, V)>)
    requires
        ascending(a),
        ascending(b),
        pairs_map(a) == pairs_map(b),
    ensures
        a == b,
    decreases a.len(),
{
    if a.len() == 0 {
        if b.len() > 0 {
            lemma_lookup_present(b, 0);
            assert(pairs_map(b).contains_key(b[0].0));
            assert(pairs_map(a).contains_key(b[0].0));
        }
        assert(a =~= b);
    } else {
        let la = a.len() - 1;
        lemma_lookup_present(a, la);
        assert(pairs_map(a).contains_key(a[la].0));
        assert(pairs_map(b).contains_key(a[la].0));
        let j = lemma_lookup_found(b, a[la].0);
        let lb = b.len() - 1;
        lemma_lookup_present(b, lb);
        assert(pairs_map(b).contains_key(b[lb].0));
        assert(pairs_map(a).contains_key(b[lb].0));
        let i = lemma_lookup_found(a, b[lb].0);
        // The last keys agree: each is the greatest of the common key set.
        if j < lb {
            assert(lex_less(b[j].0, b[lb].0));
            if i < la {
                assert(lex_less(a[i].0, a[la].0));
                lemma_lex_transitive(a[la].0, b[lb].0, a[la].0);
            }
            lemma_lex_irreflexive(a[la].0);
            assert(false);
        }
        assert(a[la].0 == b[lb].0);
        assert(lookup(a, a[la].0) == Some(a[la].1));
        assert(lookup(b, b[lb].0) == Some(b[lb].1));
        assert(pairs_map(a)[a[la].0] == lookup(a, a[la].0).unwrap());
        assert(pairs_map(b)[b[lb].0] == lookup(b, b[lb].0).unwrap());
        assert(a[la].1 == b[lb].1);
        let a0 = a.drop_last();
        let b0 = b.drop_last();
        assert forall|x: int, y: int| 0 <= x < y < a0.len() implies lex_less((#[trigger] a0[x]).0, (#[trigger] a0[y]).0) by {
            assert(a0[x] == a[x] && a0[y] == a[y]);
        }
        assert forall|x: int, y: int| 0 <= x < y < b0.len() implies lex_less((#[trigger] b0[x]).0, (#[trigger] b0[y]).0) by {
            assert(b0[x] == b[x] && b0[y] == b[y]);
        }
        assert forall|k: Seq<char>| lookup(a0, k) == lookup(b0, k) by {
            if k == a[la].0 {
                assert forall|x: int| 0 <= x < a0.len() implies (#[trigger] a0[x]).0 != k by {
                    assert(a0[x] == a[x]);
                    assert(lex_less(a[x].0, a[la].0));
                    lemma_lex_irreflexive(k);
                }
                assert forall|x: int| 0 <= x < b0.len() implies (#[trigger] b0[x]).0 != k by {
                    assert(b0[x] == b[x]);
                    assert(lex_less(b[x].0, b[lb].0));
                    lemma_lex_irreflexive(k);
                }
                lemma_lookup_absent(a0, k);
                lemma_lookup_absent(b0, k);
            } else {
                assert(lookup(a, k) == lookup(a0, k));
                assert(lookup(b, k) == lookup(b0, k));
                assert(pairs_map(a).contains_key(k) == (lookup(a, k) is Some));
                assert(pairs_map(b).contains_key(k) == (lookup(b, k) is Some));
                if lookup(a, k) is Some {
                    assert(pairs_map(a)[k] == lookup(a, k).unwrap());
                    assert(pairs_map(b)[k] == lookup(b, k).unwrap());
                }
            }
        }
        assert(pairs_map(a0) =~= pairs_map(b0));
        lemma_ascending_unique(a0, b0);
        assert(a =~= a0.push(a[la]));
        assert(b =~= b0.push(b[lb]));
    }
}

/// Adding a pair at the end gives its key its value and leaves the rest.
pub proof fn lemma_pairs_map_push<V>(pairs: Seq<(Seq<char>, V)>, key: Seq<char>, value: V)
    ensures
        pairs_map(pairs.push((key, value))) == pairs_map(pairs).insert(key, value),
{
    let longer = pairs.push((key, value));
    assert(longer.drop_last() =~= pairs);
    assert(pairs_map(longer) =~= pairs_map(pairs).insert(key, value));
}

/// Two lists with the same keys at the same places give values to the same
/// keys.
pub proof fn lemma_same_keys<V, W>(a: Seq<(Seq<char>, V)>, b: Seq<(Seq<char>, W)>)
    requires
        a.len() == b.len(),
        forall|i: int| 0 <= i < a.len() ==> (#[trigger] a[i]).0 == b[i].0,
    ensures
        pairs_map(a).dom() == pairs_map(b).dom(),
    decreases a.len(),
{
    assert forall|key: Seq<char>| lookup(a, key) is Some <==> lookup(b, key) is Some by {
        lemma_same_keys_at(a, b, key);
    }
    assert(pairs_map(a).dom() =~= pairs_map(b).dom());
}

/// Two lists with the same keys at the same places agree on whether a key
/// has a value.
proof fn lemma_same_keys_at<V, W>(a: Seq<(Seq<char>, V)>, b: Seq<(Seq<char>, W)>, key: Seq<char>)
    requires
        a.len() == b.len(),
        forall|i: int| 0 <= i < a.len() ==> (#[trigger] a[i]).0 == b[i].0,
    ensures
        lookup(a, key) is Some <==> lookup(b, key) is Some,
    decreases a.len(),
{
    if a.len() > 0 {
        assert(a.last() == a[a.len() - 1]);
        assert(b.last() == b[b.len() - 1]);
        assert forall|i: int| 0 <= i < a.drop_last().len() implies (#[trigger] a.drop_last()[i]).0
            == b.drop_last()[i].0 by {
            assert(a.drop_last()[i] == a[i]);
            assert(b.drop_last()[i] == b[i]);
        }
        lemma_same_keys_at(a.drop_last(), b.drop_last(), key);
    }
}

/// The pairs with `f` applied to each value.
pub open spec fn mapped<V, W>(pairs: Seq<(Seq<char>, V)>, f: spec_fn(V) -> W) -> Seq<
    (Seq<char>, W),
> {
    Seq::new(pairs.len(), |i: int| (pairs[i].0, f(pairs[i].1)))
}

/// Looking a key up among mapped pairs gives the mapped value.
pub proof fn lemma_lookup_mapped<V, W>(
    pairs: Seq<(Seq<char>, V)>,
    f: spec_fn(V) -> W,
    key: Seq<char>,
)
    ensures
        lookup(mapped(pairs, f), key) == match lookup(pairs, key) {
            Some(v) => Some(f(v)),
            None => None,
        },
    decreases pairs.len(),
{
    if pairs.len() > 0 {
        assert(mapped(pairs, f).drop_last() =~= mapped(pairs.drop_last(), f));
        lemma_lookup_mapped(pairs.drop_last(), f, key);
    }
}

/// What holds of the value put in and of every value that was there holds of
/// every value after an insertion.
pub proof fn lemma_values_after_insert<V>(
    before: Seq<(Seq<char>, V)>,
    after: Seq<(Seq<char>, V)>,
    key: Seq<char>,
    value: V,
    good: spec_fn(V) -> bool,
)
    requires
        ascending(after),
        pairs_map(after) == pairs_map(before).insert(key, value),
        good(value),
        forall|i: int| 0 <= i < before.len() ==> good((#[trigger] before[i]).1),
    ensures
        forall|j: int| 0 <= j < after.len() ==> good((#[trigger] after[j]).1),
{
    assert forall|j: int| 0 <= j < after.len() implies good((#[trigger] after[j]).1) by {
        lemma_lookup_present(after, j);
        let k = after[j].0;
        assert(pairs_map(after).contains_key(k));
        assert(pairs_map(after)[k] == after[j].1);
        if k != key {
            assert(pairs_map(before).contains_key(k));
            let i = lemma_lookup_found(before, k);
            assert(pairs_map(before)[k] == before[i].1);
        }
    }
}

/// A map from strings to values whose pairs are held in ascending order of
/// their keys.
#[derive(Debug, PartialEq, Eq)]
pub struct Ordered<V> {
    entries: Vec<(String, V)>,
}

impl<V> Ordered<V> {
    /// The pairs in the order in which they are held.
    pub closed spec fn pairs(&self) -> Seq<(Seq<char>, V)> {
        self.entries@.map_values(|e: (String, V)| (e.0@, e.1))
    }

    /// The keys are strictly ascending, so no key occurs twice.
    pub open spec fn well_formed(&self) -> bool {
        ascending(self.pairs())
    }

    /// The map that the pairs stand for.
    pub open spec fn map(&self) -> Map<Seq<char>, V> {
        pairs_map(self.pairs())
    }

    /// The empty map.
    pub fn new() -> (r: Self)
        ensures
            r.well_formed(),
            r.pairs() == Seq::<(Seq<char>, V)>::empty(),
    {
        let r = Ordered { entries: Vec::new() };
        proof {
            assert(r.pairs() =~= Seq::<(Seq<char>, V)>::empty());
        }
        r
    }

    /// The number of pairs.
    pub fn len(&self) -> (n: usize)
        ensures
            n == self.pairs().len(),
    {
        self.entries.len()
    }

    /// The key of the pair at `index`.
    pub fn key_at(&self, index: usize) -> (key: &String)
        requires
            index < self.pairs().len(),
        ensures
            key@ == self.pairs()[index as int].0,
    {
        &self.entries[index].0
    }

    /// The value of the pair at `index`.
    pub fn value_at(&self, index: usize) -> (value: &V)
        requires
            index < self.pairs().len(),
        ensures
            *value == self.pairs()[index as int].1,
    {
        &self.entries[index].1
    }

    /// Where `key` stands or would stand: the number of keys before it, and
    /// whether the pair at that place carries it.
    fn position(&self, key: &str) -> (r: (usize, bool))
        requires
            self.well_formed(),
        ensures
            r.0 <= self.pairs().len(),
            forall|j: int| 0 <= j < r.0 ==> lex_less((#[trigger] self.pairs()[j]).0, key@),
            r.1 ==> r.0 < self.pairs().len() && self.pairs()[r.0 as int].0 == key@,
            !r.1 && r.0 < self.pairs().len() ==> lex_less(key@, self.pairs()[r.0 as int].0),
    {
        let mut i: usize = 0;
        while i < self.entries.len()
            invariant
                i <= self.entries.len(),
                forall|j: int| 0 <= j < i ==> lex_less((#[trigger] self.pairs()[j]).0, key@),
            decreases self.entries.len() - i,
        {
            match compare(self.entries[i].0.as_str(), key) {
                Place::Before => {},
                Place::Same => {
                    return (i, true);
                },
                Place::After => {
                    return (i, false);
                },
            }
            i += 1;
        }
        (i, false)
    }

    /// The value of `key`, if it has one.
    pub fn get(&self, key: &str) -> (r: Option<&V>)
        requires
            self.well_formed(),
        ensures
            r matches Some(v) ==> lookup(self.pairs(), key@) == Some(*v),
            r is None ==> lookup(self.pairs(), key@) is None,
    {
        let (index, found) = self.position(key);
        proof {
            self.lemma_absent_unless_found(key@, index as int, found);
        }
        if found {
            proof {
                lemma_lookup_present(self.pairs(), index as int);
            }
            Some(&self.entries[index].1)
        } else {
            None
        }
    }

    /// Whether `key` has a value.
    pub fn contains_key(&self, key: &str) -> (r: bool)
        requires
            self.well_formed(),
        ensures
            r == self.map().contains_key(key@),
    {
        self.get(key).is_some()
    }

    /// A key that stands at no place has no value.
    proof fn lemma_absent_unless_found(&self, key: Seq<char>, index: int, found: bool)
        requires
            self.well_formed(),
            0 <= index <= self.pairs().len(),
            forall|j: int| 0 <= j < index ==> lex_less((#[trigger] self.pairs()[j]).0, key),
            found ==> index < self.pairs().len() && self.pairs()[index].0 == key,
            !found && index < self.pairs().len() ==> lex_less(key, self.pairs()[index].0),
        ensures
            !found ==> lookup(self.pairs(), key) is None,
            !found ==> forall|j: int| 0 <= j < self.pairs().len() ==> (#[trigger] self.pairs()[j]).0 != key,
    {
        if !found {
            let pairs = self.pairs();
            assert forall|j: int| 0 <= j < pairs.len() implies (#[trigger] pairs[j]).0 != key by {
                lemma_lex_irreflexive(key);
                if j > index {
                    assert(lex_less(pairs[index].0, pairs[j].0));
                    lemma_lex_transitive(key, pairs[index].0, pairs[j].0);
                }
            }
            lemma_lookup_absent(pairs, key);
        }
    }

    /// Gives `key` the value `value` and returns the value it had before.
    pub fn insert(&mut self, key: String, value: V) -> (previous: Option<V>)
        requires
            old(self).well_formed(),
        ensures
            final(self).well_formed(),
            final(self).map() == old(self).map().insert(key@, value),
            previous == lookup(old(self).pairs(), key@),
    {
        let (index, found) = self.position(key.as_str());
        let ghost before = self.pairs();
        let ghost k = key@;
        proof {
            self.lemma_absent_unless_found(k, index as int, found);
        }
        let previous = if found {
            proof {
                lemma_lookup_present(before, index as int);
            }
            let old_pair = self.entries.remove(index);
            Some(old_pair.1)
        } else {
            None
        };
        let ghost middle = self.pairs();
        proof {
            if found {
                assert(middle =~= before.remove(index as int));
            }
        }
        self.entries.insert(index, (key, value));
        proof {
            let after = self.pairs();
            assert(after =~= middle.insert(index as int, (k, value)));
            // Every pair of the old list but the replaced one is still there.
            assert forall|i: int, j: int| 0 <= i < j < after.len() implies lex_less(
                (#[trigger] after[i]).0,
                (#[trigger] after[j]).0,
            ) by {
                let bi = if i < index { i } else if found { i } else { i - 1 };
                let bj = if j < index { j } else if found { j } else { j - 1 };
                if i == index {
                    if found {
                        assert(lex_less(before[index as int].0, before[bj].0));
                    } else {
                        assert(lex_less(k, before[index as int].0));
                        if bj > index {
                            assert(lex_less(before[index as int].0, before[bj].0));
                            lemma_lex_transitive(k, before[index as int].0, before[bj].0);
                        }
                    }
                } else if j == index {
                    assert(lex_less(before[bi].0, k));
                } else {
                    assert(lex_less(before[bi].0, before[bj].0));
                }
            }
            assert forall|q: Seq<char>| lookup(after, q) == (if q == k {
                Some(value)
            } else {
                lookup(before, q)
            }) by {
                if q == k {
                    lemma_lookup_present(after, index as int);
                } else if lookup(before, q) is Some {
                    let b = lemma_lookup_found(before, q);
                    let a = if b < index { b } else if found { b } else { b + 1 };
                    assert(after[a] == before[b]);
                    lemma_lookup_present(after, a);
                } else if lookup(after, q) is Some {
                    let a = lemma_lookup_found(after, q);
                    let b = if a < index { a } else if found { a } else { a - 1 };
                    assert(after[a] == before[b]);
                    lemma_lookup_present(before, b);
                }
            }
            assert(self.map() =~= pairs_map(before).insert(k, value));
        }
        previous
    }
}

} // verus!
