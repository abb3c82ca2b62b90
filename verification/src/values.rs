//! `Values`: a map from names to text, kept in increasing name order, as the
//! configuration's `path` and `variables` tables are.
use crate::text::{
    chars_of, lemma_text_lt_asymmetric, lemma_text_lt_irreflexive, lemma_text_lt_transitive, text_lt,
    text_order, Order,
};
use vstd::prelude::*;

verus! {

/// A name and its text, each as characters.
pub type Pair = (Seq<char>, Seq<char>);

/// The text that `pairs` gives to `key`, searching from the front.
pub open spec fn lookup(pairs: Seq<Pair>, key: Seq<char>) -> Option<Seq<char>>
    decreases pairs.len(),
{
    if pairs.len() == 0 {
        None
    } else if pairs[0].0 == key {
        Some(pairs[0].1)
    } else {
        lookup(pairs.drop_first(), key)
    }
}

/// The entries of a vector of text pairs, as characters.
pub open spec fn pairs_of(v: Seq<(String, String)>) -> Seq<Pair> {
    v.map_values(|e: (String, String)| (e.0@, e.1@))
}

/// The names of `pairs` increase strictly.
pub open spec fn increasing(pairs: Seq<Pair>) -> bool {
    forall|i: int, j: int| 0 <= i < j < pairs.len() ==> text_lt(pairs[i].0, pairs[j].0)
}

/// The map that `pairs` describe.
pub open spec fn map_of(pairs: Seq<Pair>) -> Map<Seq<char>, Seq<char>> {
    Map::new(|k: Seq<char>| lookup(pairs, k) is Some, |k: Seq<char>| lookup(pairs, k)->Some_0)
}

pub proof fn lemma_lookup_index(pairs: Seq<Pair>, key: Seq<char>)
    ensures
        lookup(pairs, key) matches Some(v) ==> exists|i: int|
            0 <= i < pairs.len() && pairs[i].0 == key && pairs[i].1 == v && forall|j: int|
                0 <= j < i ==> pairs[j].0 != key,
        lookup(pairs, key) is None ==> forall|i: int| 0 <= i < pairs.len() ==> pairs[i].0 != key,
    decreases pairs.len(),
{
    if pairs.len() > 0 && pairs[0].0 != key {
        lemma_lookup_index(pairs.drop_first(), key);
        if lookup(pairs, key) is Some {
            let i = choose|i: int|
                0 <= i < pairs.drop_first().len() && pairs.drop_first()[i].0 == key
                    && pairs.drop_first()[i].1 == lookup(pairs, key)->Some_0 && forall|j: int|
                    0 <= j < i ==> pairs.drop_first()[j].0 != key;
            assert(pairs[i + 1].0 == key);
            assert forall|j: int| 0 <= j < i + 1 implies pairs[j].0 != key by {
                if j > 0 {
                    assert(pairs[j] == pairs.drop_first()[j - 1]);
                }
            }
        } else {
            assert forall|j: int| 0 <= j < pairs.len() implies pairs[j].0 != key by {
                if j > 0 {
                    assert(pairs[j] == pairs.drop_first()[j - 1]);
                }
            }
        }
    }
}

/// In a sequence whose names are distinct, the entry at `i` is what `lookup`
/// finds for its name.
pub proof fn lemma_lookup_at(pairs: Seq<Pair>, i: int)
    requires
        increasing(pairs),
        0 <= i < pairs.len(),
    ensures
        lookup(pairs, pairs[i].0) == Some(pairs[i].1),
{
    lemma_lookup_index(pairs, pairs[i].0);
    if let Some(v) = lookup(pairs, pairs[i].0) {
        let k = choose|k: int|
            0 <= k < pairs.len() && pairs[k].0 == pairs[i].0 && pairs[k].1 == v && forall|j: int|
                0 <= j < k ==> pairs[j].0 != pairs[i].0;
        if k != i {
            if k < i {
                lemma_text_lt_irreflexive(pairs[k].0);
            } else {
                lemma_text_lt_irreflexive(pairs[i].0);
            }
        }
    }
}

/// Text values indexed by name, kept in increasing name order, without
/// repeated names.
#[derive(Debug, PartialEq, Eq)]
pub struct Values {
    entries: Vec<(String, String)>,
}

impl Values {
    /// The names and their text, in increasing name order.
    pub closed spec fn pairs(&self) -> Seq<Pair> {
        pairs_of(self.entries@)
    }

    /// The names increase strictly; every value of the type keeps this.
    #[verifier::type_invariant]
    pub open spec fn ordered(&self) -> bool {
        increasing(self.pairs())
    }

    /// The map from name to text.
    pub open spec fn map(&self) -> Map<Seq<char>, Seq<char>> {
        map_of(self.pairs())
    }

    /// An entry at index `i` is the map's value for its name.
    pub proof fn lemma_entry(&self, i: int)
        requires
            self.ordered(),
            0 <= i < self.pairs().len(),
        ensures
            self.map().contains_key(self.pairs()[i].0),
            self.map()[self.pairs()[i].0] == self.pairs()[i].1,
    {
        lemma_lookup_at(self.pairs(), i);
    }

    /// A name of the map stands at some index.
    pub proof fn lemma_key(&self, k: Seq<char>)
        requires
            self.ordered(),
        ensures
            self.map().contains_key(k) <==> exists|i: int|
                0 <= i < self.pairs().len() && #[trigger] self.pairs()[i].0 == k,
    {
        lemma_lookup_index(self.pairs(), k);
        if exists|i: int| 0 <= i < self.pairs().len() && #[trigger] self.pairs()[i].0 == k {
            let i = choose|i: int| 0 <= i < self.pairs().len() && #[trigger] self.pairs()[i].0 == k;
            self.lemma_entry(i);
        }
    }

    pub fn new() -> (res: Values)
        ensures
            res.pairs() == Seq::<Pair>::empty(),
            res.map() == Map::<Seq<char>, Seq<char>>::empty(),
    {
        let res = Values { entries: Vec::new() };
        assert(res.pairs() =~= Seq::<Pair>::empty());
        assert(res.map() =~= Map::<Seq<char>, Seq<char>>::empty());
        res
    }

    pub fn len(&self) -> (res: usize)
        ensures
            res == self.pairs().len(),
    {
        self.entries.len()
    }

    pub fn is_empty(&self) -> (res: bool)
        ensures
            res == (self.pairs().len() == 0),
    {
        self.entries.len() == 0
    }

    /// The name at index `i`.
    pub fn key_at(&self, i: usize) -> (res: &String)
        requires
            i < self.pairs().len(),
        ensures
            res@ == self.pairs()[i as int].0,
    {
        &self.entries[i].0
    }

    /// The text at index `i`.
    pub fn value_at(&self, i: usize) -> (res: &String)
        requires
            i < self.pairs().len(),
        ensures
            res@ == self.pairs()[i as int].1,
    {
        &self.entries[i].1
    }

    /// The index of `key`, or where it would be inserted.
    fn position(&self, key: &[char]) -> (res: (usize, bool))
        ensures
            res.0 <= self.pairs().len(),
            res.1 ==> res.0 < self.pairs().len() && self.pairs()[res.0 as int].0 == key@,
            forall|j: int| 0 <= j < res.0 ==> text_lt(#[trigger] self.pairs()[j].0, key@),
            !res.1 ==> forall|j: int|
                res.0 <= j < self.pairs().len() ==> text_lt(key@, #[trigger] self.pairs()[j].0),
    {
        proof {
            use_type_invariant(self);
        }
        let mut i: usize = 0;
        while i < self.entries.len()
            invariant
                i <= self.pairs().len(),
                self.pairs().len() == self.entries@.len(),
                increasing(self.pairs()),
                forall|j: int| 0 <= j < i ==> text_lt(#[trigger] self.pairs()[j].0, key@),
            decreases self.entries@.len() - i,
        {
            let name = chars_of(self.entries[i].0.as_str());
            match text_order(name.as_slice(), key) {
                Order::Less => {},
                Order::Equal => {
                    return (i, true);
                },
                Order::Greater => {
                    assert forall|j: int| i <= j < self.pairs().len() implies text_lt(
                        key@,
                        #[trigger] self.pairs()[j].0,
                    ) by {
                        if j > i {
                            lemma_text_lt_transitive(key@, self.pairs()[i as int].0, self.pairs()[j].0);
                        }
                    }
                    return (i, false);
                },
            }
            i += 1;
        }
        (i, false)
    }

    /// The text for `key`.
    pub fn get(&self, key: &str) -> (res: Option<&String>)
        ensures
            match res {
                Some(v) => self.map().contains_key(key@) && self.map()[key@] == v@,
                None => !self.map().contains_key(key@),
            },
    {
        proof {
            use_type_invariant(self);
        }
        let k = chars_of(key);
        let (i, found) = self.position(k.as_slice());
        if found {
            proof {
                self.lemma_entry(i as int);
            }
            Some(&self.entries[i].1)
        } else {
            proof {
                if self.map().contains_key(key@) {
                    self.lemma_key(key@);
                    let j = choose|j: int| 0 <= j < self.pairs().len() && #[trigger] self.pairs()[j].0 == key@;
                    if j < i {
                        lemma_text_lt_irreflexive(key@);
                    } else {
                        lemma_text_lt_irreflexive(key@);
                    }
                }
            }
            None
        }
    }

    pub fn contains_key(&self, key: &str) -> (res: bool)
        ensures
            res == self.map().contains_key(key@),
    {
        self.get(key).is_some()
    }

    /// Sets the text of `key`, keeping the names in increasing order.
    pub fn insert(&mut self, key: String, value: String)
        ensures
            final(self).map() == old(self).map().insert(key@, value@),
            final(self).pairs().len() == old(self).pairs().len() + (if old(self).map().contains_key(
                key@,
            ) {
                0int
            } else {
                1int
            }),
    {
        proof {
            use_type_invariant(&*self);
        }
        let k = chars_of(key.as_str());
        let (i, found) = self.position(k.as_slice());
        let ghost old_pairs = self.pairs();
        let ghost old_map = self.map();
        proof {
            self.lemma_key(key@);
        }
        if found {
            let mut entries = Vec::new();
            std::mem::swap(&mut entries, &mut self.entries);
            entries.set(i, (key, value));
            let ghost new_pairs = pairs_of(entries@);
            proof {
                assert(new_pairs =~= old_pairs.update(i as int, (key@, value@)));
                assert(increasing(new_pairs));
            }
            self.entries = entries;
            proof {
                assert(self.pairs() == new_pairs);
                assert forall|k2: Seq<char>| #[trigger] self.map().contains_key(k2) == old_map.insert(key@, value@).contains_key(k2) && (self.map().contains_key(k2) ==> self.map()[k2] == old_map.insert(key@, value@)[k2]) by {
                    self.lemma_key(k2);
                    old_self_key_facts(old_pairs, new_pairs, i as int, key@, value@, k2);
                }
                assert(self.map() =~= old_map.insert(key@, value@));
            }
        } else {
            let mut entries = Vec::new();
            std::mem::swap(&mut entries, &mut self.entries);
            entries.insert(i, (key, value));
            let ghost new_pairs = pairs_of(entries@);
            proof {
                assert(new_pairs =~= old_pairs.insert(i as int, (key@, value@)));
                assert forall|a: int, b: int| 0 <= a < b < new_pairs.len() implies text_lt(
                    new_pairs[a].0,
                    new_pairs[b].0,
                ) by {
                    if a < i && b > i {
                        lemma_text_lt_transitive(new_pairs[a].0, key@, new_pairs[b].0);
                    }
                }
            }
            self.entries = entries;
            proof {
                assert(self.pairs() == new_pairs);
                if old_map.contains_key(key@) {
                    let j = choose|j: int| 0 <= j < old_pairs.len() && #[trigger] old_pairs[j].0 == key@;
                    lemma_text_lt_irreflexive(key@);
                }
                assert forall|k2: Seq<char>| #[trigger] self.map().contains_key(k2) == old_map.insert(key@, value@).contains_key(k2) && (self.map().contains_key(k2) ==> self.map()[k2] == old_map.insert(key@, value@)[k2]) by {
                    self.lemma_key(k2);
                    inserted_key_facts(old_pairs, new_pairs, i as int, key@, value@, k2);
                }
                assert(self.map() =~= old_map.insert(key@, value@));
            }
        }
    }

    /// Sets every name of `other` to its text there (`BTreeMap::extend`).
    pub fn extend(&mut self, other: &Values)
        ensures
            final(self).map() == old(self).map().union_prefer_right(other.map()),
    {
        let ghost start = self.map();
        let mut i: usize = 0;
        while i < other.len()
            invariant
                i <= other.pairs().len(),
                self.map() == start.union_prefer_right(map_of(other.pairs().take(i as int))),
            decreases other.pairs().len() - i,
        {
            let k = other.key_at(i).clone();
            let v = other.value_at(i).clone();
            self.insert(k, v);
            proof {
                use_type_invariant(other);
                assert forall|j: int| 0 <= j < other.pairs().take(i as int).len() implies other.pairs().take(i as int)[j].0 != other.pairs()[i as int].0 by {
                    lemma_text_lt_irreflexive(other.pairs()[i as int].0);
                }
                lemma_map_of_push(other.pairs().take(i as int), other.pairs()[i as int]);
                assert(other.pairs().take(i + 1) =~= other.pairs().take(i as int).push(other.pairs()[i as int]));
                assert(self.map() =~= start.union_prefer_right(map_of(other.pairs().take(i + 1))));
            }
            i += 1;
        }
        proof {
            assert(other.pairs().take(i as int) =~= other.pairs());
            assert(self.map() =~= start.union_prefer_right(other.map()));
        }
    }

    /// A copy holding the same entries.
    pub fn copy(&self) -> (res: Values)
        ensures
            res.pairs() == self.pairs(),
            res.map() == self.map(),
    {
        proof {
            use_type_invariant(self);
        }
        let mut entries: Vec<(String, String)> = Vec::new();
        let mut i: usize = 0;
        while i < self.entries.len()
            invariant
                i <= self.entries@.len(),
                entries@.len() == i,
                pairs_of(entries@) == self.pairs().take(
                    i as int,
                ),
            decreases self.entries@.len() - i,
        {
            let k = self.entries[i].0.clone();
            let v = self.entries[i].1.clone();
            let ghost before = entries@;
            entries.push((k, v));
            assert(entries@ == before.push((k, v)));
            assert(k@ == self.entries@[i as int].0@);
            assert(v@ == self.entries@[i as int].1@);
            assert(self.pairs()[i as int] == (self.entries@[i as int].0@, self.entries@[i as int].1@));
            assert forall|j: int| 0 <= j < i + 1 implies #[trigger] pairs_of(entries@)[j] == self.pairs().take(i + 1)[j] by {
                if j < i {
                    assert(entries@[j] == before[j]);
                    assert(pairs_of(before)[j] == self.pairs().take(i as int)[j]);
                }
            }
            assert(pairs_of(entries@) =~= self.pairs().take(
                i + 1,
            ));
            i += 1;
        }
        assert(self.pairs().take(i as int) =~= self.pairs());
        Values { entries }
    }
}

proof fn old_self_key_facts(
    old_pairs: Seq<Pair>,
    new_pairs: Seq<Pair>,
    i: int,
    key: Seq<char>,
    value: Seq<char>,
    k2: Seq<char>,
)
    requires
        increasing(old_pairs),
        increasing(new_pairs),
        0 <= i < old_pairs.len(),
        old_pairs[i].0 == key,
        new_pairs == old_pairs.update(i, (key, value)),
    ensures
        map_of(new_pairs).contains_key(k2) == map_of(old_pairs).insert(key, value).contains_key(k2),
        map_of(new_pairs).contains_key(k2) ==> map_of(new_pairs)[k2] == map_of(old_pairs).insert(
            key,
            value,
        )[k2],
{
    lemma_lookup_index(old_pairs, k2);
    lemma_lookup_index(new_pairs, k2);
    if k2 == key {
        lemma_lookup_at(new_pairs, i);
    } else {
        if lookup(old_pairs, k2) is Some {
            let j = choose|j: int|
                0 <= j < old_pairs.len() && old_pairs[j].0 == k2 && old_pairs[j].1 == lookup(
                    old_pairs,
                    k2,
                )->Some_0 && forall|m: int| 0 <= m < j ==> old_pairs[m].0 != k2;
            lemma_lookup_at(new_pairs, j);
        } else {
            assert forall|m: int| 0 <= m < new_pairs.len() implies new_pairs[m].0 != k2 by {
                if m == i {
                } else {
                    assert(new_pairs[m] == old_pairs[m]);
                }
            }
        }
    }
}

proof fn inserted_key_facts(
    old_pairs: Seq<Pair>,
    new_pairs: Seq<Pair>,
    i: int,
    key: Seq<char>,
    value: Seq<char>,
    k2: Seq<char>,
)
    requires
        increasing(old_pairs),
        increasing(new_pairs),
        0 <= i <= old_pairs.len(),
        new_pairs == old_pairs.insert(i, (key, value)),
    ensures
        map_of(new_pairs).contains_key(k2) == map_of(old_pairs).insert(key, value).contains_key(k2),
        map_of(new_pairs).contains_key(k2) ==> map_of(new_pairs)[k2] == map_of(old_pairs).insert(
            key,
            value,
        )[k2],
{
    lemma_lookup_index(old_pairs, k2);
    lemma_lookup_index(new_pairs, k2);
    if k2 == key {
        lemma_lookup_at(new_pairs, i);
    } else {
        if lookup(old_pairs, k2) is Some {
            let j = choose|j: int|
                0 <= j < old_pairs.len() && old_pairs[j].0 == k2 && old_pairs[j].1 == lookup(
                    old_pairs,
                    k2,
                )->Some_0 && forall|m: int| 0 <= m < j ==> old_pairs[m].0 != k2;
            if j < i {
                lemma_lookup_at(new_pairs, j);
            } else {
                assert(new_pairs[j + 1] == old_pairs[j]);
                lemma_lookup_at(new_pairs, j + 1);
            }
        } else {
            assert forall|m: int| 0 <= m < new_pairs.len() implies new_pairs[m].0 != k2 by {
                if m < i {
                    assert(new_pairs[m] == old_pairs[m]);
                } else if m > i {
                    assert(new_pairs[m] == old_pairs[m - 1]);
                }
            }
        }
    }
}

/// Adding a pair with a new name at the end of a sequence adds it to the map.
pub proof fn lemma_map_of_push(pairs: Seq<Pair>, p: Pair)
    requires
        forall|i: int| 0 <= i < pairs.len() ==> pairs[i].0 != p.0,
    ensures
        map_of(pairs.push(p)) == map_of(pairs).insert(p.0, p.1),
{
    assert forall|k: Seq<char>| #[trigger] lookup(pairs.push(p), k) == (if k == p.0 {
        Some(p.1)
    } else {
        lookup(pairs, k)
    }) by {
        lemma_lookup_push(pairs, p, k);
    }
    assert(map_of(pairs.push(p)) =~= map_of(pairs).insert(p.0, p.1));
}

proof fn lemma_lookup_push(pairs: Seq<Pair>, p: Pair, k: Seq<char>)
    requires
        forall|i: int| 0 <= i < pairs.len() ==> pairs[i].0 != p.0,
    ensures
        lookup(pairs.push(p), k) == (if k == p.0 {
            Some(p.1)
        } else {
            lookup(pairs, k)
        }),
    decreases pairs.len(),
{
    if pairs.len() == 0 {
        assert(pairs.push(p).drop_first() =~= Seq::<Pair>::empty());
    } else {
        assert(pairs.push(p).drop_first() =~= pairs.drop_first().push(p));
        if pairs[0].0 != k {
            lemma_lookup_push(pairs.drop_first(), p, k);
        }
    }
}

} // verus!

verus! {

/// The entries of `m` in increasing name order, when `m` has such entries.
pub open spec fn ordered_pairs(m: Map<Seq<char>, Seq<char>>) -> Seq<Pair> {
    choose|s: Seq<Pair>| increasing(s) && map_of(s) == m
}

proof fn lemma_first_is_least(s: Seq<Pair>, k: Seq<char>)
    requires
        increasing(s),
        s.len() > 0,
        lookup(s, k) is Some,
    ensures
        k == s[0].0 || text_lt(s[0].0, k),
{
    lemma_lookup_index(s, k);
    let i = choose|i: int|
        0 <= i < s.len() && s[i].0 == k && s[i].1 == lookup(s, k)->Some_0 && forall|j: int|
            0 <= j < i ==> s[j].0 != k;
    if i > 0 {
        assert(text_lt(s[0].0, s[i].0));
    }
}

proof fn lemma_drop_first_map(s: Seq<Pair>)
    requires
        increasing(s),
        s.len() > 0,
    ensures
        map_of(s.drop_first()) == map_of(s).remove(s[0].0),
        increasing(s.drop_first()),
{
    assert forall|k: Seq<char>| #[trigger] lookup(s.drop_first(), k) == (if k == s[0].0 {
        None
    } else {
        lookup(s, k)
    }) by {
        if k == s[0].0 {
            lemma_lookup_index(s.drop_first(), k);
            if lookup(s.drop_first(), k) is Some {
                let i = choose|i: int|
                    0 <= i < s.drop_first().len() && s.drop_first()[i].0 == k
                        && s.drop_first()[i].1 == lookup(s.drop_first(), k)->Some_0 && forall|j: int|
                        0 <= j < i ==> s.drop_first()[j].0 != k;
                assert(text_lt(s[0].0, s[i + 1].0));
                lemma_text_lt_irreflexive(k);
            }
        }
    }
    assert(map_of(s.drop_first()) =~= map_of(s).remove(s[0].0));
}

/// Two sequences in increasing name order that describe the same map are equal.
pub proof fn lemma_increasing_unique(s1: Seq<Pair>, s2: Seq<Pair>)
    requires
        increasing(s1),
        increasing(s2),
        map_of(s1) == map_of(s2),
    ensures
        s1 == s2,
    decreases s1.len(),
{
    if s1.len() == 0 {
        if s2.len() > 0 {
            lemma_lookup_at(s2, 0);
            assert(map_of(s2).contains_key(s2[0].0));
        }
        assert(s1 =~= s2);
    } else {
        lemma_lookup_at(s1, 0);
        assert(map_of(s1).contains_key(s1[0].0));
        assert(lookup(s2, s1[0].0) is Some);
        if s2.len() == 0 {
            assert(false);
        }
        lemma_lookup_at(s2, 0);
        assert(map_of(s2).contains_key(s2[0].0));
        assert(lookup(s1, s2[0].0) is Some);
        lemma_first_is_least(s1, s2[0].0);
        lemma_first_is_least(s2, s1[0].0);
        if s1[0].0 != s2[0].0 {
            lemma_text_lt_asymmetric(s1[0].0, s2[0].0);
        }
        assert(s1[0].0 == s2[0].0);
        assert(map_of(s1)[s1[0].0] == s1[0].1);
        assert(map_of(s2)[s2[0].0] == s2[0].1);
        assert(s1[0] == s2[0]);
        lemma_drop_first_map(s1);
        lemma_drop_first_map(s2);
        lemma_increasing_unique(s1.drop_first(), s2.drop_first());
        assert(s1 =~= seq![s1[0]] + s1.drop_first());
        assert(s2 =~= seq![s2[0]] + s2.drop_first());
    }
}

impl Values {
    /// The entries are the increasing sequence of the map's entries.
    pub proof fn lemma_canonical(&self)
        requires
            self.ordered(),
        ensures
            self.pairs() == ordered_pairs(self.map()),
    {
        let s = ordered_pairs(self.map());
        assert(increasing(self.pairs()) && map_of(self.pairs()) == self.map());
        lemma_increasing_unique(self.pairs(), s);
    }
}

} // verus!
