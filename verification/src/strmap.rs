//! A map keyed by strings, kept as a vector of entries whose keys are distinct.
use vstd::prelude::*;

verus! {

/// No key occurs twice among the entries.
pub open spec fn distinct_keys<W>(s: Seq<(Seq<char>, W)>) -> bool {
    forall|i: int, j: int|
        0 <= i < s.len() && 0 <= j < s.len() && i != j ==> #[trigger] s[i].0 != #[trigger] s[j].0
}

/// The map that a sequence of entries denotes: a later entry for a key wins.
pub open spec fn pairs_to_map<W>(s: Seq<(Seq<char>, W)>) -> Map<Seq<char>, W>
    decreases s.len(),
{
    if s.len() == 0 {
        Map::empty()
    } else {
        pairs_to_map(s.drop_last()).insert(s.last().0, s.last().1)
    }
}

/// A key is in the map exactly when some entry carries it.
pub proof fn lemma_pairs_to_map_dom<W>(s: Seq<(Seq<char>, W)>, k: Seq<char>)
    ensures
        pairs_to_map(s).dom().contains(k) <==> exists|i: int| 0 <= i < s.len() && #[trigger] s[i].0 == k,
    decreases s.len(),
{
    if s.len() > 0 {
        lemma_pairs_to_map_dom(s.drop_last(), k);
        if pairs_to_map(s).dom().contains(k) {
            if k == s.last().0 {
                assert(s[s.len() - 1].0 == k);
            } else {
                let i = choose|i: int| 0 <= i < s.drop_last().len() && #[trigger] s.drop_last()[i].0 == k;
                assert(s[i].0 == k);
            }
        }
        if exists|i: int| 0 <= i < s.len() && #[trigger] s[i].0 == k {
            let i = choose|i: int| 0 <= i < s.len() && #[trigger] s[i].0 == k;
            if i < s.len() - 1 {
                assert(s.drop_last()[i].0 == k);
            }
        }
    }
}

/// With distinct keys, each entry's value is what the map gives for its key.
pub proof fn lemma_pairs_to_map_index<W>(s: Seq<(Seq<char>, W)>, i: int)
    requires
        distinct_keys(s),
        0 <= i < s.len(),
    ensures
        pairs_to_map(s).dom().contains(s[i].0),
        pairs_to_map(s)[s[i].0] == s[i].1,
    decreases s.len(),
{
    if i < s.len() - 1 {
        let t = s.drop_last();
        assert(t[i] == s[i]);
        assert(distinct_keys(t)) by {
            assert forall|a: int, b: int|
                0 <= a < t.len() && 0 <= b < t.len() && a != b implies #[trigger] t[a].0
                != #[trigger] t[b].0 by {
                assert(t[a] == s[a] && t[b] == s[b]);
            }
        }
        lemma_pairs_to_map_index(t, i);
        assert(s[i].0 != s[s.len() - 1].0);
    }
}

/// Dropping the last entry keeps the keys distinct.
pub proof fn lemma_distinct_drop_last<W>(s: Seq<(Seq<char>, W)>)
    requires
        distinct_keys(s),
        s.len() > 0,
    ensures
        distinct_keys(s.drop_last()),
{
    let t = s.drop_last();
    assert forall|a: int, b: int|
        0 <= a < t.len() && 0 <= b < t.len() && a != b implies #[trigger] t[a].0
        != #[trigger] t[b].0 by {
        assert(t[a] == s[a] && t[b] == s[b]);
    }
}

/// With distinct keys, the map has one key per entry.
pub proof fn lemma_pairs_to_map_len<W>(s: Seq<(Seq<char>, W)>)
    requires
        distinct_keys(s),
    ensures
        pairs_to_map(s).dom().finite(),
        pairs_to_map(s).dom().len() == s.len(),
    decreases s.len(),
{
    if s.len() > 0 {
        let t = s.drop_last();
        lemma_distinct_drop_last(s);
        lemma_pairs_to_map_len(t);
        lemma_pairs_to_map_dom(t, s.last().0);
        if pairs_to_map(t).dom().contains(s.last().0) {
            let i = choose|i: int| 0 <= i < t.len() && #[trigger] t[i].0 == s.last().0;
            assert(s[i].0 == s[s.len() - 1].0);
        }
    }
}

/// Replacing the value of an entry replaces the value for its key.
pub proof fn lemma_pairs_to_map_update<W>(s: Seq<(Seq<char>, W)>, i: int, v: W)
    requires
        distinct_keys(s),
        0 <= i < s.len(),
    ensures
        pairs_to_map(s.update(i, (s[i].0, v))) == pairs_to_map(s).insert(s[i].0, v),
    decreases s.len(),
{
    let u = s.update(i, (s[i].0, v));
    if i == s.len() - 1 {
        assert(u.drop_last() =~= s.drop_last());
        assert(pairs_to_map(u) =~= pairs_to_map(s).insert(s[i].0, v));
    } else {
        lemma_distinct_drop_last(s);
        assert(u.drop_last() =~= s.drop_last().update(i, (s[i].0, v)));
        lemma_pairs_to_map_update(s.drop_last(), i, v);
        assert(s[i].0 != s[s.len() - 1].0);
        assert(u.last() == s.last());
        assert(pairs_to_map(u) =~= pairs_to_map(s).insert(s[i].0, v));
    }
}

/// Appending an entry inserts it into the map.
pub proof fn lemma_pairs_to_map_push<W>(s: Seq<(Seq<char>, W)>, p: (Seq<char>, W))
    ensures
        pairs_to_map(s.push(p)) == pairs_to_map(s).insert(p.0, p.1),
{
    assert(s.push(p).drop_last() =~= s);
}

/// Index of the last entry carrying `k`, or -1 when none does.
pub open spec fn last_index_of_key<W>(s: Seq<(Seq<char>, W)>, k: Seq<char>) -> int
    decreases s.len(),
{
    if s.len() == 0 {
        -1
    } else if s.last().0 == k {
        s.len() - 1
    } else {
        last_index_of_key(s.drop_last(), k)
    }
}

/// Two entry lists with the same keys in the same order have their last entry for a key at the
/// same index.
pub proof fn lemma_last_index_same_keys<W, U>(s: Seq<(Seq<char>, W)>, t: Seq<(Seq<char>, U)>, k: Seq<char>)
    requires
        s.len() == t.len(),
        forall|i: int| 0 <= i < s.len() ==> (#[trigger] s[i]).0 == t[i].0,
    ensures
        last_index_of_key(s, k) == last_index_of_key(t, k),
    decreases s.len(),
{
    if s.len() > 0 {
        let (s1, t1) = (s.drop_last(), t.drop_last());
        assert forall|i: int| 0 <= i < s1.len() implies (#[trigger] s1[i]).0 == t1[i].0 by {
            assert(s1[i] == s[i] && t1[i] == t[i]);
        }
        assert(s.last().0 == t.last().0) by {
            assert(s[s.len() - 1].0 == t[s.len() - 1].0);
        }
        lemma_last_index_same_keys(s1, t1, k);
    }
}

/// The map gives for a key the value of the last entry that carries it.
pub proof fn lemma_pairs_to_map_last<W>(s: Seq<(Seq<char>, W)>, k: Seq<char>)
    ensures
        -1 <= last_index_of_key(s, k) < s.len(),
        pairs_to_map(s).dom().contains(k) <==> last_index_of_key(s, k) >= 0,
        last_index_of_key(s, k) >= 0 ==> s[last_index_of_key(s, k)].0 == k && pairs_to_map(s)[k]
            == s[last_index_of_key(s, k)].1,
        forall|j: int| last_index_of_key(s, k) < j < s.len() ==> (#[trigger] s[j]).0 != k,
    decreases s.len(),
{
    if s.len() > 0 && s.last().0 != k {
        let t = s.drop_last();
        lemma_pairs_to_map_last(t, k);
        assert forall|j: int| last_index_of_key(s, k) < j < s.len() implies (#[trigger] s[j]).0 != k by {
            if j < s.len() - 1 {
                assert(s[j] == t[j]);
            }
        }
        if last_index_of_key(s, k) >= 0 {
            assert(s[last_index_of_key(s, k)] == t[last_index_of_key(s, k)]);
        }
    }
}

/// A string-keyed map; its entries keep the order in which keys were first inserted.
#[derive(Debug)]
pub struct StrMap<V: DeepView> {
    entries: Vec<(String, V)>,
}

impl<V: DeepView> StrMap<V> {
    /// The entries in order, each key and value taken by its view.
    pub closed spec fn pairs(self) -> Seq<(Seq<char>, V::V)> {
        self.entries@.map_values(|e: (String, V)| (e.0@, e.1.deep_view()))
    }

    /// The values in order, as they are stored.
    pub closed spec fn values(self) -> Seq<V> {
        self.entries@.map_values(|e: (String, V)| e.1)
    }

    /// The stored value for `k`, when there is an entry for it.
    pub open spec fn lookup(self, k: Seq<char>) -> Option<V> {
        if self.deep_view().dom().contains(k) {
            Some(
                self.values()[choose|i: int|
                    0 <= i < self.pairs().len() && #[trigger] self.pairs()[i].0 == k],
            )
        } else {
            None
        }
    }

    #[verifier::type_invariant]
    closed spec fn keys_are_distinct(self) -> bool {
        distinct_keys(self.pairs())
    }

    /// An empty map.
    pub fn new() -> (m: Self)
        ensures
            m.pairs() == Seq::<(Seq<char>, V::V)>::empty(),
            m.deep_view() == Map::<Seq<char>, V::V>::empty(),
    {
        let m = StrMap { entries: Vec::new() };
        assert(m.pairs() =~= Seq::<(Seq<char>, V::V)>::empty());
        m
    }

    /// Number of entries, which is the number of keys.
    pub fn len(&self) -> (n: usize)
        ensures
            n == self.pairs().len(),
            distinct_keys(self.pairs()),
            self.deep_view().dom().finite(),
            n == self.deep_view().dom().len(),
    {
        proof {
            use_type_invariant(self);
            lemma_pairs_to_map_len(self.pairs());
        }
        self.entries.len()
    }

    /// Position of the entry for `key`, if there is one.
    pub fn index_of(&self, key: &str) -> (r: Option<usize>)
        ensures
            distinct_keys(self.pairs()),
            r matches Some(i) ==> i < self.pairs().len() && self.pairs()[i as int].0 == key@,
            r is None <==> !self.deep_view().dom().contains(key@),
            r is None ==> forall|j: int| 0 <= j < self.pairs().len() ==> #[trigger] self.pairs()[j].0 != key@,
    {
        proof {
            use_type_invariant(self);
            lemma_pairs_to_map_dom(self.pairs(), key@);
        }
        let n = self.entries.len();
        let mut i: usize = 0;
        while i < n
            invariant
                n == self.entries@.len(),
                n == self.pairs().len(),
                i <= n,
                distinct_keys(self.pairs()),
                self.deep_view().dom().contains(key@) <==> exists|j: int|
                    0 <= j < self.pairs().len() && #[trigger] self.pairs()[j].0 == key@,
                forall|j: int| 0 <= j < i ==> #[trigger] self.pairs()[j].0 != key@,
            decreases n - i,
        {
            if crate::text::str_eq(self.entries[i].0.as_str(), key) {
                assert(self.pairs()[i as int].0 == key@);
                return Some(i);
            }
            i = i + 1;
        }
        None
    }

    /// Whether `key` has an entry.
    pub fn contains_key(&self, key: &str) -> (r: bool)
        ensures
            r == self.deep_view().dom().contains(key@),
    {
        self.index_of(key).is_some()
    }

    /// The value stored for `key`.
    pub fn get(&self, key: &str) -> (r: Option<&V>)
        ensures
            r is Some <==> self.deep_view().dom().contains(key@),
            r matches Some(v) ==> v.deep_view() == self.deep_view()[key@],
            r matches Some(v) ==> self.lookup(key@) == Some(*v),
            r is None ==> self.lookup(key@) is None,
            distinct_keys(self.pairs()),
    {
        match self.index_of(key) {
            Some(i) => {
                proof {
                    lemma_pairs_to_map_index(self.pairs(), i as int);
                }
                assert(self.values()[i as int] == self.entries[i as int].1);
                let ghost j = choose|j: int|
                    0 <= j < self.pairs().len() && #[trigger] self.pairs()[j].0 == key@;
                assert(j == i as int);
                Some(&self.entries[i].1)
            },
            None => None,
        }
    }

    /// The key of the entry at position `i`.
    pub fn key_at(&self, i: usize) -> (k: &String)
        requires
            i < self.pairs().len(),
        ensures
            k@ == self.pairs()[i as int].0,
    {
        &self.entries[i].0
    }

    /// The value of the entry at position `i`.
    pub fn value_at(&self, i: usize) -> (v: &V)
        requires
            i < self.pairs().len(),
        ensures
            v.deep_view() == self.pairs()[i as int].1,
            *v == self.values()[i as int],
            distinct_keys(self.pairs()),
            self.deep_view().dom().contains(self.pairs()[i as int].0),
            self.deep_view()[self.pairs()[i as int].0] == v.deep_view(),
    {
        proof {
            use_type_invariant(self);
            lemma_pairs_to_map_index(self.pairs(), i as int);
        }
        &self.entries[i].1
    }

    /// The entries in order.
    pub fn entries(&self) -> (r: &[(String, V)])
        ensures
            r@.map_values(|e: (String, V)| (e.0@, e.1.deep_view())) == self.pairs(),
    {
        self.entries.as_slice()
    }

    /// Stores `value` for `key`, replacing an earlier value for the same key in place.
    pub fn insert(&mut self, key: String, value: V)
        ensures
            final(self).deep_view() == old(self).deep_view().insert(key@, value.deep_view()),
            old(self).deep_view().dom().contains(key@) ==> final(self).pairs().len() == old(self).pairs().len(),
            !old(self).deep_view().dom().contains(key@) ==> final(self).pairs() == old(self).pairs().push((key@, value.deep_view())),
    {
        proof {
            use_type_invariant(&*self);
        }
        let found = self.index_of(key.as_str());
        let ghost old_pairs = self.pairs();
        let mut entries: Vec<(String, V)> = Vec::new();
        std::mem::swap(&mut entries, &mut self.entries);
        assert(entries@.map_values(|e: (String, V)| (e.0@, e.1.deep_view())) == old_pairs);
        let ghost kv = (key@, value.deep_view());
        match found {
            Some(i) => {
                entries.set(i, (key, value));
                proof {
                    let np = entries@.map_values(|e: (String, V)| (e.0@, e.1.deep_view()));
                    assert(np =~= old_pairs.update(i as int, (old_pairs[i as int].0, kv.1)));
                    lemma_pairs_to_map_update(old_pairs, i as int, kv.1);
                    assert forall|a: int, b: int|
                        0 <= a < np.len() && 0 <= b < np.len() && a != b implies #[trigger] np[a].0
                        != #[trigger] np[b].0 by {
                        assert(np[a].0 == old_pairs[a].0 && np[b].0 == old_pairs[b].0);
                    }
                }
            },
            None => {
                entries.push((key, value));
                proof {
                    let np = entries@.map_values(|e: (String, V)| (e.0@, e.1.deep_view()));
                    assert(np =~= old_pairs.push(kv));
                    lemma_pairs_to_map_push(old_pairs, kv);
                    assert forall|a: int, b: int|
                        0 <= a < np.len() && 0 <= b < np.len() && a != b implies #[trigger] np[a].0
                        != #[trigger] np[b].0 by {
                        if a < old_pairs.len() {
                            assert(np[a] == old_pairs[a]);
                        }
                        if b < old_pairs.len() {
                            assert(np[b] == old_pairs[b]);
                        }
                    }
                }
            },
        }
        self.entries = entries;
    }
}

impl<V: DeepView> DeepView for StrMap<V> {
    type V = Map<Seq<char>, V::V>;

    open spec fn deep_view(&self) -> Map<Seq<char>, V::V> {
        pairs_to_map(self.pairs())
    }
}

} // verus!
