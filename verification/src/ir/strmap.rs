//! Maps keyed by names, kept as lists of pairs with distinct names.
use vstd::prelude::*;
use crate::ir::text::str_eq;

verus! {

/// The plain view of a `(name, dimension)` pair.
pub open spec fn pairs_view<V>(s: Seq<(String, V)>) -> Seq<(Seq<char>, V)> {
    s.map_values(|p: (String, V)| (p.0@, p.1))
}

/// The map that inserting the pairs of `s` in order builds: a later pair
/// for a name overrides an earlier one.
pub open spec fn smap<V>(s: Seq<(Seq<char>, V)>) -> Map<Seq<char>, V>
    decreases s.len(),
{
    if s.len() == 0 {
        Map::empty()
    } else {
        smap(s.drop_last()).insert(s.last().0, s.last().1)
    }
}

/// No name occurs twice among the pairs of `s`.
pub open spec fn keys_unique<V>(s: Seq<(Seq<char>, V)>) -> bool {
    forall|i: int, j: int| 0 <= i < j < s.len() ==> s[i].0 != s[j].0
}

/// A name is in the map of `s` exactly when some pair of `s` carries it.
pub proof fn lemma_smap_dom<V>(s: Seq<(Seq<char>, V)>, k: Seq<char>)
    ensures
        smap(s).contains_key(k) <==> exists|i: int| 0 <= i < s.len() && s[i].0 == k,
    decreases s.len(),
{
    if s.len() > 0 {
        lemma_smap_dom(s.drop_last(), k);
        if exists|i: int| 0 <= i < s.drop_last().len() && s.drop_last()[i].0 == k {
            let i = choose|i: int| 0 <= i < s.drop_last().len() && s.drop_last()[i].0 == k;
            assert(s[i].0 == k);
        }
        if exists|i: int| 0 <= i < s.len() && s[i].0 == k {
            let i = choose|i: int| 0 <= i < s.len() && s[i].0 == k;
            if i < s.len() - 1 {
                assert(s.drop_last()[i].0 == k);
            }
        }
    }
}

/// With unique names, the map gives each name the dimension of its pair.
pub proof fn lemma_smap_unique_index<V>(s: Seq<(Seq<char>, V)>, i: int)
    requires
        keys_unique(s),
        0 <= i < s.len(),
    ensures
        smap(s).contains_key(s[i].0),
        smap(s)[s[i].0] == s[i].1,
    decreases s.len(),
{
    if i < s.len() - 1 {
        let t = s.drop_last();
        assert(keys_unique(t));
        lemma_smap_unique_index(t, i);
        assert(t[i] == s[i]);
        assert(s.last().0 != s[i].0);
    }
}

/// Replacing the dimension of the pair at `j` updates that name in the map.
pub proof fn lemma_smap_update<V>(s: Seq<(Seq<char>, V)>, j: int, v: V)
    requires
        keys_unique(s),
        0 <= j < s.len(),
    ensures
        smap(s.update(j, (s[j].0, v))) =~= smap(s).insert(s[j].0, v),
        keys_unique(s.update(j, (s[j].0, v))),
    decreases s.len(),
{
    let t = s.update(j, (s[j].0, v));
    if j == s.len() - 1 {
        assert(t.drop_last() =~= s.drop_last());
    } else {
        let sd = s.drop_last();
        assert(keys_unique(sd));
        lemma_smap_update(sd, j, v);
        assert(t.drop_last() =~= sd.update(j, (sd[j].0, v)));
        assert(s.last().0 != s[j].0);
    }
}

/// A map from names to values of type `V`.
#[derive(Debug)]
pub struct StrMap<V> {
    entries: Vec<(String, V)>,
}

impl<V> View for StrMap<V> {
    type V = Map<Seq<char>, V>;

    closed spec fn view(&self) -> Map<Seq<char>, V> {
        smap(pairs_view(self.entries@))
    }
}

impl<V> StrMap<V> {
    #[verifier::type_invariant]
    closed spec fn inv(self) -> bool {
        keys_unique(pairs_view(self.entries@))
    }

    /// The pairs of the map, one per name, in insertion order.
    pub closed spec fn pairs(&self) -> Seq<(Seq<char>, V)> {
        pairs_view(self.entries@)
    }

    /// The map of a `StrMap` is the map that its pairs build.
    pub proof fn lemma_view_pairs(&self)
        ensures
            self@ == smap(self.pairs()),
    {
    }

    /// The empty map.
    pub fn new() -> (r: Self)
        ensures
            r@ == Map::<Seq<char>, V>::empty(),
            r.pairs().len() == 0,
    {
        let r = StrMap { entries: Vec::new() };
        assert(pairs_view(r.entries@) =~= Seq::<(Seq<char>, V)>::empty());
        r
    }

    fn position(&self, k: &str) -> (r: Option<usize>)
        ensures
            match r {
                Some(j) => j < self.entries@.len() && self.entries@[j as int].0@ == k@,
                None => forall|j: int| 0 <= j < self.entries@.len() ==> self.entries@[j].0@ != k@,
            },
    {
        let n = self.entries.len();
        let mut i: usize = 0;
        while i < n
            invariant
                n == self.entries@.len(),
                i <= n,
                forall|j: int| 0 <= j < i ==> self.entries@[j].0@ != k@,
            decreases n - i,
        {
            if str_eq(self.entries[i].0.as_str(), k) {
                return Some(i);
            }
            i = i + 1;
        }
        None
    }

    /// The value of `k`, if `k` is in the map.
    pub fn get(&self, k: &str) -> (r: Option<&V>)
        ensures
            r == (if self@.contains_key(k@) { Some(&self@[k@]) } else { None::<&V> }),
    {
        proof {
            use_type_invariant(self);
            lemma_smap_dom(pairs_view(self.entries@), k@);
        }
        match self.position(k) {
            Some(j) => {
                proof {
                    lemma_smap_unique_index(pairs_view(self.entries@), j as int);
                }
                Some(&self.entries[j].1)
            },
            None => {
                proof {
                    if self@.contains_key(k@) {
                        let i = choose|i: int|
                            0 <= i < pairs_view(self.entries@).len() && pairs_view(
                                self.entries@,
                            )[i].0 == k@;
                        assert(self.entries@[i].0@ == k@);
                    }
                }
                None
            },
        }
    }

    /// Whether `k` is in the map.
    pub fn contains_key(&self, k: &str) -> (r: bool)
        ensures
            r == self@.contains_key(k@),
    {
        self.get(k).is_some()
    }

    /// Sets the dimension of `k` to `v`.
    pub fn insert(&mut self, k: String, v: V)
        ensures
            final(self)@ == old(self)@.insert(k@, v),
    {
        proof {
            use_type_invariant(&*self);
        }
        let ghost old_pairs = pairs_view(self.entries@);
        match self.position(k.as_str()) {
            Some(j) => {
                let mut entries = Vec::new();
                std::mem::swap(&mut entries, &mut self.entries);
                let ghost before = entries@;
                let key = entries[j].0.clone();
                entries.set(j, (key, v));
                proof {
                    lemma_smap_update(old_pairs, j as int, v);
                    assert(pairs_view(entries@) =~= old_pairs.update(j as int, (old_pairs[j as int].0, v)));
                }
                self.entries = entries;
            },
            None => {
                let mut entries = Vec::new();
                std::mem::swap(&mut entries, &mut self.entries);
                entries.push((k, v));
                proof {
                    assert(pairs_view(entries@).drop_last() =~= old_pairs);
                    assert(pairs_view(entries@) =~= old_pairs.push((k@, v)));
                }
                self.entries = entries;
            },
        }
    }

    /// The map built by inserting the pairs of `kv` in order.
    pub fn from_pairs(kv: Vec<(String, V)>) -> (r: Self) where V: Copy
        ensures
            r@ == smap(pairs_view(kv@)),
    {
        let mut r = Self::new();
        let n = kv.len();
        let mut i: usize = 0;
        while i < n
            invariant
                n == kv@.len(),
                i <= n,
                r@ == smap(pairs_view(kv@.take(i as int))),
            decreases n - i,
        {
            let k = kv[i].0.clone();
            r.insert(k, kv[i].1);
            proof {
                let t = pairs_view(kv@.take(i + 1));
                assert(t.drop_last() =~= pairs_view(kv@.take(i as int)));
            }
            i = i + 1;
        }
        assert(kv@.take(n as int) =~= kv@);
        r
    }

    /// A copy of the map.
    pub fn duplicate(&self) -> (r: Self)
        where V: Copy
        ensures
            r@ == self@,
            r.pairs() == self.pairs(),
    {
        proof {
            use_type_invariant(self);
        }
        let n = self.entries.len();
        let mut entries: Vec<(String, V)> = Vec::new();
        let mut i: usize = 0;
        while i < n
            invariant
                n == self.entries@.len(),
                i <= n,
                pairs_view(entries@) == pairs_view(self.entries@).take(i as int),
            decreases n - i,
        {
            let ghost before = entries@;
            entries.push((self.entries[i].0.clone(), self.entries[i].1));
            assert(pairs_view(entries@) =~= pairs_view(before).push(pairs_view(self.entries@)[i as int]));
            i = i + 1;
            assert(pairs_view(entries@) =~= pairs_view(self.entries@).take(i as int));
        }
        assert(pairs_view(self.entries@).take(n as int) =~= pairs_view(self.entries@));
        StrMap { entries }
    }

    /// The number of names in the map.
    pub fn len(&self) -> (r: usize)
        ensures
            r == self@.dom().len(),
            self@.dom().finite(),
    {
        proof {
            use_type_invariant(self);
            let ps = pairs_view(self.entries@);
            let ks = ps.map_values(|p: (Seq<char>, V)| p.0);
            assert forall|k: Seq<char>| self@.dom().contains(k) <==> ks.to_set().contains(k) by {
                lemma_smap_dom(ps, k);
                if ks.to_set().contains(k) {
                    let i = choose|i: int| 0 <= i < ks.len() && ks[i] == k;
                    assert(ps[i].0 == k);
                }
                if self@.dom().contains(k) {
                    let i = choose|i: int| 0 <= i < ps.len() && ps[i].0 == k;
                    assert(ks[i] == k);
                }
            }
            assert(self@.dom() =~= ks.to_set());
            assert(ks.no_duplicates()) by {
                assert forall|a: int, b: int| 0 <= a < ks.len() && 0 <= b < ks.len() && a != b implies ks[a] != ks[b] by {
                    if a < b {
                        assert(ps[a].0 != ps[b].0);
                    } else {
                        assert(ps[b].0 != ps[a].0);
                    }
                }
            }
            ks.unique_seq_to_set();
            vstd::seq_lib::seq_to_set_is_finite(ks);
        }
        self.entries.len()
    }

    /// Whether the map holds no name.
    pub fn is_empty(&self) -> (r: bool)
        ensures
            r == (self@ == Map::<Seq<char>, V>::empty()),
    {
        proof {
            use_type_invariant(self);
        }
        if self.entries.len() == 0 {
            assert(pairs_view(self.entries@) =~= Seq::<(Seq<char>, V)>::empty());
            true
        } else {
            proof {
                lemma_smap_unique_index(pairs_view(self.entries@), 0);
                assert(self@.contains_key(pairs_view(self.entries@)[0].0));
            }
            false
        }
    }

    /// The pairs of the map, one per name.
    pub fn entries(&self) -> (r: &Vec<(String, V)>)
        ensures
            pairs_view(r@) == self.pairs(),
            keys_unique(pairs_view(r@)),
            smap(pairs_view(r@)) == self@,
    {
        proof {
            use_type_invariant(self);
        }
        &self.entries
    }
}

} // verus!
