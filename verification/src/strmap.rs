//! Maps keyed by strings: option values, and the sections of a
//! configuration file.
use vstd::prelude::*;

verus! {

/// A map from strings to values, as a list of distinct keys with their
/// values, in the order first inserted.
#[derive(Debug)]
pub struct StrMap<V: View> {
    entries: Vec<(String, V)>,
}

/// The map that a list of distinct keys and their values stands for.
pub open spec fn map_of<W>(s: Seq<(Seq<char>, W)>) -> Map<Seq<char>, W>
    decreases s.len(),
{
    if s.len() == 0 {
        Map::empty()
    } else {
        map_of(s.drop_last()).insert(s.last().0, s.last().1)
    }
}

/// No key occurs twice.
pub open spec fn keys_distinct<W>(s: Seq<(Seq<char>, W)>) -> bool {
    forall|i: int, j: int| 0 <= i < j < s.len() ==> #[trigger] s[i].0 != #[trigger] s[j].0
}

proof fn lemma_map_of_dom<W>(s: Seq<(Seq<char>, W)>, k: Seq<char>)
    ensures
        map_of(s).dom().contains(k) <==> exists|j: int| 0 <= j < s.len() && #[trigger] s[j].0 == k,
    decreases s.len(),
{
    if s.len() > 0 {
        lemma_map_of_dom(s.drop_last(), k);
        if map_of(s).dom().contains(k) && s.last().0 != k {
            let j = choose|j: int| 0 <= j < s.drop_last().len() && #[trigger] s.drop_last()[j].0 == k;
            assert(s[j].0 == k);
        }
        if exists|j: int| 0 <= j < s.len() && #[trigger] s[j].0 == k {
            let j = choose|j: int| 0 <= j < s.len() && #[trigger] s[j].0 == k;
            if j < s.len() - 1 {
                assert(s.drop_last()[j].0 == k);
            }
        }
    }
}

proof fn lemma_map_of_index<W>(s: Seq<(Seq<char>, W)>, j: int)
    requires
        keys_distinct(s),
        0 <= j < s.len(),
    ensures
        map_of(s).dom().contains(s[j].0),
        map_of(s)[s[j].0] == s[j].1,
    decreases s.len(),
{
    if j < s.len() - 1 {
        assert(s.drop_last()[j] == s[j]);
        lemma_map_of_index(s.drop_last(), j);
        assert(s[j].0 != s[s.len() - 1].0);
    }
}

proof fn lemma_map_of_update<W>(s: Seq<(Seq<char>, W)>, j: int, v: W)
    requires
        keys_distinct(s),
        0 <= j < s.len(),
    ensures
        map_of(s.update(j, (s[j].0, v))) == map_of(s).insert(s[j].0, v),
    decreases s.len(),
{
    let t = s.update(j, (s[j].0, v));
    if j == s.len() - 1 {
        assert(t.drop_last() =~= s.drop_last());
        lemma_map_of_dom(s.drop_last(), s[j].0);
        assert(map_of(t) =~= map_of(s).insert(s[j].0, v));
    } else {
        assert(t.drop_last() =~= s.drop_last().update(j, (s[j].0, v)));
        assert(s.drop_last()[j] == s[j]);
        lemma_map_of_update(s.drop_last(), j, v);
        assert(s[j].0 != s[s.len() - 1].0);
        assert(map_of(t) =~= map_of(s).insert(s[j].0, v));
    }
}

impl<V: View> View for StrMap<V> {
    type V = Map<Seq<char>, V::V>;

    /// The map held.
    closed spec fn view(&self) -> Map<Seq<char>, V::V> {
        map_of(self.pairs())
    }
}

impl<V: View> StrMap<V> {
    #[verifier::type_invariant]
    spec fn inv(self) -> bool {
        keys_distinct(self.pairs())
    }

    /// The keys and values, as stored.
    pub closed spec fn pairs(self) -> Seq<(Seq<char>, V::V)> {
        self.entries@.map_values(|e: (String, V)| (e.0@, e.1@))
    }

    /// The empty map.
    pub fn new() -> (m: Self)
        ensures
            m.view() == Map::<Seq<char>, V::V>::empty(),
    {
        let m = StrMap { entries: Vec::new() };
        proof {
            assert(m.pairs() =~= Seq::<(Seq<char>, V::V)>::empty());
        }
        m
    }

    fn find(&self, key: &String) -> (r: Option<usize>)
        ensures
            match r {
                Some(j) => j < self.pairs().len() && self.pairs()[j as int].0 == key@,
                None => !self.view().dom().contains(key@),
            },
    {
        proof {
            use_type_invariant(self);
        }
        let n = self.entries.len();
        let mut j: usize = 0;
        while j < n
            invariant
                n == self.entries@.len(),
                j <= n,
                forall|k: int| 0 <= k < j ==> #[trigger] self.pairs()[k].0 != key@,
            decreases n - j,
        {
            if self.entries[j].0 == *key {
                return Some(j);
            }
            j += 1;
        }
        proof {
            lemma_map_of_dom(self.pairs(), key@);
        }
        None
    }

    /// Sets the value of `key`, in place of any value it had.
    pub fn insert(&mut self, key: String, value: V)
        ensures
            final(self).view() == old(self).view().insert(key@, value@),
            !old(self).view().dom().contains(key@) ==> final(self).pairs() == old(self).pairs().push(
                (key@, value@),
            ),
            old(self).view().dom().contains(key@) ==> exists|j: int|
                #![trigger old(self).pairs()[j]]
                0 <= j < old(self).pairs().len() && old(self).pairs()[j].0 == key@ && final(self).pairs()
                    == old(self).pairs().update(j, (key@, value@)),
    {
        proof {
            use_type_invariant(&*self);
        }
        let ghost s = self.pairs();
        let found = self.find(&key);
        let mut entries: Vec<(String, V)> = Vec::new();
        core::mem::swap(&mut entries, &mut self.entries);
        assert(entries@.map_values(|e: (String, V)| (e.0@, e.1@)) == s);
        match found {
            Some(j) => {
                let k = entries[j].0.clone();
                entries.set(j, (k, value));
                proof {
                    assert(entries@.map_values(|e: (String, V)| (e.0@, e.1@)) =~= s.update(
                        j as int,
                        (s[j as int].0, value@),
                    ));
                    lemma_map_of_update(s, j as int, value@);
                    lemma_map_of_dom(s, key@);
                }
            },
            None => {
                proof {
                    lemma_map_of_dom(s, key@);
                }
                entries.push((key, value));
                proof {
                    let t = entries@.map_values(|e: (String, V)| (e.0@, e.1@));
                    assert(t =~= s.push((key@, value@)));
                    assert(t.drop_last() =~= s);
                }
            },
        }
        self.entries = entries;
    }

    /// The value of `key`, if it has one.
    pub fn get(&self, key: &str) -> (r: Option<&V>)
        ensures
            match r {
                Some(v) => self.view().dom().contains(key@) && v@ == self.view()[key@],
                None => !self.view().dom().contains(key@),
            },
    {
        proof {
            use_type_invariant(self);
        }
        let k = key.to_owned();
        match self.find(&k) {
            Some(j) => {
                proof {
                    lemma_map_of_index(self.pairs(), j as int);
                }
                Some(&self.entries[j].1)
            },
            None => None,
        }
    }

    /// Whether `key` has a value.
    pub fn contains_key(&self, key: &str) -> (r: bool)
        ensures
            r == self.view().dom().contains(key@),
    {
        self.get(key).is_some()
    }

    /// Whether the map is empty.
    pub fn is_empty(&self) -> (r: bool)
        ensures
            r == (self@ == Map::<Seq<char>, V::V>::empty()),
    {
        let r = self.entries.len() == 0;
        proof {
            if r {
                assert(self.pairs() =~= Seq::<(Seq<char>, V::V)>::empty());
            } else {
                let s = self.pairs();
                lemma_map_of_dom(s, s.last().0);
                assert(self@.dom().contains(s.last().0));
            }
        }
        r
    }

    /// The keys and values, in the order the keys were first inserted.
    pub fn entries(&self) -> (r: &Vec<(String, V)>)
        ensures
            r@.map_values(|e: (String, V)| (e.0@, e.1@)) == self.pairs(),
    {
        &self.entries
    }
}

} // verus!
