//! A small map keyed by strings, kept as a vector of distinct keys.

use vstd::prelude::*;
use vstd::string::*;

verus! {

/// The map that a sequence of distinct-key pairs stands for.
pub open spec fn map_of_pairs<V>(s: Seq<(Seq<char>, V)>) -> Map<Seq<char>, V>
    decreases s.len(),
{
    if s.len() == 0 {
        Map::empty()
    } else {
        map_of_pairs(s.drop_last()).insert(s.last().0, s.last().1)
    }
}

/// No key occurs twice.
pub open spec fn keys_distinct<V>(s: Seq<(Seq<char>, V)>) -> bool {
    forall|i: int, j: int| 0 <= i < s.len() && 0 <= j < s.len() && i != j ==> s[i].0 != s[j].0
}

pub proof fn lemma_map_of_pairs<V>(s: Seq<(Seq<char>, V)>)
    requires
        keys_distinct(s),
    ensures
        forall|k: Seq<char>| #[trigger] map_of_pairs(s).contains_key(k) <==> exists|i: int| 0 <= i < s.len() && s[i].0 == k,
        forall|i: int| 0 <= i < s.len() ==> #[trigger] map_of_pairs(s)[s[i].0] == s[i].1,
        map_of_pairs(s).dom().finite(),
        map_of_pairs(s).len() == s.len(),
    decreases s.len(),
{
    if s.len() > 0 {
        let p = s.drop_last();
        assert forall|i: int, j: int| 0 <= i < p.len() && 0 <= j < p.len() && i != j implies p[i].0 != p[j].0 by {
            assert(p[i] == s[i] && p[j] == s[j]);
        }
        lemma_map_of_pairs(p);
        let last = s.last();
        assert(!map_of_pairs(p).contains_key(last.0)) by {
            if map_of_pairs(p).contains_key(last.0) {
                let i = choose|i: int| 0 <= i < p.len() && p[i].0 == last.0;
                assert(s[i].0 == s[s.len() - 1].0);
            }
        }
        assert forall|k: Seq<char>| #[trigger] map_of_pairs(s).contains_key(k) <==> exists|i: int| 0 <= i < s.len() && s[i].0 == k by {
            if map_of_pairs(s).contains_key(k) && k != last.0 {
                let i = choose|i: int| 0 <= i < p.len() && p[i].0 == k;
                assert(s[i].0 == k);
            }
            if exists|i: int| 0 <= i < s.len() && s[i].0 == k {
                let i = choose|i: int| 0 <= i < s.len() && s[i].0 == k;
                if i < s.len() - 1 {
                    assert(p[i].0 == k);
                }
            }
        }
        assert forall|i: int| 0 <= i < s.len() implies #[trigger] map_of_pairs(s)[s[i].0] == s[i].1 by {
            if i < s.len() - 1 {
                assert(p[i] == s[i]);
                assert(s[i].0 != last.0);
            }
        }
    }
}

/// A map from strings to values; keys are kept distinct.
#[derive(Debug)]
pub struct StrMap<V> {
    items: Vec<(String, V)>,
}

impl<V> StrMap<V> {
    /// The entries as key views and values, in storage order.
    pub closed spec fn pairs(self) -> Seq<(Seq<char>, V)> {
        self.items@.map_values(|p: (String, V)| (p.0@, p.1))
    }

    /// Keys are distinct (the type invariant).
    #[verifier::type_invariant]
    pub closed spec fn inv(self) -> bool {
        keys_distinct(self.pairs())
    }

    /// The mathematical map.
    pub open spec fn view(self) -> Map<Seq<char>, V> {
        map_of_pairs(self.pairs())
    }

    /// The entries in storage order have distinct keys and make up the map.
    pub proof fn lemma_pairs(self)
        requires
            self.inv(),
        ensures
            keys_distinct(self.pairs()),
            forall|k: Seq<char>| #[trigger] self.view().contains_key(k) <==> exists|i: int| 0 <= i < self.pairs().len() && self.pairs()[i].0 == k,
            forall|i: int| 0 <= i < self.pairs().len() ==> #[trigger] self.view()[self.pairs()[i].0] == self.pairs()[i].1,
            self.view().dom().finite(),
            self.view().len() == self.pairs().len(),
    {
        lemma_map_of_pairs(self.pairs());
    }

    /// An empty map.
    pub fn new() -> (r: StrMap<V>)
        ensures
            r.view() == Map::<Seq<char>, V>::empty(),
            r.pairs().len() == 0,
    {
        let r = StrMap { items: Vec::new() };
        assert(r.pairs() =~= Seq::<(Seq<char>, V)>::empty());
        r
    }

    /// Number of entries.
    pub fn len(&self) -> (r: usize)
        ensures
            r == self.pairs().len(),
            r == self.view().len(),
    {
        proof {
            use_type_invariant(&*self);
            self.lemma_pairs();
        }
        self.items.len()
    }

    /// The key stored at position `i`.
    pub fn key_at(&self, i: usize) -> (r: &String)
        requires
            i < self.pairs().len(),
        ensures
            r@ == self.pairs()[i as int].0,
    {
        &self.items[i].0
    }

    /// The value stored at position `i`.
    pub fn value_at(&self, i: usize) -> (r: &V)
        requires
            i < self.pairs().len(),
        ensures
            *r == self.pairs()[i as int].1,
    {
        &self.items[i].1
    }

    /// Position of `key`, if present.
    pub fn find(&self, key: &str) -> (r: Option<usize>)
        ensures
            match r {
                Some(i) => i < self.pairs().len() && self.pairs()[i as int].0 == key@,
                None => !self.view().contains_key(key@),
            },
            r is Some <==> self.view().contains_key(key@),
    {
        proof {
            use_type_invariant(&*self);
            self.lemma_pairs();
        }
        let k = String::from_str(key);
        let mut i: usize = 0;
        while i < self.items.len()
            invariant
                i <= self.items.len(),
                k@ == key@,
                forall|j: int| 0 <= j < i ==> self.pairs()[j].0 != key@,
            decreases self.items.len() - i,
        {
            if self.items[i].0 == k {
                proof {
                    use_type_invariant(&*self);
                    self.lemma_pairs();
                    assert(self.pairs()[i as int].0 == key@);
                    assert(self.view().contains_key(key@));
                }
                return Some(i);
            }
            i = i + 1;
        }
        None
    }

    /// Whether `key` is present.
    pub fn contains_key(&self, key: &str) -> (r: bool)
        ensures
            r == self.view().contains_key(key@),
    {
        self.find(key).is_some()
    }

    /// The value stored under `key`.
    pub fn get(&self, key: &str) -> (r: Option<&V>)
        ensures
            match r {
                Some(v) => self.view().contains_key(key@) && *v == self.view()[key@],
                None => !self.view().contains_key(key@),
            },
    {
        proof {
            use_type_invariant(&*self);
            self.lemma_pairs();
        }
        match self.find(key) {
            Some(i) => Some(&self.items[i].1),
            None => None,
        }
    }

    /// Remove `key`, returning its value if it was present.
    pub fn remove(&mut self, key: &str) -> (r: Option<V>)
        ensures
            final(self).view() == old(self).view().remove(key@),
            match r {
                Some(v) => old(self).view().contains_key(key@) && v == old(self).view()[key@],
                None => !old(self).view().contains_key(key@),
            },
    {
        proof {
            use_type_invariant(&*self);
            self.lemma_pairs();
        }
        match self.find(key) {
            Some(i) => {
                let mut items: Vec<(String, V)> = Vec::new();
                std::mem::swap(&mut items, &mut self.items);
                let ghost before = items@;
                let (_, v) = items.remove(i);
                let ghost ps = before.map_values(|p: (String, V)| (p.0@, p.1));
                let ghost qs = items@.map_values(|p: (String, V)| (p.0@, p.1));
                proof {
                    assert(qs =~= ps.remove(i as int));
                    assert forall|a: int, b: int| 0 <= a < qs.len() && 0 <= b < qs.len() && a != b implies qs[a].0 != qs[b].0 by {
                        let a2 = if a < i { a } else { a + 1 };
                        let b2 = if b < i { b } else { b + 1 };
                        assert(qs[a] == ps[a2] && qs[b] == ps[b2]);
                    }
                    lemma_map_of_pairs(ps);
                    lemma_map_of_pairs(qs);
                    assert(map_of_pairs(qs) =~= map_of_pairs(ps).remove(key@)) by {
                        assert forall|k: Seq<char>| map_of_pairs(qs).contains_key(k) <==> map_of_pairs(ps).remove(key@).contains_key(k) by {
                            if map_of_pairs(qs).contains_key(k) {
                                let a = choose|a: int| 0 <= a < qs.len() && qs[a].0 == k;
                                let a2 = if a < i { a } else { a + 1 };
                                assert(ps[a2].0 == k);
                            }
                            if map_of_pairs(ps).remove(key@).contains_key(k) {
                                let a = choose|a: int| 0 <= a < ps.len() && ps[a].0 == k;
                                assert(a != i);
                                let a2 = if a < i { a } else { a - 1 };
                                assert(qs[a2].0 == k);
                            }
                        }
                        assert forall|k: Seq<char>| #[trigger] map_of_pairs(qs).contains_key(k) implies map_of_pairs(qs)[k] == map_of_pairs(ps).remove(key@)[k] by {
                            let a = choose|a: int| 0 <= a < qs.len() && qs[a].0 == k;
                            let a2 = if a < i { a } else { a + 1 };
                            assert(ps[a2] == qs[a]);
                        }
                    }
                }
                self.items = items;
                Some(v)
            },
            None => {
                proof {
                    assert(self.view().remove(key@) =~= self.view());
                }
                None
            },
        }
    }

    /// Set `key` to `value`, replacing any earlier value.
    pub fn insert(&mut self, key: String, value: V)
        ensures
            final(self).view() == old(self).view().insert(key@, value),
    {
        let _ = self.remove(key.as_str());
        proof {
            use_type_invariant(&*self);
            self.lemma_pairs();
        }
        let mut items: Vec<(String, V)> = Vec::new();
        std::mem::swap(&mut items, &mut self.items);
        let ghost before = items@;
        let ghost kv = key@;
        items.push((key, value));
        proof {
            let ps = before.map_values(|p: (String, V)| (p.0@, p.1));
            let qs = items@.map_values(|p: (String, V)| (p.0@, p.1));
            assert(qs.drop_last() =~= ps);
            assert(qs.last() == (kv, value));
            assert forall|a: int, b: int| 0 <= a < qs.len() && 0 <= b < qs.len() && a != b implies qs[a].0 != qs[b].0 by {
                if a < ps.len() && b < ps.len() {
                    assert(qs[a] == ps[a] && qs[b] == ps[b]);
                } else if a < ps.len() {
                    assert(qs[a] == ps[a]);
                    assert(map_of_pairs(ps).contains_key(ps[a].0));
                } else {
                    assert(qs[b] == ps[b]);
                    assert(map_of_pairs(ps).contains_key(ps[b].0));
                }
            }
        }
        self.items = items;
    }
}

} // verus!
