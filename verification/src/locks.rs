//! Serialization of work per path and per directory: lock slots handed out
//! per key, and the order in which two directory locks are taken.

use vstd::prelude::*;
use vstd::string::*;
use crate::strmap::StrMap;
use crate::text::{lemma_seq_lt_order, seq_lt, str_lt};

verus! {

/// Hands out one lock slot per path: the same path always gets the same
/// slot, different paths get different slots (numbered from 0).
#[derive(Debug)]
pub struct PathSerializer {
    queues: StrMap<usize>,
}

impl PathSerializer {
    /// The slot of each path seen so far.
    pub closed spec fn slots(self) -> Map<Seq<char>, usize> {
        self.queues.view()
    }

    /// Slots are distinct and numbered below the number of paths.
    #[verifier::type_invariant]
    pub closed spec fn inv(self) -> bool {
        &&& forall|k: Seq<char>| #[trigger] self.queues.view().contains_key(k) ==> self.queues.view()[k] < self.queues.view().len()
        &&& forall|a: Seq<char>, b: Seq<char>|
            #[trigger] self.queues.view().contains_key(a) && #[trigger] self.queues.view().contains_key(b) && a != b
                ==> self.queues.view()[a] != self.queues.view()[b]
    }

    /// No path yet.
    pub fn new() -> (r: PathSerializer)
        ensures
            r.slots() == Map::<Seq<char>, usize>::empty(),
    {
        let r = PathSerializer { queues: StrMap::new() };
        r
    }

    /// The slot of `path`, handing out a fresh one on first use.
    pub fn get_path_lock(&mut self, path: &str) -> (r: usize)
        ensures
            old(self).slots().contains_key(path@) ==> r == old(self).slots()[path@] && final(self).slots() == old(self).slots(),
            !old(self).slots().contains_key(path@) ==> {
                &&& final(self).slots() == old(self).slots().insert(path@, r)
                &&& r == old(self).slots().len()
                &&& forall|k: Seq<char>| #[trigger] old(self).slots().contains_key(k) ==> old(self).slots()[k] != r
            },
    {
        proof {
            use_type_invariant(&*self);
            use_type_invariant(&self.queues);
            self.queues.lemma_pairs();
        }
        match self.queues.get(path) {
            Some(slot) => *slot,
            None => {
                let slot = self.queues.len();
                let ghost before = self.queues.view();
                let mut q = StrMap::new();
                std::mem::swap(&mut q, &mut self.queues);
                q.insert(String::from_str(path), slot);
                proof {
                    use_type_invariant(&q);
                    q.lemma_pairs();
                    assert(q.view().len() == before.len() + 1) by {
                        assert(q.view() == before.insert(path@, slot));
                        assert(!before.contains_key(path@));
                    }
                    assert forall|a: Seq<char>, b: Seq<char>|
                        #[trigger] q.view().contains_key(a) && #[trigger] q.view().contains_key(b) && a != b
                            implies q.view()[a] != q.view()[b] by {
                        if a != path@ && b != path@ {
                            assert(before.contains_key(a) && before.contains_key(b));
                        } else if a == path@ {
                            assert(before.contains_key(b));
                        } else {
                            assert(before.contains_key(a));
                        }
                    }
                    assert forall|k: Seq<char>| #[trigger] q.view().contains_key(k) implies q.view()[k] < q.view().len() by {
                        if k != path@ {
                            assert(before.contains_key(k));
                        }
                    }
                }
                self.queues = q;
                slot
            },
        }
    }

    /// Same path, same slot; different paths, different slots.
    pub proof fn lemma_slots_distinct(self, a: Seq<char>, b: Seq<char>)
        requires
            self.inv(),
            self.slots().contains_key(a),
            self.slots().contains_key(b),
        ensures
            (self.slots()[a] == self.slots()[b]) <==> (a == b),
    {
    }
}

impl Default for PathSerializer {
    fn default() -> (r: PathSerializer)
        ensures
            r.slots() == Map::<Seq<char>, usize>::empty(),
    {
        PathSerializer::new()
    }
}

/// The two directories in the order their locks are taken: the one that
/// sorts first, first.
pub open spec fn spec_lock_order(source: Seq<char>, target: Seq<char>) -> (Seq<char>, Seq<char>) {
    if seq_lt(source, target) {
        (source, target)
    } else {
        (target, source)
    }
}

/// Order two directory locks to avoid deadlock.
pub fn lock_order(source_dir: &str, target_dir: &str) -> (r: (String, String))
    ensures
        (r.0@, r.1@) == spec_lock_order(source_dir@, target_dir@),
{
    if str_lt(source_dir, target_dir) {
        (String::from_str(source_dir), String::from_str(target_dir))
    } else {
        (String::from_str(target_dir), String::from_str(source_dir))
    }
}

/// Any two directories are locked in the same order whichever of them is
/// the source, and the first never sorts after the second.
pub proof fn lemma_lock_order_consistent(a: Seq<char>, b: Seq<char>)
    requires
        a != b,
    ensures
        spec_lock_order(a, b) == spec_lock_order(b, a),
        !seq_lt(spec_lock_order(a, b).1, spec_lock_order(a, b).0),
{
    lemma_seq_lt_order(a, b, a);
    lemma_seq_lt_order(b, a, b);
}

} // verus!
