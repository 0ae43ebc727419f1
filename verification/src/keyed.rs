//! Small maps keyed by a 32-byte identity, kept as association lists.
use vstd::prelude::*;
use crate::content::particle_eq;
use crate::Particle;

verus! {

/// The map an association list denotes, later entries winning.
pub open spec fn as_map<V>(s: Seq<(Particle, V)>) -> Map<Particle, V>
    decreases s.len(),
{
    if s.len() == 0 {
        Map::empty()
    } else {
        as_map(s.drop_last()).insert(s.last().0, s.last().1)
    }
}

/// No key occurs twice.
pub open spec fn distinct<V>(s: Seq<(Particle, V)>) -> bool {
    forall|i: int, j: int| 0 <= i < j < s.len() ==> s[i].0 != s[j].0
}

/// In a list without repeated keys, a key is present exactly where some
/// entry has it, and maps to that entry's value.
pub proof fn lemma_as_map<V>(s: Seq<(Particle, V)>)
    requires
        distinct(s),
    ensures
        forall|k: Particle| as_map(s).contains_key(k) <==> exists|i: int| 0 <= i < s.len() && s[i].0 == k,
        forall|i: int| 0 <= i < s.len() ==> #[trigger] as_map(s)[s[i].0] == s[i].1,
    decreases s.len(),
{
    if s.len() > 0 {
        let p = s.drop_last();
        let last = s.last();
        assert(distinct(p));
        lemma_as_map(p);
        assert forall|k: Particle| as_map(s).contains_key(k) implies exists|i: int| 0 <= i < s.len() && s[i].0 == k by {
            if k != last.0 {
                assert(as_map(p).contains_key(k));
                let i = choose|i: int| 0 <= i < p.len() && p[i].0 == k;
                assert(s[i] == p[i]);
            } else {
                assert(s[s.len() - 1].0 == k);
            }
        }
        assert forall|k: Particle| (exists|i: int| 0 <= i < s.len() && s[i].0 == k) implies as_map(s).contains_key(k) by {
            let i = choose|i: int| 0 <= i < s.len() && s[i].0 == k;
            if i < s.len() - 1 {
                assert(p[i] == s[i]);
                assert(as_map(p).contains_key(k));
            }
        }
        assert forall|i: int| 0 <= i < s.len() implies #[trigger] as_map(s)[s[i].0] == s[i].1 by {
            if i < s.len() - 1 {
                assert(p[i] == s[i]);
                assert(s[i].0 != last.0);
                assert(as_map(p)[p[i].0] == p[i].1);
            }
        }
    }
}

/// A finite map from 32-byte identities to copyable values.
pub struct Keyed<V> {
    entries: Vec<(Particle, V)>,
}

impl<V> View for Keyed<V> {
    type V = Map<Particle, V>;

    closed spec fn view(&self) -> Map<Particle, V> {
        as_map(self.entries@)
    }
}

impl<V> Keyed<V> {
    #[verifier::type_invariant]
    spec fn wf(self) -> bool {
        distinct(self.entries@)
    }
}

impl<V> Keyed<V> {
    /// The empty map.
    pub fn new() -> (r: Self)
        ensures
            r@ == Map::<Particle, V>::empty(),
    {
        Keyed { entries: Vec::new() }
    }

    fn find(&self, k: &Particle) -> (r: Option<usize>)
        ensures
            match r {
                Some(i) => i < self.entries@.len() && self.entries@[i as int].0 == *k,
                None => forall|i: int| 0 <= i < self.entries@.len() ==> self.entries@[i].0 != *k,
            },
    {
        let mut i: usize = 0;
        while i < self.entries.len()
            invariant
                i <= self.entries@.len(),
                forall|j: int| 0 <= j < i ==> self.entries@[j].0 != *k,
            decreases self.entries@.len() - i,
        {
            if particle_eq(&self.entries[i].0, k) {
                return Some(i);
            }
            i = i + 1;
        }
        None
    }

    /// Put `value` under `k`, replacing what was there.
    pub fn set(&mut self, k: Particle, value: V)
        ensures
            final(self)@ == old(self)@.insert(k, value),
    {
        proof {
            use_type_invariant(&*self);
            lemma_as_map(self.entries@);
        }
        let ghost before = self.entries@;
        match self.find(&k) {
            Some(i) => {
                let mut entries: Vec<(Particle, V)> = Vec::new();
                std::mem::swap(&mut entries, &mut self.entries);
                entries.set(i, (k, value));
                proof {
                    assert(distinct(entries@));
                    lemma_as_map(entries@);
                    assert forall|q: Particle| #[trigger] as_map(entries@).contains_key(q) == as_map(before).insert(k, value).contains_key(q) by {
                        if as_map(before).contains_key(q) {
                            let j = choose|j: int| 0 <= j < before.len() && before[j].0 == q;
                            assert(entries@[j].0 == q);
                        }
                        if as_map(entries@).contains_key(q) {
                            let j = choose|j: int| 0 <= j < entries@.len() && entries@[j].0 == q;
                            if j != i {
                                assert(before[j].0 == q);
                            }
                        }
                    }
                    assert forall|q: Particle| #[trigger] as_map(entries@).contains_key(q) implies as_map(entries@)[q] == as_map(before).insert(k, value)[q] by {
                        let j = choose|j: int| 0 <= j < entries@.len() && entries@[j].0 == q;
                        if j != i {
                            assert(before[j] == entries@[j]);
                            assert(as_map(before)[before[j].0] == before[j].1);
                        }
                    }
                    assert(as_map(entries@) =~= as_map(before).insert(k, value));
                }
                self.entries = entries;
            },
            None => {
                let mut entries: Vec<(Particle, V)> = Vec::new();
                std::mem::swap(&mut entries, &mut self.entries);
                entries.push((k, value));
                proof {
                    assert(entries@.drop_last() =~= before);
                    assert(distinct(entries@));
                }
                self.entries = entries;
            },
        }
    }

    /// The entries, each key once, in insertion order, taken out of the map.
    pub fn into_entries(self) -> (r: Vec<(Particle, V)>)
        ensures
            distinct(r@),
            as_map(r@) == self@,
    {
        proof {
            use_type_invariant(&self);
        }
        self.entries
    }
}

impl<V: Copy> Keyed<V> {
    /// The value under `k`, if any.
    pub fn get(&self, k: &Particle) -> (r: Option<V>)
        ensures
            r == (if self@.contains_key(*k) { Some(self@[*k]) } else { None::<V> }),
    {
        proof {
            use_type_invariant(self);
            lemma_as_map(self.entries@);
        }
        match self.find(k) {
            Some(i) => Some(self.entries[i].1),
            None => {
                proof {
                    if self@.contains_key(*k) {
                        let i = choose|i: int| 0 <= i < self.entries@.len() && self.entries@[i].0 == *k;
                    }
                }
                None
            },
        }
    }

    /// The entries, each key once, in insertion order.
    pub fn entries(&self) -> (r: Vec<(Particle, V)>)
        ensures
            distinct(r@),
            as_map(r@) == self@,
    {
        proof {
            use_type_invariant(self);
        }
        let mut r: Vec<(Particle, V)> = Vec::new();
        let mut i: usize = 0;
        while i < self.entries.len()
            invariant
                i <= self.entries@.len(),
                r@ == self.entries@.take(i as int),
            decreases self.entries@.len() - i,
        {
            r.push(self.entries[i]);
            proof {
                assert(r@ =~= self.entries@.take(i + 1));
            }
            i = i + 1;
        }
        proof {
            assert(r@ =~= self.entries@);
        }
        r
    }
}

} // verus!
