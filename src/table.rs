use vstd::prelude::*;
use crate::nibbles::Nibbles;
use crate::node::SparseNode;

verus! {

/// A table from paths to values, each path at most once.
pub struct PathMap<V: View> {
    entries: Vec<(Nibbles, V)>,
    model: Ghost<Map<Seq<u8>, V::V>>,
}

impl<V: View> View for PathMap<V> {
    type V = Map<Seq<u8>, V::V>;

    closed spec fn view(&self) -> Map<Seq<u8>, V::V> {
        self.model@
    }
}

impl<V: View> PathMap<V> {
    /// The entries hold distinct paths and agree with the model.
    pub closed spec fn wf(&self) -> bool {
        &&& forall|i: int, j: int|
            0 <= i < j < self.entries@.len() ==> self.entries@[i].0@ != self.entries@[j].0@
        &&& forall|k: Seq<u8>|
            self.model@.dom().contains(k) <==> exists|i: int|
                0 <= i < self.entries@.len() && self.entries@[i].0@ == k
        &&& forall|i: int|
            0 <= i < self.entries@.len() ==> #[trigger] self.model@[self.entries@[i].0@]
                == self.entries@[i].1@
    }

    pub fn new() -> (r: Self)
        ensures
            r.wf(),
            r@ == Map::<Seq<u8>, V::V>::empty(),
    {
        PathMap { entries: Vec::new(), model: Ghost(Map::empty()) }
    }

    /// Number of entries.
    pub fn len(&self) -> (r: usize)
        requires
            self.wf(),
        ensures
            r == self@.dom().len(),
    {
        proof { self.lemma_len(); }
        self.entries.len()
    }

    /// A well-formed table has finitely many entries.
    pub proof fn lemma_finite(&self)
        requires
            self.wf(),
        ensures
            self@.dom().finite(),
    {
        self.lemma_len();
    }

    proof fn lemma_len(&self)
        requires
            self.wf(),
        ensures
            self@.dom().len() == self.entries@.len(),
            self@.dom().finite(),
    {
        let keys = self.entries@.map_values(|e: (Nibbles, V)| e.0@);
        assert forall|i: int, j: int| 0 <= i < j < keys.len() implies keys[i] != keys[j] by {}
        assert(keys.no_duplicates());
        keys.unique_seq_to_set();
        assert(self@.dom() =~= keys.to_set()) by {
            assert forall|k: Seq<u8>| self@.dom().contains(k) implies keys.to_set().contains(k) by {
                let i = choose|i: int| 0 <= i < self.entries@.len() && self.entries@[i].0@ == k;
                assert(keys[i] == k);
            }
        }
    }

    /// Index of the entry at `k`, if any.
    fn find(&self, k: &Nibbles) -> (r: Option<usize>)
        requires
            self.wf(),
        ensures
            match r {
                Some(i) => i < self.entries@.len() && self.entries@[i as int].0@ == k@,
                None => !self@.dom().contains(k@),
            },
    {
        let mut i: usize = 0;
        while i < self.entries.len()
            invariant
                self.wf(),
                i <= self.entries@.len(),
                forall|j: int| 0 <= j < i ==> self.entries@[j].0@ != k@,
            decreases self.entries@.len() - i,
        {
            if self.entries[i].0.same_as(k) {
                return Some(i);
            }
            i = i + 1;
        }
        None
    }

    /// The value at `k`, if any.
    pub fn get(&self, k: &Nibbles) -> (r: Option<&V>)
        requires
            self.wf(),
        ensures
            r.is_some() == self@.dom().contains(k@),
            r.is_some() ==> r.unwrap()@ == self@[k@],
    {
        match self.find(k) {
            Some(i) => Some(&self.entries[i].1),
            None => None,
        }
    }

    /// Removes the entry at `k` and hands back its value.
    pub fn remove(&mut self, k: &Nibbles) -> (r: Option<V>)
        requires
            old(self).wf(),
        ensures
            final(self).wf(),
            final(self)@ == old(self)@.remove(k@),
            r.is_some() == old(self)@.dom().contains(k@),
            r.is_some() ==> r.unwrap()@ == old(self)@[k@],
    {
        match self.find(k) {
            Some(i) => {
                let ghost old_entries = self.entries@;
                let (_, v) = self.entries.swap_remove(i);
                self.model = Ghost(self.model@.remove(k@));
                proof {
                    let n = old_entries.len() - 1;
                    assert forall|a: int| 0 <= a < self.entries@.len() implies
                        self.entries@[a] == old_entries[if a == i { n } else { a }] by {}
                    assert forall|q: Seq<u8>|
                        self.model@.dom().contains(q) implies exists|a: int|
                            0 <= a < self.entries@.len() && self.entries@[a].0@ == q by {
                        let b = choose|b: int| 0 <= b < old_entries.len() && old_entries[b].0@ == q;
                        if b == n {
                            assert(self.entries@[i as int].0@ == q);
                        } else {
                            assert(self.entries@[b].0@ == q);
                        }
                    }
                }
                Some(v)
            },
            None => {
                assert(self@.remove(k@) =~= self@);
                None
            },
        }
    }

    /// Puts `v` at `k`, and hands back the value that was there.
    pub fn insert(&mut self, k: Nibbles, v: V) -> (r: Option<V>)
        requires
            old(self).wf(),
        ensures
            final(self).wf(),
            final(self)@ == old(self)@.insert(k@, v@),
            r.is_some() == old(self)@.dom().contains(k@),
            r.is_some() ==> r.unwrap()@ == old(self)@[k@],
    {
        let ghost key = k@;
        let ghost val = v@;
        let ghost before = self@;
        let r = self.remove(&k);
        let ghost mid = self.entries@;
        let ghost mid_model = self.model@;
        self.entries.push((k, v));
        self.model = Ghost(self.model@.insert(key, val));
        proof {
            assert(self.model@ =~= before.insert(key, val));
            assert forall|q: Seq<u8>|
                self.model@.dom().contains(q) implies exists|a: int|
                    0 <= a < self.entries@.len() && self.entries@[a].0@ == q by {
                if q == key {
                    assert(self.entries@[self.entries@.len() - 1].0@ == q);
                } else {
                    assert(mid_model.dom().contains(q));
                    let b = choose|b: int| 0 <= b < mid.len() && mid[b].0@ == q;
                    assert(self.entries@[b] == mid[b]);
                }
            }
            assert forall|a: int| 0 <= a < mid.len() implies mid[a].0@ != key by {
                assert(!mid_model.dom().contains(key));
            }
            assert forall|a: int| 0 <= a < self.entries@.len() implies
                #[trigger] self.model@[self.entries@[a].0@] == self.entries@[a].1@ by {
                if a < mid.len() {
                    assert(self.entries@[a] == mid[a]);
                    assert(mid_model[mid[a].0@] == mid[a].1@);
                }
            }
        }
        r
    }

    /// The length of the longest key, zero for an empty table.
    pub fn max_key_len(&self) -> (r: usize)
        requires
            self.wf(),
        ensures
            forall|q: Seq<u8>| #[trigger] self@.dom().contains(q) ==> q.len() <= r,
    {
        let mut m: usize = 0;
        let mut i: usize = 0;
        while i < self.entries.len()
            invariant
                i <= self.entries@.len(),
                forall|j: int| 0 <= j < i ==> (#[trigger] self.entries@[j]).0@.len() <= m,
            decreases self.entries@.len() - i,
        {
            let l = self.entries[i].0.len();
            if l > m {
                m = l;
            }
            i = i + 1;
        }
        assert forall|q: Seq<u8>| #[trigger] self@.dom().contains(q) implies q.len() <= m by {
            let j = choose|j: int| 0 <= j < self.entries@.len() && self.entries@[j].0@ == q;
            assert(self.entries@[j].0@.len() <= m);
        }
        m
    }

    /// The entries, in no particular order.
    pub fn entries(&self) -> (r: &Vec<(Nibbles, V)>)
        requires
            self.wf(),
        ensures
            r@.len() == self@.dom().len(),
            forall|i: int| 0 <= i < r@.len() ==> #[trigger] self@.dom().contains(r@[i].0@)
                && self@[r@[i].0@] == r@[i].1@,
    {
        proof { self.lemma_len(); }
        &self.entries
    }
}

impl PathMap<SparseNode> {
    /// A copy of the table.
    pub fn snapshot(&self) -> (r: Self)
        requires
            self.wf(),
        ensures
            r.wf(),
            r@ == self@,
    {
        let mut entries: Vec<(Nibbles, SparseNode)> = Vec::new();
        let mut i: usize = 0;
        while i < self.entries.len()
            invariant
                i <= self.entries@.len(),
                entries@.len() == i,
                forall|j: int| 0 <= j < i ==> (#[trigger] entries@[j]).0@ == self.entries@[j].0@
                    && entries@[j].1@ == self.entries@[j].1@,
            decreases self.entries@.len() - i,
        {
            entries.push((self.entries[i].0.duplicate(), self.entries[i].1.duplicate()));
            i = i + 1;
        }
        let r = PathMap { entries, model: Ghost(self.model@) };
        assert forall|k: Seq<u8>| r.model@.dom().contains(k) implies exists|a: int|
            0 <= a < r.entries@.len() && r.entries@[a].0@ == k by {
            let a = choose|a: int| 0 <= a < self.entries@.len() && self.entries@[a].0@ == k;
            assert(r.entries@[a].0@ == k);
        }
        assert forall|a: int| 0 <= a < r.entries@.len() implies #[trigger] r.model@[r.entries@[a].0@]
            == r.entries@[a].1@ by {
            assert(self.model@[self.entries@[a].0@] == self.entries@[a].1@);
        }
        r
    }
}

} // verus!
