use vstd::prelude::*;

verus! {

/// The contents of an association list as a finite map: later pairs win.
pub open spec fn map_of<T>(s: Seq<(u64, T)>) -> Map<u64, T>
    decreases s.len(),
{
    if s.len() == 0 {
        Map::empty()
    } else {
        map_of(s.drop_last()).insert(s.last().0, s.last().1)
    }
}

/// A key of the list is in the domain of its map, and conversely.
pub proof fn lemma_map_of_dom<T>(s: Seq<(u64, T)>, k: u64)
    ensures
        map_of(s).dom().contains(k) <==> exists|i: int| 0 <= i < s.len() && s[i].0 == k,
    decreases s.len(),
{
    if s.len() > 0 {
        lemma_map_of_dom(s.drop_last(), k);
        if map_of(s).dom().contains(k) {
            if s.last().0 != k {
                let i = choose|i: int| 0 <= i < s.drop_last().len() && s.drop_last()[i].0 == k;
                assert(s[i].0 == k);
            } else {
                assert(s[s.len() - 1].0 == k);
            }
        }
        if exists|i: int| 0 <= i < s.len() && s[i].0 == k {
            let i = choose|i: int| 0 <= i < s.len() && s[i].0 == k;
            if i < s.len() - 1 {
                assert(s.drop_last()[i].0 == k);
            }
        }
    }
}

/// With pairwise distinct keys, the map sends each listed key to the
/// value paired with it.
pub proof fn lemma_map_of_index<T>(s: Seq<(u64, T)>, i: int)
    requires
        0 <= i < s.len(),
        forall|a: int, b: int| 0 <= a < b < s.len() ==> s[a].0 != s[b].0,
    ensures
        map_of(s).dom().contains(s[i].0),
        map_of(s)[s[i].0] == s[i].1,
    decreases s.len(),
{
    if i == s.len() - 1 {
    } else {
        assert(s.drop_last()[i] == s[i]);
        lemma_map_of_index(s.drop_last(), i);
        assert(s[s.len() - 1].0 != s[i].0);
    }
}

/// Replacing the value stored at one listed key updates the map at that
/// key and nowhere else.
pub proof fn lemma_map_of_update<T>(s: Seq<(u64, T)>, i: int, v: T)
    requires
        0 <= i < s.len(),
        forall|a: int, b: int| 0 <= a < b < s.len() ==> s[a].0 != s[b].0,
    ensures
        map_of(s.update(i, (s[i].0, v))) =~= map_of(s).insert(s[i].0, v),
    decreases s.len(),
{
    let t = s.update(i, (s[i].0, v));
    if i == s.len() - 1 {
        assert(t.drop_last() =~= s.drop_last());
        assert(t.last() == (s[i].0, v));
    } else {
        assert(t.drop_last() =~= s.drop_last().update(i, (s[i].0, v)));
        assert(s.drop_last()[i] == s[i]);
        lemma_map_of_update(s.drop_last(), i, v);
        assert(t.last() == s.last());
        assert(s.last().0 != s[i].0);
        assert(map_of(s.drop_last()).insert(s[i].0, v).insert(s.last().0, s.last().1)
            =~= map_of(s.drop_last()).insert(s.last().0, s.last().1).insert(s[i].0, v));
    }
}

/// Appending a pair with a fresh key extends the map at that key.
pub proof fn lemma_map_of_push<T>(s: Seq<(u64, T)>, k: u64, v: T)
    ensures
        map_of(s.push((k, v))) =~= map_of(s).insert(k, v),
{
    assert(s.push((k, v)).drop_last() =~= s);
    assert(s.push((k, v)).last() == (k, v));
}

/// A small key-value table backed by a vector of pairs whose keys are
/// pairwise distinct; fresh keys keep their insertion order.
pub struct Table<T> {
    pairs: Vec<(u64, T)>,
}

impl<T> View for Table<T> {
    type V = Map<u64, T>;

    closed spec fn view(&self) -> Map<u64, T> {
        map_of(self.pairs@)
    }
}

impl<T> Table<T> {
    /// The keys of the table, in insertion order.
    pub closed spec fn key_seq(&self) -> Seq<u64> {
        self.pairs@.map_values(|p: (u64, T)| p.0)
    }

    /// The table's keys are pairwise distinct.
    pub closed spec fn wf(&self) -> bool {
        forall|a: int, b: int|
            0 <= a < b < self.pairs@.len() ==> self.pairs@[a].0 != self.pairs@[b].0
    }

    /// An empty table.
    pub fn new() -> (r: Table<T>)
        ensures
            r.wf(),
            r@ == Map::<u64, T>::empty(),
            r.key_seq() == Seq::<u64>::empty(),
    {
        let r = Table { pairs: Vec::new() };
        proof {
            assert(r.key_seq() =~= Seq::<u64>::empty());
        }
        r
    }

    /// How many keys the table holds.
    pub fn len(&self) -> (r: usize)
        ensures
            r == self.key_seq().len(),
    {
        self.pairs.len()
    }

    /// The key at one position of the insertion order.
    pub fn key_at(&self, i: usize) -> (r: u64)
        requires
            self.wf(),
            i < self.key_seq().len(),
        ensures
            r == self.key_seq()[i as int],
            self@.dom().contains(r),
    {
        proof {
            lemma_map_of_index(self.pairs@, i as int);
        }
        self.pairs[i].0
    }

    /// The value at one position of the insertion order.
    pub fn val_at(&self, i: usize) -> (r: &T)
        requires
            self.wf(),
            i < self.key_seq().len(),
        ensures
            self@.dom().contains(self.key_seq()[i as int]),
            *r == self@[self.key_seq()[i as int]],
    {
        proof {
            lemma_map_of_index(self.pairs@, i as int);
        }
        &self.pairs[i].1
    }

    /// Looks a key up.
    #[verifier::loop_isolation(false)]
    pub fn get(&self, k: u64) -> (r: Option<&T>)
        requires
            self.wf(),
        ensures
            match r {
                Some(v) => self@.dom().contains(k) && *v == self@[k],
                None => !self@.dom().contains(k),
            },
    {
        let mut i: usize = 0;
        while i < self.pairs.len()
            invariant
                self.wf(),
                i <= self.pairs@.len(),
                forall|j: int| 0 <= j < i ==> self.pairs@[j].0 != k,
                forall|a: int, b: int|
                    0 <= a < b < self.pairs@.len() ==> self.pairs@[a].0 != self.pairs@[b].0,
            decreases self.pairs@.len() - i,
        {
            if self.pairs[i].0 == k {
                proof {
                    lemma_map_of_index(self.pairs@, i as int);
                }
                return Some(&self.pairs[i].1);
            }
            i = i + 1;
        }
        proof {
            lemma_map_of_dom(self.pairs@, k);
        }
        None
    }

    /// Binds a key to a value, replacing any previous binding.
    #[verifier::loop_isolation(false)]
    pub fn insert(&mut self, k: u64, v: T)
        requires
            old(self).wf(),
        ensures
            final(self).wf(),
            final(self)@ == old(self)@.insert(k, v),
            final(self).key_seq() == if old(self)@.dom().contains(k) {
                old(self).key_seq()
            } else {
                old(self).key_seq().push(k)
            },
    {
        let ghost orig = self.pairs@;
        let mut i: usize = 0;
        while i < self.pairs.len()
            invariant
                self.pairs@ == orig,
                i <= orig.len(),
                forall|j: int| 0 <= j < i ==> orig[j].0 != k,
                forall|a: int, b: int| 0 <= a < b < orig.len() ==> orig[a].0 != orig[b].0,
            decreases orig.len() - i,
        {
            if self.pairs[i].0 == k {
                self.pairs.set(i, (k, v));
                proof {
                    assert(self.pairs@ =~= orig.update(i as int, (orig[i as int].0, v)));
                    lemma_map_of_update(orig, i as int, v);
                    lemma_map_of_index(orig, i as int);
                    lemma_map_of_dom(orig, k);
                    assert(self@ =~= old(self)@.insert(k, v));
                    assert(self.key_seq() =~= old(self).key_seq());
                    assert(forall|a: int|
                        0 <= a < self.pairs@.len() ==> self.pairs@[a].0 == orig[a].0);
                }
                return ;
            }
            i = i + 1;
        }
        self.pairs.push((k, v));
        proof {
            assert(self.pairs@ =~= orig.push((k, v)));
            lemma_map_of_push(orig, k, v);
            lemma_map_of_dom(orig, k);
            assert(self@ =~= old(self)@.insert(k, v));
            assert(self.key_seq() =~= old(self).key_seq().push(k));
        }
    }

    /// Swaps in a new value at one position of the insertion order and
    /// hands the old value back.
    pub fn replace(&mut self, i: usize, v: T) -> (r: T)
        requires
            old(self).wf(),
            i < old(self).key_seq().len(),
        ensures
            final(self).wf(),
            r == old(self)@[old(self).key_seq()[i as int]],
            final(self)@ == old(self)@.insert(old(self).key_seq()[i as int], v),
            final(self).key_seq() == old(self).key_seq(),
    {
        proof {
            lemma_map_of_index(self.pairs@, i as int);
            lemma_map_of_update(self.pairs@, i as int, v);
        }
        let ghost orig = self.pairs@;
        let k = self.pairs[i].0;
        let pair = self.pairs.remove(i);
        self.pairs.insert(i, (k, v));
        proof {
            assert(self.pairs@ =~= orig.update(i as int, (orig[i as int].0, v)));
            assert(self@ =~= old(self)@.insert(old(self).key_seq()[i as int], v));
            assert(self.key_seq() =~= old(self).key_seq());
            assert(forall|a: int|
                0 <= a < self.pairs@.len() ==> self.pairs@[a].0 == orig[a].0);
        }
        pair.1
    }

    /// A key is bound exactly when it is listed.
    pub proof fn lemma_dom_iff_key(&self)
        requires
            self.wf(),
        ensures
            forall|k: u64| self@.dom().contains(k) <==> self.key_seq().contains(k),
    {
        assert forall|k: u64| self@.dom().contains(k) <==> self.key_seq().contains(k) by {
            lemma_map_of_dom(self.pairs@, k);
            if exists|i: int| 0 <= i < self.pairs@.len() && self.pairs@[i].0 == k {
                let i = choose|i: int| 0 <= i < self.pairs@.len() && self.pairs@[i].0 == k;
                assert(self.key_seq()[i] == k);
            }
            if self.key_seq().contains(k) {
                let i = choose|i: int| 0 <= i < self.key_seq().len() && self.key_seq()[i] == k;
                assert(self.pairs@[i].0 == k);
            }
        }
    }

    /// The listed keys are pairwise distinct.
    pub proof fn lemma_keys_distinct(&self)
        requires
            self.wf(),
        ensures
            forall|a: int, b: int|
                0 <= a < b < self.key_seq().len() ==> self.key_seq()[a] != self.key_seq()[b],
    {
    }

    /// Drops every binding.
    pub fn clear(&mut self)
        ensures
            final(self).wf(),
            final(self)@ == Map::<u64, T>::empty(),
            final(self).key_seq() == Seq::<u64>::empty(),
    {
        self.pairs = Vec::new();
        proof {
            assert(self.key_seq() =~= Seq::<u64>::empty());
        }
    }
}

} // verus!
