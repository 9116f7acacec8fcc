use vstd::prelude::*;

verus! {

/// The keys of `s` increase strictly.
pub open spec fn strictly_sorted<V>(s: Seq<(usize, V)>) -> bool {
    forall|i: int, j: int| 0 <= i < j < s.len() ==> s[i].0 < s[j].0
}

/// The map that a strictly sorted sequence of entries stands for.
pub open spec fn entries_map<V>(s: Seq<(usize, V)>) -> Map<usize, V> {
    Map::new(
        |k: usize| exists|i: int| 0 <= i < s.len() && s[i].0 == k,
        |k: usize| s[choose|i: int| 0 <= i < s.len() && s[i].0 == k].1,
    )
}

/// In a strictly sorted sequence the entry at `i` is what the map holds
/// for its key.
pub proof fn lemma_entry_in_map<V>(s: Seq<(usize, V)>, i: int)
    requires
        strictly_sorted(s),
        0 <= i < s.len(),
    ensures
        entries_map(s).contains_key(s[i].0),
        entries_map(s)[s[i].0] == s[i].1,
{
    let k = s[i].0;
    assert(exists|j: int| 0 <= j < s.len() && s[j].0 == k);
    let j = choose|j: int| 0 <= j < s.len() && s[j].0 == k;
    if j < i {
        assert(s[j].0 < s[i].0);
    } else if i < j {
        assert(s[i].0 < s[j].0);
    }
}

/// A map from row (or column) numbers to values, kept as entries in
/// increasing order of their keys.
pub struct RowMap<V> {
    entries: Vec<(usize, V)>,
}

impl<V> RowMap<V> {
    /// The entries, in increasing order of their keys.
    pub closed spec fn seq(&self) -> Seq<(usize, V)> {
        self.entries@
    }

    pub open spec fn wf(&self) -> bool {
        strictly_sorted(self.seq())
    }

    pub open spec fn view(&self) -> Map<usize, V> {
        entries_map(self.seq())
    }

    pub fn new() -> (r: Self)
        ensures
            r.wf(),
            r.seq().len() == 0,
            r@ == Map::<usize, V>::empty(),
    {
        let r = RowMap { entries: Vec::new() };
        assert(r@ =~= Map::<usize, V>::empty());
        r
    }

    pub fn len(&self) -> (r: usize)
        ensures
            r == self.seq().len(),
    {
        self.entries.len()
    }

    pub fn is_empty(&self) -> (r: bool)
        ensures
            r == (self.seq().len() == 0),
    {
        self.entries.len() == 0
    }

    /// The entry at position `i` in key order.
    pub fn entry(&self, i: usize) -> (r: (usize, &V))
        requires
            i < self.seq().len(),
        ensures
            r.0 == self.seq()[i as int].0,
            *r.1 == self.seq()[i as int].1,
    {
        let e = &self.entries[i];
        (e.0, &e.1)
    }

    /// Where `k` stands among the entries: `Ok(i)` if the entry at `i` has
    /// that key, else `Err(i)`, the position where it would be inserted.
    fn position(&self, k: usize) -> (r: Result<usize, usize>)
        requires
            self.wf(),
        ensures
            match r {
                Ok(i) => i < self.seq().len() && self.seq()[i as int].0 == k,
                Err(i) => i <= self.seq().len()
                    && (forall|j: int| 0 <= j < i ==> self.seq()[j].0 < k)
                    && (forall|j: int| i <= j < self.seq().len() ==> self.seq()[j].0 > k),
            },
    {
        let mut i: usize = self.entries.len();
        while i > 0
            invariant
                i <= self.seq().len(),
                self.seq() == self.entries@,
                self.wf(),
                forall|j: int| i <= j < self.seq().len() ==> self.seq()[j].0 > k,
            decreases i,
        {
            let key = self.entries[i - 1].0;
            if key == k {
                return Ok(i - 1);
            } else if key < k {
                return Err(i);
            }
            i = i - 1;
        }
        Err(0)
    }

    /// The value at key `k`, if there is one.
    pub fn get(&self, k: usize) -> (r: Option<&V>)
        requires
            self.wf(),
        ensures
            match r {
                Some(v) => self@.contains_key(k) && *v == self@[k],
                None => !self@.contains_key(k),
            },
    {
        match self.position(k) {
            Ok(i) => {
                proof {
                    lemma_entry_in_map(self.seq(), i as int);
                }
                Some(&self.entries[i].1)
            },
            Err(i) => {
                proof {
                    if self@.contains_key(k) {
                        let j = choose|j: int| 0 <= j < self.seq().len() && self.seq()[j].0 == k;
                        assert(self.seq()[j].0 == k);
                    }
                }
                None
            },
        }
    }

    pub fn contains_key(&self, k: usize) -> (r: bool)
        requires
            self.wf(),
        ensures
            r == self@.contains_key(k),
    {
        self.get(k).is_some()
    }

    /// Sets the value at key `k`, replacing any value there.
    pub fn insert(&mut self, k: usize, v: V)
        requires
            old(self).wf(),
        ensures
            final(self).wf(),
            final(self)@ == old(self)@.insert(k, v),
    {
        let ghost s0 = self.seq();
        match self.position(k) {
            Ok(i) => {
                self.entries.set(i, (k, v));
                let ghost s1 = self.seq();
                proof {
                    assert(s1 == s0.update(i as int, (k, v)));
                    assert(strictly_sorted(s1)) by {
                        assert forall|a: int, b: int| 0 <= a < b < s1.len() implies s1[a].0 < s1[b].0 by {
                            assert(s0[a].0 < s0[b].0);
                        }
                    }
                    lemma_update_map(s0, i as int, k, v);
                }
            },
            Err(i) => {
                self.entries.insert(i, (k, v));
                let ghost s1 = self.seq();
                proof {
                    assert(s1 == s0.insert(i as int, (k, v)));
                    lemma_insert_map(s0, i as int, k, v);
                }
            },
        }
    }

    /// Removes the entry at key `k` and returns its value.
    pub fn take(&mut self, k: usize) -> (r: Option<V>)
        requires
            old(self).wf(),
        ensures
            final(self).wf(),
            final(self)@ == old(self)@.remove(k),
            match r {
                Some(v) => old(self)@.contains_key(k) && v == old(self)@[k],
                None => !old(self)@.contains_key(k),
            },
    {
        let ghost s0 = self.seq();
        match self.position(k) {
            Ok(i) => {
                proof {
                    lemma_entry_in_map(s0, i as int);
                }
                let e = self.entries.remove(i);
                proof {
                    lemma_remove_map(s0, i as int);
                }
                Some(e.1)
            },
            Err(i) => {
                proof {
                    if self@.contains_key(k) {
                        let j = choose|j: int| 0 <= j < s0.len() && s0[j].0 == k;
                        assert(s0[j].0 == k);
                    }
                    assert(self@ =~= self@.remove(k));
                }
                None
            },
        }
    }
}

proof fn lemma_update_map<V>(s0: Seq<(usize, V)>, i: int, k: usize, v: V)
    requires
        strictly_sorted(s0),
        0 <= i < s0.len(),
        s0[i].0 == k,
        strictly_sorted(s0.update(i, (k, v))),
    ensures
        entries_map(s0.update(i, (k, v))) == entries_map(s0).insert(k, v),
{
    let s1 = s0.update(i, (k, v));
    let m0 = entries_map(s0);
    let m1 = entries_map(s1);
    assert forall|key: usize| #[trigger] m1.contains_key(key) <==> m0.insert(k, v).contains_key(key) by {
        if m1.contains_key(key) {
            let j = choose|j: int| 0 <= j < s1.len() && s1[j].0 == key;
            lemma_entry_in_map(s0, j);
        }
        if m0.contains_key(key) {
            let j = choose|j: int| 0 <= j < s0.len() && s0[j].0 == key;
            lemma_entry_in_map(s1, j);
        }
        if key == k {
            lemma_entry_in_map(s1, i);
        }
    }
    assert forall|key: usize| #[trigger] m1.contains_key(key) implies m1[key] == m0.insert(k, v)[key] by {
        let j = choose|j: int| 0 <= j < s1.len() && s1[j].0 == key;
        lemma_entry_in_map(s1, j);
        lemma_entry_in_map(s0, j);
    }
    assert(m1 =~= m0.insert(k, v));
}

proof fn lemma_insert_map<V>(s0: Seq<(usize, V)>, i: int, k: usize, v: V)
    requires
        strictly_sorted(s0),
        0 <= i <= s0.len(),
        forall|j: int| 0 <= j < i ==> s0[j].0 < k,
        forall|j: int| i <= j < s0.len() ==> s0[j].0 > k,
    ensures
        strictly_sorted(s0.insert(i, (k, v))),
        entries_map(s0.insert(i, (k, v))) == entries_map(s0).insert(k, v),
{
    let s1 = s0.insert(i, (k, v));
    assert forall|a: int, b: int| 0 <= a < b < s1.len() implies s1[a].0 < s1[b].0 by {
        if b < i {
        } else if b == i {
        } else if a < i {
            assert(s1[b] == s0[b - 1]);
        } else if a == i {
            assert(s1[b] == s0[b - 1]);
        } else {
            assert(s1[a] == s0[a - 1]);
            assert(s1[b] == s0[b - 1]);
        }
    }
    let m0 = entries_map(s0);
    let m1 = entries_map(s1);
    assert forall|key: usize| #[trigger] m1.contains_key(key) <==> m0.insert(k, v).contains_key(key) by {
        if m1.contains_key(key) && key != k {
            let j = choose|j: int| 0 <= j < s1.len() && s1[j].0 == key;
            if j < i {
                lemma_entry_in_map(s0, j);
            } else {
                assert(s1[j] == s0[j - 1]);
                lemma_entry_in_map(s0, j - 1);
            }
        }
        if m0.contains_key(key) {
            let j = choose|j: int| 0 <= j < s0.len() && s0[j].0 == key;
            if j < i {
                lemma_entry_in_map(s1, j);
            } else {
                assert(s1[j + 1] == s0[j]);
                lemma_entry_in_map(s1, j + 1);
            }
        }
        if key == k {
            lemma_entry_in_map(s1, i);
        }
    }
    assert forall|key: usize| #[trigger] m1.contains_key(key) implies m1[key] == m0.insert(k, v)[key] by {
        let j = choose|j: int| 0 <= j < s1.len() && s1[j].0 == key;
        lemma_entry_in_map(s1, j);
        if j < i {
            lemma_entry_in_map(s0, j);
        } else if j > i {
            assert(s1[j] == s0[j - 1]);
            lemma_entry_in_map(s0, j - 1);
        }
    }
    assert(m1 =~= m0.insert(k, v));
}

proof fn lemma_remove_map<V>(s0: Seq<(usize, V)>, i: int)
    requires
        strictly_sorted(s0),
        0 <= i < s0.len(),
    ensures
        strictly_sorted(s0.remove(i)),
        entries_map(s0.remove(i)) == entries_map(s0).remove(s0[i].0),
{
    let s1 = s0.remove(i);
    let k = s0[i].0;
    assert forall|a: int, b: int| 0 <= a < b < s1.len() implies s1[a].0 < s1[b].0 by {
        if b < i {
        } else if a < i {
            assert(s1[b] == s0[b + 1]);
        } else {
            assert(s1[a] == s0[a + 1]);
            assert(s1[b] == s0[b + 1]);
        }
    }
    let m0 = entries_map(s0);
    let m1 = entries_map(s1);
    assert forall|key: usize| #[trigger] m1.contains_key(key) <==> m0.remove(k).contains_key(key) by {
        if m1.contains_key(key) {
            let j = choose|j: int| 0 <= j < s1.len() && s1[j].0 == key;
            if j < i {
                lemma_entry_in_map(s0, j);
                assert(s0[j].0 < s0[i].0);
            } else {
                assert(s1[j] == s0[j + 1]);
                lemma_entry_in_map(s0, j + 1);
                assert(s0[i].0 < s0[j + 1].0);
            }
        }
        if m0.contains_key(key) && key != k {
            let j = choose|j: int| 0 <= j < s0.len() && s0[j].0 == key;
            if j < i {
                lemma_entry_in_map(s1, j);
            } else {
                assert(j != i);
                assert(s1[j - 1] == s0[j]);
                lemma_entry_in_map(s1, j - 1);
            }
        }
    }
    assert forall|key: usize| #[trigger] m1.contains_key(key) implies m1[key] == m0.remove(k)[key] by {
        let j = choose|j: int| 0 <= j < s1.len() && s1[j].0 == key;
        lemma_entry_in_map(s1, j);
        if j < i {
            lemma_entry_in_map(s0, j);
        } else {
            assert(s1[j] == s0[j + 1]);
            lemma_entry_in_map(s0, j + 1);
        }
    }
    assert(m1 =~= m0.remove(k));
}

} // verus!
