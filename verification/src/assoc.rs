use vstd::prelude::*;

verus! {

/// Keys whose executable equality is equality of values.
pub trait Key: Copy + Sized {
    fn same(&self, other: &Self) -> (r: bool)
        ensures
            r == (*self == *other),
    ;
}

impl Key for usize {
    fn same(&self, other: &Self) -> (r: bool) {
        *self == *other
    }
}

impl Key for crate::symbol::Symbol {
    fn same(&self, other: &Self) -> (r: bool) {
        *self == *other
    }
}

/// Whether no key occurs twice among `s`.
pub open spec fn keys_unique<K, V>(s: Seq<(K, V)>) -> bool {
    forall|i: int, j: int| 0 <= i < j < s.len() ==> #[trigger] s[i].0 != #[trigger] s[j].0
}

/// The map that the entries `s` stand for; a later entry overrides an
/// earlier one with the same key.
pub open spec fn map_of<K, V>(s: Seq<(K, V)>) -> Map<K, V>
    decreases s.len(),
{
    if s.len() == 0 {
        Map::empty()
    } else {
        map_of(s.drop_last()).insert(s.last().0, s.last().1)
    }
}

/// The keys of `map_of(s)` are those of the entries.
pub proof fn lemma_map_of_dom<K, V>(s: Seq<(K, V)>)
    ensures
        forall|k: K| #[trigger] map_of(s).contains_key(k) <==> exists|i: int| 0 <= i < s.len() && s[i].0 == k,
    decreases s.len(),
{
    if s.len() > 0 {
        lemma_map_of_dom(s.drop_last());
        assert forall|k: K| #[trigger] map_of(s).contains_key(k) <==> exists|i: int| 0 <= i < s.len() && s[i].0 == k by {
            if map_of(s.drop_last()).contains_key(k) {
                let i = choose|i: int| 0 <= i < s.drop_last().len() && s.drop_last()[i].0 == k;
                assert(s[i].0 == k);
            }
            if exists|i: int| 0 <= i < s.len() && s[i].0 == k {
                let i = choose|i: int| 0 <= i < s.len() && s[i].0 == k;
                if i < s.len() - 1 {
                    assert(s.drop_last()[i].0 == k);
                }
            }
        }
    }
}

/// With unique keys, `map_of(s)` maps the key of each entry to its value.
pub proof fn lemma_map_of_entry<K, V>(s: Seq<(K, V)>, i: int)
    requires
        keys_unique(s),
        0 <= i < s.len(),
    ensures
        map_of(s).contains_key(s[i].0),
        map_of(s)[s[i].0] == s[i].1,
    decreases s.len(),
{
    if i < s.len() - 1 {
        let p = s.drop_last();
        assert(keys_unique(p));
        lemma_map_of_entry(p, i);
        assert(p[i] == s[i]);
        assert(s[i].0 != s.last().0);
    }
}

/// Replacing the value of the entry at `i` updates the map at its key.
pub proof fn lemma_map_of_update<K, V>(s: Seq<(K, V)>, i: int, v: V)
    requires
        keys_unique(s),
        0 <= i < s.len(),
    ensures
        keys_unique(s.update(i, (s[i].0, v))),
        map_of(s.update(i, (s[i].0, v))) == map_of(s).insert(s[i].0, v),
    decreases s.len(),
{
    let t = s.update(i, (s[i].0, v));
    assert(keys_unique(t)) by {
        assert forall|a: int, b: int| 0 <= a < b < t.len() implies #[trigger] t[a].0 != #[trigger] t[b].0 by {
            assert(t[a].0 == s[a].0);
            assert(t[b].0 == s[b].0);
        }
    }
    if i == s.len() - 1 {
        assert(t.drop_last() =~= s.drop_last());
        assert(map_of(t) =~= map_of(s).insert(s[i].0, v));
    } else {
        let p = s.drop_last();
        assert(keys_unique(p));
        lemma_map_of_update(p, i, v);
        assert(t.drop_last() =~= p.update(i, (p[i].0, v)));
        assert(s.last().0 != s[i].0);
        assert(map_of(t) =~= map_of(s).insert(s[i].0, v));
    }
}

/// The entries `s` with `(k, v)` in place of the entry for `k`, or added at
/// the end when there is none.
pub open spec fn insert_entry<K, V>(s: Seq<(K, V)>, k: K, v: V) -> Seq<(K, V)> {
    if exists|i: int| 0 <= i < s.len() && s[i].0 == k {
        s.update(choose|i: int| 0 <= i < s.len() && s[i].0 == k, (k, v))
    } else {
        s.push((k, v))
    }
}

/// After an insertion the key has an entry with the value, and keys stay
/// distinct.
pub proof fn lemma_insert_entry<K, V>(s: Seq<(K, V)>, k: K, v: V)
    requires
        keys_unique(s),
    ensures
        keys_unique(insert_entry(s, k, v)),
        exists|i: int| 0 <= i < insert_entry(s, k, v).len() && #[trigger] insert_entry(s, k, v)[i] == (k, v),
        insert_entry(s, k, v).len() >= s.len(),
        forall|i: int| 0 <= i < s.len() && s[i].0 != k ==> #[trigger] insert_entry(s, k, v)[i] == s[i],
{
    let t = insert_entry(s, k, v);
    if exists|i: int| 0 <= i < s.len() && s[i].0 == k {
        let i = choose|i: int| 0 <= i < s.len() && s[i].0 == k;
        assert(t[i] == (k, v));
        assert forall|a: int, b: int| 0 <= a < b < t.len() implies #[trigger] t[a].0 != #[trigger] t[b].0 by {
            assert(s[a].0 != s[b].0);
        }
    } else {
        assert(t[s.len() as int] == (k, v));
        assert forall|a: int, b: int| 0 <= a < b < t.len() implies #[trigger] t[a].0 != #[trigger] t[b].0 by {
            if b < s.len() {
                assert(s[a].0 != s[b].0);
            }
        }
    }
}

/// A finite map kept as a list of entries with distinct keys.
pub struct AssocMap<K, V> {
    pub entries: Vec<(K, V)>,
}

impl<K, V> AssocMap<K, V> {
    /// The map this list stands for.
    pub open spec fn view(&self) -> Map<K, V> {
        map_of(self.entries@)
    }

    /// Whether no key occurs twice.
    pub open spec fn wf(&self) -> bool {
        keys_unique(self.entries@)
    }
}

impl<K: Key, V> AssocMap<K, V> {
    /// The empty map.
    pub fn new() -> (m: Self)
        ensures
            m.wf(),
            m.view() == Map::<K, V>::empty(),
            m.entries@.len() == 0,
    {
        AssocMap { entries: Vec::new() }
    }

    /// The position of the entry with key `k`, if any.
    pub fn position(&self, k: &K) -> (r: Option<usize>)
        requires
            self.wf(),
        ensures
            r is None <==> !self.view().contains_key(*k),
            r matches Some(i) ==> i < self.entries@.len() && self.entries@[i as int].0 == *k,
    {
        proof {
            lemma_map_of_dom(self.entries@);
        }
        let mut i: usize = 0;
        while i < self.entries.len()
            invariant
                i <= self.entries.len(),
                forall|j: int| 0 <= j < i ==> self.entries@[j].0 != *k,
            decreases self.entries.len() - i,
        {
            if self.entries[i].0.same(k) {
                proof {
                    lemma_map_of_dom(self.entries@);
                    assert(self.entries@[i as int].0 == *k);
                }
                return Some(i);
            }
            i = i + 1;
        }
        None
    }

    /// The value at key `k`, if any.
    pub fn get(&self, k: &K) -> (r: Option<&V>)
        requires
            self.wf(),
        ensures
            r is None <==> !self.view().contains_key(*k),
            r matches Some(v) ==> *v == self.view()[*k],
    {
        match self.position(k) {
            Some(i) => {
                proof {
                    lemma_map_of_entry(self.entries@, i as int);
                }
                Some(&self.entries[i].1)
            },
            None => None,
        }
    }

    /// Sets the value at key `k`.
    pub fn insert(&mut self, k: K, v: V)
        requires
            old(self).wf(),
        ensures
            final(self).wf(),
            final(self).view() == old(self).view().insert(k, v),
            final(self).entries@ == insert_entry(old(self).entries@, k, v),
            final(self).entries@.len() >= old(self).entries@.len(),
            forall|i: int| 0 <= i < final(self).entries@.len() ==> (#[trigger] final(self).entries@[i] == (k, v)
                || (i < old(self).entries@.len() && final(self).entries@[i] == old(self).entries@[i])),
    {
        match self.position(&k) {
            Some(i) => {
                proof {
                    lemma_map_of_update(self.entries@, i as int, v);
                    let j = choose|j: int| 0 <= j < self.entries@.len() && self.entries@[j].0 == k;
                    assert(j == i as int) by {
                        if j != i as int {
                            if j < i as int {
                                assert(self.entries@[j].0 != self.entries@[i as int].0);
                            } else {
                                assert(self.entries@[i as int].0 != self.entries@[j].0);
                            }
                        }
                    }
                }
                self.entries.set(i, (k, v));
            },
            None => {
                proof {
                    lemma_map_of_dom(self.entries@);
                    let s = self.entries@.push((k, v));
                    assert(s.drop_last() =~= self.entries@);
                    assert(keys_unique(s)) by {
                        assert forall|a: int, b: int| 0 <= a < b < s.len() implies #[trigger] s[a].0 != #[trigger] s[b].0 by {
                            if b == s.len() - 1 {
                                assert(s[a] == self.entries@[a]);
                            } else {
                                assert(s[a] == self.entries@[a]);
                                assert(s[b] == self.entries@[b]);
                            }
                        }
                    }
                }
                self.entries.push((k, v));
            },
        }
    }

    /// Whether no key occurs twice.
    pub fn keys_distinct(&self) -> (r: bool)
        ensures
            r == self.wf(),
    {
        let n = self.entries.len();
        let mut i: usize = 0;
        while i < n
            invariant
                i <= n,
                n == self.entries@.len(),
                forall|a: int, b: int| 0 <= a < i && a < b < n ==> #[trigger] self.entries@[a].0 != #[trigger] self.entries@[b].0,
            decreases n - i,
        {
            let mut j: usize = i + 1;
            while j < n
                invariant
                    i < n,
                    i + 1 <= j <= n,
                    n == self.entries@.len(),
                    forall|b: int| i < b < j ==> self.entries@[i as int].0 != #[trigger] self.entries@[b].0,
                decreases n - j,
            {
                if self.entries[i].0.same(&self.entries[j].0) {
                    return false;
                }
                j = j + 1;
            }
            i = i + 1;
        }
        true
    }
}

} // verus!
