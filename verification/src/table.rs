//! Id-keyed tables: the arena-style in-memory stores behind every cache in
//! this crate. A table maps small numeric ids to owned values and is viewed
//! in contracts as a mathematical `Map<u64, V>`.

use vstd::prelude::*;

verus! {

broadcast use vstd::seq_lib::lemma_seq_contains_after_push;

/// The map denoted by an association list; a later entry for the same key
/// overrides an earlier one.
pub open spec fn map_of_seq<V>(s: Seq<(u64, V)>) -> Map<u64, V>
    decreases s.len(),
{
    if s.len() == 0 {
        Map::empty()
    } else {
        map_of_seq(s.drop_last()).insert(s.last().0, s.last().1)
    }
}

/// No key occurs twice.
pub open spec fn distinct_keys<V>(s: Seq<(u64, V)>) -> bool {
    forall|i: int, j: int| 0 <= i < j < s.len() ==> (#[trigger] s[i]).0 != (#[trigger] s[j]).0
}

/// The domain of the denoted map is exactly the set of keys in the list.
pub proof fn lemma_map_of_seq_dom<V>(s: Seq<(u64, V)>)
    ensures
        forall|k: u64|
            map_of_seq(s).dom().contains(k) <==> exists|i: int|
                0 <= i < s.len() && (#[trigger] s[i]).0 == k,
    decreases s.len(),
{
    if s.len() > 0 {
        lemma_map_of_seq_dom(s.drop_last());
        assert forall|k: u64| map_of_seq(s).dom().contains(k) implies exists|i: int|
            0 <= i < s.len() && (#[trigger] s[i]).0 == k by {
            if k == s.last().0 {
                assert((s[s.len() - 1]).0 == k);
            } else {
                assert(map_of_seq(s.drop_last()).dom().contains(k));
                let i = choose|i: int| 0 <= i < s.drop_last().len() && (#[trigger] s.drop_last()[i]).0 == k;
                assert(s.drop_last()[i] == s[i]);
                assert((s[i]).0 == k);
            }
        }
        assert forall|k: u64|
            (exists|i: int| 0 <= i < s.len() && (#[trigger] s[i]).0 == k) implies map_of_seq(
            s,
        ).dom().contains(k) by {
            let i = choose|i: int| 0 <= i < s.len() && (#[trigger] s[i]).0 == k;
            if i < s.len() - 1 {
                assert(s.drop_last()[i] == s[i]);
                assert((s.drop_last()[i]).0 == k);
                assert(map_of_seq(s.drop_last()).dom().contains(k));
            } else {
                assert(k == s.last().0);
            }
        }
    }
}

/// With distinct keys, the entry at any index gives the map's value there.
pub proof fn lemma_map_of_seq_get<V>(s: Seq<(u64, V)>, i: int)
    requires
        distinct_keys(s),
        0 <= i < s.len(),
    ensures
        map_of_seq(s).dom().contains(s[i].0),
        map_of_seq(s)[s[i].0] == s[i].1,
    decreases s.len(),
{
    if i == s.len() - 1 {
    } else {
        assert(s.drop_last()[i] == s[i]);
        lemma_map_of_seq_get(s.drop_last(), i);
        assert(s[i].0 != s.last().0);
    }
}

/// Removing the entry at an index removes exactly its key from the map.
pub proof fn lemma_map_of_seq_remove<V>(s: Seq<(u64, V)>, i: int)
    requires
        distinct_keys(s),
        0 <= i < s.len(),
    ensures
        map_of_seq(s.remove(i)) == map_of_seq(s).remove(s[i].0),
    decreases s.len(),
{
    lemma_map_of_seq_dom(s.drop_last());
    if i == s.len() - 1 {
        assert(s.remove(i) =~= s.drop_last());
        assert(!map_of_seq(s.drop_last()).dom().contains(s[i].0));
        assert(map_of_seq(s.drop_last()) =~= map_of_seq(s).remove(s[i].0));
    } else {
        assert(s.remove(i).drop_last() =~= s.drop_last().remove(i));
        assert(s.remove(i).last() == s.last());
        assert(forall|a: int, b: int|
            0 <= a < b < s.drop_last().len() ==> (#[trigger] s.drop_last()[a]).0 != (
            #[trigger] s.drop_last()[b]).0);
        lemma_map_of_seq_remove(s.drop_last(), i);
        assert(s.drop_last()[i] == s[i]);
        assert(map_of_seq(s.remove(i)) == map_of_seq(s.drop_last().remove(i)).insert(
            s.last().0,
            s.last().1,
        ));
        assert(s[i].0 != s.last().0);
        assert(map_of_seq(s.drop_last()).remove(s[i].0).insert(s.last().0, s.last().1)
            =~= map_of_seq(s.drop_last()).insert(s.last().0, s.last().1).remove(s[i].0));
    }
}

/// Two association lists with distinct keys and the same entries denote the
/// same map, whatever their order.
pub proof fn lemma_map_of_seq_ext<V>(s1: Seq<(u64, V)>, s2: Seq<(u64, V)>)
    requires
        distinct_keys(s1),
        distinct_keys(s2),
        forall|p: (u64, V)| s1.contains(p) <==> s2.contains(p),
    ensures
        map_of_seq(s1) == map_of_seq(s2),
{
    lemma_map_of_seq_dom(s1);
    lemma_map_of_seq_dom(s2);
    assert forall|k: u64|
        #[trigger] map_of_seq(s1).dom().contains(k) == map_of_seq(s2).dom().contains(k) by {
        if map_of_seq(s1).dom().contains(k) {
            let i = choose|i: int| 0 <= i < s1.len() && (#[trigger] s1[i]).0 == k;
            assert(s1.contains(s1[i]));
            let j = choose|j: int| 0 <= j < s2.len() && s2[j] == s1[i];
            assert((s2[j]).0 == k);
        }
        if map_of_seq(s2).dom().contains(k) {
            let i = choose|i: int| 0 <= i < s2.len() && (#[trigger] s2[i]).0 == k;
            assert(s2.contains(s2[i]));
            let j = choose|j: int| 0 <= j < s1.len() && s1[j] == s2[i];
            assert((s1[j]).0 == k);
        }
    }
    assert(map_of_seq(s1).dom() =~= map_of_seq(s2).dom());
    assert forall|k: u64|
        #[trigger] map_of_seq(s1).dom().contains(k) implies map_of_seq(s1)[k] == map_of_seq(
        s2,
    )[k] by {
        let i = choose|i: int| 0 <= i < s1.len() && (#[trigger] s1[i]).0 == k;
        lemma_map_of_seq_get(s1, i);
        assert(s1.contains(s1[i]));
        let j = choose|j: int| 0 <= j < s2.len() && s2[j] == s1[i];
        assert((s2[j]).0 == k);
        lemma_map_of_seq_get(s2, j);
    }
    assert(map_of_seq(s1) =~= map_of_seq(s2));
}

/// An id-keyed table of owned values: the in-memory cache shape used for
/// every resource kind. Keys are unique.
pub struct Table<V> {
    entries: Vec<(u64, V)>,
}

impl<V> Table<V> {
    /// The table's entries in insertion order.
    pub closed spec fn seq_view(self) -> Seq<(u64, V)> {
        self.entries@
    }

    /// The table as a map from id to value.
    pub open spec fn as_map(self) -> Map<u64, V> {
        map_of_seq(self.seq_view())
    }

    /// Abbreviation for key membership.
    pub open spec fn spec_contains(self, k: u64) -> bool {
        self.as_map().dom().contains(k)
    }

    #[verifier::type_invariant]
    spec fn inv(self) -> bool {
        distinct_keys(self.entries@)
    }

    pub fn new() -> (r: Table<V>)
        ensures
            r.as_map() == Map::<u64, V>::empty(),
            r.seq_view() == Seq::<(u64, V)>::empty(),
    {
        Table { entries: Vec::new() }
    }

    pub fn len(&self) -> (r: usize)
        ensures
            r == self.seq_view().len(),
    {
        self.entries.len()
    }

    /// Makes the key-distinctness of the entry list available to callers
    /// that walk the table.
    pub fn note_keys_distinct(&self)
        ensures
            distinct_keys(self.seq_view()),
    {
        proof {
            use_type_invariant(self);
        }
    }

    pub fn is_empty(&self) -> (r: bool)
        ensures
            r == (self.seq_view().len() == 0),
    {
        self.entries.len() == 0
    }

    /// Index of the entry with key `k`, if present.
    fn find(&self, k: u64) -> (r: Option<usize>)
        ensures
            match r {
                Some(i) => i < self.seq_view().len() && self.seq_view()[i as int].0 == k,
                None => !self.spec_contains(k),
            },
    {
        proof {
            use_type_invariant(self);
            lemma_map_of_seq_dom(self.entries@);
        }
        let n = self.entries.len();
        let mut i: usize = 0;
        while i < n
            invariant
                n == self.entries@.len(),
                i <= n,
                forall|j: int| 0 <= j < i ==> (#[trigger] self.entries@[j]).0 != k,
            decreases n - i,
        {
            if self.entries[i].0 == k {
                return Some(i);
            }
            i = i + 1;
        }
        None
    }

    pub fn contains_key(&self, k: u64) -> (r: bool)
        ensures
            r == self.spec_contains(k),
    {
        proof {
            use_type_invariant(self);
            lemma_map_of_seq_dom(self.entries@);
        }
        match self.find(k) {
            Some(i) => {
                proof {
                    use_type_invariant(self);
                    lemma_map_of_seq_get(self.entries@, i as int);
                }
                true
            },
            None => false,
        }
    }

    pub fn get(&self, k: u64) -> (r: Option<&V>)
        ensures
            match r {
                Some(v) => self.spec_contains(k) && self.as_map()[k] == *v,
                None => !self.spec_contains(k),
            },
    {
        match self.find(k) {
            Some(i) => {
                proof {
                    use_type_invariant(self);
                    lemma_map_of_seq_get(self.entries@, i as int);
                }
                Some(&self.entries[i].1)
            },
            None => None,
        }
    }

    /// Bind `k` to `v`, replacing any previous binding.
    pub fn insert(&mut self, k: u64, v: V)
        ensures
            final(self).as_map() == old(self).as_map().insert(k, v),
            final(self).spec_contains(k),
    {
        proof {
            use_type_invariant(&*self);
        }
        let found = self.find(k);
        let mut es: Vec<(u64, V)> = Vec::new();
        core::mem::swap(&mut self.entries, &mut es);
        let ghost pre = es@;
        match found {
            Some(i) => {
                proof {
                    lemma_map_of_seq_remove(pre, i as int);
                    lemma_map_of_seq_dom(pre.remove(i as int));
                }
                es.remove(i);
                es.push((k, v));
                proof {
                    assert(es@.drop_last() =~= pre.remove(i as int));
                    assert(forall|j: int|
                        0 <= j < pre.remove(i as int).len() ==> (#[trigger] pre.remove(i as int)[j]).0
                            != k);
                    assert(es@.last() == (k, v));
                    assert(map_of_seq(es@) == map_of_seq(pre.remove(i as int)).insert(k, v));
                    assert(map_of_seq(pre).remove(k).insert(k, v) =~= map_of_seq(pre).insert(k, v));
                    assert(distinct_keys(es@));
                }
            },
            None => {
                proof {
                    lemma_map_of_seq_dom(pre);
                }
                es.push((k, v));
                proof {
                    assert(es@.drop_last() =~= pre);
                    assert(es@.last() == (k, v));
                    assert(forall|j: int| 0 <= j < pre.len() ==> (#[trigger] pre[j]).0 != k);
                    assert(distinct_keys(es@));
                }
            },
        }
        core::mem::swap(&mut self.entries, &mut es);
        proof {
            lemma_map_of_seq_dom(self.entries@);
        }
    }

    /// Unbind `k`, returning its value if it was bound.
    pub fn remove(&mut self, k: u64) -> (r: Option<V>)
        ensures
            final(self).as_map() == old(self).as_map().remove(k),
            match r {
                Some(v) => old(self).spec_contains(k) && old(self).as_map()[k] == v,
                None => !old(self).spec_contains(k) && *final(self) == *old(self),
            },
    {
        proof {
            use_type_invariant(&*self);
        }
        let found = self.find(k);
        let ghost pre = self.entries@;
        match found {
            Some(i) => {
                proof {
                    lemma_map_of_seq_get(pre, i as int);
                    lemma_map_of_seq_remove(pre, i as int);
                }
                let mut es: Vec<(u64, V)> = Vec::new();
                core::mem::swap(&mut self.entries, &mut es);
                let (_, v) = es.remove(i);
                core::mem::swap(&mut self.entries, &mut es);
                proof {
                    assert(distinct_keys(self.entries@));
                }
                Some(v)
            },
            None => {
                proof {
                    lemma_map_of_seq_dom(pre);
                    assert(map_of_seq(pre).remove(k) =~= map_of_seq(pre));
                }
                None
            },
        }
    }

    /// All bound ids, in entry order.
    pub fn keys_vec(&self) -> (r: Vec<u64>)
        ensures
            r@.len() == self.seq_view().len(),
            forall|i: int| 0 <= i < r@.len() ==> r@[i] == (#[trigger] self.seq_view()[i]).0,
            forall|k: u64| r@.contains(k) <==> self.spec_contains(k),
            forall|i: int, j: int| 0 <= i < j < r@.len() ==> r@[i] != r@[j],
    {
        proof {
            use_type_invariant(self);
            lemma_map_of_seq_dom(self.entries@);
        }
        let n = self.entries.len();
        let mut r: Vec<u64> = Vec::new();
        let mut i: usize = 0;
        while i < n
            invariant
                n == self.entries@.len(),
                i <= n,
                r@.len() == i,
                forall|j: int| 0 <= j < i ==> r@[j] == (#[trigger] self.entries@[j]).0,
            decreases n - i,
        {
            let k = self.entries[i].0;
            r.push(k);
            i = i + 1;
        }
        proof {
            assert forall|i: int, j: int| 0 <= i < j < r@.len() implies r@[i] != r@[j] by {
                assert(r@[i] == (self.entries@[i]).0);
                assert(r@[j] == (self.entries@[j]).0);
            }
            assert forall|k: u64| r@.contains(k) <==> self.spec_contains(k) by {
                lemma_map_of_seq_dom(self.entries@);
                if r@.contains(k) {
                    let j = choose|j: int| 0 <= j < r@.len() && r@[j] == k;
                    assert((self.entries@[j]).0 == k);
                }
                if self.spec_contains(k) {
                    let j = choose|j: int| 0 <= j < self.entries@.len() && (#[trigger] self.entries@[j]).0 == k;
                    assert(r@[j] == k);
                }
            }
        }
        r
    }

    /// The entry at an index, for callers that walk the table.
    pub fn entry_at(&self, i: usize) -> (r: &(u64, V))
        requires
            i < self.seq_view().len(),
        ensures
            *r == self.seq_view()[i as int],
            self.spec_contains(r.0) && self.as_map()[r.0] == r.1,
    {
        proof {
            use_type_invariant(self);
            lemma_map_of_seq_get(self.entries@, i as int);
        }
        &self.entries[i]
    }
}

/// A set of ids, kept without duplicates; viewed as a `Set<u64>`.
pub struct IdSet {
    items: Vec<u64>,
}

impl IdSet {
    /// The set's members in insertion order.
    pub closed spec fn seq_view(self) -> Seq<u64> {
        self.items@
    }

    pub open spec fn set_view(self) -> Set<u64> {
        Set::new(|k: u64| self.seq_view().contains(k))
    }

    pub open spec fn spec_contains(self, k: u64) -> bool {
        self.seq_view().contains(k)
    }

    #[verifier::type_invariant]
    spec fn inv(self) -> bool {
        forall|i: int, j: int| 0 <= i < j < self.items@.len() ==> self.items@[i] != self.items@[j]
    }

    pub fn new() -> (r: IdSet)
        ensures
            r.seq_view() == Seq::<u64>::empty(),
            r.set_view() == Set::<u64>::empty(),
    {
        let r = IdSet { items: Vec::new() };
        proof {
            assert(r.set_view() =~= Set::<u64>::empty());
        }
        r
    }

    pub fn len(&self) -> (r: usize)
        ensures
            r == self.seq_view().len(),
    {
        self.items.len()
    }

    pub fn contains(&self, k: u64) -> (r: bool)
        ensures
            r == self.spec_contains(k),
            r == self.set_view().contains(k),
    {
        let n = self.items.len();
        let mut i: usize = 0;
        while i < n
            invariant
                n == self.items@.len(),
                i <= n,
                forall|j: int| 0 <= j < i ==> self.items@[j] != k,
            decreases n - i,
        {
            if self.items[i] == k {
                return true;
            }
            i = i + 1;
        }
        false
    }

    /// Add `k`; no effect if already present.
    pub fn insert(&mut self, k: u64)
        ensures
            final(self).set_view() == old(self).set_view().insert(k),
    {
        proof {
            use_type_invariant(&*self);
        }
        if !self.contains(k) {
            let mut items: Vec<u64> = Vec::new();
            core::mem::swap(&mut self.items, &mut items);
            items.push(k);
            core::mem::swap(&mut self.items, &mut items);
        }
        proof {
            assert(final(self).set_view() =~= old(self).set_view().insert(k));
        }
    }

    /// Drop `k`; no effect if absent.
    pub fn remove(&mut self, k: u64)
        ensures
            final(self).set_view() == old(self).set_view().remove(k),
    {
        proof {
            use_type_invariant(&*self);
        }
        let mut items: Vec<u64> = Vec::new();
        core::mem::swap(&mut self.items, &mut items);
        let ghost orig = items@;
        proof {
            assert(orig == old(self).seq_view());
        }
        let n = items.len();
        let mut i: usize = 0;
        while i < n
            invariant
                items@ == orig,
                orig == old(self).seq_view(),
                n == items@.len(),
                i <= n,
                forall|j: int| 0 <= j < i ==> items@[j] != k,
                forall|a: int, b: int| 0 <= a < b < items@.len() ==> items@[a] != items@[b],
            decreases n - i,
        {
            if items[i] == k {
                let ghost pre = items@;
                items.remove(i);
                core::mem::swap(&mut self.items, &mut items);
                proof {
                    assert forall|x: u64|
                        self.items@.contains(x) <==> (pre.contains(x) && x != k) by {
                        if self.items@.contains(x) {
                            let j = choose|j: int| 0 <= j < self.items@.len() && self.items@[j] == x;
                            if j < i {
                                assert(pre[j] == x);
                            } else {
                                assert(pre[j + 1] == x);
                            }
                        }
                        if pre.contains(x) && x != k {
                            let j = choose|j: int| 0 <= j < pre.len() && pre[j] == x;
                            if j < i {
                                assert(self.items@[j] == x);
                            } else if j > i {
                                assert(self.items@[j - 1] == x);
                            }
                        }
                    }
                    assert(pre == old(self).seq_view());
                    assert(forall|x: u64|
                        self.items@.contains(x) <==> (old(self).seq_view().contains(x) && x != k));
                }
                return ;
            }
            i = i + 1;
        }
        proof {
            assert(!items@.contains(k));
        }
        core::mem::swap(&mut self.items, &mut items);
    }

    /// Take every member out, leaving the set empty.
    pub fn drain(&mut self) -> (r: Vec<u64>)
        ensures
            final(self).set_view() == Set::<u64>::empty(),
            forall|k: u64| r@.contains(k) <==> old(self).set_view().contains(k),
            forall|i: int, j: int| 0 <= i < j < r@.len() ==> r@[i] != r@[j],
    {
        proof {
            use_type_invariant(&*self);
        }
        let mut r: Vec<u64> = Vec::new();
        core::mem::swap(&mut self.items, &mut r);
        proof {
            assert(final(self).set_view() =~= Set::<u64>::empty());
        }
        r
    }
}

} // verus!
