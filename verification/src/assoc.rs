//! A small association map from integer identifiers to values, with the
//! mathematical `Map` as its model. Used for per-frame variable tables,
//! pattern-match bindings and per-process bookkeeping.

use vstd::prelude::*;

verus! {

/// The map a sequence of key-value entries denotes; later entries win.
pub open spec fn assoc_view<V>(s: Seq<(usize, V)>) -> Map<usize, V>
    decreases s.len(),
{
    if s.len() == 0 {
        Map::empty()
    } else {
        assoc_view(s.drop_last()).insert(s.last().0, s.last().1)
    }
}

/// With pairwise-distinct keys, the denoted map is exactly membership of the
/// entry list.
pub proof fn lemma_assoc_view_lookup<V>(s: Seq<(usize, V)>, k: usize)
    requires
        forall|i: int, j: int|
            0 <= i < j < s.len() ==> (#[trigger] s[i]).0 != (#[trigger] s[j]).0,
    ensures
        assoc_view(s).dom().contains(k) <==> (exists|i: int|
            0 <= i < s.len() && (#[trigger] s[i]).0 == k),
        forall|i: int|
            0 <= i < s.len() && (#[trigger] s[i]).0 == k ==> assoc_view(s)[k] == s[i].1,
    decreases s.len(),
{
    if s.len() > 0 {
        let sd = s.drop_last();
        assert(forall|i: int| 0 <= i < sd.len() ==> #[trigger] sd[i] == s[i]);
        lemma_assoc_view_lookup(sd, k);
        if s.last().0 == k {
            assert(s[s.len() - 1].0 == k);
            assert(assoc_view(s)[k] == s.last().1);
            assert forall|i: int|
                0 <= i < s.len() && (#[trigger] s[i]).0 == k implies assoc_view(s)[k]
                == s[i].1 by {
                if i < s.len() - 1 {
                    assert(s[i].0 != s[s.len() - 1].0);
                }
            }
        } else {
            if assoc_view(s).dom().contains(k) {
                let i = choose|i: int| 0 <= i < sd.len() && (#[trigger] sd[i]).0 == k;
                assert(s[i].0 == k);
            }
            if exists|i: int| 0 <= i < s.len() && (#[trigger] s[i]).0 == k {
                let i = choose|i: int| 0 <= i < s.len() && (#[trigger] s[i]).0 == k;
                assert(i < s.len() - 1);
                assert(sd[i].0 == k);
            }
            assert forall|i: int|
                0 <= i < s.len() && (#[trigger] s[i]).0 == k implies assoc_view(s)[k]
                == s[i].1 by {
                assert(i < s.len() - 1);
                assert(sd[i].0 == k);
                assert(assoc_view(sd)[k] == sd[i].1);
            }
        }
    }
}

/// An association map keyed by integer identifiers. Keys are pairwise
/// distinct; the abstract model is a `Map`.
#[derive(Debug)]
pub struct AssocMap<V> {
    pub(crate) entries: Vec<(usize, V)>,
}

impl<V> AssocMap<V> {
    /// The mathematical map this table denotes.
    pub open(crate) spec fn view_spec(&self) -> Map<usize, V> {
        assoc_view(self.entries@)
    }

    /// Keys are pairwise distinct.
    pub open(crate) spec fn wf(&self) -> bool {
        forall|i: int, j: int|
            0 <= i < j < self.entries@.len() ==> (#[trigger] self.entries@[i]).0 != (
            #[trigger] self.entries@[j]).0
    }

    /// The empty map.
    pub fn new() -> (r: AssocMap<V>)
        ensures
            r.wf(),
            r.view_spec() == Map::<usize, V>::empty(),
    {
        AssocMap { entries: Vec::new() }
    }

    /// How many keys are bound.
    pub fn len(&self) -> (r: usize)
        requires
            self.wf(),
        ensures
            r == self.view_spec().dom().len(),
    {
        proof {
            self.lemma_len();
        }
        self.entries.len()
    }

    /// With distinct keys, the denoted map has one entry per list entry.
    proof fn lemma_len(&self)
        requires
            self.wf(),
        ensures
            self.view_spec().dom().len() == self.entries@.len(),
    {
        lemma_assoc_dedup_len(self.entries@);
    }

    /// The value bound to a key, if any.
    pub fn get(&self, key: usize) -> (r: Option<&V>)
        requires
            self.wf(),
        ensures
            r matches Some(v) ==> self.view_spec().dom().contains(key) && *v == self.view_spec()[
                key],
            r is None ==> !self.view_spec().dom().contains(key),
    {
        proof {
            lemma_assoc_view_lookup(self.entries@, key);
        }
        let n = self.entries.len();
        let mut i: usize = 0;
        while i < n
            invariant
                i <= n,
                self.wf(),
                n == self.entries@.len(),
                forall|k2: int| 0 <= k2 < i ==> (#[trigger] self.entries@[k2]).0 != key,
            decreases n - i,
        {
            if self.entries[i].0 == key {
                proof {
                    lemma_assoc_view_lookup(self.entries@, key);
                    assert((#[trigger] self.entries@[i as int]).0 == key);
                    assert(self.view_spec().dom().contains(key));
                    assert(self.view_spec()[key] == self.entries@[i as int].1);
                }
                return Some(&self.entries[i].1);
            }
            i += 1;
        }
        None
    }

    /// Whether a key is bound.
    pub fn contains_key(&self, key: usize) -> (r: bool)
        requires
            self.wf(),
        ensures
            r <==> self.view_spec().dom().contains(key),
    {
        self.get(key).is_some()
    }

    /// Bind a key, replacing any previous binding.
    pub fn insert(&mut self, key: usize, value: V)
        requires
            old(self).wf(),
        ensures
            final(self).wf(),
            final(self).view_spec() == old(self).view_spec().insert(key, value),
    {
        proof {
            lemma_assoc_view_lookup(self.entries@, key);
        }
        let n = self.entries.len();
        let mut i: usize = 0;
        while i < n
            invariant
                i <= n,
                self.wf(),
                *self == *old(self),
                n == self.entries@.len(),
                forall|k2: int| 0 <= k2 < i ==> (#[trigger] self.entries@[k2]).0 != key,
            decreases n - i,
        {
            if self.entries[i].0 == key {
                self.entries[i].1 = value;
                proof {
                    assert(self.entries@.len() == old(self).entries@.len());
                    assert(self.entries@[i as int].0 == key);
                    self.lemma_update_at(*old(self), i as int, key);
                }
                return ;
            }
            i += 1;
        }
        self.entries.push((key, value));
        proof {
            assert(self.entries@.drop_last() =~= old(self).entries@);
            assert forall|i2: int, j2: int|
                0 <= i2 < j2 < self.entries@.len() implies (#[trigger] self.entries@[i2]).0 != (
            #[trigger] self.entries@[j2]).0 by {
                if j2 < self.entries@.len() - 1 {
                    assert(old(self).entries@[i2].0 != old(self).entries@[j2].0);
                } else {
                    assert(self.entries@[i2].0 != key);
                }
            }
        }
    }

    /// Updating the value at the unique index of a key denotes a map insert.
    proof fn lemma_update_at(&self, pre: AssocMap<V>, i: int, key: usize)
        requires
            pre.wf(),
            0 <= i < pre.entries@.len(),
            pre.entries@[i].0 == key,
            self.entries@.len() == pre.entries@.len(),
            self.entries@[i].0 == key,
            forall|j: int|
                0 <= j < pre.entries@.len() && j != i ==> #[trigger] self.entries@[j]
                    == pre.entries@[j],
            self.entries@[i].1 == self.entries@[i].1,
        ensures
            self.wf(),
            self.view_spec() == pre.view_spec().insert(key, self.entries@[i].1),
        decreases pre.entries@.len(),
    {
        assert forall|i2: int, j2: int|
            0 <= i2 < j2 < self.entries@.len() implies (#[trigger] self.entries@[i2]).0 != (
        #[trigger] self.entries@[j2]).0 by {
            assert(pre.entries@[i2].0 != pre.entries@[j2].0);
            assert(self.entries@[i2].0 == pre.entries@[i2].0);
            assert(self.entries@[j2].0 == pre.entries@[j2].0);
        }
        let n = pre.entries@.len();
        if i == n - 1 {
            assert(self.entries@.drop_last() =~= pre.entries@.drop_last());
            assert(assoc_view(self.entries@) == assoc_view(pre.entries@.drop_last()).insert(
                key,
                self.entries@[i].1,
            ));
            assert(pre.view_spec().insert(key, self.entries@[i].1) =~= assoc_view(
                pre.entries@.drop_last(),
            ).insert(key, self.entries@[i].1));
        } else {
            let self_short = AssocMap::<V> { entries: self.entries };
            let sd = self.entries@.drop_last();
            let pd = pre.entries@.drop_last();
            assert(forall|j: int| 0 <= j < n - 1 && j != i ==> #[trigger] sd[j] == pd[j]);
            assert(sd[i].0 == key);
            assert(pd[i].0 == key);
            let ghost pre_short = AssocMap::<V> { entries: pre.entries };
            lemma_assoc_update_at(sd, pd, i, key);
            assert(self.entries@.last() == pre.entries@.last());
            assert(assoc_view(self.entries@) == assoc_view(sd).insert(
                pre.entries@.last().0,
                pre.entries@.last().1,
            ));
            assert(assoc_view(sd) == assoc_view(pd).insert(key, self.entries@[i].1));
            assert(pre.entries@.last().0 != key);
            assert(assoc_view(self.entries@) =~= pre.view_spec().insert(
                key,
                self.entries@[i].1,
            ));
        }
    }

    /// Remove and return a key's binding, if it is bound.
    pub fn take(&mut self, key: usize) -> (r: Option<V>)
        requires
            old(self).wf(),
        ensures
            final(self).wf(),
            old(self).view_spec().dom().contains(key) ==> (r matches Some(v) && v == old(
                self,
            ).view_spec()[key]),
            !old(self).view_spec().dom().contains(key) ==> r is None && *final(self) == *old(self),
            final(self).view_spec() == old(self).view_spec().remove(key),
    {
        proof {
            lemma_assoc_view_lookup(self.entries@, key);
        }
        let n = self.entries.len();
        let mut i: usize = 0;
        while i < n
            invariant
                i <= n,
                self.wf(),
                *self == *old(self),
                n == self.entries@.len(),
                forall|k2: int| 0 <= k2 < i ==> (#[trigger] self.entries@[k2]).0 != key,
            decreases n - i,
        {
            if self.entries[i].0 == key {
                proof {
                    lemma_assoc_view_lookup(self.entries@, key);
                    assert((#[trigger] self.entries@[i as int]).0 == key);
                }
                let entry = self.entries.remove(i);
                proof {
                    old(self).entries@.remove_ensures(i as int);
                    lemma_assoc_remove_at(old(self).entries@, i as int, key);
                    assert forall|i2: int, j2: int|
                        0 <= i2 < j2 < self.entries@.len() implies (
                    #[trigger] self.entries@[i2]).0 != (#[trigger] self.entries@[j2]).0 by {
                        if j2 < i {
                            assert(old(self).entries@[i2].0 != old(self).entries@[j2].0);
                        } else if i2 < i {
                            assert(old(self).entries@[i2].0 != old(self).entries@[j2 + 1].0);
                        } else {
                            assert(old(self).entries@[i2 + 1].0 != old(self).entries@[j2 + 1].0);
                        }
                    }
                }
                return Some(entry.1);
            }
            i += 1;
        }
        proof {
            assert(!self.view_spec().dom().contains(key)) by {
                if exists|i2: int|
                    0 <= i2 < self.entries@.len() && (#[trigger] self.entries@[i2]).0 == key {
                    let i2 = choose|i2: int|
                        0 <= i2 < self.entries@.len() && (#[trigger] self.entries@[i2]).0 == key;
                    assert(false);
                }
            }
            assert(self.view_spec() =~= self.view_spec().remove(key));
        }
        None
    }

    /// Unbind a key, if it is bound.
    pub fn remove(&mut self, key: usize)
        requires
            old(self).wf(),
        ensures
            final(self).wf(),
            final(self).view_spec() == old(self).view_spec().remove(key),
    {
        let n = self.entries.len();
        let mut i: usize = 0;
        while i < n
            invariant
                i <= n,
                self.wf(),
                *self == *old(self),
                n == self.entries@.len(),
                forall|k2: int| 0 <= k2 < i ==> (#[trigger] self.entries@[k2]).0 != key,
            decreases n - i,
        {
            if self.entries[i].0 == key {
                self.entries.remove(i);
                proof {
                    old(self).entries@.remove_ensures(i as int);
                    crate::function::lemma_seq_remove_dedup(
                        old(self).entries@.map_values(|e: (usize, V)| e.0),
                        i as int,
                    );
                    lemma_assoc_remove_at(old(self).entries@, i as int, key);
                    assert forall|i2: int, j2: int|
                        0 <= i2 < j2 < self.entries@.len() implies (
                    #[trigger] self.entries@[i2]).0 != (#[trigger] self.entries@[j2]).0 by {
                        if j2 < i {
                            assert(old(self).entries@[i2].0 != old(self).entries@[j2].0);
                        } else if i2 < i {
                            assert(old(self).entries@[i2].0 != old(self).entries@[j2 + 1].0);
                        } else {
                            assert(old(self).entries@[i2 + 1].0 != old(self).entries@[j2 + 1].0);
                        }
                    }
                }
                return ;
            }
            i += 1;
        }
        proof {
            lemma_assoc_view_lookup(self.entries@, key);
            assert(!self.view_spec().dom().contains(key)) by {
                if exists|i2: int|
                    0 <= i2 < self.entries@.len() && (#[trigger] self.entries@[i2]).0 == key {
                    let i2 = choose|i2: int|
                        0 <= i2 < self.entries@.len() && (#[trigger] self.entries@[i2]).0 == key;
                    assert(false);
                }
            }
            assert(self.view_spec() =~= self.view_spec().remove(key));
        }
    }
}

/// With pairwise-distinct keys, a list of n entries denotes a map with n
/// keys.
pub proof fn lemma_assoc_dedup_len<V>(s: Seq<(usize, V)>)
    requires
        forall|i: int, j: int|
            0 <= i < j < s.len() ==> (#[trigger] s[i]).0 != (#[trigger] s[j]).0,
    ensures
        assoc_view(s).dom().len() == s.len(),
        assoc_view(s).dom().finite(),
    decreases s.len(),
{
    if s.len() > 0 {
        let sd = s.drop_last();
        assert(forall|i: int| 0 <= i < sd.len() ==> #[trigger] sd[i] == s[i]);
        lemma_assoc_dedup_len(sd);
        lemma_assoc_view_lookup(sd, s.last().0);
        assert(!assoc_view(sd).dom().contains(s.last().0)) by {
            if exists|i: int| 0 <= i < sd.len() && (#[trigger] sd[i]).0 == s.last().0 {
                let i = choose|i: int| 0 <= i < sd.len() && (#[trigger] sd[i]).0 == s.last().0;
                assert(s[i].0 == s[s.len() - 1].0);
            }
        }
        assert(assoc_view(s).dom() =~= assoc_view(sd).dom().insert(s.last().0));
        vstd::set::axiom_set_insert_len(assoc_view(sd).dom(), s.last().0);
    } else {
        assert(assoc_view(s).dom() =~= Set::<usize>::empty());
    }
}

/// Replacing the value at the unique index of a key denotes a map insert.
proof fn lemma_assoc_update_at<V>(s2: Seq<(usize, V)>, s1: Seq<(usize, V)>, i: int, key: usize)
    requires
        forall|i2: int, j2: int|
            0 <= i2 < j2 < s1.len() ==> (#[trigger] s1[i2]).0 != (#[trigger] s1[j2]).0,
        0 <= i < s1.len(),
        s1[i].0 == key,
        s2.len() == s1.len(),
        s2[i].0 == key,
        forall|j: int| 0 <= j < s1.len() && j != i ==> #[trigger] s2[j] == s1[j],
    ensures
        assoc_view(s2) == assoc_view(s1).insert(key, s2[i].1),
    decreases s1.len(),
{
    if i == s1.len() - 1 {
        assert(s2.drop_last() =~= s1.drop_last());
    } else {
        let s2d = s2.drop_last();
        let s1d = s1.drop_last();
        assert(forall|j: int| 0 <= j < s1d.len() && j != i ==> #[trigger] s2d[j] == s1d[j]);
        assert(s2d[i] == s2[i]);
        assert(s1d[i] == s1[i]);
        lemma_assoc_update_at(s2d, s1d, i, key);
        assert(s2.last() == s1.last());
        assert(s1.last().0 != key);
        assert(assoc_view(s2) =~= assoc_view(s1).insert(key, s2[i].1));
    }
}

/// Removing the unique entry of a key denotes a map remove.
proof fn lemma_assoc_remove_at<V>(s: Seq<(usize, V)>, i: int, key: usize)
    requires
        forall|i2: int, j2: int|
            0 <= i2 < j2 < s.len() ==> (#[trigger] s[i2]).0 != (#[trigger] s[j2]).0,
        0 <= i < s.len(),
        s[i].0 == key,
    ensures
        assoc_view(s.remove(i)) == assoc_view(s).remove(key),
    decreases s.len(),
{
    s.remove_ensures(i);
    if i == s.len() - 1 {
        assert(s.remove(i) =~= s.drop_last());
        lemma_assoc_view_lookup(s.drop_last(), key);
        assert(!assoc_view(s.drop_last()).dom().contains(key)) by {
            if exists|i2: int|
                0 <= i2 < s.drop_last().len() && (#[trigger] s.drop_last()[i2]).0 == key {
                let i2 = choose|i2: int|
                    0 <= i2 < s.drop_last().len() && (#[trigger] s.drop_last()[i2]).0 == key;
                assert(s[i2].0 == s[i].0);
                assert(false);
            }
        }
        assert(assoc_view(s.remove(i)) =~= assoc_view(s).remove(key));
    } else {
        let sd = s.drop_last();
        assert(forall|j: int| 0 <= j < sd.len() ==> #[trigger] sd[j] == s[j]);
        lemma_assoc_remove_at(sd, i, key);
        assert(s.remove(i).drop_last() =~= sd.remove(i));
        assert(s.remove(i).last() == s.last());
        assert(s.last().0 != key);
        assert(assoc_view(s.remove(i)) == assoc_view(sd.remove(i)).insert(
            s.last().0,
            s.last().1,
        ));
        assert(assoc_view(s.remove(i)) =~= assoc_view(s).remove(key));
    }
}

} // verus!
