//! Association lists: maps that are walked in a fixed order.
//!
//! A table is modelled as the sequence of its entries. No key occurs twice; a
//! key keeps its place when its value is replaced, and a new key goes to the
//! end.

use vstd::prelude::*;

use crate::wire::types::Id;

verus! {

/// A key that can be tested for equality.
pub trait Key: Copy {
    fn same(&self, other: &Self) -> (r: bool)
        ensures
            r == (*self == *other),
    ;
}

impl Key for Id {
    fn same(&self, other: &Id) -> (r: bool) {
        *self == *other
    }
}

/// A peer or a channel as it is reached through one gateway.
#[derive(Debug, Clone, Copy, PartialEq, Eq)]
pub struct Route {
    pub id: Id,
    pub gateway: usize,
}

impl Key for Route {
    fn same(&self, other: &Route) -> (r: bool) {
        self.id == other.id && self.gateway == other.gateway
    }
}

/// Where the first entry under `k` stands; the length if there is none.
pub open spec fn place<K, V>(s: Seq<(K, V)>, k: K) -> int
    decreases s.len(),
{
    if s.len() == 0 || s[0].0 == k {
        0
    } else {
        1 + place(s.skip(1), k)
    }
}

/// The value under `k`.
pub open spec fn lookup<K, V>(s: Seq<(K, V)>, k: K) -> Option<V> {
    if place(s, k) < s.len() {
        Some(s[place(s, k)].1)
    } else {
        None
    }
}

/// The entries with `v` put under `k`.
pub open spec fn with<K, V>(s: Seq<(K, V)>, k: K, v: V) -> Seq<(K, V)> {
    if place(s, k) < s.len() {
        s.update(place(s, k), (k, v))
    } else {
        s.push((k, v))
    }
}

/// The entries without `k`.
pub open spec fn without<K, V>(s: Seq<(K, V)>, k: K) -> Seq<(K, V)> {
    if place(s, k) < s.len() {
        s.remove(place(s, k))
    } else {
        s
    }
}

/// Whether no key occurs twice.
pub open spec fn distinct<K, V>(s: Seq<(K, V)>) -> bool {
    forall|i: int, j: int| 0 <= i < j < s.len() ==> (#[trigger] s[i]).0 != (#[trigger] s[j]).0
}

pub proof fn lemma_place<K, V>(s: Seq<(K, V)>, k: K)
    ensures
        0 <= place(s, k) <= s.len(),
        place(s, k) < s.len() ==> s[place(s, k)].0 == k,
        forall|i: int| 0 <= i < place(s, k) ==> (#[trigger] s[i]).0 != k,
    decreases s.len(),
{
    if s.len() != 0 && s[0].0 != k {
        let tail = s.skip(1);
        lemma_place(tail, k);
        assert forall|i: int| 0 <= i < place(s, k) implies (#[trigger] s[i]).0 != k by {
            if i > 0 {
                assert(tail[i - 1] == s[i]);
            }
        }
    }
}

/// The place is the only index that can be the first one under `k`.
pub proof fn lemma_place_is<K, V>(s: Seq<(K, V)>, k: K, n: int)
    requires
        0 <= n <= s.len(),
        n < s.len() ==> s[n].0 == k,
        forall|i: int| 0 <= i < n ==> (#[trigger] s[i]).0 != k,
    ensures
        place(s, k) == n,
{
    lemma_place(s, k);
    if place(s, k) < n {
        assert(s[place(s, k)].0 != k);
    }
}

/// Putting a value under a key: the key now has that value, every other key
/// has what it had, and still no key occurs twice.
pub proof fn law_with<K, V>(s: Seq<(K, V)>, k: K, v: V, other: K)
    requires
        distinct(s),
    ensures
        lookup(with(s, k, v), k) == Some(v),
        other != k ==> lookup(with(s, k, v), other) == lookup(s, other),
        distinct(with(s, k, v)),
{
    lemma_place(s, k);
    lemma_place(s, other);
    let t = with(s, k, v);
    let n = place(s, k);
    lemma_place_is(t, k, n);
    if other != k {
        let m = place(s, other);
        if m < s.len() {
            assert(t[m] == s[m]);
            lemma_place_is(t, other, m);
        } else {
            lemma_place_is(t, other, t.len() as int);
        }
    }
    assert forall|i: int, j: int| 0 <= i < j < t.len() implies (#[trigger] t[i]).0 != (#[trigger] t[j]).0 by {
        if n == s.len() && j == n {
            assert(s[i].0 != k);
        } else {
            assert(s[i].0 != s[j].0);
        }
    }
}

/// Removing a key: it has no value, every other key has what it had, and
/// still no key occurs twice.
pub proof fn law_without<K, V>(s: Seq<(K, V)>, k: K, other: K)
    requires
        distinct(s),
    ensures
        lookup(without(s, k), k) is None,
        other != k ==> lookup(without(s, k), other) == lookup(s, other),
        distinct(without(s, k)),
{
    lemma_place(s, k);
    lemma_place(s, other);
    let t = without(s, k);
    let n = place(s, k);
    if n < s.len() {
        assert forall|i: int| 0 <= i < t.len() implies #[trigger] t[i] == s[if i < n {
            i
        } else {
            i + 1
        }] by {}
        assert forall|i: int| 0 <= i < t.len() implies (#[trigger] t[i]).0 != k by {
            if i >= n {
                assert(s[n].0 != s[i + 1].0);
            }
        }
        lemma_place_is(t, k, t.len() as int);
        if other != k {
            let m = place(s, other);
            if m < s.len() {
                let p = if m < n {
                    m
                } else {
                    m - 1
                };
                assert(t[p] == s[m]);
                lemma_place_is(t, other, p);
            } else {
                lemma_place_is(t, other, t.len() as int);
            }
        }
    }
}

/// Keeping some of the entries keeps the keys distinct.
pub proof fn lemma_distinct_filter<K, V>(s: Seq<(K, V)>, keep: spec_fn((K, V)) -> bool)
    requires
        distinct(s),
    ensures
        distinct(s.filter(keep)),
    decreases s.len(),
{
    reveal(Seq::filter);
    if s.len() > 0 {
        let front = s.drop_last();
        assert(distinct(front)) by {
            assert forall|i: int, j: int| 0 <= i < j < front.len() implies (#[trigger] front[i]).0 != (#[trigger] front[j]).0 by {
                assert(s[i].0 != s[j].0);
            }
        }
        lemma_distinct_filter(front, keep);
        let kept = front.filter(keep);
        let t = s.filter(keep);
        assert forall|i: int, j: int| 0 <= i < j < t.len() implies (#[trigger] t[i]).0 != (#[trigger] t[j]).0 by {
            if j == kept.len() {
                assert(kept.contains(kept[i]));
                front.lemma_filter_contains_rev(keep, kept[i]);
                let m = choose|m: int| 0 <= m < front.len() && front[m] == kept[i];
                assert(s[m].0 != s[s.len() - 1].0);
            } else {
                assert(kept[i].0 != kept[j].0);
            }
        }
    }
}

/// A map kept as a list of entries.
pub struct Table<K, V> {
    pub items: Vec<(K, V)>,
}

impl<K, V: View> View for Table<K, V> {
    type V = Seq<(K, V::V)>;

    open spec fn view(&self) -> Seq<(K, V::V)> {
        Seq::new(self.items@.len(), |i: int| (self.items@[i].0, self.items@[i].1@))
    }
}

impl<K: Key, V: View> Table<K, V> {
    pub fn new() -> (t: Self)
        ensures
            t@ == Seq::<(K, V::V)>::empty(),
            distinct(t@),
    {
        let t = Table { items: Vec::new() };
        proof {
            assert(t@ =~= Seq::empty());
        }
        t
    }

    pub fn len(&self) -> (n: usize)
        ensures
            n == self@.len(),
    {
        self.items.len()
    }

    /// Where `k` stands; the length if it is not there.
    pub fn index_of(&self, k: &K) -> (n: usize)
        ensures
            n == place(self@, *k),
            n <= self@.len(),
    {
        let mut i: usize = 0;
        while i < self.items.len()
            invariant
                i <= self.items@.len(),
                forall|j: int| 0 <= j < i ==> (#[trigger] self@[j]).0 != *k,
            decreases self.items@.len() - i,
        {
            if self.items[i].0.same(k) {
                proof {
                    lemma_place_is(self@, *k, i as int);
                }
                return i;
            }
            i = i + 1;
        }
        proof {
            lemma_place_is(self@, *k, i as int);
        }
        i
    }

    pub fn get(&self, k: &K) -> (r: Option<&V>)
        ensures
            match r {
                Some(v) => lookup(self@, *k) == Some(v@),
                None => lookup(self@, *k) is None,
            },
    {
        let n = self.index_of(k);
        if n < self.items.len() {
            Some(&self.items[n].1)
        } else {
            None
        }
    }

    pub fn get_mut(&mut self, k: &K) -> (r: Option<&mut V>)
        ensures
            match r {
                Some(v) => {
                    &&& lookup(old(self)@, *k) == Some((*v)@)
                    &&& final(self)@ == with(old(self)@, *k, (*final(v))@)
                },
                None => {
                    &&& lookup(old(self)@, *k) is None
                    &&& final(self)@ == old(self)@
                },
            },
    {
        let n = self.index_of(k);
        proof {
            lemma_place(self@, *k);
        }
        if n < self.items.len() {
            Some(&mut self.items[n].1)
        } else {
            None
        }
    }

    pub fn insert(&mut self, k: K, v: V)
        requires
            distinct(old(self)@),
        ensures
            final(self)@ == with(old(self)@, k, v@),
            distinct(final(self)@),
    {
        let n = self.index_of(&k);
        proof {
            law_with(self@, k, v@, k);
        }
        if n < self.items.len() {
            self.items[n] = (k, v);
        } else {
            self.items.push((k, v));
        }
        proof {
            assert(self@ =~= with(old(self)@, k, v@));
        }
    }

    /// Whether `k` was there.
    pub fn remove(&mut self, k: &K) -> (r: bool)
        requires
            distinct(old(self)@),
        ensures
            final(self)@ == without(old(self)@, *k),
            r == (lookup(old(self)@, *k) is Some),
            distinct(final(self)@),
    {
        let n = self.index_of(k);
        proof {
            law_without(self@, *k, *k);
        }
        if n < self.items.len() {
            self.items.remove(n);
            proof {
                assert(self@ =~= without(old(self)@, *k));
            }
            true
        } else {
            false
        }
    }

    pub fn clear(&mut self)
        ensures
            final(self)@ == Seq::<(K, V::V)>::empty(),
            distinct(final(self)@),
    {
        self.items.clear();
        proof {
            assert(self@ =~= Seq::empty());
        }
    }

    /// Keep the entries that `f` accepts.
    pub fn retain<F: Fn(&K, &V) -> bool>(&mut self, f: F)
        requires
            forall|k: &K, v: &V| call_requires(f, (k, v)),
        ensures
            forall|keep: spec_fn((K, V::V)) -> bool|
                (forall|k: &K, v: &V, b: bool| #[trigger]
                    call_ensures(f, (k, v), b) ==> b == keep((*k, v@))) ==> final(self)@
                    == #[trigger] old(self)@.filter(keep),
    {
        let ghost before = self@;
        let mut i: usize = 0;
        let mut done: usize = 0;
        let total = self.items.len();
        while done < total
            invariant
                done <= total == before.len(),
                i <= done,
                self@.len() == i + (total - done),
                forall|k: &K, v: &V| call_requires(f, (k, v)),
                forall|j: int| i <= j < self@.len() ==> #[trigger] self@[j] == before[j - i + done],
                forall|keep: spec_fn((K, V::V)) -> bool|
                    (forall|k: &K, v: &V, b: bool| #[trigger]
                        call_ensures(f, (k, v), b) ==> b == keep((*k, v@))) ==> self@.take(i as int)
                        == #[trigger] before.take(done as int).filter(keep),
            decreases total - done,
        {
            let ghost now = self@;
            let b = f(&self.items[i].0, &self.items[i].1);
            proof {
                assert(now[i as int] == before[done as int]);
            }
            if b {
                i = i + 1;
            } else {
                self.items.remove(i);
                proof {
                    assert(self@ =~= now.remove(i as int));
                }
            }
            proof {
                assert forall|keep: spec_fn((K, V::V)) -> bool|
                    (forall|k: &K, v: &V, b: bool| #[trigger]
                        call_ensures(f, (k, v), b) ==> b == keep((*k, v@))) implies self@.take(
                    i as int,
                ) == #[trigger] before.take(done + 1).filter(keep) by {
                    reveal(Seq::filter);
                    assert(before.take(done + 1).drop_last() =~= before.take(done as int));
                    let old_part = before.take(done as int).filter(keep);
                    assert(b == keep(before[done as int]));
                    if b {
                        assert(self@.take(i as int) =~= old_part.push(before[done as int]));
                    } else {
                        assert(self@.take(i as int) =~= old_part);
                    }
                }
            }
            done = done + 1;
        }
        proof {
            assert(before.take(total as int) =~= before);
            assert(self@.take(i as int) =~= self@);
        }
    }
}

} // verus!
