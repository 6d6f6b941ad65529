//! In-memory tables of the graph store: maps keyed by block identifier or
//! by level, and sets of block identifiers. Each table is an association
//! vector with unique keys, viewed as a mathematical map or set.

use vstd::prelude::*;
use crate::hash::H256;

verus! {

/// A map from block identifiers to values.
pub struct HMap<V> {
    entries: Vec<(H256, V)>,
}

/// The map denoted by an association sequence; later entries win.
pub open spec fn assoc<V>(s: Seq<(H256, V)>) -> Map<H256, V>
    decreases s.len(),
{
    if s.len() == 0 {
        Map::empty()
    } else {
        assoc(s.drop_last()).insert(s.last().0, s.last().1)
    }
}

/// No key occurs twice.
pub open spec fn uniq_keys<V>(s: Seq<(H256, V)>) -> bool {
    forall|i: int, j: int| 0 <= i < j < s.len() ==> s[i].0 != s[j].0
}

pub proof fn lemma_assoc_contains<V>(s: Seq<(H256, V)>, k: H256)
    ensures
        assoc(s).dom().contains(k) <==> exists|i: int| 0 <= i < s.len() && s[i].0 == k,
    decreases s.len(),
{
    if s.len() > 0 {
        lemma_assoc_contains(s.drop_last(), k);
        if s.last().0 == k {
            assert(s[s.len() - 1].0 == k);
        } else if assoc(s).dom().contains(k) {
            let i = choose|i: int| 0 <= i < s.drop_last().len() && s.drop_last()[i].0 == k;
            assert(s[i].0 == k);
        } else {
            assert forall|i: int| 0 <= i < s.len() implies s[i].0 != k by {
                if i < s.len() - 1 {
                    assert(s.drop_last()[i].0 == s[i].0);
                }
            }
        }
    }
}

pub proof fn lemma_assoc_value<V>(s: Seq<(H256, V)>, i: int)
    requires
        uniq_keys(s),
        0 <= i < s.len(),
    ensures
        assoc(s).dom().contains(s[i].0),
        assoc(s)[s[i].0] == s[i].1,
    decreases s.len(),
{
    if i == s.len() - 1 {
        assert(s.last() == s[i]);
    } else {
        assert(s.drop_last()[i] == s[i]);
        lemma_assoc_value(s.drop_last(), i);
        assert(s.last().0 != s[i].0);
    }
}

pub proof fn lemma_assoc_update<V>(s: Seq<(H256, V)>, i: int, v: V)
    requires
        uniq_keys(s),
        0 <= i < s.len(),
    ensures
        assoc(s.update(i, (s[i].0, v))) =~= assoc(s).insert(s[i].0, v),
    decreases s.len(),
{
    let t = s.update(i, (s[i].0, v));
    if i == s.len() - 1 {
        assert(t.drop_last() =~= s.drop_last());
        assert(t.last() == (s[i].0, v));
    } else {
        assert(t.drop_last() =~= s.drop_last().update(i, (s[i].0, v)));
        assert(s.drop_last()[i] == s[i]);
        lemma_assoc_update(s.drop_last(), i, v);
        assert(t.last() == s.last());
        assert(s.last().0 != s[i].0);
    }
}

pub proof fn lemma_assoc_remove<V>(s: Seq<(H256, V)>, i: int)
    requires
        uniq_keys(s),
        0 <= i < s.len(),
    ensures
        assoc(s.remove(i)) =~= assoc(s).remove(s[i].0),
    decreases s.len(),
{
    let t = s.remove(i);
    if i == s.len() - 1 {
        assert(t =~= s.drop_last());
        lemma_assoc_contains(s.drop_last(), s[i].0);
        assert forall|j: int| 0 <= j < s.drop_last().len() implies s.drop_last()[j].0 != s[i].0 by {
            assert(s[j].0 == s.drop_last()[j].0);
        }
        assert(!assoc(s.drop_last()).dom().contains(s[i].0));
    } else {
        assert(t.drop_last() =~= s.drop_last().remove(i));
        assert(s.drop_last()[i] == s[i]);
        lemma_assoc_remove(s.drop_last(), i);
        assert(t.last() == s.last());
        assert(s.last().0 != s[i].0);
    }
}

pub proof fn lemma_assoc_push<V>(s: Seq<(H256, V)>, k: H256, v: V)
    ensures
        assoc(s.push((k, v))) =~= assoc(s).insert(k, v),
{
    assert(s.push((k, v)).drop_last() =~= s);
}

impl<V> HMap<V> {
    pub closed spec fn view(&self) -> Map<H256, V> {
        assoc(self.entries@)
    }

    pub closed spec fn wf(&self) -> bool {
        uniq_keys(self.entries@)
    }

    pub fn new() -> (r: HMap<V>)
        ensures
            r.wf(),
            r@ == Map::<H256, V>::empty(),
    {
        HMap { entries: Vec::new() }
    }

    #[verifier::loop_isolation(false)]
    pub fn contains(&self, k: &H256) -> (r: bool)
        requires
            self.wf(),
        ensures
            r == self@.dom().contains(*k),
    {
        proof {
            lemma_assoc_contains(self.entries@, *k);
        }
        let n = self.entries.len();
        let mut i: usize = 0;
        while i < n
            invariant
                n == self.entries.len(),
                0 <= i <= n,
                forall|j: int| 0 <= j < i ==> self.entries@[j].0 != *k,
            decreases n - i,
        {
            if self.entries[i].0 == *k {
                return true;
            }
            i += 1;
        }
        false
    }

    /// Insert or replace the binding of `k`.
    pub fn insert(&mut self, k: H256, v: V)
        requires
            old(self).wf(),
        ensures
            final(self).wf(),
            final(self)@ == old(self)@.insert(k, v),
    {
        let n = self.entries.len();
        let mut i: usize = 0;
        while i < n
            invariant
                n == self.entries.len(),
                self.entries == old(self).entries,
                uniq_keys(self.entries@),
                0 <= i <= n,
                forall|j: int| 0 <= j < i ==> self.entries@[j].0 != k,
            decreases n - i,
        {
            if self.entries[i].0 == k {
                proof {
                    lemma_assoc_update(self.entries@, i as int, v);
                }
                self.entries[i] = (k, v);
                assert(uniq_keys(self.entries@));
                return;
            }
            i += 1;
        }
        proof {
            lemma_assoc_push(self.entries@, k, v);
        }
        self.entries.push((k, v));
        assert(uniq_keys(self.entries@));
    }

    /// Remove the binding of `k`, if any.
    pub fn remove(&mut self, k: &H256)
        requires
            old(self).wf(),
        ensures
            final(self).wf(),
            final(self)@ == old(self)@.remove(*k),
    {
        let n = self.entries.len();
        let mut i: usize = 0;
        while i < n
            invariant
                n == self.entries.len(),
                self.entries == old(self).entries,
                uniq_keys(self.entries@),
                0 <= i <= n,
                forall|j: int| 0 <= j < i ==> self.entries@[j].0 != *k,
            decreases n - i,
        {
            if self.entries[i].0 == *k {
                let ghost s0 = self.entries@;
                proof {
                    lemma_assoc_remove(s0, i as int);
                    s0.remove_ensures(i as int);
                }
                self.entries.remove(i);
                assert(self.entries@ == s0.remove(i as int));
                assert forall|a: int, b: int| 0 <= a < b < self.entries@.len()
                    implies self.entries@[a].0 != self.entries@[b].0 by {
                    let a0: int = if a < i { a } else { a + 1 };
                    let b0: int = if b < i { b } else { b + 1 };
                    assert(self.entries@[a] == s0[a0]);
                    assert(self.entries@[b] == s0[b0]);
                }
                return;
            }
            i += 1;
        }
        proof {
            lemma_assoc_contains(self.entries@, *k);
            assert(self@ =~= self@.remove(*k));
        }
    }
}

impl<V: Copy> HMap<V> {
    pub fn get(&self, k: &H256) -> (r: Option<V>)
        requires
            self.wf(),
        ensures
            match r {
                Some(v) => self@.dom().contains(*k) && self@[*k] == v,
                None => !self@.dom().contains(*k),
            },
    {
        proof {
            lemma_assoc_contains(self.entries@, *k);
        }
        let n = self.entries.len();
        let mut i: usize = 0;
        while i < n
            invariant
                n == self.entries.len(),
                0 <= i <= n,
                uniq_keys(self.entries@),
                forall|j: int| 0 <= j < i ==> self.entries@[j].0 != *k,
            decreases n - i,
        {
            if self.entries[i].0 == *k {
                proof {
                    lemma_assoc_value(self.entries@, i as int);
                }
                return Some(self.entries[i].1);
            }
            i += 1;
        }
        None
    }

    /// Look up a key that is known to be present.
    pub fn at(&self, k: &H256) -> (r: V)
        requires
            self.wf(),
            self@.dom().contains(*k),
        ensures
            r == self@[*k],
    {
        match self.get(k) {
            Some(v) => v,
            None => unreached(),
        }
    }
}

} // verus!

verus! {

/// Clone a vector of copyable items.
pub fn clone_items<T: Copy>(v: &Vec<T>) -> (r: Vec<T>)
    ensures
        r@ == v@,
{
    let mut r: Vec<T> = Vec::new();
    let n = v.len();
    let mut i: usize = 0;
    while i < n
        invariant
            n == v.len(),
            0 <= i <= n,
            r@ == v@.subrange(0, i as int),
        decreases n - i,
    {
        r.push(v[i]);
        i += 1;
    }
    proof {
        assert(r@ =~= v@);
    }
    r
}

/// A map from block identifiers to lists of copyable items.
pub struct HVecMap<T> {
    entries: Vec<(H256, Vec<T>)>,
}

/// The map denoted by an association sequence of lists; later entries win.
pub open spec fn vassoc<T>(s: Seq<(H256, Vec<T>)>) -> Map<H256, Seq<T>>
    decreases s.len(),
{
    if s.len() == 0 {
        Map::empty()
    } else {
        vassoc(s.drop_last()).insert(s.last().0, s.last().1@)
    }
}

pub proof fn lemma_vassoc_contains<T>(s: Seq<(H256, Vec<T>)>, k: H256)
    ensures
        vassoc(s).dom().contains(k) <==> exists|i: int| 0 <= i < s.len() && s[i].0 == k,
    decreases s.len(),
{
    if s.len() > 0 {
        lemma_vassoc_contains(s.drop_last(), k);
        if s.last().0 == k {
            assert(s[s.len() - 1].0 == k);
        } else if vassoc(s).dom().contains(k) {
            let i = choose|i: int| 0 <= i < s.drop_last().len() && s.drop_last()[i].0 == k;
            assert(s[i].0 == k);
        } else {
            assert forall|i: int| 0 <= i < s.len() implies s[i].0 != k by {
                if i < s.len() - 1 {
                    assert(s.drop_last()[i].0 == s[i].0);
                }
            }
        }
    }
}

pub proof fn lemma_vassoc_value<T>(s: Seq<(H256, Vec<T>)>, i: int)
    requires
        uniq_keys(s),
        0 <= i < s.len(),
    ensures
        vassoc(s).dom().contains(s[i].0),
        vassoc(s)[s[i].0] == s[i].1@,
    decreases s.len(),
{
    if i == s.len() - 1 {
        assert(s.last() == s[i]);
    } else {
        assert(s.drop_last()[i] == s[i]);
        lemma_vassoc_value(s.drop_last(), i);
        assert(s.last().0 != s[i].0);
    }
}

pub proof fn lemma_vassoc_update<T>(s: Seq<(H256, Vec<T>)>, i: int, v: Vec<T>)
    requires
        uniq_keys(s),
        0 <= i < s.len(),
    ensures
        vassoc(s.update(i, (s[i].0, v))) =~= vassoc(s).insert(s[i].0, v@),
    decreases s.len(),
{
    let t = s.update(i, (s[i].0, v));
    if i == s.len() - 1 {
        assert(t.drop_last() =~= s.drop_last());
        assert(t.last() == (s[i].0, v));
    } else {
        assert(t.drop_last() =~= s.drop_last().update(i, (s[i].0, v)));
        assert(s.drop_last()[i] == s[i]);
        lemma_vassoc_update(s.drop_last(), i, v);
        assert(t.last() == s.last());
        assert(s.last().0 != s[i].0);
    }
}

pub proof fn lemma_vassoc_remove<T>(s: Seq<(H256, Vec<T>)>, i: int)
    requires
        uniq_keys(s),
        0 <= i < s.len(),
    ensures
        vassoc(s.remove(i)) =~= vassoc(s).remove(s[i].0),
    decreases s.len(),
{
    let t = s.remove(i);
    if i == s.len() - 1 {
        assert(t =~= s.drop_last());
        lemma_vassoc_contains(s.drop_last(), s[i].0);
        assert forall|j: int| 0 <= j < s.drop_last().len() implies s.drop_last()[j].0 != s[i].0 by {
            assert(s[j].0 == s.drop_last()[j].0);
        }
        assert(!vassoc(s.drop_last()).dom().contains(s[i].0));
    } else {
        assert(t.drop_last() =~= s.drop_last().remove(i));
        assert(s.drop_last()[i] == s[i]);
        lemma_vassoc_remove(s.drop_last(), i);
        assert(t.last() == s.last());
        assert(s.last().0 != s[i].0);
    }
}

pub proof fn lemma_vassoc_push<T>(s: Seq<(H256, Vec<T>)>, k: H256, v: Vec<T>)
    ensures
        vassoc(s.push((k, v))) =~= vassoc(s).insert(k, v@),
{
    assert(s.push((k, v)).drop_last() =~= s);
}

impl<T: Copy> HVecMap<T> {
    pub closed spec fn view(&self) -> Map<H256, Seq<T>> {
        vassoc(self.entries@)
    }

    pub closed spec fn wf(&self) -> bool {
        uniq_keys(self.entries@)
    }

    pub fn new() -> (r: HVecMap<T>)
        ensures
            r.wf(),
            r@ == Map::<H256, Seq<T>>::empty(),
    {
        HVecMap { entries: Vec::new() }
    }

    /// Look up `k` and clone the bound list.
    #[verifier::loop_isolation(false)]
    pub fn get(&self, k: &H256) -> (r: Option<Vec<T>>)
        requires
            self.wf(),
        ensures
            match r {
                Some(v) => self@.dom().contains(*k) && self@[*k] == v@,
                None => !self@.dom().contains(*k),
            },
    {
        proof {
            lemma_vassoc_contains(self.entries@, *k);
        }
        let n = self.entries.len();
        let mut i: usize = 0;
        while i < n
            invariant
                0 <= i <= n,
                forall|j: int| 0 <= j < i ==> self.entries@[j].0 != *k,
            decreases n - i,
        {
            if self.entries[i].0 == *k {
                proof {
                    lemma_vassoc_value(self.entries@, i as int);
                }
                return Some(clone_items(&self.entries[i].1));
            }
            i += 1;
        }
        None
    }

    /// Look up a key that is known to be present and clone the bound list.
    pub fn at(&self, k: &H256) -> (r: Vec<T>)
        requires
            self.wf(),
            self@.dom().contains(*k),
        ensures
            r@ == self@[*k],
    {
        match self.get(k) {
            Some(v) => v,
            None => unreached(),
        }
    }

    /// Insert or replace the binding of `k`.
    #[verifier::loop_isolation(false)]
    pub fn insert(&mut self, k: H256, v: Vec<T>)
        requires
            old(self).wf(),
        ensures
            final(self).wf(),
            final(self)@ == old(self)@.insert(k, v@),
    {
        let n = self.entries.len();
        let mut i: usize = 0;
        while i < n
            invariant
                self.entries == old(self).entries,
                0 <= i <= n,
                forall|j: int| 0 <= j < i ==> self.entries@[j].0 != k,
            decreases n - i,
        {
            if self.entries[i].0 == k {
                proof {
                    lemma_vassoc_update(self.entries@, i as int, v);
                }
                self.entries[i] = (k, v);
                assert(uniq_keys(self.entries@));
                return;
            }
            i += 1;
        }
        proof {
            lemma_vassoc_push(self.entries@, k, v);
        }
        self.entries.push((k, v));
        assert(uniq_keys(self.entries@));
    }

    /// Remove the binding of `k`, if any.
    #[verifier::loop_isolation(false)]
    pub fn remove(&mut self, k: &H256)
        requires
            old(self).wf(),
        ensures
            final(self).wf(),
            final(self)@ == old(self)@.remove(*k),
    {
        let n = self.entries.len();
        let mut i: usize = 0;
        while i < n
            invariant
                self.entries == old(self).entries,
                0 <= i <= n,
                forall|j: int| 0 <= j < i ==> self.entries@[j].0 != *k,
            decreases n - i,
        {
            if self.entries[i].0 == *k {
                let ghost s0 = self.entries@;
                proof {
                    lemma_vassoc_remove(s0, i as int);
                    s0.remove_ensures(i as int);
                }
                self.entries.remove(i);
                assert(self.entries@ == s0.remove(i as int));
                assert forall|a: int, b: int| 0 <= a < b < self.entries@.len()
                    implies self.entries@[a].0 != self.entries@[b].0 by {
                    let a0: int = if a < i { a } else { a + 1 };
                    let b0: int = if b < i { b } else { b + 1 };
                    assert(self.entries@[a] == s0[a0]);
                    assert(self.entries@[b] == s0[b0]);
                }
                return;
            }
            i += 1;
        }
        proof {
            lemma_vassoc_contains(self.entries@, *k);
            assert(self@ =~= self@.remove(*k));
        }
    }
}

} // verus!

verus! {

/// The identifier under which a level is stored in an identifier-keyed map.
pub open spec fn level_key(l: u64) -> H256 {
    H256 { w0: 0u64, w1: 0u64, w2: 0u64, w3: l }
}

/// A map from levels to values.
pub struct LMap<V> {
    inner: HMap<V>,
}

impl<V: Copy> LMap<V> {
    pub closed spec fn view(&self) -> Map<u64, V> {
        Map::new(
            |l: u64| self.inner@.dom().contains(level_key(l)),
            |l: u64| self.inner@[level_key(l)],
        )
    }

    pub closed spec fn wf(&self) -> bool {
        self.inner.wf()
    }

    pub fn new() -> (r: LMap<V>)
        ensures
            r.wf(),
            r@ == Map::<u64, V>::empty(),
    {
        let r = LMap { inner: HMap::new() };
        proof {
            assert(r@ =~= Map::<u64, V>::empty());
        }
        r
    }

    pub fn get(&self, l: u64) -> (r: Option<V>)
        requires
            self.wf(),
        ensures
            match r {
                Some(v) => self@.dom().contains(l) && self@[l] == v,
                None => !self@.dom().contains(l),
            },
    {
        self.inner.get(&H256::from_low(l))
    }

    pub fn at(&self, l: u64) -> (r: V)
        requires
            self.wf(),
            self@.dom().contains(l),
        ensures
            r == self@[l],
    {
        self.inner.at(&H256::from_low(l))
    }

    pub fn insert(&mut self, l: u64, v: V)
        requires
            old(self).wf(),
        ensures
            final(self).wf(),
            final(self)@ == old(self)@.insert(l, v),
    {
        self.inner.insert(H256::from_low(l), v);
        proof {
            assert(self@ =~= old(self)@.insert(l, v));
        }
    }

    pub fn remove(&mut self, l: u64)
        requires
            old(self).wf(),
        ensures
            final(self).wf(),
            final(self)@ == old(self)@.remove(l),
    {
        self.inner.remove(&H256::from_low(l));
        proof {
            assert(self@ =~= old(self)@.remove(l));
        }
    }
}

/// A map from levels to lists of copyable items.
pub struct LVecMap<T> {
    inner: HVecMap<T>,
}

impl<T: Copy> LVecMap<T> {
    pub closed spec fn view(&self) -> Map<u64, Seq<T>> {
        Map::new(
            |l: u64| self.inner@.dom().contains(level_key(l)),
            |l: u64| self.inner@[level_key(l)],
        )
    }

    pub closed spec fn wf(&self) -> bool {
        self.inner.wf()
    }

    pub fn new() -> (r: LVecMap<T>)
        ensures
            r.wf(),
            r@ == Map::<u64, Seq<T>>::empty(),
    {
        let r = LVecMap { inner: HVecMap::new() };
        proof {
            assert(r@ =~= Map::<u64, Seq<T>>::empty());
        }
        r
    }

    pub fn get(&self, l: u64) -> (r: Option<Vec<T>>)
        requires
            self.wf(),
        ensures
            match r {
                Some(v) => self@.dom().contains(l) && self@[l] == v@,
                None => !self@.dom().contains(l),
            },
    {
        self.inner.get(&H256::from_low(l))
    }

    pub fn at(&self, l: u64) -> (r: Vec<T>)
        requires
            self.wf(),
            self@.dom().contains(l),
        ensures
            r@ == self@[l],
    {
        self.inner.at(&H256::from_low(l))
    }

    pub fn insert(&mut self, l: u64, v: Vec<T>)
        requires
            old(self).wf(),
        ensures
            final(self).wf(),
            final(self)@ == old(self)@.insert(l, v@),
    {
        self.inner.insert(H256::from_low(l), v);
        proof {
            assert(self@ =~= old(self)@.insert(l, v@));
        }
    }

    pub fn remove(&mut self, l: u64)
        requires
            old(self).wf(),
        ensures
            final(self).wf(),
            final(self)@ == old(self)@.remove(l),
    {
        self.inner.remove(&H256::from_low(l));
        proof {
            assert(self@ =~= old(self)@.remove(l));
        }
    }
}

/// A set of block identifiers.
pub struct HSet {
    items: Vec<H256>,
}

impl HSet {
    pub closed spec fn view(&self) -> Set<H256> {
        self.items@.to_set()
    }

    pub closed spec fn wf(&self) -> bool {
        self.items@.no_duplicates()
    }

    pub fn new() -> (r: HSet)
        ensures
            r.wf(),
            r@ == Set::<H256>::empty(),
    {
        let r = HSet { items: Vec::new() };
        proof {
            assert(r@ =~= Set::<H256>::empty());
        }
        r
    }

    #[verifier::loop_isolation(false)]
    pub fn contains(&self, x: &H256) -> (r: bool)
        requires
            self.wf(),
        ensures
            r == self@.contains(*x),
    {
        let n = self.items.len();
        let mut i: usize = 0;
        while i < n
            invariant
                0 <= i <= n,
                forall|j: int| 0 <= j < i ==> self.items@[j] != *x,
            decreases n - i,
        {
            if self.items[i] == *x {
                return true;
            }
            i += 1;
        }
        false
    }

    /// Add `x`; a no-op if it is already present.
    pub fn insert(&mut self, x: H256)
        requires
            old(self).wf(),
        ensures
            final(self).wf(),
            final(self)@ == old(self)@.insert(x),
    {
        if !self.contains(&x) {
            proof {
                self.items@.lemma_push_to_set_commute(x);
            }
            self.items.push(x);
        }
        proof {
            assert(self@ =~= old(self)@.insert(x));
        }
    }

    /// Remove `x`, reporting whether it was present.
    #[verifier::loop_isolation(false)]
    pub fn remove(&mut self, x: &H256) -> (r: bool)
        requires
            old(self).wf(),
        ensures
            final(self).wf(),
            r == old(self)@.contains(*x),
            final(self)@ == old(self)@.remove(*x),
            old(self)@.contains(*x) ==> final(self)@.len() == old(self)@.len() - 1,
            !old(self)@.contains(*x) ==> final(self)@.len() == old(self)@.len(),
    {
        proof {
            self.items@.unique_seq_to_set();
        }
        let n = self.items.len();
        let mut i: usize = 0;
        while i < n
            invariant
                self.items == old(self).items,
                0 <= i <= n,
                forall|j: int| 0 <= j < i ==> self.items@[j] != *x,
            decreases n - i,
        {
            if self.items[i] == *x {
                let ghost s0 = self.items@;
                proof {
                    s0.remove_ensures(i as int);
                }
                self.items.remove(i);
                assert(self.items@ == s0.remove(i as int));
                assert forall|a: int, b: int| 0 <= a < b < self.items@.len()
                    implies self.items@[a] != self.items@[b] by {
                    let a0: int = if a < i { a } else { a + 1 };
                    let b0: int = if b < i { b } else { b + 1 };
                    assert(self.items@[a] == s0[a0]);
                    assert(self.items@[b] == s0[b0]);
                }
                assert forall|y: H256| self.items@.to_set().contains(y)
                    implies s0.to_set().remove(*x).contains(y) by {
                    let j = choose|j: int| 0 <= j < self.items@.len() && self.items@[j] == y;
                    let j0: int = if j < i { j } else { j + 1 };
                    assert(s0[j0] == y);
                    assert(y != *x);
                }
                assert forall|y: H256| s0.to_set().remove(*x).contains(y)
                    implies self.items@.to_set().contains(y) by {
                    let j = choose|j: int| 0 <= j < s0.len() && s0[j] == y;
                    let j1: int = if j < i { j } else { j - 1 };
                    assert(self.items@[j1] == y);
                }
                assert(self.items@.to_set() =~= s0.to_set().remove(*x));
                proof {
                    self.items@.unique_seq_to_set();
                }
                return true;
            }
            i += 1;
        }
        proof {
            assert(self@ =~= self@.remove(*x));
        }
        false
    }

    pub fn len(&self) -> (r: usize)
        requires
            self.wf(),
        ensures
            r == self@.len(),
    {
        proof {
            self.items@.unique_seq_to_set();
        }
        self.items.len()
    }

    /// A snapshot of the members, without duplicates, in insertion order.
    pub fn to_vec(&self) -> (r: Vec<H256>)
        requires
            self.wf(),
        ensures
            r@.to_set() == self@,
            r@.no_duplicates(),
            r@.len() == self@.len(),
    {
        proof {
            self.items@.unique_seq_to_set();
        }
        clone_items(&self.items)
    }
}

/// A set of levels.
pub struct USet {
    items: Vec<u64>,
}

impl USet {
    pub closed spec fn view(&self) -> Set<u64> {
        self.items@.to_set()
    }

    pub closed spec fn wf(&self) -> bool {
        self.items@.no_duplicates()
    }

    pub fn new() -> (r: USet)
        ensures
            r.wf(),
            r@ == Set::<u64>::empty(),
    {
        let r = USet { items: Vec::new() };
        proof {
            assert(r@ =~= Set::<u64>::empty());
        }
        r
    }

    #[verifier::loop_isolation(false)]
    pub fn contains(&self, x: u64) -> (r: bool)
        requires
            self.wf(),
        ensures
            r == self@.contains(x),
    {
        let n = self.items.len();
        let mut i: usize = 0;
        while i < n
            invariant
                0 <= i <= n,
                forall|j: int| 0 <= j < i ==> self.items@[j] != x,
            decreases n - i,
        {
            if self.items[i] == x {
                return true;
            }
            i += 1;
        }
        false
    }

    /// Add `x`; a no-op if it is already present.
    pub fn insert(&mut self, x: u64)
        requires
            old(self).wf(),
        ensures
            final(self).wf(),
            final(self)@ == old(self)@.insert(x),
    {
        if !self.contains(x) {
            proof {
                self.items@.lemma_push_to_set_commute(x);
            }
            self.items.push(x);
        }
        proof {
            assert(self@ =~= old(self)@.insert(x));
        }
    }

    /// A snapshot of the members, without duplicates.
    pub fn to_vec(&self) -> (r: Vec<u64>)
        requires
            self.wf(),
        ensures
            r@.to_set() == self@,
            r@.no_duplicates(),
    {
        clone_items(&self.items)
    }
}

} // verus!
