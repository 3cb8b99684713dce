//! A small map from keys (socket addresses, tags) to values, kept as a
//! list of pairs in which no key occurs twice.

use vstd::prelude::*;
use crate::addr::Addr;

verus! {

/// A key that can be compared in executable code.
pub trait MapKey: Sized + Copy {
    fn same(&self, other: &Self) -> (r: bool)
        ensures
            r == (*self == *other),
    ;
}

impl MapKey for Addr {
    fn same(&self, other: &Self) -> (r: bool) {
        *self == *other
    }
}

impl MapKey for u64 {
    fn same(&self, other: &Self) -> (r: bool) {
        *self == *other
    }
}

impl MapKey for u128 {
    fn same(&self, other: &Self) -> (r: bool) {
        *self == *other
    }
}

/// No address occurs twice among the pairs.
pub open spec fn keys_unique<K, V>(s: Seq<(K, V)>) -> bool {
    forall|i: int, j: int| 0 <= i < j < s.len() ==> s[i].0 != s[j].0
}

/// The address occurs among the pairs.
pub open spec fn has_key<K, V>(s: Seq<(K, V)>, a: K) -> bool {
    exists|i: int| 0 <= i < s.len() && #[trigger] s[i].0 == a
}

/// The map that the pairs stand for.
pub open spec fn pairs_map<K, V>(s: Seq<(K, V)>) -> Map<K, V> {
    Map::new(|a: K| has_key(s, a), |a: K| s[choose|i: int| 0 <= i < s.len() && #[trigger] s[i].0 == a].1)
}

/// A map from keys to values.

pub struct AssocMap<K: MapKey, V> {
    entries: Vec<(K, V)>,
}

impl<K: MapKey, V> View for AssocMap<K, V> {
    type V = Map<K, V>;

    closed spec fn view(&self) -> Map<K, V> {
        pairs_map(self.entries@)
    }
}

proof fn lemma_pairs_at<K, V>(s: Seq<(K, V)>, i: int)
    requires
        keys_unique(s),
        0 <= i < s.len(),
    ensures
        pairs_map(s).contains_key(s[i].0),
        pairs_map(s)[s[i].0] == s[i].1,
{
    let a = s[i].0;
    assert(has_key(s, a));
    let j = choose|j: int| 0 <= j < s.len() && #[trigger] s[j].0 == a;
    assert(j == i);
}

proof fn lemma_pairs_push<K, V>(s: Seq<(K, V)>, a: K, v: V)
    requires
        keys_unique(s),
        !has_key(s, a),
    ensures
        keys_unique(s.push((a, v))),
        pairs_map(s.push((a, v))) == pairs_map(s).insert(a, v),
{
    let t = s.push((a, v));
    assert forall|i: int, j: int| 0 <= i < j < t.len() implies t[i].0 != t[j].0 by {
        if j == s.len() {
            assert(s[i].0 == t[i].0);
        }
    }
    assert forall|b: K| #[trigger] pairs_map(t).contains_key(b) == pairs_map(s).insert(a, v).contains_key(b) by {
        if has_key(t, b) && b != a {
            let i = choose|i: int| 0 <= i < t.len() && #[trigger] t[i].0 == b;
            assert(s[i].0 == b);
        }
        if has_key(s, b) {
            let i = choose|i: int| 0 <= i < s.len() && #[trigger] s[i].0 == b;
            assert(t[i].0 == b);
        }
        if b == a {
            assert(t[s.len() as int].0 == a);
        }
    }
    assert forall|b: K| #[trigger] pairs_map(t).contains_key(b) implies pairs_map(t)[b] == pairs_map(s).insert(a, v)[b] by {
        let i = choose|i: int| 0 <= i < t.len() && #[trigger] t[i].0 == b;
        lemma_pairs_at(t, i);
        if b != a {
            assert(i < s.len());
            lemma_pairs_at(s, i);
        } else {
            lemma_pairs_at(t, s.len() as int);
        }
    }
    assert(pairs_map(t) =~= pairs_map(s).insert(a, v));
}

proof fn lemma_pairs_update<K, V>(s: Seq<(K, V)>, i: int, v: V)
    requires
        keys_unique(s),
        0 <= i < s.len(),
    ensures
        keys_unique(s.update(i, (s[i].0, v))),
        pairs_map(s.update(i, (s[i].0, v))) == pairs_map(s).insert(s[i].0, v),
{
    let a = s[i].0;
    let t = s.update(i, (a, v));
    assert forall|j: int, k: int| 0 <= j < k < t.len() implies t[j].0 != t[k].0 by {
        assert(t[j].0 == s[j].0 && t[k].0 == s[k].0);
    }
    assert forall|b: K| #[trigger] pairs_map(t).contains_key(b) == pairs_map(s).insert(a, v).contains_key(b) by {
        if has_key(t, b) {
            let j = choose|j: int| 0 <= j < t.len() && #[trigger] t[j].0 == b;
            assert(s[j].0 == b);
        }
        if has_key(s, b) {
            let j = choose|j: int| 0 <= j < s.len() && #[trigger] s[j].0 == b;
            assert(t[j].0 == b);
        }
        if b == a {
            assert(t[i].0 == a);
        }
    }
    assert forall|b: K| #[trigger] pairs_map(t).contains_key(b) implies pairs_map(t)[b] == pairs_map(s).insert(a, v)[b] by {
        let j = choose|j: int| 0 <= j < t.len() && #[trigger] t[j].0 == b;
        lemma_pairs_at(t, j);
        if j != i {
            lemma_pairs_at(s, j);
        }
    }
    assert(pairs_map(t) =~= pairs_map(s).insert(a, v));
}

proof fn lemma_pairs_remove<K, V>(s: Seq<(K, V)>, i: int)
    requires
        keys_unique(s),
        0 <= i < s.len(),
    ensures
        keys_unique(s.remove(i)),
        pairs_map(s.remove(i)) == pairs_map(s).remove(s[i].0),
{
    let a = s[i].0;
    let t = s.remove(i);
    assert forall|j: int, k: int| 0 <= j < k < t.len() implies t[j].0 != t[k].0 by {
        let j2 = if j < i { j } else { j + 1 };
        let k2 = if k < i { k } else { k + 1 };
        assert(t[j] == s[j2] && t[k] == s[k2]);
    }
    assert forall|b: K| #[trigger] pairs_map(t).contains_key(b) == pairs_map(s).remove(a).contains_key(b) by {
        if has_key(t, b) {
            let j = choose|j: int| 0 <= j < t.len() && #[trigger] t[j].0 == b;
            let j2 = if j < i { j } else { j + 1 };
            assert(s[j2].0 == b);
            assert(j2 != i);
        }
        if has_key(s, b) && b != a {
            let j = choose|j: int| 0 <= j < s.len() && #[trigger] s[j].0 == b;
            assert(j != i);
            let j1 = if j < i { j } else { j - 1 };
            assert(t[j1].0 == b);
        }
    }
    assert forall|b: K| #[trigger] pairs_map(t).contains_key(b) implies pairs_map(t)[b] == pairs_map(s).remove(a)[b] by {
        let j = choose|j: int| 0 <= j < t.len() && #[trigger] t[j].0 == b;
        lemma_pairs_at(t, j);
        let j2 = if j < i { j } else { j + 1 };
        assert(s[j2] == t[j]);
        lemma_pairs_at(s, j2);
    }
    assert(pairs_map(t) =~= pairs_map(s).remove(a));
}

impl<K: MapKey, V> AssocMap<K, V> {
    #[verifier::type_invariant]
    closed spec fn inv(self) -> bool {
        keys_unique(self.entries@)
    }

    /// The number of addresses.
    pub closed spec fn spec_len(&self) -> nat {
        self.entries@.len()
    }

    /// An empty map.
    pub fn new() -> (r: Self)
        ensures
            r@ == Map::<K, V>::empty(),
            r.spec_len() == 0,
    {
        let r = AssocMap { entries: Vec::new() };
        assert(r@ =~= Map::<K, V>::empty());
        r
    }

    /// The number of addresses.
    pub fn len(&self) -> (r: usize)
        ensures
            r == self.spec_len(),
            self@.dom().finite(),
            r == self@.dom().len(),
    {
        proof {
            use_type_invariant(self);
            lemma_dom_len(self.entries@);
        }
        self.entries.len()
    }

    fn index_of(&self, a: &K) -> (r: Option<usize>)
        ensures
            r is Some ==> r.unwrap() < self.entries@.len() && self.entries@[r.unwrap() as int].0 == *a,
            r is None ==> !has_key(self.entries@, *a),
    {
        let mut i: usize = 0;
        while i < self.entries.len()
            invariant
                i <= self.entries@.len(),
                forall|j: int| 0 <= j < i ==> self.entries@[j].0 != *a,
            decreases self.entries@.len() - i,
        {
            if self.entries[i].0.same(a) {
                return Some(i);
            }
            i = i + 1;
        }
        None
    }

    /// The address is in the map.
    pub fn contains(&self, a: &K) -> (r: bool)
        ensures
            r == self@.contains_key(*a),
    {
        proof { use_type_invariant(self); }
        match self.index_of(a) {
            Some(i) => {
                proof { lemma_pairs_at(self.entries@, i as int); }
                true
            },
            None => false,
        }
    }

    /// The value of the address.
    pub fn get(&self, a: &K) -> (r: Option<&V>)
        ensures
            r is Some <==> self@.contains_key(*a),
            r is Some ==> *r.unwrap() == self@[*a],
    {
        proof { use_type_invariant(self); }
        match self.index_of(a) {
            Some(i) => {
                proof { lemma_pairs_at(self.entries@, i as int); }
                Some(&self.entries[i].1)
            },
            None => None,
        }
    }

    /// Sets the value of the address and gives the value it replaced.
    pub fn insert(&mut self, a: K, v: V) -> (r: Option<V>)
        ensures
            final(self)@ == old(self)@.insert(a, v),
            r is Some <==> old(self)@.contains_key(a),
            r is Some ==> r.unwrap() == old(self)@[a],
            final(self).spec_len() == old(self).spec_len() + if old(self)@.contains_key(a) { 0int } else { 1 },
    {
        proof { use_type_invariant(&*self); }
        match self.index_of(&a) {
            Some(i) => {
                proof {
                    lemma_pairs_at(self.entries@, i as int);
                    lemma_pairs_update(self.entries@, i as int, v);
                }
                let mut entries: Vec<(K, V)> = Vec::new();
                std::mem::swap(&mut entries, &mut self.entries);
                let (_, old_v) = entries.remove(i);
                entries.insert(i, (a, v));
                proof {
                    assert(entries@ =~= old(self).entries@.update(i as int, (a, v)));
                }
                self.entries = entries;
                Some(old_v)
            },
            None => {
                proof { lemma_pairs_push(self.entries@, a, v); }
                let mut entries: Vec<(K, V)> = Vec::new();
                std::mem::swap(&mut entries, &mut self.entries);
                entries.push((a, v));
                self.entries = entries;
                None
            },
        }
    }

    /// Removes the address and gives its value.
    pub fn remove(&mut self, a: &K) -> (r: Option<V>)
        ensures
            final(self)@ == old(self)@.remove(*a),
            r is Some <==> old(self)@.contains_key(*a),
            r is Some ==> r.unwrap() == old(self)@[*a],
            final(self).spec_len() == old(self).spec_len() - if old(self)@.contains_key(*a) { 1int } else { 0 },
    {
        proof { use_type_invariant(&*self); }
        match self.index_of(a) {
            Some(i) => {
                proof {
                    lemma_pairs_at(self.entries@, i as int);
                    lemma_pairs_remove(self.entries@, i as int);
                }
                let mut entries: Vec<(K, V)> = Vec::new();
                std::mem::swap(&mut entries, &mut self.entries);
                let (_, v) = entries.remove(i);
                self.entries = entries;
                Some(v)
            },
            None => {
                proof { assert(old(self)@.remove(*a) =~= old(self)@); }
                None
            },
        }
    }
}


impl<K: MapKey, V> AssocMap<K, V> {
    /// Keeps the addresses whose value `keep` accepts and drops the rest.
    pub fn retain<F: Fn(&V) -> bool>(&mut self, keep: F)
        requires
            forall|v: &V| #[trigger] keep.requires((v,)),
        ensures
            forall|a: K| #[trigger] final(self)@.contains_key(a) ==> old(self)@.contains_key(a) && final(self)@[a]
                == old(self)@[a] && keep.ensures((&old(self)@[a],), true),
            forall|a: K| #[trigger] old(self)@.contains_key(a) && !final(self)@.contains_key(a) ==> keep.ensures(
                (&old(self)@[a],),
                false,
            ),
    {
        proof { use_type_invariant(&*self); }
        let mut e: Vec<(K, V)> = Vec::new();
        std::mem::swap(&mut e, &mut self.entries);
        let ghost s = e@;
        let mut i: usize = 0;
        while i < e.len()
            invariant
                s == old(self).entries@,
                keys_unique(s),
                keys_unique(e@),
                i <= e@.len(),
                forall|v: &V| #[trigger] keep.requires((v,)),
                forall|a: K| #[trigger] pairs_map(e@).contains_key(a) ==> pairs_map(s).contains_key(a)
                    && pairs_map(e@)[a] == pairs_map(s)[a],
                forall|a: K| #[trigger] pairs_map(s).contains_key(a) && !pairs_map(e@).contains_key(a)
                    ==> keep.ensures((&pairs_map(s)[a],), false),
                forall|j: int| 0 <= j < i ==> keep.ensures((&e@[j].1,), true),
            decreases e@.len() - i,
        {
            let k = keep(&e[i].1);
            if k {
                i = i + 1;
            } else {
                proof {
                    lemma_pairs_at(e@, i as int);
                    lemma_pairs_remove(e@, i as int);
                    let a = e@[i as int].0;
                    assert(pairs_map(s)[a] == e@[i as int].1);
                }
                let ghost before = e@;
                e.remove(i);
                proof {
                    assert forall|j: int| 0 <= j < i implies keep.ensures((&e@[j].1,), true) by {
                        assert(e@[j] == before[j]);
                    }
                }
            }
        }
        proof {
            assert forall|a: K| #[trigger] pairs_map(e@).contains_key(a) implies keep.ensures((&pairs_map(s)[a],), true) by {
                let j = choose|j: int| 0 <= j < e@.len() && #[trigger] e@[j].0 == a;
                lemma_pairs_at(e@, j);
            }
        }
        self.entries = e;
    }
}

impl<K: MapKey, V> AssocMap<K, V> {
    /// The keys, each once.
    pub fn keys(&self) -> (r: Vec<K>)
        ensures
            forall|i: int| 0 <= i < r@.len() ==> self@.contains_key(#[trigger] r@[i]),
            forall|k: K| #[trigger] self@.contains_key(k) ==> r@.contains(k),
            forall|i: int, j: int| 0 <= i < j < r@.len() ==> r@[i] != r@[j],
    {
        proof { use_type_invariant(self); }
        let mut out: Vec<K> = Vec::new();
        let mut i: usize = 0;
        while i < self.entries.len()
            invariant
                i <= self.entries@.len(),
                keys_unique(self.entries@),
                out@.len() == i,
                forall|j: int| 0 <= j < i ==> out@[j] == self.entries@[j].0,
            decreases self.entries@.len() - i,
        {
            out.push(self.entries[i].0);
            i = i + 1;
        }
        proof {
            assert forall|j: int| 0 <= j < out@.len() implies self@.contains_key(#[trigger] out@[j]) by {
                lemma_pairs_at(self.entries@, j);
            }
            assert forall|k: K| #[trigger] self@.contains_key(k) implies out@.contains(k) by {
                let j = choose|j: int| 0 <= j < self.entries@.len() && #[trigger] self.entries@[j].0 == k;
                assert(out@[j] == k);
            }
        }
        out
    }
}

proof fn lemma_dom_len<K, V>(s: Seq<(K, V)>)
    requires
        keys_unique(s),
    ensures
        pairs_map(s).dom().finite(),
        pairs_map(s).dom().len() == s.len(),
    decreases s.len(),
{
    if s.len() == 0 {
        assert(pairs_map(s).dom() =~= Set::<K>::empty());
    } else {
        let d = s.drop_last();
        assert(keys_unique(d));
        lemma_dom_len(d);
        let l = s.last();
        assert(!has_key(d, l.0)) by {
            if has_key(d, l.0) {
                let i = choose|i: int| 0 <= i < d.len() && #[trigger] d[i].0 == l.0;
                assert(s[i].0 == s[s.len() - 1].0);
            }
        }
        lemma_pairs_push(d, l.0, l.1);
        assert(d.push(l) =~= s);
    }
}

/// A map from socket addresses to values.
pub type AddrMap<V> = AssocMap<Addr, V>;

} // verus!
