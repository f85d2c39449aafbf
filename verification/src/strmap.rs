//! A map keyed by text, kept as a list of entries in the order of their keys.

use crate::text::{
    before, lemma_text_lt_irreflexive, lemma_text_lt_total, lemma_text_lt_transitive, same, text_lt,
};
use vstd::prelude::*;

verus! {

/// A value that can be duplicated without changing what it stands for.
pub trait Dup: View + Sized {
    fn dup(&self) -> (r: Self)
        ensures
            r@ == self@,
    ;
}

impl Dup for String {
    fn dup(&self) -> (r: Self) {
        self.clone()
    }
}

/// The map that a list of entries stands for: a later entry overrides an
/// earlier one with the same key.
pub open spec fn map_of<X>(s: Seq<(Seq<char>, X)>) -> Map<Seq<char>, X>
    decreases s.len(),
{
    if s.len() == 0 {
        Map::empty()
    } else {
        map_of(s.drop_last()).insert(s.last().0, s.last().1)
    }
}

/// The keys of `s` rise strictly.
pub open spec fn rising<X>(s: Seq<(Seq<char>, X)>) -> bool {
    forall|i: int, j: int| 0 <= i < j < s.len() ==> text_lt(#[trigger] s[i].0, #[trigger] s[j].0)
}

/// `s` lists the entries of `m` in the order of their keys.
pub open spec fn lists<X>(s: Seq<(Seq<char>, X)>, m: Map<Seq<char>, X>) -> bool {
    rising(s) && map_of(s) == m
}

/// The entries of `m` in the order of their keys.
pub open spec fn listed<X>(m: Map<Seq<char>, X>) -> Seq<(Seq<char>, X)> {
    choose|s: Seq<(Seq<char>, X)>| lists(s, m)
}

/// `m` has a listing, as every map that a `StrMap` holds does.
pub open spec fn listable<X>(m: Map<Seq<char>, X>) -> bool {
    exists|s: Seq<(Seq<char>, X)>| lists(s, m)
}

/// The keys of the map are those of the list.
pub proof fn lemma_map_of_keys<X>(s: Seq<(Seq<char>, X)>, k: Seq<char>)
    ensures
        map_of(s).contains_key(k) <==> exists|i: int| 0 <= i < s.len() && (#[trigger] s[i]).0 == k,
    decreases s.len(),
{
    if s.len() > 0 {
        let d = s.drop_last();
        lemma_map_of_keys(d, k);
        if map_of(s).contains_key(k) {
            if s.last().0 == k {
                assert(s[s.len() - 1].0 == k);
            } else {
                let i = choose|i: int| 0 <= i < d.len() && (#[trigger] d[i]).0 == k;
                assert(s[i].0 == k);
            }
        }
        if exists|i: int| 0 <= i < s.len() && (#[trigger] s[i]).0 == k {
            let i = choose|i: int| 0 <= i < s.len() && (#[trigger] s[i]).0 == k;
            if i < d.len() {
                assert(d[i].0 == k);
            }
        }
    }
}

/// The map has each entry of a rising list.
pub proof fn lemma_map_of_at<X>(s: Seq<(Seq<char>, X)>, i: int)
    requires
        rising(s),
        0 <= i < s.len(),
    ensures
        map_of(s).contains_key(s[i].0),
        map_of(s)[s[i].0] == s[i].1,
    decreases s.len(),
{
    let d = s.drop_last();
    if i < d.len() {
        assert forall|a: int, b: int| 0 <= a < b < d.len() implies text_lt(
            #[trigger] d[a].0,
            #[trigger] d[b].0,
        ) by {
            assert(d[a] == s[a] && d[b] == s[b]);
        }
        lemma_map_of_at(d, i);
        assert(d[i] == s[i]);
        assert(text_lt(s[i].0, s[s.len() - 1].0));
        lemma_text_lt_irreflexive(s[i].0);
    }
}

/// Two listings of one map are the same.
pub proof fn lemma_listing_unique<X>(s: Seq<(Seq<char>, X)>, t: Seq<(Seq<char>, X)>)
    requires
        rising(s),
        rising(t),
        map_of(s) == map_of(t),
    ensures
        s == t,
    decreases s.len(),
{
    if s.len() == 0 {
        if t.len() > 0 {
            lemma_map_of_at(t, 0);
            assert(false);
        }
        assert(s =~= t);
    } else if t.len() == 0 {
        lemma_map_of_at(s, 0);
        assert(false);
    } else {
        let m = s.len() - 1;
        let n = t.len() - 1;
        lemma_map_of_at(s, m);
        lemma_map_of_at(t, n);
        lemma_map_of_keys(t, s[m].0);
        lemma_map_of_keys(s, t[n].0);
        let i = choose|i: int| 0 <= i < t.len() && (#[trigger] t[i]).0 == s[m].0;
        let j = choose|j: int| 0 <= j < s.len() && (#[trigger] s[j]).0 == t[n].0;
        if s[m].0 != t[n].0 {
            assert(i < n && j < m);
            assert(text_lt(t[i].0, t[n].0));
            assert(text_lt(s[j].0, s[m].0));
            lemma_text_lt_transitive(s[m].0, t[n].0, s[m].0);
            lemma_text_lt_irreflexive(s[m].0);
            assert(false);
        }
        let ds = s.drop_last();
        let dt = t.drop_last();
        assert forall|a: int, b: int| 0 <= a < b < ds.len() implies text_lt(
            #[trigger] ds[a].0,
            #[trigger] ds[b].0,
        ) by {
            assert(ds[a] == s[a] && ds[b] == s[b]);
        }
        assert forall|a: int, b: int| 0 <= a < b < dt.len() implies text_lt(
            #[trigger] dt[a].0,
            #[trigger] dt[b].0,
        ) by {
            assert(dt[a] == t[a] && dt[b] == t[b]);
        }
        let k = s[m].0;
        lemma_map_of_keys(ds, k);
        lemma_map_of_keys(dt, k);
        if map_of(ds).contains_key(k) {
            let a = choose|a: int| 0 <= a < ds.len() && (#[trigger] ds[a]).0 == k;
            assert(text_lt(s[a].0, s[m].0));
            lemma_text_lt_irreflexive(k);
        }
        if map_of(dt).contains_key(k) {
            let a = choose|a: int| 0 <= a < dt.len() && (#[trigger] dt[a]).0 == k;
            assert(text_lt(t[a].0, t[n].0));
            lemma_text_lt_irreflexive(k);
        }
        assert(map_of(ds) =~= map_of(s).remove(k));
        assert(map_of(dt) =~= map_of(t).remove(k));
        lemma_listing_unique(ds, dt);
        assert(s =~= ds.push(s[m]));
        assert(t =~= dt.push(t[n]));
    }
}

/// The listing of a map is the list it was made from.
pub proof fn lemma_listed<X>(s: Seq<(Seq<char>, X)>)
    requires
        rising(s),
    ensures
        listed(map_of(s)) == s,
        listable(map_of(s)),
{
    assert(lists(s, map_of(s)));
    lemma_listing_unique(listed(map_of(s)), s);
}

/// What the empty map and an entry more do to a listing's map.
pub proof fn lemma_map_of_eq<X>(s: Seq<(Seq<char>, X)>, m: Map<Seq<char>, X>)
    requires
        rising(s),
        forall|i: int| 0 <= i < s.len() ==> m.contains_key((#[trigger] s[i]).0) && m[s[i].0] == s[i].1,
        forall|k: Seq<char>| #[trigger]
            m.contains_key(k) ==> exists|i: int| 0 <= i < s.len() && (#[trigger] s[i]).0 == k,
    ensures
        map_of(s) == m,
{
    assert forall|k: Seq<char>| #[trigger] map_of(s).contains_key(k) <==> m.contains_key(k) by {
        lemma_map_of_keys(s, k);
    }
    assert forall|k: Seq<char>| #[trigger] map_of(s).contains_key(k) implies map_of(s)[k]
        == m[k] by {
        lemma_map_of_keys(s, k);
        let i = choose|i: int| 0 <= i < s.len() && (#[trigger] s[i]).0 == k;
        lemma_map_of_at(s, i);
    }
    assert(map_of(s) =~= m);
}

/// A map from text to `V`.
#[derive(Debug, PartialEq, Eq)]
pub struct StrMap<V> {
    entries: Vec<(String, V)>,
}

spec fn pairs<V: View>(e: Seq<(String, V)>) -> Seq<(Seq<char>, V::V)> {
    Seq::new(e.len(), |i: int| (e[i].0@, e[i].1@))
}

impl<V> StrMap<V> {
    #[verifier::type_invariant]
    spec fn in_order(self) -> bool {
        forall|i: int, j: int|
            0 <= i < j < self.entries@.len() ==> text_lt(
                #[trigger] self.entries@[i].0@,
                #[trigger] self.entries@[j].0@,
            )
    }
}

impl<V: View> View for StrMap<V> {
    type V = Map<Seq<char>, V::V>;

    closed spec fn view(&self) -> Map<Seq<char>, V::V> {
        map_of(pairs(self.entries@))
    }
}

impl<V: View> StrMap<V> {
    /// A map without entries.
    pub fn new() -> (r: Self)
        ensures
            r@ == Map::<Seq<char>, V::V>::empty(),
    {
        StrMap { entries: Vec::new() }
    }

    /// How many entries the map has.
    pub fn len(&self) -> (r: usize)
        ensures
            r == listed(self@).len(),
            listable(self@),
    {
        proof {
            use_type_invariant(self);
            lemma_listed(pairs(self.entries@));
        }
        self.entries.len()
    }

    /// Whether the map has no entry.
    pub fn is_empty(&self) -> (r: bool)
        ensures
            r == (self@ == Map::<Seq<char>, V::V>::empty()),
    {
        proof {
            if self.entries@.len() > 0 {
                use_type_invariant(self);
                lemma_map_of_at(pairs(self.entries@), 0);
            }
        }
        self.entries.len() == 0
    }

    /// The entry at position `i` in the order of the keys.
    pub fn at(&self, i: usize) -> (r: (&String, &V))
        requires
            i < listed(self@).len(),
        ensures
            (r.0@, r.1@) == listed(self@)[i as int],
            listable(self@),
    {
        proof {
            use_type_invariant(self);
            lemma_listed(pairs(self.entries@));
        }
        let e = &self.entries[i];
        (&e.0, &e.1)
    }

    /// The position of the first entry whose key is not before `k`.
    fn position(entries: &Vec<(String, V)>, k: &str) -> (p: usize)
        requires
            rising(pairs(entries@)),
        ensures
            p <= entries.len(),
            forall|i: int| 0 <= i < p ==> text_lt((#[trigger] entries@[i]).0@, k@),
            p < entries.len() ==> !text_lt(entries@[p as int].0@, k@),
    {
        let mut p: usize = 0;
        while p < entries.len() && before(entries[p].0.as_str(), k)
            invariant
                p <= entries.len(),
                forall|i: int| 0 <= i < p ==> text_lt((#[trigger] entries@[i]).0@, k@),
            decreases entries.len() - p,
        {
            p = p + 1;
        }
        p
    }

    /// The value at `k`.
    pub fn get(&self, k: &str) -> (r: Option<&V>)
        ensures
            match r {
                Some(v) => self@.contains_key(k@) && v@ == self@[k@],
                None => !self@.contains_key(k@),
            },
    {
        let ghost s = pairs(self.entries@);
        proof {
            use_type_invariant(self);
            lemma_map_of_keys(s, k@);
        }
        let mut i: usize = 0;
        while i < self.entries.len()
            invariant
                i <= self.entries.len(),
                s == pairs(self.entries@),
                rising(s),
                self@ == map_of(s),
                forall|j: int| 0 <= j < i ==> (#[trigger] s[j]).0 != k@,
            decreases self.entries.len() - i,
        {
            if same(self.entries[i].0.as_str(), k) {
                proof {
                    assert(s[i as int].0 == k@);
                    lemma_map_of_at(s, i as int);
                }
                return Some(&self.entries[i].1);
            }
            i = i + 1;
        }
        None
    }

    /// Whether the map has an entry at `k`.
    pub fn contains_key(&self, k: &str) -> (r: bool)
        ensures
            r == self@.contains_key(k@),
    {
        self.get(k).is_some()
    }

    /// Put `v` at `k`, in place of what stood there.
    pub fn insert(&mut self, k: String, v: V)
        ensures
            final(self)@ == old(self)@.insert(k@, v@),
    {
        proof {
            use_type_invariant(&*self);
        }
        let ghost s = pairs(self.entries@);
        let ghost m = self@;
        let mut e: Vec<(String, V)> = Vec::new();
        std::mem::swap(&mut e, &mut self.entries);
        let p = Self::position(&e, k.as_str());
        let ghost key = k@;
        let ghost val = v@;
        if p < e.len() && same(e[p].0.as_str(), k.as_str()) {
            e.set(p, (k, v));
            proof {
                assert(s[p as int].0 == key);
                assert(pairs(e@) =~= s.update(p as int, (key, val)));
                lemma_replace(s, p as int, key, val);
            }
        } else {
            e.insert(p, (k, v));
            proof {
                assert(pairs(e@) =~= s.insert(p as int, (key, val)));
                if p < s.len() {
                    lemma_text_lt_total(key, s[p as int].0);
                    assert(text_lt(key, s[p as int].0));
                }
                assert forall|i: int| 0 <= i < p implies text_lt((#[trigger] s[i]).0, key) by {}
                lemma_insert(s, p as int, key, val);
            }
        }
        proof {
            assert forall|i: int, j: int| 0 <= i < j < e@.len() implies text_lt(
                #[trigger] e@[i].0@,
                #[trigger] e@[j].0@,
            ) by {
                assert(text_lt(pairs(e@)[i].0, pairs(e@)[j].0));
            }
        }
        self.entries = e;
    }

    /// Take out the entry at `k`.
    pub fn remove(&mut self, k: &str) -> (r: Option<V>)
        ensures
            final(self)@ == old(self)@.remove(k@),
            match r {
                Some(v) => old(self)@.contains_key(k@) && v@ == old(self)@[k@],
                None => !old(self)@.contains_key(k@),
            },
    {
        proof {
            use_type_invariant(&*self);
        }
        let ghost s = pairs(self.entries@);
        let mut e: Vec<(String, V)> = Vec::new();
        std::mem::swap(&mut e, &mut self.entries);
        let p = Self::position(&e, k);
        if p < e.len() && same(e[p].0.as_str(), k) {
            let (gone, v) = e.remove(p);
            proof {
                assert(s[p as int].0 == k@);
                assert(pairs(e@) =~= s.remove(p as int));
                lemma_remove(s, p as int);
                lemma_map_of_at(s, p as int);
                assert forall|i: int, j: int| 0 <= i < j < e@.len() implies text_lt(
                    #[trigger] e@[i].0@,
                    #[trigger] e@[j].0@,
                ) by {
                    assert(text_lt(pairs(e@)[i].0, pairs(e@)[j].0));
                }
            }
            self.entries = e;
            Some(v)
        } else {
            proof {
                lemma_map_of_keys(s, k@);
                if map_of(s).contains_key(k@) {
                    let i = choose|i: int| 0 <= i < s.len() && (#[trigger] s[i]).0 == k@;
                    assert(s[i].0 == e@[i].0@);
                    lemma_text_lt_irreflexive(k@);
                    if i > p {
                        assert(text_lt(s[p as int].0, s[i].0));
                    }
                }
                assert(map_of(s) =~= map_of(s).remove(k@));
            }
            self.entries = e;
            None
        }
    }
}

impl<V: Dup> Dup for StrMap<V> {
    fn dup(&self) -> (r: Self) {
        proof {
            use_type_invariant(self);
        }
        let mut e: Vec<(String, V)> = Vec::new();
        let mut i: usize = 0;
        while i < self.entries.len()
            invariant
                i <= self.entries.len(),
                e@.len() == i,
                self.in_order(),
                forall|j: int|
                    0 <= j < i ==> (#[trigger] e@[j]).0@ == self.entries@[j].0@ && e@[j].1@
                        == self.entries@[j].1@,
            decreases self.entries.len() - i,
        {
            let x = &self.entries[i];
            e.push((x.0.clone(), x.1.dup()));
            i = i + 1;
        }
        proof {
            assert forall|i: int, j: int| 0 <= i < j < e@.len() implies text_lt(
                #[trigger] e@[i].0@,
                #[trigger] e@[j].0@,
            ) by {
                assert(text_lt(self.entries@[i].0@, self.entries@[j].0@));
            }
            assert(pairs(e@) =~= pairs(self.entries@));
        }
        StrMap { entries: e }
    }
}

proof fn lemma_replace<X>(s: Seq<(Seq<char>, X)>, p: int, k: Seq<char>, v: X)
    requires
        rising(s),
        0 <= p < s.len(),
        s[p].0 == k,
    ensures
        rising(s.update(p, (k, v))),
        map_of(s.update(p, (k, v))) == map_of(s).insert(k, v),
{
    let t = s.update(p, (k, v));
    let m = map_of(s).insert(k, v);
    assert forall|i: int, j: int| 0 <= i < j < t.len() implies text_lt(
        #[trigger] t[i].0,
        #[trigger] t[j].0,
    ) by {
        assert(text_lt(s[i].0, s[j].0));
    }
    assert forall|i: int| 0 <= i < t.len() implies m.contains_key((#[trigger] t[i]).0) && m[t[i].0]
        == t[i].1 by {
        lemma_map_of_at(s, i);
        if i != p {
            lemma_text_lt_irreflexive(k);
            if i < p {
                assert(text_lt(s[i].0, s[p].0));
            } else {
                assert(text_lt(s[p].0, s[i].0));
            }
        }
    }
    assert forall|q: Seq<char>| #[trigger] m.contains_key(q) implies exists|i: int|
        0 <= i < t.len() && (#[trigger] t[i]).0 == q by {
        lemma_map_of_keys(s, q);
        if q == k {
            assert(t[p].0 == q);
        } else {
            let i = choose|i: int| 0 <= i < s.len() && (#[trigger] s[i]).0 == q;
            assert(t[i].0 == q);
        }
    }
    lemma_map_of_eq(t, m);
}

proof fn lemma_insert<X>(s: Seq<(Seq<char>, X)>, p: int, k: Seq<char>, v: X)
    requires
        rising(s),
        0 <= p <= s.len(),
        forall|i: int| 0 <= i < p ==> text_lt((#[trigger] s[i]).0, k),
        p < s.len() ==> text_lt(k, s[p].0),
    ensures
        rising(s.insert(p, (k, v))),
        map_of(s.insert(p, (k, v))) == map_of(s).insert(k, v),
{
    let t = s.insert(p, (k, v));
    let m = map_of(s).insert(k, v);
    assert forall|i: int| p <= i < s.len() implies text_lt(k, (#[trigger] s[i]).0) by {
        if i > p {
            lemma_text_lt_transitive(k, s[p].0, s[i].0);
        }
    }
    assert forall|i: int, j: int| 0 <= i < j < t.len() implies text_lt(
        #[trigger] t[i].0,
        #[trigger] t[j].0,
    ) by {
        let a = if i > p { i - 1 } else { i };
        let b = if j > p { j - 1 } else { j };
        if i != p && j != p {
            assert(text_lt(s[a].0, s[b].0));
        } else if i == p {
            assert(text_lt(k, s[b].0));
        } else {
            assert(text_lt(s[a].0, k));
        }
    }
    assert forall|i: int| 0 <= i < t.len() implies m.contains_key((#[trigger] t[i]).0) && m[t[i].0]
        == t[i].1 by {
        let a = if i > p { i - 1 } else { i };
        if i != p {
            lemma_map_of_at(s, a);
            assert(t[i] == s[a]);
            lemma_text_lt_irreflexive(k);
            if a < p {
                assert(text_lt(s[a].0, k));
            } else {
                assert(text_lt(k, s[a].0));
            }
        }
    }
    assert forall|q: Seq<char>| #[trigger] m.contains_key(q) implies exists|i: int|
        0 <= i < t.len() && (#[trigger] t[i]).0 == q by {
        lemma_map_of_keys(s, q);
        if q == k {
            assert(t[p].0 == q);
        } else {
            let i = choose|i: int| 0 <= i < s.len() && (#[trigger] s[i]).0 == q;
            if i < p {
                assert(t[i].0 == q);
            } else {
                assert(t[i + 1].0 == q);
            }
        }
    }
    lemma_map_of_eq(t, m);
}

proof fn lemma_remove<X>(s: Seq<(Seq<char>, X)>, p: int)
    requires
        rising(s),
        0 <= p < s.len(),
    ensures
        rising(s.remove(p)),
        map_of(s.remove(p)) == map_of(s).remove(s[p].0),
{
    let t = s.remove(p);
    let k = s[p].0;
    let m = map_of(s).remove(k);
    assert forall|i: int, j: int| 0 <= i < j < t.len() implies text_lt(
        #[trigger] t[i].0,
        #[trigger] t[j].0,
    ) by {
        let a = if i >= p { i + 1 } else { i };
        let b = if j >= p { j + 1 } else { j };
        assert(text_lt(s[a].0, s[b].0));
    }
    assert forall|i: int| 0 <= i < t.len() implies m.contains_key((#[trigger] t[i]).0) && m[t[i].0]
        == t[i].1 by {
        let a = if i >= p { i + 1 } else { i };
        lemma_map_of_at(s, a);
        assert(t[i] == s[a]);
        lemma_text_lt_irreflexive(k);
        if a < p {
            assert(text_lt(s[a].0, s[p].0));
        } else {
            assert(text_lt(s[p].0, s[a].0));
        }
    }
    assert forall|q: Seq<char>| #[trigger] m.contains_key(q) implies exists|i: int|
        0 <= i < t.len() && (#[trigger] t[i]).0 == q by {
        lemma_map_of_keys(s, q);
        let i = choose|i: int| 0 <= i < s.len() && (#[trigger] s[i]).0 == q;
        if i < p {
            assert(t[i].0 == q);
        } else {
            assert(t[i - 1].0 == q);
        }
    }
    lemma_map_of_eq(t, m);
}

/// Whether two maps of texts are the same.
pub fn same_texts(a: &StrMap<String>, b: &StrMap<String>) -> (r: bool)
    ensures
        r == (a@ == b@),
{
    let n = a.len();
    let m = b.len();
    proof {
        assert(lists(listed(a@), a@));
        assert(lists(listed(b@), b@));
    }
    if n != m {
        return false;
    }
    let mut i: usize = 0;
    while i < n
        invariant
            i <= n,
            n == listed(a@).len(),
            n == listed(b@).len(),
            forall|j: int| 0 <= j < i ==> listed(a@)[j] == listed(b@)[j],
        decreases n - i,
    {
        let (k, x) = a.at(i);
        let (l, y) = b.at(i);
        if !(same(k.as_str(), l.as_str()) && same(x.as_str(), y.as_str())) {
            assert(listed(a@)[i as int] != listed(b@)[i as int]);
            return false;
        }
        i = i + 1;
    }
    assert(listed(a@) =~= listed(b@));
    true
}

/// The listing of a map has each of its entries once, in the order of their keys,
/// and nothing else.
pub proof fn law_listing_is_complete<X>(m: Map<Seq<char>, X>, k: Seq<char>)
    requires
        listable(m),
    ensures
        m.contains_key(k) <==> exists|i: int|
            0 <= i < listed(m).len() && (#[trigger] listed(m)[i]).0 == k,
        forall|i: int|
            0 <= i < listed(m).len() ==> m.contains_key((#[trigger] listed(m)[i]).0)
                && m[listed(m)[i].0] == listed(m)[i].1,
        forall|i: int, j: int|
            0 <= i < j < listed(m).len() ==> text_lt(
                (#[trigger] listed(m)[i]).0,
                (#[trigger] listed(m)[j]).0,
            ) && listed(m)[i].0 != listed(m)[j].0,
{
    let l = listed(m);
    assert(lists(l, m));
    lemma_map_of_keys(l, k);
    assert forall|i: int| 0 <= i < l.len() implies m.contains_key((#[trigger] l[i]).0) && m[l[i].0]
        == l[i].1 by {
        lemma_map_of_at(l, i);
    }
    assert forall|i: int, j: int| 0 <= i < j < l.len() implies text_lt(
        (#[trigger] l[i]).0,
        (#[trigger] l[j]).0,
    ) && l[i].0 != l[j].0 by {
        lemma_text_lt_irreflexive(l[i].0);
    }
}

} // verus!
