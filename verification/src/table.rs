//! A table of `String`-keyed entries kept in strictly increasing key order.
use vstd::prelude::*;
use vstd::utf8::encode_utf8;
use crate::keys::{bytes_lt, compare_bytes, KeyOrder, lemma_bytes_lt_irreflexive, lemma_bytes_lt_transitive, lemma_bytes_lt_total};

verus! {

/// Keys strictly increase along the sequence.
pub open spec fn keys_sorted<D>(s: Seq<(Seq<u8>, D)>) -> bool {
    forall|i: int, j: int| 0 <= i < j < s.len() ==> bytes_lt(#[trigger] s[i].0, #[trigger] s[j].0)
}

pub open spec fn has_key<D>(s: Seq<(Seq<u8>, D)>, k: Seq<u8>) -> bool {
    exists|i: int| 0 <= i < s.len() && #[trigger] s[i].0 == k
}

pub open spec fn key_index<D>(s: Seq<(Seq<u8>, D)>, k: Seq<u8>) -> int {
    choose|i: int| 0 <= i < s.len() && #[trigger] s[i].0 == k
}

/// The map from key to value that an association list denotes.
pub open spec fn assoc_map<D>(s: Seq<(Seq<u8>, D)>) -> Map<Seq<u8>, D> {
    Map::new(|k: Seq<u8>| has_key(s, k), |k: Seq<u8>| s[key_index(s, k)].1)
}

/// In a sorted list each key occurs at exactly one position.
pub proof fn lemma_sorted_key_index<D>(s: Seq<(Seq<u8>, D)>, i: int)
    requires
        keys_sorted(s),
        0 <= i < s.len(),
    ensures
        has_key(s, s[i].0),
        key_index(s, s[i].0) == i,
        assoc_map(s).contains_key(s[i].0),
        assoc_map(s)[s[i].0] == s[i].1,
{
    assert(s[i].0 == s[i].0);
    let j = key_index(s, s[i].0);
    if j < i {
        assert(bytes_lt(s[j].0, s[i].0));
        lemma_bytes_lt_irreflexive(s[i].0);
    } else if j > i {
        assert(bytes_lt(s[i].0, s[j].0));
        lemma_bytes_lt_irreflexive(s[i].0);
    }
}

/// Two sorted lists that denote the same map are the same list.
pub proof fn lemma_sorted_unique<D>(s: Seq<(Seq<u8>, D)>, t: Seq<(Seq<u8>, D)>)
    requires
        keys_sorted(s),
        keys_sorted(t),
        assoc_map(s) == assoc_map(t),
    ensures
        s == t,
    decreases s.len() + t.len(),
{
    if s.len() == 0 || t.len() == 0 {
        if s.len() > 0 {
            lemma_sorted_key_index(s, 0);
            assert(assoc_map(t).contains_key(s[0].0));
        }
        if t.len() > 0 {
            lemma_sorted_key_index(t, 0);
            assert(assoc_map(s).contains_key(t[0].0));
        }
        assert(s =~= t);
    } else {
        let ls = s.len() - 1;
        let lt = t.len() - 1;
        lemma_sorted_key_index(s, ls);
        lemma_sorted_key_index(t, lt);
        // the largest keys agree
        assert(assoc_map(t).contains_key(s[ls].0));
        assert(assoc_map(s).contains_key(t[lt].0));
        let a = key_index(t, s[ls].0);
        let b = key_index(s, t[lt].0);
        if s[ls].0 != t[lt].0 {
            lemma_bytes_lt_total(s[ls].0, t[lt].0);
            if bytes_lt(s[ls].0, t[lt].0) {
                assert(b < ls || b == ls);
                if b < ls {
                    lemma_bytes_lt_transitive(t[lt].0, s[ls].0, t[lt].0);
                    lemma_bytes_lt_irreflexive(t[lt].0);
                }
            } else {
                if a < lt {
                    lemma_bytes_lt_transitive(s[ls].0, t[lt].0, s[ls].0);
                    lemma_bytes_lt_irreflexive(s[ls].0);
                }
            }
        }
        assert(s[ls].0 == t[lt].0);
        assert(s[ls].1 == t[lt].1);
        let s2 = s.drop_last();
        let t2 = t.drop_last();
        assert(keys_sorted(s2));
        assert(keys_sorted(t2));
        assert forall|k: Seq<u8>| #![trigger assoc_map(s2).contains_key(k)] #![trigger assoc_map(t2).contains_key(k)]
            assoc_map(s2).contains_key(k) == assoc_map(t2).contains_key(k)
            && (assoc_map(s2).contains_key(k) ==> assoc_map(s2)[k] == assoc_map(t2)[k]) by {
            if assoc_map(s2).contains_key(k) {
                let i = key_index(s2, k);
                lemma_sorted_key_index(s2, i);
                lemma_sorted_key_index(s, i);
                assert(bytes_lt(s[i].0, s[ls].0));
                assert(k != t[lt].0) by { lemma_bytes_lt_irreflexive(k); }
                assert(assoc_map(t).contains_key(k));
                let j = key_index(t, k);
                lemma_sorted_key_index(t, j);
                assert(j != lt);
                assert(t2[j] == t[j]);
                lemma_sorted_key_index(t2, j);
            }
            if assoc_map(t2).contains_key(k) {
                let j = key_index(t2, k);
                lemma_sorted_key_index(t2, j);
                lemma_sorted_key_index(t, j);
                assert(bytes_lt(t[j].0, t[lt].0));
                assert(k != s[ls].0) by { lemma_bytes_lt_irreflexive(k); }
                assert(assoc_map(s).contains_key(k));
                let i = key_index(s, k);
                lemma_sorted_key_index(s, i);
                assert(i != ls);
                assert(s2[i] == s[i]);
                lemma_sorted_key_index(s2, i);
            }
        }
        assert(assoc_map(s2) =~= assoc_map(t2));
        lemma_sorted_unique(s2, t2);
        assert(s =~= s2.push(s[ls]));
        assert(t =~= t2.push(t[lt]));
    }
}

/// Entries keyed by `String`, kept sorted by the bytes of their keys.
pub struct KeyedTable<V> {
    entries: Vec<(String, V)>,
}

impl<V: DeepView> View for KeyedTable<V> {
    type V = Seq<(Seq<u8>, V::V)>;

    closed spec fn view(&self) -> Seq<(Seq<u8>, V::V)> {
        Seq::new(
            self.entries@.len(),
            |i: int| (encode_utf8(self.entries@[i].0@), self.entries@[i].1.deep_view()),
        )
    }
}

impl<V: DeepView> KeyedTable<V> {
    pub fn new() -> (t: Self)
        ensures
            t@ == Seq::<(Seq<u8>, V::V)>::empty(),
            keys_sorted(t@),
    {
        let t = KeyedTable { entries: Vec::new() };
        assert(t@ =~= Seq::<(Seq<u8>, V::V)>::empty());
        t
    }

    pub fn len(&self) -> (n: usize)
        ensures
            n == self@.len(),
    {
        self.entries.len()
    }

    pub fn key_at(&self, i: usize) -> (k: &String)
        requires
            i < self@.len(),
        ensures
            encode_utf8(k@) == self@[i as int].0,
    {
        &self.entries[i].0
    }

    pub fn value_at(&self, i: usize) -> (v: &V)
        requires
            i < self@.len(),
        ensures
            v.deep_view() == self@[i as int].1,
    {
        &self.entries[i].1
    }

    /// Position of `key`, or of the first larger key.
    pub fn find(&self, key: &[u8]) -> (res: (usize, bool))
        requires
            keys_sorted(self@),
        ensures
            res.0 <= self@.len(),
            forall|j: int| 0 <= j < res.0 ==> bytes_lt(#[trigger] self@[j].0, key@),
            res.1 ==> res.0 < self@.len() && self@[res.0 as int].0 == key@,
            !res.1 ==> forall|j: int| res.0 <= j < self@.len() ==> bytes_lt(key@, #[trigger] self@[j].0),
            res.1 == has_key(self@, key@),
    {
        let n = self.entries.len();
        let mut i: usize = 0;
        while i < n
            invariant
                n == self@.len(),
                i <= n,
                keys_sorted(self@),
                forall|j: int| 0 <= j < i ==> bytes_lt(#[trigger] self@[j].0, key@),
            decreases n - i,
        {
            let kb = self.entries[i].0.as_str().as_bytes();
            assert(kb@ == self@[i as int].0);
            match compare_bytes(kb, key) {
                KeyOrder::Less => {
                    i = i + 1;
                },
                KeyOrder::Equal => {
                    return (i, true);
                },
                KeyOrder::Greater => {
                    proof {
                        assert forall|j: int| i <= j < self@.len() implies bytes_lt(key@, #[trigger] self@[j].0) by {
                            if j > i {
                                lemma_bytes_lt_transitive(key@, self@[i as int].0, self@[j].0);
                            }
                        }
                        if has_key(self@, key@) {
                            let w = choose|w: int| 0 <= w < self@.len() && #[trigger] self@[w].0 == key@;
                            lemma_bytes_lt_irreflexive(key@);
                        }
                    }
                    return (i, false);
                },
            }
        }
        proof {
            if has_key(self@, key@) {
                let w = choose|w: int| 0 <= w < self@.len() && #[trigger] self@[w].0 == key@;
                lemma_bytes_lt_irreflexive(key@);
            }
        }
        (i, false)
    }

    /// Looks a key up by its bytes.
    pub fn get(&self, key: &[u8]) -> (r: Option<&V>)
        requires
            keys_sorted(self@),
        ensures
            r.is_some() == assoc_map(self@).contains_key(key@),
            r.is_some() ==> r.unwrap().deep_view() == assoc_map(self@)[key@],
    {
        let (pos, found) = self.find(key);
        if found {
            proof {
                lemma_sorted_key_index(self@, pos as int);
            }
            Some(&self.entries[pos].1)
        } else {
            None
        }
    }

    /// Sets the value under `key`, replacing any earlier one.
    pub fn insert(&mut self, key: String, value: V)
        requires
            keys_sorted(old(self)@),
        ensures
            keys_sorted(final(self)@),
            assoc_map(final(self)@) == assoc_map(old(self)@).insert(encode_utf8(key@), value.deep_view()),
            final(self)@.len() == old(self)@.len()
                + (if assoc_map(old(self)@).contains_key(encode_utf8(key@)) { 0int } else { 1int }),
    {
        let ghost old_s = self@;
        let ghost kb = encode_utf8(key@);
        let ghost vd = value.deep_view();
        let (pos, found) = self.find(key.as_str().as_bytes());
        if found {
            self.entries.set(pos, (key, value));
            proof {
                assert(self@ =~= old_s.update(pos as int, (kb, vd)));
                lemma_update_map(old_s, pos as int, kb, vd);
            }
        } else {
            self.entries.insert(pos, (key, value));
            proof {
                assert(self@ =~= old_s.insert(pos as int, (kb, vd)));
                lemma_insert_map(old_s, pos as int, kb, vd);
            }
        }
    }
}

proof fn lemma_update_map<D>(s: Seq<(Seq<u8>, D)>, pos: int, k: Seq<u8>, v: D)
    requires
        keys_sorted(s),
        0 <= pos < s.len(),
        s[pos].0 == k,
    ensures
        keys_sorted(s.update(pos, (k, v))),
        assoc_map(s.update(pos, (k, v))) == assoc_map(s).insert(k, v),
{
    let t = s.update(pos, (k, v));
    assert forall|i: int, j: int| 0 <= i < j < t.len() implies bytes_lt(#[trigger] t[i].0, #[trigger] t[j].0) by {
        assert(t[i].0 == s[i].0 && t[j].0 == s[j].0);
    }
    lemma_sorted_key_index(t, pos);
    assert forall|q: Seq<u8>| #![trigger assoc_map(t).contains_key(q)] q != k implies
        assoc_map(t).contains_key(q) == assoc_map(s).contains_key(q)
        && (assoc_map(t).contains_key(q) ==> assoc_map(t)[q] == assoc_map(s)[q]) by {
        if assoc_map(t).contains_key(q) {
            let i = key_index(t, q);
            lemma_sorted_key_index(t, i);
            assert(i != pos);
            assert(s[i] == t[i]);
            lemma_sorted_key_index(s, i);
        }
        if assoc_map(s).contains_key(q) {
            let i = key_index(s, q);
            lemma_sorted_key_index(s, i);
            assert(i != pos);
            assert(s[i] == t[i]);
            lemma_sorted_key_index(t, i);
        }
    }
    assert(assoc_map(t) =~= assoc_map(s).insert(k, v));
}

proof fn lemma_insert_map<D>(s: Seq<(Seq<u8>, D)>, pos: int, k: Seq<u8>, v: D)
    requires
        keys_sorted(s),
        0 <= pos <= s.len(),
        forall|j: int| 0 <= j < pos ==> bytes_lt(#[trigger] s[j].0, k),
        forall|j: int| pos <= j < s.len() ==> bytes_lt(k, #[trigger] s[j].0),
    ensures
        keys_sorted(s.insert(pos, (k, v))),
        assoc_map(s.insert(pos, (k, v))) == assoc_map(s).insert(k, v),
{
    let t = s.insert(pos, (k, v));
    assert forall|i: int, j: int| 0 <= i < j < t.len() implies bytes_lt(#[trigger] t[i].0, #[trigger] t[j].0) by {
        if j < pos {
        } else if j == pos {
            assert(t[i] == s[i]);
        } else if i == pos {
            assert(t[j] == s[j - 1]);
        } else if i < pos {
            assert(t[i] == s[i]);
            assert(t[j] == s[j - 1]);
            lemma_bytes_lt_transitive(s[i].0, k, s[j - 1].0);
        } else {
            assert(t[i] == s[i - 1]);
            assert(t[j] == s[j - 1]);
        }
    }
    lemma_sorted_key_index(t, pos);
    assert forall|q: Seq<u8>| #![trigger assoc_map(t).contains_key(q)] q != k implies
        assoc_map(t).contains_key(q) == assoc_map(s).contains_key(q)
        && (assoc_map(t).contains_key(q) ==> assoc_map(t)[q] == assoc_map(s)[q]) by {
        if assoc_map(t).contains_key(q) {
            let i = key_index(t, q);
            lemma_sorted_key_index(t, i);
            assert(i != pos);
            let i0 = if i < pos { i } else { i - 1 };
            assert(s[i0] == t[i]);
            lemma_sorted_key_index(s, i0);
        }
        if assoc_map(s).contains_key(q) {
            let i = key_index(s, q);
            lemma_sorted_key_index(s, i);
            let i1 = if i < pos { i } else { i + 1 };
            assert(s[i] == t[i1]);
            lemma_sorted_key_index(t, i1);
        }
    }
    assert(assoc_map(t) =~= assoc_map(s).insert(k, v));
}


impl<V: DeepView> KeyedTable<V> {
    /// Every stored key is the UTF-8 encoding of its `String`.
    pub proof fn lemma_keys_utf8(&self)
        ensures
            forall|i: int| 0 <= i < self@.len() ==> vstd::utf8::valid_utf8(#[trigger] self@[i].0),
    {
        assert forall|i: int| 0 <= i < self@.len() implies vstd::utf8::valid_utf8(#[trigger] self@[i].0) by {
            vstd::utf8::encode_utf8_valid_utf8(self.entries@[i].0@);
        }
    }

    /// Removes and returns the entry with the largest key.
    pub fn pop(&mut self) -> (r: Option<(String, V)>)
        requires
            keys_sorted(old(self)@),
        ensures
            keys_sorted(final(self)@),
            old(self)@.len() == 0 ==> r.is_none() && final(self)@ == old(self)@,
            old(self)@.len() > 0 ==> r.is_some() && final(self)@ == old(self)@.drop_last()
                && encode_utf8(r.unwrap().0@) == old(self)@.last().0
                && r.unwrap().1.deep_view() == old(self)@.last().1,
    {
        let ghost old_s = self@;
        let r = self.entries.pop();
        proof {
            if old_s.len() > 0 {
                assert(self@ =~= old_s.drop_last());
            } else {
                assert(self@ =~= old_s);
            }
        }
        r
    }
}

} // verus!
