//! `WordMap`: an ordered map keyed by words, kept as a vector of entries
//! sorted by key, with the operations of a `BTreeMap`; entries come out in
//! ascending key order.

use vstd::prelude::*;
use crate::word::{GraphNodeWord, WordOrder, WordView, lemma_word_order, word_lt};

verus! {

/// Keys strictly ascending: sorted, and no key twice.
pub open spec fn keys_sorted<V>(s: Seq<(WordView, V)>) -> bool {
    forall|i: int, j: int| 0 <= i < j < s.len() ==> word_lt(#[trigger] s[i].0, #[trigger] s[j].0)
}

/// The position where `k` is or would be inserted: the number of leading
/// entries whose key is below `k`.
pub open spec fn lower_bound<V>(s: Seq<(WordView, V)>, k: WordView) -> int
    decreases s.len(),
{
    if s.len() == 0 {
        0
    } else if word_lt(s.last().0, k) {
        s.len() as int
    } else {
        lower_bound(s.drop_last(), k)
    }
}

/// The value stored under `k`.
pub open spec fn pget<V>(s: Seq<(WordView, V)>, k: WordView) -> Option<V> {
    let j = lower_bound(s, k);
    if j < s.len() && s[j].0 == k {
        Some(s[j].1)
    } else {
        None
    }
}

/// `k` has an entry.
pub open spec fn pcontains<V>(s: Seq<(WordView, V)>, k: WordView) -> bool {
    pget(s, k) is Some
}

/// `BTreeMap::insert`: the value under an existing key is replaced (the key
/// stays), a new key is placed in order.
pub open spec fn pinsert<V>(s: Seq<(WordView, V)>, k: WordView, v: V) -> Seq<(WordView, V)> {
    let j = lower_bound(s, k);
    if j < s.len() && s[j].0 == k {
        s.update(j, (s[j].0, v))
    } else {
        s.insert(j, (k, v))
    }
}

/// `BTreeMap::remove`: the entry under `k`, if any, is taken out.
pub open spec fn premove<V>(s: Seq<(WordView, V)>, k: WordView) -> Seq<(WordView, V)> {
    let j = lower_bound(s, k);
    if j < s.len() && s[j].0 == k {
        s.remove(j)
    } else {
        s
    }
}

/// The lower bound splits a sorted sequence into the keys below `k` and the
/// others.
pub proof fn lemma_lower_bound<V>(s: Seq<(WordView, V)>, k: WordView)
    requires
        keys_sorted(s),
    ensures
        0 <= lower_bound(s, k) <= s.len(),
        forall|i: int| 0 <= i < lower_bound(s, k) ==> word_lt(#[trigger] s[i].0, k),
        forall|i: int| lower_bound(s, k) <= i < s.len() ==> !word_lt(#[trigger] s[i].0, k),
    decreases s.len(),
{
    if s.len() > 0 {
        if word_lt(s.last().0, k) {
            assert forall|i: int| 0 <= i < s.len() implies word_lt(#[trigger] s[i].0, k) by {
                if i < s.len() - 1 {
                    lemma_word_order(s[i].0, s.last().0, k);
                }
            }
        } else {
            lemma_lower_bound(s.drop_last(), k);
            assert forall|i: int| lower_bound(s, k) <= i < s.len() implies !word_lt(
                #[trigger] s[i].0,
                k,
            ) by {
                if i < s.len() - 1 {
                    assert(s[i] == s.drop_last()[i]);
                    lemma_word_order(k, s[i].0, s.last().0);
                    if word_lt(s[i].0, k) {
                        lemma_word_order(s[i].0, k, s.last().0);
                        lemma_word_order(s.last().0, s[i].0, k);
                    }
                }
            }
            assert forall|i: int| 0 <= i < lower_bound(s, k) implies word_lt(#[trigger] s[i].0, k) by {
                assert(s[i] == s.drop_last()[i]);
            }
        }
    }
}

/// In a sorted sequence, `pget` finds the entry with key `k` wherever it is.
pub proof fn lemma_pget_index<V>(s: Seq<(WordView, V)>, i: int)
    requires
        keys_sorted(s),
        0 <= i < s.len(),
    ensures
        pget(s, s[i].0) == Some(s[i].1),
        lower_bound(s, s[i].0) == i,
{
    let k = s[i].0;
    lemma_lower_bound(s, k);
    lemma_word_order(k, k, k);
    let j = lower_bound(s, k);
    if j < i {
        assert(word_lt(s[j].0, s[i].0));
    }
    if j > i {
        assert(word_lt(s[i].0, k));
    }
}

/// `pget` is `None` exactly when no entry has key `k`.
pub proof fn lemma_pget_none<V>(s: Seq<(WordView, V)>, k: WordView)
    requires
        keys_sorted(s),
    ensures
        pget(s, k) is None <==> (forall|i: int| 0 <= i < s.len() ==> #[trigger] s[i].0 != k),
{
    lemma_lower_bound(s, k);
    if pget(s, k) is None {
        assert forall|i: int| 0 <= i < s.len() implies #[trigger] s[i].0 != k by {
            if s[i].0 == k {
                lemma_pget_index(s, i);
            }
        }
    }
}

/// Inserting keeps the keys sorted.
pub proof fn lemma_pinsert_sorted<V>(s: Seq<(WordView, V)>, k: WordView, v: V)
    requires
        keys_sorted(s),
    ensures
        keys_sorted(pinsert(s, k, v)),
        pinsert(s, k, v).len() == if pcontains(s, k) {
            s.len()
        } else {
            s.len() + 1
        },
{
    lemma_lower_bound(s, k);
    let j = lower_bound(s, k);
    let t = pinsert(s, k, v);
    if j < s.len() && s[j].0 == k {
        assert forall|a: int, b: int| 0 <= a < b < t.len() implies word_lt(
            #[trigger] t[a].0,
            #[trigger] t[b].0,
        ) by {
            assert(t[a].0 == s[a].0);
            assert(t[b].0 == s[b].0);
        }
    } else {
        assert forall|a: int, b: int| 0 <= a < b < t.len() implies word_lt(
            #[trigger] t[a].0,
            #[trigger] t[b].0,
        ) by {
            if b < j {
                assert(t[a] == s[a] && t[b] == s[b]);
            } else if b == j {
                assert(t[a] == s[a]);
            } else if a == j {
                assert(t[b] == s[b - 1]);
                lemma_word_order(k, s[b - 1].0, k);
            } else if a < j {
                assert(t[a] == s[a] && t[b] == s[b - 1]);
            } else {
                assert(t[a] == s[a - 1] && t[b] == s[b - 1]);
            }
        }
    }
}

/// Removing keeps the keys sorted.
pub proof fn lemma_premove_sorted<V>(s: Seq<(WordView, V)>, k: WordView)
    requires
        keys_sorted(s),
    ensures
        keys_sorted(premove(s, k)),
        !pcontains(premove(s, k), k),
{
    lemma_lower_bound(s, k);
    let t = premove(s, k);
    let j = lower_bound(s, k);
    assert forall|a: int, b: int| 0 <= a < b < t.len() implies word_lt(
        #[trigger] t[a].0,
        #[trigger] t[b].0,
    ) by {
        if j < s.len() && s[j].0 == k {
            if b < j {
                assert(t[a] == s[a] && t[b] == s[b]);
            } else if a < j {
                assert(t[a] == s[a] && t[b] == s[b + 1]);
            } else {
                assert(t[a] == s[a + 1] && t[b] == s[b + 1]);
            }
        }
    }
    lemma_pget_none(t, k);
    assert forall|i: int| 0 <= i < t.len() implies #[trigger] t[i].0 != k by {
        if j < s.len() && s[j].0 == k {
            if i < j {
                assert(t[i] == s[i]);
                lemma_word_order(k, k, k);
            } else {
                assert(t[i] == s[i + 1]);
                lemma_word_order(k, k, k);
            }
        } else {
            assert(t[i] == s[i]);
            if s[i].0 == k {
                lemma_pget_index(s, i);
            }
        }
    }
}

/// The lower bound lies within the sequence.
pub proof fn lemma_lower_bound_range<V>(s: Seq<(WordView, V)>, k: WordView)
    ensures
        0 <= lower_bound(s, k) <= s.len(),
    decreases s.len(),
{
    if s.len() > 0 {
        lemma_lower_bound_range(s.drop_last(), k);
    }
}

/// Every value of `premove(s, k)` is a value of `s`: a property `p` of all
/// values of `s` holds of all values after the removal.
pub proof fn lemma_premove_values<V>(s: Seq<(WordView, V)>, k: WordView, p: spec_fn(V) -> bool)
    requires
        forall|i: int| 0 <= i < s.len() ==> p(#[trigger] s[i].1),
    ensures
        forall|i: int| 0 <= i < premove(s, k).len() ==> p(#[trigger] premove(s, k)[i].1),
{
    lemma_lower_bound_range(s, k);
    let t = premove(s, k);
    let j = lower_bound(s, k);
    assert forall|i: int| 0 <= i < t.len() implies p(#[trigger] t[i].1) by {
        if j < s.len() && s[j].0 == k {
            if i < j {
                assert(t[i] == s[i]);
            } else {
                assert(t[i] == s[i + 1]);
            }
        } else {
            assert(t[i] == s[i]);
        }
    }
}

/// A property `p` of all values of `s` and of `v` holds of all values of
/// `pinsert(s, k, v)`.
pub proof fn lemma_pinsert_values<V>(
    s: Seq<(WordView, V)>,
    k: WordView,
    v: V,
    p: spec_fn(V) -> bool,
)
    requires
        forall|i: int| 0 <= i < s.len() ==> p(#[trigger] s[i].1),
        p(v),
    ensures
        forall|i: int| 0 <= i < pinsert(s, k, v).len() ==> p(#[trigger] pinsert(s, k, v)[i].1),
{
    lemma_lower_bound_range(s, k);
    let t = pinsert(s, k, v);
    let j = lower_bound(s, k);
    assert forall|i: int| 0 <= i < t.len() implies p(#[trigger] t[i].1) by {
        if j < s.len() && s[j].0 == k {
            if i != j {
                assert(t[i] == s[i]);
            }
        } else {
            if i < j {
                assert(t[i] == s[i]);
            } else if i > j {
                assert(t[i] == s[i - 1]);
            }
        }
    }
}

/// The value that `pget` finds is one of the values of `s`.
pub proof fn lemma_pget_value<V>(s: Seq<(WordView, V)>, k: WordView, p: spec_fn(V) -> bool)
    requires
        forall|i: int| 0 <= i < s.len() ==> p(#[trigger] s[i].1),
    ensures
        pget(s, k) matches Some(v) ==> p(v),
{
    lemma_lower_bound_range(s, k);
    let j = lower_bound(s, k);
    if j < s.len() && s[j].0 == k {
        assert(p(s[j].1));
    }
}

/// What a read gives back after a write: the written value under the written
/// key, the earlier value under every other key.
pub proof fn lemma_get_after_insert<V>(s: Seq<(WordView, V)>, k: WordView, v: V, k2: WordView)
    requires
        keys_sorted(s),
    ensures
        pget(pinsert(s, k, v), k2) == if k2 == k {
            Some(v)
        } else {
            pget(s, k2)
        },
{
    lemma_lower_bound(s, k);
    lemma_pinsert_sorted(s, k, v);
    let t = pinsert(s, k, v);
    let j = lower_bound(s, k);
    let found = j < s.len() && s[j].0 == k;
    if k2 == k {
        lemma_pget_index(t, j);
    } else {
        match pget(s, k2) {
            Some(x) => {
                lemma_lower_bound(s, k2);
                let i = lower_bound(s, k2);
                lemma_pget_index(s, i);
                if found || i < j {
                    assert(t[i] == s[i]);
                    lemma_pget_index(t, i);
                } else {
                    assert(t[i + 1] == s[i]);
                    lemma_pget_index(t, i + 1);
                }
            },
            None => {
                lemma_pget_none(s, k2);
                lemma_pget_none(t, k2);
                assert forall|i: int| 0 <= i < t.len() implies #[trigger] t[i].0 != k2 by {
                    if found {
                        if i != j {
                            assert(t[i] == s[i]);
                        }
                    } else if i < j {
                        assert(t[i] == s[i]);
                    } else if i > j {
                        assert(t[i] == s[i - 1]);
                    }
                }
            },
        }
    }
}

/// What a read gives back after a removal: nothing under the removed key,
/// the earlier value under every other key.
pub proof fn lemma_get_after_remove<V>(s: Seq<(WordView, V)>, k: WordView, k2: WordView)
    requires
        keys_sorted(s),
    ensures
        pget(premove(s, k), k2) == if k2 == k {
            None
        } else {
            pget(s, k2)
        },
{
    lemma_lower_bound(s, k);
    lemma_premove_sorted(s, k);
    let t = premove(s, k);
    let j = lower_bound(s, k);
    let found = j < s.len() && s[j].0 == k;
    if k2 != k {
        match pget(s, k2) {
            Some(x) => {
                lemma_lower_bound(s, k2);
                let i = lower_bound(s, k2);
                lemma_pget_index(s, i);
                if !found || i < j {
                    assert(t[i] == s[i]);
                    lemma_pget_index(t, i);
                } else {
                    assert(i != j);
                    assert(t[i - 1] == s[i]);
                    lemma_pget_index(t, i - 1);
                }
            },
            None => {
                lemma_pget_none(s, k2);
                lemma_pget_none(t, k2);
                assert forall|i: int| 0 <= i < t.len() implies #[trigger] t[i].0 != k2 by {
                    if found && i >= j {
                        assert(t[i] == s[i + 1]);
                    } else {
                        assert(t[i] == s[i]);
                    }
                }
            },
        }
    }
}

/// An ordered map from words to values.
pub struct WordMap<V> {
    entries: Vec<(GraphNodeWord, V)>,
}

/// The entries of a vector of key/value pairs, by view.
pub open spec fn entry_pairs<V: DeepView>(e: Seq<(GraphNodeWord, V)>) -> Seq<(WordView, V::V)> {
    e.map_values(|p: (GraphNodeWord, V)| (p.0@, p.1.deep_view()))
}

impl<V: DeepView> View for WordMap<V> {
    type V = Seq<(WordView, V::V)>;

    /// The entries in ascending key order.
    closed spec fn view(&self) -> Seq<(WordView, V::V)> {
        entry_pairs(self.entries@)
    }
}

impl<V: DeepView> WordMap<V> {
    /// The map's invariant: keys strictly ascending.
    pub open spec fn wf(&self) -> bool {
        keys_sorted(self@)
    }

    /// `BTreeMap::new`.
    pub fn new() -> (m: Self)
        ensures
            m@ == Seq::<(WordView, V::V)>::empty(),
            m.wf(),
    {
        let m = WordMap { entries: Vec::new() };
        assert(m@ =~= Seq::<(WordView, V::V)>::empty());
        m
    }

    /// `BTreeMap::len`.
    pub fn len(&self) -> (n: usize)
        ensures
            n == self@.len(),
    {
        self.entries.len()
    }

    /// The key of the `i`-th entry.
    pub fn key_at(&self, i: usize) -> (k: &GraphNodeWord)
        requires
            i < self@.len(),
        ensures
            k@ == self@[i as int].0,
    {
        &self.entries[i].0
    }

    /// The value of the `i`-th entry.
    pub fn value_at(&self, i: usize) -> (v: &V)
        requires
            i < self@.len(),
        ensures
            v.deep_view() == self@[i as int].1,
    {
        &self.entries[i].1
    }

    /// Replaces the value of the `i`-th entry; its key stays.
    pub fn set_value_at(&mut self, i: usize, v: V)
        requires
            i < old(self)@.len(),
        ensures
            final(self)@ == old(self)@.update(i as int, (old(self)@[i as int].0, v.deep_view())),
    {
        let ghost vv = v.deep_view();
        let (key, _old) = self.entries.remove(i);
        self.entries.insert(i, (key, v));
        assert(self@ =~= old(self)@.update(i as int, (old(self)@[i as int].0, vv)));
    }

    /// Binary search: `Ok(j)` where the key is at `j`, `Err(j)` where it
    /// would be inserted at `j`.
    pub fn find(&self, k: &GraphNodeWord) -> (r: Result<usize, usize>)
        requires
            self.wf(),
        ensures
            r matches Ok(j) ==> j == lower_bound(self@, k@) && j < self@.len() && self@[j as int].0
                == k@,
            r matches Err(j) ==> j == lower_bound(self@, k@) && !(j < self@.len() && self@[j as int].0
                == k@),
    {
        proof {
            lemma_lower_bound(self@, k@);
        }
        let ghost lb = lower_bound(self@, k@);
        let mut lo: usize = 0;
        let mut hi: usize = self.entries.len();
        while lo < hi
            invariant
                self.wf(),
                self@.len() == self.entries@.len(),
                lb == lower_bound(self@, k@),
                0 <= lo <= lb <= hi <= self@.len(),
                forall|i: int| 0 <= i < lb ==> word_lt(#[trigger] self@[i].0, k@),
                forall|i: int| lb <= i < self@.len() ==> !word_lt(#[trigger] self@[i].0, k@),
            decreases hi - lo,
        {
            let mid = lo + (hi - lo) / 2;
            assert(self.entries@[mid as int].0@ == self@[mid as int].0);
            match self.entries[mid].0.compare(k) {
                WordOrder::Less => {
                    lo = mid + 1;
                },
                _ => {
                    hi = mid;
                },
            }
        }
        if lo < self.entries.len() {
            assert(self.entries@[lo as int].0@ == self@[lo as int].0);
            match self.entries[lo].0.compare(k) {
                WordOrder::Same => Ok(lo),
                _ => Err(lo),
            }
        } else {
            Err(lo)
        }
    }

    /// `BTreeMap::get`.
    pub fn get(&self, k: &GraphNodeWord) -> (r: Option<&V>)
        requires
            self.wf(),
        ensures
            r matches Some(v) ==> pget(self@, k@) == Some(v.deep_view()),
            r is None ==> pget(self@, k@) is None,
    {
        match self.find(k) {
            Ok(j) => Some(&self.entries[j].1),
            Err(_) => None,
        }
    }

    /// `BTreeMap::contains_key`.
    pub fn contains_key(&self, k: &GraphNodeWord) -> (b: bool)
        requires
            self.wf(),
        ensures
            b == pcontains(self@, k@),
    {
        self.find(k).is_ok()
    }

    /// `BTreeMap::insert`: returns the value that was under `k`.
    pub fn insert(&mut self, k: GraphNodeWord, v: V) -> (r: Option<V>)
        requires
            old(self).wf(),
        ensures
            final(self).wf(),
            final(self)@ == pinsert(old(self)@, k@, v.deep_view()),
            r matches Some(x) ==> pget(old(self)@, k@) == Some(x.deep_view()),
            r is None ==> pget(old(self)@, k@) is None,
    {
        let ghost vv = v.deep_view();
        let ghost kv = k@;
        proof {
            lemma_pinsert_sorted(self@, k@, v.deep_view());
            lemma_lower_bound(self@, k@);
        }
        match self.find(&k) {
            Ok(j) => {
                let (key, old_v) = self.entries.remove(j);
                self.entries.insert(j, (key, v));
                assert(self@ =~= pinsert(old(self)@, kv, vv));
                Some(old_v)
            },
            Err(j) => {
                self.entries.insert(j, (k, v));
                assert(self@ =~= pinsert(old(self)@, kv, vv));
                None
            },
        }
    }

    /// `BTreeMap::remove`: takes out and returns the value under `k`.
    pub fn remove(&mut self, k: &GraphNodeWord) -> (r: Option<V>)
        requires
            old(self).wf(),
        ensures
            final(self).wf(),
            final(self)@ == premove(old(self)@, k@),
            r matches Some(x) ==> pget(old(self)@, k@) == Some(x.deep_view()),
            r is None ==> pget(old(self)@, k@) is None,
    {
        proof {
            lemma_premove_sorted(self@, k@);
        }
        match self.find(k) {
            Ok(j) => {
                let (_key, old_v) = self.entries.remove(j);
                assert(self@ =~= premove(old(self)@, k@));
                Some(old_v)
            },
            Err(_) => None,
        }
    }

    /// Appends an entry whose key is above every key in the map.
    pub fn push_last(&mut self, k: GraphNodeWord, v: V)
        requires
            old(self).wf(),
            old(self)@.len() == 0 || word_lt(old(self)@.last().0, k@),
        ensures
            final(self).wf(),
            final(self)@ == old(self)@.push((k@, v.deep_view())),
    {
        let ghost kv = k@;
        let ghost vv = v.deep_view();
        self.entries.push((k, v));
        assert(self@ =~= old(self)@.push((kv, vv)));
        assert forall|i: int, j: int| 0 <= i < j < self@.len() implies word_lt(
            #[trigger] self@[i].0,
            #[trigger] self@[j].0,
        ) by {
            if j == self@.len() - 1 && i < j {
                if i < old(self)@.len() - 1 {
                    lemma_word_order(self@[i].0, old(self)@.last().0, kv);
                }
            }
        }
    }
}

} // verus!
