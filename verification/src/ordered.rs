//! Ordered maps and sets kept as sorted vectors.
//!
//! Keys are compared through their views with a strict total order, so
//! iteration visits keys in increasing order, as a `BTreeMap` does.
use vstd::prelude::*;

use crate::text::{
    KeyOrder, chars_lt, compare_text, lemma_chars_lt_irreflexive, lemma_chars_lt_total,
    lemma_chars_lt_transitive, owned_text,
};

verus! {

/// A key with a strict total order on its view.
pub trait SortKey: View + Sized {
    spec fn precedes(a: Self::V, b: Self::V) -> bool;

    proof fn lemma_precedes_irreflexive(a: Self::V)
        ensures
            !Self::precedes(a, a),
    ;

    proof fn lemma_precedes_transitive(a: Self::V, b: Self::V, c: Self::V)
        requires
            Self::precedes(a, b),
            Self::precedes(b, c),
        ensures
            Self::precedes(a, c),
    ;

    proof fn lemma_precedes_total(a: Self::V, b: Self::V)
        ensures
            a == b || Self::precedes(a, b) || Self::precedes(b, a),
    ;

    fn order_with(&self, other: &Self) -> (r: KeyOrder)
        ensures
            (r == KeyOrder::Before) == Self::precedes(self@, other@),
            (r == KeyOrder::Same) == (self@ == other@),
            (r == KeyOrder::After) == Self::precedes(other@, self@),
    ;

    fn duplicate(&self) -> (r: Self)
        ensures
            r@ == self@,
    ;
}

impl SortKey for u64 {
    open spec fn precedes(a: u64, b: u64) -> bool {
        a < b
    }

    proof fn lemma_precedes_irreflexive(a: u64) {
    }

    proof fn lemma_precedes_transitive(a: u64, b: u64, c: u64) {
    }

    proof fn lemma_precedes_total(a: u64, b: u64) {
    }

    fn order_with(&self, other: &u64) -> (r: KeyOrder) {
        if *self < *other {
            KeyOrder::Before
        } else if *self == *other {
            KeyOrder::Same
        } else {
            KeyOrder::After
        }
    }

    fn duplicate(&self) -> (r: u64) {
        *self
    }
}

impl SortKey for String {
    open spec fn precedes(a: Seq<char>, b: Seq<char>) -> bool {
        chars_lt(a, b)
    }

    proof fn lemma_precedes_irreflexive(a: Seq<char>) {
        lemma_chars_lt_irreflexive(a);
    }

    proof fn lemma_precedes_transitive(a: Seq<char>, b: Seq<char>, c: Seq<char>) {
        lemma_chars_lt_transitive(a, b, c);
    }

    proof fn lemma_precedes_total(a: Seq<char>, b: Seq<char>) {
        lemma_chars_lt_total(a, b);
    }

    fn order_with(&self, other: &String) -> (r: KeyOrder) {
        compare_text(self.as_str(), other.as_str())
    }

    fn duplicate(&self) -> (r: String) {
        owned_text(self.as_str())
    }
}

/// Whether the keys of `s` strictly increase.
pub open spec fn keys_increase<K: SortKey, V>(s: Seq<(K::V, V)>) -> bool {
    forall|i: int, j: int| 0 <= i < j < s.len() ==> K::precedes(#[trigger] s[i].0, #[trigger] s[j].0)
}

/// Whether some pair of `s` has key `k`.
pub open spec fn has_key<KV, V>(s: Seq<(KV, V)>, k: KV) -> bool {
    exists|i: int| 0 <= i < s.len() && #[trigger] s[i].0 == k
}

/// The map a sequence of pairs with distinct keys describes.
pub open spec fn pairs_map<KV, V>(s: Seq<(KV, V)>) -> Map<KV, V> {
    Map::new(
        |k: KV| has_key(s, k),
        |k: KV| s[choose|i: int| 0 <= i < s.len() && #[trigger] s[i].0 == k].1,
    )
}

pub proof fn lemma_keys_distinct<K: SortKey, V>(s: Seq<(K::V, V)>, i: int, j: int)
    requires
        keys_increase::<K, V>(s),
        0 <= i < s.len(),
        0 <= j < s.len(),
        s[i].0 == s[j].0,
    ensures
        i == j,
{
    if i < j || j < i {
        K::lemma_precedes_irreflexive(s[i].0);
    }
}

/// The pair at `i` is what the map gives for its key.
pub proof fn lemma_pairs_map_at<K: SortKey, V>(s: Seq<(K::V, V)>, i: int)
    requires
        keys_increase::<K, V>(s),
        0 <= i < s.len(),
    ensures
        pairs_map(s).contains_key(s[i].0),
        pairs_map(s)[s[i].0] == s[i].1,
{
    assert(has_key(s, s[i].0));
    let j = choose|j: int| 0 <= j < s.len() && #[trigger] s[j].0 == s[i].0;
    lemma_keys_distinct::<K, V>(s, i, j);
}

/// Replacing the value at position `i` keeps the key order and changes the
/// map only at that key.
pub proof fn lemma_update_value<K: SortKey, V>(s: Seq<(K::V, V)>, i: int, v: V)
    requires
        keys_increase::<K, V>(s),
        0 <= i < s.len(),
    ensures
        keys_increase::<K, V>(s.update(i, (s[i].0, v))),
        pairs_map(s.update(i, (s[i].0, v))) == pairs_map(s).insert(s[i].0, v),
{
    let t = s.update(i, (s[i].0, v));
    let kv = s[i].0;
    assert forall|a: int, b: int| 0 <= a < b < t.len() implies K::precedes(
        #[trigger] t[a].0,
        #[trigger] t[b].0,
    ) by {
        assert(t[a].0 == s[a].0);
        assert(t[b].0 == s[b].0);
    }
    assert forall|k: K::V| #[trigger] has_key(t, k) == (has_key(s, k) || k == kv) by {
        if has_key(t, k) {
            let j = choose|j: int| 0 <= j < t.len() && #[trigger] t[j].0 == k;
            assert(s[j].0 == k);
        }
        if has_key(s, k) {
            let j = choose|j: int| 0 <= j < s.len() && #[trigger] s[j].0 == k;
            assert(t[j].0 == k);
        }
        if k == kv {
            assert(t[i].0 == k);
        }
    }
    assert forall|k: K::V| #[trigger] pairs_map(t).contains_key(k) implies pairs_map(t)[k]
        == pairs_map(s).insert(kv, v)[k] by {
        let j = choose|j: int| 0 <= j < t.len() && #[trigger] t[j].0 == k;
        lemma_pairs_map_at::<K, V>(t, j);
        if j != i {
            assert(s[j] == t[j]);
            lemma_pairs_map_at::<K, V>(s, j);
            if k == kv {
                lemma_keys_distinct::<K, V>(s, i, j);
            }
        }
    }
    assert(pairs_map(t) =~= pairs_map(s).insert(kv, v));
}

/// The elements of `s` whose flag equals `keep`, in order.
pub open spec fn pick<T>(s: Seq<T>, flags: Seq<bool>, keep: bool) -> Seq<T>
    decreases s.len(),
{
    if s.len() == 0 {
        Seq::empty()
    } else {
        let rest = pick(s.drop_last(), flags, keep);
        if flags[s.len() - 1] == keep {
            rest.push(s.last())
        } else {
            rest
        }
    }
}

/// Picking by flags that follow a predicate is filtering by it.
pub proof fn lemma_pick_filter<T>(s: Seq<T>, flags: Seq<bool>, pred: spec_fn(T) -> bool)
    requires
        flags.len() >= s.len(),
        forall|i: int| 0 <= i < s.len() ==> flags[i] == pred(#[trigger] s[i]),
    ensures
        pick(s, flags, true) == s.filter(pred),
        pick(s, flags, false) == s.filter(|x: T| !pred(x)),
    decreases s.len(),
{
    reveal_with_fuel(Seq::<_>::filter, 1);
    if s.len() > 0 {
        lemma_pick_filter(s.drop_last(), flags, pred);
        assert(flags[s.len() - 1] == pred(s[s.len() - 1]));
    }
}

proof fn lemma_pick_increasing<K: SortKey, V>(s: Seq<(K::V, V)>, flags: Seq<bool>, keep: bool)
    requires
        keys_increase::<K, V>(s),
    ensures
        keys_increase::<K, V>(pick(s, flags, keep)),
        forall|i: int| 0 <= i < pick(s, flags, keep).len() ==> s.contains(#[trigger] pick(s, flags, keep)[i]),
    decreases s.len(),
{
    if s.len() > 0 {
        let d = s.drop_last();
        assert(keys_increase::<K, V>(d)) by {
            assert forall|a: int, b: int| 0 <= a < b < d.len() implies K::precedes(
                #[trigger] d[a].0,
                #[trigger] d[b].0,
            ) by {
                assert(d[a] == s[a] && d[b] == s[b]);
            }
        }
        lemma_pick_increasing::<K, V>(d, flags, keep);
        let r = pick(d, flags, keep);
        let t = pick(s, flags, keep);
        assert forall|i: int| 0 <= i < r.len() implies K::precedes(#[trigger] r[i].0, s.last().0) by {
            assert(d.contains(r[i]));
            let j = choose|j: int| 0 <= j < d.len() && d[j] == r[i];
            assert(s[j] == r[i]);
        }
        assert forall|a: int, b: int| 0 <= a < b < t.len() implies K::precedes(
            #[trigger] t[a].0,
            #[trigger] t[b].0,
        ) by {
            assert(t[a] == r[a]);
            if b < r.len() {
                assert(t[b] == r[b]);
            }
        }
        assert forall|i: int| 0 <= i < pick(s, flags, keep).len() implies s.contains(
            #[trigger] pick(s, flags, keep)[i],
        ) by {
            if i < r.len() {
                assert(t[i] == r[i]);
                assert(d.contains(r[i]));
                let j = choose|j: int| 0 <= j < d.len() && d[j] == r[i];
                assert(s[j] == t[i]);
            } else {
                assert(s[s.len() - 1] == t[i]);
            }
        }
    } else {
        assert(pick(s, flags, keep) =~= Seq::<(K::V, V)>::empty());
    }
}

/// A map from ordered keys, iterated in increasing key order.
#[derive(Debug, Clone)]
pub struct SortedMap<K, V> {
    entries: Vec<(K, V)>,
}

impl<K: SortKey, V> SortedMap<K, V> {
    /// The (key view, value) pairs in iteration order.
    pub closed spec fn pairs(&self) -> Seq<(K::V, V)> {
        self.entries@.map_values(|e: (K, V)| (e.0@, e.1))
    }

    pub open spec fn wf(&self) -> bool {
        keys_increase::<K, V>(self.pairs())
    }

    pub open spec fn as_map(&self) -> Map<K::V, V> {
        pairs_map(self.pairs())
    }

    pub open spec fn key_seq(&self) -> Seq<K::V> {
        self.pairs().map_values(|p: (K::V, V)| p.0)
    }

    pub fn new() -> (m: Self)
        ensures
            m.wf(),
            m.pairs() == Seq::<(K::V, V)>::empty(),
            m.as_map() == Map::<K::V, V>::empty(),
    {
        let m = SortedMap { entries: Vec::new() };
        assert(m.pairs() =~= Seq::<(K::V, V)>::empty());
        assert(m.as_map() =~= Map::<K::V, V>::empty());
        m
    }

    pub fn len(&self) -> (n: usize)
        ensures
            n == self.pairs().len(),
    {
        self.entries.len()
    }

    pub fn is_empty(&self) -> (b: bool)
        ensures
            b == (self.pairs().len() == 0),
    {
        self.entries.len() == 0
    }

    pub fn key_at(&self, i: usize) -> (k: &K)
        requires
            i < self.pairs().len(),
        ensures
            k@ == self.pairs()[i as int].0,
    {
        &self.entries[i].0
    }

    pub fn value_at(&self, i: usize) -> (v: &V)
        requires
            i < self.pairs().len(),
        ensures
            *v == self.pairs()[i as int].1,
    {
        &self.entries[i].1
    }

    pub fn value_at_mut(&mut self, i: usize) -> (v: &mut V)
        requires
            i < old(self).pairs().len(),
        ensures
            *v == old(self).pairs()[i as int].1,
            final(self).pairs() == old(self).pairs().update(
                i as int,
                (old(self).pairs()[i as int].0, *final(v)),
            ),
    {
        &mut self.entries[i].1
    }

    /// Position of `key`, if present.
    pub fn find(&self, key: &K) -> (r: Option<usize>)
        requires
            self.wf(),
        ensures
            match r {
                Some(i) => i < self.pairs().len() && self.pairs()[i as int].0 == key@,
                None => !self.as_map().contains_key(key@),
            },
            r is Some == self.as_map().contains_key(key@),
    {
        let mut i: usize = 0;
        while i < self.entries.len()
            invariant
                i <= self.pairs().len(),
                self.pairs().len() == self.entries@.len(),
                forall|j: int| 0 <= j < i ==> self.pairs()[j].0 != key@,
            decreases self.entries@.len() - i,
        {
            match self.entries[i].0.order_with(key) {
                KeyOrder::Same => {
                    assert(self.pairs()[i as int].0 == key@);
                    return Some(i);
                },
                _ => {
                    assert(self.pairs()[i as int].0 != key@);
                },
            }
            i = i + 1;
        }
        None
    }

    pub fn contains_key(&self, key: &K) -> (b: bool)
        requires
            self.wf(),
        ensures
            b == self.as_map().contains_key(key@),
    {
        self.find(key).is_some()
    }

    pub fn get(&self, key: &K) -> (r: Option<&V>)
        requires
            self.wf(),
        ensures
            match r {
                Some(v) => self.as_map().contains_key(key@) && *v == self.as_map()[key@],
                None => !self.as_map().contains_key(key@),
            },
    {
        match self.find(key) {
            Some(i) => {
                proof {
                    lemma_pairs_map_at::<K, V>(self.pairs(), i as int);
                }
                Some(&self.entries[i].1)
            },
            None => None,
        }
    }

    /// Position at which `key` belongs: every earlier key precedes it and no
    /// later key does.
    fn position(&self, key: &K) -> (i: usize)
        requires
            self.wf(),
        ensures
            i <= self.pairs().len(),
            forall|j: int| 0 <= j < i ==> K::precedes(#[trigger] self.pairs()[j].0, key@),
            forall|j: int|
                i <= j < self.pairs().len() ==> !K::precedes(#[trigger] self.pairs()[j].0, key@),
    {
        let mut i: usize = 0;
        while i < self.entries.len()
            invariant
                self.wf(),
                i <= self.pairs().len(),
                self.pairs().len() == self.entries@.len(),
                forall|j: int| 0 <= j < i ==> K::precedes(#[trigger] self.pairs()[j].0, key@),
            decreases self.entries@.len() - i,
        {
            match self.entries[i].0.order_with(key) {
                KeyOrder::Before => {},
                _ => {
                    assert forall|j: int| i <= j < self.pairs().len() implies !K::precedes(
                        #[trigger] self.pairs()[j].0,
                        key@,
                    ) by {
                        if K::precedes(self.pairs()[j].0, key@) {
                            if j > i {
                                K::lemma_precedes_transitive(
                                    self.pairs()[i as int].0,
                                    self.pairs()[j].0,
                                    key@,
                                );
                            }
                            K::lemma_precedes_irreflexive(key@);
                            if self.pairs()[i as int].0 != key@ {
                                K::lemma_precedes_transitive(
                                    key@,
                                    self.pairs()[i as int].0,
                                    key@,
                                );
                            }
                        }
                    }
                    return i;
                },
            }
            i = i + 1;
        }
        i
    }

    /// Inserts `value` under `key`, returning the value it replaces.
    pub fn insert(&mut self, key: K, value: V) -> (r: Option<V>)
        requires
            old(self).wf(),
        ensures
            final(self).wf(),
            final(self).as_map() == old(self).as_map().insert(key@, value),
            match r {
                Some(v) => old(self).as_map().contains_key(key@) && v == old(self).as_map()[key@],
                None => !old(self).as_map().contains_key(key@),
            },
            old(self).as_map().contains_key(key@) ==> final(self).key_seq() == old(
                self,
            ).key_seq(),
    {
        let ghost kv = key@;
        let ghost s = self.pairs();
        let i = self.position(&key);
        proof {
            K::lemma_precedes_irreflexive(kv);
        }
        if i < self.entries.len() {
            let same = match self.entries[i].0.order_with(&key) {
                KeyOrder::Same => true,
                _ => false,
            };
            if same {
                let old_entry = self.entries.remove(i);
                self.entries.insert(i, (key, value));
                proof {
                    lemma_pairs_map_at::<K, V>(s, i as int);
                    assert(self.pairs() =~= s.update(i as int, (kv, value)));
                    lemma_update_value::<K, V>(s, i as int, value);
                    assert(self.key_seq() =~= s.map_values(|p: (K::V, V)| p.0));
                }
                return Some(old_entry.1);
            }
        }
        self.entries.insert(i, (key, value));
        proof {
            assert(self.pairs() =~= s.insert(i as int, (kv, value)));
            assert(!has_key(s, kv)) by {
                if has_key(s, kv) {
                    let j = choose|j: int| 0 <= j < s.len() && #[trigger] s[j].0 == kv;
                    if j < i {
                    } else if j > i {
                        K::lemma_precedes_total(s[i as int].0, kv);
                        K::lemma_precedes_transitive(kv, s[i as int].0, s[j].0);
                    }
                }
            }
            self.lemma_insert_new_key(s, i as int, kv, value);
        }
        None
    }

    /// Removes the entry at position `i`.
    pub fn remove_at(&mut self, i: usize) -> (r: (K, V))
        requires
            old(self).wf(),
            i < old(self).pairs().len(),
        ensures
            final(self).wf(),
            final(self).pairs() == old(self).pairs().remove(i as int),
            final(self).as_map() == old(self).as_map().remove(old(self).pairs()[i as int].0),
            r.0@ == old(self).pairs()[i as int].0,
            r.1 == old(self).pairs()[i as int].1,
    {
        let ghost s = self.pairs();
        let r = self.entries.remove(i);
        proof {
            let t = self.pairs();
            assert(t =~= s.remove(i as int));
            assert forall|a: int, b: int| 0 <= a < b < t.len() implies K::precedes(
                #[trigger] t[a].0,
                #[trigger] t[b].0,
            ) by {
                if b < i {
                    assert(t[a] == s[a] && t[b] == s[b]);
                } else if a < i {
                    assert(t[a] == s[a] && t[b] == s[b + 1]);
                } else {
                    assert(t[a] == s[a + 1] && t[b] == s[b + 1]);
                }
            }
            let kv = s[i as int].0;
            assert forall|k: K::V| #[trigger] has_key(t, k) == (has_key(s, k) && k != kv) by {
                if has_key(t, k) {
                    let j = choose|j: int| 0 <= j < t.len() && #[trigger] t[j].0 == k;
                    if j < i {
                        assert(s[j].0 == k);
                        if k == kv {
                            lemma_keys_distinct::<K, V>(s, j, i as int);
                        }
                    } else {
                        assert(s[j + 1].0 == k);
                        if k == kv {
                            lemma_keys_distinct::<K, V>(s, j + 1, i as int);
                        }
                    }
                }
                if has_key(s, k) && k != kv {
                    let j = choose|j: int| 0 <= j < s.len() && #[trigger] s[j].0 == k;
                    if j < i {
                        assert(t[j].0 == k);
                    } else {
                        assert(j != i);
                        assert(t[j - 1].0 == k);
                    }
                }
            }
            assert forall|k: K::V| #[trigger] pairs_map(t).contains_key(k) implies pairs_map(t)[k]
                == pairs_map(s).remove(kv)[k] by {
                let j = choose|j: int| 0 <= j < t.len() && #[trigger] t[j].0 == k;
                lemma_pairs_map_at::<K, V>(t, j);
                if j < i {
                    assert(t[j] == s[j]);
                    lemma_pairs_map_at::<K, V>(s, j);
                } else {
                    assert(t[j] == s[j + 1]);
                    lemma_pairs_map_at::<K, V>(s, j + 1);
                }
            }
            assert(self.as_map() =~= pairs_map(s).remove(kv));
        }
        r
    }

    /// Keeps the entries whose flag is `true` and returns the others, both in
    /// key order.
    pub fn partition_by(&mut self, keep: &Vec<bool>) -> (removed: Vec<(K, V)>)
        requires
            old(self).wf(),
            keep@.len() == old(self).pairs().len(),
        ensures
            final(self).wf(),
            final(self).pairs() == pick(old(self).pairs(), keep@, true),
            removed@.map_values(|e: (K, V)| (e.0@, e.1)) == pick(old(self).pairs(), keep@, false),
    {
        let ghost s = self.pairs();
        let mut kept: Vec<(K, V)> = Vec::new();
        let mut removed: Vec<(K, V)> = Vec::new();
        let mut rest: Vec<(K, V)> = Vec::new();
        std::mem::swap(&mut rest, &mut self.entries);
        assert(rest@.map_values(|e: (K, V)| (e.0@, e.1)) == s);
        let n = rest.len();
        let mut taken: Vec<(K, V)> = Vec::new();
        while rest.len() > 0
            invariant
                rest@.len() + taken@.len() == n,
                n == s.len(),
                forall|i: int| 0 <= i < rest@.len() ==> (#[trigger] rest@[i].0)@ == s[i].0 && rest@[i].1 == s[i].1,
                forall|i: int| 0 <= i < taken@.len() ==> (#[trigger] taken@[i].0)@ == s[n - 1 - i].0 && taken@[i].1 == s[n - 1 - i].1,
            decreases rest@.len(),
        {
            let e = rest.pop().unwrap();
            taken.push(e);
        }
        let mut i: usize = 0;
        while taken.len() > 0
            invariant
                taken@.len() + i == n,
                n == s.len(),
                keep@.len() == n,
                forall|j: int| 0 <= j < taken@.len() ==> (#[trigger] taken@[j].0)@ == s[n - 1 - j].0 && taken@[j].1 == s[n - 1 - j].1,
                kept@.map_values(|e: (K, V)| (e.0@, e.1)) == pick(s.take(i as int), keep@, true),
                removed@.map_values(|e: (K, V)| (e.0@, e.1)) == pick(s.take(i as int), keep@, false),
            decreases taken@.len(),
        {
            let e = taken.pop().unwrap();
            assert(s.take(i + 1).drop_last() =~= s.take(i as int));
            assert(s.take(i + 1).last() == s[i as int]);
            if keep[i] {
                kept.push(e);
                assert(kept@.map_values(|e: (K, V)| (e.0@, e.1)) =~= pick(s.take(i as int), keep@, true).push(s[i as int]));
                assert(removed@.map_values(|e: (K, V)| (e.0@, e.1)) =~= pick(s.take(i + 1), keep@, false));
            } else {
                removed.push(e);
                assert(removed@.map_values(|e: (K, V)| (e.0@, e.1)) =~= pick(s.take(i as int), keep@, false).push(s[i as int]));
                assert(kept@.map_values(|e: (K, V)| (e.0@, e.1)) =~= pick(s.take(i + 1), keep@, true));
            }
            i = i + 1;
        }
        assert(s.take(n as int) =~= s);
        self.entries = kept;
        proof {
            lemma_pick_increasing::<K, V>(s, keep@, true);
        }
        removed
    }

    /// Removes `key`, returning its value.
    pub fn remove(&mut self, key: &K) -> (r: Option<V>)
        requires
            old(self).wf(),
        ensures
            final(self).wf(),
            final(self).as_map() == old(self).as_map().remove(key@),
            match r {
                Some(v) => old(self).as_map().contains_key(key@) && v == old(self).as_map()[key@],
                None => !old(self).as_map().contains_key(key@) && final(self).pairs() == old(
                    self,
                ).pairs(),
            },
    {
        match self.find(key) {
            Some(i) => {
                proof {
                    lemma_pairs_map_at::<K, V>(self.pairs(), i as int);
                }
                let (_, v) = self.remove_at(i);
                Some(v)
            },
            None => {
                assert(self.as_map().remove(key@) =~= self.as_map());
                None
            },
        }
    }

    proof fn lemma_insert_new_key(&self, s: Seq<(K::V, V)>, i: int, kv: K::V, value: V)
        requires
            keys_increase::<K, V>(s),
            0 <= i <= s.len(),
            forall|j: int| 0 <= j < i ==> K::precedes(#[trigger] s[j].0, kv),
            forall|j: int| i <= j < s.len() ==> !K::precedes(#[trigger] s[j].0, kv),
            !has_key(s, kv),
            self.pairs() == s.insert(i, (kv, value)),
        ensures
            self.wf(),
            self.as_map() == pairs_map(s).insert(kv, value),
    {
        let t = self.pairs();
        assert forall|j: int| i <= j < s.len() implies K::precedes(kv, #[trigger] s[j].0) by {
            K::lemma_precedes_total(s[j].0, kv);
            assert(s[j].0 != kv);
        }
        assert forall|a: int, b: int| 0 <= a < b < t.len() implies K::precedes(
            #[trigger] t[a].0,
            #[trigger] t[b].0,
        ) by {
            if b < i {
                assert(t[a] == s[a] && t[b] == s[b]);
            } else if b == i {
                assert(t[a] == s[a]);
            } else if a < i {
                assert(t[a] == s[a] && t[b] == s[b - 1]);
                K::lemma_precedes_transitive(s[a].0, kv, s[b - 1].0);
            } else if a == i {
                assert(t[b] == s[b - 1]);
            } else {
                assert(t[a] == s[a - 1] && t[b] == s[b - 1]);
            }
        }
        assert forall|k: K::V| #[trigger] has_key(t, k) == (has_key(s, k) || k == kv) by {
            if has_key(t, k) {
                let j = choose|j: int| 0 <= j < t.len() && #[trigger] t[j].0 == k;
                if j < i {
                    assert(s[j].0 == k);
                } else if j > i {
                    assert(s[j - 1].0 == k);
                }
            }
            if has_key(s, k) {
                let j = choose|j: int| 0 <= j < s.len() && #[trigger] s[j].0 == k;
                if j < i {
                    assert(t[j].0 == k);
                } else {
                    assert(t[j + 1].0 == k);
                }
            }
            if k == kv {
                assert(t[i].0 == k);
            }
        }
        assert forall|k: K::V| #[trigger] pairs_map(t).contains_key(k) implies pairs_map(t)[k]
            == pairs_map(s).insert(kv, value)[k] by {
            let j = choose|j: int| 0 <= j < t.len() && #[trigger] t[j].0 == k;
            lemma_pairs_map_at::<K, V>(t, j);
            if j < i {
                assert(t[j] == s[j]);
                lemma_pairs_map_at::<K, V>(s, j);
            } else if j > i {
                assert(t[j] == s[j - 1]);
                lemma_pairs_map_at::<K, V>(s, j - 1);
            }
        }
        assert(self.as_map() =~= pairs_map(s).insert(kv, value));
    }
}

/// Whether the views in `s` strictly increase.
pub open spec fn increasing<K: SortKey>(s: Seq<K::V>) -> bool {
    forall|i: int, j: int| 0 <= i < j < s.len() ==> K::precedes(#[trigger] s[i], #[trigger] s[j])
}

/// Filtering keeps a strictly increasing sequence increasing, and keeps only
/// elements of the sequence.
pub proof fn lemma_filter_increasing<K: SortKey>(s: Seq<K::V>, pred: spec_fn(K::V) -> bool)
    requires
        increasing::<K>(s),
    ensures
        increasing::<K>(s.filter(pred)),
        forall|i: int| 0 <= i < s.filter(pred).len() ==> s.contains(#[trigger] s.filter(pred)[i]),
        forall|x: K::V| #[trigger] s.filter(pred).contains(x) == (s.contains(x) && pred(x)),
    decreases s.len(),
{
    reveal_with_fuel(Seq::<_>::filter, 1);
    if s.len() > 0 {
        let d = s.drop_last();
        assert(increasing::<K>(d)) by {
            assert forall|a: int, b: int| 0 <= a < b < d.len() implies K::precedes(
                #[trigger] d[a],
                #[trigger] d[b],
            ) by {
                assert(d[a] == s[a] && d[b] == s[b]);
            }
        }
        lemma_filter_increasing::<K>(d, pred);
        let f = d.filter(pred);
        assert forall|i: int| 0 <= i < f.len() implies K::precedes(#[trigger] f[i], s.last()) by {
            assert(d.contains(f[i]));
            let j = choose|j: int| 0 <= j < d.len() && d[j] == f[i];
            assert(s[j] == f[i]);
        }
        let g = s.filter(pred);
        assert(g == (if pred(s.last()) {
            f.push(s.last())
        } else {
            f
        }));
        assert forall|a: int, b: int| 0 <= a < b < g.len() implies K::precedes(
            #[trigger] g[a],
            #[trigger] g[b],
        ) by {
            assert(g[a] == f[a]);
            if b < f.len() {
                assert(g[b] == f[b]);
            }
        }
        assert forall|i: int| 0 <= i < s.filter(pred).len() implies s.contains(
            #[trigger] s.filter(pred)[i],
        ) by {
            if i < f.len() {
                assert(g[i] == f[i]);
                assert(d.contains(f[i]));
                let j = choose|j: int| 0 <= j < d.len() && d[j] == f[i];
                assert(s[j] == g[i]);
            } else {
                assert(s[s.len() - 1] == g[i]);
            }
        }
        assert forall|x: K::V| #[trigger] s.filter(pred).contains(x) == (s.contains(x) && pred(x)) by {
            if s.contains(x) && pred(x) {
                let j = choose|j: int| 0 <= j < s.len() && s[j] == x;
                if j < s.len() - 1 {
                    assert(d[j] == x);
                    assert(d.contains(x));
                    assert(f.contains(x));
                    let k = choose|k: int| 0 <= k < f.len() && f[k] == x;
                    assert(g[k] == f[k]);
                    assert(g[k] == x);
                } else {
                    assert(g[g.len() - 1] == x);
                }
            }
            if g.contains(x) {
                let k = choose|k: int| 0 <= k < g.len() && g[k] == x;
                if k < f.len() {
                    assert(g[k] == f[k]);
                    assert(f.contains(x));
                    let j = choose|j: int| 0 <= j < d.len() && d[j] == x;
                    assert(s[j] == x);
                } else {
                    assert(s[s.len() - 1] == x);
                }
            }
        }
    } else {
        assert(s.filter(pred) =~= Seq::<K::V>::empty());
    }
}

/// A set of ordered keys, iterated in increasing order.
#[derive(Debug, Clone)]
pub struct SortedSet<K> {
    map: SortedMap<K, ()>,
}

impl<K: SortKey> SortedSet<K> {
    /// The element views in iteration order.
    pub closed spec fn items(&self) -> Seq<K::V> {
        self.map.key_seq()
    }

    pub open spec fn wf(&self) -> bool {
        increasing::<K>(self.items())
    }

    pub open spec fn as_set(&self) -> Set<K::V> {
        self.items().to_set()
    }

    proof fn lemma_wf(&self)
        ensures
            self.wf() == self.map.wf(),
            self.items().len() == self.map.pairs().len(),
            forall|i: int| 0 <= i < self.items().len() ==> #[trigger] self.items()[i] == self.map.pairs()[i].0,
            forall|k: K::V| #[trigger] self.as_set().contains(k) == self.map.as_map().contains_key(k),
    {
        let s = self.map.pairs();
        assert forall|k: K::V| #[trigger] self.as_set().contains(k) == self.map.as_map().contains_key(k) by {
            if self.as_set().contains(k) {
                let j = choose|j: int| 0 <= j < self.items().len() && self.items()[j] == k;
                assert(s[j].0 == k);
            }
            if self.map.as_map().contains_key(k) {
                let j = choose|j: int| 0 <= j < s.len() && #[trigger] s[j].0 == k;
                assert(self.items()[j] == k);
            }
        }
        if self.wf() {
            assert forall|a: int, b: int| 0 <= a < b < s.len() implies K::precedes(#[trigger] s[a].0, #[trigger] s[b].0) by {
                assert(self.items()[a] == s[a].0);
                assert(self.items()[b] == s[b].0);
            }
        }
        if self.map.wf() {
            assert forall|a: int, b: int| 0 <= a < b < self.items().len() implies K::precedes(#[trigger] self.items()[a], #[trigger] self.items()[b]) by {
                assert(self.items()[a] == s[a].0);
                assert(self.items()[b] == s[b].0);
            }
        }
    }

    pub fn new() -> (s: Self)
        ensures
            s.wf(),
            s.items() == Seq::<K::V>::empty(),
    {
        let s = SortedSet { map: SortedMap::new() };
        proof {
            s.lemma_wf();
            assert(s.items() =~= Seq::<K::V>::empty());
        }
        s
    }

    pub fn len(&self) -> (n: usize)
        ensures
            n == self.items().len(),
    {
        proof {
            self.lemma_wf();
        }
        self.map.len()
    }

    pub fn at(&self, i: usize) -> (k: &K)
        requires
            i < self.items().len(),
        ensures
            k@ == self.items()[i as int],
    {
        proof {
            self.lemma_wf();
        }
        self.map.key_at(i)
    }

    pub fn contains(&self, key: &K) -> (b: bool)
        requires
            self.wf(),
        ensures
            b == self.as_set().contains(key@),
    {
        proof {
            self.lemma_wf();
        }
        self.map.contains_key(key)
    }

    /// Adds `key`; returns whether it was absent.
    pub fn insert(&mut self, key: K) -> (added: bool)
        requires
            old(self).wf(),
        ensures
            final(self).wf(),
            final(self).as_set() == old(self).as_set().insert(key@),
            added == !old(self).as_set().contains(key@),
    {
        proof {
            self.lemma_wf();
        }
        let ghost kv = key@;
        let r = self.map.insert(key, ());
        proof {
            self.lemma_wf();
            assert(self.as_set() =~= old(self).as_set().insert(kv));
        }
        r.is_none()
    }

    pub fn clear(&mut self)
        ensures
            final(self).wf(),
            final(self).items() == Seq::<K::V>::empty(),
    {
        self.map = SortedMap::new();
        proof {
            self.lemma_wf();
            assert(self.items() =~= Seq::<K::V>::empty());
        }
    }

    /// Whether every element of `self` is in `other`.
    pub fn is_subset(&self, other: &Self) -> (b: bool)
        requires
            other.wf(),
        ensures
            b == self.as_set().subset_of(other.as_set()),
    {
        let mut i: usize = 0;
        let n = self.len();
        while i < n
            invariant
                other.wf(),
                n == self.items().len(),
                i <= n,
                forall|j: int| 0 <= j < i ==> other.as_set().contains(#[trigger] self.items()[j]),
            decreases n - i,
        {
            if !other.contains(self.at(i)) {
                assert(self.as_set().contains(self.items()[i as int]));
                return false;
            }
            i = i + 1;
        }
        assert forall|k: K::V| self.as_set().contains(k) implies other.as_set().contains(k) by {
            let j = choose|j: int| 0 <= j < self.items().len() && self.items()[j] == k;
        }
        true
    }

    /// The elements of `self` that are not in `other`, in increasing order.
    pub fn difference(&self, other: &Self) -> (r: Vec<K>)
        requires
            other.wf(),
        ensures
            r@.map_values(|k: K| k@) == self.items().filter(|k: K::V| !other.as_set().contains(k)),
    {
        let ghost pred = |k: K::V| !other.as_set().contains(k);
        let mut out: Vec<K> = Vec::new();
        let mut i: usize = 0;
        let n = self.len();
        while i < n
            invariant
                other.wf(),
                n == self.items().len(),
                i <= n,
                pred == (|k: K::V| !other.as_set().contains(k)),
                out@.map_values(|k: K| k@) == self.items().take(i as int).filter(pred),
            decreases n - i,
        {
            let k = self.at(i);
            assert(self.items().take(i + 1).drop_last() =~= self.items().take(i as int));
            reveal_with_fuel(Seq::<_>::filter, 1);
            if !other.contains(k) {
                out.push(k.duplicate());
                assert(out@.map_values(|k: K| k@) =~= self.items().take(i as int).filter(pred).push(k@));
            }
            i = i + 1;
        }
        assert(self.items().take(n as int) =~= self.items());
        out
    }
}

} // verus!
