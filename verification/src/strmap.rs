//! A map from strings to strings that iterates in key order, the shape of a
//! `BTreeMap<String, String>`: element attributes and setting projections.

use vstd::prelude::*;

use crate::text::{compare, seq_lt, lemma_seq_lt_asymmetric, lemma_seq_lt_transitive, lemma_seq_lt_total, views};

verus! {

/// Keys strictly ascending, hence also distinct.
pub open spec fn sorted_pairs(p: Seq<(Seq<char>, Seq<char>)>) -> bool {
    forall|i: int, j: int| 0 <= i < j < p.len() ==> seq_lt(#[trigger] p[i].0, #[trigger] p[j].0)
}

/// Whether `key` is one of the keys of `p`.
pub open spec fn has_key(p: Seq<(Seq<char>, Seq<char>)>, key: Seq<char>) -> bool {
    exists|i: int| 0 <= i < p.len() && #[trigger] p[i].0 == key
}

/// The value stored under `key` in `p`: the last pair holding it.
pub open spec fn value_of(p: Seq<(Seq<char>, Seq<char>)>, key: Seq<char>) -> Seq<char>
    decreases p.len(),
{
    if p.len() == 0 {
        Seq::empty()
    } else if p.last().0 == key {
        p.last().1
    } else {
        value_of(p.drop_last(), key)
    }
}

/// The map an ordered list of pairs denotes.
pub open spec fn map_of(p: Seq<(Seq<char>, Seq<char>)>) -> Map<Seq<char>, Seq<char>> {
    Map::new(|k: Seq<char>| has_key(p, k), |k: Seq<char>| value_of(p, k))
}

/// In a sorted list each key sits at exactly one index.
pub proof fn lemma_sorted_unique(p: Seq<(Seq<char>, Seq<char>)>, i: int, j: int)
    requires
        sorted_pairs(p),
        0 <= i < p.len(),
        0 <= j < p.len(),
        p[i].0 == p[j].0,
    ensures
        i == j,
{
    if i < j {
        lemma_seq_lt_asymmetric(p[i].0, p[j].0);
    } else if j < i {
        lemma_seq_lt_asymmetric(p[j].0, p[i].0);
    }
}

/// Looking a key up finds the pair that holds it.
pub proof fn lemma_lookup(p: Seq<(Seq<char>, Seq<char>)>, i: int)
    requires
        sorted_pairs(p),
        0 <= i < p.len(),
    ensures
        map_of(p).contains_key(p[i].0),
        map_of(p)[p[i].0] == p[i].1,
{
    let k = p[i].0;
    assert(has_key(p, k));
    lemma_value_of(p, i);
}

proof fn lemma_value_of(p: Seq<(Seq<char>, Seq<char>)>, i: int)
    requires
        sorted_pairs(p),
        0 <= i < p.len(),
    ensures
        value_of(p, p[i].0) == p[i].1,
    decreases p.len(),
{
    if i != p.len() - 1 {
        if p.last().0 == p[i].0 {
            lemma_sorted_unique(p, i, p.len() - 1);
        }
        let q = p.drop_last();
        assert(q[i] == p[i]);
        assert(sorted_pairs(q)) by {
            assert forall|a: int, b: int| 0 <= a < b < q.len() implies seq_lt(#[trigger] q[a].0, #[trigger] q[b].0) by {
                assert(q[a] == p[a]);
                assert(q[b] == p[b]);
            }
        }
        lemma_value_of(q, i);
    }
}

/// A list whose every pair is looked up as in `m`, and whose keys are exactly
/// those of `m`, denotes `m`.
pub proof fn lemma_map_of_ext(p: Seq<(Seq<char>, Seq<char>)>, m: Map<Seq<char>, Seq<char>>)
    requires
        sorted_pairs(p),
        forall|i: int| 0 <= i < p.len() ==> #[trigger] m.contains_key(p[i].0) && m[p[i].0] == p[i].1,
        forall|k: Seq<char>| #[trigger] m.contains_key(k) ==> has_key(p, k),
    ensures
        map_of(p) == m,
{
    assert forall|k: Seq<char>| #[trigger] map_of(p).contains_key(k) implies m.contains_key(k) && map_of(p)[k] == m[k] by {
        let i = choose|i: int| 0 <= i < p.len() && #[trigger] p[i].0 == k;
        lemma_lookup(p, i);
    }
    assert(map_of(p) =~= m);
}

/// `p` with `(k, v)` stored in key order, replacing any pair holding `k`.
pub open spec fn pairs_insert(p: Seq<(Seq<char>, Seq<char>)>, k: Seq<char>, v: Seq<char>) -> Seq<(Seq<char>, Seq<char>)>
    decreases p.len(),
{
    if p.len() == 0 {
        seq![(k, v)]
    } else if p[0].0 == k {
        p.update(0, (k, v))
    } else if seq_lt(k, p[0].0) {
        seq![(k, v)] + p
    } else {
        seq![p[0]] + pairs_insert(p.drop_first(), k, v)
    }
}

/// `p` without the pair holding `k`.
pub open spec fn pairs_remove(p: Seq<(Seq<char>, Seq<char>)>, k: Seq<char>) -> Seq<(Seq<char>, Seq<char>)>
    decreases p.len(),
{
    if p.len() == 0 {
        p
    } else if p[0].0 == k {
        p.drop_first()
    } else {
        seq![p[0]] + pairs_remove(p.drop_first(), k)
    }
}

proof fn lemma_sorted_drop_first(p: Seq<(Seq<char>, Seq<char>)>)
    requires
        sorted_pairs(p),
        p.len() > 0,
    ensures
        sorted_pairs(p.drop_first()),
{
    let q = p.drop_first();
    assert forall|a: int, b: int| 0 <= a < b < q.len() implies seq_lt(#[trigger] q[a].0, #[trigger] q[b].0) by {
        assert(q[a] == p[a + 1]);
        assert(q[b] == p[b + 1]);
    }
}

proof fn lemma_pairs_insert_at(p: Seq<(Seq<char>, Seq<char>)>, k: Seq<char>, v: Seq<char>, i: int, found: bool)
    requires
        sorted_pairs(p),
        0 <= i <= p.len(),
        forall|j: int| 0 <= j < i ==> seq_lt(#[trigger] p[j].0, k),
        found ==> i < p.len() && p[i].0 == k,
        !found ==> forall|j: int| i <= j < p.len() ==> seq_lt(k, #[trigger] p[j].0),
    ensures
        pairs_insert(p, k, v) == (if found { p.update(i, (k, v)) } else { p.insert(i, (k, v)) }),
    decreases i,
{
    if i == 0 {
        if !found && p.len() > 0 {
            lemma_seq_lt_asymmetric(k, p[0].0);
            assert(seq![(k, v)] + p =~= p.insert(0, (k, v)));
        } else if !found {
            assert(seq![(k, v)] =~= p.insert(0, (k, v)));
        }
    } else {
        lemma_seq_lt_asymmetric(p[0].0, k);
        lemma_sorted_drop_first(p);
        let q = p.drop_first();
        assert forall|j: int| 0 <= j < i - 1 implies seq_lt(#[trigger] q[j].0, k) by {
            assert(q[j] == p[j + 1]);
        }
        assert forall|j: int| i - 1 <= j < q.len() && !found implies seq_lt(k, #[trigger] q[j].0) by {
            assert(q[j] == p[j + 1]);
        }
        if found {
            assert(q[i - 1] == p[i]);
        }
        lemma_pairs_insert_at(q, k, v, i - 1, found);
        if found {
            assert(seq![p[0]] + q.update(i - 1, (k, v)) =~= p.update(i, (k, v)));
        } else {
            assert(seq![p[0]] + q.insert(i - 1, (k, v)) =~= p.insert(i, (k, v)));
        }
    }
}

proof fn lemma_pairs_remove_at(p: Seq<(Seq<char>, Seq<char>)>, k: Seq<char>, i: int, found: bool)
    requires
        sorted_pairs(p),
        0 <= i <= p.len(),
        forall|j: int| 0 <= j < i ==> seq_lt(#[trigger] p[j].0, k),
        found ==> i < p.len() && p[i].0 == k,
        !found ==> forall|j: int| i <= j < p.len() ==> seq_lt(k, #[trigger] p[j].0),
    ensures
        pairs_remove(p, k) == (if found { p.remove(i) } else { p }),
    decreases p.len(),
{
    if p.len() > 0 {
        if i == 0 {
            if !found {
                lemma_seq_lt_asymmetric(k, p[0].0);
                lemma_sorted_drop_first(p);
                let q = p.drop_first();
                assert forall|j: int| 0 <= j < q.len() implies seq_lt(k, #[trigger] q[j].0) by {
                    assert(q[j] == p[j + 1]);
                }
                lemma_pairs_remove_at(q, k, 0, false);
                assert(seq![p[0]] + q =~= p);
            }
        } else {
            lemma_seq_lt_asymmetric(p[0].0, k);
            lemma_sorted_drop_first(p);
            let q = p.drop_first();
            assert forall|j: int| 0 <= j < i - 1 implies seq_lt(#[trigger] q[j].0, k) by {
                assert(q[j] == p[j + 1]);
            }
            assert forall|j: int| i - 1 <= j < q.len() && !found implies seq_lt(k, #[trigger] q[j].0) by {
                assert(q[j] == p[j + 1]);
            }
            if found {
                assert(q[i - 1] == p[i]);
            }
            lemma_pairs_remove_at(q, k, i - 1, found);
            if found {
                assert(seq![p[0]] + q.remove(i - 1) =~= p.remove(i));
            } else {
                assert(seq![p[0]] + q =~= p);
            }
        }
    }
}

proof fn lemma_remove_view(before: Seq<(Seq<char>, Seq<char>)>, i: int)
    requires
        sorted_pairs(before),
        sorted_pairs(before.remove(i)),
        0 <= i < before.len(),
    ensures
        map_of(before.remove(i)) == map_of(before).remove(before[i].0),
{
    let after = before.remove(i);
    let key = before[i].0;
    let m = map_of(before).remove(key);
    assert forall|j: int| 0 <= j < after.len() implies #[trigger] m.contains_key(after[j].0) && m[after[j].0] == after[j].1 by {
        let jj = if j < i { j } else { j + 1 };
        assert(after[j] == before[jj]);
        lemma_lookup(before, jj);
        if after[j].0 == key {
            lemma_sorted_unique(before, jj, i);
        }
    }
    assert forall|q: Seq<char>| #[trigger] m.contains_key(q) implies has_key(after, q) by {
        let j = choose|j: int| 0 <= j < before.len() && #[trigger] before[j].0 == q;
        if j < i {
            assert(after[j] == before[j]);
        } else {
            assert(j != i);
            assert(after[j - 1] == before[j]);
        }
    }
    lemma_map_of_ext(after, m);
}

/// The pairs of a vector of owned strings, as character sequences.
pub open spec fn pairs_view(v: Seq<(String, String)>) -> Seq<(Seq<char>, Seq<char>)> {
    v.map_values(|e: (String, String)| (e.0@, e.1@))
}

#[derive(Debug, PartialEq, Eq)]
pub struct StrMap {
    entries: Vec<(String, String)>,
}

impl StrMap {
    #[verifier::type_invariant]
    spec fn well_ordered(self) -> bool {
        sorted_pairs(pairs_view(self.entries@))
    }

    /// The entries in key order.
    pub closed spec fn pairs(self) -> Seq<(Seq<char>, Seq<char>)> {
        pairs_view(self.entries@)
    }

    /// The map the entries denote.
    pub open spec fn view(self) -> Map<Seq<char>, Seq<char>> {
        map_of(self.pairs())
    }

    /// The keys in order.
    pub open spec fn keys(self) -> Seq<Seq<char>> {
        self.pairs().map_values(|e: (Seq<char>, Seq<char>)| e.0)
    }

    /// Every `StrMap` keeps its keys strictly ascending.
    pub fn is_sorted(&self)
        ensures
            sorted_pairs(self.pairs()),
    {
        proof {
            use_type_invariant(self);
        }
    }

    pub fn new() -> (m: Self)
        ensures
            m.pairs() == Seq::<(Seq<char>, Seq<char>)>::empty(),
            m.view() == Map::<Seq<char>, Seq<char>>::empty(),
    {
        let m = StrMap { entries: Vec::new() };
        assert(m.pairs() =~= Seq::<(Seq<char>, Seq<char>)>::empty());
        assert(m.view() =~= Map::<Seq<char>, Seq<char>>::empty());
        m
    }

    pub fn len(&self) -> (n: usize)
        ensures
            n == self.pairs().len(),
    {
        self.entries.len()
    }

    pub fn is_empty(&self) -> (b: bool)
        ensures
            b == (self.pairs().len() == 0),
            b == (self.view() == Map::<Seq<char>, Seq<char>>::empty()),
    {
        proof {
            if self.pairs().len() > 0 {
                use_type_invariant(self);
                lemma_lookup(self.pairs(), 0);
                assert(self.view().contains_key(self.pairs()[0].0));
            } else {
                assert(self.view() =~= Map::<Seq<char>, Seq<char>>::empty());
            }
        }
        self.entries.len() == 0
    }

    /// The key of the `i`-th entry in order.
    pub fn key_at(&self, i: usize) -> (k: &String)
        requires
            i < self.pairs().len(),
        ensures
            k@ == self.pairs()[i as int].0,
    {
        &self.entries[i].0
    }

    /// The value of the `i`-th entry in order.
    pub fn value_at(&self, i: usize) -> (v: &String)
        requires
            i < self.pairs().len(),
        ensures
            v@ == self.pairs()[i as int].1,
    {
        &self.entries[i].1
    }

    /// Where `key` sits, or where it would be inserted.
    fn position(&self, key: &str) -> (r: (usize, bool))
        ensures
            r.0 <= self.pairs().len(),
            r.1 ==> r.0 < self.pairs().len() && self.pairs()[r.0 as int].0 == key@,
            forall|j: int| 0 <= j < r.0 ==> seq_lt(#[trigger] self.pairs()[j].0, key@),
            !r.1 ==> forall|j: int| r.0 <= j < self.pairs().len() ==> seq_lt(key@, #[trigger] self.pairs()[j].0),
    {
        proof {
            use_type_invariant(self);
        }
        let mut i: usize = 0;
        while i < self.entries.len()
            invariant
                i <= self.entries.len(),
                sorted_pairs(self.pairs()),
                forall|j: int| 0 <= j < i ==> seq_lt(#[trigger] self.pairs()[j].0, key@),
            decreases self.entries.len() - i,
        {
            let c = compare(self.entries[i].0.as_str(), key);
            if c == 0 {
                return (i, true);
            }
            if c > 0 {
                proof {
                    assert forall|j: int| i <= j < self.pairs().len() implies seq_lt(key@, #[trigger] self.pairs()[j].0) by {
                        if j > i {
                            lemma_seq_lt_transitive(key@, self.pairs()[i as int].0, self.pairs()[j].0);
                        }
                    }
                }
                return (i, false);
            }
            i = i + 1;
        }
        (i, false)
    }

    /// The value stored under `key`.
    pub fn get(&self, key: &str) -> (r: Option<&String>)
        ensures
            r.is_some() == self.view().contains_key(key@),
            r matches Some(v) ==> v@ == self.view()[key@],
    {
        proof {
            use_type_invariant(self);
        }
        let (i, found) = self.position(key);
        if found {
            proof {
                lemma_lookup(self.pairs(), i as int);
            }
            Some(&self.entries[i].1)
        } else {
            proof {
                if has_key(self.pairs(), key@) {
                    let j = choose|j: int| 0 <= j < self.pairs().len() && #[trigger] self.pairs()[j].0 == key@;
                    if j < i {
                        lemma_seq_lt_asymmetric(key@, key@);
                    } else {
                        lemma_seq_lt_asymmetric(key@, key@);
                    }
                }
            }
            None
        }
    }

    pub fn contains_key(&self, key: &str) -> (b: bool)
        ensures
            b == self.view().contains_key(key@),
    {
        self.get(key).is_some()
    }

    /// Stores `value` under `key`, replacing any earlier value.
    pub fn insert(&mut self, key: String, value: String)
        ensures
            final(self).view() == old(self).view().insert(key@, value@),
            final(self).pairs() == pairs_insert(old(self).pairs(), key@, value@),
    {
        proof {
            use_type_invariant(&*self);
        }
        let ghost before = self.pairs();
        let (i, found) = self.position(key.as_str());
        let ghost k = key@;
        let ghost v = value@;
        proof {
            lemma_pairs_insert_at(before, k, v, i as int, found);
        }
        if found {
            let mut entries: Vec<(String, String)> = Vec::new();
            std::mem::swap(&mut entries, &mut self.entries);
            entries.set(i, (key, value));
            proof {
                assert(pairs_view(entries@) =~= before.update(i as int, (k, v)));
                let after = before.update(i as int, (k, v));
                assert forall|a: int, b: int| 0 <= a < b < after.len() implies seq_lt(#[trigger] after[a].0, #[trigger] after[b].0) by {
                    assert(before[a].0 == after[a].0);
                    assert(before[b].0 == after[b].0);
                }
            }
            self.entries = entries;
            proof {
                let after = before.update(i as int, (k, v));
                assert(self.pairs() =~= after);
                assert forall|a: int, b: int| 0 <= a < b < after.len() implies seq_lt(#[trigger] after[a].0, #[trigger] after[b].0) by {
                    assert(before[a].0 == after[a].0);
                    assert(before[b].0 == after[b].0);
                }
                assert(after[i as int].0 == k);
                assert forall|j: int| 0 <= j < after.len() && #[trigger] after[j].0 == k implies after[j].1 == v by {
                    lemma_sorted_unique(after, j, i as int);
                }
                assert forall|j: int| 0 <= j < after.len() && #[trigger] after[j].0 != k implies has_key(before, after[j].0) && value_of(before, after[j].0) == after[j].1 by {
                    let jj = if found || j < i { j } else { j - 1 };
                    assert(after[j] == before[jj]);
                    lemma_value_of(before, jj);
                }
                assert forall|j: int| 0 <= j < before.len() && #[trigger] before[j].0 != k implies has_key(after, before[j].0) by {
                    let jj = if j < i { j } else if found { j } else { j + 1 };
                    assert(after[jj] == before[j]);
                }
                lemma_map_after_insert(before, after, k, v);
            }
        } else {
            let mut entries: Vec<(String, String)> = Vec::new();
            std::mem::swap(&mut entries, &mut self.entries);
            entries.insert(i, (key, value));
            proof {
                assert(pairs_view(entries@) =~= before.insert(i as int, (k, v)));
                let after = before.insert(i as int, (k, v));
                assert forall|a: int, b: int| 0 <= a < b < after.len() implies seq_lt(#[trigger] after[a].0, #[trigger] after[b].0) by {
                    if b < i {
                    } else if a < i && b == i {
                    } else if a < i {
                        assert(after[b].0 == before[b - 1].0);
                    } else if a == i {
                        assert(after[b].0 == before[b - 1].0);
                    } else {
                        assert(after[a].0 == before[a - 1].0);
                        assert(after[b].0 == before[b - 1].0);
                    }
                }
            }
            self.entries = entries;
            proof {
                let after = before.insert(i as int, (k, v));
                assert(self.pairs() =~= after);
                assert forall|a: int, b: int| 0 <= a < b < after.len() implies seq_lt(#[trigger] after[a].0, #[trigger] after[b].0) by {
                    if b < i {
                    } else if a < i && b == i {
                    } else if a < i {
                        assert(after[b].0 == before[b - 1].0);
                    } else if a == i {
                        assert(after[b].0 == before[b - 1].0);
                    } else {
                        assert(after[a].0 == before[a - 1].0);
                        assert(after[b].0 == before[b - 1].0);
                    }
                }
                assert(after[i as int].0 == k);
                assert forall|j: int| 0 <= j < after.len() && #[trigger] after[j].0 == k implies after[j].1 == v by {
                    lemma_sorted_unique(after, j, i as int);
                }
                assert forall|j: int| 0 <= j < after.len() && #[trigger] after[j].0 != k implies has_key(before, after[j].0) && value_of(before, after[j].0) == after[j].1 by {
                    let jj = if found || j < i { j } else { j - 1 };
                    assert(after[j] == before[jj]);
                    lemma_value_of(before, jj);
                }
                assert forall|j: int| 0 <= j < before.len() && #[trigger] before[j].0 != k implies has_key(after, before[j].0) by {
                    let jj = if j < i { j } else if found { j } else { j + 1 };
                    assert(after[jj] == before[j]);
                }
                lemma_map_after_insert(before, after, k, v);
            }
        }
    }

    /// An independent copy holding the same entries.
    pub fn copy(&self) -> (r: Self)
        ensures
            r.pairs() == self.pairs(),
    {
        proof {
            use_type_invariant(self);
        }
        let mut entries: Vec<(String, String)> = Vec::new();
        let mut i: usize = 0;
        while i < self.entries.len()
            invariant
                i <= self.entries.len(),
                pairs_view(entries@) == self.pairs().take(i as int),
                sorted_pairs(self.pairs()),
            decreases self.entries.len() - i,
        {
            let k = self.entries[i].0.clone();
            let v = self.entries[i].1.clone();
            let ghost prev = entries@;
            entries.push((k, v));
            assert(entries@ == prev.push((k, v)));
            assert(pairs_view(entries@) =~= pairs_view(prev).push((k@, v@)));
            assert(self.pairs()[i as int] == (k@, v@));
            i = i + 1;
            assert(pairs_view(entries@) =~= self.pairs().take(i as int));
        }
        assert(self.pairs().take(i as int) =~= self.pairs());
        StrMap { entries }
    }

    /// Removes `key`, reporting whether it was there.
    pub fn remove(&mut self, key: &str) -> (was_present: bool)
        ensures
            was_present == old(self).view().contains_key(key@),
            final(self).view() == old(self).view().remove(key@),
            final(self).pairs() == pairs_remove(old(self).pairs(), key@),
    {
        proof {
            use_type_invariant(&*self);
        }
        let ghost before = self.pairs();
        let (i, found) = self.position(key);
        proof {
            lemma_pairs_remove_at(before, key@, i as int, found);
        }
        if found {
            let mut entries: Vec<(String, String)> = Vec::new();
            std::mem::swap(&mut entries, &mut self.entries);
            entries.remove(i);
            proof {
                let after = before.remove(i as int);
                assert(pairs_view(entries@) =~= after);
                assert forall|a: int, b: int| 0 <= a < b < after.len() implies seq_lt(#[trigger] after[a].0, #[trigger] after[b].0) by {
                    if b < i {
                    } else if a < i {
                        assert(after[b].0 == before[b + 1].0);
                    } else {
                        assert(after[a].0 == before[a + 1].0);
                        assert(after[b].0 == before[b + 1].0);
                    }
                }
            }
            self.entries = entries;
            proof {
                let after = before.remove(i as int);
                assert(self.pairs() =~= after);
                assert forall|a: int, b: int| 0 <= a < b < after.len() implies seq_lt(#[trigger] after[a].0, #[trigger] after[b].0) by {
                    if b < i {
                    } else if a < i {
                        assert(after[b].0 == before[b + 1].0);
                    } else {
                        assert(after[a].0 == before[a + 1].0);
                        assert(after[b].0 == before[b + 1].0);
                    }
                }
                lemma_remove_view(before, i as int);
            }
            true
        } else {
            proof {
                if has_key(before, key@) {
                    let j = choose|j: int| 0 <= j < before.len() && #[trigger] before[j].0 == key@;
                    lemma_seq_lt_asymmetric(key@, key@);
                }
                assert(map_of(before).remove(key@) =~= map_of(before));
            }
            false
        }
    }
}

impl Clone for StrMap {
    fn clone(&self) -> (r: Self)
        ensures
            r.pairs() == self.pairs(),
    {
        self.copy()
    }
}


/// Strictly ascending, hence without repeats.
pub open spec fn sorted_strict(s: Seq<Seq<char>>) -> bool {
    forall|i: int, j: int| 0 <= i < j < s.len() ==> seq_lt(#[trigger] s[i], #[trigger] s[j])
}

/// The members of `keys` in ascending order.
pub open spec fn sorted_key_list(keys: Set<Seq<char>>) -> Seq<Seq<char>> {
    choose|s: Seq<Seq<char>>| sorted_strict(s) && s.to_set() == keys
}

/// `t` with `x` placed where it belongs in ascending order.
pub open spec fn insert_sorted(t: Seq<Seq<char>>, x: Seq<char>) -> Seq<Seq<char>>
    decreases t.len(),
{
    if t.len() == 0 {
        seq![x]
    } else if seq_lt(t.last(), x) {
        t.push(x)
    } else {
        insert_sorted(t.drop_last(), x).push(t.last())
    }
}

proof fn lemma_insert_sorted(t: Seq<Seq<char>>, x: Seq<char>)
    requires
        sorted_strict(t),
        !t.contains(x),
    ensures
        sorted_strict(insert_sorted(t, x)),
        insert_sorted(t, x).to_set() == t.to_set().insert(x),
    decreases t.len(),
{
    let r = insert_sorted(t, x);
    if t.len() == 0 {
        assert(r.to_set() =~= t.to_set().insert(x)) by {
            assert(r[0] == x);
        }
    } else if seq_lt(t.last(), x) {
        assert forall|i: int, j: int| 0 <= i < j < r.len() implies seq_lt(#[trigger] r[i], #[trigger] r[j]) by {
            if j == t.len() {
                if i < t.len() - 1 {
                    lemma_seq_lt_transitive(t[i], t.last(), x);
                }
            } else {
                assert(r[i] == t[i] && r[j] == t[j]);
            }
        }
        t.lemma_push_to_set_commute(x);
    } else {
        let d = t.drop_last();
        let last = t.last();
        assert(sorted_strict(d)) by {
            assert forall|i: int, j: int| 0 <= i < j < d.len() implies seq_lt(#[trigger] d[i], #[trigger] d[j]) by {
                assert(d[i] == t[i] && d[j] == t[j]);
            }
        }
        assert(!d.contains(x)) by {
            if d.contains(x) {
                let k = choose|k: int| 0 <= k < d.len() && d[k] == x;
                assert(t[k] == x);
            }
        }
        lemma_insert_sorted(d, x);
        let q = insert_sorted(d, x);
        assert(x != last) by {
            assert(t[t.len() - 1] == last);
        }
        lemma_seq_lt_total(x, last);
        assert forall|i: int| 0 <= i < q.len() implies seq_lt(#[trigger] q[i], last) by {
            assert(q.to_set().contains(q[i]));
            if q[i] != x {
                assert(d.to_set().contains(q[i]));
                let k = choose|k: int| 0 <= k < d.len() && d[k] == q[i];
                assert(t[k] == q[i]);
            }
        }
        assert forall|i: int, j: int| 0 <= i < j < r.len() implies seq_lt(#[trigger] r[i], #[trigger] r[j]) by {
            if j == q.len() {
                assert(r[i] == q[i]);
            } else {
                assert(r[i] == q[i] && r[j] == q[j]);
            }
        }
        q.lemma_push_to_set_commute(last);
        d.lemma_push_to_set_commute(last);
        assert(d.push(last) =~= t);
        assert(r.to_set() =~= t.to_set().insert(x));
    }
}

/// Every finite set of strings has its ascending list.
pub proof fn lemma_sorted_key_list(keys: Set<Seq<char>>)
    requires
        keys.finite(),
    ensures
        sorted_strict(sorted_key_list(keys)),
        sorted_key_list(keys).to_set() == keys,
    decreases keys.len(),
{
    if keys.len() == 0 {
        let e = Seq::<Seq<char>>::empty();
        assert(keys =~= Set::<Seq<char>>::empty());
        assert(e.to_set() =~= keys);
        assert(sorted_strict(e) && e.to_set() == keys);
    } else {
        let x = keys.choose();
        let rest = keys.remove(x);
        lemma_sorted_key_list(rest);
        let t = sorted_key_list(rest);
        assert(!t.contains(x)) by {
            if t.contains(x) {
                assert(t.to_set().contains(x));
            }
        }
        lemma_insert_sorted(t, x);
        let u = insert_sorted(t, x);
        assert(u.to_set() =~= keys);
        assert(sorted_strict(u) && u.to_set() == keys);
    }
}

/// Two ascending lists with the same members are the same list.
pub proof fn lemma_sorted_unique_list(a: Seq<Seq<char>>, b: Seq<Seq<char>>)
    requires
        sorted_strict(a),
        sorted_strict(b),
        a.to_set() == b.to_set(),
    ensures
        a == b,
    decreases a.len(),
{
    if a.len() == 0 {
        if b.len() > 0 {
            assert(b.to_set().contains(b[0]));
        }
    } else if b.len() == 0 {
        assert(a.to_set().contains(a[0]));
    } else {
        assert(a.to_set().contains(a[0]));
        assert(b.to_set().contains(b[0]));
        let ia = choose|i: int| 0 <= i < b.len() && b[i] == a[0];
        let ib = choose|i: int| 0 <= i < a.len() && a[i] == b[0];
        if a[0] != b[0] {
            if ia > 0 {
                lemma_seq_lt_asymmetric(b[0], b[ia]);
            }
            if ib > 0 {
                lemma_seq_lt_asymmetric(a[0], a[ib]);
                if ia > 0 {
                    lemma_seq_lt_asymmetric(b[0], a[0]);
                }
            }
        }
        let a1 = a.drop_first();
        let b1 = b.drop_first();
        assert(sorted_strict(a1)) by {
            assert forall|i: int, j: int| 0 <= i < j < a1.len() implies seq_lt(#[trigger] a1[i], #[trigger] a1[j]) by {
                assert(a1[i] == a[i + 1]);
                assert(a1[j] == a[j + 1]);
            }
        }
        assert(sorted_strict(b1)) by {
            assert forall|i: int, j: int| 0 <= i < j < b1.len() implies seq_lt(#[trigger] b1[i], #[trigger] b1[j]) by {
                assert(b1[i] == b[i + 1]);
                assert(b1[j] == b[j + 1]);
            }
        }
        assert(a1.to_set() =~= b1.to_set()) by {
            assert forall|x: Seq<char>| a1.to_set().contains(x) implies b1.to_set().contains(x) by {
                let i = choose|i: int| 0 <= i < a1.len() && a1[i] == x;
                assert(a.to_set().contains(x));
                let j = choose|j: int| 0 <= j < b.len() && b[j] == x;
                lemma_seq_lt_asymmetric(a[0], a[i + 1]);
                if j == 0 {
                    assert(x == a[0]);
                }
                assert(b1[j - 1] == x);
            }
            assert forall|x: Seq<char>| b1.to_set().contains(x) implies a1.to_set().contains(x) by {
                let i = choose|i: int| 0 <= i < b1.len() && b1[i] == x;
                assert(b.to_set().contains(x));
                let j = choose|j: int| 0 <= j < a.len() && a[j] == x;
                lemma_seq_lt_asymmetric(b[0], b[i + 1]);
                if j == 0 {
                    assert(x == b[0]);
                }
                assert(a1[j - 1] == x);
            }
        }
        lemma_sorted_unique_list(a1, b1);
        assert(a == seq![a[0]] + a1);
        assert(b == seq![b[0]] + b1);
    }
}

/// An ascending list is the sorted list of its members.
pub proof fn lemma_is_sorted_key_list(s: Seq<Seq<char>>)
    requires
        sorted_strict(s),
    ensures
        sorted_key_list(s.to_set()) == s,
{
    let t = sorted_key_list(s.to_set());
    assert(sorted_strict(s) && s.to_set() == s.to_set());
    lemma_sorted_unique_list(t, s);
}

impl StrMap {
    /// The keys, in order.
    pub fn keys_vec(&self) -> (r: Vec<String>)
        ensures
            views(r@) == self.keys(),
            sorted_strict(self.keys()),
            self.keys().to_set() == self@.dom(),
    {
        proof {
            use_type_invariant(self);
        }
        let mut r: Vec<String> = Vec::new();
        let mut i: usize = 0;
        while i < self.entries.len()
            invariant
                i <= self.entries.len(),
                views(r@) == self.keys().take(i as int),
            decreases self.entries.len() - i,
        {
            let ghost prev = r@;
            let k = self.entries[i].0.clone();
            r.push(k);
            proof {
                assert(views(r@) =~= views(prev).push(k@));
            }
            i = i + 1;
            proof {
                assert(views(r@) =~= self.keys().take(i as int));
            }
        }
        proof {
            assert(self.keys().take(i as int) =~= self.keys());
            let p = self.pairs();
            assert forall|a: int, b: int| 0 <= a < b < self.keys().len() implies seq_lt(#[trigger] self.keys()[a], #[trigger] self.keys()[b]) by {
                assert(self.keys()[a] == p[a].0);
                assert(self.keys()[b] == p[b].0);
            }
            assert forall|k: Seq<char>| self.keys().to_set().contains(k) <==> self@.dom().contains(k) by {
                if self.keys().to_set().contains(k) {
                    let i = choose|i: int| 0 <= i < self.keys().len() && self.keys()[i] == k;
                    assert(p[i].0 == k);
                }
                if self@.dom().contains(k) {
                    let i = choose|i: int| 0 <= i < p.len() && #[trigger] p[i].0 == k;
                    assert(self.keys()[i] == k);
                }
            }
            assert(self.keys().to_set() =~= self@.dom());
        }
        r
    }
}


/// The keys of `p`, in order.
pub open spec fn pair_keys(p: Seq<(Seq<char>, Seq<char>)>) -> Seq<Seq<char>> {
    p.map_values(|e: (Seq<char>, Seq<char>)| e.0)
}

/// The keys of a sorted list ascend, and are the keys of the map it denotes.
pub proof fn lemma_pair_keys(p: Seq<(Seq<char>, Seq<char>)>)
    requires
        sorted_pairs(p),
    ensures
        sorted_strict(pair_keys(p)),
        pair_keys(p).to_set() == map_of(p).dom(),
{
    let ks = pair_keys(p);
    assert forall|a: int, b: int| 0 <= a < b < ks.len() implies seq_lt(#[trigger] ks[a], #[trigger] ks[b]) by {
        assert(ks[a] == p[a].0);
        assert(ks[b] == p[b].0);
    }
    assert forall|k: Seq<char>| ks.to_set().contains(k) <==> map_of(p).dom().contains(k) by {
        if ks.to_set().contains(k) {
            let i = choose|i: int| 0 <= i < ks.len() && ks[i] == k;
            assert(p[i].0 == k);
        }
        if map_of(p).dom().contains(k) {
            let i = choose|i: int| 0 <= i < p.len() && #[trigger] p[i].0 == k;
            assert(ks[i] == k);
        }
    }
    assert(ks.to_set() =~= map_of(p).dom());
}

/// The keys of the map any list of pairs denotes are the keys of the list,
/// so there are finitely many.
pub proof fn lemma_map_of_finite(p: Seq<(Seq<char>, Seq<char>)>)
    ensures
        map_of(p).dom() == pair_keys(p).to_set(),
        map_of(p).dom().finite(),
{
    let ks = pair_keys(p);
    assert forall|k: Seq<char>| ks.to_set().contains(k) <==> map_of(p).dom().contains(k) by {
        if ks.to_set().contains(k) {
            let i = choose|i: int| 0 <= i < ks.len() && ks[i] == k;
            assert(p[i].0 == k);
        }
        if map_of(p).dom().contains(k) {
            let i = choose|i: int| 0 <= i < p.len() && #[trigger] p[i].0 == k;
            assert(ks[i] == k);
        }
    }
    assert(ks.to_set() =~= map_of(p).dom());
}

/// A sorted list of pairs is the only one denoting its map.
pub proof fn lemma_pairs_determined(p: Seq<(Seq<char>, Seq<char>)>, q: Seq<(Seq<char>, Seq<char>)>)
    requires
        sorted_pairs(p),
        sorted_pairs(q),
        map_of(p) == map_of(q),
    ensures
        p == q,
{
    lemma_pair_keys(p);
    lemma_pair_keys(q);
    lemma_sorted_unique_list(pair_keys(p), pair_keys(q));
    assert(p.len() == pair_keys(p).len());
    assert forall|i: int| 0 <= i < p.len() implies p[i] == q[i] by {
        assert(pair_keys(p)[i] == p[i].0);
        assert(pair_keys(q)[i] == q[i].0);
        lemma_lookup(p, i);
        lemma_lookup(q, i);
    }
    assert(p =~= q);
}

impl StrMap {
    /// Whether both maps hold the same entries.
    pub fn same_as(&self, other: &StrMap) -> (b: bool)
        ensures
            b == (self@ == other@),
    {
        proof {
            use_type_invariant(self);
            use_type_invariant(other);
        }
        if self.entries.len() != other.entries.len() {
            proof {
                if self@ == other@ {
                    lemma_pairs_determined(self.pairs(), other.pairs());
                }
            }
            return false;
        }
        let mut i: usize = 0;
        while i < self.entries.len()
            invariant
                i <= self.entries.len(),
                self.entries.len() == other.entries.len(),
                sorted_pairs(self.pairs()),
                sorted_pairs(other.pairs()),
                forall|j: int| 0 <= j < i ==> self.pairs()[j] == other.pairs()[j],
            decreases self.entries.len() - i,
        {
            let same_key = crate::text::str_eq(self.entries[i].0.as_str(), other.entries[i].0.as_str());
            let same_value = crate::text::str_eq(self.entries[i].1.as_str(), other.entries[i].1.as_str());
            proof {
                assert(self.pairs()[i as int] == (self.entries@[i as int].0@, self.entries@[i as int].1@));
                assert(other.pairs()[i as int] == (other.entries@[i as int].0@, other.entries@[i as int].1@));
            }
            if !(same_key && same_value) {
                proof {
                    if self@ == other@ {
                        lemma_pairs_determined(self.pairs(), other.pairs());
                    }
                }
                return false;
            }
            i = i + 1;
        }
        proof {
            assert(self.pairs() =~= other.pairs());
        }
        true
    }
}

impl StrMap {
    /// Adds every item as a key, with an empty value where it is new.
    pub fn insert_keys(&mut self, items: &[String])
        ensures
            final(self)@.dom() == old(self)@.dom().union(views(items@).to_set()),
    {
        let mut i: usize = 0;
        while i < items.len()
            invariant
                i <= items@.len(),
                self@.dom() == old(self)@.dom().union(views(items@).take(i as int).to_set()),
            decreases items@.len() - i,
        {
            let item = items[i].clone();
            if !self.contains_key(item.as_str()) {
                self.insert(item, String::new());
            }
            proof {
                assert(views(items@).take(i + 1 as int) =~= views(items@).take(i as int).push(items@[i as int]@));
                views(items@).take(i as int).lemma_push_to_set_commute(items@[i as int]@);
                assert(self@.dom() =~= old(self)@.dom().union(views(items@).take(i + 1 as int).to_set()));
            }
            i = i + 1;
        }
        proof {
            assert(views(items@).take(i as int) =~= views(items@));
        }
    }

    /// The keys in ascending order, as the sorted list of the key set.
    pub fn sorted_keys(&self) -> (r: Vec<String>)
        ensures
            views(r@) == sorted_key_list(self@.dom()),
    {
        let r = self.keys_vec();
        proof {
            lemma_is_sorted_key_list(self.keys());
        }
        r
    }
}

proof fn lemma_map_after_insert(
    before: Seq<(Seq<char>, Seq<char>)>,
    after: Seq<(Seq<char>, Seq<char>)>,
    k: Seq<char>,
    v: Seq<char>,
)
    requires
        sorted_pairs(before),
        sorted_pairs(after),
        has_key(after, k),
        forall|i: int| 0 <= i < after.len() ==> (#[trigger] after[i].0 == k ==> after[i].1 == v),
        forall|i: int| 0 <= i < after.len() ==> (#[trigger] after[i].0 != k ==> has_key(before, after[i].0) && value_of(before, after[i].0) == after[i].1),
        forall|i: int| 0 <= i < before.len() ==> (#[trigger] before[i].0 != k ==> has_key(after, before[i].0)),
    ensures
        map_of(after) == map_of(before).insert(k, v),
{
    let m = map_of(before).insert(k, v);
    assert forall|i: int| 0 <= i < after.len() implies #[trigger] m.contains_key(after[i].0) && m[after[i].0] == after[i].1 by {
        if after[i].0 != k {
            let j = choose|j: int| 0 <= j < before.len() && #[trigger] before[j].0 == after[i].0;
            lemma_lookup(before, j);
        }
    }
    assert forall|q: Seq<char>| #[trigger] m.contains_key(q) implies has_key(after, q) by {
        if q != k {
            let j = choose|j: int| 0 <= j < before.len() && #[trigger] before[j].0 == q;
            assert(before[j].0 != k);
        }
    }
    lemma_map_of_ext(after, m);
}


/// Where `k` belongs in a sorted list: after every smaller key, and either
/// at the pair holding it or before every larger key.
proof fn insert_position(p: Seq<(Seq<char>, Seq<char>)>, k: Seq<char>) -> (r: (int, bool))
    requires
        sorted_pairs(p),
    ensures
        0 <= r.0 <= p.len(),
        forall|j: int| 0 <= j < r.0 ==> seq_lt(#[trigger] p[j].0, k),
        r.1 ==> r.0 < p.len() && p[r.0].0 == k,
        !r.1 ==> forall|j: int| r.0 <= j < p.len() ==> seq_lt(k, #[trigger] p[j].0),
    decreases p.len(),
{
    if p.len() == 0 {
        (0, false)
    } else {
        let q = p.drop_last();
        assert(sorted_pairs(q)) by {
            assert forall|a: int, b: int| 0 <= a < b < q.len() implies seq_lt(#[trigger] q[a].0, #[trigger] q[b].0) by {
                assert(q[a] == p[a]);
                assert(q[b] == p[b]);
            }
        }
        let r = insert_position(q, k);
        let n = p.len() - 1;
        assert forall|j: int| 0 <= j < r.0 implies seq_lt(#[trigger] p[j].0, k) by {
            assert(q[j] == p[j]);
        }
        if r.1 {
            assert(q[r.0] == p[r.0]);
            r
        } else if r.0 < q.len() {
            assert forall|j: int| r.0 <= j < p.len() implies seq_lt(k, #[trigger] p[j].0) by {
                if j < n {
                    assert(q[j] == p[j]);
                } else {
                    assert(q[r.0] == p[r.0]);
                    lemma_seq_lt_transitive(k, p[r.0].0, p[n].0);
                }
            }
            (r.0, false)
        } else if p[n].0 == k {
            (n, true)
        } else if seq_lt(p[n].0, k) {
            (p.len() as int, false)
        } else {
            crate::text::lemma_seq_lt_total(p[n].0, k);
            (n, false)
        }
    }
}

/// Storing `(k, v)` in a sorted list keeps it sorted, and the map it
/// denotes gains `k -> v`.
pub proof fn lemma_pairs_insert_map(p: Seq<(Seq<char>, Seq<char>)>, k: Seq<char>, v: Seq<char>)
    requires
        sorted_pairs(p),
    ensures
        sorted_pairs(pairs_insert(p, k, v)),
        map_of(pairs_insert(p, k, v)) == map_of(p).insert(k, v),
{
    let before = p;
    let (i, found) = insert_position(p, k);
    lemma_pairs_insert_at(p, k, v, i, found);
    let after = pairs_insert(p, k, v);
    if found {
        assert(after == before.update(i, (k, v)));
        assert forall|a: int, b: int| 0 <= a < b < after.len() implies seq_lt(#[trigger] after[a].0, #[trigger] after[b].0) by {
            assert(before[a].0 == after[a].0);
            assert(before[b].0 == after[b].0);
        }
    } else {
        assert(after == before.insert(i, (k, v)));
        assert forall|a: int, b: int| 0 <= a < b < after.len() implies seq_lt(#[trigger] after[a].0, #[trigger] after[b].0) by {
            if b < i {
            } else if a < i && b == i {
            } else if a < i {
                assert(after[b].0 == before[b - 1].0);
            } else if a == i {
                assert(after[b].0 == before[b - 1].0);
            } else {
                assert(after[a].0 == before[a - 1].0);
                assert(after[b].0 == before[b - 1].0);
            }
        }
    }
    assert(after[i].0 == k);
    assert forall|j: int| 0 <= j < after.len() && #[trigger] after[j].0 == k implies after[j].1 == v by {
        lemma_sorted_unique(after, j, i);
    }
    assert forall|j: int| 0 <= j < after.len() && #[trigger] after[j].0 != k implies has_key(before, after[j].0) && value_of(before, after[j].0) == after[j].1 by {
        let jj = if found || j < i { j } else { j - 1 };
        assert(after[j] == before[jj]);
        lemma_value_of(before, jj);
    }
    assert forall|j: int| 0 <= j < before.len() && #[trigger] before[j].0 != k implies has_key(after, before[j].0) by {
        let jj = if j < i { j } else if found { j } else { j + 1 };
        assert(after[jj] == before[j]);
    }
    lemma_map_after_insert(before, after, k, v);
}

} // verus!
