//! A set of strings that iterates in ascending order, the shape of a
//! `BTreeSet<String>`.

use vstd::prelude::*;

use crate::strmap::{lemma_pair_keys, lemma_sorted_key_list, sorted_key_list, StrMap};
use crate::text::views;

verus! {

#[derive(Debug)]
pub struct StrSet {
    members: StrMap,
}

impl View for StrSet {
    type V = Set<Seq<char>>;

    closed spec fn view(&self) -> Set<Seq<char>> {
        self.members@.dom()
    }
}

impl StrSet {
    /// Every set is finite.
    pub proof fn lemma_finite(&self)
        ensures
            self@.finite(),
    {
        crate::strmap::lemma_map_of_finite(self.members.pairs());
    }

    pub fn new() -> (s: Self)
        ensures
            s@ == Set::<Seq<char>>::empty(),
    {
        let s = StrSet { members: StrMap::new() };
        assert(s@ =~= Set::<Seq<char>>::empty());
        s
    }

    pub fn contains(&self, item: &str) -> (b: bool)
        ensures
            b == self@.contains(item@),
    {
        self.members.contains_key(item)
    }

    pub fn insert(&mut self, item: String)
        ensures
            final(self)@ == old(self)@.insert(item@),
    {
        let mut members = StrMap::new();
        std::mem::swap(&mut members, &mut self.members);
        members.insert(item, String::new());
        self.members = members;
    }

    /// Removes `item`, reporting whether it was there.
    pub fn remove(&mut self, item: &str) -> (was_present: bool)
        ensures
            was_present == old(self)@.contains(item@),
            final(self)@ == old(self)@.remove(item@),
    {
        let mut members = StrMap::new();
        std::mem::swap(&mut members, &mut self.members);
        let r = members.remove(item);
        self.members = members;
        proof {
            assert(self@ =~= old(self)@.remove(item@));
        }
        r
    }

    /// Adds every item.
    pub fn extend(&mut self, items: &[String])
        ensures
            final(self)@ == old(self)@.union(views(items@).to_set()),
    {
        let mut members = StrMap::new();
        std::mem::swap(&mut members, &mut self.members);
        members.insert_keys(items);
        self.members = members;
    }

    pub fn len(&self) -> (n: usize)
        ensures
            n == self@.len(),
    {
        self.members.is_sorted();
        proof {
            let p = self.members.pairs();
            lemma_pair_keys(p);
            crate::strmap::lemma_is_sorted_key_list(crate::strmap::pair_keys(p));
            let ks = crate::strmap::pair_keys(p);
            assert(ks.no_duplicates()) by {
                assert forall|i: int, j: int| 0 <= i < ks.len() && 0 <= j < ks.len() && i != j implies ks[i] != ks[j] by {
                    if i < j {
                        crate::text::lemma_seq_lt_asymmetric(ks[i], ks[j]);
                    } else {
                        crate::text::lemma_seq_lt_asymmetric(ks[j], ks[i]);
                    }
                }
            }
            ks.unique_seq_to_set();
        }
        self.members.len()
    }

    pub fn is_empty(&self) -> (b: bool)
        ensures
            b == (self@ == Set::<Seq<char>>::empty()),
    {
        let b = self.members.is_empty();
        proof {
            if self.members@.dom() == Set::<Seq<char>>::empty() {
                assert(self.members@ =~= Map::<Seq<char>, Seq<char>>::empty());
            }
            if b {
                assert(self.members@.dom() =~= Set::<Seq<char>>::empty());
            }
        }
        b
    }

    /// The members in ascending order.
    pub fn to_vec(&self) -> (r: Vec<String>)
        ensures
            views(r@) == sorted_key_list(self@),
    {
        self.members.sorted_keys()
    }
}

} // verus!
