//! Where the shared settings live, and how they travel between machines.
//!
//! The engine never talks to Git. It asks a [`Backend`] for three views of the
//! store (what this machine has, what everyone else has, and the last state
//! both agreed on), merges them itself, and hands the result back. Backends
//! that cannot name a common ancestor keep a copy of the last state they
//! reconciled; that snapshot *is* the base.

pub mod git;

use vstd::prelude::*;

use crate::error::JbsyncError;
use crate::text::{str_eq, views};

verus! {

/// One stored file by value: its store-relative path and its bytes.
pub open spec fn entry_view(e: (String, Vec<u8>)) -> (Seq<char>, Seq<u8>) {
    (e.0@, e.1@)
}

/// Whether some entry has this path.
pub open spec fn tree_has(entries: Seq<(Seq<char>, Seq<u8>)>, path: Seq<char>) -> bool {
    exists|i: int| 0 <= i < entries.len() && #[trigger] entries[i].0 == path
}

/// The entry holding `path`.
pub open spec fn tree_index(entries: Seq<(Seq<char>, Seq<u8>)>, path: Seq<char>) -> int {
    choose|i: int| 0 <= i < entries.len() && #[trigger] entries[i].0 == path
}

/// No path names two entries.
pub open spec fn distinct_paths(entries: Seq<(Seq<char>, Seq<u8>)>) -> bool {
    forall|i: int, j: int| 0 <= i < entries.len() && 0 <= j < entries.len() && #[trigger] entries[i].0 == #[trigger] entries[j].0 ==> i == j
}

/// The map a list of entries with distinct paths denotes.
pub open spec fn tree_map(entries: Seq<(Seq<char>, Seq<u8>)>) -> Map<Seq<char>, Seq<u8>> {
    Map::new(|k: Seq<char>| tree_has(entries, k), |k: Seq<char>| entries[tree_index(entries, k)].1)
}

proof fn lemma_tree_index(entries: Seq<(Seq<char>, Seq<u8>)>, i: int)
    requires
        distinct_paths(entries),
        0 <= i < entries.len(),
    ensures
        tree_has(entries, entries[i].0),
        tree_index(entries, entries[i].0) == i,
        tree_map(entries).contains_key(entries[i].0),
        tree_map(entries)[entries[i].0] == entries[i].1,
{
    assert(tree_has(entries, entries[i].0));
}

/// Store contents keyed by path relative to the store root.
#[derive(Debug)]
pub struct Tree {
    entries: Vec<(String, Vec<u8>)>,
}

impl Tree {
    #[verifier::type_invariant]
    spec fn distinct(self) -> bool {
        distinct_paths(self.entries())
    }

    /// The entries, in the order they were first put in.
    pub closed spec fn entries(self) -> Seq<(Seq<char>, Seq<u8>)> {
        self.entries@.map_values(|e: (String, Vec<u8>)| entry_view(e))
    }

    pub open spec fn view(self) -> Map<Seq<char>, Seq<u8>> {
        tree_map(self.entries())
    }

    pub fn new() -> (t: Self)
        ensures
            t@ == Map::<Seq<char>, Seq<u8>>::empty(),
    {
        let t = Tree { entries: Vec::new() };
        assert(t@ =~= Map::<Seq<char>, Seq<u8>>::empty());
        t
    }

    fn position(&self, path: &str) -> (r: Option<usize>)
        ensures
            r matches Some(i) ==> i < self.entries().len() && self.entries()[i as int].0 == path@,
            r is None ==> !tree_has(self.entries(), path@),
    {
        let mut i: usize = 0;
        while i < self.entries.len()
            invariant
                i <= self.entries@.len(),
                forall|j: int| 0 <= j < i ==> #[trigger] self.entries()[j].0 != path@,
            decreases self.entries@.len() - i,
        {
            proof {
                assert(self.entries()[i as int] == entry_view(self.entries@[i as int]));
            }
            if str_eq(self.entries[i].0.as_str(), path) {
                return Some(i);
            }
            i = i + 1;
        }
        None
    }

    /// The bytes stored at `path`.
    pub fn get(&self, path: &str) -> (r: Option<&Vec<u8>>)
        ensures
            r.is_some() == self@.contains_key(path@),
            r matches Some(v) ==> v@ == self@[path@],
    {
        proof {
            use_type_invariant(self);
        }
        match self.position(path) {
            Some(i) => {
                proof {
                    lemma_tree_index(self.entries(), i as int);
                    assert(self.entries()[i as int] == entry_view(self.entries@[i as int]));
                }
                Some(&self.entries[i].1)
            },
            None => None,
        }
    }

    /// Every path held, once each, in the order first put in.
    pub fn paths(&self) -> (r: Vec<String>)
        ensures
            views(r@).to_set() == self@.dom(),
            views(r@).no_duplicates(),
    {
        proof {
            use_type_invariant(self);
        }
        let mut r: Vec<String> = Vec::new();
        let mut i: usize = 0;
        while i < self.entries.len()
            invariant
                i <= self.entries@.len(),
                views(r@) == self.entries().take(i as int).map_values(|e: (Seq<char>, Seq<u8>)| e.0),
            decreases self.entries@.len() - i,
        {
            let ghost prev = r@;
            r.push(self.entries[i].0.clone());
            proof {
                assert(self.entries()[i as int] == entry_view(self.entries@[i as int]));
                assert(views(r@) =~= views(prev).push(self.entries()[i as int].0));
                assert(self.entries().take(i + 1 as int).map_values(|e: (Seq<char>, Seq<u8>)| e.0) =~= self.entries().take(
                    i as int,
                ).map_values(|e: (Seq<char>, Seq<u8>)| e.0).push(self.entries()[i as int].0));
            }
            i = i + 1;
        }
        proof {
            let es = self.entries();
            assert(es.take(i as int) =~= es);
            assert forall|k: Seq<char>| views(r@).to_set().contains(k) <==> self@.dom().contains(k) by {
                if views(r@).to_set().contains(k) {
                    let j = choose|j: int| 0 <= j < views(r@).len() && views(r@)[j] == k;
                    assert(es[j].0 == k);
                }
                if self@.dom().contains(k) {
                    let j = choose|j: int| 0 <= j < es.len() && #[trigger] es[j].0 == k;
                    assert(views(r@)[j] == k);
                }
            }
            assert(views(r@).to_set() =~= self@.dom());
            assert forall|a: int, b: int| 0 <= a < views(r@).len() && 0 <= b < views(r@).len() && a != b implies views(r@)[a] != views(r@)[b] by {
                assert(views(r@)[a] == es[a].0);
                assert(views(r@)[b] == es[b].0);
            }
        }
        r
    }

    /// Stores `bytes` at `path`, replacing what was there.
    pub fn insert(&mut self, path: String, bytes: Vec<u8>)
        ensures
            final(self)@ == old(self)@.insert(path@, bytes@),
    {
        proof {
            use_type_invariant(&*self);
        }
        let ghost before = self.entries();
        let ghost k = path@;
        let ghost v = bytes@;
        let found = self.position(path.as_str());
        let mut entries: Vec<(String, Vec<u8>)> = Vec::new();
        std::mem::swap(&mut entries, &mut self.entries);
        proof {
            assert(entries@.map_values(|e: (String, Vec<u8>)| entry_view(e)) == before);
        }
        match found {
            Some(i) => {
                entries.set(i, (path, bytes));
                proof {
                    let after = entries@.map_values(|e: (String, Vec<u8>)| entry_view(e));
                    assert(after =~= before.update(i as int, (k, v)));
                    assert(distinct_paths(after)) by {
                        assert forall|a: int, b: int| 0 <= a < after.len() && 0 <= b < after.len() && #[trigger] after[a].0 == #[trigger] after[b].0 implies a == b by {
                            if a != i as int && b != i as int {
                                assert(before[a].0 == before[b].0);
                            } else if a == i as int && b != i as int {
                                assert(before[b].0 == before[a].0);
                            } else if b == i as int && a != i as int {
                                assert(before[a].0 == before[b].0);
                            }
                        }
                    }
                    assert forall|x: Seq<char>| #[trigger] tree_map(after).contains_key(x) == (tree_map(before).insert(k, v)).contains_key(x) by {
                        if tree_has(before, x) {
                            let j = tree_index(before, x);
                            assert(after[j].0 == x);
                        }
                        if tree_has(after, x) {
                            let j = tree_index(after, x);
                            if j != i as int {
                                assert(before[j].0 == x);
                            }
                        }
                    }
                    assert forall|x: Seq<char>| #[trigger] tree_map(after).contains_key(x) implies tree_map(after)[x] == tree_map(before).insert(k, v)[x] by {
                        let j = tree_index(after, x);
                        lemma_tree_index(after, j);
                        if j != i as int {
                            assert(before[j].0 == x);
                            lemma_tree_index(before, j);
                        }
                    }
                    assert(tree_map(after) =~= tree_map(before).insert(k, v));
                }
            },
            None => {
                entries.push((path, bytes));
                proof {
                    let after = entries@.map_values(|e: (String, Vec<u8>)| entry_view(e));
                    assert(after =~= before.push((k, v)));
                    assert(distinct_paths(after)) by {
                        assert forall|a: int, b: int| 0 <= a < after.len() && 0 <= b < after.len() && #[trigger] after[a].0 == #[trigger] after[b].0 implies a == b by {
                            if a < before.len() && b < before.len() {
                                assert(before[a].0 == before[b].0);
                            } else if a < before.len() {
                                assert(before[a].0 == k);
                            } else if b < before.len() {
                                assert(before[b].0 == k);
                            }
                        }
                    }
                    lemma_tree_index(after, before.len() as int);
                    assert forall|x: Seq<char>| #[trigger] tree_map(after).contains_key(x) == (tree_map(before).insert(k, v)).contains_key(x) by {
                        if tree_has(before, x) {
                            let j = tree_index(before, x);
                            assert(after[j].0 == x);
                        }
                        if tree_has(after, x) {
                            let j = tree_index(after, x);
                            if j < before.len() {
                                assert(before[j].0 == x);
                            }
                        }
                    }
                    assert forall|x: Seq<char>| #[trigger] tree_map(after).contains_key(x) implies tree_map(after)[x] == tree_map(before).insert(k, v)[x] by {
                        let j = tree_index(after, x);
                        lemma_tree_index(after, j);
                        if j < before.len() {
                            assert(before[j].0 == x);
                            lemma_tree_index(before, j);
                        }
                    }
                    assert(tree_map(after) =~= tree_map(before).insert(k, v));
                }
            },
        }
        self.entries = entries;
    }
}

/// Remote state that the local copy has not accounted for yet.
#[derive(Debug)]
pub struct Incoming {
    /// Opaque marker for the remote position, meaningful only to the backend.
    pub cursor: String,
    /// Full remote state.
    pub remote: Tree,
    /// The last state local and remote agreed on, and therefore the base of
    /// every three-way merge.
    pub base: Tree,
}

/// What recording the working copy as the published state came to.
#[derive(Debug, Clone, PartialEq, Eq)]
pub enum Published {
    /// The working copy already matched the published state.
    Unchanged,
    Committed { cursor: String, files: usize },
}

/// The contract every store backend meets. The engine merges; a backend only
/// moves bytes.
pub trait Backend {
    /// Short description for status output.
    fn describe(&self) -> String;

    /// The directory holding the working copy of the store.
    fn workdir(&self) -> &str;

    /// Prepares the store so the engine can read and write it.
    fn initialize(&self) -> Result<(), JbsyncError>;

    /// Remote state the working copy has not merged yet, or `None` when there
    /// is no remote configured or nothing new to take.
    fn incoming(&self) -> Result<Option<Incoming>, JbsyncError>;

    /// Records the working copy as the new published state.
    fn publish(&self, message: &str) -> Result<Published, JbsyncError>;

    /// Declares the working copy reconciled with `cursor`, after the engine
    /// merged the incoming state into it.
    fn reconcile(&self, cursor: &str, message: &str) -> Result<(), JbsyncError>;
}

} // verus!
