//! Where the program keeps its own local state, as distinct from the store
//! the backend replicates. Finding the home directory and locking are the
//! program's business; the layout is decided here.

use vstd::prelude::*;

use crate::config::RepoConfig;
use crate::settings::defaults::FileTable;
use crate::text::{
    chars_of, compare, concat, lemma_seq_lt_asymmetric, lemma_seq_lt_irreflexive, lemma_seq_lt_total, lemma_seq_lt_transitive,
    seq_lt, views,
};

verus! {

/// `relative` adjoined to the directory `base`, by `std::path::Path::join`:
/// an absolute `relative` replaces `base`. How paths are spelled depends on
/// the platform, so nothing is stated of the result.
#[verifier::external_body]
pub(crate) fn path_join(base: &str, relative: &str) -> String {
    std::path::Path::new(base).join(relative).to_string_lossy().into_owned()
}

/// The local working copy of the store: `repo.path` when set, else `data`
/// under the program's own directory.
pub fn data_dir(app_root: &str, repo: &RepoConfig) -> (r: String)
    ensures
        repo.path matches Some(p) ==> r@ == p@,
{
    match &repo.path {
        Some(p) => p.clone(),
        None => path_join(app_root, "data"),
    }
}

/// The settings file of one machine inside the store.
pub fn machine_config_relative(machine: &str) -> (r: String)
    ensures
        r@ == "machines/"@ + machine@ + ".toml"@,
{
    let mut r = concat("machines/", machine);
    r.append(".toml");
    r
}

/// What the program remembers between runs.
#[derive(Debug)]
pub struct StateFile {
    pub version: u32,
    pub machine: String,
    /// IDE config directory path to relative file path to SHA-256 digest,
    /// as of the last successful sync.
    pub files: FileTable,
}

impl Default for StateFile {
    fn default() -> (s: Self)
        ensures
            s.version == 1,
            s.machine@.len() == 0,
            s.files@ == Map::<Seq<char>, Map<Seq<char>, Seq<char>>>::empty(),
    {
        StateFile { version: 1, machine: String::new(), files: FileTable::new() }
    }
}

/// How many sync runs' backups are kept.
pub const KEPT_BACKUP_RUNS: usize = 10;

/// A character of a backup run's time stamp.
pub open spec fn stamp_digit(c: char) -> bool {
    '0' <= c && c <= '9'
}

/// The name of a backup run's directory: a `YYYYMMDD-HHMMSS` time stamp.
pub open spec fn is_backup_run(name: Seq<char>) -> bool {
    &&& name.len() == 15
    &&& name[8] == '-'
    &&& forall|i: int| 0 <= i < 15 && i != 8 ==> stamp_digit(#[trigger] name[i])
}

/// How many backup runs among `names` are newer than `name`; time stamps
/// sort chronologically.
pub open spec fn newer_runs(names: Seq<Seq<char>>, name: Seq<char>) -> nat
    decreases names.len(),
{
    if names.len() == 0 {
        0
    } else {
        newer_runs(names.drop_last(), name) + if is_backup_run(names.last()) && seq_lt(name, names.last()) {
            1nat
        } else {
            0nat
        }
    }
}

/// The backup runs among `candidates`, in order, that have at least
/// [`KEPT_BACKUP_RUNS`] newer runs among `names`.
pub open spec fn expired_runs(candidates: Seq<Seq<char>>, names: Seq<Seq<char>>) -> Seq<Seq<char>>
    decreases candidates.len(),
{
    if candidates.len() == 0 {
        Seq::empty()
    } else {
        let rest = expired_runs(candidates.drop_last(), names);
        let name = candidates.last();
        if is_backup_run(name) && newer_runs(names, name) >= KEPT_BACKUP_RUNS {
            rest.push(name)
        } else {
            rest
        }
    }
}

/// Whether `name` is a backup run's directory name.
pub fn is_backup_run_name(name: &str) -> (b: bool)
    ensures
        b == is_backup_run(name@),
{
    let chars = chars_of(name);
    if chars.len() != 15 {
        return false;
    }
    let mut i: usize = 0;
    while i < 15
        invariant
            chars@ == name@,
            chars@.len() == 15,
            i <= 15,
            forall|k: int| 0 <= k < i ==> (k == 8 ==> chars@[k] == '-') && (k != 8 ==> stamp_digit(#[trigger] chars@[k])),
        decreases 15 - i,
    {
        let c = chars[i];
        if i == 8 {
            if c != '-' {
                return false;
            }
        } else if !('0' <= c && c <= '9') {
            return false;
        }
        i = i + 1;
    }
    true
}

/// The backup runs in `names` that are not among the ten most recent, to
/// be removed; anything that is not a run's time stamp is left alone.
pub fn expired_backups(names: &[String]) -> (r: Vec<String>)
    ensures
        views(r@) == expired_runs(views(names@), views(names@)),
{
    let ghost all = views(names@);
    let mut r: Vec<String> = Vec::new();
    let mut i: usize = 0;
    while i < names.len()
        invariant
            i <= names@.len(),
            all == views(names@),
            views(r@) == expired_runs(all.take(i as int), all),
        decreases names@.len() - i,
    {
        proof {
            assert(all.take(i + 1 as int).drop_last() =~= all.take(i as int));
            assert(all.take(i + 1 as int).last() == names@[i as int]@);
        }
        if is_backup_run_name(names[i].as_str()) {
            let mut newer: usize = 0;
            let mut j: usize = 0;
            while j < names.len()
                invariant
                    i < names@.len(),
                    j <= names@.len(),
                    all == views(names@),
                    newer == newer_runs(all.take(j as int), names@[i as int]@),
                    newer <= j,
                decreases names@.len() - j,
            {
                proof {
                    assert(all.take(j + 1 as int).drop_last() =~= all.take(j as int));
                    assert(all.take(j + 1 as int).last() == names@[j as int]@);
                }
                if is_backup_run_name(names[j].as_str()) && compare(names[i].as_str(), names[j].as_str()) < 0 {
                    newer = newer + 1;
                }
                j = j + 1;
            }
            proof {
                assert(all.take(names@.len() as int) =~= all);
            }
            if newer >= KEPT_BACKUP_RUNS {
                let ghost prev = r@;
                r.push(names[i].clone());
                proof {
                    assert(views(r@) =~= views(prev).push(names@[i as int]@));
                }
            }
        }
        i = i + 1;
    }
    proof {
        assert(all.take(names@.len() as int) =~= all);
    }
    r
}

/// A run is pruned exactly when it is a backup run with at least
/// [`KEPT_BACKUP_RUNS`] newer runs.
proof fn lemma_expired_runs(candidates: Seq<Seq<char>>, names: Seq<Seq<char>>)
    ensures
        forall|x: Seq<char>| #[trigger] expired_runs(candidates, names).contains(x) <==> candidates.contains(x)
            && is_backup_run(x) && newer_runs(names, x) >= KEPT_BACKUP_RUNS,
    decreases candidates.len(),
{
    if candidates.len() > 0 {
        let init = candidates.drop_last();
        let last = candidates.last();
        lemma_expired_runs(init, names);
        let rest = expired_runs(init, names);
        assert forall|x: Seq<char>| #[trigger] expired_runs(candidates, names).contains(x) <==> candidates.contains(x)
            && is_backup_run(x) && newer_runs(names, x) >= KEPT_BACKUP_RUNS by {
            if candidates.contains(x) && x != last {
                let j = choose|j: int| 0 <= j < candidates.len() && candidates[j] == x;
                assert(init[j] == x);
            }
            if init.contains(x) {
                let j = choose|j: int| 0 <= j < init.len() && init[j] == x;
                assert(candidates[j] == x);
            }
            assert(candidates[candidates.len() - 1] == last);
            if is_backup_run(last) && newer_runs(names, last) >= KEPT_BACKUP_RUNS {
                let pushed = rest.push(last);
                assert(pushed[rest.len() as int] == last);
                if rest.contains(x) {
                    let j = choose|j: int| 0 <= j < rest.len() && rest[j] == x;
                    assert(pushed[j] == x);
                }
                if pushed.contains(x) && x != last {
                    let j = choose|j: int| 0 <= j < pushed.len() && pushed[j] == x;
                    assert(rest[j] == x);
                }
            }
        }
    }
}

/// The backup runs among `names` newer than `name`, as a set.
pub open spec fn newer_set(names: Seq<Seq<char>>, name: Seq<char>) -> Set<Seq<char>> {
    names.to_set().filter(|other: Seq<char>| is_backup_run(other) && seq_lt(name, other))
}

/// Among distinct names, the count of newer runs is the size of their set.
proof fn lemma_newer_runs_count(names: Seq<Seq<char>>, name: Seq<char>)
    requires
        names.no_duplicates(),
    ensures
        newer_set(names, name).finite(),
        newer_runs(names, name) == newer_set(names, name).len(),
    decreases names.len(),
{
    broadcast use vstd::set::group_set_axioms, vstd::seq_lib::seq_to_set_is_finite;

    if names.len() == 0 {
        assert(newer_set(names, name) =~= Set::empty());
    } else {
        let init = names.drop_last();
        let last = names.last();
        assert(init.no_duplicates()) by {
            assert forall|i: int, j: int| 0 <= i < init.len() && 0 <= j < init.len() && i != j implies init[i] != init[j] by {
                assert(init[i] == names[i] && init[j] == names[j]);
            }
        }
        lemma_newer_runs_count(init, name);
        assert(names =~= init.push(last));
        assert(names.to_set() =~= init.to_set().insert(last)) by {
            assert forall|x: Seq<char>| names.to_set().contains(x) <==> init.to_set().contains(x) || x == last by {
                if names.contains(x) && x != last {
                    let j = choose|j: int| 0 <= j < names.len() && names[j] == x;
                    assert(init[j] == x);
                }
                if init.contains(x) {
                    let j = choose|j: int| 0 <= j < init.len() && init[j] == x;
                    assert(names[j] == x);
                }
                assert(names[names.len() - 1] == last);
            }
        }
        assert(!init.to_set().contains(last)) by {
            if init.contains(last) {
                let j = choose|j: int| 0 <= j < init.len() && init[j] == last;
                assert(names[j] == names[names.len() - 1]);
            }
        }
        if is_backup_run(last) && seq_lt(name, last) {
            assert(newer_set(names, name) =~= newer_set(init, name).insert(last));
        } else {
            assert(newer_set(names, name) =~= newer_set(init, name));
        }
    }
}

/// Backup runs cannot pile up: among the (distinct) names of a backups
/// directory, the backup runs that pruning keeps number at most
/// [`KEPT_BACKUP_RUNS`], and a run with fewer newer ones is always kept.
pub proof fn law_backups_cannot_pile_up(names: Seq<Seq<char>>)
    requires
        names.no_duplicates(),
    ensures
        names.to_set().filter(|n: Seq<char>| is_backup_run(n) && !expired_runs(names, names).contains(n)).len()
            <= KEPT_BACKUP_RUNS,
        forall|n: Seq<char>|
            is_backup_run(n) && newer_runs(names, n) < KEPT_BACKUP_RUNS ==> !#[trigger] expired_runs(names, names).contains(n),
{
    broadcast use vstd::set::group_set_axioms, vstd::seq_lib::seq_to_set_is_finite;

    lemma_expired_runs(names, names);
    let kept = names.to_set().filter(|n: Seq<char>| is_backup_run(n) && !expired_runs(names, names).contains(n));
    assert(kept.subset_of(names.to_set()));
    vstd::set_lib::lemma_len_subset(kept, names.to_set());
    if kept.len() > KEPT_BACKUP_RUNS {
        let leq = |a: Seq<char>, b: Seq<char>| a == b || seq_lt(a, b);
        assert(vstd::relations::total_ordering(leq)) by {
            assert forall|x: Seq<char>| #[trigger] leq(x, x) by {}
            assert forall|x: Seq<char>, y: Seq<char>| #[trigger] leq(x, y) && #[trigger] leq(y, x) implies x == y by {
                if x != y {
                    lemma_seq_lt_asymmetric(x, y);
                }
            }
            assert forall|x: Seq<char>, y: Seq<char>, z: Seq<char>| #[trigger] leq(x, y) && #[trigger] leq(y, z) implies leq(x, z) by {
                if x != y && y != z {
                    lemma_seq_lt_transitive(x, y, z);
                }
            }
            assert forall|x: Seq<char>, y: Seq<char>| #[trigger] leq(x, y) || #[trigger] leq(y, x) by {
                lemma_seq_lt_total(x, y);
            }
        }
        kept.find_unique_minimal_ensures(leq);
        let m = kept.find_unique_minimal(leq);
        assert(kept.contains(m));
        lemma_newer_runs_count(names, m);
        assert(kept.remove(m).subset_of(newer_set(names, m))) by {
            assert forall|x: Seq<char>| kept.remove(m).contains(x) implies newer_set(names, m).contains(x) by {
                lemma_seq_lt_total(m, x);
                if seq_lt(x, m) {
                    assert(leq(x, m));
                    assert(leq(m, x));
                    lemma_seq_lt_asymmetric(x, m);
                }
            }
        }
        vstd::set_lib::lemma_len_subset(kept.remove(m), newer_set(names, m));
        assert(!expired_runs(names, names).contains(m));
    }
}

} // verus!
