//! Folding the passes of one sync into a single report, so each IDE and each
//! file is listed once with everything that happened to it.

use vstd::prelude::*;

use crate::sync::report::{files_view, ides_view, FileReport, FileReportView, IdeReport, IdeReportView};
use crate::sync::merge::{changes_view, conflicts_view};
use crate::settings::prune::removals_view;
use crate::text::{compare, seq_lt, str_eq};

verus! {

/// A later pass's report of a file folded into an earlier one: changes and
/// conflicts accumulate; every pass prunes the same settings, so the prunes
/// are kept from the first pass that had any.
pub open spec fn file_folded(earlier: FileReportView, later: FileReportView) -> FileReportView {
    FileReportView {
        path: earlier.path,
        incoming: earlier.incoming + later.incoming,
        outgoing: earlier.outgoing + later.outgoing,
        conflicts: earlier.conflicts + later.conflicts,
        pruned: if earlier.pruned.len() == 0 {
            later.pruned
        } else {
            earlier.pruned
        },
    }
}

/// The first file with this path.
pub open spec fn first_file(files: Seq<FileReportView>, path: Seq<char>) -> Option<int> {
    if exists|i: int| 0 <= i < files.len() && #[trigger] files[i].path == path {
        Some(
            choose|i: int|
                0 <= i < files.len() && #[trigger] files[i].path == path && forall|j: int| 0 <= j < i ==> #[trigger] files[j].path != path,
        )
    } else {
        None
    }
}

/// A file joined to a list: folded into the first with its path, or added.
pub open spec fn file_joined(files: Seq<FileReportView>, f: FileReportView) -> Seq<FileReportView> {
    match first_file(files, f.path) {
        Some(k) => files.update(k, file_folded(files[k], f)),
        None => files.push(f),
    }
}

/// Each later file joined in turn.
pub open spec fn files_joined(files: Seq<FileReportView>, later: Seq<FileReportView>) -> Seq<FileReportView>
    decreases later.len(),
{
    if later.len() == 0 {
        files
    } else {
        file_joined(files_joined(files, later.drop_last()), later.last())
    }
}

/// `f` placed into a list already in path order, after every file whose path
/// does not sort after its own.
pub open spec fn placed_by_path(sorted: Seq<FileReportView>, f: FileReportView) -> Seq<FileReportView>
    decreases sorted.len(),
{
    if sorted.len() == 0 {
        seq![f]
    } else if seq_lt(f.path, sorted.last().path) {
        placed_by_path(sorted.drop_last(), f).push(sorted.last())
    } else {
        sorted.push(f)
    }
}

/// The files in path order; files with equal paths keep their order.
pub open spec fn by_path(files: Seq<FileReportView>) -> Seq<FileReportView>
    decreases files.len(),
{
    if files.len() == 0 {
        files
    } else {
        placed_by_path(by_path(files.drop_last()), files.last())
    }
}

/// The first IDE report for this directory.
pub open spec fn first_ide(ides: Seq<IdeReportView>, directory: Seq<char>) -> Option<int> {
    if exists|i: int| 0 <= i < ides.len() && #[trigger] ides[i].directory == directory {
        Some(
            choose|i: int|
                0 <= i < ides.len() && #[trigger] ides[i].directory == directory && forall|j: int| 0 <= j < i ==> #[trigger] ides[j].directory != directory,
        )
    } else {
        None
    }
}

/// One IDE's report from a later pass folded into the running report: a new
/// IDE is added as it is; a known one has its files joined and put in path
/// order.
pub open spec fn ide_absorbed(acc: Seq<IdeReportView>, r: IdeReportView) -> Seq<IdeReportView> {
    match first_ide(acc, r.directory) {
        Some(k) => acc.update(k, IdeReportView { files: by_path(files_joined(acc[k].files, r.files)), ..acc[k] }),
        None => acc.push(r),
    }
}

/// A whole pass folded into the running report, IDE by IDE.
pub open spec fn absorbed(acc: Seq<IdeReportView>, pass: Seq<IdeReportView>) -> Seq<IdeReportView>
    decreases pass.len(),
{
    if pass.len() == 0 {
        acc
    } else {
        ide_absorbed(absorbed(acc, pass.drop_last()), pass.last())
    }
}

fn find_file(files: &Vec<FileReport>, path: &str) -> (r: Option<usize>)
    ensures
        match r {
            Some(k) => k < files@.len() && first_file(files_view(files@), path@) == Some(k as int),
            None => first_file(files_view(files@), path@) is None,
        },
{
    let ghost fv = files_view(files@);
    let mut i: usize = 0;
    while i < files.len()
        invariant
            i <= files@.len(),
            fv == files_view(files@),
            forall|j: int| 0 <= j < i ==> #[trigger] fv[j].path != path@,
        decreases files@.len() - i,
    {
        proof {
            assert(fv[i as int] == files@[i as int]@);
        }
        if str_eq(files[i].path.as_str(), path) {
            proof {
                assert(0 <= i < fv.len() && fv[i as int].path == path@);
                let k = choose|k: int| 0 <= k < fv.len() && #[trigger] fv[k].path == path@ && forall|j: int| 0 <= j < k ==> #[trigger] fv[j].path != path@;
                if k < i {
                } else if k > i {
                    assert(fv[i as int].path != path@);
                }
            }
            return Some(i);
        }
        i = i + 1;
    }
    None
}

fn find_ide(ides: &Vec<IdeReport>, directory: &str) -> (r: Option<usize>)
    ensures
        match r {
            Some(k) => k < ides@.len() && first_ide(ides_view(ides@), directory@) == Some(k as int),
            None => first_ide(ides_view(ides@), directory@) is None,
        },
{
    let ghost iv = ides_view(ides@);
    let mut i: usize = 0;
    while i < ides.len()
        invariant
            i <= ides@.len(),
            iv == ides_view(ides@),
            forall|j: int| 0 <= j < i ==> #[trigger] iv[j].directory != directory@,
        decreases ides@.len() - i,
    {
        proof {
            assert(iv[i as int] == ides@[i as int]@);
        }
        if str_eq(ides[i].directory.as_str(), directory) {
            proof {
                assert(0 <= i < iv.len() && iv[i as int].directory == directory@);
                let k = choose|k: int| 0 <= k < iv.len() && #[trigger] iv[k].directory == directory@ && forall|j: int| 0 <= j < k ==> #[trigger] iv[j].directory != directory@;
                if k > i {
                    assert(iv[i as int].directory != directory@);
                }
            }
            return Some(i);
        }
        i = i + 1;
    }
    None
}

/// Folds `later` into `earlier`, which keeps its path.
fn fold_file(earlier: FileReport, later: FileReport) -> (r: FileReport)
    ensures
        r@ == file_folded(earlier@, later@),
{
    let FileReport { path, mut incoming, mut outgoing, mut conflicts, pruned } = earlier;
    let FileReport { path: _, incoming: mut more_in, outgoing: mut more_out, conflicts: mut more_conflicts, pruned: later_pruned } = later;
    let ghost (i0, o0, c0) = (incoming@, outgoing@, conflicts@);
    let ghost (i1, o1, c1) = (more_in@, more_out@, more_conflicts@);
    incoming.append(&mut more_in);
    outgoing.append(&mut more_out);
    conflicts.append(&mut more_conflicts);
    let pruned = if pruned.len() == 0 {
        later_pruned
    } else {
        pruned
    };
    let r = FileReport { path, incoming, outgoing, conflicts, pruned };
    proof {
        assert(changes_view(i0 + i1) =~= changes_view(i0) + changes_view(i1));
        assert(changes_view(o0 + o1) =~= changes_view(o0) + changes_view(o1));
        assert(conflicts_view(c0 + c1) =~= conflicts_view(c0) + conflicts_view(c1));
    }
    r
}

/// Joins `f` to `files`.
fn join_file(files: &mut Vec<FileReport>, f: FileReport)
    ensures
        files_view(final(files)@) == file_joined(files_view(old(files)@), f@),
{
    let ghost before = files_view(files@);
    match find_file(files, f.path.as_str()) {
        Some(k) => {
            let earlier = files.remove(k);
            let ghost removed = files@;
            let folded = fold_file(earlier, f);
            files.insert(k, folded);
            proof {
                assert(files_view(files@) =~= before.update(k as int, file_folded(before[k as int], f@)));
            }
        },
        None => {
            files.push(f);
            proof {
                assert(files_view(files@) =~= before.push(f@));
            }
        },
    }
}

proof fn lemma_placed_at(t: Seq<FileReportView>, f: FileReportView, j: int)
    requires
        0 <= j <= t.len(),
        forall|k: int| j <= k < t.len() ==> seq_lt(f.path, #[trigger] t[k].path),
        j == 0 || !seq_lt(f.path, t[j - 1].path),
    ensures
        placed_by_path(t, f) == t.take(j).push(f) + t.skip(j),
    decreases t.len(),
{
    if t.len() == 0 {
        assert(t.take(j).push(f) + t.skip(j) =~= seq![f]);
    } else if seq_lt(f.path, t.last().path) {
        let u = t.drop_last();
        assert(j < t.len());
        assert forall|k: int| j <= k < u.len() implies seq_lt(f.path, #[trigger] u[k].path) by {
            assert(u[k] == t[k]);
        }
        if j > 0 {
            assert(u[j - 1] == t[j - 1]);
        }
        lemma_placed_at(u, f, j);
        assert(t.take(j).push(f) + t.skip(j) =~= (u.take(j).push(f) + u.skip(j)).push(t.last()));
    } else {
        if j < t.len() {
            assert(seq_lt(f.path, t[t.len() - 1].path));
        }
        assert(j == t.len());
        assert(t.take(j).push(f) + t.skip(j) =~= t.push(f));
    }
}

/// Places `f` into `sorted`, after every file whose path does not sort after
/// its own.
fn place_by_path(sorted: &mut Vec<FileReport>, f: FileReport)
    ensures
        files_view(final(sorted)@) == placed_by_path(files_view(old(sorted)@), f@),
{
    let ghost t = files_view(sorted@);
    let mut j: usize = sorted.len();
    while j > 0 && compare(f.path.as_str(), sorted[j - 1].path.as_str()) < 0
        invariant
            j <= sorted@.len(),
            t == files_view(sorted@),
            forall|k: int| j <= k < t.len() ==> seq_lt(f@.path, #[trigger] t[k].path),
        decreases j,
    {
        proof {
            assert(t[j - 1] == sorted@[j - 1]@);
        }
        j = j - 1;
    }
    proof {
        if j > 0 {
            assert(t[j - 1] == sorted@[j - 1]@);
        }
        lemma_placed_at(t, f@, j as int);
    }
    sorted.insert(j, f);
    proof {
        assert(files_view(sorted@) =~= t.take(j as int).push(f@) + t.skip(j as int));
    }
}

/// The files in path order, stably.
fn sort_by_path(files: Vec<FileReport>) -> (r: Vec<FileReport>)
    ensures
        files_view(r@) == by_path(files_view(files@)),
{
    let ghost all = files_view(files@);
    let mut rest = files;
    let total: usize = rest.len();
    let mut sorted: Vec<FileReport> = Vec::new();
    let mut n: usize = 0;
    while rest.len() > 0
        invariant
            all.len() == total,
            n + rest@.len() == all.len(),
            files_view(rest@) == all.skip(n as int),
            files_view(sorted@) == by_path(all.take(n as int)),
        decreases rest@.len(),
    {
        let ghost old_rest = rest@;
        proof {
            assert(files_view(old_rest)[0] == old_rest[0]@);
            assert(all.skip(n as int)[0] == all[n as int]);
        }
        let f = rest.remove(0);
        proof {
            assert(f@ == all[n as int]);
            assert(files_view(rest@) =~= files_view(old_rest).skip(1));
            assert(files_view(rest@) =~= all.skip(n + 1 as int));
            assert(all.take(n + 1 as int).drop_last() =~= all.take(n as int));
        }
        place_by_path(&mut sorted, f);
        n = n + 1;
    }
    proof {
        assert(all.take(n as int) =~= all);
    }
    sorted
}

/// Joins each of `later` to `files`, in order.
fn join_files(files: Vec<FileReport>, later: Vec<FileReport>) -> (r: Vec<FileReport>)
    ensures
        files_view(r@) == files_joined(files_view(files@), files_view(later@)),
{
    let ghost start_files = files_view(files@);
    let ghost later_all = files_view(later@);
    let mut files = files;
    let mut later = later;
    let total: usize = later.len();
    let mut m: usize = 0;
    while later.len() > 0
        invariant
            later_all.len() == total,
            m + later@.len() == later_all.len(),
            files_view(later@) == later_all.skip(m as int),
            files_view(files@) == files_joined(start_files, later_all.take(m as int)),
        decreases later@.len(),
    {
        let ghost old_later = later@;
        proof {
            assert(files_view(old_later)[0] == old_later[0]@);
            assert(later_all.skip(m as int)[0] == later_all[m as int]);
        }
        let f = later.remove(0);
        proof {
            assert(f@ == later_all[m as int]);
            assert(files_view(later@) =~= files_view(old_later).skip(1));
            assert(files_view(later@) =~= later_all.skip(m + 1 as int));
            assert(later_all.take(m + 1 as int).drop_last() =~= later_all.take(m as int));
        }
        join_file(&mut files, f);
        m = m + 1;
    }
    proof {
        assert(later_all.take(m as int) =~= later_all);
    }
    files
}

/// Folds one IDE's report into the running report.
fn absorb_one(accumulated: &mut Vec<IdeReport>, incoming: IdeReport)
    ensures
        ides_view(final(accumulated)@) == ide_absorbed(ides_view(old(accumulated)@), incoming@),
{
    let ghost before = ides_view(accumulated@);
    match find_ide(accumulated, incoming.directory.as_str()) {
        Some(k) => {
            let existing = accumulated.remove(k);
            proof {
                assert(before[k as int] == existing@);
            }
            let IdeReport { directory, display_name, files, skipped } = existing;
            let joined = join_files(files, incoming.files);
            let sorted = sort_by_path(joined);
            accumulated.insert(k, IdeReport { directory, display_name, files: sorted, skipped });
            proof {
                assert(ides_view(accumulated@) =~= before.update(
                    k as int,
                    IdeReportView { files: by_path(files_joined(before[k as int].files, incoming@.files)), ..before[k as int] },
                ));
            }
        },
        None => {
            accumulated.push(incoming);
            proof {
                assert(ides_view(accumulated@) =~= before.push(incoming@));
            }
        },
    }
}

/// Folds a later reconciliation pass into the running report, so each IDE
/// and file is listed once with everything that happened to it.
pub fn absorb(accumulated: &mut Vec<IdeReport>, pass: Vec<IdeReport>)
    ensures
        ides_view(final(accumulated)@) == absorbed(ides_view(old(accumulated)@), ides_view(pass@)),
{
    let ghost start = ides_view(accumulated@);
    let ghost all = ides_view(pass@);
    let mut rest = pass;
    let total: usize = rest.len();
    let mut n: usize = 0;
    while rest.len() > 0
        invariant
            all.len() == total,
            n + rest@.len() == all.len(),
            ides_view(rest@) == all.skip(n as int),
            ides_view(accumulated@) == absorbed(start, all.take(n as int)),
        decreases rest@.len(),
    {
        let ghost old_rest = rest@;
        proof {
            assert(ides_view(old_rest)[0] == old_rest[0]@);
            assert(all.skip(n as int)[0] == all[n as int]);
        }
        let incoming = rest.remove(0);
        proof {
            assert(incoming@ == all[n as int]);
            assert(ides_view(rest@) =~= ides_view(old_rest).skip(1));
            assert(ides_view(rest@) =~= all.skip(n + 1 as int));
            assert(all.take(n + 1 as int).drop_last() =~= all.take(n as int));
        }
        absorb_one(accumulated, incoming);
        n = n + 1;
    }
    proof {
        assert(all.take(n as int) =~= all);
    }
}


/// No directory is reported twice.
pub open spec fn distinct_directories(ides: Seq<IdeReportView>) -> bool {
    forall|i: int, j: int| 0 <= i < ides.len() && 0 <= j < ides.len() && #[trigger] ides[i].directory == #[trigger] ides[j].directory ==> i == j
}

/// Some report is for this directory.
pub open spec fn lists(ides: Seq<IdeReportView>, directory: Seq<char>) -> bool {
    exists|j: int| 0 <= j < ides.len() && #[trigger] ides[j].directory == directory
}

proof fn lemma_ide_absorbed_distinct(acc: Seq<IdeReportView>, r: IdeReportView)
    requires
        distinct_directories(acc),
    ensures
        distinct_directories(ide_absorbed(acc, r)),
        forall|d: Seq<char>| lists(acc, d) ==> #[trigger] lists(ide_absorbed(acc, r), d),
        lists(ide_absorbed(acc, r), r.directory),
{
    let out = ide_absorbed(acc, r);
    match first_ide(acc, r.directory) {
        Some(k) => {
            assert forall|i: int, j: int| 0 <= i < out.len() && 0 <= j < out.len() && #[trigger] out[i].directory == #[trigger] out[j].directory implies i == j by {
                assert(out[i].directory == acc[i].directory);
                assert(out[j].directory == acc[j].directory);
            }
            assert forall|d: Seq<char>| lists(acc, d) implies #[trigger] lists(out, d) by {
                let i = choose|i: int| 0 <= i < acc.len() && #[trigger] acc[i].directory == d;
                assert(out[i].directory == acc[i].directory);
            }
            assert(out[k].directory == r.directory);
        },
        None => {
            assert forall|i: int, j: int| 0 <= i < out.len() && 0 <= j < out.len() && #[trigger] out[i].directory == #[trigger] out[j].directory implies i == j by {
                if i < acc.len() && j < acc.len() {
                } else if i < acc.len() {
                    assert(acc[i].directory == r.directory);
                } else if j < acc.len() {
                    assert(acc[j].directory == r.directory);
                }
            }
            assert forall|d: Seq<char>| lists(acc, d) implies #[trigger] lists(out, d) by {
                let i = choose|i: int| 0 <= i < acc.len() && #[trigger] acc[i].directory == d;
                assert(out[i].directory == acc[i].directory);
            }
            assert(out[acc.len() as int].directory == r.directory);
        },
    }
}

/// Folding passes lists each IDE once: starting from a report that lists
/// each IDE once, every IDE of the report and of every pass is listed, and
/// none twice.
pub proof fn law_each_ide_is_listed_once(acc: Seq<IdeReportView>, pass: Seq<IdeReportView>)
    requires
        distinct_directories(acc),
    ensures
        distinct_directories(absorbed(acc, pass)),
        forall|d: Seq<char>| lists(acc, d) ==> #[trigger] lists(absorbed(acc, pass), d),
        forall|i: int| 0 <= i < pass.len() ==> lists(absorbed(acc, pass), #[trigger] pass[i].directory),
    decreases pass.len(),
{
    if pass.len() > 0 {
        let init = pass.drop_last();
        law_each_ide_is_listed_once(acc, init);
        let mid = absorbed(acc, init);
        lemma_ide_absorbed_distinct(mid, pass.last());
        assert forall|i: int| 0 <= i < pass.len() implies lists(absorbed(acc, pass), #[trigger] pass[i].directory) by {
            if i < pass.len() - 1 {
                assert(init[i] == pass[i]);
                assert(lists(mid, init[i].directory));
            }
        }
    }
}

} // verus!
