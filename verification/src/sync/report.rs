//! Saying what a sync did, in terms of settings rather than files.
//!
//! A rendered report is a list of lines, each ended by a newline; the
//! functions here say which lines, in which order.

use vstd::prelude::*;

use crate::settings::prune::{removal_view, removals_view, Removal};
use crate::progress::spaces;
use crate::style::Style;
use crate::sync::merge::{changes_view, conflicts_view, Change, ChangeView, Conflict, ConflictView, Side};
use crate::text::{concat, decimal, decimal_string, join_strings, join_with, opt_view, str_eq, views};

verus! {

/// Everything that happened to one file, from one IDE's point of view.
#[derive(Debug, Clone)]
pub struct FileReport {
    pub path: String,
    /// Settings this file is receiving.
    pub incoming: Vec<Change>,
    /// Settings this file is contributing to the store.
    pub outgoing: Vec<Change>,
    pub conflicts: Vec<Conflict>,
    /// Settings dropped for not being user choices.
    pub pruned: Vec<Removal>,
}

pub struct FileReportView {
    pub path: Seq<char>,
    pub incoming: Seq<ChangeView>,
    pub outgoing: Seq<ChangeView>,
    pub conflicts: Seq<ConflictView>,
    pub pruned: Seq<(Seq<char>, Seq<char>)>,
}

impl View for FileReport {
    type V = FileReportView;

    open spec fn view(&self) -> FileReportView {
        FileReportView {
            path: self.path@,
            incoming: changes_view(self.incoming@),
            outgoing: changes_view(self.outgoing@),
            conflicts: conflicts_view(self.conflicts@),
            pruned: removals_view(self.pruned@),
        }
    }
}

impl Default for FileReport {
    fn default() -> (f: Self)
        ensures
            f@.path.len() == 0,
            f@.incoming.len() == 0,
            f@.outgoing.len() == 0,
            f@.conflicts.len() == 0,
            f@.pruned.len() == 0,
    {
        FileReport { path: String::new(), incoming: Vec::new(), outgoing: Vec::new(), conflicts: Vec::new(), pruned: Vec::new() }
    }
}

/// Nothing about the file changed. Pruned settings do not count: they
/// describe what was left out of the store, which is the same every run.
pub open spec fn file_empty(f: FileReportView) -> bool {
    f.incoming.len() == 0 && f.outgoing.len() == 0 && f.conflicts.len() == 0
}

/// There is anything at all to show, prunes included.
pub open spec fn file_detail(f: FileReportView) -> bool {
    !file_empty(f) || f.pruned.len() > 0
}

impl FileReport {
    /// True when nothing about this file changed.
    pub fn is_empty(&self) -> (b: bool)
        ensures
            b == file_empty(self@),
    {
        self.incoming.len() == 0 && self.outgoing.len() == 0 && self.conflicts.len() == 0
    }

    /// True when there is anything at all to show, including prunes.
    pub fn has_detail(&self) -> (b: bool)
        ensures
            b == file_detail(self@),
    {
        !self.is_empty() || self.pruned.len() != 0
    }
}

#[derive(Debug, Clone)]
pub struct IdeReport {
    /// Config directory name, e.g. `IntelliJIdea2026.2`.
    pub directory: String,
    /// Display name from `product-info.json`, when available.
    pub display_name: String,
    pub files: Vec<FileReport>,
    /// Set when the IDE took no part in this run, holding the reason to show.
    pub skipped: Option<String>,
}

pub struct IdeReportView {
    pub directory: Seq<char>,
    pub display_name: Seq<char>,
    pub files: Seq<FileReportView>,
    pub skipped: Option<Seq<char>>,
}

pub open spec fn files_view(files: Seq<FileReport>) -> Seq<FileReportView> {
    files.map_values(|f: FileReport| f@)
}

impl View for IdeReport {
    type V = IdeReportView;

    open spec fn view(&self) -> IdeReportView {
        IdeReportView {
            directory: self.directory@,
            display_name: self.display_name@,
            files: files_view(self.files@),
            skipped: opt_view(self.skipped),
        }
    }
}

impl Default for IdeReport {
    fn default() -> (r: Self)
        ensures
            r@.directory.len() == 0,
            r@.display_name.len() == 0,
            r@.files.len() == 0,
            r@.skipped is None,
    {
        IdeReport { directory: String::new(), display_name: String::new(), files: Vec::new(), skipped: None }
    }
}

pub open spec fn all_files_empty(files: Seq<FileReportView>) -> bool {
    forall|i: int| 0 <= i < files.len() ==> file_empty(#[trigger] files[i])
}

pub open spec fn any_file_detail(files: Seq<FileReportView>) -> bool {
    exists|i: int| 0 <= i < files.len() && file_detail(#[trigger] files[i])
}

fn all_empty(files: &Vec<FileReport>) -> (b: bool)
    ensures
        b == all_files_empty(files_view(files@)),
{
    let ghost fv = files_view(files@);
    let mut i: usize = 0;
    while i < files.len()
        invariant
            i <= files@.len(),
            fv == files_view(files@),
            forall|k: int| 0 <= k < i ==> file_empty(#[trigger] fv[k]),
        decreases files@.len() - i,
    {
        if !files[i].is_empty() {
            proof {
                assert(fv[i as int] == files@[i as int]@);
            }
            return false;
        }
        i = i + 1;
    }
    true
}

fn any_detail(files: &Vec<FileReport>) -> (b: bool)
    ensures
        b == any_file_detail(files_view(files@)),
{
    let ghost fv = files_view(files@);
    let mut i: usize = 0;
    while i < files.len()
        invariant
            i <= files@.len(),
            fv == files_view(files@),
            forall|k: int| 0 <= k < i ==> !file_detail(#[trigger] fv[k]),
        decreases files@.len() - i,
    {
        if files[i].has_detail() {
            proof {
                assert(fv[i as int] == files@[i as int]@);
            }
            return true;
        }
        i = i + 1;
    }
    false
}

impl IdeReport {
    pub fn is_empty(&self) -> (b: bool)
        ensures
            b == all_files_empty(self@.files),
    {
        all_empty(&self.files)
    }

    pub fn has_detail(&self) -> (b: bool)
        ensures
            b == any_file_detail(self@.files),
    {
        any_detail(&self.files)
    }
}

#[derive(Debug, Clone)]
pub struct SyncReport {
    pub machine: String,
    pub backend: String,
    pub dry_run: bool,
    /// Changes pulled from other machines into the store.
    pub from_remote: Vec<FileReport>,
    /// Per-IDE reconciliation on this machine.
    pub ides: Vec<IdeReport>,
    pub published: Option<String>,
    pub plugins: Vec<String>,
}

pub struct SyncReportView {
    pub machine: Seq<char>,
    pub backend: Seq<char>,
    pub dry_run: bool,
    pub from_remote: Seq<FileReportView>,
    pub ides: Seq<IdeReportView>,
    pub published: Option<Seq<char>>,
    pub plugins: Seq<Seq<char>>,
}

pub open spec fn ides_view(ides: Seq<IdeReport>) -> Seq<IdeReportView> {
    ides.map_values(|i: IdeReport| i@)
}

impl View for SyncReport {
    type V = SyncReportView;

    open spec fn view(&self) -> SyncReportView {
        SyncReportView {
            machine: self.machine@,
            backend: self.backend@,
            dry_run: self.dry_run,
            from_remote: files_view(self.from_remote@),
            ides: ides_view(self.ides@),
            published: opt_view(self.published),
            plugins: views(self.plugins@),
        }
    }
}

impl Default for SyncReport {
    fn default() -> (r: Self)
        ensures
            r@.machine.len() == 0,
            r@.backend.len() == 0,
            !r@.dry_run,
            r@.from_remote.len() == 0,
            r@.ides.len() == 0,
            r@.published is None,
            r@.plugins.len() == 0,
    {
        SyncReport {
            machine: String::new(),
            backend: String::new(),
            dry_run: false,
            from_remote: Vec::new(),
            ides: Vec::new(),
            published: None,
            plugins: Vec::new(),
        }
    }
}

/// The conflicts reported in `files`.
pub open spec fn conflicts_in(files: Seq<FileReportView>) -> nat
    decreases files.len(),
{
    if files.len() == 0 {
        0
    } else {
        conflicts_in(files.drop_last()) + files.last().conflicts.len()
    }
}

/// The conflicts reported in every IDE.
pub open spec fn conflicts_in_ides(ides: Seq<IdeReportView>) -> nat
    decreases ides.len(),
{
    if ides.len() == 0 {
        0
    } else {
        conflicts_in_ides(ides.drop_last()) + conflicts_in(ides.last().files)
    }
}

/// Every conflict in a report.
pub open spec fn conflict_total(r: SyncReportView) -> nat {
    conflicts_in(r.from_remote) + conflicts_in_ides(r.ides)
}

/// Changes and conflicts reported in `files`: an upper bound of every count a
/// summary takes.
pub open spec fn entries_in(files: Seq<FileReportView>) -> nat
    decreases files.len(),
{
    if files.len() == 0 {
        0
    } else {
        entries_in(files.drop_last()) + files.last().incoming.len() + files.last().outgoing.len()
            + files.last().conflicts.len()
    }
}

pub open spec fn entries_in_ides(ides: Seq<IdeReportView>) -> nat
    decreases ides.len(),
{
    if ides.len() == 0 {
        0
    } else {
        entries_in_ides(ides.drop_last()) + entries_in(ides.last().files)
    }
}

/// Every change and conflict in a report, which a count in `usize` must hold.
pub open spec fn report_size(r: SyncReportView) -> nat {
    entries_in(r.from_remote) + entries_in_ides(r.ides)
}

proof fn lemma_conflicts_within(files: Seq<FileReportView>)
    ensures
        conflicts_in(files) <= entries_in(files),
    decreases files.len(),
{
    if files.len() > 0 {
        lemma_conflicts_within(files.drop_last());
    }
}

proof fn lemma_conflicts_within_ides(ides: Seq<IdeReportView>)
    ensures
        conflicts_in_ides(ides) <= entries_in_ides(ides),
    decreases ides.len(),
{
    if ides.len() > 0 {
        lemma_conflicts_within_ides(ides.drop_last());
        lemma_conflicts_within(ides.last().files);
    }
}

proof fn lemma_entries_prefix(files: Seq<FileReportView>, n: int)
    requires
        0 <= n <= files.len(),
    ensures
        entries_in(files.take(n)) <= entries_in(files),
    decreases files.len() - n,
{
    if n < files.len() {
        assert(files.take(files.len() as int) =~= files);
        lemma_entries_prefix(files, n + 1);
        assert(files.take(n + 1).drop_last() =~= files.take(n));
    } else {
        assert(files.take(n) =~= files);
    }
}

proof fn lemma_entries_ides_prefix(ides: Seq<IdeReportView>, n: int)
    requires
        0 <= n <= ides.len(),
    ensures
        entries_in_ides(ides.take(n)) <= entries_in_ides(ides),
    decreases ides.len() - n,
{
    if n < ides.len() {
        lemma_entries_ides_prefix(ides, n + 1);
        assert(ides.take(n + 1).drop_last() =~= ides.take(n));
    } else {
        assert(ides.take(n) =~= ides);
    }
}

fn count_conflicts(files: &Vec<FileReport>, bound: Ghost<nat>) -> (n: usize)
    requires
        entries_in(files_view(files@)) <= bound@,
        bound@ <= usize::MAX,
    ensures
        n == conflicts_in(files_view(files@)),
{
    let ghost fv = files_view(files@);
    let mut n: usize = 0;
    let mut i: usize = 0;
    while i < files.len()
        invariant
            i <= files@.len(),
            fv == files_view(files@),
            entries_in(fv) <= bound@,
            bound@ <= usize::MAX,
            n == conflicts_in(fv.take(i as int)),
        decreases files@.len() - i,
    {
        proof {
            assert(fv.take(i + 1 as int).drop_last() =~= fv.take(i as int));
            assert(fv.take(i + 1 as int).last() == files@[i as int]@);
            lemma_entries_prefix(fv, i + 1);
            lemma_conflicts_within(fv.take(i + 1 as int));
        }
        n = n + files[i].conflicts.len();
        i = i + 1;
    }
    proof {
        assert(fv.take(i as int) =~= fv);
    }
    n
}

/// How many of `cs` were settled as `side` says: for this machine, for the
/// other one, or (`None`) left unresolved.
pub open spec fn resolved_count(cs: Seq<ConflictView>, side: Option<Side>) -> nat
    decreases cs.len(),
{
    if cs.len() == 0 {
        0
    } else {
        resolved_count(cs.drop_last(), side) + if cs.last().resolved_to == side {
            1nat
        } else {
            0nat
        }
    }
}

/// The conflicts in `files` settled as `side` says.
pub open spec fn resolved_in(files: Seq<FileReportView>, side: Option<Side>) -> nat
    decreases files.len(),
{
    if files.len() == 0 {
        0
    } else {
        resolved_in(files.drop_last(), side) + resolved_count(files.last().conflicts, side)
    }
}

/// The conflicts in every IDE settled as `side` says.
pub open spec fn resolved_in_ides(ides: Seq<IdeReportView>, side: Option<Side>) -> nat
    decreases ides.len(),
{
    if ides.len() == 0 {
        0
    } else {
        resolved_in_ides(ides.drop_last(), side) + resolved_in(ides.last().files, side)
    }
}

/// Every conflict in a report settled as `side` says.
pub open spec fn resolved_total(r: SyncReportView, side: Option<Side>) -> nat {
    resolved_in(r.from_remote, side) + resolved_in_ides(r.ides, side)
}

proof fn lemma_resolved_count_within(cs: Seq<ConflictView>, side: Option<Side>)
    ensures
        resolved_count(cs, side) <= cs.len(),
    decreases cs.len(),
{
    if cs.len() > 0 {
        lemma_resolved_count_within(cs.drop_last(), side);
    }
}

proof fn lemma_resolved_within(files: Seq<FileReportView>, side: Option<Side>)
    ensures
        resolved_in(files, side) <= conflicts_in(files),
    decreases files.len(),
{
    if files.len() > 0 {
        lemma_resolved_within(files.drop_last(), side);
        lemma_resolved_count_within(files.last().conflicts, side);
    }
}

proof fn lemma_resolved_within_ides(ides: Seq<IdeReportView>, side: Option<Side>)
    ensures
        resolved_in_ides(ides, side) <= conflicts_in_ides(ides),
    decreases ides.len(),
{
    if ides.len() > 0 {
        lemma_resolved_within_ides(ides.drop_last(), side);
        lemma_resolved_within(ides.last().files, side);
    }
}

fn same_side(a: Option<Side>, b: Option<Side>) -> (r: bool)
    ensures
        r == (a == b),
{
    match (a, b) {
        (Some(Side::Local), Some(Side::Local)) => true,
        (Some(Side::Remote), Some(Side::Remote)) => true,
        (None, None) => true,
        _ => false,
    }
}

/// The conflicts of one file settled as `side` says.
fn count_resolved_in(cs: &Vec<Conflict>, side: Option<Side>) -> (n: usize)
    ensures
        n == resolved_count(conflicts_view(cs@), side),
{
    let ghost cv = conflicts_view(cs@);
    let mut n: usize = 0;
    let mut j: usize = 0;
    while j < cs.len()
        invariant
            j <= cs@.len(),
            cv == conflicts_view(cs@),
            n == resolved_count(cv.take(j as int), side),
            n <= j,
        decreases cs@.len() - j,
    {
        proof {
            assert(cv.take(j + 1 as int).drop_last() =~= cv.take(j as int));
            assert(cv.take(j + 1 as int).last() == cs@[j as int]@);
        }
        if same_side(cs[j].resolved_to, side) {
            n = n + 1;
        }
        j = j + 1;
    }
    proof {
        assert(cv.take(j as int) =~= cv);
    }
    n
}

/// The conflicts in `files` settled as `side` says, below `bound`.
fn count_resolved_files(files: &Vec<FileReport>, side: Option<Side>, bound: Ghost<nat>) -> (n: usize)
    requires
        entries_in(files_view(files@)) <= bound@,
        bound@ <= usize::MAX,
    ensures
        n == resolved_in(files_view(files@), side),
{
    let ghost fv = files_view(files@);
    let mut n: usize = 0;
    let mut i: usize = 0;
    while i < files.len()
        invariant
            i <= files@.len(),
            fv == files_view(files@),
            entries_in(fv) <= bound@,
            bound@ <= usize::MAX,
            n == resolved_in(fv.take(i as int), side),
        decreases files@.len() - i,
    {
        proof {
            assert(fv.take(i + 1 as int).drop_last() =~= fv.take(i as int));
            assert(fv.take(i + 1 as int).last() == files@[i as int]@);
            lemma_entries_prefix(fv, i + 1);
            lemma_conflicts_within(fv.take(i + 1 as int));
            lemma_resolved_within(fv.take(i + 1 as int), side);
        }
        let more = count_resolved_in(&files[i].conflicts, side);
        n = n + more;
        i = i + 1;
    }
    proof {
        assert(fv.take(i as int) =~= fv);
    }
    n
}

impl SyncReport {
    /// The conflicts in the report settled as `side` says: for this machine,
    /// for the other one, or (`None`) left unresolved.
    pub fn resolved(&self, side: Option<Side>) -> (n: usize)
        requires
            report_size(self@) <= usize::MAX,
        ensures
            n == resolved_total(self@, side),
    {
        let ghost rv = self@;
        let ghost bound = report_size(rv);
        proof {
            lemma_conflicts_within(rv.from_remote);
            lemma_resolved_within(rv.from_remote, side);
        }
        let first = count_resolved_files(&self.from_remote, side, Ghost(bound));
        let mut n: usize = first;
        let mut i: usize = 0;
        while i < self.ides.len()
            invariant
                i <= self.ides@.len(),
                rv == self@,
                bound == report_size(rv),
                bound <= usize::MAX,
                n == resolved_in(rv.from_remote, side) + resolved_in_ides(rv.ides.take(i as int), side),
            decreases self.ides@.len() - i,
        {
            proof {
                assert(rv.ides.take(i + 1 as int).drop_last() =~= rv.ides.take(i as int));
                assert(rv.ides.take(i + 1 as int).last() == self.ides@[i as int]@);
                lemma_entries_ides_prefix(rv.ides, i + 1);
                lemma_conflicts_within_ides(rv.ides.take(i + 1 as int));
                lemma_resolved_within_ides(rv.ides.take(i + 1 as int), side);
                lemma_conflicts_within(rv.from_remote);
                lemma_resolved_within(rv.from_remote, side);
                assert(entries_in(files_view(self.ides@[i as int].files@)) <= entries_in_ides(rv.ides.take(i + 1 as int)));
            }
            let more = count_resolved_files(&self.ides[i].files, side, Ghost(bound));
            n = n + more;
            i = i + 1;
        }
        proof {
            assert(rv.ides.take(i as int) =~= rv.ides);
        }
        n
    }
}

/// Whether nothing about a report is news.
pub open spec fn report_empty(r: SyncReportView) -> bool {
    &&& all_files_empty(r.from_remote)
    &&& forall|i: int| 0 <= i < r.ides.len() ==> all_files_empty(#[trigger] r.ides[i].files)
    &&& forall|i: int| 0 <= i < r.ides.len() ==> (#[trigger] r.ides[i]).skipped is None
    &&& r.plugins.len() == 0
}

/// Whether a report has anything to print at the requested detail level.
pub open spec fn report_detail(r: SyncReportView, verbose: bool) -> bool {
    !report_empty(r) || (verbose && (any_file_detail(r.from_remote) || exists|i: int|
        0 <= i < r.ides.len() && any_file_detail(#[trigger] r.ides[i].files)))
}

impl SyncReport {
    /// Every conflict in the report. The report holds fewer entries than
    /// `usize` counts.
    pub fn conflicts(&self) -> (n: usize)
        requires
            report_size(self@) <= usize::MAX,
        ensures
            n == conflict_total(self@),
    {
        let ghost rv = self@;
        let ghost bound = report_size(rv);
        let first = count_conflicts(&self.from_remote, Ghost(bound));
        let mut n: usize = first;
        let mut i: usize = 0;
        while i < self.ides.len()
            invariant
                i <= self.ides@.len(),
                rv == self@,
                bound == report_size(rv),
                bound <= usize::MAX,
                n == conflicts_in(rv.from_remote) + conflicts_in_ides(rv.ides.take(i as int)),
            decreases self.ides@.len() - i,
        {
            proof {
                assert(rv.ides.take(i + 1 as int).drop_last() =~= rv.ides.take(i as int));
                assert(rv.ides.take(i + 1 as int).last() == self.ides@[i as int]@);
                lemma_entries_ides_prefix(rv.ides, i + 1);
                lemma_conflicts_within_ides(rv.ides.take(i + 1 as int));
                lemma_conflicts_within(rv.from_remote);
                assert(entries_in(files_view(self.ides@[i as int].files@)) <= entries_in_ides(rv.ides.take(i + 1 as int)));
            }
            let more = count_conflicts(&self.ides[i].files, Ghost(bound));
            n = n + more;
            i = i + 1;
        }
        proof {
            assert(rv.ides.take(i as int) =~= rv.ides);
        }
        n
    }

    pub fn is_empty(&self) -> (b: bool)
        ensures
            b == report_empty(self@),
    {
        let ghost rv = self@;
        if !all_empty(&self.from_remote) {
            return false;
        }
        let mut i: usize = 0;
        while i < self.ides.len()
            invariant
                i <= self.ides@.len(),
                rv == self@,
                forall|k: int| 0 <= k < i ==> all_files_empty(#[trigger] rv.ides[k].files),
                forall|k: int| 0 <= k < i ==> (#[trigger] rv.ides[k]).skipped is None,
            decreases self.ides@.len() - i,
        {
            proof {
                assert(rv.ides[i as int] == self.ides@[i as int]@);
            }
            if !self.ides[i].is_empty() || self.ides[i].skipped.is_some() {
                return false;
            }
            i = i + 1;
        }
        self.plugins.len() == 0
    }

    /// Whether there is anything to print at the requested detail level.
    pub fn has_detail(&self, verbose: bool) -> (b: bool)
        ensures
            b == report_detail(self@, verbose),
    {
        if !self.is_empty() {
            return true;
        }
        if !verbose {
            return false;
        }
        if any_detail(&self.from_remote) {
            return true;
        }
        let ghost rv = self@;
        let mut i: usize = 0;
        while i < self.ides.len()
            invariant
                i <= self.ides@.len(),
                rv == self@,
                verbose,
                report_empty(rv),
                !any_file_detail(rv.from_remote),
                forall|k: int| 0 <= k < i ==> !any_file_detail(#[trigger] rv.ides[k].files),
            decreases self.ides@.len() - i,
        {
            proof {
                assert(rv.ides[i as int] == self.ides@[i as int]@);
            }
            if self.ides[i].has_detail() {
                proof {
                    assert(any_file_detail(rv.ides[i as int].files));
                }
                return true;
            }
            i = i + 1;
        }
        false
    }
}


/// `s` padded with spaces to `n` characters, as `{:<n}` formats it.
pub open spec fn pad(s: Seq<char>, n: nat) -> Seq<char> {
    if s.len() >= n {
        s
    } else {
        s + spaces((n - s.len()) as nat)
    }
}

fn pad_right(s: &str, n: usize) -> (r: String)
    ensures
        r@ == pad(s@, n as nat),
{
    let chars = crate::text::chars_of(s);
    let mut r = s.to_owned();
    if chars.len() < n {
        let mut i: usize = chars.len();
        proof {
            assert(r@ =~= s@ + spaces(0));
        }
        while i < n
            invariant
                chars@.len() <= i <= n,
                chars@ == s@,
                r@ == s@ + spaces((i - chars@.len()) as nat),
            decreases n - i,
        {
            r.append(" ");
            proof {
                reveal_strlit(" ");
                assert(r@ =~= s@ + spaces((i + 1 - chars@.len()) as nat));
            }
            i = i + 1;
        }
    }
    r
}

/// Width of the direction column, sized to the longest label so the setting
/// names line up in one column.
pub open spec fn label_width() -> nat {
    8
}

/// A value as a report shows it; an absent one is at its default.
pub open spec fn value_text(v: Option<Seq<char>>) -> Seq<char> {
    match v {
        Some(t) => t,
        None => "(default)"@,
    }
}

fn describe_value(v: &Option<String>) -> (r: String)
    ensures
        r@ == value_text(opt_view(*v)),
{
    match v {
        Some(t) => t.clone(),
        None => "(default)".to_owned(),
    }
}

/// `from -> to`, or just the new value when there was nothing before.
pub open spec fn transition_text(style: Style, from: Option<Seq<char>>, to: Option<Seq<char>>) -> Seq<char> {
    let arrow = style.paint_spec("2"@, "->"@);
    match (from, to) {
        (None, Some(t)) => t,
        (Some(f), None) => f + " "@ + arrow + " "@ + style.paint_spec("2"@, "(default)"@),
        _ => value_text(from) + " "@ + arrow + " "@ + value_text(to),
    }
}

fn transition(style: Style, from: &Option<String>, to: &Option<String>) -> (r: String)
    ensures
        r@ == transition_text(style, opt_view(*from), opt_view(*to)),
{
    let arrow = style.dim("->");
    match (from, to) {
        (None, Some(t)) => t.clone(),
        (Some(f), None) => {
            let mut r = concat(f.as_str(), " ");
            r.append(arrow.as_str());
            r.append(" ");
            let d = style.dim("(default)");
            r.append(d.as_str());
            r
        },
        _ => {
            let mut r = describe_value(from);
            r.append(" ");
            r.append(arrow.as_str());
            r.append(" ");
            let t = describe_value(to);
            r.append(t.as_str());
            r
        },
    }
}

/// A change with no projection address is about the file as a whole.
pub open spec fn whole(c: ChangeView) -> bool {
    c.path.len() == 0
}

pub open spec fn whole_phrase(c: ChangeView) -> Seq<char> {
    if c.from is None && c.to is Some {
        "the whole file, new here"@
    } else if c.from is Some && c.to is None {
        "the whole file, no longer synced"@
    } else {
        "the whole file"@
    }
}

/// The line for one change, under `label`. A whole-file change has no setting
/// to name and no values, so it reads as a phrase instead.
pub open spec fn change_line(label: Seq<char>, c: ChangeView, indent: Seq<char>, style: Style) -> Seq<char> {
    if whole(c) {
        indent + label + "  "@ + style.paint_spec("2"@, whole_phrase(c))
    } else {
        indent + pad(label, label_width()) + "  "@ + pad(c.setting, 34) + "  "@ + transition_text(style, c.from, c.to)
    }
}

fn render_change(out: &mut Vec<String>, label: &str, change: &Change, indent: &str, style: Style)
    ensures
        views(final(out)@) == views(old(out)@).push(change_line(label@, change@, indent@, style)),
{
    let line = if change.path.as_str().is_empty() {
        let phrase = if change.from.is_none() && change.to.is_some() {
            "the whole file, new here"
        } else if change.from.is_some() && change.to.is_none() {
            "the whole file, no longer synced"
        } else {
            "the whole file"
        };
        let mut line = concat(indent, label);
        line.append("  ");
        let d = style.dim(phrase);
        line.append(d.as_str());
        line
    } else {
        let mut line = indent.to_owned();
        let l = pad_right(label, 8);
        line.append(l.as_str());
        line.append("  ");
        let name = pad_right(change.setting.as_str(), 34);
        line.append(name.as_str());
        line.append("  ");
        let t = transition(style, &change.from, &change.to);
        line.append(t.as_str());
        line
    };
    let ghost prev = out@;
    out.push(line);
    proof {
        assert(views(out@) =~= views(prev).push(line@));
    }
}

/// The lines of each change in turn.
pub open spec fn change_lines(cs: Seq<ChangeView>, label: Seq<char>, indent: Seq<char>, style: Style) -> Seq<Seq<char>>
    decreases cs.len(),
{
    if cs.len() == 0 {
        Seq::empty()
    } else {
        change_lines(cs.drop_last(), label, indent, style).push(change_line(label, cs.last(), indent, style))
    }
}

fn render_changes(out: &mut Vec<String>, label: &str, changes: &Vec<Change>, indent: &str, style: Style)
    ensures
        views(final(out)@) == views(old(out)@) + change_lines(changes_view(changes@), label@, indent@, style),
{
    let ghost cv = changes_view(changes@);
    let mut i: usize = 0;
    while i < changes.len()
        invariant
            i <= changes@.len(),
            cv == changes_view(changes@),
            views(out@) == views(old(out)@) + change_lines(cv.take(i as int), label@, indent@, style),
        decreases changes@.len() - i,
    {
        proof {
            assert(cv.take(i + 1 as int).drop_last() =~= cv.take(i as int));
            assert(cv.take(i + 1 as int).last() == changes@[i as int]@);
        }
        render_change(out, label, &changes[i], indent, style);
        i = i + 1;
    }
    proof {
        assert(cv.take(i as int) =~= cv);
    }
}

/// The indentation of a conflict's detail lines.
pub open spec fn detail_indent(indent: Seq<char>) -> Seq<char> {
    indent + spaces(label_width()) + "  "@
}

/// The marker on the side a conflict kept.
pub open spec fn kept_mark(c: ConflictView, side: Side, style: Style) -> Seq<char> {
    if c.resolved_to == Some(side) {
        style.paint_spec("32"@, "  <- kept"@)
    } else {
        Seq::empty()
    }
}

/// A conflict takes several lines: the setting, each side's value with the
/// kept one marked, and a warning when it stayed unresolved.
pub open spec fn conflict_lines(c: ConflictView, indent: Seq<char>, style: Style) -> Seq<Seq<char>> {
    let detail = detail_indent(indent);
    seq![
        indent + style.paint_spec("33"@, pad("conflict"@, label_width())) + "  "@ + style.paint_spec("1"@, c.setting),
        detail + "this machine   "@ + value_text(c.local) + kept_mark(c, Side::Local, style),
        detail + "other machine  "@ + value_text(c.remote) + kept_mark(c, Side::Remote, style),
    ] + if c.resolved_to is None {
        seq![detail + style.paint_spec("33"@, "unresolved"@)]
    } else {
        Seq::empty()
    }
}

fn kept(conflict: &Conflict, side: Side, style: Style) -> (r: String)
    ensures
        r@ == kept_mark(conflict@, side, style),
{
    let hit = match conflict.resolved_to {
        Some(s) => match (s, side) {
            (Side::Local, Side::Local) => true,
            (Side::Remote, Side::Remote) => true,
            _ => false,
        },
        None => false,
    };
    if hit {
        style.green("  <- kept")
    } else {
        String::new()
    }
}

fn push_line(out: &mut Vec<String>, line: String)
    ensures
        views(final(out)@) == views(old(out)@).push(line@),
{
    let ghost prev = out@;
    out.push(line);
    proof {
        assert(views(out@) =~= views(prev).push(line@));
    }
}

fn render_conflict(out: &mut Vec<String>, conflict: &Conflict, indent: &str, style: Style)
    ensures
        views(final(out)@) == views(old(out)@) + conflict_lines(conflict@, indent@, style),
{
    let ghost start = views(out@);
    let label = pad_right("conflict", 8);
    let mut first = indent.to_owned();
    let y = style.yellow(label.as_str());
    first.append(y.as_str());
    first.append("  ");
    let b = style.bold(conflict.setting.as_str());
    first.append(b.as_str());
    push_line(out, first);
    let gap = pad_right("", 8);
    proof {
        reveal_strlit("");
        assert(""@ + spaces(8) =~= spaces(8));
    }
    let mut detail = concat(indent, gap.as_str());
    detail.append("  ");
    let mut second = concat(detail.as_str(), "this machine   ");
    let local = describe_value(&conflict.local);
    second.append(local.as_str());
    let k = kept(conflict, Side::Local, style);
    second.append(k.as_str());
    push_line(out, second);
    let mut third = concat(detail.as_str(), "other machine  ");
    let remote = describe_value(&conflict.remote);
    third.append(remote.as_str());
    let k = kept(conflict, Side::Remote, style);
    third.append(k.as_str());
    push_line(out, third);
    if conflict.resolved_to.is_none() {
        let mut fourth = detail.clone();
        let u = style.yellow("unresolved");
        fourth.append(u.as_str());
        push_line(out, fourth);
    }
    proof {
        assert(views(out@) =~= start + conflict_lines(conflict@, indent@, style));
    }
}

/// The lines of each conflict in turn.
pub open spec fn conflicts_lines(cs: Seq<ConflictView>, indent: Seq<char>, style: Style) -> Seq<Seq<char>>
    decreases cs.len(),
{
    if cs.len() == 0 {
        Seq::empty()
    } else {
        conflicts_lines(cs.drop_last(), indent, style) + conflict_lines(cs.last(), indent, style)
    }
}

/// The line for one setting dropped as not a choice.
pub open spec fn pruned_line(r: (Seq<char>, Seq<char>), indent: Seq<char>, style: Style) -> Seq<char> {
    indent + style.paint_spec("2"@, pad("dropped"@, label_width())) + "  "@ + pad(r.0, 34) + "  "@ + style.paint_spec(
        "2"@,
        r.1,
    )
}

pub open spec fn pruned_lines(rs: Seq<(Seq<char>, Seq<char>)>, indent: Seq<char>, style: Style) -> Seq<Seq<char>>
    decreases rs.len(),
{
    if rs.len() == 0 {
        Seq::empty()
    } else {
        pruned_lines(rs.drop_last(), indent, style).push(pruned_line(rs.last(), indent, style))
    }
}

/// Everything shown for one file: its path, then what arrives, what leaves,
/// the conflicts, and, when verbose, what was dropped.
pub open spec fn file_lines(f: FileReportView, indent: Seq<char>, verbose: bool, style: Style) -> Seq<Seq<char>> {
    let inner = indent + "  "@;
    seq![indent + style.paint_spec("1"@, f.path)] + change_lines(
        f.incoming,
        style.paint_spec("36"@, pad("to IDE"@, label_width())),
        inner,
        style,
    ) + change_lines(f.outgoing, style.paint_spec("32"@, pad("to store"@, label_width())), inner, style)
        + conflicts_lines(f.conflicts, inner, style) + if verbose {
        pruned_lines(f.pruned, inner, style)
    } else {
        Seq::empty()
    }
}

fn render_file(out: &mut Vec<String>, file: &FileReport, indent: &str, verbose: bool, style: Style)
    ensures
        views(final(out)@) == views(old(out)@) + file_lines(file@, indent@, verbose, style),
{
    let ghost start = views(out@);
    let mut head = indent.to_owned();
    let b = style.bold(file.path.as_str());
    head.append(b.as_str());
    push_line(out, head);
    let inner = concat(indent, "  ");
    let to_ide = pad_right("to IDE", 8);
    let to_ide = style.cyan(to_ide.as_str());
    render_changes(out, to_ide.as_str(), &file.incoming, inner.as_str(), style);
    let to_store = pad_right("to store", 8);
    let to_store = style.green(to_store.as_str());
    render_changes(out, to_store.as_str(), &file.outgoing, inner.as_str(), style);
    let ghost cv = conflicts_view(file.conflicts@);
    let ghost before_conflicts = views(out@);
    let mut i: usize = 0;
    while i < file.conflicts.len()
        invariant
            i <= file.conflicts@.len(),
            cv == conflicts_view(file.conflicts@),
            views(out@) == before_conflicts + conflicts_lines(cv.take(i as int), inner@, style),
        decreases file.conflicts@.len() - i,
    {
        proof {
            assert(cv.take(i + 1 as int).drop_last() =~= cv.take(i as int));
            assert(cv.take(i + 1 as int).last() == file.conflicts@[i as int]@);
        }
        render_conflict(out, &file.conflicts[i], inner.as_str(), style);
        i = i + 1;
    }
    proof {
        assert(cv.take(i as int) =~= cv);
    }
    let ghost before_pruned = views(out@);
    if verbose {
        let ghost rv = removals_view(file.pruned@);
        let dropped = pad_right("dropped", 8);
        let dropped = style.dim(dropped.as_str());
        let mut k: usize = 0;
        while k < file.pruned.len()
            invariant
                k <= file.pruned@.len(),
                rv == removals_view(file.pruned@),
                views(out@) == before_pruned + pruned_lines(rv.take(k as int), inner@, style),
                dropped@ == style.paint_spec("2"@, pad("dropped"@, label_width())),
            decreases file.pruned@.len() - k,
        {
            proof {
                assert(rv.take(k + 1 as int).drop_last() =~= rv.take(k as int));
                assert(rv.take(k + 1 as int).last() == removal_view(file.pruned@[k as int]));
            }
            let removal = &file.pruned[k];
            let mut line = concat(inner.as_str(), dropped.as_str());
            line.append("  ");
            let p = pad_right(removal.path.as_str(), 34);
            line.append(p.as_str());
            line.append("  ");
            let r = style.dim(removal.reason.as_str());
            line.append(r.as_str());
            push_line(out, line);
            k = k + 1;
        }
        proof {
            assert(rv.take(k as int) =~= rv);
        }
    } else {
        proof {
            assert(views(out@) =~= before_pruned + Seq::<Seq<char>>::empty());
        }
    }
    proof {
        assert(views(out@) =~= start + file_lines(file@, indent@, verbose, style));
    }
}


/// Whether `changes` is non-empty and only about whole files.
pub open spec fn only_whole(changes: Seq<ChangeView>) -> bool {
    changes.len() > 0 && forall|i: int| 0 <= i < changes.len() ==> whole(#[trigger] changes[i])
}

/// Whether every change in `changes` removes its subject.
pub open spec fn all_gone(changes: Seq<ChangeView>) -> bool {
    forall|i: int| 0 <= i < changes.len() ==> (#[trigger] changes[i]).to is None
}

/// Files whose only news is that they arrived or left, counted rather than
/// listed: the paths copied into the IDE, published to the store, and no
/// longer synced.
pub open spec fn bulk_of(files: Seq<FileReportView>) -> (Seq<Seq<char>>, Seq<Seq<char>>, Seq<Seq<char>>)
    decreases files.len(),
{
    if files.len() == 0 {
        (Seq::empty(), Seq::empty(), Seq::empty())
    } else {
        let b = bulk_of(files.drop_last());
        let f = files.last();
        if f.conflicts.len() > 0 {
            b
        } else if f.incoming.len() == 0 && only_whole(f.outgoing) {
            if all_gone(f.outgoing) {
                (b.0, b.1, b.2.push(f.path))
            } else {
                (b.0, b.1.push(f.path), b.2)
            }
        } else if f.outgoing.len() == 0 && only_whole(f.incoming) {
            if all_gone(f.incoming) {
                (b.0, b.1, b.2.push(f.path))
            } else {
                (b.0.push(f.path), b.1, b.2)
            }
        } else {
            b
        }
    }
}

struct BulkFiles {
    to_ide: Vec<String>,
    to_store: Vec<String>,
    removed: Vec<String>,
}

fn is_only_whole(changes: &Vec<Change>) -> (b: bool)
    ensures
        b == only_whole(changes_view(changes@)),
{
    if changes.len() == 0 {
        return false;
    }
    let mut i: usize = 0;
    while i < changes.len()
        invariant
            i <= changes@.len(),
            forall|k: int| 0 <= k < i ==> whole(#[trigger] changes_view(changes@)[k]),
        decreases changes@.len() - i,
    {
        proof {
            assert(changes_view(changes@)[i as int] == changes@[i as int]@);
        }
        if !changes[i].path.as_str().is_empty() {
            return false;
        }
        i = i + 1;
    }
    true
}

fn is_all_gone(changes: &Vec<Change>) -> (b: bool)
    ensures
        b == all_gone(changes_view(changes@)),
{
    let mut i: usize = 0;
    while i < changes.len()
        invariant
            i <= changes@.len(),
            forall|k: int| 0 <= k < i ==> (#[trigger] changes_view(changes@)[k]).to is None,
        decreases changes@.len() - i,
    {
        proof {
            assert(changes_view(changes@)[i as int] == changes@[i as int]@);
        }
        if changes[i].to.is_some() {
            return false;
        }
        i = i + 1;
    }
    true
}

fn split_bulk(files: &Vec<FileReport>) -> (b: BulkFiles)
    ensures
        (views(b.to_ide@), views(b.to_store@), views(b.removed@)) == bulk_of(files_view(files@)),
{
    let ghost fv = files_view(files@);
    let mut bulk = BulkFiles { to_ide: Vec::new(), to_store: Vec::new(), removed: Vec::new() };
    proof {
        assert(views(bulk.to_ide@) =~= Seq::<Seq<char>>::empty());
        assert(views(bulk.to_store@) =~= Seq::<Seq<char>>::empty());
        assert(views(bulk.removed@) =~= Seq::<Seq<char>>::empty());
    }
    let mut i: usize = 0;
    while i < files.len()
        invariant
            i <= files@.len(),
            fv == files_view(files@),
            (views(bulk.to_ide@), views(bulk.to_store@), views(bulk.removed@)) == bulk_of(fv.take(i as int)),
        decreases files@.len() - i,
    {
        let file = &files[i];
        proof {
            assert(fv.take(i + 1 as int).drop_last() =~= fv.take(i as int));
            assert(fv.take(i + 1 as int).last() == file@);
        }
        if file.conflicts.len() == 0 {
            if file.incoming.len() == 0 && is_only_whole(&file.outgoing) {
                if is_all_gone(&file.outgoing) {
                    push_line(&mut bulk.removed, file.path.clone());
                } else {
                    push_line(&mut bulk.to_store, file.path.clone());
                }
            } else if file.outgoing.len() == 0 && is_only_whole(&file.incoming) {
                if is_all_gone(&file.incoming) {
                    push_line(&mut bulk.removed, file.path.clone());
                } else {
                    push_line(&mut bulk.to_ide, file.path.clone());
                }
            }
        }
        i = i + 1;
    }
    proof {
        assert(fv.take(i as int) =~= fv);
    }
    bulk
}

/// "1 file" but "2 files".
pub open spec fn plural_text(count: nat, noun: Seq<char>) -> Seq<char> {
    decimal(count) + " "@ + noun + if count == 1 {
        Seq::<char>::empty()
    } else {
        "s"@
    }
}

fn plural(count: usize, noun: &str) -> (r: String)
    ensures
        r@ == plural_text(count as nat, noun@),
{
    let mut r = decimal_string(count);
    r.append(" ");
    r.append(noun);
    if count != 1 {
        r.append("s");
    } else {
        proof {
            assert(r@ =~= r@ + Seq::<char>::empty());
        }
    }
    r
}

/// One line of the bulk summary, followed when verbose by its paths.
pub open spec fn bulk_line(label: Seq<char>, paths: Seq<Seq<char>>, coloured: Seq<char>, indent: Seq<char>, verbose: bool, style: Style) -> Seq<
    Seq<char>,
> {
    if paths.len() == 0 {
        Seq::empty()
    } else {
        seq![indent + coloured + "  "@ + plural_text(paths.len(), "file"@) + " "@ + label] + if verbose {
            paths.map_values(|p: Seq<char>| indent + spaces(label_width()) + "  "@ + style.paint_spec("2"@, p))
        } else {
            Seq::empty()
        }
    }
}

pub open spec fn bulk_lines(b: (Seq<Seq<char>>, Seq<Seq<char>>, Seq<Seq<char>>), indent: Seq<char>, verbose: bool, style: Style) -> Seq<
    Seq<char>,
> {
    bulk_line("copied into this IDE"@, b.0, style.paint_spec("36"@, pad("to IDE"@, label_width())), indent, verbose, style)
        + bulk_line("published from this IDE"@, b.1, style.paint_spec("32"@, pad("to store"@, label_width())), indent, verbose, style)
        + bulk_line("no longer synced"@, b.2, style.paint_spec("2"@, pad("removed"@, label_width())), indent, verbose, style)
}

fn render_bulk_line(out: &mut Vec<String>, label: &str, paths: &Vec<String>, coloured: &str, indent: &str, verbose: bool, style: Style)
    ensures
        views(final(out)@) == views(old(out)@) + bulk_line(label@, views(paths@), coloured@, indent@, verbose, style),
{
    let ghost start = views(out@);
    if paths.len() == 0 {
        proof {
            assert(views(out@) =~= start + Seq::<Seq<char>>::empty());
        }
        return;
    }
    let mut line = concat(indent, coloured);
    line.append("  ");
    let count = plural(paths.len(), "file");
    line.append(count.as_str());
    line.append(" ");
    line.append(label);
    push_line(out, line);
    let ghost after_head = views(out@);
    if verbose {
        let gap = pad_right("", 8);
        proof {
            reveal_strlit("");
            assert(""@ + spaces(8) =~= spaces(8));
        }
        let mut i: usize = 0;
        while i < paths.len()
            invariant
                i <= paths@.len(),
                gap@ == spaces(8),
                views(out@) == after_head + views(paths@).take(i as int).map_values(
                    |p: Seq<char>| indent@ + spaces(label_width()) + "  "@ + style.paint_spec("2"@, p),
                ),
            decreases paths@.len() - i,
        {
            let mut row = concat(indent, gap.as_str());
            row.append("  ");
            let d = style.dim(paths[i].as_str());
            row.append(d.as_str());
            push_line(out, row);
            proof {
                assert(views(paths@).take(i + 1 as int).map_values(
                    |p: Seq<char>| indent@ + spaces(label_width()) + "  "@ + style.paint_spec("2"@, p),
                ) =~= views(paths@).take(i as int).map_values(
                    |p: Seq<char>| indent@ + spaces(label_width()) + "  "@ + style.paint_spec("2"@, p),
                ).push(indent@ + spaces(label_width()) + "  "@ + style.paint_spec("2"@, paths@[i as int]@)));
            }
            i = i + 1;
        }
        proof {
            assert(views(paths@).take(i as int) =~= views(paths@));
        }
    } else {
        proof {
            assert(views(out@) =~= after_head + Seq::<Seq<char>>::empty());
        }
    }
}

fn render_bulk(out: &mut Vec<String>, bulk: &BulkFiles, indent: &str, verbose: bool, style: Style)
    ensures
        views(final(out)@) == views(old(out)@) + bulk_lines(
            (views(bulk.to_ide@), views(bulk.to_store@), views(bulk.removed@)),
            indent@,
            verbose,
            style,
        ),
{
    let ghost start = views(out@);
    let l = pad_right("to IDE", 8);
    let c = style.cyan(l.as_str());
    render_bulk_line(out, "copied into this IDE", &bulk.to_ide, c.as_str(), indent, verbose, style);
    let l = pad_right("to store", 8);
    let c = style.green(l.as_str());
    render_bulk_line(out, "published from this IDE", &bulk.to_store, c.as_str(), indent, verbose, style);
    let l = pad_right("removed", 8);
    let c = style.dim(l.as_str());
    render_bulk_line(out, "no longer synced", &bulk.removed, c.as_str(), indent, verbose, style);
    proof {
        assert(views(out@) =~= start + bulk_lines(
            (views(bulk.to_ide@), views(bulk.to_store@), views(bulk.removed@)),
            indent@,
            verbose,
            style,
        ));
    }
}

/// Whether a file is counted in the bulk summary rather than listed.
pub open spec fn bulked(b: (Seq<Seq<char>>, Seq<Seq<char>>, Seq<Seq<char>>), path: Seq<char>) -> bool {
    b.0.contains(path) || b.1.contains(path) || b.2.contains(path)
}

/// Whether a file is worth listing at the detail level.
pub open spec fn interesting(f: FileReportView, verbose: bool) -> bool {
    if verbose {
        file_detail(f)
    } else {
        !file_empty(f)
    }
}

/// The listed files' lines, in order.
pub open spec fn listed_lines(
    files: Seq<FileReportView>,
    b: (Seq<Seq<char>>, Seq<Seq<char>>, Seq<Seq<char>>),
    indent: Seq<char>,
    verbose: bool,
    style: Style,
) -> Seq<Seq<char>>
    decreases files.len(),
{
    if files.len() == 0 {
        Seq::empty()
    } else {
        let rest = listed_lines(files.drop_last(), b, indent, verbose, style);
        let f = files.last();
        if bulked(b, f.path) || !interesting(f, verbose) {
            rest
        } else {
            rest + file_lines(f, indent, verbose, style)
        }
    }
}

/// A list of files as a report shows it: each listed file with its detail,
/// then the bulk summary of those that only arrived or left.
pub open spec fn files_lines(files: Seq<FileReportView>, indent: Seq<char>, verbose: bool, style: Style) -> Seq<Seq<char>> {
    let b = bulk_of(files);
    listed_lines(files, b, indent, verbose, style) + if b.0.len() == 0 && b.1.len() == 0 && b.2.len() == 0 {
        Seq::empty()
    } else {
        bulk_lines(b, indent, verbose, style)
    }
}

fn render_files(out: &mut Vec<String>, files: &Vec<FileReport>, indent: &str, verbose: bool, style: Style)
    ensures
        views(final(out)@) == views(old(out)@) + files_lines(files_view(files@), indent@, verbose, style),
{
    let ghost start = views(out@);
    let ghost fv = files_view(files@);
    let bulk = split_bulk(files);
    let ghost b = (views(bulk.to_ide@), views(bulk.to_store@), views(bulk.removed@));
    let mut i: usize = 0;
    while i < files.len()
        invariant
            i <= files@.len(),
            fv == files_view(files@),
            b == (views(bulk.to_ide@), views(bulk.to_store@), views(bulk.removed@)),
            views(out@) == start + listed_lines(fv.take(i as int), b, indent@, verbose, style),
        decreases files@.len() - i,
    {
        let file = &files[i];
        proof {
            assert(fv.take(i + 1 as int).drop_last() =~= fv.take(i as int));
            assert(fv.take(i + 1 as int).last() == file@);
        }
        let p = file.path.as_str();
        let counted = crate::text::contains_str(&bulk.to_ide, p) || crate::text::contains_str(&bulk.to_store, p)
            || crate::text::contains_str(&bulk.removed, p);
        let shown = if verbose {
            file.has_detail()
        } else {
            !file.is_empty()
        };
        if !counted && shown {
            let ghost before = views(out@);
            render_file(out, file, indent, verbose, style);
            proof {
                assert(views(out@) =~= start + listed_lines(fv.take(i + 1 as int), b, indent@, verbose, style));
            }
        }
        i = i + 1;
    }
    proof {
        assert(fv.take(i as int) =~= fv);
    }
    if bulk.to_ide.len() != 0 || bulk.to_store.len() != 0 || bulk.removed.len() != 0 {
        render_bulk(out, &bulk, indent, verbose, style);
        proof {
            assert(views(out@) =~= start + files_lines(fv, indent@, verbose, style));
        }
    } else {
        proof {
            assert(views(out@) =~= start + files_lines(fv, indent@, verbose, style));
        }
    }
}


/// Counts for the one-line summary. Whole files and individual settings are
/// different units, so they are counted apart.
pub struct TallyView {
    pub settings_in: nat,
    pub settings_out: nat,
    pub files_in: nat,
    pub files_out: nat,
}

/// The settings and the whole files among `cs`.
pub open spec fn counts_of(cs: Seq<ChangeView>) -> (nat, nat)
    decreases cs.len(),
{
    if cs.len() == 0 {
        (0, 0)
    } else {
        let c = counts_of(cs.drop_last());
        if whole(cs.last()) {
            (c.0, c.1 + 1)
        } else {
            (c.0 + 1, c.1)
        }
    }
}

pub open spec fn tally_add(a: TallyView, incoming: Seq<ChangeView>, outgoing: Seq<ChangeView>) -> TallyView {
    TallyView {
        settings_in: a.settings_in + counts_of(incoming).0,
        settings_out: a.settings_out + counts_of(outgoing).0,
        files_in: a.files_in + counts_of(incoming).1,
        files_out: a.files_out + counts_of(outgoing).1,
    }
}

pub open spec fn tally_files(a: TallyView, files: Seq<FileReportView>) -> TallyView
    decreases files.len(),
{
    if files.len() == 0 {
        a
    } else {
        let f = files.last();
        tally_add(tally_files(a, files.drop_last()), f.incoming, f.outgoing)
    }
}

pub open spec fn tally_ides(a: TallyView, ides: Seq<IdeReportView>) -> TallyView
    decreases ides.len(),
{
    if ides.len() == 0 {
        a
    } else {
        tally_files(tally_ides(a, ides.drop_last()), ides.last().files)
    }
}

pub open spec fn no_tally() -> TallyView {
    TallyView { settings_in: 0, settings_out: 0, files_in: 0, files_out: 0 }
}

/// The counts of a whole report: what came from other machines, then each
/// IDE's files.
pub open spec fn tally_of(r: SyncReportView) -> TallyView {
    tally_ides(tally_files(no_tally(), r.from_remote), r.ides)
}

/// The largest of a tally's counts grows by no more than the entries added.
pub open spec fn tally_within(t: TallyView, bound: nat) -> bool {
    t.settings_in + t.files_in + t.settings_out + t.files_out <= bound
}

proof fn lemma_counts_sum(cs: Seq<ChangeView>)
    ensures
        counts_of(cs).0 + counts_of(cs).1 == cs.len(),
    decreases cs.len(),
{
    if cs.len() > 0 {
        lemma_counts_sum(cs.drop_last());
    }
}

proof fn lemma_tally_files_bound(a: TallyView, files: Seq<FileReportView>, bound: nat)
    requires
        tally_within(a, bound),
    ensures
        tally_within(tally_files(a, files), bound + entries_in(files)),
    decreases files.len(),
{
    if files.len() > 0 {
        lemma_tally_files_bound(a, files.drop_last(), bound);
        lemma_counts_sum(files.last().incoming);
        lemma_counts_sum(files.last().outgoing);
    }
}

proof fn lemma_tally_ides_bound(a: TallyView, ides: Seq<IdeReportView>, bound: nat)
    requires
        tally_within(a, bound),
    ensures
        tally_within(tally_ides(a, ides), bound + entries_in_ides(ides)),
    decreases ides.len(),
{
    if ides.len() > 0 {
        lemma_tally_ides_bound(a, ides.drop_last(), bound);
        lemma_tally_files_bound(tally_ides(a, ides.drop_last()), ides.last().files, bound + entries_in_ides(ides.drop_last()));
    }
}

struct Tally {
    settings_in: usize,
    settings_out: usize,
    files_in: usize,
    files_out: usize,
}

spec fn tally_view(t: Tally) -> TallyView {
    TallyView {
        settings_in: t.settings_in as nat,
        settings_out: t.settings_out as nat,
        files_in: t.files_in as nat,
        files_out: t.files_out as nat,
    }
}

fn count_changes(cs: &Vec<Change>) -> (r: (usize, usize))
    ensures
        (r.0 as nat, r.1 as nat) == counts_of(changes_view(cs@)),
{
    let ghost cv = changes_view(cs@);
    let mut settings: usize = 0;
    let mut files: usize = 0;
    let mut i: usize = 0;
    while i < cs.len()
        invariant
            i <= cs@.len(),
            cv == changes_view(cs@),
            (settings as nat, files as nat) == counts_of(cv.take(i as int)),
        decreases cs@.len() - i,
    {
        proof {
            assert(cv.take(i + 1 as int).drop_last() =~= cv.take(i as int));
            assert(cv.take(i + 1 as int).last() == cs@[i as int]@);
            lemma_counts_sum(cv.take(i as int));
        }
        if cs[i].path.as_str().is_empty() {
            files = files + 1;
        } else {
            settings = settings + 1;
        }
        i = i + 1;
    }
    proof {
        assert(cv.take(i as int) =~= cv);
    }
    (settings, files)
}

fn add_files(t: &mut Tally, files: &Vec<FileReport>, bound: Ghost<nat>)
    requires
        tally_within(tally_files(tally_view(*old(t)), files_view(files@)), bound@),
        bound@ <= usize::MAX,
    ensures
        tally_view(*final(t)) == tally_files(tally_view(*old(t)), files_view(files@)),
{
    let ghost fv = files_view(files@);
    let ghost start = tally_view(*t);
    let mut i: usize = 0;
    while i < files.len()
        invariant
            i <= files@.len(),
            fv == files_view(files@),
            bound@ <= usize::MAX,
            tally_within(tally_files(start, fv), bound@),
            tally_view(*t) == tally_files(start, fv.take(i as int)),
        decreases files@.len() - i,
    {
        proof {
            assert(fv.take(i + 1 as int).drop_last() =~= fv.take(i as int));
            assert(fv.take(i + 1 as int).last() == files@[i as int]@);
            lemma_tally_prefix(start, fv, i + 1);
        }
        let (si, fi) = count_changes(&files[i].incoming);
        let (so, fo) = count_changes(&files[i].outgoing);
        t.settings_in = t.settings_in + si;
        t.files_in = t.files_in + fi;
        t.settings_out = t.settings_out + so;
        t.files_out = t.files_out + fo;
        i = i + 1;
    }
    proof {
        assert(fv.take(i as int) =~= fv);
    }
}

proof fn lemma_tally_prefix(a: TallyView, files: Seq<FileReportView>, n: int)
    requires
        0 <= n <= files.len(),
    ensures
        tally_files(a, files.take(n)).settings_in <= tally_files(a, files).settings_in,
        tally_files(a, files.take(n)).settings_out <= tally_files(a, files).settings_out,
        tally_files(a, files.take(n)).files_in <= tally_files(a, files).files_in,
        tally_files(a, files.take(n)).files_out <= tally_files(a, files).files_out,
    decreases files.len() - n,
{
    if n < files.len() {
        lemma_tally_prefix(a, files, n + 1);
        assert(files.take(n + 1).drop_last() =~= files.take(n));
    } else {
        assert(files.take(n) =~= files);
    }
}

proof fn lemma_tally_ides_prefix(a: TallyView, ides: Seq<IdeReportView>, n: int)
    requires
        0 <= n <= ides.len(),
    ensures
        tally_within(tally_ides(a, ides), usize::MAX as nat) ==> tally_within(tally_files(tally_ides(a, ides.take(n - 1)), ides[n - 1].files), usize::MAX as nat) || n == 0,
        tally_ides(a, ides.take(n)).settings_in <= tally_ides(a, ides).settings_in,
        tally_ides(a, ides.take(n)).settings_out <= tally_ides(a, ides).settings_out,
        tally_ides(a, ides.take(n)).files_in <= tally_ides(a, ides).files_in,
        tally_ides(a, ides.take(n)).files_out <= tally_ides(a, ides).files_out,
    decreases ides.len() - n,
{
    if n < ides.len() {
        lemma_tally_ides_prefix(a, ides, n + 1);
        assert(ides.take(n + 1).drop_last() =~= ides.take(n));
        lemma_tally_files_grow(tally_ides(a, ides.take(n)), ides[n].files);
    } else {
        assert(ides.take(n) =~= ides);
    }
    if n > 0 {
        assert(ides.take(n).drop_last() =~= ides.take(n - 1));
        assert(ides.take(n).last() == ides[n - 1]);
    }
}

proof fn lemma_tally_files_grow(a: TallyView, files: Seq<FileReportView>)
    ensures
        a.settings_in <= tally_files(a, files).settings_in,
        a.settings_out <= tally_files(a, files).settings_out,
        a.files_in <= tally_files(a, files).files_in,
        a.files_out <= tally_files(a, files).files_out,
    decreases files.len(),
{
    if files.len() > 0 {
        lemma_tally_files_grow(a, files.drop_last());
    }
}

fn tally(report: &SyncReport) -> (t: Tally)
    requires
        report_size(report@) <= usize::MAX,
    ensures
        tally_view(t) == tally_of(report@),
{
    let ghost rv = report@;
    let mut t = Tally { settings_in: 0, settings_out: 0, files_in: 0, files_out: 0 };
    proof {
        lemma_tally_files_bound(no_tally(), rv.from_remote, 0);
        lemma_tally_ides_bound(tally_files(no_tally(), rv.from_remote), rv.ides, entries_in(rv.from_remote));
        lemma_tally_ides_prefix(tally_files(no_tally(), rv.from_remote), rv.ides, 0);
        lemma_tally_files_grow(tally_files(no_tally(), rv.from_remote), Seq::empty());
        assert(rv.ides.take(0) =~= Seq::<IdeReportView>::empty());
    }
    add_files(&mut t, &report.from_remote, Ghost(report_size(rv)));
    let mut i: usize = 0;
    while i < report.ides.len()
        invariant
            i <= report.ides@.len(),
            rv == report@,
            report_size(rv) <= usize::MAX,
            tally_within(tally_of(rv), report_size(rv)),
            tally_view(t) == tally_ides(tally_files(no_tally(), rv.from_remote), rv.ides.take(i as int)),
        decreases report.ides@.len() - i,
    {
        proof {
            assert(rv.ides.take(i + 1 as int).drop_last() =~= rv.ides.take(i as int));
            assert(rv.ides.take(i + 1 as int).last() == report.ides@[i as int]@);
            lemma_tally_ides_prefix(tally_files(no_tally(), rv.from_remote), rv.ides, i + 1);
        }
        add_files(&mut t, &report.ides[i].files, Ghost(report_size(rv)));
        i = i + 1;
    }
    proof {
        assert(rv.ides.take(i as int) =~= rv.ides);
    }
    t
}


/// The pieces of one direction of the summary, e.g. `2 settings and 1 file`.
pub open spec fn amount_pieces(settings: nat, files: nat) -> Seq<Seq<char>> {
    (if settings > 0 {
        seq![plural_text(settings, "setting"@)]
    } else {
        Seq::empty()
    }) + if files > 0 {
        seq![plural_text(files, "file"@)]
    } else {
        Seq::empty()
    }
}

/// The parts of the one-line summary.
pub open spec fn summary_parts(t: TallyView, conflicts: nat) -> Seq<Seq<char>> {
    (if t.settings_in + t.files_in > 0 {
        seq![join_with(amount_pieces(t.settings_in, t.files_in), " and "@) + " into IDEs"@]
    } else {
        Seq::empty()
    }) + (if t.settings_out + t.files_out > 0 {
        seq![join_with(amount_pieces(t.settings_out, t.files_out), " and "@) + " into the store"@]
    } else {
        Seq::empty()
    }) + if conflicts > 0 {
        seq![plural_text(conflicts, "conflict"@)]
    } else {
        Seq::empty()
    }
}

/// How an IDE is titled: its directory, with the display name beside it
/// when that says something more.
pub open spec fn ide_label(ide: IdeReportView) -> Seq<char> {
    if ide.display_name.len() == 0 || ide.display_name == ide.directory {
        ide.directory
    } else {
        ide.directory + "  ("@ + ide.display_name + ")"@
    }
}

/// One IDE's section. Every IDE is listed, even an idle one, so the report
/// doubles as confirmation that it was looked at.
pub open spec fn ide_lines(ide: IdeReportView, verbose: bool, style: Style) -> Seq<Seq<char>> {
    seq![Seq::empty(), style.paint_spec("1"@, ide_label(ide))] + match ide.skipped {
        Some(reason) => seq!["  "@ + style.paint_spec("2"@, "skipped:"@) + " "@ + reason],
        None => if (if verbose {
            any_file_detail(ide.files)
        } else {
            !all_files_empty(ide.files)
        }) {
            files_lines(ide.files, "  "@, verbose, style)
        } else {
            seq!["  "@ + style.paint_spec("2"@, "no changes"@)]
        },
    }
}

pub open spec fn ides_lines(ides: Seq<IdeReportView>, verbose: bool, style: Style) -> Seq<Seq<char>>
    decreases ides.len(),
{
    if ides.len() == 0 {
        Seq::empty()
    } else {
        ides_lines(ides.drop_last(), verbose, style) + ide_lines(ides.last(), verbose, style)
    }
}

/// The header: machine and backend, and whether this is a dry run.
pub open spec fn header_text(r: SyncReportView) -> Seq<char> {
    r.machine + "  ·  "@ + r.backend + if r.dry_run {
        "  ·  dry run, nothing will be written"@
    } else {
        Seq::empty()
    }
}

/// The summary line, when there is anything to count.
pub open spec fn summary_lines(r: SyncReportView, style: Style) -> Seq<Seq<char>> {
    let parts = summary_parts(tally_of(r), conflict_total(r));
    if parts.len() > 0 {
        seq![style.paint_spec("1"@, join_with(parts, "  ·  "@))]
    } else {
        Seq::empty()
    }
}

/// What came from other machines, when anything did.
pub open spec fn remote_lines(r: SyncReportView, verbose: bool, style: Style) -> Seq<Seq<char>> {
    if !all_files_empty(r.from_remote) {
        seq![Seq::empty(), style.paint_spec("1"@, "From other machines"@)] + files_lines(r.from_remote, "  "@, verbose, style)
    } else {
        Seq::empty()
    }
}

/// The plugin notes, when there are any.
pub open spec fn plugin_lines(r: SyncReportView, style: Style) -> Seq<Seq<char>> {
    if r.plugins.len() > 0 {
        seq![Seq::empty(), style.paint_spec("1"@, "Plugins"@)] + r.plugins.map_values(|l: Seq<char>| "  "@ + l)
    } else {
        Seq::empty()
    }
}

/// The line saying how `n` conflicts were settled: for this machine, for
/// the other one, or (`None`) left unresolved, with how to choose otherwise.
pub open spec fn settled_line(n: nat, side: Option<Side>) -> Seq<char> {
    plural_text(n, "conflict"@) + match side {
        Some(Side::Local) => " resolved in favour of this machine. Re-run with --prefer remote to flip the choice."@,
        Some(Side::Remote) => " resolved in favour of the other machine. Re-run with --prefer local to flip the choice."@,
        None => " left unresolved; nothing was changed for them. Re-run with --prefer local or --prefer remote to settle them."@,
    }
}

/// The settled line for `side`, when some conflict was settled so.
pub open spec fn settled_lines(r: SyncReportView, side: Option<Side>) -> Seq<Seq<char>> {
    if resolved_total(r, side) > 0 {
        seq![settled_line(resolved_total(r, side), side)]
    } else {
        Seq::empty()
    }
}

/// The closing lines: a blank line, how conflicts were settled (for this
/// machine, for the other one, left unresolved), and what was committed or
/// that a dry run wrote nothing.
pub open spec fn closing_lines(r: SyncReportView) -> Seq<Seq<char>> {
    seq![Seq::empty()] + settled_lines(r, Some(Side::Local)) + settled_lines(r, Some(Side::Remote)) + settled_lines(r, None)
        + match r.published {
        Some(summary) => if !r.dry_run {
            seq!["Committed: "@ + summary]
        } else {
            seq!["Nothing was written."@]
        },
        None => if r.dry_run {
            seq!["Nothing was written."@]
        } else {
            Seq::empty()
        },
    }
}

/// The lines a report renders to. A run with nothing to show says so; any
/// other lists the summary, what came from other machines, each IDE, the
/// plugin notes, and how conflicts were settled and what was committed.
pub open spec fn report_lines(r: SyncReportView, verbose: bool, style: Style) -> Seq<Seq<char>> {
    let head = seq![style.paint_spec("2"@, header_text(r))];
    if !report_detail(r, verbose) {
        head + seq![Seq::empty(), "Everything is already in sync."@]
    } else {
        head + summary_lines(r, style) + remote_lines(r, verbose, style) + ides_lines(r.ides, verbose, style)
            + plugin_lines(r, style) + closing_lines(r)
    }
}

/// Each line followed by a newline.
pub open spec fn text_of(lines: Seq<Seq<char>>) -> Seq<char>
    decreases lines.len(),
{
    if lines.len() == 0 {
        Seq::empty()
    } else {
        text_of(lines.drop_last()) + lines.last() + seq!['\n']
    }
}

fn lines_text(lines: &Vec<String>) -> (r: String)
    ensures
        r@ == text_of(views(lines@)),
{
    let mut r = String::new();
    let mut i: usize = 0;
    while i < lines.len()
        invariant
            i <= lines@.len(),
            r@ == text_of(views(lines@).take(i as int)),
        decreases lines@.len() - i,
    {
        r.append(lines[i].as_str());
        r.append("\n");
        proof {
            reveal_strlit("\n");
            assert(views(lines@).take(i + 1 as int).drop_last() =~= views(lines@).take(i as int));
            assert(r@ =~= text_of(views(lines@).take(i + 1 as int)));
        }
        i = i + 1;
    }
    proof {
        assert(views(lines@).take(i as int) =~= views(lines@));
    }
    r
}

fn amount(settings: usize, files: usize, direction: &str) -> (r: String)
    ensures
        r@ == join_with(amount_pieces(settings as nat, files as nat), " and "@) + direction@,
{
    let mut piece: Vec<String> = Vec::new();
    if settings > 0 {
        push_line(&mut piece, plural(settings, "setting"));
    }
    if files > 0 {
        push_line(&mut piece, plural(files, "file"));
    }
    proof {
        assert(views(piece@) =~= amount_pieces(settings as nat, files as nat));
    }
    let mut r = join_strings(piece.as_slice(), " and ");
    r.append(direction);
    r
}

fn render_ide(out: &mut Vec<String>, ide: &IdeReport, verbose: bool, style: Style)
    ensures
        views(final(out)@) == views(old(out)@) + ide_lines(ide@, verbose, style),
{
    let ghost start = views(out@);
    let label = if ide.display_name.as_str().is_empty() || str_eq(ide.display_name.as_str(), ide.directory.as_str()) {
        ide.directory.clone()
    } else {
        let mut l = concat(ide.directory.as_str(), "  (");
        l.append(ide.display_name.as_str());
        l.append(")");
        l
    };
    push_line(out, String::new());
    let b = style.bold(label.as_str());
    push_line(out, b);
    proof {
        reveal_strlit("");
    }
    match &ide.skipped {
        Some(reason) => {
            let mut line = String::new();
            line.append("  ");
            let d = style.dim("skipped:");
            line.append(d.as_str());
            line.append(" ");
            line.append(reason.as_str());
            push_line(out, line);
        },
        None => {
            let shown = if verbose {
                ide.has_detail()
            } else {
                !ide.is_empty()
            };
            if shown {
                render_files(out, &ide.files, "  ", verbose, style);
            } else {
                let mut line = String::new();
                line.append("  ");
                let d = style.dim("no changes");
                line.append(d.as_str());
                push_line(out, line);
            }
        },
    }
    proof {
        assert(views(out@) =~= start + ide_lines(ide@, verbose, style));
    }
}

/// Renders the report as plain text. `verbose` additionally lists settings
/// that were dropped for not being user choices, and names the files behind
/// each bulk count.
pub fn render(report: &SyncReport, verbose: bool) -> (r: String)
    requires
        report_size(report@) <= usize::MAX,
    ensures
        r@ == text_of(report_lines(report@, verbose, Style::plain_spec())),
{
    render_with(report, verbose, Style::plain())
}

fn render_summary(out: &mut Vec<String>, report: &SyncReport, style: Style)
    requires
        report_size(report@) <= usize::MAX,
    ensures
        views(final(out)@) == views(old(out)@) + summary_lines(report@, style),
{
    let ghost rv = report@;
    let counts = tally(report);
    let conflicts = report.conflicts();
    let ghost t = tally_of(rv);
    proof {
        lemma_tally_files_bound(no_tally(), rv.from_remote, 0);
        lemma_tally_ides_bound(tally_files(no_tally(), rv.from_remote), rv.ides, entries_in(rv.from_remote));
    }
    let mut parts: Vec<String> = Vec::new();
    if counts.settings_in + counts.files_in > 0 {
        push_line(&mut parts, amount(counts.settings_in, counts.files_in, " into IDEs"));
    }
    if counts.settings_out + counts.files_out > 0 {
        push_line(&mut parts, amount(counts.settings_out, counts.files_out, " into the store"));
    }
    if conflicts > 0 {
        push_line(&mut parts, plural(conflicts, "conflict"));
    }
    proof {
        assert(views(parts@) =~= summary_parts(t, conflict_total(rv)));
    }
    let ghost start = views(out@);
    if parts.len() > 0 {
        let joined = join_strings(parts.as_slice(), "  ·  ");
        let b = style.bold(joined.as_str());
        push_line(out, b);
    }
    proof {
        assert(views(out@) =~= start + summary_lines(rv, style));
    }
}

fn render_remote(out: &mut Vec<String>, report: &SyncReport, verbose: bool, style: Style)
    ensures
        views(final(out)@) == views(old(out)@) + remote_lines(report@, verbose, style),
{
    let ghost start = views(out@);
    if !all_empty(&report.from_remote) {
        push_line(out, String::new());
        let b = style.bold("From other machines");
        push_line(out, b);
        render_files(out, &report.from_remote, "  ", verbose, style);
        proof {
            reveal_strlit("");
        }
    }
    proof {
        assert(views(out@) =~= start + remote_lines(report@, verbose, style));
    }
}

fn render_ides(out: &mut Vec<String>, report: &SyncReport, verbose: bool, style: Style)
    ensures
        views(final(out)@) == views(old(out)@) + ides_lines(report@.ides, verbose, style),
{
    let ghost rv = report@;
    let ghost start = views(out@);
    let mut i: usize = 0;
    while i < report.ides.len()
        invariant
            i <= report.ides@.len(),
            rv == report@,
            views(out@) == start + ides_lines(rv.ides.take(i as int), verbose, style),
        decreases report.ides@.len() - i,
    {
        proof {
            assert(rv.ides.take(i + 1 as int).drop_last() =~= rv.ides.take(i as int));
            assert(rv.ides.take(i + 1 as int).last() == report.ides@[i as int]@);
        }
        render_ide(out, &report.ides[i], verbose, style);
        i = i + 1;
    }
    proof {
        assert(rv.ides.take(i as int) =~= rv.ides);
    }
}

fn render_plugins(out: &mut Vec<String>, report: &SyncReport, style: Style)
    ensures
        views(final(out)@) == views(old(out)@) + plugin_lines(report@, style),
{
    let ghost rv = report@;
    let ghost start = views(out@);
    if report.plugins.len() > 0 {
        push_line(out, String::new());
        let b = style.bold("Plugins");
        push_line(out, b);
        let ghost before_plugins = views(out@);
        let mut k: usize = 0;
        while k < report.plugins.len()
            invariant
                k <= report.plugins@.len(),
                rv == report@,
                views(out@) == before_plugins + rv.plugins.take(k as int).map_values(|l: Seq<char>| "  "@ + l),
            decreases report.plugins@.len() - k,
        {
            let line = concat("  ", report.plugins[k].as_str());
            push_line(out, line);
            proof {
                assert(rv.plugins.take(k + 1 as int).map_values(|l: Seq<char>| "  "@ + l) =~= rv.plugins.take(
                    k as int,
                ).map_values(|l: Seq<char>| "  "@ + l).push("  "@ + report.plugins@[k as int]@));
            }
            k = k + 1;
        }
        proof {
            assert(rv.plugins.take(k as int) =~= rv.plugins);
            reveal_strlit("");
        }
    }
    proof {
        assert(views(out@) =~= start + plugin_lines(rv, style));
    }
}

fn render_closing(out: &mut Vec<String>, report: &SyncReport)
    requires
        report_size(report@) <= usize::MAX,
    ensures
        views(final(out)@) == views(old(out)@) + closing_lines(report@),
{
    let ghost rv = report@;
    let ghost start = views(out@);
    push_line(out, String::new());
    proof {
        reveal_strlit("");
    }
    let local = report.resolved(Some(Side::Local));
    if local > 0 {
        let mut line = plural(local, "conflict");
        line.append(" resolved in favour of this machine. Re-run with --prefer remote to flip the choice.");
        push_line(out, line);
    }
    let remote = report.resolved(Some(Side::Remote));
    if remote > 0 {
        let mut line = plural(remote, "conflict");
        line.append(" resolved in favour of the other machine. Re-run with --prefer local to flip the choice.");
        push_line(out, line);
    }
    let open = report.resolved(None);
    if open > 0 {
        let mut line = plural(open, "conflict");
        line.append(" left unresolved; nothing was changed for them. Re-run with --prefer local or --prefer remote to settle them.");
        push_line(out, line);
    }
    match &report.published {
        Some(summary) => {
            if !report.dry_run {
                let line = concat("Committed: ", summary.as_str());
                push_line(out, line);
            } else {
                push_line(out, "Nothing was written.".to_owned());
            }
        },
        None => {
            if report.dry_run {
                push_line(out, "Nothing was written.".to_owned());
            }
        },
    }
    proof {
        assert(views(out@) =~= start + closing_lines(rv));
    }
}

/// As [`render`], with ANSI styling when the destination is a terminal.
pub fn render_with(report: &SyncReport, verbose: bool, style: Style) -> (r: String)
    requires
        report_size(report@) <= usize::MAX,
    ensures
        r@ == text_of(report_lines(report@, verbose, style)),
{
    let ghost rv = report@;
    let mut out: Vec<String> = Vec::new();
    let mut header = concat(report.machine.as_str(), "  ·  ");
    header.append(report.backend.as_str());
    if report.dry_run {
        header.append("  ·  dry run, nothing will be written");
    } else {
        proof {
            assert(header@ =~= header@ + Seq::<char>::empty());
        }
    }
    let h = style.dim(header.as_str());
    push_line(&mut out, h);
    proof {
        reveal_strlit("");
        assert(views(out@) =~= seq![style.paint_spec("2"@, header_text(rv))]);
    }
    if !report.has_detail(verbose) {
        push_line(&mut out, String::new());
        push_line(&mut out, "Everything is already in sync.".to_owned());
        proof {
            assert(views(out@) =~= report_lines(rv, verbose, style));
        }
        return lines_text(&out);
    }
    render_summary(&mut out, report, style);
    render_remote(&mut out, report, verbose, style);
    render_ides(&mut out, report, verbose, style);
    render_plugins(&mut out, report, style);
    render_closing(&mut out, report);
    proof {
        assert(views(out@) =~= report_lines(rv, verbose, style));
    }
    lines_text(&out)
}


/// A dry run never claims to have written anything: its header says it is a
/// dry run, and a report with anything to show ends by saying nothing was
/// written, whatever would have been published.
pub proof fn law_dry_runs_say_nothing_was_written(r: SyncReportView, verbose: bool, style: Style)
    requires
        r.dry_run,
    ensures
        header_text(r) == r.machine + "  ·  "@ + r.backend + "  ·  dry run, nothing will be written"@,
        report_detail(r, verbose) ==> report_lines(r, verbose, style).last() == "Nothing was written."@,
{
    if report_detail(r, verbose) {
        let head = seq![style.paint_spec("2"@, header_text(r))];
        let body = head + summary_lines(r, style) + remote_lines(r, verbose, style) + ides_lines(r.ides, verbose, style)
            + plugin_lines(r, style);
        assert(report_lines(r, verbose, style) == body + closing_lines(r));
        assert(closing_lines(r).last() == "Nothing was written."@);
    }
}

/// An IDE that took no part in a run is never passed over in silence: a
/// report holding one has something to show.
pub proof fn law_skipped_ides_are_shown(r: SyncReportView, i: int, verbose: bool)
    requires
        0 <= i < r.ides.len(),
        r.ides[i].skipped is Some,
    ensures
        !report_empty(r),
        report_detail(r, verbose),
{
}

/// A run with nothing to show says everything is in sync, and nothing else
/// beyond its header.
pub proof fn law_quiet_runs_say_everything_is_in_sync(r: SyncReportView, verbose: bool, style: Style)
    requires
        !report_detail(r, verbose),
    ensures
        report_lines(r, verbose, style) == seq![style.paint_spec("2"@, header_text(r)), Seq::empty(), "Everything is already in sync."@],
{
    assert(report_lines(r, verbose, style) =~= seq![style.paint_spec("2"@, header_text(r)), Seq::empty(), "Everything is already in sync."@]);
}


/// The entries of some files counted onto `start`, or `None` once the count
/// would not fit in `usize`.
fn count_entries(files: &Vec<FileReport>, start: usize) -> (r: Option<usize>)
    ensures
        match r {
            Some(n) => n == start + entries_in(files_view(files@)),
            None => start + entries_in(files_view(files@)) > usize::MAX,
        },
{
    let ghost fv = files_view(files@);
    let mut n: usize = start;
    let mut i: usize = 0;
    while i < files.len()
        invariant
            i <= files@.len(),
            fv == files_view(files@),
            n == start + entries_in(fv.take(i as int)),
        decreases files@.len() - i,
    {
        proof {
            assert(fv.take(i + 1 as int).drop_last() =~= fv.take(i as int));
            assert(fv[i as int] == files@[i as int]@);
            lemma_entries_grow(fv, i as int + 1);
        }
        let f = &files[i];
        let a = match n.checked_add(f.incoming.len()) {
            Some(a) => a,
            None => {
                return None;
            },
        };
        let b = match a.checked_add(f.outgoing.len()) {
            Some(b) => b,
            None => {
                return None;
            },
        };
        let c = match b.checked_add(f.conflicts.len()) {
            Some(c) => c,
            None => {
                return None;
            },
        };
        n = c;
        i = i + 1;
    }
    proof {
        assert(fv.take(i as int) =~= fv);
    }
    Some(n)
}

/// The entries of a prefix never outnumber those of the whole.
proof fn lemma_entries_grow(files: Seq<FileReportView>, k: int)
    requires
        0 <= k <= files.len(),
    ensures
        entries_in(files.take(k)) <= entries_in(files),
    decreases files.len() - k,
{
    if k < files.len() {
        lemma_entries_grow(files, k + 1);
        assert(files.take(k + 1).drop_last() =~= files.take(k));
    } else {
        assert(files.take(k) =~= files);
    }
}

proof fn lemma_ide_entries_grow(ides: Seq<IdeReportView>, k: int)
    requires
        0 <= k <= ides.len(),
    ensures
        entries_in_ides(ides.take(k)) <= entries_in_ides(ides),
    decreases ides.len() - k,
{
    if k < ides.len() {
        lemma_ide_entries_grow(ides, k + 1);
        assert(ides.take(k + 1).drop_last() =~= ides.take(k));
    } else {
        assert(ides.take(k) =~= ides);
    }
}

/// Whether a report's changes and conflicts can be counted in `usize`, as
/// rendering it asks.
pub fn fits_in_usize(report: &SyncReport) -> (b: bool)
    ensures
        b == (report_size(report@) <= usize::MAX),
{
    let ghost iv = ides_view(report.ides@);
    let mut n = match count_entries(&report.from_remote, 0) {
        Some(n) => n,
        None => {
            return false;
        },
    };
    let mut i: usize = 0;
    while i < report.ides.len()
        invariant
            i <= report.ides@.len(),
            iv == ides_view(report.ides@),
            n == entries_in(files_view(report.from_remote@)) + entries_in_ides(iv.take(i as int)),
        decreases report.ides@.len() - i,
    {
        proof {
            assert(iv.take(i + 1 as int).drop_last() =~= iv.take(i as int));
            assert(iv[i as int] == report.ides@[i as int]@);
            lemma_ide_entries_grow(iv, i as int + 1);
        }
        n = match count_entries(&report.ides[i].files, n) {
            Some(m) => m,
            None => {
                return false;
            },
        };
        i = i + 1;
    }
    proof {
        assert(iv.take(i as int) =~= iv);
    }
    true
}

/// Whether any file of a list reports a conflict.
fn files_conflict(files: &Vec<FileReport>) -> (b: bool)
    ensures
        b == exists|j: int| 0 <= j < files@.len() && (#[trigger] files@[j]).conflicts@.len() > 0,
{
    let mut j: usize = 0;
    while j < files.len()
        invariant
            j <= files@.len(),
            forall|k: int| 0 <= k < j ==> (#[trigger] files@[k]).conflicts@.len() == 0,
        decreases files@.len() - j,
    {
        if files[j].conflicts.len() > 0 {
            return true;
        }
        j = j + 1;
    }
    false
}

/// Whether any file of a run, taken from the remote or reconciled in an
/// IDE, reports a conflict.
pub fn any_conflict(report: &SyncReport) -> (b: bool)
    ensures
        b == ((exists|j: int| 0 <= j < report.from_remote@.len() && (#[trigger] report.from_remote@[j]).conflicts@.len() > 0)
            || (exists|i: int, j: int|
            0 <= i < report.ides@.len() && 0 <= j < report.ides@[i].files@.len() && (#[trigger] report.ides@[i].files@[j]).conflicts@.len()
                > 0)),
{
    if files_conflict(&report.from_remote) {
        return true;
    }
    let mut i: usize = 0;
    while i < report.ides.len()
        invariant
            i <= report.ides@.len(),
            !exists|j: int| 0 <= j < report.from_remote@.len() && (#[trigger] report.from_remote@[j]).conflicts@.len() > 0,
            forall|k: int, j: int|
                0 <= k < i && 0 <= j < report.ides@[k].files@.len() ==> (#[trigger] report.ides@[k].files@[j]).conflicts@.len() == 0,
        decreases report.ides@.len() - i,
    {
        if files_conflict(&report.ides[i].files) {
            return true;
        }
        i = i + 1;
    }
    false
}

proof fn lemma_count_splits(cs: Seq<ConflictView>)
    ensures
        resolved_count(cs, Some(Side::Local)) + resolved_count(cs, Some(Side::Remote)) + resolved_count(cs, None) == cs.len(),
    decreases cs.len(),
{
    if cs.len() > 0 {
        lemma_count_splits(cs.drop_last());
        match cs.last().resolved_to {
            Some(Side::Local) => {},
            Some(Side::Remote) => {},
            None => {},
        }
    }
}

proof fn lemma_files_split(files: Seq<FileReportView>)
    ensures
        resolved_in(files, Some(Side::Local)) + resolved_in(files, Some(Side::Remote)) + resolved_in(files, None) == conflicts_in(
            files,
        ),
    decreases files.len(),
{
    if files.len() > 0 {
        lemma_files_split(files.drop_last());
        lemma_count_splits(files.last().conflicts);
    }
}

proof fn lemma_ides_split(ides: Seq<IdeReportView>)
    ensures
        resolved_in_ides(ides, Some(Side::Local)) + resolved_in_ides(ides, Some(Side::Remote)) + resolved_in_ides(ides, None)
            == conflicts_in_ides(ides),
    decreases ides.len(),
{
    if ides.len() > 0 {
        lemma_ides_split(ides.drop_last());
        lemma_files_split(ides.last().files);
    }
}

/// The closing lines account for every conflict, each under the side that
/// won it: those settled for this machine, those settled for the other one
/// and those left unresolved add up to all the conflicts the report holds,
/// and the line for a side appears exactly when some conflict was settled so.
pub proof fn law_every_conflict_is_settled_once(r: SyncReportView)
    ensures
        resolved_total(r, Some(Side::Local)) + resolved_total(r, Some(Side::Remote)) + resolved_total(r, None) == conflict_total(r),
        forall|side: Option<Side>| #[trigger] settled_lines(r, side).len() > 0 <==> resolved_total(r, side) > 0,
{
    lemma_files_split(r.from_remote);
    lemma_ides_split(r.ides);
}

/// The "kept" mark follows the value of the side that won a conflict, and
/// only that one: the "this machine" line carries it exactly when the
/// conflict was resolved for this machine, the "other machine" line exactly
/// when it was resolved for the other one, and a conflict left unresolved
/// marks neither and adds a warning line.
pub proof fn law_the_kept_mark_follows_the_winner(c: ConflictView, indent: Seq<char>, style: Style)
    ensures
        ({
            let ls = conflict_lines(c, indent, style);
            let mark = style.paint_spec("32"@, "  <- kept"@);
            let this = detail_indent(indent) + "this machine   "@ + value_text(c.local);
            let other = detail_indent(indent) + "other machine  "@ + value_text(c.remote);
            &&& mark.len() > 0
            &&& ls[1] == if c.resolved_to == Some(Side::Local) {
                this + mark
            } else {
                this
            }
            &&& ls[2] == if c.resolved_to == Some(Side::Remote) {
                other + mark
            } else {
                other
            }
            &&& ls.len() == if c.resolved_to is None {
                4nat
            } else {
                3nat
            }
        }),
{
    reveal_strlit("  <- kept");
    let mark = style.paint_spec("32"@, "  <- kept"@);
    assert(mark.len() > 0);
    if c.resolved_to == Some(Side::Local) {
        assert(kept_mark(c, Side::Remote, style) =~= Seq::<char>::empty());
    }
    if c.resolved_to == Some(Side::Remote) {
        assert(kept_mark(c, Side::Local, style) =~= Seq::<char>::empty());
    }
}

} // verus!
