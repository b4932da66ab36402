//! Git backend: a repository the program owns, so the user never manages one.
//!
//! The program runs the `git` binary; this module decides which commands to
//! run and what their answers mean. Merging is deliberately *not* delegated
//! to Git: the engine merges setting by setting, and this backend records the
//! result with `-s ours`, keeping the merged tree while recording the remote
//! commit as a parent so history stays honest and pushes fast-forward.

use vstd::prelude::*;

use crate::text::{chars_of, concat, has_prefix, split_on, split_str, starts_with, str_eq, views};
use crate::backend::Published;

verus! {

/// Store paths that are the program's own bookkeeping rather than settings.
pub open spec fn internal_path(relative: Seq<char>) -> bool {
    relative == ".gitattributes"@ || has_prefix(relative, ".git/"@)
}

/// Store paths that are the program's own bookkeeping rather than settings.
pub fn is_internal_path(relative: &str) -> (b: bool)
    ensures
        b == internal_path(relative@),
{
    str_eq(relative, ".gitattributes") || starts_with(relative, ".git/")
}

} // verus!

verus! {

/// Settings files are compared byte for byte across platforms, so Git must
/// never translate line endings or apply filters to them: the contents of
/// the store's `.gitattributes`.
pub fn gitattributes() -> (r: &'static str)
    ensures
        r@ == "* -text -diff=auto\n"@,
{
    "* -text -diff=auto\n"
}

/// The git backend's settings: where the working copy lives, the remote it
/// publishes to, if any, and the branch.
#[derive(Debug)]
pub struct GitBackend {
    workdir: String,
    remote: Option<String>,
    branch: String,
}

/// What the program is to do next for a git operation: run git with these
/// arguments in the store and hand the answer to the step from `next`, or
/// stop with a result, or stop with an error.
#[derive(Debug)]
pub enum GitStep<S, T> {
    Run { next: S, args: Vec<String> },
    Finish(T),
    Fail(String),
}

/// The answer of a command whose failure, or empty output, is itself an
/// answer ("no such thing"): the output when there was some.
pub open spec fn optional(answer: Result<String, String>) -> Option<Seq<char>> {
    match answer {
        Ok(out) => if out@.len() > 0 {
            Some(out@)
        } else {
            None
        },
        Err(_) => None,
    }
}

fn optional_exec(answer: &Result<String, String>) -> (r: Option<String>)
    ensures
        match r {
            Some(s) => optional(*answer) == Some(s@),
            None => optional(*answer) is None,
        },
{
    match answer {
        Ok(out) => if out.as_str().is_empty() {
            None
        } else {
            Some(out.clone())
        },
        Err(_) => None,
    }
}

/// The arguments of a step that runs git, as text.
pub open spec fn run_args<S, T>(step: GitStep<S, T>) -> Seq<Seq<char>> {
    match step {
        GitStep::Run { next, args } => views(args@),
        _ => Seq::empty(),
    }
}

/// The remote-tracking ref of the branch.
pub open spec fn remote_ref_of(branch: Seq<char>) -> Seq<char> {
    "origin/"@ + branch
}

impl GitBackend {
    pub closed spec fn workdir_view(self) -> Seq<char> {
        self.workdir@
    }

    pub closed spec fn remote_view(self) -> Option<Seq<char>> {
        match self.remote {
            Some(r) => Some(r@),
            None => None,
        }
    }

    pub closed spec fn branch_view(self) -> Seq<char> {
        self.branch@
    }

    pub fn new(workdir: String, remote: Option<String>, branch: String) -> (g: Self)
        ensures
            g.workdir_view() == workdir@,
            g.remote_view() == match remote {
                Some(r) => Some(r@),
                None => None::<Seq<char>>,
            },
            g.branch_view() == branch@,
    {
        GitBackend { workdir, remote, branch }
    }

    /// The directory holding the working copy of the store.
    pub fn workdir(&self) -> (r: &str)
        ensures
            r@ == self.workdir_view(),
    {
        self.workdir.as_str()
    }

    /// Whether a remote is configured.
    pub fn has_remote(&self) -> (b: bool)
        ensures
            b == self.remote_view() is Some,
    {
        self.remote.is_some()
    }

    /// Short description for status output: the remote and branch, or that
    /// the store is local. The store's path is left out: it belongs to
    /// `repo show`, and repeating it in every report buried the part that
    /// changes.
    pub fn describe(&self) -> (r: String)
        ensures
            r@ == match self.remote_view() {
                Some(remote) => remote + " on "@ + self.branch_view(),
                None => "local store, no remote"@,
            },
    {
        match &self.remote {
            Some(remote) => {
                let mut r = concat(remote.as_str(), " on ");
                r.append(self.branch.as_str());
                r
            },
            None => "local store, no remote".to_owned(),
        }
    }

    /// The remote-tracking ref of the branch.
    pub fn remote_ref(&self) -> (r: String)
        ensures
            r@ == remote_ref_of(self.branch_view()),
    {
        concat("origin/", self.branch.as_str())
    }
}


/// Where asking for incoming state has got to.
#[derive(Debug)]
pub enum IncomingState {
    /// Fetching the branch from the remote.
    Fetching,
    /// Resolving the remote-tracking ref to a commit.
    Resolving,
    /// Asking whether the working copy has a commit yet; the remote is at
    /// `cursor`.
    CheckingHead(String),
    /// Asking whether the working copy already contains `cursor`.
    CheckingAncestor(String),
    /// Finding the last commit both sides share.
    FindingBase(String),
}

/// Remote state to take: the remote commit, and the commit whose tree is the
/// base of the merge, or `None` for an empty base.
#[derive(Debug)]
pub struct IncomingPlan {
    pub cursor: String,
    pub base: Option<String>,
}

/// Whether a plan takes `cursor` with the base `base`.
pub open spec fn plan_is(plan: Option<IncomingPlan>, cursor: Seq<char>, base: Option<Seq<char>>) -> bool {
    plan matches Some(p) && p.cursor@ == cursor && match p.base {
        Some(b) => base == Some(b@),
        None => base is None,
    }
}

impl GitBackend {
    /// Starts asking for remote state the working copy has not merged yet:
    /// with no remote there is none; otherwise the branch is fetched.
    pub fn incoming_start(&self) -> (r: GitStep<IncomingState, Option<IncomingPlan>>)
        ensures
            self.remote_view() is None ==> r matches GitStep::Finish(None),
            self.remote_view() is Some ==> r matches GitStep::Run { next: IncomingState::Fetching, args: _ },
            self.remote_view() is Some ==> run_args(r) == seq!["fetch"@, "origin"@, self.branch_view()],
    {
        if self.remote.is_none() {
            return GitStep::Finish(None);
        }
        let args = vec!["fetch".to_owned(), "origin".to_owned(), self.branch.clone()];
        proof {
            assert(views(args@) =~= seq!["fetch"@, "origin"@, self.branch_view()]);
        }
        GitStep::Run { next: IncomingState::Fetching, args }
    }

    /// The next step of asking for incoming state, given how the last
    /// command went. A fetch that fails (a fresh clone, an empty remote) or
    /// a remote ref that does not resolve means nothing to take; a working
    /// copy without commits takes the remote state over an empty base; one
    /// that already contains the remote commit has nothing to take;
    /// otherwise the base is the last commit both share, or empty when they
    /// share none.
    pub fn incoming_step(&self, state: IncomingState, answer: Result<String, String>) -> (r: GitStep<
        IncomingState,
        Option<IncomingPlan>,
    >)
        ensures
            match state {
                IncomingState::Fetching => match answer {
                    Err(_) => r matches GitStep::Finish(None),
                    Ok(_) => r matches GitStep::Run { next: IncomingState::Resolving, args: _ } && run_args(r) == seq![
                        "rev-parse"@,
                        "--verify"@,
                        remote_ref_of(self.branch_view()),
                    ],
                },
                IncomingState::Resolving => match optional(answer) {
                    None => r matches GitStep::Finish(None),
                    Some(c) => (r matches GitStep::Run { next: IncomingState::CheckingHead(n), args: _ } && n@ == c)
                        && run_args(r) == seq!["rev-parse"@, "--verify"@, "HEAD"@],
                },
                IncomingState::CheckingHead(c) => match optional(answer) {
                    None => (r matches GitStep::Finish(plan) && plan_is(plan, c@, None)),
                    Some(_) => (r matches GitStep::Run { next: IncomingState::CheckingAncestor(n), args: _ } && n@ == c@)
                        && run_args(r) == seq!["merge-base"@, "--is-ancestor"@, c@, "HEAD"@],
                },
                IncomingState::CheckingAncestor(c) => match answer {
                    Ok(_) => r matches GitStep::Finish(None),
                    Err(_) => (r matches GitStep::Run { next: IncomingState::FindingBase(n), args: _ } && n@ == c@)
                        && run_args(r) == seq!["merge-base"@, "HEAD"@, c@],
                },
                IncomingState::FindingBase(c) => r matches GitStep::Finish(plan) && plan_is(plan, c@, optional(answer)),
            },
    {
        match state {
            IncomingState::Fetching => match answer {
                Err(_) => GitStep::Finish(None),
                Ok(_) => {
                    let args = vec!["rev-parse".to_owned(), "--verify".to_owned(), self.remote_ref()];
                    proof {
                        assert(views(args@) =~= seq!["rev-parse"@, "--verify"@, remote_ref_of(self.branch_view())]);
                    }
                    GitStep::Run { next: IncomingState::Resolving, args }
                },
            },
            IncomingState::Resolving => match optional_exec(&answer) {
                None => GitStep::Finish(None),
                Some(cursor) => {
                    let args = vec!["rev-parse".to_owned(), "--verify".to_owned(), "HEAD".to_owned()];
                    proof {
                        assert(views(args@) =~= seq!["rev-parse"@, "--verify"@, "HEAD"@]);
                    }
                    GitStep::Run { next: IncomingState::CheckingHead(cursor), args }
                },
            },
            IncomingState::CheckingHead(cursor) => match optional_exec(&answer) {
                None => GitStep::Finish(Some(IncomingPlan { cursor, base: None })),
                Some(_) => {
                    let args = vec!["merge-base".to_owned(), "--is-ancestor".to_owned(), cursor.clone(), "HEAD".to_owned()];
                    proof {
                        assert(views(args@) =~= seq!["merge-base"@, "--is-ancestor"@, cursor@, "HEAD"@]);
                    }
                    GitStep::Run { next: IncomingState::CheckingAncestor(cursor), args }
                },
            },
            IncomingState::CheckingAncestor(cursor) => match answer {
                Ok(_) => GitStep::Finish(None),
                Err(_) => {
                    let args = vec!["merge-base".to_owned(), "HEAD".to_owned(), cursor.clone()];
                    proof {
                        assert(views(args@) =~= seq!["merge-base"@, "HEAD"@, cursor@]);
                    }
                    GitStep::Run { next: IncomingState::FindingBase(cursor), args }
                },
            },
            IncomingState::FindingBase(cursor) => {
                let base = optional_exec(&answer);
                GitStep::Finish(Some(IncomingPlan { cursor, base }))
            },
        }
    }
}

/// The arguments that list every file in the tree at `reference`.
pub fn tree_listing_args(reference: &str) -> (r: Vec<String>)
    ensures
        views(r@) == seq!["ls-tree"@, "-r"@, "-z"@, "--name-only"@, reference@],
{
    let r = vec!["ls-tree".to_owned(), "-r".to_owned(), "-z".to_owned(), "--name-only".to_owned(), reference.to_owned()];
    proof {
        assert(views(r@) =~= seq!["ls-tree"@, "-r"@, "-z"@, "--name-only"@, reference@]);
    }
    r
}

/// The arguments that print the file `path` in the tree at `reference`.
pub fn blob_args(reference: &str, path: &str) -> (r: Vec<String>)
    ensures
        views(r@) == seq!["show"@, reference@ + ":"@ + path@],
{
    let mut spec = concat(reference, ":");
    spec.append(path);
    let r = vec!["show".to_owned(), spec];
    proof {
        assert(views(r@) =~= seq!["show"@, reference@ + ":"@ + path@]);
    }
    r
}

/// The paths a NUL-separated tree listing names, in order, without empty
/// entries.
pub fn tree_paths(listing: &str) -> (r: Vec<String>)
    ensures
        views(r@) == split_on(listing@, '\0').filter(|p: Seq<char>| p.len() > 0),
{
    let parts = split_str(listing, '\0');
    let ghost pv = views(parts@);
    let mut r: Vec<String> = Vec::new();
    let mut i: usize = 0;
    while i < parts.len()
        invariant
            i <= parts@.len(),
            pv == views(parts@),
            pv == split_on(listing@, '\0'),
            views(r@) == pv.take(i as int).filter(|p: Seq<char>| p.len() > 0),
        decreases parts@.len() - i,
    {
        let ghost prev = r@;
        proof {
            assert(pv.take(i + 1 as int).drop_last() =~= pv.take(i as int));
            reveal(Seq::filter);
        }
        if !parts[i].as_str().is_empty() {
            r.push(parts[i].clone());
            proof {
                assert(views(r@) =~= views(prev).push(pv[i as int]));
            }
        }
        i = i + 1;
    }
    proof {
        assert(pv.take(i as int) =~= pv);
    }
    r
}


/// A listed line, with the carriage return of a CRLF ending taken off.
pub open spec fn line_text(piece: Seq<char>) -> Seq<char> {
    if piece.len() > 0 && piece.last() == '\r' {
        piece.drop_last()
    } else {
        piece
    }
}

/// How many non-empty lines `text` holds.
pub open spec fn listed_count(text: Seq<char>) -> nat {
    split_on(text, '\n').filter(|piece: Seq<char>| line_text(piece).len() > 0).len()
}

/// How many non-empty lines `text` holds: the number of files a
/// `diff --name-only` lists.
pub fn count_listed(text: &str) -> (n: usize)
    ensures
        n == listed_count(text@),
{
    let parts = split_str(text, '\n');
    let ghost pv = views(parts@);
    let mut n: usize = 0;
    let mut i: usize = 0;
    while i < parts.len()
        invariant
            i <= parts@.len(),
            pv == views(parts@),
            pv == split_on(text@, '\n'),
            n == pv.take(i as int).filter(|piece: Seq<char>| line_text(piece).len() > 0).len(),
            n <= i,
        decreases parts@.len() - i,
    {
        proof {
            assert(pv.take(i + 1 as int).drop_last() =~= pv.take(i as int));
            reveal(Seq::filter);
            assert(pv[i as int] == parts@[i as int]@);
        }
        let chars = chars_of(parts[i].as_str());
        let len = chars.len();
        let empty = len == 0 || (len == 1 && chars[0] == '\r');
        proof {
            let piece = pv[i as int];
            if len == 1 {
                assert(piece.drop_last().len() == 0);
            }
            assert(empty == (line_text(piece).len() == 0));
        }
        if !empty {
            n = n + 1;
        }
        i = i + 1;
    }
    proof {
        assert(pv.take(i as int) =~= pv);
    }
    n
}

/// Where publishing has got to.
#[derive(Debug)]
pub enum PublishState {
    /// Staging everything in the working copy.
    Staging,
    /// Asking whether the working copy has a commit yet.
    CheckingHead,
    /// Listing what is staged in a working copy without commits.
    ListingFirst,
    /// Asking whether anything staged differs from the last commit.
    Comparing,
    /// Pushing, with nothing new to commit.
    PushingUnchanged,
    /// Listing the staged files, to count them.
    Counting,
    /// Committing this many files.
    Committing(usize),
    /// Reading the new commit's id.
    ReadingHead(usize),
    /// Pushing the new commit.
    Pushing(usize, String),
}

/// Whether a step runs exactly `args` and continues at a state satisfying
/// `next`.
pub open spec fn runs<S, T>(step: GitStep<S, T>, args: Seq<Seq<char>>) -> bool {
    step is Run && run_args(step) == args
}

/// Whether a step fails with `message`.
pub open spec fn fails_with<S, T>(step: GitStep<S, T>, message: Seq<char>) -> bool {
    step matches GitStep::Fail(m) && m@ == message
}

/// Whether a publication ends as `Published::Committed` of `files` files at
/// `cursor`.
pub open spec fn committed<S>(step: GitStep<S, Published>, cursor: Seq<char>, files: usize) -> bool {
    step matches GitStep::Finish(Published::Committed { cursor: c, files: f }) && c@ == cursor && f == files
}

impl GitBackend {
    fn push_args(&self) -> (r: Vec<String>)
        ensures
            views(r@) == seq!["push"@, "-u"@, "origin"@, self.branch_view()],
    {
        let r = vec!["push".to_owned(), "-u".to_owned(), "origin".to_owned(), self.branch.clone()];
        proof {
            assert(views(r@) =~= seq!["push"@, "-u"@, "origin"@, self.branch_view()]);
        }
        r
    }

    fn commit_args(message: &str) -> (r: Vec<String>)
        ensures
            views(r@) == seq!["commit"@, "--no-verify"@, "-m"@, message@],
    {
        let r = vec!["commit".to_owned(), "--no-verify".to_owned(), "-m".to_owned(), message.to_owned()];
        proof {
            assert(views(r@) =~= seq!["commit"@, "--no-verify"@, "-m"@, message@]);
        }
        r
    }

    fn args3(a: &str, b: &str, c: &str) -> (r: Vec<String>)
        ensures
            views(r@) == seq![a@, b@, c@],
    {
        let r = vec![a.to_owned(), b.to_owned(), c.to_owned()];
        proof {
            assert(views(r@) =~= seq![a@, b@, c@]);
        }
        r
    }

    fn args2(a: &str, b: &str) -> (r: Vec<String>)
        ensures
            views(r@) == seq![a@, b@],
    {
        let r = vec![a.to_owned(), b.to_owned()];
        proof {
            assert(views(r@) =~= seq![a@, b@]);
        }
        r
    }

    /// With nothing new to commit, the branch is still pushed when there is
    /// a remote: a previous run may have committed without reaching it.
    pub open spec fn unchanged_step(self, r: GitStep<PublishState, Published>) -> bool {
        &&& self.remote_view() is Some ==> (r matches GitStep::Run { next: PublishState::PushingUnchanged, args: _ })
            && run_args(r) == seq!["push"@, "-u"@, "origin"@, self.branch_view()]
        &&& self.remote_view() is None ==> r matches GitStep::Finish(Published::Unchanged)
    }

    fn unchanged(&self) -> (r: GitStep<PublishState, Published>)
        ensures
            self.unchanged_step(r),
    {
        if self.remote.is_some() {
            GitStep::Run { next: PublishState::PushingUnchanged, args: self.push_args() }
        } else {
            GitStep::Finish(Published::Unchanged)
        }
    }

    /// Starts recording the working copy as the published state, by staging
    /// everything.
    pub fn publish_start(&self) -> (r: GitStep<PublishState, Published>)
        ensures
            r matches GitStep::Run { next: PublishState::Staging, args: _ },
            run_args(r) == seq!["add"@, "-A"@],
    {
        GitStep::Run { next: PublishState::Staging, args: Self::args2("add", "-A") }
    }

    /// The next step of publishing with `message`, given how the last
    /// command went. What is staged is committed, when it differs from the
    /// last commit (or there is no commit yet and something is staged), and
    /// the result is pushed when there is a remote; a command that fails
    /// fails the publication, with its message.
    pub fn publish_step(&self, state: PublishState, answer: Result<String, String>, message: &str) -> (r: GitStep<
        PublishState,
        Published,
    >)
        ensures
            match state {
                PublishState::Staging => match answer {
                    Err(m) => fails_with(r, m@),
                    Ok(_) => (r matches GitStep::Run { next: PublishState::CheckingHead, args: _ }) && run_args(r) == seq![
                        "rev-parse"@,
                        "--verify"@,
                        "HEAD"@,
                    ],
                },
                PublishState::CheckingHead => match optional(answer) {
                    None => (r matches GitStep::Run { next: PublishState::ListingFirst, args: _ }) && run_args(r) == seq![
                        "diff"@,
                        "--cached"@,
                        "--name-only"@,
                    ],
                    Some(_) => (r matches GitStep::Run { next: PublishState::Comparing, args: _ }) && run_args(r) == seq![
                        "diff"@,
                        "--cached"@,
                        "--quiet"@,
                    ],
                },
                PublishState::ListingFirst => match answer {
                    Err(m) => fails_with(r, m@),
                    Ok(list) => if list@.len() == 0 {
                        self.unchanged_step(r)
                    } else {
                        (r matches GitStep::Run { next: PublishState::Counting, args: _ }) && run_args(r) == seq![
                            "diff"@,
                            "--cached"@,
                            "--name-only"@,
                        ]
                    },
                },
                PublishState::Comparing => match answer {
                    Ok(_) => self.unchanged_step(r),
                    Err(_) => (r matches GitStep::Run { next: PublishState::Counting, args: _ }) && run_args(r) == seq![
                        "diff"@,
                        "--cached"@,
                        "--name-only"@,
                    ],
                },
                PublishState::PushingUnchanged => match answer {
                    Err(m) => fails_with(r, m@),
                    Ok(_) => r matches GitStep::Finish(Published::Unchanged),
                },
                PublishState::Counting => match answer {
                    Err(m) => fails_with(r, m@),
                    Ok(list) => (r matches GitStep::Run { next: PublishState::Committing(n), args: _ } && n == listed_count(list@))
                        && run_args(r) == seq!["commit"@, "--no-verify"@, "-m"@, message@],
                },
                PublishState::Committing(n) => match answer {
                    Err(m) => fails_with(r, m@),
                    Ok(_) => (r matches GitStep::Run { next: PublishState::ReadingHead(k), args: _ } && k == n) && run_args(r) == seq![
                        "rev-parse"@,
                        "HEAD"@,
                    ],
                },
                PublishState::ReadingHead(n) => match answer {
                    Err(m) => fails_with(r, m@),
                    Ok(cursor) => if self.remote_view() is Some {
                        (r matches GitStep::Run { next: PublishState::Pushing(k, c), args: _ } && k == n && c@ == cursor@)
                            && run_args(r) == seq!["push"@, "-u"@, "origin"@, self.branch_view()]
                    } else {
                        committed(r, cursor@, n)
                    },
                },
                PublishState::Pushing(n, cursor) => match answer {
                    Err(m) => fails_with(r, m@),
                    Ok(_) => committed(r, cursor@, n),
                },
            },
    {
        match state {
            PublishState::Staging => match answer {
                Err(m) => GitStep::Fail(m),
                Ok(_) => GitStep::Run { next: PublishState::CheckingHead, args: Self::args3("rev-parse", "--verify", "HEAD") },
            },
            PublishState::CheckingHead => match optional_exec(&answer) {
                None => GitStep::Run { next: PublishState::ListingFirst, args: Self::args3("diff", "--cached", "--name-only") },
                Some(_) => GitStep::Run { next: PublishState::Comparing, args: Self::args3("diff", "--cached", "--quiet") },
            },
            PublishState::ListingFirst => match answer {
                Err(m) => GitStep::Fail(m),
                Ok(list) => if list.as_str().is_empty() {
                    self.unchanged()
                } else {
                    GitStep::Run { next: PublishState::Counting, args: Self::args3("diff", "--cached", "--name-only") }
                },
            },
            PublishState::Comparing => match answer {
                Ok(_) => self.unchanged(),
                Err(_) => GitStep::Run { next: PublishState::Counting, args: Self::args3("diff", "--cached", "--name-only") },
            },
            PublishState::PushingUnchanged => match answer {
                Err(m) => GitStep::Fail(m),
                Ok(_) => GitStep::Finish(Published::Unchanged),
            },
            PublishState::Counting => match answer {
                Err(m) => GitStep::Fail(m),
                Ok(list) => {
                    let files = count_listed(list.as_str());
                    GitStep::Run { next: PublishState::Committing(files), args: Self::commit_args(message) }
                },
            },
            PublishState::Committing(files) => match answer {
                Err(m) => GitStep::Fail(m),
                Ok(_) => GitStep::Run { next: PublishState::ReadingHead(files), args: Self::args2("rev-parse", "HEAD") },
            },
            PublishState::ReadingHead(files) => match answer {
                Err(m) => GitStep::Fail(m),
                Ok(cursor) => if self.remote.is_some() {
                    GitStep::Run { next: PublishState::Pushing(files, cursor), args: self.push_args() }
                } else {
                    GitStep::Finish(Published::Committed { cursor, files })
                },
            },
            PublishState::Pushing(files, cursor) => match answer {
                Err(m) => GitStep::Fail(m),
                Ok(_) => GitStep::Finish(Published::Committed { cursor, files }),
            },
        }
    }
}


/// Where declaring the working copy reconciled has got to.
#[derive(Debug)]
pub enum ReconcileState {
    /// Staging everything in the working copy.
    Staging,
    /// Asking whether the working copy has a commit yet.
    CheckingHead,
    /// Listing what is staged in a working copy without commits.
    ListingFirst,
    /// Asking whether anything staged differs from the last commit.
    Comparing,
    /// Committing the merged result.
    Committing,
    /// Reading the new commit's id.
    ReadingHead,
    /// Asking again whether the working copy has a commit.
    CheckingCommit,
    /// Taking the remote commit as the working copy's first.
    Resetting,
    /// Asking whether the working copy already contains the remote commit.
    CheckingAncestor,
    /// Recording the remote commit as a parent, keeping the merged tree.
    Merging,
}

/// The message of the commit that records a merge.
pub open spec fn merge_message(message: Seq<char>) -> Seq<char> {
    message + " (merge)"@
}

impl GitBackend {
    /// Starts declaring the working copy reconciled with a remote commit:
    /// the working copy already holds the merged result, so it is staged
    /// and committed first.
    pub fn reconcile_start(&self) -> (r: GitStep<ReconcileState, ()>)
        ensures
            r matches GitStep::Run { next: ReconcileState::Staging, args: _ },
            run_args(r) == seq!["add"@, "-A"@],
    {
        GitStep::Run { next: ReconcileState::Staging, args: Self::args2("add", "-A") }
    }

    /// The next step of declaring the working copy reconciled with `cursor`,
    /// given how the last command went. What is staged is committed with
    /// `message` when it differs from the last commit; then a working copy
    /// without commits takes the remote commit as its own, one that already
    /// contains it is done, and otherwise the remote commit is recorded as a
    /// parent with `-s ours`, keeping the tree merged by hand, so the next
    /// push fast-forwards. A command that fails fails the whole, with its
    /// message.
    pub fn reconcile_step(&self, state: ReconcileState, answer: Result<String, String>, cursor: &str, message: &str) -> (r: GitStep<
        ReconcileState,
        (),
    >)
        ensures
            match state {
                ReconcileState::Staging => match answer {
                    Err(m) => fails_with(r, m@),
                    Ok(_) => (r matches GitStep::Run { next: ReconcileState::CheckingHead, args: _ }) && run_args(r) == seq![
                        "rev-parse"@,
                        "--verify"@,
                        "HEAD"@,
                    ],
                },
                ReconcileState::CheckingHead => match optional(answer) {
                    None => (r matches GitStep::Run { next: ReconcileState::ListingFirst, args: _ }) && run_args(r) == seq![
                        "diff"@,
                        "--cached"@,
                        "--name-only"@,
                    ],
                    Some(_) => (r matches GitStep::Run { next: ReconcileState::Comparing, args: _ }) && run_args(r) == seq![
                        "diff"@,
                        "--cached"@,
                        "--quiet"@,
                    ],
                },
                ReconcileState::ListingFirst => match answer {
                    Err(m) => fails_with(r, m@),
                    Ok(list) => if list@.len() == 0 {
                        (r matches GitStep::Run { next: ReconcileState::CheckingCommit, args: _ }) && run_args(r) == seq![
                            "rev-parse"@,
                            "--verify"@,
                            "HEAD"@,
                        ]
                    } else {
                        (r matches GitStep::Run { next: ReconcileState::Committing, args: _ }) && run_args(r) == seq![
                            "commit"@,
                            "--no-verify"@,
                            "-m"@,
                            message@,
                        ]
                    },
                },
                ReconcileState::Comparing => match answer {
                    Ok(_) => (r matches GitStep::Run { next: ReconcileState::CheckingCommit, args: _ }) && run_args(r) == seq![
                        "rev-parse"@,
                        "--verify"@,
                        "HEAD"@,
                    ],
                    Err(_) => (r matches GitStep::Run { next: ReconcileState::Committing, args: _ }) && run_args(r) == seq![
                        "commit"@,
                        "--no-verify"@,
                        "-m"@,
                        message@,
                    ],
                },
                ReconcileState::Committing => match answer {
                    Err(m) => fails_with(r, m@),
                    Ok(_) => (r matches GitStep::Run { next: ReconcileState::ReadingHead, args: _ }) && run_args(r) == seq![
                        "rev-parse"@,
                        "HEAD"@,
                    ],
                },
                ReconcileState::ReadingHead => match answer {
                    Err(m) => fails_with(r, m@),
                    Ok(_) => (r matches GitStep::Run { next: ReconcileState::CheckingCommit, args: _ }) && run_args(r) == seq![
                        "rev-parse"@,
                        "--verify"@,
                        "HEAD"@,
                    ],
                },
                ReconcileState::CheckingCommit => match optional(answer) {
                    None => (r matches GitStep::Run { next: ReconcileState::Resetting, args: _ }) && run_args(r) == seq![
                        "reset"@,
                        "--hard"@,
                        cursor@,
                    ],
                    Some(_) => (r matches GitStep::Run { next: ReconcileState::CheckingAncestor, args: _ }) && run_args(r)
                        == seq!["merge-base"@, "--is-ancestor"@, cursor@, "HEAD"@],
                },
                ReconcileState::Resetting => match answer {
                    Err(m) => fails_with(r, m@),
                    Ok(_) => r matches GitStep::Finish(()),
                },
                ReconcileState::CheckingAncestor => match answer {
                    Ok(_) => r matches GitStep::Finish(()),
                    Err(_) => (r matches GitStep::Run { next: ReconcileState::Merging, args: _ }) && run_args(r) == seq![
                        "merge"@,
                        "-s"@,
                        "ours"@,
                        "--allow-unrelated-histories"@,
                        "--no-verify"@,
                        "-m"@,
                        merge_message(message@),
                        cursor@,
                    ],
                },
                ReconcileState::Merging => match answer {
                    Err(m) => fails_with(r, m@),
                    Ok(_) => r matches GitStep::Finish(()),
                },
            },
    {
        match state {
            ReconcileState::Staging => match answer {
                Err(m) => GitStep::Fail(m),
                Ok(_) => GitStep::Run { next: ReconcileState::CheckingHead, args: Self::args3("rev-parse", "--verify", "HEAD") },
            },
            ReconcileState::CheckingHead => match optional_exec(&answer) {
                None => GitStep::Run { next: ReconcileState::ListingFirst, args: Self::args3("diff", "--cached", "--name-only") },
                Some(_) => GitStep::Run { next: ReconcileState::Comparing, args: Self::args3("diff", "--cached", "--quiet") },
            },
            ReconcileState::ListingFirst => match answer {
                Err(m) => GitStep::Fail(m),
                Ok(list) => if list.as_str().is_empty() {
                    GitStep::Run { next: ReconcileState::CheckingCommit, args: Self::args3("rev-parse", "--verify", "HEAD") }
                } else {
                    GitStep::Run { next: ReconcileState::Committing, args: Self::commit_args(message) }
                },
            },
            ReconcileState::Comparing => match answer {
                Ok(_) => GitStep::Run { next: ReconcileState::CheckingCommit, args: Self::args3("rev-parse", "--verify", "HEAD") },
                Err(_) => GitStep::Run { next: ReconcileState::Committing, args: Self::commit_args(message) },
            },
            ReconcileState::Committing => match answer {
                Err(m) => GitStep::Fail(m),
                Ok(_) => GitStep::Run { next: ReconcileState::ReadingHead, args: Self::args2("rev-parse", "HEAD") },
            },
            ReconcileState::ReadingHead => match answer {
                Err(m) => GitStep::Fail(m),
                Ok(_) => GitStep::Run { next: ReconcileState::CheckingCommit, args: Self::args3("rev-parse", "--verify", "HEAD") },
            },
            ReconcileState::CheckingCommit => match optional_exec(&answer) {
                None => GitStep::Run { next: ReconcileState::Resetting, args: Self::args3("reset", "--hard", cursor) },
                Some(_) => {
                    let args = vec!["merge-base".to_owned(), "--is-ancestor".to_owned(), cursor.to_owned(), "HEAD".to_owned()];
                    proof {
                        assert(views(args@) =~= seq!["merge-base"@, "--is-ancestor"@, cursor@, "HEAD"@]);
                    }
                    GitStep::Run { next: ReconcileState::CheckingAncestor, args }
                },
            },
            ReconcileState::Resetting => match answer {
                Err(m) => GitStep::Fail(m),
                Ok(_) => GitStep::Finish(()),
            },
            ReconcileState::CheckingAncestor => match answer {
                Ok(_) => GitStep::Finish(()),
                Err(_) => {
                    let merge_text = concat(message, " (merge)");
                    let args = vec![
                        "merge".to_owned(),
                        "-s".to_owned(),
                        "ours".to_owned(),
                        "--allow-unrelated-histories".to_owned(),
                        "--no-verify".to_owned(),
                        "-m".to_owned(),
                        merge_text,
                        cursor.to_owned(),
                    ];
                    proof {
                        assert(views(args@) =~= seq![
                            "merge"@,
                            "-s"@,
                            "ours"@,
                            "--allow-unrelated-histories"@,
                            "--no-verify"@,
                            "-m"@,
                            merge_message(message@),
                            cursor@,
                        ]);
                    }
                    GitStep::Run { next: ReconcileState::Merging, args }
                },
            },
            ReconcileState::Merging => match answer {
                Err(m) => GitStep::Fail(m),
                Ok(_) => GitStep::Finish(()),
            },
        }
    }
}


/// Where creating the repository has got to.
#[derive(Debug)]
pub enum CreateState {
    /// Creating an empty repository.
    Initializing,
    /// Pointing `HEAD` at the configured branch.
    Pointing,
}

/// Where setting up an existing repository has got to.
#[derive(Debug)]
pub enum SetupState {
    CheckingEmail,
    SettingEmail,
    CheckingName,
    SettingName,
    /// Reading the URL the repository's `origin` points at.
    CheckingRemote,
    /// Removing an `origin` that is no longer configured.
    RemovingRemote,
    /// Pointing `origin` at the configured remote.
    ChangingRemote,
    /// Adding the configured remote as `origin`.
    AddingRemote,
    /// Asking whether the working copy has a commit yet.
    CheckingHead,
    /// Fetching the branch, to adopt the remote's history.
    Fetching,
    /// Resolving the fetched branch.
    Resolving,
    /// Taking the remote's history as the working copy's own.
    Resetting,
}

/// The placeholder identity used when the user has configured none: the
/// store is the program's own bookkeeping rather than something the user
/// authors, so a real identity is never overridden and global config is
/// never touched.
pub open spec fn placeholder_email() -> Seq<char> {
    "jbsync@localhost"@
}

pub open spec fn placeholder_name() -> Seq<char> {
    "jbsync"@
}

impl GitBackend {
    /// Starts creating the repository, unless the working copy already has
    /// one. `HEAD` is pointed at the branch by hand, which works with every
    /// Git version.
    pub fn create_start(&self, has_repository: bool) -> (r: GitStep<CreateState, ()>)
        ensures
            has_repository ==> r matches GitStep::Finish(()),
            !has_repository ==> (r matches GitStep::Run { next: CreateState::Initializing, args: _ }) && run_args(r) == seq![
                "init"@,
            ],
    {
        if has_repository {
            return GitStep::Finish(());
        }
        let args = vec!["init".to_owned()];
        proof {
            assert(views(args@) =~= seq!["init"@]);
        }
        GitStep::Run { next: CreateState::Initializing, args }
    }

    /// The next step of creating the repository.
    pub fn create_step(&self, state: CreateState, answer: Result<String, String>) -> (r: GitStep<CreateState, ()>)
        ensures
            answer matches Err(m) ==> fails_with(r, m@),
            answer is Ok ==> match state {
                CreateState::Initializing => (r matches GitStep::Run { next: CreateState::Pointing, args: _ }) && run_args(r) == seq![
                    "symbolic-ref"@,
                    "HEAD"@,
                    "refs/heads/"@ + self.branch_view(),
                ],
                CreateState::Pointing => r matches GitStep::Finish(()),
            },
    {
        match answer {
            Err(m) => GitStep::Fail(m),
            Ok(_) => match state {
                CreateState::Initializing => {
                    let head = concat("refs/heads/", self.branch.as_str());
                    GitStep::Run { next: CreateState::Pointing, args: Self::args3("symbolic-ref", "HEAD", head.as_str()) }
                },
                CreateState::Pointing => GitStep::Finish(()),
            },
        }
    }

    /// Starts setting up the repository: identity, remote, and adopting the
    /// remote's history when this machine is starting empty.
    pub fn setup_start(&self) -> (r: GitStep<SetupState, ()>)
        ensures
            r matches GitStep::Run { next: SetupState::CheckingEmail, args: _ },
            run_args(r) == seq!["config"@, "user.email"@],
    {
        GitStep::Run { next: SetupState::CheckingEmail, args: Self::args2("config", "user.email") }
    }

    fn check_name() -> (r: GitStep<SetupState, ()>)
        ensures
            r matches GitStep::Run { next: SetupState::CheckingName, args: _ },
            run_args(r) == seq!["config"@, "user.name"@],
    {
        GitStep::Run { next: SetupState::CheckingName, args: Self::args2("config", "user.name") }
    }

    fn check_remote() -> (r: GitStep<SetupState, ()>)
        ensures
            r matches GitStep::Run { next: SetupState::CheckingRemote, args: _ },
            run_args(r) == seq!["remote"@, "get-url"@, "origin"@],
    {
        GitStep::Run { next: SetupState::CheckingRemote, args: Self::args3("remote", "get-url", "origin") }
    }

    /// What adopting the remote's history starts with: with a remote, asking
    /// whether the working copy has a commit; without one, nothing.
    pub open spec fn adopt_step(self, r: GitStep<SetupState, ()>) -> bool {
        &&& self.remote_view() is Some ==> (r matches GitStep::Run { next: SetupState::CheckingHead, args: _ }) && run_args(r)
            == seq!["rev-parse"@, "--verify"@, "HEAD"@]
        &&& self.remote_view() is None ==> r matches GitStep::Finish(())
    }

    fn adopt(&self) -> (r: GitStep<SetupState, ()>)
        ensures
            self.adopt_step(r),
    {
        if self.remote.is_some() {
            GitStep::Run { next: SetupState::CheckingHead, args: Self::args3("rev-parse", "--verify", "HEAD") }
        } else {
            GitStep::Finish(())
        }
    }

    /// The next step of setting up the repository, given how the last
    /// command went. An identity is set only where none is configured; a
    /// remote that was removed from the configuration stops being used, and
    /// `origin` is pointed at the configured one; a working copy without
    /// commits adopts the remote's history, when there is one to fetch, so a
    /// second machine joins the store instead of forking it.
    pub fn setup_step(&self, state: SetupState, answer: Result<String, String>) -> (r: GitStep<SetupState, ()>)
        ensures
            match state {
                SetupState::CheckingEmail => match optional(answer) {
                    Some(_) => (r matches GitStep::Run { next: SetupState::CheckingName, args: _ }) && run_args(r) == seq![
                        "config"@,
                        "user.name"@,
                    ],
                    None => (r matches GitStep::Run { next: SetupState::SettingEmail, args: _ }) && run_args(r) == seq![
                        "config"@,
                        "user.email"@,
                        placeholder_email(),
                    ],
                },
                SetupState::SettingEmail => match answer {
                    Err(m) => fails_with(r, m@),
                    Ok(_) => (r matches GitStep::Run { next: SetupState::CheckingName, args: _ }) && run_args(r) == seq![
                        "config"@,
                        "user.name"@,
                    ],
                },
                SetupState::CheckingName => match optional(answer) {
                    Some(_) => (r matches GitStep::Run { next: SetupState::CheckingRemote, args: _ }) && run_args(r) == seq![
                        "remote"@,
                        "get-url"@,
                        "origin"@,
                    ],
                    None => (r matches GitStep::Run { next: SetupState::SettingName, args: _ }) && run_args(r) == seq![
                        "config"@,
                        "user.name"@,
                        placeholder_name(),
                    ],
                },
                SetupState::SettingName => match answer {
                    Err(m) => fails_with(r, m@),
                    Ok(_) => (r matches GitStep::Run { next: SetupState::CheckingRemote, args: _ }) && run_args(r) == seq![
                        "remote"@,
                        "get-url"@,
                        "origin"@,
                    ],
                },
                SetupState::CheckingRemote => match (self.remote_view(), optional(answer)) {
                    (None, Some(_)) => (r matches GitStep::Run { next: SetupState::RemovingRemote, args: _ }) && run_args(r)
                        == seq!["remote"@, "remove"@, "origin"@],
                    (None, None) => self.adopt_step(r),
                    (Some(wanted), Some(current)) => if wanted == current {
                        self.adopt_step(r)
                    } else {
                        (r matches GitStep::Run { next: SetupState::ChangingRemote, args: _ }) && run_args(r) == seq![
                            "remote"@,
                            "set-url"@,
                            "origin"@,
                            wanted,
                        ]
                    },
                    (Some(wanted), None) => (r matches GitStep::Run { next: SetupState::AddingRemote, args: _ }) && run_args(r)
                        == seq!["remote"@, "add"@, "origin"@, wanted],
                },
                SetupState::RemovingRemote | SetupState::ChangingRemote | SetupState::AddingRemote => match answer {
                    Err(m) => fails_with(r, m@),
                    Ok(_) => self.adopt_step(r),
                },
                SetupState::CheckingHead => match optional(answer) {
                    Some(_) => r matches GitStep::Finish(()),
                    None => (r matches GitStep::Run { next: SetupState::Fetching, args: _ }) && run_args(r) == seq![
                        "fetch"@,
                        "origin"@,
                        self.branch_view(),
                    ],
                },
                SetupState::Fetching => match answer {
                    Err(_) => r matches GitStep::Finish(()),
                    Ok(_) => (r matches GitStep::Run { next: SetupState::Resolving, args: _ }) && run_args(r) == seq![
                        "rev-parse"@,
                        "--verify"@,
                        remote_ref_of(self.branch_view()),
                    ],
                },
                SetupState::Resolving => match optional(answer) {
                    None => r matches GitStep::Finish(()),
                    Some(_) => (r matches GitStep::Run { next: SetupState::Resetting, args: _ }) && run_args(r) == seq![
                        "reset"@,
                        "--hard"@,
                        remote_ref_of(self.branch_view()),
                    ],
                },
                SetupState::Resetting => match answer {
                    Err(m) => fails_with(r, m@),
                    Ok(_) => r matches GitStep::Finish(()),
                },
            },
    {
        match state {
            SetupState::CheckingEmail => match optional_exec(&answer) {
                Some(_) => Self::check_name(),
                None => GitStep::Run { next: SetupState::SettingEmail, args: Self::args3("config", "user.email", "jbsync@localhost") },
            },
            SetupState::SettingEmail => match answer {
                Err(m) => GitStep::Fail(m),
                Ok(_) => Self::check_name(),
            },
            SetupState::CheckingName => match optional_exec(&answer) {
                Some(_) => Self::check_remote(),
                None => GitStep::Run { next: SetupState::SettingName, args: Self::args3("config", "user.name", "jbsync") },
            },
            SetupState::SettingName => match answer {
                Err(m) => GitStep::Fail(m),
                Ok(_) => Self::check_remote(),
            },
            SetupState::CheckingRemote => {
                let current = optional_exec(&answer);
                match (&self.remote, current) {
                    (None, Some(_)) => GitStep::Run { next: SetupState::RemovingRemote, args: Self::args3("remote", "remove", "origin") },
                    (None, None) => self.adopt(),
                    (Some(wanted), Some(current)) => if str_eq(wanted.as_str(), current.as_str()) {
                        self.adopt()
                    } else {
                        let args = vec!["remote".to_owned(), "set-url".to_owned(), "origin".to_owned(), wanted.clone()];
                        proof {
                            assert(views(args@) =~= seq!["remote"@, "set-url"@, "origin"@, wanted@]);
                        }
                        GitStep::Run { next: SetupState::ChangingRemote, args }
                    },
                    (Some(wanted), None) => {
                        let args = vec!["remote".to_owned(), "add".to_owned(), "origin".to_owned(), wanted.clone()];
                        proof {
                            assert(views(args@) =~= seq!["remote"@, "add"@, "origin"@, wanted@]);
                        }
                        GitStep::Run { next: SetupState::AddingRemote, args }
                    },
                }
            },
            SetupState::RemovingRemote | SetupState::ChangingRemote | SetupState::AddingRemote => match answer {
                Err(m) => GitStep::Fail(m),
                Ok(_) => self.adopt(),
            },
            SetupState::CheckingHead => match optional_exec(&answer) {
                Some(_) => GitStep::Finish(()),
                None => {
                    let args = vec!["fetch".to_owned(), "origin".to_owned(), self.branch.clone()];
                    proof {
                        assert(views(args@) =~= seq!["fetch"@, "origin"@, self.branch_view()]);
                    }
                    GitStep::Run { next: SetupState::Fetching, args }
                },
            },
            SetupState::Fetching => match answer {
                Err(_) => GitStep::Finish(()),
                Ok(_) => {
                    let remote_ref = self.remote_ref();
                    GitStep::Run { next: SetupState::Resolving, args: Self::args3("rev-parse", "--verify", remote_ref.as_str()) }
                },
            },
            SetupState::Resolving => match optional_exec(&answer) {
                None => GitStep::Finish(()),
                Some(_) => {
                    let remote_ref = self.remote_ref();
                    GitStep::Run { next: SetupState::Resetting, args: Self::args3("reset", "--hard", remote_ref.as_str()) }
                },
            },
            SetupState::Resetting => match answer {
                Err(m) => GitStep::Fail(m),
                Ok(_) => GitStep::Finish(()),
            },
        }
    }
}

} // verus!
