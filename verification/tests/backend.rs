use jbsync::backend::git::{
    blob_args, count_listed, gitattributes, is_internal_path, tree_listing_args, tree_paths,
    CreateState, GitBackend, GitStep, IncomingPlan, IncomingState, PublishState, ReconcileState,
    SetupState,
};
use jbsync::backend::{Published, Tree};

fn backend(remote: Option<&str>) -> GitBackend {
    GitBackend::new(
        "/data/store".to_string(),
        remote.map(str::to_string),
        "main".to_string(),
    )
}

fn ok(text: &str) -> Result<String, String> {
    Ok(text.to_string())
}

fn failed() -> Result<String, String> {
    Err("git failed".to_string())
}

fn args<S, T>(step: &GitStep<S, T>) -> Vec<String> {
    match step {
        GitStep::Run { args, .. } => args.clone(),
        _ => Vec::new(),
    }
}

fn strings(items: &[&str]) -> Vec<String> {
    items.iter().map(|item| (*item).to_string()).collect()
}

/// Runs a publication against scripted answers, returning its outcome and
/// the commands it asked for.
fn publish(git: &GitBackend, answers: &[Result<String, String>]) -> (GitStep<PublishState, Published>, Vec<Vec<String>>) {
    let mut commands = Vec::new();
    let mut step = git.publish_start();
    let mut next_answer = answers.iter();
    loop {
        match step {
            GitStep::Run { next, args } => {
                commands.push(args);
                let answer = next_answer.next().expect("an answer for every command").clone();
                step = git.publish_step(next, answer, "sync");
            }
            done => return (done, commands),
        }
    }
}

#[test]
fn bookkeeping_paths_are_internal() {
    assert!(is_internal_path(".gitattributes"));
    assert!(is_internal_path(".git/HEAD"));
    assert!(!is_internal_path("shared/options/laf.xml"));
    assert!(!is_internal_path(".gitignore"));
}

#[test]
fn describes_the_remote_or_the_local_store() {
    assert_eq!(backend(None).describe(), "local store, no remote");
    assert_eq!(backend(Some("git@host:me/s.git")).describe(), "git@host:me/s.git on main");
    assert_eq!(backend(None).remote_ref(), "origin/main");
    assert_eq!(backend(None).workdir(), "/data/store");
}

#[test]
fn initialize_is_idempotent_and_pins_line_endings() {
    let git = backend(None);
    assert!(matches!(git.create_start(true), GitStep::Finish(())));
    let start = git.create_start(false);
    assert_eq!(args(&start), strings(&["init"]));
    let pointing = git.create_step(CreateState::Initializing, ok(""));
    assert_eq!(args(&pointing), strings(&["symbolic-ref", "HEAD", "refs/heads/main"]));
    assert!(matches!(git.create_step(CreateState::Pointing, ok("")), GitStep::Finish(())));
    assert_eq!(gitattributes(), "* -text -diff=auto\n");
}

#[test]
fn setup_sets_a_placeholder_identity_only_when_missing() {
    let git = backend(None);
    assert_eq!(args(&git.setup_start()), strings(&["config", "user.email"]));
    assert_eq!(
        args(&git.setup_step(SetupState::CheckingEmail, failed())),
        strings(&["config", "user.email", "jbsync@localhost"])
    );
    assert_eq!(
        args(&git.setup_step(SetupState::CheckingEmail, ok("me@example.com"))),
        strings(&["config", "user.name"])
    );
    assert_eq!(
        args(&git.setup_step(SetupState::CheckingName, ok(""))),
        strings(&["config", "user.name", "jbsync"])
    );
    assert_eq!(
        args(&git.setup_step(SetupState::CheckingRemote, ok("git@old:x.git"))),
        strings(&["remote", "remove", "origin"]),
        "a remote removed from config stops being used"
    );
    assert!(matches!(git.setup_step(SetupState::CheckingRemote, failed()), GitStep::Finish(())));
}

#[test]
fn setup_points_origin_at_the_remote_and_adopts_its_history() {
    let git = backend(Some("git@host:s.git"));
    assert_eq!(
        args(&git.setup_step(SetupState::CheckingRemote, failed())),
        strings(&["remote", "add", "origin", "git@host:s.git"])
    );
    assert_eq!(
        args(&git.setup_step(SetupState::CheckingRemote, ok("git@elsewhere:s.git"))),
        strings(&["remote", "set-url", "origin", "git@host:s.git"])
    );
    assert_eq!(
        args(&git.setup_step(SetupState::CheckingRemote, ok("git@host:s.git"))),
        strings(&["rev-parse", "--verify", "HEAD"])
    );
    assert_eq!(
        args(&git.setup_step(SetupState::CheckingHead, failed())),
        strings(&["fetch", "origin", "main"])
    );
    assert!(matches!(git.setup_step(SetupState::CheckingHead, ok("abc")), GitStep::Finish(())));
    assert!(matches!(git.setup_step(SetupState::Fetching, failed()), GitStep::Finish(())));
    assert_eq!(
        args(&git.setup_step(SetupState::Resolving, ok("abc"))),
        strings(&["reset", "--hard", "origin/main"])
    );
    assert!(matches!(git.setup_step(SetupState::Resetting, failed()), GitStep::Fail(_)));
}

#[test]
fn no_remote_means_nothing_incoming() {
    assert!(matches!(backend(None).incoming_start(), GitStep::Finish(None)));
}

#[test]
fn incoming_reports_remote_state_and_common_ancestor() {
    let git = backend(Some("git@host:s.git"));
    assert_eq!(args(&git.incoming_start()), strings(&["fetch", "origin", "main"]));
    assert!(matches!(git.incoming_step(IncomingState::Fetching, failed()), GitStep::Finish(None)));
    assert_eq!(
        args(&git.incoming_step(IncomingState::Fetching, ok(""))),
        strings(&["rev-parse", "--verify", "origin/main"])
    );
    assert!(matches!(git.incoming_step(IncomingState::Resolving, ok("")), GitStep::Finish(None)));
    assert_eq!(
        args(&git.incoming_step(IncomingState::Resolving, ok("c1"))),
        strings(&["rev-parse", "--verify", "HEAD"])
    );
    match git.incoming_step(IncomingState::CheckingHead("c1".to_string()), failed()) {
        GitStep::Finish(Some(IncomingPlan { cursor, base })) => {
            assert_eq!(cursor, "c1");
            assert!(base.is_none(), "a first machine merges over an empty base");
        }
        other => panic!("unexpected {other:?}"),
    }
    assert!(matches!(
        git.incoming_step(IncomingState::CheckingAncestor("c1".to_string()), ok("")),
        GitStep::Finish(None)
    ));
    assert_eq!(
        args(&git.incoming_step(IncomingState::CheckingAncestor("c1".to_string()), failed())),
        strings(&["merge-base", "HEAD", "c1"])
    );
    match git.incoming_step(IncomingState::FindingBase("c1".to_string()), ok("b0")) {
        GitStep::Finish(Some(IncomingPlan { cursor, base })) => {
            assert_eq!(cursor, "c1");
            assert_eq!(base.as_deref(), Some("b0"), "base is the last state both machines agreed on");
        }
        other => panic!("unexpected {other:?}"),
    }
}

#[test]
fn publish_commits_once_then_reports_unchanged() {
    let git = backend(None);
    let (first, commands) = publish(
        &git,
        &[ok(""), failed(), ok("shared/options/laf.xml"), ok("shared/options/laf.xml"), ok(""), ok("8f21c0a4")],
    );
    match first {
        GitStep::Finish(Published::Committed { files, cursor }) => {
            assert!(files >= 1);
            assert_eq!(cursor, "8f21c0a4");
        }
        other => panic!("expected a commit, got {other:?}"),
    }
    assert_eq!(commands[0], strings(&["add", "-A"]));
    assert_eq!(commands[4], strings(&["commit", "--no-verify", "-m", "sync"]));

    let (second, _) = publish(&git, &[ok(""), ok("8f21c0a4"), ok("")]);
    assert!(matches!(second, GitStep::Finish(Published::Unchanged)));
}

#[test]
fn publishing_without_changes_still_pushes_to_a_remote() {
    let git = backend(Some("git@host:s.git"));
    let (outcome, commands) = publish(&git, &[ok(""), ok("abc"), ok(""), ok("")]);
    assert!(matches!(outcome, GitStep::Finish(Published::Unchanged)));
    assert_eq!(commands.last().unwrap(), &strings(&["push", "-u", "origin", "main"]));
    let (failed_push, _) = publish(&git, &[ok(""), ok("abc"), ok(""), failed()]);
    assert!(matches!(failed_push, GitStep::Fail(_)));
}

#[test]
fn reconcile_keeps_the_merged_tree_and_lets_the_push_succeed() {
    let git = backend(Some("git@host:s.git"));
    assert_eq!(args(&git.reconcile_start()), strings(&["add", "-A"]));
    assert_eq!(
        args(&git.reconcile_step(ReconcileState::Comparing, failed(), "c1", "sync")),
        strings(&["commit", "--no-verify", "-m", "sync"])
    );
    assert_eq!(
        args(&git.reconcile_step(ReconcileState::CheckingCommit, failed(), "c1", "sync")),
        strings(&["reset", "--hard", "c1"])
    );
    assert!(matches!(
        git.reconcile_step(ReconcileState::CheckingAncestor, ok(""), "c1", "sync"),
        GitStep::Finish(())
    ));
    assert_eq!(
        args(&git.reconcile_step(ReconcileState::CheckingAncestor, failed(), "c1", "sync")),
        strings(&[
            "merge",
            "-s",
            "ours",
            "--allow-unrelated-histories",
            "--no-verify",
            "-m",
            "sync (merge)",
            "c1"
        ])
    );
}

#[test]
fn tree_listings_and_counts() {
    assert_eq!(tree_paths("a.xml\0shared/b.xml\0\0"), strings(&["a.xml", "shared/b.xml"]));
    assert_eq!(tree_paths(""), Vec::<String>::new());
    assert_eq!(count_listed("a\r\nb\n\n\r\nc"), 3);
    assert_eq!(count_listed(""), 0);
    assert_eq!(tree_listing_args("c1"), strings(&["ls-tree", "-r", "-z", "--name-only", "c1"]));
    assert_eq!(blob_args("c1", "shared/a.xml"), strings(&["show", "c1:shared/a.xml"]));
}

#[test]
fn trees_hold_one_entry_per_path() {
    let mut tree = Tree::new();
    tree.insert("a".to_string(), b"1".to_vec());
    tree.insert("b".to_string(), b"2".to_vec());
    tree.insert("a".to_string(), b"3".to_vec());
    assert_eq!(tree.get("a").map(Vec::as_slice), Some(b"3".as_slice()));
    assert_eq!(tree.get("c"), None);
    let mut paths = tree.paths();
    paths.sort();
    assert_eq!(paths, strings(&["a", "b"]));
}
