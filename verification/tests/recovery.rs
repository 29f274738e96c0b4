use rem::acceptance::acceptance_path;
use rem::config::{ProfileConfig, StorageMode};
use rem::finder::RootFinder;
use rem::git::{git_error, read_head, GitStatusEntry};
use rem::memory::memory_directories;
use rem::output::prompt;
use rem::transaction::{
    add_arguments, choose_external, choose_file, choose_review, committing, describe_change,
    fail_if_pending_transaction_journals, is_commit_created, lock_taken, missing_vault,
    print_review_summary, release_lock, restore_external_entry, restore_head, staging, tx_id,
    ExternalStep, FileStep, JournalEntry, RestoreStep, ReviewStep,
};
use rem::workspace::{raced_directory, PathState, Workspace};

fn entry(code: &str, path: &str, original: Option<&str>) -> GitStatusEntry {
    GitStatusEntry {
        code: code.to_string(),
        path: path.to_string(),
        original_path: original.map(str::to_string),
    }
}

fn workspace() -> Workspace {
    Workspace::new(&ProfileConfig {
        name: "default".to_string(),
        root: "/vault".to_string(),
        storage: StorageMode::Git,
    })
}

#[test]
fn git_failures_say_what_git_said() {
    assert_eq!(
        git_error("git status", "exit status: 128", " out \n", " err \n").message(),
        "git status failed: err"
    );
    assert_eq!(
        git_error("git status", "exit status: 128", " out \n", " \n").message(),
        "git status failed: out"
    );
    assert_eq!(
        git_error("git status", "exit status: 128", "", "").message(),
        "git status failed with status exit status: 128"
    );
}

#[test]
fn locks_are_released_by_their_owner_only() {
    assert!(release_lock("/vault/.rem/tx/active.lock", Some("tx-1-2\n"), "tx-1-2").unwrap());
    assert!(!release_lock("/vault/.rem/tx/active.lock", None, "tx-1-2").unwrap());
    assert_eq!(
        release_lock("/vault/.rem/tx/active.lock", Some("tx-9-9\n"), "tx-1-2")
            .unwrap_err()
            .message(),
        "transaction lock ownership changed at /vault/.rem/tx/active.lock; refusing to remove \
         another process's lock"
    );
    assert_eq!(
        lock_taken("/l").message(),
        "another rem transaction is active or a stale lock remains at /l; run `rem doctor` and \
         remove the lock only after confirming no rem process is running"
    );
    assert_eq!(tx_id(12, 34), "tx-12-34");
}

#[test]
fn journals_stop_a_transaction_but_locks_do_not() {
    let lock = JournalEntry { path: "/t/active.lock".to_string(), is_directory: false };
    assert!(fail_if_pending_transaction_journals(&vec![lock]).is_ok());
    let journals = vec![
        JournalEntry { path: "/t/tx-2-1".to_string(), is_directory: true },
        JournalEntry { path: "/t/tx-1-1".to_string(), is_directory: true },
    ];
    assert_eq!(
        fail_if_pending_transaction_journals(&journals).unwrap_err().message(),
        "transaction recovery pending in /t/tx-1-1, /t/tx-2-1; inspect or remove stale journals \
         before committing"
    );
}

#[test]
fn missing_vaults_are_named() {
    assert_eq!(
        missing_vault("/nowhere").message(),
        "vault root /nowhere must be an existing Git working tree"
    );
}

#[test]
fn answers_about_all_changes() {
    assert_eq!(choose_external("\n").unwrap(), ExternalStep::Proceed);
    assert_eq!(choose_external(" c \n").unwrap(), ExternalStep::Proceed);
    assert_eq!(choose_external("restore").unwrap(), ExternalStep::Restore);
    assert_eq!(
        choose_external("a").unwrap_err().message(),
        "aborted due to external vault changes"
    );
    assert_eq!(
        choose_external("what").unwrap_err().message(),
        "unknown external-change choice \"what\""
    );

    assert_eq!(choose_review(Some("")).unwrap(), ReviewStep::CommitAll);
    assert_eq!(choose_review(Some(" PICK ")).unwrap(), ReviewStep::Pick);
    assert_eq!(choose_review(Some("d")).unwrap(), ReviewStep::ShowDiffs);
    assert_eq!(choose_review(Some("restore-all")).unwrap(), ReviewStep::RestoreAll);
    assert_eq!(
        choose_review(Some("x")).unwrap(),
        ReviewStep::Unknown("unknown choice \"x\"".to_string())
    );
    assert_eq!(
        choose_review(Some("abort")).unwrap_err().message(),
        "aborted due to external vault changes"
    );
    assert_eq!(
        choose_review(None).unwrap_err().message(),
        "interactive review input ended before a choice was made"
    );
}

#[test]
fn answers_about_one_file() {
    assert_eq!(choose_file(Some("I")).unwrap(), FileStep::Keep);
    assert_eq!(choose_file(Some("r")).unwrap(), FileStep::Restore);
    assert_eq!(choose_file(Some("diff")).unwrap(), FileStep::ShowDiff);
    assert_eq!(
        choose_file(Some("Y")).unwrap(),
        FileStep::Unknown("unknown choice \"y\"".to_string())
    );
    assert_eq!(
        choose_file(Some("a")).unwrap_err().message(),
        "aborted due to external vault changes"
    );
    assert!(choose_file(None).is_err());
}

#[test]
fn changes_are_shown_by_kind() {
    let renamed = entry("R ", "b.md", Some("a.md"));
    assert_eq!(describe_change(&renamed, false), "renamed\tR \ta.md -> b.md");
    let entries = vec![entry("??", "n.md", None), entry(" M", "m.md", None), renamed];
    assert_eq!(
        print_review_summary(&entries, false),
        vec![
            "external Git changes detected:",
            "modified:",
            "   M\tm.md",
            "renamed:",
            "  R \ta.md -> b.md",
            "untracked:",
            "  ??\tn.md",
        ]
    );
}

#[test]
fn changes_are_undone_and_staged_with_both_names() {
    match restore_external_entry(&entry("??", "n.md", None)) {
        RestoreStep::Remove(path) => assert_eq!(path, "n.md"),
        RestoreStep::Git(_) => panic!("new files are not known to Git"),
    }
    match restore_external_entry(&entry("R ", "b.md", Some("a.md"))) {
        RestoreStep::Remove(_) => panic!("renamed files are known to Git"),
        RestoreStep::Git(arguments) => assert_eq!(
            arguments,
            vec!["restore", "--staged", "--worktree", "--", "a.md", "b.md"]
        ),
    }
    assert_eq!(
        add_arguments(&vec![entry("R ", "b.md", Some("a.md")), entry(" M", "m.md", None)]),
        vec!["add", "--all", "--", "a.md", "b.md", "m.md"]
    );
    assert_eq!(entry("R ", "b.md", Some("a.md")).path_args(), vec!["a.md", "b.md"]);
}

#[test]
fn commits_are_taken_back() {
    assert!(restore_head(false, Some("abc"), None).unwrap().is_empty());
    let commands = restore_head(true, Some("abc"), Some("refs/heads/main")).unwrap();
    assert_eq!(commands.len(), 1);
    assert_eq!(commands[0].arguments, vec!["reset", "--mixed", "abc"]);
    assert_eq!(commands[0].label, "git reset transaction commit");
    let commands = restore_head(true, None, Some("refs/heads/main")).unwrap();
    assert_eq!(commands.len(), 2);
    assert_eq!(commands[0].arguments, vec!["update-ref", "-d", "refs/heads/main"]);
    assert_eq!(commands[1].arguments, vec!["read-tree", "--empty"]);
    assert_eq!(
        restore_head(true, None, None).unwrap_err().message(),
        "cannot restore unborn Git HEAD without a symbolic branch"
    );
}

#[test]
fn directories_made_by_others_must_be_regular() {
    assert!(raced_directory(PathState::Directory, "/v/d", "vault").is_ok());
    assert_eq!(
        raced_directory(PathState::Symlink, "/v/d", "vault").unwrap_err().message(),
        "refusing to use non-regular vault directory /v/d"
    );
}

#[test]
fn decisions_are_kept_by_conflict() {
    assert_eq!(
        acceptance_path(&workspace(), "conflict-0123456789abcdef").unwrap(),
        "/vault/conflicts/conflict-0123456789abcdef.md"
    );
    assert!(acceptance_path(&workspace(), "../conflict").is_err());
}

#[test]
fn archived_memories_are_read_on_demand() {
    assert_eq!(
        memory_directories(&workspace(), false),
        vec!["/vault/memories/short", "/vault/memories/long"]
    );
    assert_eq!(
        memory_directories(&workspace(), true),
        vec!["/vault/memories/short", "/vault/memories/long", "/vault/archive"]
    );
}

#[test]
fn questions_are_plain_without_color() {
    assert_eq!(prompt("go on? ", false), "go on? ");
    assert_ne!(prompt("go on? ", true), "go on? ");
}

#[test]
fn only_a_window_of_the_paths_is_shown() {
    let mut finder = RootFinder::new("/home");
    let found: Vec<String> = (0..300).map(|i| format!("/home/d{i:03}")).collect();
    finder.poll(&found, true);
    let (start, shown) = finder.visible_matching_paths();
    assert_eq!(start, 0);
    assert_eq!(shown.len(), 200);
    assert_eq!(shown[1], "/home/d000");
    assert_eq!(finder.selected_path(), Some("/home"));
}

#[test]
fn nothing_is_committed_where_nothing_changed() {
    assert_eq!(staging(&vec![]), None);
    assert_eq!(
        staging(&vec![entry(" M", "m.md", None)]).unwrap(),
        vec!["add", "--all", "--", "m.md"]
    );
    assert_eq!(committing(&vec![], "rem: commit"), None);
    assert_eq!(
        committing(&vec!["m.md".to_string()], "rem: commit").unwrap(),
        vec![
            "-c",
            "user.name=rem",
            "-c",
            "user.email=rem@example.invalid",
            "commit",
            "-m",
            "rem: commit",
        ]
    );
    let before = Some("abc".to_string());
    assert!(!is_commit_created(&before, &Some("abc".to_string())));
    assert!(is_commit_created(&before, &Some("abd".to_string())));
    assert!(is_commit_created(&None, &before));
}

#[test]
fn repositories_without_a_commit_have_no_head() {
    assert_eq!(
        read_head("git rev-parse HEAD", Some(0), "exit status: 0", "abc\n", "").unwrap(),
        Some("abc".to_string())
    );
    assert_eq!(read_head("git rev-parse HEAD", Some(1), "exit status: 1", "", "").unwrap(), None);
    assert_eq!(
        read_head("git rev-parse HEAD", Some(128), "exit status: 128", "", "fatal: no\n")
            .unwrap_err()
            .message(),
        "git rev-parse HEAD failed: fatal: no"
    );
    assert!(read_head("git rev-parse HEAD", None, "signal: 9", "", "").is_err());
}
