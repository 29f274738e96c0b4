use rem::git::{
    ensure_gitignore, git_remote_host, git_status, is_excluded_relative,
    is_github_or_gitlab_remote, parse_status_z, staged_paths, validate_gitignore_path,
    GitStatusEntry, GitStatusKind,
};
use rem::transaction::{
    advance, begin, check_hooks, check_reindex, fail_if_unmerged, pending_transactions,
    resolve_external_changes, snapshot_vault, stray_files, transaction_options_from_parts,
    untracked_diff, validate_git_vault, ExternalChangePolicy, ExternalStep, JournalEntry, Progress,
    Step, TransactionOptions,
};
use rem::error::Error;
use rem::workspace::PathState;

fn entry(code: &str, path: &str) -> GitStatusEntry {
    GitStatusEntry { code: code.to_string(), path: path.to_string(), original_path: None }
}

#[test]
fn validates_github_and_gitlab_remotes() {
    assert!(is_github_or_gitlab_remote("https://github.com/acme/rem.git"));
    assert!(is_github_or_gitlab_remote("git@gitlab.com:acme/rem.git"));
    assert!(is_github_or_gitlab_remote("ssh://git@github.com:22/acme/rem.git"));
    assert!(!is_github_or_gitlab_remote("https://example.com/acme/rem.git"));
    assert!(!is_github_or_gitlab_remote("https://github.com.evil/acme/rem.git"));
    assert!(!is_github_or_gitlab_remote("git@evilgithub.com:acme/rem.git"));
}

#[test]
fn excludes_cache_tx_and_git_paths() {
    assert!(is_excluded_relative(".rem/cache/index.sqlite"));
    assert!(is_excluded_relative(".rem/tx/tx-1/snapshot"));
    assert!(is_excluded_relative(".git/config"));
    assert!(!is_excluded_relative(".rem/config.toml"));
    assert!(!is_excluded_relative("memories/short/a.md"));
}

#[test]
fn parses_porcelain_z_status() {
    let parsed = parse_status_z(b" M memories/short/a.md\0?? notes.md\0");

    assert_eq!(parsed.len(), 2);
    assert_eq!(parsed[0].code, " M");
    assert_eq!(parsed[0].path, "memories/short/a.md");
    assert_eq!(parsed[0].original_path, None);
    assert_eq!(parsed[1].code, "??");
    assert_eq!(parsed[1].path, "notes.md");
    assert_eq!(parsed[1].original_path, None);
}

#[test]
fn parses_rename_porcelain_z_status() {
    let parsed = parse_status_z(b"R  new.md\0old.md\0");

    assert_eq!(parsed.len(), 1);
    assert_eq!(parsed[0].code, "R ");
    assert_eq!(parsed[0].path, "new.md");
    assert_eq!(parsed[0].original_path, Some("old.md".to_string()));
    assert_eq!(parsed[0].display_path(), "old.md -> new.md");
}

#[test]
fn parses_copy_porcelain_z_status() {
    let parsed = parse_status_z(b"C  copy.md\0source.md\0");

    assert_eq!(parsed.len(), 1);
    assert_eq!(parsed[0].code, "C ");
    assert_eq!(parsed[0].path, "copy.md");
    assert_eq!(parsed[0].original_path, Some("source.md".to_string()));
    assert_eq!(parsed[0].display_path(), "source.md -> copy.md");
}

#[test]
fn classifies_git_status_entries() {
    assert_eq!(entry(" M", "a.md").kind(), GitStatusKind::Modified);
    assert_eq!(entry("??", "a.md").kind(), GitStatusKind::Untracked);
    assert_eq!(entry("UU", "a.md").kind(), GitStatusKind::Unmerged);
}

#[test]
fn bytes_that_are_no_text_are_replaced() {
    let parsed = parse_status_z(b"?? bad\xffname\0");
    assert_eq!(parsed[0].path, "bad\u{fffd}name");
}

#[test]
fn status_leaves_out_what_is_not_in_the_vault() {
    let reported = git_status(b"?? .rem/cache/index.sqlite\0 M a.md\0");
    assert_eq!(reported.len(), 1);
    assert_eq!(reported[0].path, "a.md");
    assert_eq!(staged_paths(b"a.md\0.rem/tx/lock\0b.md\0"), vec!["a.md", "b.md"]);
}

#[test]
fn hosts_are_found_in_remotes() {
    assert_eq!(git_remote_host("git@GitHub.com:a/b").as_deref(), Some("github.com"));
    assert_eq!(git_remote_host("/local/path"), None);
}

#[test]
fn ignore_entries_are_added_once() {
    let first = ensure_gitignore("target").unwrap();
    assert!(first.starts_with("target\n"));
    assert!(first.contains(".rem/cache/\n"));
    assert!(first.contains(".rem/tx/\n"));
    assert_eq!(ensure_gitignore(&first), None);
}

#[test]
fn only_one_policy_can_be_chosen() {
    assert_eq!(
        transaction_options_from_parts(true, false, false, true).unwrap(),
        TransactionOptions { external_policy: ExternalChangePolicy::Accept, non_interactive: true }
    );
    assert_eq!(
        transaction_options_from_parts(true, true, false, false).unwrap_err().message(),
        "choose only one external-change policy"
    );
    assert_eq!(
        transaction_options_from_parts(false, false, true, true).unwrap_err().message(),
        "--review requires interactive input"
    );
}

#[test]
fn changes_from_outside_are_refused_without_a_policy() {
    let options =
        TransactionOptions { external_policy: ExternalChangePolicy::Prompt, non_interactive: true };
    let error = resolve_external_changes(&vec![entry("??", "notes.md")], options, false).unwrap_err();
    assert!(error.message().contains("external vault changes detected"));
    let accept =
        TransactionOptions { external_policy: ExternalChangePolicy::Accept, non_interactive: true };
    assert_eq!(
        resolve_external_changes(&vec![entry("??", "notes.md")], accept, false).unwrap(),
        ExternalStep::Proceed
    );
}

#[test]
fn unmerged_files_stop_everything() {
    let error = fail_if_unmerged(&vec![entry("UU", "conflict.md")]).unwrap_err();
    assert!(error.message().contains("unmerged Git conflict detected"));
    assert!(error.message().contains("conflict.md"));
    assert!(fail_if_unmerged(&vec![entry(" M", "a.md")]).is_ok());
}

#[test]
fn vaults_must_be_repository_roots_with_known_remotes() {
    let info = validate_git_vault("/v", "/v", "git@github.com:a/b.git\n").unwrap();
    assert_eq!(info.origin_url, "git@github.com:a/b.git");
    assert!(validate_git_vault("/v/sub", "/v", "git@github.com:a/b.git").is_err());
    let error = validate_git_vault("/v", "/v", "https://example.com/a.git").unwrap_err();
    assert!(error.message().contains("GitHub or GitLab"));
}

#[test]
fn diagnostics_and_hooks_fail_a_commit() {
    let error = check_reindex(1, &vec!["a.md [error]: bad".to_string()], "committing").unwrap_err();
    assert_eq!(
        error.message(),
        "reindex produced 1 diagnostics; fix malformed or duplicate memory files before committing:\na.md [error]: bad"
    );
    assert!(check_reindex(0, &Vec::new(), "committing").is_ok());
    let error = check_hooks(&vec![entry("??", "hook-output.md")]).unwrap_err();
    assert_eq!(
        error.message(),
        "Git hooks changed vault files after commit (hook-output.md); transaction will roll back"
    );
}

#[test]
fn journals_that_are_left_are_pending() {
    let entries = vec![
        JournalEntry { path: "/v/.rem/tx/tx-2".to_string(), is_directory: true },
        JournalEntry { path: "/v/.rem/tx/active.lock".to_string(), is_directory: false },
    ];
    let pending = pending_transactions(&entries);
    assert_eq!(pending, vec!["/v/.rem/tx/active.lock", "/v/.rem/tx/tx-2"]);
}

#[test]
fn rolling_back_removes_only_new_files() {
    let before = snapshot_vault(&vec!["a.md".to_string(), ".git/config".to_string()]);
    assert_eq!(before, vec!["a.md"]);
    let now = vec!["a.md".to_string(), "new.md".to_string(), ".rem/tx/x".to_string()];
    assert_eq!(stray_files(&now, &before), vec!["new.md"]);
}

#[test]
fn new_files_are_shown_as_added_lines() {
    let diff = untracked_diff("preview.md", "# Preview\n");
    assert!(diff.contains("+++ preview.md"));
    assert!(diff.contains("+# Preview"));
}

/// Runs a transaction whose steps all turn out well but one.
fn steps_with_failure(failing: Option<Step>) -> (Vec<Step>, Result<(), Error>) {
    let mut taken = Vec::new();
    let mut run = begin();
    loop {
        let step = run.step;
        taken.push(step);
        let outcome = if Some(step) == failing {
            Err(Error::of("step failed"))
        } else {
            Ok(())
        };
        match advance(run, outcome) {
            Progress::Next(next) => run = next,
            Progress::Done(result) => return (taken, result),
        }
    }
}

#[test]
fn a_transaction_without_failure_undoes_nothing() {
    let (taken, result) = steps_with_failure(None);
    assert!(result.is_ok());
    let (failed, error) = steps_with_failure(Some(taken[taken.len() / 2]));
    assert_eq!(error.unwrap_err().message(), "step failed");
    assert!(failed.len() > taken.len() / 2 + 1);
}

#[test]
fn linked_ignore_files_are_left_alone() {
    assert_eq!(
        validate_gitignore_path(PathState::Symlink, "/v/.gitignore").unwrap_err().message(),
        "refusing to update symlinked .gitignore /v/.gitignore; replace it with a regular vault file first"
    );
    assert!(validate_gitignore_path(PathState::Missing, "/v/.gitignore").is_ok());
}

#[test]
fn only_the_host_of_a_remote_counts() {
    for (host, known) in
        [("GitHub.com", true), ("gitlab.com.", true), ("example.com", false), ("github.com.evil", false)]
    {
        let plain = format!("https://{}/", host.to_ascii_lowercase());
        assert_eq!(is_github_or_gitlab_remote(&plain), known, "{plain}");
        for user in ["", "git", "github.com@gitlab.com", "a:b"] {
            for path in ["", "github.com", "@gitlab.com/x ", "a?b#c"] {
                let remote = format!("https://{user}@{host}:443/{path}");
                assert_eq!(is_github_or_gitlab_remote(&remote), known, "{remote}");
            }
        }
    }
}

#[test]
fn fields_that_are_not_utf8_are_read_with_replacements() {
    let entries = parse_status_z(b" M caf\xc3\xa9.md\0?? bad\xff.md\0");
    assert_eq!(entries.len(), 2);
    assert_eq!(entries[0].path, "caf\u{e9}.md");
    assert_eq!(entries[1].path, "bad\u{fffd}.md");
}
