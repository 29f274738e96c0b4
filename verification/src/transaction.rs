//! Transactions: the order in which a change to a vault is made and undone, and
//! what is decided on the way.

use vstd::prelude::*;
use vstd::string::*;

use crate::error::Error;
use crate::git::{
    self, is_excluded, is_unmerged_code, kind_of, label_of, paths_of, shown_path, GitStatusEntry,
    GitStatusKind, StatusView,
};
use crate::memory;
use crate::numeral::{decimal, decimal_u128, decimal_u64, decimal_usize};
use crate::order;
use crate::output::{change_tone, kind_of_change_tone, paint, painted, row, row_of, Tone};
use crate::path;
use crate::text;

verus! {

// Options.

/// What becomes of changes that were made outside.
#[derive(Clone, Copy, Debug, PartialEq, Eq, Structural)]
pub enum ExternalChangePolicy {
    Prompt,
    Accept,
    Restore,
    Review,
    Abort,
}

#[derive(Clone, Copy, Debug, PartialEq, Eq, Structural)]
pub struct TransactionOptions {
    pub external_policy: ExternalChangePolicy,
    pub non_interactive: bool,
}

impl Default for TransactionOptions {
    fn default() -> (options: Self)
        ensures
            options == (TransactionOptions {
                external_policy: ExternalChangePolicy::Prompt,
                non_interactive: false,
            }),
    {
        TransactionOptions { external_policy: ExternalChangePolicy::Prompt, non_interactive: false }
    }
}

/// The options that flags stand for.
pub open spec fn options_of(accept: bool, restore: bool, review: bool, non_interactive: bool) -> Result<
    TransactionOptions,
    Seq<char>,
> {
    if (accept && restore) || (accept && review) || (restore && review) {
        Err("choose only one external-change policy"@)
    } else if review && non_interactive {
        Err("--review requires interactive input"@)
    } else {
        Ok(
            TransactionOptions {
                external_policy: if accept {
                    ExternalChangePolicy::Accept
                } else if restore {
                    ExternalChangePolicy::Restore
                } else if review {
                    ExternalChangePolicy::Review
                } else {
                    ExternalChangePolicy::Prompt
                },
                non_interactive,
            },
        )
    }
}

pub fn transaction_options_from_parts(
    accept_external: bool,
    restore_external: bool,
    review: bool,
    non_interactive: bool,
) -> (options: Result<TransactionOptions, Error>)
    ensures
        ({
            let expected = options_of(accept_external, restore_external, review, non_interactive);
            match options {
                Ok(options) => expected == Ok::<_, Seq<char>>(options),
                Err(error) => expected == Err::<TransactionOptions, _>(error@),
            }
        }),
{
    if (accept_external && restore_external) || (accept_external && review) || (restore_external
        && review) {
        return Err(Error::of("choose only one external-change policy"));
    }
    if review && non_interactive {
        return Err(Error::of("--review requires interactive input"));
    }
    let external_policy = if accept_external {
        ExternalChangePolicy::Accept
    } else if restore_external {
        ExternalChangePolicy::Restore
    } else if review {
        ExternalChangePolicy::Review
    } else {
        ExternalChangePolicy::Prompt
    };
    Ok(TransactionOptions { external_policy, non_interactive })
}

// Results.

/// What a transaction came to.
#[derive(Debug)]
pub struct TransactionOutcome {
    pub commit_id: Option<String>,
    pub changed_paths: Vec<String>,
    pub indexed: usize,
}

#[verifier::ext_equal]
pub struct OutcomeView {
    pub commit_id: Option<Seq<char>>,
    pub changed_paths: Seq<Seq<char>>,
    pub indexed: nat,
}

impl View for TransactionOutcome {
    type V = OutcomeView;

    open spec fn view(&self) -> OutcomeView {
        OutcomeView {
            commit_id: self.commit_id.deep_view(),
            changed_paths: self.changed_paths.deep_view(),
            indexed: self.indexed as nat,
        }
    }
}

impl DeepView for TransactionOutcome {
    type V = OutcomeView;

    open spec fn deep_view(&self) -> OutcomeView {
        self@
    }
}

impl Clone for TransactionOutcome {
    fn clone(&self) -> (copy: Self)
        ensures
            copy@ == self@,
    {
        TransactionOutcome {
            commit_id: text::clone_optional(&self.commit_id),
            changed_paths: text::clone_texts(&self.changed_paths),
            indexed: self.indexed,
        }
    }
}

/// What a commit would do.
#[derive(Debug)]
pub struct DryRunReport {
    pub changed_paths: Vec<String>,
    pub indexed: usize,
    pub diagnostics: usize,
}

#[verifier::ext_equal]
pub struct DryRunView {
    pub changed_paths: Seq<Seq<char>>,
    pub indexed: nat,
    pub diagnostics: nat,
}

impl View for DryRunReport {
    type V = DryRunView;

    open spec fn view(&self) -> DryRunView {
        DryRunView {
            changed_paths: self.changed_paths.deep_view(),
            indexed: self.indexed as nat,
            diagnostics: self.diagnostics as nat,
        }
    }
}

impl DeepView for DryRunReport {
    type V = DryRunView;

    open spec fn deep_view(&self) -> DryRunView {
        self@
    }
}

impl Clone for DryRunReport {
    fn clone(&self) -> (copy: Self)
        ensures
            copy@ == self@,
    {
        DryRunReport {
            changed_paths: text::clone_texts(&self.changed_paths),
            indexed: self.indexed,
            diagnostics: self.diagnostics,
        }
    }
}

/// The repository of a vault.
#[derive(Debug)]
pub struct GitInfo {
    pub root: String,
    pub origin_url: String,
}

#[verifier::ext_equal]
pub struct GitView {
    pub root: Seq<char>,
    pub origin_url: Seq<char>,
}

impl View for GitInfo {
    type V = GitView;

    open spec fn view(&self) -> GitView {
        GitView {
            root: self.root@,
            origin_url: self.origin_url@,
        }
    }
}

impl DeepView for GitInfo {
    type V = GitView;

    open spec fn deep_view(&self) -> GitView {
        self@
    }
}

impl Clone for GitInfo {
    fn clone(&self) -> (copy: Self)
        ensures
            copy@ == self@,
    {
        GitInfo {
            root: self.root.clone(),
            origin_url: self.origin_url.clone(),
        }
    }
}

// The vault.

/// What is said of a vault that is no directory.
pub fn missing_vault(root: &str) -> (error: Error)
    ensures
        error@ == "vault root "@ + root@ + " must be an existing Git working tree"@,
{
    Error::new(text::concat3("vault root ", root, " must be an existing Git working tree"))
}

/// The repository of a vault: its root is that of the vault, and its origin
/// stands on GitHub or on GitLab.
pub open spec fn vault_of(root: Seq<char>, top_level: Seq<char>, origin: Seq<char>) -> Result<
    GitView,
    Seq<char>,
> {
    let origin_url = text::trimmed(origin);
    let host = git::remote_host(origin_url);
    if top_level != root {
        Err("vault root "@ + root + " must be the Git repository root "@ + top_level)
    } else if host != Some("github.com"@) && host != Some("gitlab.com"@) {
        Err(
            "vault Git remote origin must point to GitHub or GitLab, got "@ + text::quoted_form(
                origin_url,
            ),
        )
    } else {
        Ok(GitView { root, origin_url })
    }
}

pub fn validate_git_vault(root: &str, top_level: &str, origin: &str) -> (info: Result<GitInfo, Error>)
    ensures
        crate::error::agrees(info, vault_of(root@, top_level@, origin@)),
{
    if !text::same(top_level, root) {
        return Err(
            Error::new(
                text::concat4(
                    "vault root ",
                    root,
                    " must be the Git repository root ",
                    top_level,
                ),
            ),
        );
    }
    let remote = text::trim(origin);
    if !git::is_github_or_gitlab_remote(remote) {
        return Err(
            Error::new(
                text::concat2(
                    "vault Git remote origin must point to GitHub or GitLab, got ",
                    text::quoted(remote).as_str(),
                ),
            ),
        );
    }
    Ok(GitInfo { root: root.to_owned(), origin_url: remote.to_owned() })
}

// Locks and journals.

pub open spec fn transaction_id(nanos: nat, process: nat) -> Seq<char> {
    "tx-"@ + decimal(nanos) + "-"@ + decimal(process)
}

pub fn tx_id(nanos: u128, process: u32) -> (id: String)
    ensures
        id@ == transaction_id(nanos as nat, process as nat),
{
    text::concat4(
        "tx-",
        decimal_u128(nanos).as_str(),
        "-",
        decimal_u64(process as u64).as_str(),
    )
}

pub fn lock_taken(path: &str) -> (error: Error)
    ensures
        error@ == "another rem transaction is active or a stale lock remains at "@ + path@
            + "; run `rem doctor` and remove the lock only after confirming no rem process is running"@,
{
    Error::new(
        text::concat3(
            "another rem transaction is active or a stale lock remains at ",
            path,
            "; run `rem doctor` and remove the lock only after confirming no rem process is running",
        ),
    )
}

/// Whether a lock is to be removed, by what its file holds. A lock of another
/// owner is left alone; one that is gone needs nothing.
pub fn release_lock(path: &str, held: Option<&str>, owner: &str) -> (remove: Result<bool, Error>)
    ensures
        match held {
            None => remove == Ok::<bool, Error>(false),
            Some(held) => if text::trimmed(held@) == owner@ {
                remove == Ok::<bool, Error>(true)
            } else {
                remove is Err && remove->Err_0@ == "transaction lock ownership changed at "@ + path@
                    + "; refusing to remove another process's lock"@
            },
        },
{
    match held {
        None => Ok(false),
        Some(held) => {
            if text::same(text::trim(held), owner) {
                return Ok(true);
            }
            Err(
                Error::new(
                    text::concat3(
                        "transaction lock ownership changed at ",
                        path,
                        "; refusing to remove another process's lock",
                    ),
                ),
            )
        },
    }
}

/// Something in the directory of the transactions.
#[derive(Debug)]
pub struct JournalEntry {
    pub path: String,
    pub is_directory: bool,
}

pub open spec fn journal_views(entries: Seq<JournalEntry>) -> Seq<(Seq<char>, bool)> {
    entries.map_values(|entry: JournalEntry| (entry.path@, entry.is_directory))
}

/// Whether an entry says that a transaction is not done: a journal, or the lock
/// where it counts.
pub open spec fn is_pending(entry: (Seq<char>, bool), with_lock: bool) -> bool {
    entry.1 || (with_lock && path::name_of(entry.0) == Some("active.lock"@))
}

pub open spec fn pending_paths(entries: Seq<(Seq<char>, bool)>, with_lock: bool) -> Seq<Seq<char>>
    decreases entries.len(),
{
    if entries.len() == 0 {
        seq![]
    } else {
        let before = pending_paths(entries.drop_last(), with_lock);
        if is_pending(entries.last(), with_lock) {
            before.push(entries.last().0)
        } else {
            before
        }
    }
}

fn list_pending(entries: &Vec<JournalEntry>, with_lock: bool) -> (paths: Vec<String>)
    ensures
        paths.deep_view() == order::ranked::<String>(
            pending_paths(journal_views(entries@), with_lock),
        ),
{
    let ghost all = journal_views(entries@);
    let mut paths: Vec<String> = Vec::new();
    let mut i: usize = 0;
    assert(paths.deep_view() =~= seq![]);
    while i < entries.len()
        invariant
            i <= entries.len(),
            all == journal_views(entries@),
            paths.deep_view() == pending_paths(all.take(i as int), with_lock),
        decreases entries.len() - i,
    {
        let entry = &entries[i];
        assert(all.take(i + 1).drop_last() =~= all.take(i as int));
        assert(all.take(i + 1).last() == (entry.path@, entry.is_directory));
        let is_lock = match path::file_name(entry.path.as_str()) {
            Some(name) => text::same(name, "active.lock"),
            None => false,
        };
        if entry.is_directory || (with_lock && is_lock) {
            let ghost before = paths.deep_view();
            paths.push(entry.path.clone());
            assert(paths.deep_view() =~= before.push(entry.path@));
        }
        i = i + 1;
    }
    assert(all.take(i as int) =~= all);
    order::sort(paths)
}

/// The journals and the lock that are left, in order.
pub fn pending_transactions(entries: &Vec<JournalEntry>) -> (paths: Vec<String>)
    ensures
        paths.deep_view() == order::ranked::<String>(
            pending_paths(journal_views(entries@), true),
        ),
{
    list_pending(entries, true)
}

/// Refuses to go on while journals are left.
pub fn fail_if_pending_transaction_journals(entries: &Vec<JournalEntry>) -> (clear: Result<(), Error>)
    ensures
        ({
            let left = order::ranked::<String>(pending_paths(journal_views(entries@), false));
            match clear {
                Ok(_) => left.len() == 0,
                Err(error) => left.len() > 0 && error@ == "transaction recovery pending in "@
                    + text::joined(left, ", "@)
                    + "; inspect or remove stale journals before committing"@,
            }
        }),
{
    let left = list_pending(entries, false);
    assert(left.deep_view().len() == left.len());
    if left.len() == 0 {
        return Ok(());
    }
    Err(
        Error::new(
            text::concat3(
                "transaction recovery pending in ",
                text::join(&left, ", ").as_str(),
                "; inspect or remove stale journals before committing",
            ),
        ),
    )
}

// Snapshots.

/// The files of a vault, below its root, that a snapshot holds.
pub open spec fn snapshot_labels(files: Seq<Seq<char>>) -> Seq<Seq<char>>
    decreases files.len(),
{
    if files.len() == 0 {
        seq![]
    } else {
        let before = snapshot_labels(files.drop_last());
        if is_excluded(files.last()) {
            before
        } else {
            before.push(label_of(files.last()))
        }
    }
}

/// Lists what a snapshot of these files holds.
pub fn snapshot_vault(files: &Vec<String>) -> (labels: Vec<String>)
    ensures
        labels.deep_view() == snapshot_labels(files.deep_view()),
{
    let ghost all = files.deep_view();
    let mut labels: Vec<String> = Vec::new();
    let mut i: usize = 0;
    assert(labels.deep_view() =~= seq![]);
    while i < files.len()
        invariant
            i <= files.len(),
            all == files.deep_view(),
            labels.deep_view() == snapshot_labels(all.take(i as int)),
        decreases files.len() - i,
    {
        assert(all.take(i + 1).drop_last() =~= all.take(i as int));
        assert(all.take(i + 1).last() == files[i as int]@);
        if !git::is_excluded_relative(files[i].as_str()) {
            let label = git::path_label(files[i].as_str());
            let ghost before = labels.deep_view();
            let ghost model = label@;
            labels.push(label);
            assert(labels.deep_view() =~= before.push(model));
        }
        i = i + 1;
    }
    assert(all.take(i as int) =~= all);
    labels
}

/// Whether a file is not one that a snapshot holds.
pub open spec fn is_stray(file: Seq<char>, snapshot: Seq<Seq<char>>) -> bool {
    !is_excluded(file) && !snapshot.contains(label_of(file))
}

/// The files that were not there when a snapshot was taken.
pub open spec fn strays(files: Seq<Seq<char>>, snapshot: Seq<Seq<char>>) -> Seq<Seq<char>> {
    files.filter(|file: Seq<char>| is_stray(file, snapshot))
}

/// Lists the files that going back to a snapshot removes.
pub fn stray_files(files: &Vec<String>, snapshot: &Vec<String>) -> (found: Vec<String>)
    ensures
        found.deep_view() == strays(files.deep_view(), snapshot.deep_view()),
{
    let ghost all = files.deep_view();
    let ghost held = snapshot.deep_view();
    let ghost wanted = |file: Seq<char>| is_stray(file, held);
    let mut found: Vec<String> = Vec::new();
    let mut i: usize = 0;
    proof {
        reveal(Seq::filter);
        assert(all.take(0).filter(wanted) =~= seq![]);
        assert(found.deep_view() =~= seq![]);
    }
    while i < files.len()
        invariant
            i <= files.len(),
            all == files.deep_view(),
            held == snapshot.deep_view(),
            wanted == (|file: Seq<char>| is_stray(file, held)),
            found.deep_view() == all.take(i as int).filter(wanted),
        decreases files.len() - i,
    {
        let file = files[i].as_str();
        proof {
            reveal(Seq::filter);
            assert(all.take(i + 1).drop_last() =~= all.take(i as int));
            assert(all.take(i + 1).last() == file@);
        }
        if !git::is_excluded_relative(file) {
            let label = git::path_label(file);
            if !memory::contains_text(snapshot, label.as_str()) {
                let ghost before = found.deep_view();
                found.push(files[i].clone());
                assert(found.deep_view() =~= before.push(file@));
            }
        }
        i = i + 1;
    }
    assert(all.take(i as int) =~= all);
    found
}

// Changes from outside.

/// The changes that are unresolved merges.
pub open spec fn unmerged(entries: Seq<StatusView>) -> Seq<StatusView> {
    entries.filter(|entry: StatusView| is_unmerged_code(entry.code))
}

pub open spec fn unmerged_line(entry: StatusView) -> Seq<char> {
    entry.code + "\t"@ + shown_path(entry)
}

pub open spec fn unmerged_lines(entries: Seq<StatusView>) -> Seq<Seq<char>> {
    unmerged(entries).map_values(|entry: StatusView| unmerged_line(entry))
}

/// What is said where merges are unresolved.
pub open spec fn unmerged_problem(entries: Seq<StatusView>) -> Option<Seq<char>> {
    if unmerged(entries).len() == 0 {
        None
    } else {
        Some(
            "unmerged Git conflict detected; resolve with Git/editor tooling, then rerun `rem commit --review`:\n"@
                + text::joined(unmerged_lines(entries), "\n"@),
        )
    }
}

pub fn fail_if_unmerged(entries: &Vec<GitStatusEntry>) -> (merged: Result<(), Error>)
    ensures
        match merged {
            Ok(_) => unmerged_problem(entries.deep_view()) is None,
            Err(error) => unmerged_problem(entries.deep_view()) == Some(error@),
        },
{
    let ghost all = entries.deep_view();
    let ghost wanted = |entry: StatusView| is_unmerged_code(entry.code);
    let ghost written = |entry: StatusView| unmerged_line(entry);
    let mut lines: Vec<String> = Vec::new();
    let mut i: usize = 0;
    proof {
        reveal(Seq::filter);
        assert(all.take(0).filter(wanted).map_values(written) =~= seq![]);
        assert(lines.deep_view() =~= seq![]);
    }
    while i < entries.len()
        invariant
            i <= entries.len(),
            all == entries.deep_view(),
            wanted == (|entry: StatusView| is_unmerged_code(entry.code)),
            written == (|entry: StatusView| unmerged_line(entry)),
            lines.deep_view() == all.take(i as int).filter(wanted).map_values(written),
        decreases entries.len() - i,
    {
        let entry = &entries[i];
        proof {
            reveal(Seq::filter);
            assert(all.take(i + 1).drop_last() =~= all.take(i as int));
            assert(all.take(i + 1).last() == entry@);
        }
        if entry.is_unmerged() {
            let line = text::concat3(entry.code.as_str(), "\t", entry.display_path().as_str());
            let ghost before = lines.deep_view();
            let ghost model = line@;
            lines.push(line);
            assert(lines.deep_view() =~= before.push(model));
            assert(all.take(i as int).filter(wanted).push(entry@).map_values(written)
                =~= before.push(model));
        }
        i = i + 1;
    }
    assert(all.take(i as int) =~= all);
    assert(lines.deep_view() == unmerged_lines(all));
    assert(lines.deep_view().len() == lines.len());
    if lines.len() == 0 {
        return Ok(());
    }
    Err(
        Error::new(
            text::concat2(
                "unmerged Git conflict detected; resolve with Git/editor tooling, then rerun `rem commit --review`:\n",
                text::join(&lines, "\n").as_str(),
            ),
        ),
    )
}

/// What is done about changes from outside.
#[derive(Clone, Copy, Debug, PartialEq, Eq, Structural)]
pub enum ExternalStep {
    Proceed,
    Restore,
    Review,
    Ask,
}

/// What is done about changes from outside, by the options.
pub open spec fn external_step(
    entries: Seq<StatusView>,
    options: TransactionOptions,
    is_terminal: bool,
) -> Result<ExternalStep, Seq<char>> {
    if entries.len() == 0 {
        Ok(ExternalStep::Proceed)
    } else if unmerged_problem(entries) is Some {
        Err(unmerged_problem(entries)->Some_0)
    } else {
        match options.external_policy {
            ExternalChangePolicy::Accept => Ok(ExternalStep::Proceed),
            ExternalChangePolicy::Restore => Ok(ExternalStep::Restore),
            ExternalChangePolicy::Review => Ok(ExternalStep::Review),
            ExternalChangePolicy::Abort => Err("aborted due to external vault changes"@),
            ExternalChangePolicy::Prompt => if options.non_interactive || !is_terminal {
                Err(
                    "external vault changes detected; rerun with --accept-external or --restore-external"@,
                )
            } else {
                Ok(ExternalStep::Ask)
            },
        }
    }
}

pub open spec fn same_step(step: Result<ExternalStep, Error>, expected: Result<ExternalStep, Seq<char>>) -> bool {
    match step {
        Ok(step) => expected == Ok::<_, Seq<char>>(step),
        Err(error) => expected == Err::<ExternalStep, _>(error@),
    }
}

pub fn resolve_external_changes(
    entries: &Vec<GitStatusEntry>,
    options: TransactionOptions,
    is_terminal: bool,
) -> (step: Result<ExternalStep, Error>)
    ensures
        same_step(step, external_step(entries.deep_view(), options, is_terminal)),
{
    assert(entries.deep_view().len() == entries.len());
    if entries.len() == 0 {
        return Ok(ExternalStep::Proceed);
    }
    fail_if_unmerged(entries)?;
    match options.external_policy {
        ExternalChangePolicy::Accept => Ok(ExternalStep::Proceed),
        ExternalChangePolicy::Restore => Ok(ExternalStep::Restore),
        ExternalChangePolicy::Review => Ok(ExternalStep::Review),
        ExternalChangePolicy::Abort => Err(Error::of("aborted due to external vault changes")),
        ExternalChangePolicy::Prompt => {
            if options.non_interactive || !is_terminal {
                return Err(
                    Error::of(
                        "external vault changes detected; rerun with --accept-external or --restore-external",
                    ),
                );
            }
            Ok(ExternalStep::Ask)
        },
    }
}

/// What an answer chooses about changes from outside.
pub open spec fn external_answer(answer: Seq<char>) -> Result<ExternalStep, Seq<char>> {
    let answer = text::trimmed(answer);
    if answer == ""@ || answer == "commit"@ || answer == "c"@ {
        Ok(ExternalStep::Proceed)
    } else if answer == "restore"@ || answer == "r"@ {
        Ok(ExternalStep::Restore)
    } else if answer == "abort"@ || answer == "a"@ {
        Err("aborted due to external vault changes"@)
    } else {
        Err("unknown external-change choice "@ + text::quoted_form(answer))
    }
}

pub fn choose_external(answer: &str) -> (step: Result<ExternalStep, Error>)
    ensures
        same_step(step, external_answer(answer@)),
{
    let answer = text::trim(answer);
    if text::same(answer, "") || text::same(answer, "commit") || text::same(answer, "c") {
        Ok(ExternalStep::Proceed)
    } else if text::same(answer, "restore") || text::same(answer, "r") {
        Ok(ExternalStep::Restore)
    } else if text::same(answer, "abort") || text::same(answer, "a") {
        Err(Error::of("aborted due to external vault changes"))
    } else {
        Err(
            Error::new(
                text::concat2("unknown external-change choice ", text::quoted(answer).as_str()),
            ),
        )
    }
}

/// What is done in a review of all changes. What is not a choice is said again,
/// and the question asked again.
#[derive(Debug, PartialEq, Eq)]
pub enum ReviewStep {
    CommitAll,
    RestoreAll,
    Pick,
    ShowDiffs,
    Unknown(String),
}

pub enum ReviewStepView {
    CommitAll,
    RestoreAll,
    Pick,
    ShowDiffs,
    Unknown(Seq<char>),
}

impl View for ReviewStep {
    type V = ReviewStepView;

    open spec fn view(&self) -> ReviewStepView {
        match self {
            ReviewStep::CommitAll => ReviewStepView::CommitAll,
            ReviewStep::RestoreAll => ReviewStepView::RestoreAll,
            ReviewStep::Pick => ReviewStepView::Pick,
            ReviewStep::ShowDiffs => ReviewStepView::ShowDiffs,
            ReviewStep::Unknown(message) => ReviewStepView::Unknown(message@),
        }
    }
}

/// What an answer chooses in a review of all changes.
pub open spec fn review_answer(answer: Option<Seq<char>>) -> Result<ReviewStepView, Seq<char>> {
    match answer {
        None => Err("interactive review input ended before a choice was made"@),
        Some(answer) => {
            let answer = text::ascii_lower(text::trimmed(answer));
            if answer == ""@ || answer == "commit-all"@ || answer == "commit"@ || answer == "c"@ {
                Ok(ReviewStepView::CommitAll)
            } else if answer == "restore-all"@ || answer == "restore"@ || answer == "r"@ {
                Ok(ReviewStepView::RestoreAll)
            } else if answer == "pick"@ || answer == "p"@ {
                Ok(ReviewStepView::Pick)
            } else if answer == "diff"@ || answer == "d"@ {
                Ok(ReviewStepView::ShowDiffs)
            } else if answer == "abort"@ || answer == "a"@ {
                Err("aborted due to external vault changes"@)
            } else {
                Ok(ReviewStepView::Unknown("unknown choice "@ + text::quoted_form(answer)))
            }
        },
    }
}

pub fn choose_review(answer: Option<&str>) -> (step: Result<ReviewStep, Error>)
    ensures
        crate::error::agrees(step, review_answer(answer.deep_view())),
{
    let answer = match answer {
        None => {
            return Err(Error::of("interactive review input ended before a choice was made"));
        },
        Some(answer) => text::to_ascii_lowercase(text::trim(answer)),
    };
    let answer = answer.as_str();
    if text::same(answer, "") || text::same(answer, "commit-all") || text::same(answer, "commit")
        || text::same(answer, "c") {
        Ok(ReviewStep::CommitAll)
    } else if text::same(answer, "restore-all") || text::same(answer, "restore") || text::same(
        answer,
        "r",
    ) {
        Ok(ReviewStep::RestoreAll)
    } else if text::same(answer, "pick") || text::same(answer, "p") {
        Ok(ReviewStep::Pick)
    } else if text::same(answer, "diff") || text::same(answer, "d") {
        Ok(ReviewStep::ShowDiffs)
    } else if text::same(answer, "abort") || text::same(answer, "a") {
        Err(Error::of("aborted due to external vault changes"))
    } else {
        Ok(
            ReviewStep::Unknown(
                text::concat2("unknown choice ", text::quoted(answer).as_str()),
            ),
        )
    }
}

/// What is done with one file in a review.
#[derive(Debug, PartialEq, Eq)]
pub enum FileStep {
    Keep,
    Restore,
    ShowDiff,
    Unknown(String),
}

pub enum FileStepView {
    Keep,
    Restore,
    ShowDiff,
    Unknown(Seq<char>),
}

impl View for FileStep {
    type V = FileStepView;

    open spec fn view(&self) -> FileStepView {
        match self {
            FileStep::Keep => FileStepView::Keep,
            FileStep::Restore => FileStepView::Restore,
            FileStep::ShowDiff => FileStepView::ShowDiff,
            FileStep::Unknown(message) => FileStepView::Unknown(message@),
        }
    }
}

/// What an answer chooses about one file in a review.
pub open spec fn file_answer(answer: Option<Seq<char>>) -> Result<FileStepView, Seq<char>> {
    match answer {
        None => Err("interactive review input ended before a choice was made"@),
        Some(answer) => {
            let answer = text::ascii_lower(text::trimmed(answer));
            if answer == ""@ || answer == "include"@ || answer == "i"@ {
                Ok(FileStepView::Keep)
            } else if answer == "restore"@ || answer == "r"@ {
                Ok(FileStepView::Restore)
            } else if answer == "diff"@ || answer == "d"@ {
                Ok(FileStepView::ShowDiff)
            } else if answer == "abort"@ || answer == "a"@ {
                Err("aborted due to external vault changes"@)
            } else {
                Ok(FileStepView::Unknown("unknown choice "@ + text::quoted_form(answer)))
            }
        },
    }
}

pub fn choose_file(answer: Option<&str>) -> (step: Result<FileStep, Error>)
    ensures
        crate::error::agrees(step, file_answer(answer.deep_view())),
{
    let answer = match answer {
        None => {
            return Err(Error::of("interactive review input ended before a choice was made"));
        },
        Some(answer) => text::to_ascii_lowercase(text::trim(answer)),
    };
    let answer = answer.as_str();
    if text::same(answer, "") || text::same(answer, "include") || text::same(answer, "i") {
        Ok(FileStep::Keep)
    } else if text::same(answer, "restore") || text::same(answer, "r") {
        Ok(FileStep::Restore)
    } else if text::same(answer, "diff") || text::same(answer, "d") {
        Ok(FileStep::ShowDiff)
    } else if text::same(answer, "abort") || text::same(answer, "a") {
        Err(Error::of("aborted due to external vault changes"))
    } else {
        Ok(
            FileStep::Unknown(text::concat2("unknown choice ", text::quoted(answer).as_str())),
        )
    }
}

// What is shown of changes.

/// The line about a change.
pub open spec fn change_line(entry: StatusView, on: bool) -> Seq<char> {
    let kind = kind_of(entry.code).name();
    row_of(
        seq![
            (kind, kind_of_change_tone(kind)),
            (entry.code, Tone::Muted),
            (shown_path(entry), Tone::Path),
        ],
        on,
    )
}

pub fn describe_change(entry: &GitStatusEntry, on: bool) -> (line: String)
    ensures
        line@ == change_line(entry@, on),
{
    let kind = entry.kind().label();
    let mut cells: Vec<(String, Tone)> = Vec::new();
    cells.push((kind.to_owned(), change_tone(kind)));
    cells.push((entry.code.clone(), Tone::Muted));
    cells.push((entry.display_path(), Tone::Path));
    assert(crate::output::cell_views(cells@) =~= seq![
        (kind@, kind_of_change_tone(kind@)),
        (entry.code@, Tone::Muted),
        (shown_path(entry@), Tone::Path),
    ]);
    row(&cells, on)
}

/// The lines about the changes of a kind: a heading, and one for each.
pub open spec fn kind_lines(entries: Seq<StatusView>, kind: GitStatusKind, on: bool) -> Seq<Seq<char>>
    decreases entries.len(),
{
    if entries.len() == 0 {
        seq![]
    } else {
        let before = kind_lines(entries.drop_last(), kind, on);
        let entry = entries.last();
        if kind_of(entry.code) != kind {
            before
        } else {
            let head = if before.len() > 0 {
                before
            } else {
                seq![painted(kind.name(), kind_of_change_tone(kind.name()), on) + ":"@]
            };
            head.push(
                "  "@ + painted(entry.code, Tone::Muted, on) + "\t"@ + painted(
                    shown_path(entry),
                    Tone::Path,
                    on,
                ),
            )
        }
    }
}

/// The kinds in the order in which they are shown.
pub open spec fn shown_kinds() -> Seq<GitStatusKind> {
    seq![
        GitStatusKind::Modified,
        GitStatusKind::Added,
        GitStatusKind::Deleted,
        GitStatusKind::Renamed,
        GitStatusKind::Copied,
        GitStatusKind::Untracked,
    ]
}

/// What is shown before a review.
pub open spec fn summary_lines(entries: Seq<StatusView>, on: bool) -> Seq<Seq<char>> {
    let kinds = shown_kinds();
    seq![painted("external Git changes detected:"@, Tone::Warning, on)] + kind_lines(
        entries,
        kinds[0],
        on,
    ) + kind_lines(entries, kinds[1], on) + kind_lines(entries, kinds[2], on) + kind_lines(
        entries,
        kinds[3],
        on,
    ) + kind_lines(entries, kinds[4], on) + kind_lines(entries, kinds[5], on)
}

fn describe_kind(lines: &mut Vec<String>, entries: &Vec<GitStatusEntry>, kind: GitStatusKind, on: bool)
    ensures
        final(lines).deep_view() == old(lines).deep_view() + kind_lines(
            entries.deep_view(),
            kind,
            on,
        ),
{
    let ghost start = lines.deep_view();
    let ghost all = entries.deep_view();
    let label = kind.label();
    let mut found = false;
    let mut i: usize = 0;
    assert(kind_lines(all.take(0), kind, on) =~= seq![]);
    assert(lines.deep_view() =~= start + kind_lines(all.take(0), kind, on));
    while i < entries.len()
        invariant
            i <= entries.len(),
            all == entries.deep_view(),
            label@ == kind.name(),
            found == (kind_lines(all.take(i as int), kind, on).len() > 0),
            lines.deep_view() == start + kind_lines(all.take(i as int), kind, on),
        decreases entries.len() - i,
    {
        let entry = &entries[i];
        assert(all.take(i + 1).drop_last() =~= all.take(i as int));
        assert(all.take(i + 1).last() == entry@);
        if entry.kind() == kind {
            let ghost before = kind_lines(all.take(i as int), kind, on);
            if !found {
                assert(before =~= seq![]);
                let head = text::concat2(paint(label, change_tone(label), on).as_str(), ":");
                let ghost model = head@;
                lines.push(head);
                assert(lines.deep_view() =~= start.push(model));
                found = true;
            }
            let mut line = text::concat2("  ", paint(entry.code.as_str(), Tone::Muted, on).as_str());
            line.append("\t");
            line.append(paint(entry.display_path().as_str(), Tone::Path, on).as_str());
            let ghost held = lines.deep_view();
            let ghost model = line@;
            lines.push(line);
            assert(lines.deep_view() =~= held.push(model));
            assert(lines.deep_view() =~= start + kind_lines(all.take(i + 1), kind, on));
        }
        i = i + 1;
    }
    assert(all.take(i as int) =~= all);
}

/// The lines that are shown before a review.
pub fn print_review_summary(entries: &Vec<GitStatusEntry>, on: bool) -> (lines: Vec<String>)
    ensures
        lines.deep_view() == summary_lines(entries.deep_view(), on),
{
    let mut lines: Vec<String> = Vec::new();
    lines.push(paint("external Git changes detected:", Tone::Warning, on));
    assert(lines.deep_view() =~= seq![painted("external Git changes detected:"@, Tone::Warning, on)]);
    describe_kind(&mut lines, entries, GitStatusKind::Modified, on);
    describe_kind(&mut lines, entries, GitStatusKind::Added, on);
    describe_kind(&mut lines, entries, GitStatusKind::Deleted, on);
    describe_kind(&mut lines, entries, GitStatusKind::Renamed, on);
    describe_kind(&mut lines, entries, GitStatusKind::Copied, on);
    describe_kind(&mut lines, entries, GitStatusKind::Untracked, on);
    lines
}

pub open spec fn added_lines(lines: Seq<Seq<char>>) -> Seq<char>
    decreases lines.len(),
{
    if lines.len() == 0 {
        seq![]
    } else {
        added_lines(lines.drop_last()) + "+"@ + lines.last() + "\n"@
    }
}

/// An untracked file, as a diff from nothing.
pub open spec fn new_file_diff(file: Seq<char>, raw: Seq<char>) -> Seq<char> {
    "--- /dev/null\n+++ "@ + file + "\n"@ + added_lines(text::line_seq(raw))
}

pub fn untracked_diff(file: &str, raw: &str) -> (diff: String)
    ensures
        diff@ == new_file_diff(file@, raw@),
{
    let mut diff = text::concat3("--- /dev/null\n+++ ", file, "\n");
    let ghost head = diff@;
    let lines = text::lines(raw);
    let ghost all = lines.deep_view();
    let mut i: usize = 0;
    assert(head + added_lines(all.take(0)) =~= head);
    while i < lines.len()
        invariant
            i <= lines.len(),
            all == lines.deep_view(),
            diff@ == head + added_lines(all.take(i as int)),
        decreases lines.len() - i,
    {
        assert(all.take(i + 1).drop_last() =~= all.take(i as int));
        assert(all.take(i + 1).last() == lines[i as int]@);
        diff.append("+");
        diff.append(lines[i]);
        diff.append("\n");
        assert(diff@ =~= head + added_lines(all.take(i + 1)));
        i = i + 1;
    }
    assert(all.take(i as int) =~= all);
    diff
}

// Git commands.

/// How a change is undone.
#[derive(Debug)]
pub enum RestoreStep {
    Remove(String),
    Git(Vec<String>),
}

pub enum RestoreView {
    Remove(Seq<char>),
    Git(Seq<Seq<char>>),
}

impl View for RestoreStep {
    type V = RestoreView;

    open spec fn view(&self) -> RestoreView {
        match self {
            RestoreStep::Remove(path) => RestoreView::Remove(path@),
            RestoreStep::Git(arguments) => RestoreView::Git(arguments.deep_view()),
        }
    }
}

/// How a change is undone: a new file is removed, others are restored by Git.
pub open spec fn restoration_of(entry: StatusView) -> RestoreView {
    if entry.code == "??"@ {
        RestoreView::Remove(entry.path)
    } else {
        RestoreView::Git(
            seq!["restore"@, "--staged"@, "--worktree"@, "--"@] + paths_of(entry),
        )
    }
}

pub fn restore_external_entry(entry: &GitStatusEntry) -> (step: RestoreStep)
    ensures
        step@ == restoration_of(entry@),
{
    if entry.is_untracked() {
        return RestoreStep::Remove(entry.path.clone());
    }
    let mut arguments: Vec<String> = Vec::new();
    arguments.push("restore".to_owned());
    arguments.push("--staged".to_owned());
    arguments.push("--worktree".to_owned());
    arguments.push("--".to_owned());
    assert(arguments.deep_view() =~= seq!["restore"@, "--staged"@, "--worktree"@, "--"@]);
    push_paths(&mut arguments, entry);
    RestoreStep::Git(arguments)
}

fn push_paths(arguments: &mut Vec<String>, entry: &GitStatusEntry)
    ensures
        final(arguments).deep_view() == old(arguments).deep_view() + paths_of(entry@),
{
    let ghost start = arguments.deep_view();
    if let Some(original) = &entry.original_path {
        arguments.push(original.clone());
    }
    arguments.push(entry.path.clone());
    assert(arguments.deep_view() =~= start + paths_of(entry@));
}

pub open spec fn all_paths(entries: Seq<StatusView>) -> Seq<Seq<char>>
    decreases entries.len(),
{
    if entries.len() == 0 {
        seq![]
    } else {
        all_paths(entries.drop_last()) + paths_of(entries.last())
    }
}

/// What changes are staged with.
pub fn add_arguments(entries: &Vec<GitStatusEntry>) -> (arguments: Vec<String>)
    ensures
        arguments.deep_view() == seq!["add"@, "--all"@, "--"@] + all_paths(entries.deep_view()),
{
    let ghost all = entries.deep_view();
    let mut arguments: Vec<String> = Vec::new();
    arguments.push("add".to_owned());
    arguments.push("--all".to_owned());
    arguments.push("--".to_owned());
    let ghost head = seq!["add"@, "--all"@, "--"@];
    let mut i: usize = 0;
    assert(arguments.deep_view() =~= head + all_paths(all.take(0)));
    while i < entries.len()
        invariant
            i <= entries.len(),
            all == entries.deep_view(),
            arguments.deep_view() == head + all_paths(all.take(i as int)),
        decreases entries.len() - i,
    {
        assert(all.take(i + 1).drop_last() =~= all.take(i as int));
        assert(all.take(i + 1).last() == entries[i as int]@);
        push_paths(&mut arguments, &entries[i]);
        assert(arguments.deep_view() =~= head + all_paths(all.take(i + 1)));
        i = i + 1;
    }
    assert(all.take(i as int) =~= all);
    arguments
}

/// What to stage before a commit: all that changed, if anything did.
pub fn staging(changes: &Vec<GitStatusEntry>) -> (arguments: Option<Vec<String>>)
    ensures
        arguments.deep_view() == (if changes.len() == 0 {
            None
        } else {
            Some(seq!["add"@, "--all"@, "--"@] + all_paths(changes.deep_view()))
        }),
{
    if changes.len() == 0 {
        None
    } else {
        Some(add_arguments(changes))
    }
}

/// What a commit is made with, under the name of the program.
pub open spec fn commit_arguments(message: Seq<char>) -> Seq<Seq<char>> {
    seq![
        "-c"@,
        "user.name=rem"@,
        "-c"@,
        "user.email=rem@example.invalid"@,
        "commit"@,
        "-m"@,
        message,
    ]
}

/// How to commit what is staged, if anything is.
pub fn committing(staged: &Vec<String>, message: &str) -> (arguments: Option<Vec<String>>)
    ensures
        arguments.deep_view() == (if staged.len() == 0 {
            None
        } else {
            Some(commit_arguments(message@))
        }),
{
    if staged.len() == 0 {
        return None;
    }
    let mut arguments: Vec<String> = Vec::new();
    arguments.push("-c".to_owned());
    arguments.push("user.name=rem".to_owned());
    arguments.push("-c".to_owned());
    arguments.push("user.email=rem@example.invalid".to_owned());
    arguments.push("commit".to_owned());
    arguments.push("-m".to_owned());
    arguments.push(message.to_owned());
    assert(arguments.deep_view() =~= commit_arguments(message@));
    Some(arguments)
}

/// Whether there is a commit to undo: whatever Git answered, the head moved.
pub fn is_commit_created(head_before: &Option<String>, head_after: &Option<String>) -> (created:
    bool)
    ensures
        created == (head_before.deep_view() != head_after.deep_view()),
{
    !text::same_optional(head_before, head_after)
}

/// A Git command, and what it is called where it fails.
#[derive(Debug)]
pub struct GitCommand {
    pub arguments: Vec<String>,
    pub label: &'static str,
}

#[verifier::ext_equal]
pub struct GitCommandView {
    pub arguments: Seq<Seq<char>>,
    pub label: Seq<char>,
}

impl View for GitCommand {
    type V = GitCommandView;

    open spec fn view(&self) -> GitCommandView {
        GitCommandView { arguments: self.arguments.deep_view(), label: self.label@ }
    }
}

impl DeepView for GitCommand {
    type V = GitCommandView;

    open spec fn deep_view(&self) -> GitCommandView {
        self@
    }
}

/// How the head of a repository is put back where a transaction found it. A
/// repository without commits loses its branch again.
pub open spec fn head_commands(
    commit_created: bool,
    head_before: Option<Seq<char>>,
    symbolic_head: Option<Seq<char>>,
) -> Result<Seq<GitCommandView>, Seq<char>> {
    if !commit_created {
        Ok(seq![])
    } else {
        match head_before {
            Some(head) => Ok(
                seq![
                    GitCommandView {
                        arguments: seq!["reset"@, "--mixed"@, head],
                        label: "git reset transaction commit"@,
                    },
                ],
            ),
            None => match symbolic_head {
                None => Err("cannot restore unborn Git HEAD without a symbolic branch"@),
                Some(reference) => Ok(
                    seq![
                        GitCommandView {
                            arguments: seq!["update-ref"@, "-d"@, reference],
                            label: "git delete transaction commit"@,
                        },
                        GitCommandView {
                            arguments: seq!["read-tree"@, "--empty"@],
                            label: "git restore unborn index"@,
                        },
                    ],
                ),
            },
        }
    }
}

pub fn restore_head(
    commit_created: bool,
    head_before: Option<&str>,
    symbolic_head: Option<&str>,
) -> (commands: Result<Vec<GitCommand>, Error>)
    ensures
        ({
            let expected = head_commands(
                commit_created,
                head_before.deep_view(),
                symbolic_head.deep_view(),
            );
            match commands {
                Ok(commands) => expected == Ok::<_, Seq<char>>(commands.deep_view()),
                Err(error) => expected == Err::<Seq<GitCommandView>, _>(error@),
            }
        }),
{
    let mut commands: Vec<GitCommand> = Vec::new();
    if !commit_created {
        assert(commands.deep_view() =~= seq![]);
        return Ok(commands);
    }
    match head_before {
        Some(head) => {
            let mut arguments: Vec<String> = Vec::new();
            arguments.push("reset".to_owned());
            arguments.push("--mixed".to_owned());
            arguments.push(head.to_owned());
            assert(arguments.deep_view() =~= seq!["reset"@, "--mixed"@, head@]);
            commands.push(GitCommand { arguments, label: "git reset transaction commit" });
        },
        None => match symbolic_head {
            None => {
                return Err(
                    Error::of("cannot restore unborn Git HEAD without a symbolic branch"),
                );
            },
            Some(reference) => {
                let mut first: Vec<String> = Vec::new();
                first.push("update-ref".to_owned());
                first.push("-d".to_owned());
                first.push(reference.to_owned());
                assert(first.deep_view() =~= seq!["update-ref"@, "-d"@, reference@]);
                let mut second: Vec<String> = Vec::new();
                second.push("read-tree".to_owned());
                second.push("--empty".to_owned());
                assert(second.deep_view() =~= seq!["read-tree"@, "--empty"@]);
                commands.push(
                    GitCommand { arguments: first, label: "git delete transaction commit" },
                );
                commands.push(GitCommand { arguments: second, label: "git restore unborn index" });
            },
        },
    }
    assert(commands.deep_view() =~= head_commands(
        commit_created,
        head_before.deep_view(),
        symbolic_head.deep_view(),
    )->Ok_0);
    Ok(commands)
}

// Checks.

/// Refuses to go on with an index that has diagnostics.
pub fn check_reindex(diagnostics: usize, messages: &Vec<String>, purpose: &str) -> (clean: Result<
    (),
    Error,
>)
    ensures
        match clean {
            Ok(_) => diagnostics == 0,
            Err(error) => diagnostics > 0 && error@ == "reindex produced "@ + decimal(
                diagnostics as nat,
            ) + " diagnostics; fix malformed or duplicate memory files before "@ + purpose@
                + ":\n"@ + text::joined(messages.deep_view(), "\n"@),
        },
{
    if diagnostics == 0 {
        return Ok(());
    }
    let mut message = "reindex produced ".to_owned();
    message.append(decimal_usize(diagnostics).as_str());
    message.append(" diagnostics; fix malformed or duplicate memory files before ");
    message.append(purpose);
    message.append(":\n");
    message.append(text::join(messages, "\n").as_str());
    Err(Error::new(message))
}

pub open spec fn shown_paths(entries: Seq<StatusView>) -> Seq<Seq<char>> {
    entries.map_values(|entry: StatusView| shown_path(entry))
}

/// Refuses a commit after which files differ again.
pub fn check_hooks(remaining: &Vec<GitStatusEntry>) -> (clean: Result<(), Error>)
    ensures
        match clean {
            Ok(_) => remaining.len() == 0,
            Err(error) => remaining.len() > 0 && error@
                == "Git hooks changed vault files after commit ("@ + text::joined(
                shown_paths(remaining.deep_view()),
                ", "@,
            ) + "); transaction will roll back"@,
        },
{
    if remaining.len() == 0 {
        return Ok(());
    }
    let ghost wanted = shown_paths(remaining.deep_view());
    let mut paths: Vec<String> = Vec::new();
    let mut i: usize = 0;
    while i < remaining.len()
        invariant
            i <= remaining.len(),
            wanted == shown_paths(remaining.deep_view()),
            paths.deep_view() == wanted.take(i as int),
        decreases remaining.len() - i,
    {
        let shown = remaining[i].display_path();
        let ghost before = paths.deep_view();
        let ghost model = shown@;
        paths.push(shown);
        assert(paths.deep_view() =~= before.push(model));
        assert(wanted.take(i + 1) =~= wanted.take(i as int).push(wanted[i as int]));
        i = i + 1;
    }
    assert(wanted.take(i as int) =~= wanted);
    Err(
        Error::new(
            text::concat3(
                "Git hooks changed vault files after commit (",
                text::join(&paths, ", ").as_str(),
                "); transaction will roll back",
            ),
        ),
    )
}

// The order of a transaction.

/// What is done in a transaction: first forward, and back where that fails.
#[derive(Clone, Copy, Debug, PartialEq, Eq, Structural)]
pub enum Step {
    Begin,
    PrepareIgnore,
    Apply,
    Reindex,
    Check,
    Commit,
    Finish,
    RestoreHead,
    Unstage,
    RestoreFiles,
    RestoreIndex,
    DropTempIndex,
    UnstageAgain,
    RestoreStaging,
    CloseRollback,
}

/// Where a transaction stands: the step that is due, why it goes back, and what
/// went wrong first on the way back.
#[derive(Debug)]
pub struct Run {
    pub step: Step,
    pub failure: Option<Error>,
    pub rollback_failure: Option<Error>,
}

#[verifier::ext_equal]
pub struct RunView {
    pub step: Step,
    pub failure: Option<Seq<char>>,
    pub rollback_failure: Option<Seq<char>>,
}

pub open spec fn message_in(error: Option<Error>) -> Option<Seq<char>> {
    match error {
        Some(error) => Some(error@),
        None => None,
    }
}

impl View for Run {
    type V = RunView;

    open spec fn view(&self) -> RunView {
        RunView {
            step: self.step,
            failure: message_in(self.failure),
            rollback_failure: message_in(self.rollback_failure),
        }
    }
}

#[derive(Debug)]
pub enum Progress {
    Next(Run),
    Done(Result<(), Error>),
}

pub enum ProgressView {
    Next(RunView),
    Done(Result<(), Seq<char>>),
}

impl View for Progress {
    type V = ProgressView;

    open spec fn view(&self) -> ProgressView {
        match self {
            Progress::Next(run) => ProgressView::Next(run@),
            Progress::Done(Ok(_)) => ProgressView::Done(Ok(())),
            Progress::Done(Err(error)) => ProgressView::Done(Err(error@)),
        }
    }
}

/// The step behind another on the same way; none behind the last.
pub open spec fn following(step: Step) -> Option<Step> {
    match step {
        Step::Begin => Some(Step::PrepareIgnore),
        Step::PrepareIgnore => Some(Step::Apply),
        Step::Apply => Some(Step::Reindex),
        Step::Reindex => Some(Step::Check),
        Step::Check => Some(Step::Commit),
        Step::Commit => Some(Step::Finish),
        Step::Finish => None,
        Step::RestoreHead => Some(Step::Unstage),
        Step::Unstage => Some(Step::RestoreFiles),
        Step::RestoreFiles => Some(Step::RestoreIndex),
        Step::RestoreIndex => Some(Step::DropTempIndex),
        Step::DropTempIndex => Some(Step::UnstageAgain),
        Step::UnstageAgain => Some(Step::RestoreStaging),
        Step::RestoreStaging => Some(Step::CloseRollback),
        Step::CloseRollback => None,
    }
}

pub open spec fn is_forward(step: Step) -> bool {
    match step {
        Step::Begin | Step::PrepareIgnore | Step::Apply | Step::Reindex | Step::Check | Step::Commit
        | Step::Finish => true,
        _ => false,
    }
}

/// What follows a step. A transaction that could not begin leaves nothing to
/// undo, and one that is committed is not undone; any other failure goes all the
/// way back, and the failure stands unless going back fails too.
pub open spec fn progressed(run: RunView, outcome: Result<(), Seq<char>>) -> ProgressView {
    if is_forward(run.step) {
        match outcome {
            Ok(_) => match following(run.step) {
                Some(step) => ProgressView::Next(RunView { step, ..run }),
                None => ProgressView::Done(Ok(())),
            },
            Err(message) => if run.step == Step::Begin || run.step == Step::Finish {
                ProgressView::Done(Err(message))
            } else {
                ProgressView::Next(
                    RunView {
                        step: Step::RestoreHead,
                        failure: Some(message),
                        rollback_failure: None,
                    },
                )
            },
        }
    } else {
        let rollback_failure = match outcome {
            Err(message) if run.rollback_failure is None && run.step != Step::DropTempIndex => Some(
                message,
            ),
            _ => run.rollback_failure,
        };
        match following(run.step) {
            Some(step) => ProgressView::Next(RunView { step, rollback_failure, ..run }),
            None => ProgressView::Done(
                match (rollback_failure, run.failure) {
                    (Some(message), _) => Err(message),
                    (None, Some(message)) => Err(message),
                    (None, None) => Ok(()),
                },
            ),
        }
    }
}

pub open spec fn outcome_of(outcome: Result<(), Error>) -> Result<(), Seq<char>> {
    match outcome {
        Ok(_) => Ok(()),
        Err(error) => Err(error@),
    }
}

fn step_after(step: Step) -> (next: Option<Step>)
    ensures
        next == following(step),
{
    match step {
        Step::Begin => Some(Step::PrepareIgnore),
        Step::PrepareIgnore => Some(Step::Apply),
        Step::Apply => Some(Step::Reindex),
        Step::Reindex => Some(Step::Check),
        Step::Check => Some(Step::Commit),
        Step::Commit => Some(Step::Finish),
        Step::Finish => None,
        Step::RestoreHead => Some(Step::Unstage),
        Step::Unstage => Some(Step::RestoreFiles),
        Step::RestoreFiles => Some(Step::RestoreIndex),
        Step::RestoreIndex => Some(Step::DropTempIndex),
        Step::DropTempIndex => Some(Step::UnstageAgain),
        Step::UnstageAgain => Some(Step::RestoreStaging),
        Step::RestoreStaging => Some(Step::CloseRollback),
        Step::CloseRollback => None,
    }
}

/// A transaction that is about to begin.
pub fn begin() -> (run: Run)
    ensures
        run@ == (RunView { step: Step::Begin, failure: None, rollback_failure: None }),
{
    Run { step: Step::Begin, failure: None, rollback_failure: None }
}

/// Goes on after a step was taken.
pub fn advance(run: Run, outcome: Result<(), Error>) -> (progress: Progress)
    ensures
        progress@ == progressed(run@, outcome_of(outcome)),
{
    let forward = match run.step {
        Step::Begin | Step::PrepareIgnore | Step::Apply | Step::Reindex | Step::Check | Step::Commit
        | Step::Finish => true,
        _ => false,
    };
    let next = step_after(run.step);
    if forward {
        match outcome {
            Ok(_) => match next {
                Some(step) => Progress::Next(
                    Run { step, failure: run.failure, rollback_failure: run.rollback_failure },
                ),
                None => Progress::Done(Ok(())),
            },
            Err(error) => {
                if run.step == Step::Begin || run.step == Step::Finish {
                    return Progress::Done(Err(error));
                }
                Progress::Next(
                    Run { step: Step::RestoreHead, failure: Some(error), rollback_failure: None },
                )
            },
        }
    } else {
        let rollback_failure = match (run.rollback_failure, outcome) {
            (Some(first), _) => Some(first),
            (None, Err(error)) => {
                if run.step != Step::DropTempIndex {
                    Some(error)
                } else {
                    None
                }
            },
            (None, Ok(_)) => None,
        };
        match next {
            Some(step) => Progress::Next(Run { step, failure: run.failure, rollback_failure }),
            None => match (rollback_failure, run.failure) {
                (Some(error), _) => Progress::Done(Err(error)),
                (None, Some(error)) => Progress::Done(Err(error)),
                (None, None) => Progress::Done(Ok(())),
            },
        }
    }
}

// Laws.

/// How far a step is from the end.
pub open spec fn distance(step: Step) -> nat {
    match step {
        Step::Begin => 15,
        Step::PrepareIgnore => 14,
        Step::Apply => 13,
        Step::Reindex => 12,
        Step::Check => 11,
        Step::Commit => 10,
        Step::Finish => 9,
        Step::RestoreHead => 8,
        Step::Unstage => 7,
        Step::RestoreFiles => 6,
        Step::RestoreIndex => 5,
        Step::DropTempIndex => 4,
        Step::UnstageAgain => 3,
        Step::RestoreStaging => 2,
        Step::CloseRollback => 1,
    }
}

/// The steps that a transaction takes from where it stands, and what it comes
/// to, if each step turns out as given.
pub open spec fn carried_out(run: RunView, outcomes: spec_fn(Step) -> Result<(), Seq<char>>) -> (
    Seq<Step>,
    Result<(), Seq<char>>,
)
    decreases distance(run.step),
{
    match progressed(run, outcomes(run.step)) {
        ProgressView::Done(result) => (seq![run.step], result),
        ProgressView::Next(next) => {
            let (steps, result) = carried_out(next, outcomes);
            (seq![run.step] + steps, result)
        },
    }
}

/// The way back.
pub open spec fn way_back() -> Seq<Step> {
    seq![
        Step::RestoreHead,
        Step::Unstage,
        Step::RestoreFiles,
        Step::RestoreIndex,
        Step::DropTempIndex,
        Step::UnstageAgain,
        Step::RestoreStaging,
        Step::CloseRollback,
    ]
}

/// The first failure among steps of the way back, other than that the temporary
/// index could not be dropped.
pub open spec fn first_failure(
    steps: Seq<Step>,
    outcomes: spec_fn(Step) -> Result<(), Seq<char>>,
) -> Option<Seq<char>>
    decreases steps.len(),
{
    if steps.len() == 0 {
        None
    } else if steps[0] != Step::DropTempIndex && outcomes(steps[0]) is Err {
        Some(outcomes(steps[0])->Err_0)
    } else {
        first_failure(steps.drop_first(), outcomes)
    }
}

/// The way back from a step on.
pub open spec fn way_back_from(step: Step) -> Seq<Step>
    decreases distance(step),
{
    match following(step) {
        Some(next) => seq![step] + way_back_from(next),
        None => seq![step],
    }
}

proof fn lemma_going_back(run: RunView, outcomes: spec_fn(Step) -> Result<(), Seq<char>>)
    requires
        !is_forward(run.step),
        run.failure is Some,
    ensures
        carried_out(run, outcomes).0 == way_back_from(run.step),
        carried_out(run, outcomes).1 == Err::<(), _>(
            match (run.rollback_failure, first_failure(way_back_from(run.step), outcomes)) {
                (Some(message), _) => message,
                (None, Some(message)) => message,
                (None, None) => run.failure->Some_0,
            },
        ),
    decreases distance(run.step),
{
    let steps = way_back_from(run.step);
    match progressed(run, outcomes(run.step)) {
        ProgressView::Done(_) => {
            assert(steps =~= seq![run.step]);
            assert(steps.drop_first() =~= seq![]);
            reveal_with_fuel(first_failure, 2);
        },
        ProgressView::Next(next) => {
            lemma_going_back(next, outcomes);
            assert(steps.drop_first() =~= way_back_from(next.step));
        },
    }
}

proof fn lemma_way_back()
    ensures
        way_back_from(Step::RestoreHead) == way_back(),
{
    reveal_with_fuel(way_back_from, 9);
    assert(way_back_from(Step::RestoreHead) =~= way_back());
}

/// The steps of a transaction that turns out well.
pub open spec fn way_forward() -> Seq<Step> {
    seq![
        Step::Begin,
        Step::PrepareIgnore,
        Step::Apply,
        Step::Reindex,
        Step::Check,
        Step::Commit,
        Step::Finish,
    ]
}

/// Whether the steps of the way forward before the `n`th turn out well.
pub open spec fn well_before(outcomes: spec_fn(Step) -> Result<(), Seq<char>>, n: int) -> bool {
    forall|i: int| 0 <= i < n ==> outcomes(#[trigger] way_forward()[i]) is Ok
}

pub open spec fn starting() -> RunView {
    RunView { step: Step::Begin, failure: None, rollback_failure: None }
}

proof fn lemma_forward(outcomes: spec_fn(Step) -> Result<(), Seq<char>>, n: int)
    requires
        0 <= n < 7,
        well_before(outcomes, n),
    ensures
        ({
            let here = RunView { step: way_forward()[n], failure: None, rollback_failure: None };
            let (steps, result) = carried_out(here, outcomes);
            carried_out(starting(), outcomes) == (way_forward().take(n) + steps, result)
        }),
    decreases n,
{
    let way = way_forward();
    let here = RunView { step: way[n], failure: None, rollback_failure: None };
    if n == 0 {
        assert(way.take(0) + carried_out(here, outcomes).0 =~= carried_out(here, outcomes).0);
    } else {
        assert(well_before(outcomes, n - 1));
        lemma_forward(outcomes, n - 1);
        let before = RunView { step: way[n - 1], failure: None, rollback_failure: None };
        assert(outcomes(way[n - 1]) is Ok);
        assert(progressed(before, outcomes(way[n - 1])) == ProgressView::Next(here));
        assert(way.take(n - 1) + (seq![way[n - 1]] + carried_out(here, outcomes).0) =~= way.take(n)
            + carried_out(here, outcomes).0);
    }
}

/// The first step of the way forward that fails.
proof fn lemma_first_to_fail(outcomes: spec_fn(Step) -> Result<(), Seq<char>>, n: int) -> (at: int)
    requires
        0 <= n <= 7,
        !well_before(outcomes, n),
    ensures
        0 <= at < n,
        well_before(outcomes, at),
        outcomes(way_forward()[at]) is Err,
    decreases n,
{
    if well_before(outcomes, n - 1) {
        n - 1
    } else {
        lemma_first_to_fail(outcomes, n - 1)
    }
}

/// A transaction succeeds if, and only if, every step forward turns out well;
/// then nothing is undone.
pub proof fn success_takes_every_step(outcomes: spec_fn(Step) -> Result<(), Seq<char>>)
    ensures
        carried_out(starting(), outcomes).1 is Ok <==> well_before(outcomes, 7),
        well_before(outcomes, 7) ==> carried_out(starting(), outcomes) == (
            way_forward(),
            Ok::<(), Seq<char>>(()),
        ),
{
    if well_before(outcomes, 7) {
        assert(well_before(outcomes, 6));
        lemma_forward(outcomes, 6);
        assert(outcomes(way_forward()[6]) is Ok);
        let last = RunView { step: Step::Finish, failure: None, rollback_failure: None };
        assert(carried_out(last, outcomes).0 =~= seq![Step::Finish]);
        assert(way_forward().take(6) + seq![Step::Finish] =~= way_forward());
    } else {
        let at = lemma_first_to_fail(outcomes, 7);
        if at == 0 || at == 6 {
            failure_at_the_ends(outcomes, at);
        } else {
            failure_goes_all_the_way_back(outcomes, at);
        }
    }
}

/// A step between the beginning and the end that fails takes the transaction all
/// the way back, and nothing is committed after it. What comes out is the first
/// failure on the way back, or else that of the step.
pub proof fn failure_goes_all_the_way_back(
    outcomes: spec_fn(Step) -> Result<(), Seq<char>>,
    n: int,
)
    requires
        0 < n < 6,
        well_before(outcomes, n),
        outcomes(way_forward()[n]) is Err,
    ensures
        carried_out(starting(), outcomes).0 == way_forward().take(n + 1) + way_back(),
        carried_out(starting(), outcomes).1 == Err::<(), _>(
            match first_failure(way_back(), outcomes) {
                Some(message) => message,
                None => outcomes(way_forward()[n])->Err_0,
            },
        ),
{
    lemma_forward(outcomes, n);
    let way = way_forward();
    let here = RunView { step: way[n], failure: None, rollback_failure: None };
    let back = RunView {
        step: Step::RestoreHead,
        failure: Some(outcomes(way[n])->Err_0),
        rollback_failure: None,
    };
    assert(progressed(here, outcomes(way[n])) == ProgressView::Next(back));
    lemma_going_back(back, outcomes);
    lemma_way_back();
    assert(way.take(n) + (seq![way[n]] + way_back()) =~= way.take(n + 1) + way_back());
}

/// A transaction that cannot begin, or that cannot be closed after its commit,
/// fails with that and undoes nothing.
pub proof fn failure_at_the_ends(outcomes: spec_fn(Step) -> Result<(), Seq<char>>, n: int)
    requires
        n == 0 || n == 6,
        well_before(outcomes, n),
        outcomes(way_forward()[n]) is Err,
    ensures
        carried_out(starting(), outcomes) == (
            way_forward().take(n + 1),
            Err::<(), _>(outcomes(way_forward()[n])->Err_0),
        ),
{
    lemma_forward(outcomes, n);
    let way = way_forward();
    let here = RunView { step: way[n], failure: None, rollback_failure: None };
    assert(carried_out(here, outcomes).0 =~= seq![way[n]]);
    assert(way.take(n) + seq![way[n]] =~= way.take(n + 1));
}

/// Going back to a snapshot removes no file that it holds.
pub proof fn snapshot_files_stay(files: Seq<Seq<char>>, now: Seq<Seq<char>>, at: int)
    requires
        0 <= at < strays(now, snapshot_labels(files)).len(),
    ensures
        now.contains(strays(now, snapshot_labels(files))[at]),
        !snapshot_labels(files).contains(label_of(strays(now, snapshot_labels(files))[at])),
        !is_excluded(strays(now, snapshot_labels(files))[at]),
        !files.contains(strays(now, snapshot_labels(files))[at]),
{
    let held = snapshot_labels(files);
    let wanted = |file: Seq<char>| is_stray(file, held);
    let found = now.filter(wanted)[at];
    now.lemma_filter_pred(wanted, at);
    assert(wanted(found));
    assert(now.filter(wanted).contains(found));
    now.lemma_filter_contains_rev(wanted, found);
    if files.contains(found) {
        lemma_snapshot_holds(files, found);
    }
}

proof fn lemma_snapshot_holds(files: Seq<Seq<char>>, file: Seq<char>)
    requires
        files.contains(file),
        !is_excluded(file),
    ensures
        snapshot_labels(files).contains(label_of(file)),
    decreases files.len(),
{
    let k = choose|k: int| 0 <= k < files.len() && files[k] == file;
    let rest = files.drop_last();
    let before = snapshot_labels(rest);
    let all = snapshot_labels(files);
    if k < rest.len() {
        assert(rest[k] == file);
        lemma_snapshot_holds(rest, file);
        let j = choose|j: int| 0 <= j < before.len() && before[j] == label_of(file);
        assert(all[j] == label_of(file));
    } else {
        assert(all[all.len() - 1] == label_of(file));
    }
}

} // verus!
