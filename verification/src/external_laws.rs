//! What becomes of changes that were made outside of transactions.

use vstd::prelude::*;

use crate::git::{paths_of, remote_host, StatusView};
use crate::order_laws::filtering_keeps_what_is_wanted;
use crate::text::{ascii_lower, trimmed};
use crate::transaction::{
    all_paths, external_answer, external_step, file_answer, head_commands, options_of,
    pending_paths, restoration_of, review_answer, unmerged, unmerged_problem, vault_of,
    ExternalChangePolicy, ExternalStep, FileStepView, RestoreView, ReviewStepView,
    TransactionOptions,
};

verus! {

/// Whether Git could not merge a change: both sides deleted or added the file, or
/// one left it unmerged.
pub open spec fn is_torn(entry: StatusView) -> bool {
    entry.code == "DD"@ || entry.code == "AA"@ || entry.code == "UU"@ || entry.code == "AU"@
        || entry.code == "UA"@ || entry.code == "DU"@ || entry.code == "UD"@
}

/// Whether some change could not be merged.
pub open spec fn some_torn(entries: Seq<StatusView>) -> bool {
    exists|i: int| 0 <= i < entries.len() && is_torn(#[trigger] entries[i])
}

/// What could not be merged is a problem, and nothing else is one.
pub proof fn torn_changes_are_a_problem(entries: Seq<StatusView>)
    ensures
        unmerged_problem(entries) is Some <==> some_torn(entries),
{
    let wanted = |entry: StatusView| crate::git::is_unmerged_code(entry.code);
    filtering_keeps_what_is_wanted(entries, wanted);
    let torn = unmerged(entries);
    if torn.len() > 0 {
        assert(entries.filter(wanted).contains(torn[0]));
        let i = choose|i: int| 0 <= i < entries.len() && entries[i] == torn[0];
        assert(is_torn(entries[i]));
    }
    if some_torn(entries) {
        let i = choose|i: int| 0 <= i < entries.len() && is_torn(#[trigger] entries[i]);
        assert(entries.contains(entries[i]));
        assert(entries.filter(wanted).contains(entries[i]));
    }
}

/// What is done about changes from outside follows the policy: they are
/// discarded if, and only if, that was asked for, kept only where that was asked
/// for, and someone is asked only where someone can answer. Changes that could
/// not be merged stop everything; without changes there is nothing to decide.
pub proof fn policies_are_followed(
    entries: Seq<StatusView>,
    options: TransactionOptions,
    is_terminal: bool,
)
    ensures
        entries.len() == 0 ==> external_step(entries, options, is_terminal) == Ok::<_, Seq<char>>(
            ExternalStep::Proceed,
        ),
        some_torn(entries) ==> external_step(entries, options, is_terminal) is Err,
        entries.len() > 0 && !some_torn(entries) ==> {
            let step = external_step(entries, options, is_terminal);
            let asks = options.external_policy == ExternalChangePolicy::Prompt
                && !options.non_interactive && is_terminal;
            &&& step == Ok::<_, Seq<char>>(ExternalStep::Restore) <==> options.external_policy
                == ExternalChangePolicy::Restore
            &&& step == Ok::<_, Seq<char>>(ExternalStep::Proceed) <==> options.external_policy
                == ExternalChangePolicy::Accept
            &&& step == Ok::<_, Seq<char>>(ExternalStep::Review) <==> options.external_policy
                == ExternalChangePolicy::Review
            &&& step == Ok::<_, Seq<char>>(ExternalStep::Ask) <==> asks
            &&& step is Err <==> options.external_policy == ExternalChangePolicy::Abort || (
            options.external_policy == ExternalChangePolicy::Prompt && !asks)
        },
{
    torn_changes_are_a_problem(entries);
}

/// Each flag chooses its policy; two at once are refused, and so is a review
/// that nobody can answer. Without a flag someone is asked.
pub proof fn flags_choose_policies(accept: bool, restore: bool, review: bool, quiet: bool)
    ensures
        match options_of(accept, restore, review, quiet) {
            Ok(options) => {
                &&& options.non_interactive == quiet
                &&& options.external_policy == ExternalChangePolicy::Accept <==> accept
                &&& options.external_policy == ExternalChangePolicy::Restore <==> restore
                &&& options.external_policy == ExternalChangePolicy::Review <==> review
                &&& options.external_policy == ExternalChangePolicy::Prompt <==> !accept && !restore
                    && !review
                &&& !(review && quiet)
            },
            Err(_) => (accept && restore) || (accept && review) || (restore && review) || (review
                && quiet),
        },
{
}

/// What an answer to the question about changes from outside does: nothing is
/// discarded unless the answer says so.
pub proof fn answers_about_changes(answer: Seq<char>)
    ensures
        external_answer(answer) == Ok::<_, Seq<char>>(ExternalStep::Restore) <==> trimmed(answer)
            == "restore"@ || trimmed(answer) == "r"@,
        external_answer(answer) == Ok::<_, Seq<char>>(ExternalStep::Proceed) <==> trimmed(answer)
            == ""@ || trimmed(answer) == "commit"@ || trimmed(answer) == "c"@,
        external_answer(answer) is Ok ==> external_answer(answer)->Ok_0 == ExternalStep::Restore
            || external_answer(answer)->Ok_0 == ExternalStep::Proceed,
{
    reveal_strlit("");
    reveal_strlit("commit");
    reveal_strlit("c");
    reveal_strlit("restore");
    reveal_strlit("r");
    assert("commit"@.len() == 6 && "c"@.len() == 1 && "restore"@.len() == 7 && "r"@.len() == 1);
    assert(""@.len() == 0);
    assert("c"@[0] != "r"@[0]);
}

proof fn lemma_words()
    ensures
        ""@.len() == 0,
        "c"@ != "r"@ && "c"@ != "p"@ && "c"@ != "d"@ && "r"@ != "p"@ && "r"@ != "d"@ && "p"@
            != "d"@ && "i"@ != "r"@ && "i"@ != "d"@,
        "a"@ != "c"@ && "a"@ != "r"@ && "a"@ != "p"@ && "a"@ != "d"@ && "a"@ != "i"@,
        "c"@.len() == 1 && "r"@.len() == 1 && "p"@.len() == 1 && "d"@.len() == 1 && "i"@.len() == 1
            && "a"@.len() == 1,
        "pick"@ != "diff"@,
        "commit"@.len() == 6 && "commit-all"@.len() == 10 && "restore"@.len() == 7
            && "restore-all"@.len() == 11 && "pick"@.len() == 4 && "diff"@.len() == 4
            && "include"@.len() == 7 && "abort"@.len() == 5,
        "include"@ != "restore"@,
{
    reveal_strlit("");
    reveal_strlit("c");
    reveal_strlit("r");
    reveal_strlit("p");
    reveal_strlit("d");
    reveal_strlit("i");
    reveal_strlit("a");
    reveal_strlit("pick");
    reveal_strlit("diff");
    reveal_strlit("commit");
    reveal_strlit("commit-all");
    reveal_strlit("restore");
    reveal_strlit("restore-all");
    reveal_strlit("include");
    reveal_strlit("abort");
    assert("c"@[0] != "r"@[0] && "c"@[0] != "p"@[0] && "c"@[0] != "d"@[0]);
    assert("r"@[0] != "p"@[0] && "r"@[0] != "d"@[0] && "p"@[0] != "d"@[0]);
    assert("i"@[0] != "r"@[0] && "i"@[0] != "d"@[0] && "a"@[0] != "c"@[0]);
    assert("a"@[0] != "r"@[0] && "a"@[0] != "p"@[0] && "a"@[0] != "d"@[0] && "a"@[0] != "i"@[0]);
    assert("pick"@[0] != "diff"@[0]);
    assert("include"@[0] != "restore"@[0]);
}

/// What an answer in a review of all changes does, in whatever case it is typed:
/// everything is kept, everything is discarded, or one file after the other is
/// asked about, as the answer says.
pub proof fn answers_in_a_review(answer: Seq<char>)
    ensures
        ({
            let typed = ascii_lower(trimmed(answer));
            let step = review_answer(Some(answer));
            &&& step == Ok::<_, Seq<char>>(ReviewStepView::RestoreAll) <==> typed
                == "restore-all"@ || typed == "restore"@ || typed == "r"@
            &&& step == Ok::<_, Seq<char>>(ReviewStepView::CommitAll) <==> typed == ""@ || typed
                == "commit-all"@ || typed == "commit"@ || typed == "c"@
            &&& step == Ok::<_, Seq<char>>(ReviewStepView::Pick) <==> typed == "pick"@ || typed
                == "p"@
            &&& step == Ok::<_, Seq<char>>(ReviewStepView::ShowDiffs) <==> typed == "diff"@
                || typed == "d"@
            &&& step is Err <==> typed == "abort"@ || typed == "a"@
        }),
        review_answer(None) is Err,
{
    lemma_words();
}

/// What an answer about one file does.
pub proof fn answers_about_a_file(answer: Seq<char>)
    ensures
        ({
            let typed = ascii_lower(trimmed(answer));
            let step = file_answer(Some(answer));
            &&& step == Ok::<_, Seq<char>>(FileStepView::Restore) <==> typed == "restore"@ || typed
                == "r"@
            &&& step == Ok::<_, Seq<char>>(FileStepView::Keep) <==> typed == ""@ || typed
                == "include"@ || typed == "i"@
            &&& step == Ok::<_, Seq<char>>(FileStepView::ShowDiff) <==> typed == "diff"@ || typed
                == "d"@
            &&& step is Err <==> typed == "abort"@ || typed == "a"@
        }),
        file_answer(None) is Err,
{
    lemma_words();
}

/// How a change is undone: a file that Git does not know is removed, and any
/// other is restored by Git, in the index and in the working tree, under every
/// name that it has or had.
pub proof fn changes_are_undone(entry: StatusView)
    ensures
        match restoration_of(entry) {
            RestoreView::Remove(path) => entry.code == "??"@ && path == entry.path,
            RestoreView::Git(arguments) => {
                &&& entry.code != "??"@
                &&& arguments.len() >= 5
                &&& arguments[0] == "restore"@ && arguments[1] == "--staged"@ && arguments[2]
                    == "--worktree"@ && arguments[3] == "--"@
                &&& arguments.contains(entry.path)
                &&& entry.original_path matches Some(original) ==> arguments.contains(original)
            },
        },
{
    let paths = paths_of(entry);
    let all = seq!["restore"@, "--staged"@, "--worktree"@, "--"@] + paths;
    assert(paths.contains(entry.path)) by {
        if entry.original_path is Some {
            assert(paths[1] == entry.path || paths[0] == entry.path);
        } else {
            assert(paths[0] == entry.path);
        }
    }
    let k = choose|k: int| 0 <= k < paths.len() && paths[k] == entry.path;
    assert(all[k + 4] == entry.path);
    if let Some(original) = entry.original_path {
        assert(paths[0] == original || paths[1] == original);
        let k = choose|k: int| 0 <= k < paths.len() && paths[k] == original;
        assert(all[k + 4] == original);
    }
}

/// The paths of changes are those that they name, and no others.
pub proof fn paths_are_those_of_changes(entries: Seq<StatusView>, path: Seq<char>)
    ensures
        all_paths(entries).contains(path) <==> exists|i: int|
            0 <= i < entries.len() && ((#[trigger] entries[i]).path == path
                || entries[i].original_path == Some(path)),
    decreases entries.len(),
{
    let all = all_paths(entries);
    if entries.len() > 0 {
        let rest = entries.drop_last();
        let last = entries.last();
        let before = all_paths(rest);
        let added = paths_of(last);
        paths_are_those_of_changes(rest, path);
        assert(entries[entries.len() - 1] == last);
        assert(added.contains(path) <==> last.path == path || last.original_path == Some(path)) by {
            if last.path == path {
                assert(added[0] == path || added[1] == path);
            }
            if last.original_path == Some(path) {
                assert(added[0] == path || added[1] == path);
            }
        }
        if all.contains(path) {
            let k = choose|k: int| 0 <= k < all.len() && all[k] == path;
            if k < before.len() {
                assert(before[k] == path);
                assert(before.contains(path));
                let i = choose|i: int|
                    0 <= i < rest.len() && ((#[trigger] rest[i]).path == path
                        || rest[i].original_path == Some(path));
                assert(entries[i] == rest[i]);
            } else {
                assert(added[k - before.len()] == path);
                assert(added.contains(path));
            }
        }
        if exists|i: int|
            0 <= i < entries.len() && ((#[trigger] entries[i]).path == path
                || entries[i].original_path == Some(path)) {
            let i = choose|i: int|
                0 <= i < entries.len() && ((#[trigger] entries[i]).path == path
                    || entries[i].original_path == Some(path));
            if i < rest.len() {
                assert(rest[i] == entries[i]);
                let k = choose|k: int| 0 <= k < before.len() && before[k] == path;
                assert(all[k] == path);
            } else {
                let k = choose|k: int| 0 <= k < added.len() && added[k] == path;
                assert(all[before.len() + k] == path);
            }
        }
    }
}

/// A vault is the root of its repository, and its origin stands on GitHub or on
/// GitLab.
pub proof fn vaults_are_roots_with_known_remotes(
    root: Seq<char>,
    top_level: Seq<char>,
    origin: Seq<char>,
)
    ensures
        vault_of(root, top_level, origin) is Ok <==> root == top_level && (remote_host(
            trimmed(origin),
        ) == Some("github.com"@) || remote_host(trimmed(origin)) == Some("gitlab.com"@)),
        vault_of(root, top_level, origin) matches Ok(info) ==> info.root == root
            && info.origin_url == trimmed(origin),
{
}

/// Every journal of a transaction that is not done is pending, and the lock where
/// it counts; nothing else is.
pub proof fn pending_are_journals_and_the_lock(
    entries: Seq<(Seq<char>, bool)>,
    with_lock: bool,
    path: Seq<char>,
)
    ensures
        pending_paths(entries, with_lock).contains(path) <==> exists|i: int|
            0 <= i < entries.len() && (#[trigger] entries[i]).0 == path && (entries[i].1 || (
            with_lock && crate::path::name_of(path) == Some("active.lock"@))),
    decreases entries.len(),
{
    let all = pending_paths(entries, with_lock);
    if entries.len() > 0 {
        let rest = entries.drop_last();
        let last = entries.last();
        let before = pending_paths(rest, with_lock);
        pending_are_journals_and_the_lock(rest, with_lock, path);
        assert(entries[entries.len() - 1] == last);
        if all.contains(path) {
            let k = choose|k: int| 0 <= k < all.len() && all[k] == path;
            if k < before.len() {
                assert(before[k] == path);
                assert(before.contains(path));
                let i = choose|i: int|
                    0 <= i < rest.len() && (#[trigger] rest[i]).0 == path && (rest[i].1 || (
                    with_lock && crate::path::name_of(path) == Some("active.lock"@)));
                assert(entries[i] == rest[i]);
            }
        }
        if exists|i: int|
            0 <= i < entries.len() && (#[trigger] entries[i]).0 == path && (entries[i].1 || (
            with_lock && crate::path::name_of(path) == Some("active.lock"@))) {
            let i = choose|i: int|
                0 <= i < entries.len() && (#[trigger] entries[i]).0 == path && (entries[i].1 || (
                with_lock && crate::path::name_of(path) == Some("active.lock"@)));
            if i < rest.len() {
                assert(rest[i] == entries[i]);
                let k = choose|k: int| 0 <= k < before.len() && before[k] == path;
                assert(all[k] == path);
            } else {
                assert(all[before.len() as int] == path);
            }
        }
    }
}

/// A head is put back where it was: nothing is done where no commit was made, a
/// commit is taken back to the one before it, and a first commit is taken off its
/// branch.
pub proof fn heads_are_put_back(
    commit_created: bool,
    head: Option<Seq<char>>,
    branch: Option<Seq<char>>,
)
    ensures
        match head_commands(commit_created, head, branch) {
            Ok(commands) => {
                &&& commands.len() == 0 <==> !commit_created
                &&& commit_created && head is Some ==> commands.len() == 1
                    && commands[0].arguments == seq!["reset"@, "--mixed"@, head->Some_0]
                &&& commit_created && head is None ==> branch is Some && commands.len() == 2
                    && commands[0].arguments == seq!["update-ref"@, "-d"@, branch->Some_0]
                    && commands[1].arguments == seq!["read-tree"@, "--empty"@]
            },
            Err(_) => commit_created && head is None && branch is None,
        },
{
}

} // verus!
