//! What is found when a vault is inspected.

use vstd::prelude::*;
use vstd::string::*;

use crate::error::Error;
use crate::numeral::{decimal, decimal_usize};
use crate::path;
use crate::text;
use crate::transaction::GitInfo;
use crate::workspace::{archive_path, cache_path, long_path, short_path, Workspace};

verus! {

/// Whether a finding asks for anything.
#[derive(Clone, Copy, Debug, PartialEq, Eq, Structural)]
pub enum DoctorLevel {
    Fine,
    Warn,
}

impl DoctorLevel {
    pub open spec fn name(self) -> Seq<char> {
        match self {
            DoctorLevel::Fine => "ok"@,
            DoctorLevel::Warn => "warn"@,
        }
    }

    pub fn label(self) -> (label: &'static str)
        ensures
            label@ == self.name(),
    {
        match self {
            DoctorLevel::Fine => "ok",
            DoctorLevel::Warn => "warn",
        }
    }
}

#[derive(Debug)]
pub struct DoctorFinding {
    pub level: DoctorLevel,
    pub message: String,
}

#[verifier::ext_equal]
pub struct FindingView {
    pub level: DoctorLevel,
    pub message: Seq<char>,
}

impl View for DoctorFinding {
    type V = FindingView;

    open spec fn view(&self) -> FindingView {
        FindingView { level: self.level, message: self.message@ }
    }
}

impl DeepView for DoctorFinding {
    type V = FindingView;

    open spec fn deep_view(&self) -> FindingView {
        self@
    }
}

impl Clone for DoctorFinding {
    fn clone(&self) -> (copy: DoctorFinding)
        ensures
            copy@ == self@,
    {
        DoctorFinding { level: self.level, message: self.message.clone() }
    }
}

pub open spec fn fine(message: Seq<char>) -> FindingView {
    FindingView { level: DoctorLevel::Fine, message }
}

pub open spec fn wrong(message: Seq<char>) -> FindingView {
    FindingView { level: DoctorLevel::Warn, message }
}

fn ok(message: String) -> (finding: DoctorFinding)
    ensures
        finding@ == fine(message@),
{
    DoctorFinding { level: DoctorLevel::Fine, message }
}

fn warn(message: String) -> (finding: DoctorFinding)
    ensures
        finding@ == wrong(message@),
{
    DoctorFinding { level: DoctorLevel::Warn, message }
}

/// How many entities, episodes and facts an index holds.
#[derive(Clone, Copy, Debug)]
pub struct SemanticCounts {
    pub entities: usize,
    pub episodes: usize,
    pub facts: usize,
}

/// What was read from an index. Where reading failed, the message says why.
#[derive(Debug)]
pub struct IndexFacts {
    pub diagnostics: Result<usize, Error>,
    /// Nothing where the index has no tables for these.
    pub semantic: Result<Option<SemanticCounts>, Error>,
}

/// What was seen of a vault.
#[derive(Debug)]
pub struct VaultFacts {
    pub has_root: bool,
    pub has_short: bool,
    pub has_long: bool,
    pub has_policies: bool,
    pub has_archive: bool,
    pub has_cache: bool,
    pub has_short_policy: bool,
    pub has_long_policy: bool,
    pub has_promote_policy: bool,
    /// Nothing where there is no index.
    pub index: Option<IndexFacts>,
    pub git: Result<GitInfo, Error>,
    /// The ignore file; empty where it cannot be read.
    pub gitignore: String,
    pub pending: Result<Vec<String>, Error>,
}

// What each check finds.

pub open spec fn directory_finding(exists: bool, path: Seq<char>, label: Seq<char>) -> FindingView {
    if exists {
        fine(label + " exists: "@ + path)
    } else {
        wrong(label + " missing: "@ + path)
    }
}

fn check_dir(exists: bool, path: &str, label: &str) -> (finding: DoctorFinding)
    ensures
        finding@ == directory_finding(exists, path@, label@),
{
    if exists {
        ok(text::concat3(label, " exists: ", path))
    } else {
        warn(text::concat3(label, " missing: ", path))
    }
}

pub open spec fn policy_finding(exists: bool, path: Seq<char>) -> FindingView {
    if exists {
        fine("policy exists: "@ + path)
    } else {
        wrong("missing policy: "@ + path)
    }
}

fn check_policy(exists: bool, path: &str) -> (finding: DoctorFinding)
    ensures
        finding@ == policy_finding(exists, path@),
{
    if exists {
        ok(text::concat2("policy exists: ", path))
    } else {
        warn(text::concat2("missing policy: ", path))
    }
}

pub open spec fn diagnostics_finding(diagnostics: Result<usize, Error>) -> FindingView {
    match diagnostics {
        Ok(count) => if count == 0 {
            fine("index diagnostics are clean"@)
        } else {
            wrong("index has "@ + decimal(count as nat) + " diagnostics"@)
        },
        Err(error) => wrong("index is unreadable; run `rem rebuild`: "@ + error@),
    }
}

fn check_diagnostics(diagnostics: &Result<usize, Error>) -> (finding: DoctorFinding)
    ensures
        finding@ == diagnostics_finding(*diagnostics),
{
    match diagnostics {
        Ok(count) => {
            if *count == 0 {
                ok("index diagnostics are clean".to_owned())
            } else {
                warn(
                    text::concat3("index has ", decimal_usize(*count).as_str(), " diagnostics"),
                )
            }
        },
        Err(error) => warn(
            text::concat2("index is unreadable; run `rem rebuild`: ", error.message()),
        ),
    }
}

pub open spec fn semantic_finding(semantic: Result<Option<SemanticCounts>, Error>) -> FindingView {
    match semantic {
        Ok(Some(counts)) => fine(
            "semantic cache ready entities="@ + decimal(counts.entities as nat) + " episodes="@
                + decimal(counts.episodes as nat) + " facts="@ + decimal(counts.facts as nat),
        ),
        Ok(None) => wrong("semantic cache schema missing; run `rem rebuild`"@),
        Err(error) => wrong("semantic cache is unreadable; run `rem rebuild`: "@ + error@),
    }
}

fn check_semantic(semantic: &Result<Option<SemanticCounts>, Error>) -> (finding: DoctorFinding)
    ensures
        finding@ == semantic_finding(*semantic),
{
    match semantic {
        Ok(Some(counts)) => {
            let mut message = "semantic cache ready entities=".to_owned();
            message.append(decimal_usize(counts.entities).as_str());
            message.append(" episodes=");
            message.append(decimal_usize(counts.episodes).as_str());
            message.append(" facts=");
            message.append(decimal_usize(counts.facts).as_str());
            ok(message)
        },
        Ok(None) => warn("semantic cache schema missing; run `rem rebuild`".to_owned()),
        Err(error) => warn(
            text::concat2("semantic cache is unreadable; run `rem rebuild`: ", error.message()),
        ),
    }
}

pub open spec fn index_findings(index: Option<IndexFacts>, path: Seq<char>) -> Seq<FindingView> {
    match index {
        Some(index) => seq![
            fine("index exists: "@ + path),
            diagnostics_finding(index.diagnostics),
            semantic_finding(index.semantic),
        ],
        None => seq![wrong("index missing; run `rem rebuild`"@)],
    }
}

pub open spec fn git_finding(git: Result<GitInfo, Error>) -> FindingView {
    match git {
        Ok(info) => fine(
            "Git remote origin is supported for "@ + info@.root + ": "@ + info@.origin_url,
        ),
        Err(error) => wrong("Git vault validation failed: "@ + error@),
    }
}

fn check_git(git: &Result<GitInfo, Error>) -> (finding: DoctorFinding)
    ensures
        finding@ == git_finding(*git),
{
    match git {
        Ok(info) => ok(
            text::concat4(
                "Git remote origin is supported for ",
                info.root.as_str(),
                ": ",
                info.origin_url.as_str(),
            ),
        ),
        Err(error) => warn(text::concat2("Git vault validation failed: ", error.message())),
    }
}

/// Whether an ignore file names a directory, with or without the slash.
pub open spec fn names_directory(raw: Seq<char>, with_slash: Seq<char>, without: Seq<char>) -> bool {
    exists|i: int|
        0 <= i < text::line_seq(raw).len() && {
            let line = text::trimmed(#[trigger] text::line_seq(raw)[i]);
            line == with_slash || line == without
        }
}

fn is_named(raw: &str, with_slash: &str, without: &str) -> (named: bool)
    ensures
        named == names_directory(raw@, with_slash@, without@),
{
    let lines = text::lines(raw);
    let ghost all = lines.deep_view();
    let mut i: usize = 0;
    while i < lines.len()
        invariant
            i <= lines.len(),
            all == lines.deep_view(),
            all == text::line_seq(raw@),
            forall|k: int|
                0 <= k < i ==> text::trimmed(#[trigger] all[k]) != with_slash@ && text::trimmed(
                    all[k],
                ) != without@,
        decreases lines.len() - i,
    {
        assert(all[i as int] == lines[i as int]@);
        let line = text::trim(lines[i]);
        if text::same(line, with_slash) || text::same(line, without) {
            assert(text::trimmed(text::line_seq(raw@)[i as int]) == line@);
            return true;
        }
        i = i + 1;
    }
    false
}

pub open spec fn ignore_findings(raw: Seq<char>) -> Seq<FindingView> {
    seq![
        if names_directory(raw, ".rem/cache/"@, ".rem/cache"@) {
            fine(".gitignore excludes .rem/cache/"@)
        } else {
            wrong("Git-backed vault should ignore .rem/cache/"@)
        },
        if names_directory(raw, ".rem/tx/"@, ".rem/tx"@) {
            fine(".gitignore excludes .rem/tx/"@)
        } else {
            wrong("Git-backed vault should ignore .rem/tx/"@)
        },
    ]
}

fn check_gitignore(findings: &mut Vec<DoctorFinding>, raw: &str)
    ensures
        final(findings).deep_view() == old(findings).deep_view() + ignore_findings(raw@),
{
    let ghost before = findings.deep_view();
    let cache = if is_named(raw, ".rem/cache/", ".rem/cache") {
        ok(".gitignore excludes .rem/cache/".to_owned())
    } else {
        warn("Git-backed vault should ignore .rem/cache/".to_owned())
    };
    let tx = if is_named(raw, ".rem/tx/", ".rem/tx") {
        ok(".gitignore excludes .rem/tx/".to_owned())
    } else {
        warn("Git-backed vault should ignore .rem/tx/".to_owned())
    };
    assert(seq![cache@, tx@] =~= ignore_findings(raw@));
    let ghost added = seq![cache@, tx@];
    findings.push(cache);
    findings.push(tx);
    assert(findings.deep_view() =~= before + added);
}

pub open spec fn journal_finding(path: Seq<char>) -> FindingView {
    if path::name_of(path) == Some("active.lock"@) {
        wrong(
            "transaction lock present: "@ + path
                + "; confirm no rem process is running before removing a stale lock"@,
        )
    } else {
        wrong(
            "pending transaction journal: "@ + path + "; run `rem commit` after recovery"@,
        )
    }
}

fn check_journal(path: &str) -> (finding: DoctorFinding)
    ensures
        finding@ == journal_finding(path@),
{
    let is_lock = match path::file_name(path) {
        Some(name) => text::same(name, "active.lock"),
        None => false,
    };
    if is_lock {
        warn(
            text::concat3(
                "transaction lock present: ",
                path,
                "; confirm no rem process is running before removing a stale lock",
            ),
        )
    } else {
        warn(
            text::concat3(
                "pending transaction journal: ",
                path,
                "; run `rem commit` after recovery",
            ),
        )
    }
}

pub open spec fn journal_findings(paths: Seq<Seq<char>>) -> Seq<FindingView> {
    if paths.len() == 0 {
        seq![fine("no pending transaction journals"@)]
    } else {
        paths.map_values(|path: Seq<char>| journal_finding(path))
    }
}

pub open spec fn pending_findings(pending: Result<Vec<String>, Error>) -> Seq<FindingView> {
    match pending {
        Ok(paths) => journal_findings(paths.deep_view()),
        Err(error) => seq![wrong("could not inspect transaction journals: "@ + error@)],
    }
}

fn check_pending(findings: &mut Vec<DoctorFinding>, pending: &Result<Vec<String>, Error>)
    ensures
        final(findings).deep_view() == old(findings).deep_view() + pending_findings(*pending),
{
    let ghost before = findings.deep_view();
    match pending {
        Ok(paths) => {
            let ghost all = paths.deep_view();
            assert(all.len() == paths.len());
            if paths.len() == 0 {
                let finding = ok("no pending transaction journals".to_owned());
                let ghost model = finding@;
                findings.push(finding);
                assert(findings.deep_view() =~= before.push(model));
                assert(before.push(model) =~= before + seq![model]);
                return ;
            }
            let ghost wanted = journal_findings(all);
            let mut i: usize = 0;
            assert(before =~= before + wanted.take(0));
            while i < paths.len()
                invariant
                    i <= paths.len(),
                    paths.len() > 0,
                    all == paths.deep_view(),
                    wanted == journal_findings(all),
                    findings.deep_view() == before + wanted.take(i as int),
                decreases paths.len() - i,
            {
                assert(all[i as int] == paths[i as int]@);
                let finding = check_journal(paths[i].as_str());
                let ghost current = findings.deep_view();
                let ghost model = finding@;
                findings.push(finding);
                assert(findings.deep_view() =~= current.push(model));
                assert(wanted.take(i + 1) =~= wanted.take(i as int).push(wanted[i as int]));
                assert(current.push(model) =~= before + wanted.take(i + 1));
                i = i + 1;
            }
            assert(wanted.take(i as int) =~= wanted);
        },
        Err(error) => {
            let finding = warn(
                text::concat2("could not inspect transaction journals: ", error.message()),
            );
            let ghost model = finding@;
            findings.push(finding);
            assert(findings.deep_view() =~= before.push(model));
            assert(before.push(model) =~= before + seq![model]);
        },
    }
}

/// What is found on the directories and policies.
pub open spec fn layout_findings(root: Seq<char>, facts: &VaultFacts) -> Seq<FindingView> {
    let policies = path::below(root, "policies"@);
    seq![
        directory_finding(facts.has_root, root, "vault root"@),
        directory_finding(facts.has_short, short_path(root), "memories/short"@),
        directory_finding(facts.has_long, long_path(root), "memories/long"@),
        directory_finding(facts.has_policies, policies, "policies"@),
        directory_finding(facts.has_archive, archive_path(root), "archive"@),
        directory_finding(facts.has_cache, cache_path(root), ".rem/cache"@),
        policy_finding(facts.has_short_policy, path::below(policies, "short.md"@)),
        policy_finding(facts.has_long_policy, path::below(policies, "long.md"@)),
        policy_finding(facts.has_promote_policy, path::below(policies, "promote.md"@)),
    ]
}

fn check_layout(workspace: &Workspace, facts: &VaultFacts) -> (findings: Vec<DoctorFinding>)
    ensures
        findings.deep_view() == layout_findings(workspace@, facts),
{
    let policies = workspace.policies_dir();
    let mut findings: Vec<DoctorFinding> = Vec::new();
    findings.push(check_dir(facts.has_root, workspace.root(), "vault root"));
    findings.push(check_dir(facts.has_short, workspace.short_dir().as_str(), "memories/short"));
    findings.push(check_dir(facts.has_long, workspace.long_dir().as_str(), "memories/long"));
    findings.push(check_dir(facts.has_policies, policies.as_str(), "policies"));
    findings.push(check_dir(facts.has_archive, workspace.archive_dir().as_str(), "archive"));
    findings.push(check_dir(facts.has_cache, workspace.cache_dir().as_str(), ".rem/cache"));
    findings.push(
        check_policy(facts.has_short_policy, path::join(policies.as_str(), "short.md").as_str()),
    );
    findings.push(
        check_policy(facts.has_long_policy, path::join(policies.as_str(), "long.md").as_str()),
    );
    findings.push(
        check_policy(
            facts.has_promote_policy,
            path::join(policies.as_str(), "promote.md").as_str(),
        ),
    );
    assert(findings.deep_view() =~= layout_findings(workspace@, facts));
    findings
}

/// Everything that is found, in order.
pub open spec fn findings_of(root: Seq<char>, facts: &VaultFacts) -> Seq<FindingView> {
    layout_findings(root, facts) + index_findings(facts.index, index_of(root)) + seq![
        git_finding(facts.git),
    ] + ignore_findings(facts.gitignore@) + pending_findings(facts.pending)
}

pub open spec fn index_of(root: Seq<char>) -> Seq<char> {
    path::below(cache_path(root), "index.sqlite"@)
}

fn check_index(findings: &mut Vec<DoctorFinding>, index: &Option<IndexFacts>, path: &str)
    ensures
        final(findings).deep_view() == old(findings).deep_view() + index_findings(*index, path@),
{
    let ghost before = findings.deep_view();
    match index {
        Some(index) => {
            let exists = ok(text::concat2("index exists: ", path));
            let diagnostics = check_diagnostics(&index.diagnostics);
            let semantic = check_semantic(&index.semantic);
            let ghost added = seq![exists@, diagnostics@, semantic@];
            findings.push(exists);
            findings.push(diagnostics);
            findings.push(semantic);
            assert(findings.deep_view() =~= before + added);
        },
        None => {
            let missing = warn("index missing; run `rem rebuild`".to_owned());
            let ghost added = seq![missing@];
            findings.push(missing);
            assert(findings.deep_view() =~= before + added);
        },
    }
}

/// Judges what was seen of a vault.
pub fn run(workspace: &Workspace, facts: &VaultFacts) -> (findings: Vec<DoctorFinding>)
    ensures
        findings.deep_view() == findings_of(workspace@, facts),
{
    let mut findings = check_layout(workspace, facts);
    check_index(&mut findings, &facts.index, workspace.index_path().as_str());
    let git = check_git(&facts.git);
    let ghost before = findings.deep_view();
    let ghost model = git@;
    findings.push(git);
    assert(findings.deep_view() =~= before + seq![model]);
    check_gitignore(&mut findings, facts.gitignore.as_str());
    check_pending(&mut findings, &facts.pending);
    findings
}

} // verus!
