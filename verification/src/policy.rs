//! The default policies of a vault.

use vstd::prelude::*;
use vstd::string::*;

use crate::error::Error;
use crate::path;
use crate::text;
use crate::workspace::{PathState, Workspace};

verus! {

pub const SHORT_POLICY: &'static str = "---
policy_id: default-short
memory_type: short
auto_apply: true
requires_review: false
allow_agent_write: true
redact_secrets: true
max_age_days: 14
review_operations: []
---

# Short-Term Memory Policy

Capture temporary project context, active tasks, recent decisions, and unresolved questions.
Do not store credentials, raw logs, or unverified claims as durable facts.
";

pub const LONG_POLICY: &'static str = "---
policy_id: default-long
memory_type: long
auto_apply: false
requires_review: true
allow_agent_write: false
redact_secrets: true
max_age_days: null
review_operations: [create, update, delete]
---

# Long-Term Memory Policy

Store durable facts, preferences, decisions, procedures, and stable project knowledge.
Long-term mutations should be preview-first by default.
";

pub const PROMOTE_POLICY: &'static str = "---
policy_id: default-promote
memory_type: promote
auto_apply: false
requires_review: true
allow_agent_write: false
redact_secrets: true
max_age_days: null
review_operations: [promote]
---

# Promotion Policy

Promote short-term memory when it captures a stable preference, durable decision,
reusable procedure, or fact referenced by multiple sessions.
";

/// A policy: the file that it belongs in, and what that file says.
#[derive(Debug)]
pub struct PolicyFile {
    pub path: String,
    pub content: String,
}

#[verifier::ext_equal]
pub struct PolicyView {
    pub path: Seq<char>,
    pub content: Seq<char>,
}

impl View for PolicyFile {
    type V = PolicyView;

    open spec fn view(&self) -> PolicyView {
        PolicyView { path: self.path@, content: self.content@ }
    }
}

impl DeepView for PolicyFile {
    type V = PolicyView;

    open spec fn deep_view(&self) -> PolicyView {
        self@
    }
}

pub open spec fn policy_of(root: Seq<char>, name: Seq<char>, content: Seq<char>) -> PolicyView {
    PolicyView {
        path: path::below(path::below(root, "policies"@), name),
        content: text::trimmed_start(content),
    }
}

/// The policies that every vault has.
pub fn default_policies(workspace: &Workspace) -> (policies: Vec<PolicyFile>)
    ensures
        policies.deep_view() == seq![
            policy_of(workspace@, "short.md"@, SHORT_POLICY@),
            policy_of(workspace@, "long.md"@, LONG_POLICY@),
            policy_of(workspace@, "promote.md"@, PROMOTE_POLICY@),
        ],
{
    let dir = workspace.policies_dir();
    let mut policies: Vec<PolicyFile> = Vec::new();
    policies.push(policy_file(dir.as_str(), "short.md", SHORT_POLICY));
    policies.push(policy_file(dir.as_str(), "long.md", LONG_POLICY));
    policies.push(policy_file(dir.as_str(), "promote.md", PROMOTE_POLICY));
    assert(policies.deep_view() =~= seq![
        policy_of(workspace@, "short.md"@, SHORT_POLICY@),
        policy_of(workspace@, "long.md"@, LONG_POLICY@),
        policy_of(workspace@, "promote.md"@, PROMOTE_POLICY@),
    ]);
    policies
}

fn policy_file(dir: &str, name: &str, content: &str) -> (policy: PolicyFile)
    ensures
        policy@.path == path::below(dir@, name@),
        policy@.content == text::trimmed_start(content@),
{
    PolicyFile { path: path::join(dir, name), content: text::trim_start(content).to_owned() }
}

/// Whether a policy is there already, or is still to be written.
#[derive(Clone, Copy, Debug, PartialEq, Eq, Structural)]
pub enum PolicyStep {
    Keep,
    Write,
}

/// What to do about a policy, given what is found at its path. One that is
/// there is kept as it is.
pub fn write_if_missing(state: PathState, path: &str) -> (step: Result<PolicyStep, Error>)
    ensures
        match step {
            Ok(PolicyStep::Keep) => state == PathState::File,
            Ok(PolicyStep::Write) => state == PathState::Missing,
            Err(error) => {
                ||| state == PathState::Symlink && error@
                    == "refusing to use symlinked policy file "@ + path@
                ||| (state == PathState::Directory || state == PathState::Other) && error@
                    == "policy path "@ + path@ + " must be a file"@
            },
        },
{
    match state {
        PathState::Symlink => Err(
            Error::new(text::concat2("refusing to use symlinked policy file ", path)),
        ),
        PathState::File => Ok(PolicyStep::Keep),
        PathState::Missing => Ok(PolicyStep::Write),
        _ => Err(Error::new(text::concat3("policy path ", path, " must be a file"))),
    }
}

} // verus!
