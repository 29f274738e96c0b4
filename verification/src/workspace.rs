//! The directories of a vault.

use vstd::prelude::*;

use crate::config::ProfileConfig;
use crate::error::Error;
use crate::path::{below, join};
use crate::text;

verus! {

/// A vault, by its root directory.
#[derive(Debug)]
pub struct Workspace {
    root: String,
}

impl View for Workspace {
    type V = Seq<char>;

    closed spec fn view(&self) -> Seq<char> {
        self.root@
    }
}

pub open spec fn short_path(root: Seq<char>) -> Seq<char> {
    below(below(root, "memories"@), "short"@)
}

pub open spec fn long_path(root: Seq<char>) -> Seq<char> {
    below(below(root, "memories"@), "long"@)
}

pub open spec fn archive_path(root: Seq<char>) -> Seq<char> {
    below(root, "archive"@)
}

pub open spec fn conflicts_path(root: Seq<char>) -> Seq<char> {
    below(root, "conflicts"@)
}

pub open spec fn rem_path(root: Seq<char>) -> Seq<char> {
    below(root, ".rem"@)
}

pub open spec fn cache_path(root: Seq<char>) -> Seq<char> {
    below(rem_path(root), "cache"@)
}

pub open spec fn tx_path(root: Seq<char>) -> Seq<char> {
    below(rem_path(root), "tx"@)
}

/// The directories that a vault consists of, parents first.
pub open spec fn layout_of(root: Seq<char>) -> Seq<Seq<char>> {
    seq![
        below(root, "memories"@),
        short_path(root),
        long_path(root),
        below(root, "policies"@),
        below(root, "inbox"@),
        archive_path(root),
        conflicts_path(root),
        rem_path(root),
        cache_path(root),
        tx_path(root),
    ]
}

impl Workspace {
    pub fn new(profile: &ProfileConfig) -> (workspace: Workspace)
        ensures
            workspace@ == profile@.root,
    {
        Workspace { root: profile.root.clone() }
    }

    pub fn root(&self) -> (root: &str)
        ensures
            root@ == self@,
    {
        self.root.as_str()
    }

    pub fn short_dir(&self) -> (dir: String)
        ensures
            dir@ == short_path(self@),
    {
        join(join(self.root.as_str(), "memories").as_str(), "short")
    }

    pub fn long_dir(&self) -> (dir: String)
        ensures
            dir@ == long_path(self@),
    {
        join(join(self.root.as_str(), "memories").as_str(), "long")
    }

    pub fn policies_dir(&self) -> (dir: String)
        ensures
            dir@ == below(self@, "policies"@),
    {
        join(self.root.as_str(), "policies")
    }

    pub fn inbox_dir(&self) -> (dir: String)
        ensures
            dir@ == below(self@, "inbox"@),
    {
        join(self.root.as_str(), "inbox")
    }

    pub fn archive_dir(&self) -> (dir: String)
        ensures
            dir@ == archive_path(self@),
    {
        join(self.root.as_str(), "archive")
    }

    pub fn conflicts_dir(&self) -> (dir: String)
        ensures
            dir@ == conflicts_path(self@),
    {
        join(self.root.as_str(), "conflicts")
    }

    pub fn rem_dir(&self) -> (dir: String)
        ensures
            dir@ == rem_path(self@),
    {
        join(self.root.as_str(), ".rem")
    }

    pub fn cache_dir(&self) -> (dir: String)
        ensures
            dir@ == cache_path(self@),
    {
        join(self.rem_dir().as_str(), "cache")
    }

    pub fn tx_dir(&self) -> (dir: String)
        ensures
            dir@ == tx_path(self@),
    {
        join(self.rem_dir().as_str(), "tx")
    }

    pub fn index_path(&self) -> (path: String)
        ensures
            path@ == below(cache_path(self@), "index.sqlite"@),
    {
        join(self.cache_dir().as_str(), "index.sqlite")
    }

    /// The directories to make sure of, parents first.
    pub fn layout(&self) -> (dirs: Vec<String>)
        ensures
            dirs.deep_view() == layout_of(self@),
    {
        let mut dirs: Vec<String> = Vec::new();
        dirs.push(join(self.root.as_str(), "memories"));
        dirs.push(self.short_dir());
        dirs.push(self.long_dir());
        dirs.push(self.policies_dir());
        dirs.push(self.inbox_dir());
        dirs.push(self.archive_dir());
        dirs.push(self.conflicts_dir());
        dirs.push(self.rem_dir());
        dirs.push(self.cache_dir());
        dirs.push(self.tx_dir());
        assert(dirs.deep_view() =~= layout_of(self@));
        dirs
    }
}

/// What is found at a path, without following a link.
#[derive(Clone, Copy, Debug, PartialEq, Eq, Structural)]
pub enum PathState {
    Missing,
    Symlink,
    Directory,
    File,
    Other,
}

/// Whether a directory is there already, or is still to be made.
#[derive(Clone, Copy, Debug, PartialEq, Eq, Structural)]
pub enum DirectoryStep {
    Ready,
    Create,
}

/// What to do about a directory of the vault, given what is found at its path.
pub open spec fn directory_step_of(
    state: PathState,
    path: Seq<char>,
    label: Seq<char>,
) -> Result<DirectoryStep, Seq<char>> {
    match state {
        PathState::Symlink => Err("refusing to use symlinked "@ + label + " directory "@ + path),
        PathState::Directory => Ok(DirectoryStep::Ready),
        PathState::Missing => Ok(DirectoryStep::Create),
        _ => Err(label + " path "@ + path + " must be a directory"@),
    }
}

pub fn directory_step(state: PathState, path: &str, label: &str) -> (step: Result<
    DirectoryStep,
    Error,
>)
    ensures
        match step {
            Ok(step) => directory_step_of(state, path@, label@) == Ok::<_, Seq<char>>(step),
            Err(error) => directory_step_of(state, path@, label@) == Err::<DirectoryStep, _>(
                error@,
            ),
        },
{
    match state {
        PathState::Symlink => Err(
            Error::new(
                text::concat4("refusing to use symlinked ", label, " directory ", path),
            ),
        ),
        PathState::Directory => Ok(DirectoryStep::Ready),
        PathState::Missing => Ok(DirectoryStep::Create),
        _ => Err(Error::new(text::concat4(label, " path ", path, " must be a directory"))),
    }
}

/// Whether a directory that someone else made in the meantime can be used.
pub fn raced_directory(state: PathState, path: &str, label: &str) -> (usable: Result<(), Error>)
    ensures
        match usable {
            Ok(_) => state == PathState::Directory,
            Err(error) => state != PathState::Directory && error@
                == "refusing to use non-regular "@ + label@ + " directory "@ + path@,
        },
{
    match state {
        PathState::Directory => Ok(()),
        _ => Err(
            Error::new(
                text::concat4("refusing to use non-regular ", label, " directory ", path),
            ),
        ),
    }
}

} // verus!
