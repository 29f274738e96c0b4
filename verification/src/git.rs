//! What Git reports about a vault, and which of its files belong to it.

use vstd::prelude::*;
use vstd::string::*;
use vstd::utf8::{decode_utf8, encode_utf8, is_char_boundary};

use crate::error::Error;
use crate::text;
use crate::workspace::PathState;

verus! {

// Files.

/// The first component of a path behind `pieces` that name nothing: empty ones
/// and `.`.
pub open spec fn next_component(pieces: Seq<Seq<char>>) -> Option<Seq<char>>
    decreases pieces.len(),
{
    if pieces.len() == 0 {
        None
    } else if pieces[0].len() == 0 || pieces[0] == "."@ {
        next_component(pieces.drop_first())
    } else {
        Some(pieces[0])
    }
}

/// Whether a path below the root of a vault is not part of it: Git's own files,
/// and the cache and the transactions.
pub open spec fn is_excluded(path: Seq<char>) -> bool {
    let pieces = text::pieces(path, '/');
    if pieces[0] == ".git"@ {
        true
    } else if pieces[0] == ".rem"@ {
        let next = next_component(pieces.drop_first());
        next == Some("cache"@) || next == Some("tx"@)
    } else {
        false
    }
}

pub fn is_excluded_relative(path: &str) -> (excluded: bool)
    ensures
        excluded == is_excluded(path@),
{
    let pieces = text::split(path, '/');
    let ghost all = pieces.deep_view();
    proof {
        lemma_pieces_exist(path@);
    }
    assert(all.len() == pieces.len());
    assert(all[0] == pieces[0]@);
    if text::same(pieces[0], ".git") {
        return true;
    }
    if !text::same(pieces[0], ".rem") {
        return false;
    }
    let mut i: usize = 1;
    assert(all.drop_first() =~= all.skip(1));
    while i < pieces.len()
        invariant
            1 <= i <= pieces.len(),
            all == pieces.deep_view(),
            next_component(all.drop_first()) == next_component(all.skip(i as int)),
            all == text::pieces(path@, '/'),
            all[0] == ".rem"@,
            all[0] != ".git"@,
        decreases pieces.len() - i,
    {
        let piece = pieces[i];
        assert(all.skip(i as int)[0] == piece@);
        if !piece.is_empty() && !text::same(piece, ".") {
            return text::same(piece, "cache") || text::same(piece, "tx");
        }
        assert(all.skip(i as int).drop_first() =~= all.skip(i + 1));
        i = i + 1;
    }
    false
}

proof fn lemma_pieces_exist(path: Seq<char>)
    ensures
        text::pieces(path, '/').len() > 0,
{
}

/// Whether a piece of a path names something: it is not empty, `.` or `..`.
pub open spec fn names_something(piece: Seq<char>) -> bool {
    piece.len() > 0 && piece != "."@ && piece != ".."@
}

/// The names on a path, with `/` between them.
pub open spec fn label_of(path: Seq<char>) -> Seq<char> {
    text::joined(
        text::pieces(path, '/').filter(|piece: Seq<char>| names_something(piece)),
        "/"@,
    )
}

pub fn path_label(path: &str) -> (label: String)
    ensures
        label@ == label_of(path@),
{
    let pieces = text::split(path, '/');
    let ghost all = pieces.deep_view();
    let ghost wanted = |piece: Seq<char>| names_something(piece);
    let mut names: Vec<&str> = Vec::new();
    let mut i: usize = 0;
    proof {
        reveal(Seq::filter);
        assert(all.take(0).filter(wanted) =~= seq![]);
        assert(names.deep_view() =~= seq![]);
    }
    while i < pieces.len()
        invariant
            i <= pieces.len(),
            all == pieces.deep_view(),
            wanted == (|piece: Seq<char>| names_something(piece)),
            names.deep_view() == all.take(i as int).filter(wanted),
        decreases pieces.len() - i,
    {
        let piece = pieces[i];
        proof {
            reveal(Seq::filter);
            assert(all.take(i + 1).drop_last() =~= all.take(i as int));
            assert(all.take(i + 1).last() == piece@);
        }
        if !piece.is_empty() && !text::same(piece, ".") && !text::same(piece, "..") {
            let ghost before = names.deep_view();
            names.push(piece);
            assert(names.deep_view() =~= before.push(piece@));
        }
        i = i + 1;
    }
    assert(all.take(i as int) =~= all);
    text::join_slices(&names, "/")
}

// Status.

/// What kind of change there is.
#[derive(Clone, Copy, Debug, PartialEq, Eq, Structural)]
pub enum GitStatusKind {
    Added,
    Copied,
    Deleted,
    Modified,
    Renamed,
    Unmerged,
    Untracked,
}

impl GitStatusKind {
    pub open spec fn name(self) -> Seq<char> {
        match self {
            GitStatusKind::Added => "added"@,
            GitStatusKind::Copied => "copied"@,
            GitStatusKind::Deleted => "deleted"@,
            GitStatusKind::Modified => "modified"@,
            GitStatusKind::Renamed => "renamed"@,
            GitStatusKind::Unmerged => "unmerged"@,
            GitStatusKind::Untracked => "untracked"@,
        }
    }

    pub fn label(self) -> (label: &'static str)
        ensures
            label@ == self.name(),
    {
        match self {
            GitStatusKind::Added => "added",
            GitStatusKind::Copied => "copied",
            GitStatusKind::Deleted => "deleted",
            GitStatusKind::Modified => "modified",
            GitStatusKind::Renamed => "renamed",
            GitStatusKind::Unmerged => "unmerged",
            GitStatusKind::Untracked => "untracked",
        }
    }
}

/// A file that differs from what was committed.
#[derive(Debug, Eq, PartialEq)]
pub struct GitStatusEntry {
    pub code: String,
    pub path: String,
    pub original_path: Option<String>,
}

#[verifier::ext_equal]
pub struct StatusView {
    pub code: Seq<char>,
    pub path: Seq<char>,
    pub original_path: Option<Seq<char>>,
}

impl View for GitStatusEntry {
    type V = StatusView;

    open spec fn view(&self) -> StatusView {
        StatusView {
            code: self.code@,
            path: self.path@,
            original_path: self.original_path.deep_view(),
        }
    }
}

impl DeepView for GitStatusEntry {
    type V = StatusView;

    open spec fn deep_view(&self) -> StatusView {
        self@
    }
}

impl Clone for GitStatusEntry {
    fn clone(&self) -> (copy: Self)
        ensures
            copy@ == self@,
    {
        GitStatusEntry {
            code: self.code.clone(),
            path: self.path.clone(),
            original_path: text::clone_optional(&self.original_path),
        }
    }
}

/// The codes of files with unresolved merges.
pub open spec fn is_unmerged_code(code: Seq<char>) -> bool {
    code == "DD"@ || code == "AU"@ || code == "UD"@ || code == "UA"@ || code == "DU"@ || code
        == "AA"@ || code == "UU"@
}

pub open spec fn code_char(code: Seq<char>, at: int) -> char {
    if at < code.len() {
        code[at]
    } else {
        ' '
    }
}

/// Whether a code says something of the index, or of the working tree.
pub open spec fn has_code(code: Seq<char>, c: char) -> bool {
    code_char(code, 0) == c || code_char(code, 1) == c
}

/// The kind of change that a code stands for.
pub open spec fn kind_of(code: Seq<char>) -> GitStatusKind {
    if is_unmerged_code(code) {
        GitStatusKind::Unmerged
    } else if code == "??"@ {
        GitStatusKind::Untracked
    } else if has_code(code, 'R') {
        GitStatusKind::Renamed
    } else if has_code(code, 'C') {
        GitStatusKind::Copied
    } else if has_code(code, 'A') {
        GitStatusKind::Added
    } else if has_code(code, 'D') {
        GitStatusKind::Deleted
    } else {
        GitStatusKind::Modified
    }
}

/// The file, and what it was called before.
pub open spec fn shown_path(entry: StatusView) -> Seq<char> {
    match entry.original_path {
        Some(original) => original + " -> "@ + entry.path,
        None => entry.path,
    }
}

/// The paths that a change is about.
pub open spec fn paths_of(entry: StatusView) -> Seq<Seq<char>> {
    match entry.original_path {
        Some(original) => seq![original, entry.path],
        None => seq![entry.path],
    }
}

impl GitStatusEntry {
    pub fn is_untracked(&self) -> (untracked: bool)
        ensures
            untracked == (self@.code == "??"@),
    {
        text::same(self.code.as_str(), "??")
    }

    pub fn is_unmerged(&self) -> (unmerged: bool)
        ensures
            unmerged == is_unmerged_code(self@.code),
    {
        let code = self.code.as_str();
        text::same(code, "DD") || text::same(code, "AU") || text::same(code, "UD") || text::same(
            code,
            "UA",
        ) || text::same(code, "DU") || text::same(code, "AA") || text::same(code, "UU")
    }

    pub fn kind(&self) -> (kind: GitStatusKind)
        ensures
            kind == kind_of(self@.code),
    {
        if self.is_unmerged() {
            return GitStatusKind::Unmerged;
        }
        if self.is_untracked() {
            return GitStatusKind::Untracked;
        }
        let chars = text::chars_of(self.code.as_str());
        let index = if chars.len() > 0 {
            chars[0]
        } else {
            ' '
        };
        let worktree = if chars.len() > 1 {
            chars[1]
        } else {
            ' '
        };
        if index == 'R' || worktree == 'R' {
            GitStatusKind::Renamed
        } else if index == 'C' || worktree == 'C' {
            GitStatusKind::Copied
        } else if index == 'A' || worktree == 'A' {
            GitStatusKind::Added
        } else if index == 'D' || worktree == 'D' {
            GitStatusKind::Deleted
        } else {
            GitStatusKind::Modified
        }
    }

    pub fn path_args(&self) -> (paths: Vec<String>)
        ensures
            paths.deep_view() == paths_of(self@),
    {
        let mut paths: Vec<String> = Vec::new();
        if let Some(original) = &self.original_path {
            paths.push(original.clone());
        }
        paths.push(self.path.clone());
        assert(paths.deep_view() =~= paths_of(self@));
        paths
    }

    pub fn display_path(&self) -> (shown: String)
        ensures
            shown@ == shown_path(self@),
    {
        match &self.original_path {
            Some(original) => text::concat3(original.as_str(), " -> ", self.path.as_str()),
            None => self.path.clone(),
        }
    }
}

// Reading what Git prints.

/// The fields between zero bytes that are closed, and the one that is open. An
/// empty field counts for nothing.
pub open spec fn open_fields(raw: Seq<u8>) -> (Seq<Seq<u8>>, Seq<u8>)
    decreases raw.len(),
{
    if raw.len() == 0 {
        (seq![], seq![])
    } else {
        let (done, open) = open_fields(raw.drop_last());
        if raw.last() != 0 {
            (done, open.push(raw.last()))
        } else if open.len() > 0 {
            (done.push(open), seq![])
        } else {
            (done, seq![])
        }
    }
}

/// The fields between zero bytes.
pub open spec fn fields(raw: Seq<u8>) -> Seq<Seq<u8>> {
    let (done, open) = open_fields(raw);
    if open.len() > 0 {
        done.push(open)
    } else {
        done
    }
}

/// What bytes read as, where what is not UTF-8 is replaced.
pub uninterp spec fn lossy_text(bytes: Seq<u8>) -> Seq<char>;

/// `String::from_utf8_lossy`. Bytes that are UTF-8 are taken to read as the text
/// that they encode; of others the result is only given a name.
#[verifier::external_body]
fn read_lossy(bytes: &Vec<u8>) -> (result: String)
    ensures
        result@ == lossy_text(bytes@),
        vstd::utf8::valid_utf8(bytes@) ==> result@ == decode_utf8(bytes@),
{
    String::from_utf8_lossy(bytes).into_owned()
}

/// The texts of the fields between zero bytes.
pub open spec fn field_texts(raw: Seq<u8>) -> Seq<Seq<char>> {
    fields(raw).map_values(|field: Seq<u8>| lossy_text(field))
}

/// Whether each field that is UTF-8 reads as the text that it encodes.
pub open spec fn are_decoded(fields: Seq<Seq<u8>>, texts: Seq<Seq<char>>) -> bool {
    &&& texts.len() == fields.len()
    &&& forall|i: int|
        0 <= i < fields.len() && vstd::utf8::valid_utf8(#[trigger] fields[i]) ==> texts[i]
            == decode_utf8(fields[i])
}

/// Reads the fields between zero bytes.
pub fn read_fields(raw: &[u8]) -> (texts: Vec<String>)
    ensures
        texts.deep_view() == field_texts(raw@),
        are_decoded(fields(raw@), texts.deep_view()),
{
    let mut texts: Vec<String> = Vec::new();
    let mut open: Vec<u8> = Vec::new();
    let mut i: usize = 0;
    let ghost decoded = |field: Seq<u8>| lossy_text(field);
    assert(raw@.take(0) =~= seq![]);
    assert(texts.deep_view() =~= open_fields(raw@.take(0)).0.map_values(decoded));
    while i < raw.len()
        invariant
            i <= raw.len(),
            decoded == (|field: Seq<u8>| lossy_text(field)),
            texts.deep_view() == open_fields(raw@.take(i as int)).0.map_values(decoded),
            are_decoded(open_fields(raw@.take(i as int)).0, texts.deep_view()),
            open@ == open_fields(raw@.take(i as int)).1,
        decreases raw.len() - i,
    {
        let byte = raw[i];
        let ghost (done, field) = open_fields(raw@.take(i as int));
        assert(raw@.take(i + 1).drop_last() =~= raw@.take(i as int));
        if byte != 0 {
            open.push(byte);
        } else {
            if open.len() > 0 {
                let text = read_lossy(&open);
                let ghost before = texts.deep_view();
                let ghost model = text@;
                texts.push(text);
                assert(texts.deep_view() =~= before.push(model));
                assert(done.push(field).map_values(decoded) =~= before.push(model));
            }
            open = Vec::new();
        }
        i = i + 1;
    }
    assert(raw@.take(i as int) =~= raw@);
    let ghost (done, field) = open_fields(raw@);
    if open.len() > 0 {
        let text = read_lossy(&open);
        let ghost before = texts.deep_view();
        let ghost model = text@;
        texts.push(text);
        assert(texts.deep_view() =~= before.push(model));
        assert(done.push(field).map_values(decoded) =~= before.push(model));
    }
    texts
}

/// The code and the path of a status field: two bytes, and what follows the
/// third. A field that is too short, or that cannot be cut there, has none.
pub open spec fn cut_field(field: Seq<char>) -> Option<(Seq<char>, Seq<char>)> {
    let bytes = encode_utf8(field);
    if bytes.len() < 4 || !is_char_boundary(bytes, 2) || !is_char_boundary(bytes, 3) {
        None
    } else {
        Some((decode_utf8(bytes.take(2)), decode_utf8(bytes.skip(3))))
    }
}

fn cut<'a>(field: &'a str) -> (parts: Option<(&'a str, &'a str)>)
    ensures
        parts matches Some((code, path)) ==> cut_field(field@) == Some((code@, path@)),
        parts is None ==> cut_field(field@) is None,
{
    let bytes = field.as_bytes();
    if bytes.len() < 4 || !field.is_char_boundary(2) || !field.is_char_boundary(3) {
        return None;
    }
    let (code, _) = field.split_at(2);
    let (_, path) = field.split_at(3);
    proof {
        let all = encode_utf8(field@);
        vstd::utf8::encode_utf8_decode_utf8(code@);
        vstd::utf8::encode_utf8_decode_utf8(path@);
        assert(all.take(2) =~= all.subrange(0, 2));
        assert(all.skip(3) =~= all.subrange(3, all.len() as int));
    }
    Some((code, path))
}

/// Whether a code says that a file has another name, which is in the next field.
pub open spec fn has_original(code: Seq<char>) -> bool {
    code.len() > 0 && (code[0] == 'R' || code[0] == 'C')
}

/// The changes that the fields of a status report.
pub open spec fn entries_of(fields: Seq<Seq<char>>) -> Seq<StatusView>
    decreases fields.len(),
{
    if fields.len() == 0 {
        seq![]
    } else {
        match cut_field(fields[0]) {
            None => entries_of(fields.drop_first()),
            Some((code, path)) => if has_original(code) && fields.len() > 1 {
                seq![StatusView { code, path, original_path: Some(fields[1]) }] + entries_of(
                    fields.skip(2),
                )
            } else {
                seq![StatusView { code, path, original_path: None }] + entries_of(
                    fields.drop_first(),
                )
            },
        }
    }
}

/// Reads the changes that the fields of a status report.
pub fn status_entries(fields: &Vec<String>) -> (entries: Vec<GitStatusEntry>)
    ensures
        entries.deep_view() == entries_of(fields.deep_view()),
{
    let ghost all = fields.deep_view();
    let mut entries: Vec<GitStatusEntry> = Vec::new();
    let mut i: usize = 0;
    assert(all.skip(0) =~= all);
    assert(entries.deep_view() + entries_of(all.skip(0)) =~= entries_of(all));
    while i < fields.len()
        invariant
            i <= fields.len(),
            all == fields.deep_view(),
            entries.deep_view() + entries_of(all.skip(i as int)) == entries_of(all),
        decreases fields.len() - i,
    {
        let ghost rest = all.skip(i as int);
        assert(rest[0] == fields[i as int]@);
        assert(rest.drop_first() =~= all.skip(i + 1));
        match cut(fields[i].as_str()) {
            None => {
                i = i + 1;
            },
            Some((code, path)) => {
                let ghost before = entries.deep_view();
                let renamed = (text::starts_with(code, "R") || text::starts_with(code, "C")) && i
                    + 1 < fields.len();
                proof {
                    lemma_starts(code@);
                }
                if renamed {
                    assert(rest[1] == fields[i + 1]@);
                    assert(rest.skip(2) =~= all.skip(i + 2));
                    let entry = GitStatusEntry {
                        code: code.to_owned(),
                        path: path.to_owned(),
                        original_path: Some(fields[i + 1].clone()),
                    };
                    let ghost model = entry@;
                    entries.push(entry);
                    assert(entries.deep_view() =~= before.push(model));
                    assert(before.push(model) + entries_of(all.skip(i + 2)) =~= before + (seq![
                        model,
                    ] + entries_of(all.skip(i + 2))));
                    i = i + 2;
                } else {
                    let entry = GitStatusEntry {
                        code: code.to_owned(),
                        path: path.to_owned(),
                        original_path: None,
                    };
                    let ghost model = entry@;
                    entries.push(entry);
                    assert(entries.deep_view() =~= before.push(model));
                    assert(before.push(model) + entries_of(all.skip(i + 1)) =~= before + (seq![
                        model,
                    ] + entries_of(all.skip(i + 1))));
                    i = i + 1;
                }
            },
        }
    }
    assert(entries_of(all.skip(i as int)) =~= seq![]);
    assert(entries.deep_view() + entries_of(all.skip(i as int)) =~= entries.deep_view());
    entries
}

proof fn lemma_starts(code: Seq<char>)
    ensures
        has_original(code) == ("R"@.is_prefix_of(code) || "C"@.is_prefix_of(code)),
{
    reveal_strlit("R");
    reveal_strlit("C");
    if code.len() > 0 {
        assert(code.subrange(0, 1) =~= seq![code[0]]);
        assert("R"@ =~= seq!['R']);
        assert("C"@ =~= seq!['C']);
        assert("R"@[0] == 'R');
        assert("C"@[0] == 'C');
    }
}

/// Reads a status with a zero byte behind each field.
pub fn parse_status_z(raw: &[u8]) -> (entries: Vec<GitStatusEntry>)
    ensures
        entries.deep_view() == entries_of(field_texts(raw@)),
        are_decoded(fields(raw@), field_texts(raw@)),
{
    status_entries(&read_fields(raw))
}

/// Whether a change is about files of the vault.
pub open spec fn is_reported(entry: StatusView) -> bool {
    !is_excluded(entry.path) && (entry.original_path matches Some(original) ==> !is_excluded(
        original,
    ))
}

/// The changes that are about files of the vault.
pub open spec fn reported(entries: Seq<StatusView>) -> Seq<StatusView> {
    entries.filter(|entry: StatusView| is_reported(entry))
}

/// Leaves out the changes that are not about files of the vault.
pub fn vault_entries(entries: &Vec<GitStatusEntry>) -> (kept: Vec<GitStatusEntry>)
    ensures
        kept.deep_view() == reported(entries.deep_view()),
{
    let ghost all = entries.deep_view();
    let ghost wanted = |entry: StatusView| is_reported(entry);
    let mut kept: Vec<GitStatusEntry> = Vec::new();
    let mut i: usize = 0;
    proof {
        reveal(Seq::filter);
        assert(all.take(0).filter(wanted) =~= seq![]);
        assert(kept.deep_view() =~= seq![]);
    }
    while i < entries.len()
        invariant
            i <= entries.len(),
            all == entries.deep_view(),
            wanted == (|entry: StatusView| is_reported(entry)),
            kept.deep_view() == all.take(i as int).filter(wanted),
        decreases entries.len() - i,
    {
        let entry = &entries[i];
        proof {
            reveal(Seq::filter);
            assert(all.take(i + 1).drop_last() =~= all.take(i as int));
            assert(all.take(i + 1).last() == entry@);
        }
        let moved_out = match &entry.original_path {
            Some(original) => is_excluded_relative(original.as_str()),
            None => false,
        };
        if !is_excluded_relative(entry.path.as_str()) && !moved_out {
            let ghost before = kept.deep_view();
            kept.push(entry.clone());
            assert(kept.deep_view() =~= before.push(entry@));
        }
        i = i + 1;
    }
    assert(all.take(i as int) =~= all);
    kept
}

/// What Git reports about the files of a vault.
pub fn git_status(raw: &[u8]) -> (entries: Vec<GitStatusEntry>)
    ensures
        entries.deep_view() == reported(entries_of(field_texts(raw@))),
        are_decoded(fields(raw@), field_texts(raw@)),
{
    vault_entries(&parse_status_z(raw))
}

/// The paths that belong to the vault.
pub open spec fn vault_paths(paths: Seq<Seq<char>>) -> Seq<Seq<char>> {
    paths.filter(|path: Seq<char>| !is_excluded(path))
}

/// Leaves out the paths that do not belong to the vault.
pub fn keep_vault_paths(paths: &Vec<String>) -> (kept: Vec<String>)
    ensures
        kept.deep_view() == vault_paths(paths.deep_view()),
{
    let ghost all = paths.deep_view();
    let ghost wanted = |path: Seq<char>| !is_excluded(path);
    let mut kept: Vec<String> = Vec::new();
    let mut i: usize = 0;
    proof {
        reveal(Seq::filter);
        assert(all.take(0).filter(wanted) =~= seq![]);
        assert(kept.deep_view() =~= seq![]);
    }
    while i < paths.len()
        invariant
            i <= paths.len(),
            all == paths.deep_view(),
            wanted == (|path: Seq<char>| !is_excluded(path)),
            kept.deep_view() == all.take(i as int).filter(wanted),
        decreases paths.len() - i,
    {
        proof {
            reveal(Seq::filter);
            assert(all.take(i + 1).drop_last() =~= all.take(i as int));
            assert(all.take(i + 1).last() == paths[i as int]@);
        }
        if !is_excluded_relative(paths[i].as_str()) {
            let ghost before = kept.deep_view();
            kept.push(paths[i].clone());
            assert(kept.deep_view() =~= before.push(paths[i as int]@));
        }
        i = i + 1;
    }
    assert(all.take(i as int) =~= all);
    kept
}

/// The paths that are staged, with a zero byte behind each.
pub fn staged_paths(raw: &[u8]) -> (paths: Vec<String>)
    ensures
        paths.deep_view() == vault_paths(field_texts(raw@)),
        are_decoded(fields(raw@), field_texts(raw@)),
{
    keep_vault_paths(&read_fields(raw))
}

// Remotes.

/// The host part of an address, without user, brackets, port and final dots.
pub open spec fn bare_host(address: Seq<char>) -> Option<Seq<char>> {
    let inner = text::stripped_end(
        text::stripped_start(text::trimmed(text::after_last(address, '@')), '['),
        ']',
    );
    let host = text::ascii_lower(text::stripped_end(text::pieces(inner, ':')[0], '.'));
    if host.len() == 0 {
        None
    } else {
        Some(host)
    }
}

/// The host that a remote stands on: that of a URL, or what stands before the
/// colon of the short form.
pub open spec fn remote_host(remote: Seq<char>) -> Option<Seq<char>> {
    let remote = text::trimmed(remote);
    match text::split_once_by(remote, "://"@) {
        Some((_, rest)) => bare_host(text::before_any(rest, seq!['/', '?', '#'])),
        None => match text::split_once_at(remote, ':') {
            Some((left, _)) => if left.contains('/') {
                None
            } else {
                bare_host(left)
            },
            None => None,
        },
    }
}

fn host_of(address: &str) -> (host: Option<String>)
    ensures
        host.deep_view() == bare_host(address@),
{
    let user_less = text::rsplit_last(address, '@');
    let inner = text::trim_end_matches(
        text::trim_start_matches(text::trim(user_less), '['),
        ']',
    );
    let pieces = text::split(inner, ':');
    assert(pieces.deep_view().len() == pieces.len());
    assert(pieces.deep_view()[0] == pieces[0]@);
    let host = text::to_ascii_lowercase(text::trim_end_matches(pieces[0], '.'));
    if host.as_str().is_empty() {
        None
    } else {
        Some(host)
    }
}

pub fn git_remote_host(remote: &str) -> (host: Option<String>)
    ensures
        host.deep_view() == remote_host(remote@),
{
    let remote = text::trim(remote);
    match text::split_once_str(remote, "://") {
        Some((_, rest)) => {
            let mut marks: Vec<char> = Vec::new();
            marks.push('/');
            marks.push('?');
            marks.push('#');
            assert(marks@ =~= seq!['/', '?', '#']);
            host_of(text::split_first(rest, &marks))
        },
        None => match text::split_once(remote, ':') {
            Some((left, _)) => {
                if text::contains_char(left, '/') {
                    return None;
                }
                host_of(left)
            },
            None => None,
        },
    }
}

pub open spec fn is_known_remote(remote: Seq<char>) -> bool {
    remote_host(remote) == Some("github.com"@) || remote_host(remote) == Some("gitlab.com"@)
}

/// Whether a remote stands on GitHub or on GitLab.
pub fn is_github_or_gitlab_remote(remote: &str) -> (known: bool)
    ensures
        known == is_known_remote(remote@),
{
    match git_remote_host(remote) {
        Some(host) => text::same(host.as_str(), "github.com") || text::same(
            host.as_str(),
            "gitlab.com",
        ),
        None => false,
    }
}

// The ignore file.

/// A line of an ignore file as it is told apart from others.
pub open spec fn ignore_line(line: Seq<char>) -> Seq<char> {
    text::stripped_end(text::trimmed(line), '/')
}

/// Whether an ignore file has an entry.
pub open spec fn ignores(raw: Seq<char>, entry: Seq<char>) -> bool {
    exists|i: int|
        0 <= i < text::line_seq(raw).len() && ignore_line(#[trigger] text::line_seq(raw)[i])
            == text::stripped_end(entry, '/')
}

pub fn gitignore_has_entry(raw: &str, entry: &str) -> (found: bool)
    ensures
        found == ignores(raw@, entry@),
{
    let wanted = text::trim_end_matches(entry, '/');
    let lines = text::lines(raw);
    let ghost all = lines.deep_view();
    let mut i: usize = 0;
    while i < lines.len()
        invariant
            i <= lines.len(),
            all == lines.deep_view(),
            all == text::line_seq(raw@),
            wanted@ == text::stripped_end(entry@, '/'),
            forall|k: int| 0 <= k < i ==> ignore_line(#[trigger] all[k]) != wanted@,
        decreases lines.len() - i,
    {
        assert(all[i as int] == lines[i as int]@);
        let line = text::trim_end_matches(text::trim(lines[i]), '/');
        if text::same(line, wanted) {
            assert(ignore_line(text::line_seq(raw@)[i as int]) == wanted@);
            return true;
        }
        i = i + 1;
    }
    false
}

/// Refuses to change an ignore file through a link.
pub fn validate_gitignore_path(state: PathState, path: &str) -> (valid: Result<(), Error>)
    ensures
        match valid {
            Ok(_) => state != PathState::Symlink,
            Err(error) => state == PathState::Symlink && error@
                == "refusing to update symlinked .gitignore "@ + path@
                + "; replace it with a regular vault file first"@,
        },
{
    match state {
        PathState::Symlink => Err(
            Error::new(
                text::concat3(
                    "refusing to update symlinked .gitignore ",
                    path,
                    "; replace it with a regular vault file first",
                ),
            ),
        ),
        _ => Ok(()),
    }
}

/// An ignore file with an entry, on a line of its own.
pub open spec fn with_entry(raw: Seq<char>, entry: Seq<char>) -> Seq<char> {
    if ignores(raw, entry) {
        raw
    } else if raw.len() > 0 && !"\n"@.is_suffix_of(raw) {
        raw + "\n"@ + entry + "\n"@
    } else {
        raw + entry + "\n"@
    }
}

fn add_entry(raw: String, entry: &str) -> (result: String)
    ensures
        result@ == with_entry(raw@, entry@),
{
    if gitignore_has_entry(raw.as_str(), entry) {
        return raw;
    }
    let mut result = raw;
    if !result.as_str().is_empty() && !text::ends_with(result.as_str(), "\n") {
        result.append("\n");
    }
    result.append(entry);
    result.append("\n");
    result
}

/// An ignore file that leaves out the cache and the transactions.
pub open spec fn with_entries(raw: Seq<char>) -> Seq<char> {
    with_entry(with_entry(raw, ".rem/cache/"@), ".rem/tx/"@)
}

/// The ignore file that a vault needs, where it is not the one it has.
pub fn ensure_gitignore(raw: &str) -> (result: Option<String>)
    ensures
        match result {
            Some(result) => result@ == with_entries(raw@) && (!ignores(raw@, ".rem/cache/"@)
                || !ignores(with_entry(raw@, ".rem/cache/"@), ".rem/tx/"@)),
            None => with_entries(raw@) == raw@,
        },
{
    let had_cache = gitignore_has_entry(raw, ".rem/cache/");
    let first = add_entry(raw.to_owned(), ".rem/cache/");
    let had_tx = gitignore_has_entry(first.as_str(), ".rem/tx/");
    let second = add_entry(first, ".rem/tx/");
    if had_cache && had_tx {
        None
    } else {
        Some(second)
    }
}

// Failures.

/// What is said of a Git command that failed.
pub open spec fn failure_of(
    label: Seq<char>,
    status: Seq<char>,
    stdout: Seq<char>,
    stderr: Seq<char>,
) -> Seq<char> {
    let stdout = text::trimmed(stdout);
    let stderr = text::trimmed(stderr);
    if stderr.len() == 0 && stdout.len() == 0 {
        label + " failed with status "@ + status
    } else if stderr.len() == 0 {
        label + " failed: "@ + stdout
    } else {
        label + " failed: "@ + stderr
    }
}

pub fn git_error(label: &str, status: &str, stdout: &str, stderr: &str) -> (error: Error)
    ensures
        error@ == failure_of(label@, status@, stdout@, stderr@),
{
    let stdout = text::trim(stdout);
    let stderr = text::trim(stderr);
    if stderr.is_empty() && stdout.is_empty() {
        Error::new(text::concat3(label, " failed with status ", status))
    } else if stderr.is_empty() {
        Error::new(text::concat3(label, " failed: ", stdout))
    } else {
        Error::new(text::concat3(label, " failed: ", stderr))
    }
}

/// What a command answers that exits with 1 where there is nothing to answer.
pub open spec fn answer_of(
    label: Seq<char>,
    code: Option<i32>,
    status: Seq<char>,
    stdout: Seq<char>,
    stderr: Seq<char>,
) -> Result<Option<Seq<char>>, Seq<char>> {
    if code == Some(0i32) {
        Ok(Some(text::trimmed(stdout)))
    } else if code == Some(1i32) {
        Ok(None)
    } else {
        Err(failure_of(label, status, stdout, stderr))
    }
}

/// Reads the answer to a question about the head.
pub fn read_head(label: &str, code: Option<i32>, status: &str, stdout: &str, stderr: &str) -> (
    head: Result<Option<String>, Error>)
    ensures
        match head {
            Ok(head) => answer_of(label@, code, status@, stdout@, stderr@) == Ok::<_, Seq<char>>(
                head.deep_view(),
            ),
            Err(error) => answer_of(label@, code, status@, stdout@, stderr@) == Err::<
                Option<Seq<char>>,
                _,
            >(error@),
        },
{
    match code {
        Some(0) => Ok(Some(text::trim(stdout).to_owned())),
        Some(1) => Ok(None),
        _ => Err(git_error(label, status, stdout, stderr)),
    }
}

// Laws.

/// Nothing that is reported lies outside the vault.
pub proof fn reports_stay_in_the_vault(entries: Seq<StatusView>, at: int)
    requires
        0 <= at < reported(entries).len(),
    ensures
        entries.contains(reported(entries)[at]),
        !is_excluded(reported(entries)[at].path),
        reported(entries)[at].original_path matches Some(original) ==> !is_excluded(original),
{
    let wanted = |entry: StatusView| is_reported(entry);
    entries.lemma_filter_pred(wanted, at);
    assert(entries.filter(wanted).contains(entries.filter(wanted)[at]));
    entries.lemma_filter_contains_rev(wanted, entries.filter(wanted)[at]);
    assert(wanted(entries.filter(wanted)[at]));
}

} // verus!
