//! What belongs to a vault: its directories, its files and their names, and what
//! Git says of them.

use vstd::prelude::*;
use vstd::utf8::{
    encode_scalar, encode_utf8, encode_utf8_decode_utf8, encode_utf8_first_scalar,
    encode_utf8_valid_utf8, is_char_boundary, length_of_first_scalar, pop_first_scalar,
};

use crate::git::{
    answer_of, cut_field, entries_of, failure_of, fields, has_original, is_excluded, kind_of,
    label_of, names_something, open_fields, paths_of, reported, shown_path, vault_paths,
    GitStatusKind, StatusView,
};
use crate::order_laws::filtering_keeps_what_is_wanted;
use crate::path::{below, extension_of, last_component, last_dot, name_of, stem_of};
use crate::policy::policy_of;
use crate::text::{joined, lemma_index_of, pieces, trimmed};
use crate::text_laws::{joined_pieces_read_back, pieces_of_both};
use crate::workspace::{directory_step_of, layout_of, DirectoryStep, PathState};

verus! {

// Names.

proof fn lemma_one_piece(name: Seq<char>)
    requires
        !name.contains('/'),
    ensures
        pieces(name, '/') == seq![name],
{
    lemma_index_of(name, '/');
}

/// The last name on a path is its name, unless it stands for a directory around it.
pub proof fn paths_end_in_their_names(dir: Seq<char>, name: Seq<char>)
    requires
        name.len() > 0,
        !name.contains('/'),
        name != "."@,
    ensures
        name != ".."@ ==> name_of(dir + seq!['/'] + name) == Some(name),
        name == ".."@ ==> name_of(dir + seq!['/'] + name) is None,
        name != ".."@ ==> name_of(name) == Some(name),
{
    lemma_one_piece(name);
    pieces_of_both(dir, '/', name);
    let all = pieces(dir + seq!['/'] + name, '/');
    assert(all.last() == name);
    assert(last_component(all) == Some(name));
    assert(pieces(name, '/').last() == name);
}

proof fn lemma_last_dot(stem: Seq<char>, extension: Seq<char>)
    requires
        !extension.contains('.'),
    ensures
        last_dot(stem + seq!['.'] + extension) == stem.len(),
    decreases extension.len(),
{
    let name = stem + seq!['.'] + extension;
    if extension.len() == 0 {
        assert(name.last() == '.');
    } else {
        let rest = extension.drop_last();
        assert(extension.contains(extension.last()));
        assert(!rest.contains('.')) by {
            if rest.contains('.') {
                let i = choose|i: int| 0 <= i < rest.len() && rest[i] == '.';
                assert(extension[i] == '.');
            }
        }
        assert(name.last() == extension.last());
        assert(name.drop_last() =~= stem + seq!['.'] + rest);
        lemma_last_dot(stem, rest);
    }
}

proof fn lemma_no_dot(name: Seq<char>)
    requires
        !name.contains('.'),
    ensures
        last_dot(name) == name.len(),
    decreases name.len(),
{
    if name.len() > 0 {
        let rest = name.drop_last();
        assert(name.contains(name.last()));
        assert(!rest.contains('.')) by {
            if rest.contains('.') {
                let i = choose|i: int| 0 <= i < rest.len() && rest[i] == '.';
                assert(name[i] == '.');
            }
        }
        lemma_no_dot(rest);
    }
}

/// The extension of a file stands behind the last dot of its name, and its stem
/// before it; a name without a dot is its own stem.
pub proof fn names_have_stems_and_extensions(
    dir: Seq<char>,
    stem: Seq<char>,
    extension: Seq<char>,
)
    requires
        stem.len() > 0,
        !stem.contains('/'),
        !extension.contains('/'),
        !extension.contains('.'),
        extension.len() > 0,
    ensures
        stem_of(dir + seq!['/'] + (stem + seq!['.'] + extension)) == Some(stem),
        extension_of(dir + seq!['/'] + (stem + seq!['.'] + extension)) == Some(extension),
        stem_of(dir + seq!['/'] + extension) == Some(extension),
        extension_of(dir + seq!['/'] + extension) is None,
{
    reveal_strlit(".");
    reveal_strlit("..");
    let name = stem + seq!['.'] + extension;
    assert(!name.contains('/')) by {
        if name.contains('/') {
            let i = choose|i: int| 0 <= i < name.len() && name[i] == '/';
            if i < stem.len() {
                assert(stem[i] == '/');
            } else {
                assert(extension[i - stem.len() - 1] == '/');
            }
        }
    }
    assert(name.len() >= 3);
    assert("."@.len() == 1 && ".."@.len() == 2);
    paths_end_in_their_names(dir, name);
    lemma_last_dot(stem, extension);
    assert(name.take(stem.len() as int) =~= stem);
    assert(name.skip(stem.len() as int + 1) =~= extension);
    assert(extension != "."@ && extension != ".."@) by {
        assert("."@[0] == '.' && ".."@[0] == '.');
        assert(extension.contains(extension[0]));
    }
    paths_end_in_their_names(dir, extension);
    lemma_no_dot(extension);
}

// Directories.

/// A vault consists of ten directories, at their places below its root, each behind
/// the one that holds it.
pub proof fn vaults_have_their_directories(root: Seq<char>)
    requires
        root.len() > 0,
        root.last() != '/',
    ensures
        layout_of(root) == seq![
            root + "/memories"@,
            root + "/memories/short"@,
            root + "/memories/long"@,
            root + "/policies"@,
            root + "/inbox"@,
            root + "/archive"@,
            root + "/conflicts"@,
            root + "/.rem"@,
            root + "/.rem/cache"@,
            root + "/.rem/tx"@,
        ],
{
    reveal_strlit("/");
    reveal_strlit("memories");
    reveal_strlit("short");
    reveal_strlit("long");
    reveal_strlit("policies");
    reveal_strlit("inbox");
    reveal_strlit("archive");
    reveal_strlit("conflicts");
    reveal_strlit(".rem");
    reveal_strlit("cache");
    reveal_strlit("tx");
    reveal_strlit("/memories");
    reveal_strlit("/memories/short");
    reveal_strlit("/memories/long");
    reveal_strlit("/policies");
    reveal_strlit("/inbox");
    reveal_strlit("/archive");
    reveal_strlit("/conflicts");
    reveal_strlit("/.rem");
    reveal_strlit("/.rem/cache");
    reveal_strlit("/.rem/tx");
    let memories = root + "/memories"@;
    let rem = root + "/.rem"@;
    assert(below(root, "memories"@) =~= memories);
    assert(below(memories, "short"@) =~= root + "/memories/short"@);
    assert(below(memories, "long"@) =~= root + "/memories/long"@);
    assert(below(root, "policies"@) =~= root + "/policies"@);
    assert(below(root, "inbox"@) =~= root + "/inbox"@);
    assert(below(root, "archive"@) =~= root + "/archive"@);
    assert(below(root, "conflicts"@) =~= root + "/conflicts"@);
    assert(below(root, ".rem"@) =~= rem);
    assert(below(rem, "cache"@) =~= root + "/.rem/cache"@);
    assert(below(rem, "tx"@) =~= root + "/.rem/tx"@);
}

/// A directory that is there is used, one that is missing is made, and a link or
/// anything else in its place is refused.
pub proof fn directories_are_made_where_missing(
    state: PathState,
    path: Seq<char>,
    label: Seq<char>,
)
    ensures
        directory_step_of(state, path, label) == Ok::<_, Seq<char>>(DirectoryStep::Ready) <==> state
            == PathState::Directory,
        directory_step_of(state, path, label) == Ok::<_, Seq<char>>(DirectoryStep::Create)
            <==> state == PathState::Missing,
        directory_step_of(state, path, label) is Ok <==> state == PathState::Directory || state
            == PathState::Missing,
{
}

// What is left out.

proof fn lemma_first_piece(first: Seq<char>, rest: Seq<char>)
    requires
        !first.contains('/'),
    ensures
        pieces(first + seq!['/'] + rest, '/')[0] == first,
        pieces(first + seq!['/'] + rest, '/').drop_first() == pieces(rest, '/'),
        pieces(first, '/')[0] == first,
{
    lemma_one_piece(first);
    pieces_of_both(first, '/', rest);
    let all = pieces(first + seq!['/'] + rest, '/');
    assert(all[0] == first);
    assert(all.drop_first() =~= pieces(rest, '/'));
}

/// Git's own files are not part of a vault, nor are its cache and its transactions;
/// everything else is.
pub proof fn caches_are_left_out(name: Seq<char>, rest: Seq<char>)
    requires
        !name.contains('/'),
    ensures
        is_excluded(".git"@),
        is_excluded(".git"@ + seq!['/'] + rest),
        is_excluded(".rem"@ + seq!['/'] + "cache"@),
        is_excluded(".rem"@ + seq!['/'] + ("cache"@ + seq!['/'] + rest)),
        is_excluded(".rem"@ + seq!['/'] + "tx"@),
        is_excluded(".rem"@ + seq!['/'] + ("tx"@ + seq!['/'] + rest)),
        !is_excluded(".rem"@),
        name.len() > 0 && name != "."@ && name != "cache"@ && name != "tx"@ ==> !is_excluded(
            ".rem"@ + seq!['/'] + name,
        ) && !is_excluded(".rem"@ + seq!['/'] + (name + seq!['/'] + rest)),
        name != ".git"@ && name != ".rem"@ ==> !is_excluded(name) && !is_excluded(
            name + seq!['/'] + rest,
        ),
{
    reveal_strlit(".git");
    reveal_strlit(".rem");
    reveal_strlit("cache");
    reveal_strlit("tx");
    reveal_strlit(".");
    assert(".git"@[1] == 'g' && ".rem"@[1] == 'r');
    assert("."@.len() == 1 && "cache"@.len() == 5 && "tx"@.len() == 2);
    assert(!".git"@.contains('/') && !".rem"@.contains('/') && !"cache"@.contains('/')
        && !"tx"@.contains('/'));
    lemma_first_piece(".git"@, rest);
    lemma_first_piece(".rem"@, "cache"@);
    lemma_first_piece(".rem"@, "cache"@ + seq!['/'] + rest);
    lemma_first_piece("cache"@, rest);
    lemma_first_piece(".rem"@, "tx"@);
    lemma_first_piece(".rem"@, "tx"@ + seq!['/'] + rest);
    lemma_first_piece("tx"@, rest);
    lemma_first_piece(".rem"@, name);
    lemma_first_piece(".rem"@, name + seq!['/'] + rest);
    lemma_first_piece(name, rest);
    lemma_one_piece(".rem"@);
    assert(pieces(".rem"@, '/').drop_first() =~= seq![]);
}

/// What is kept of some paths are those that belong to the vault; and a change is
/// reported where both the file and what it was called before belong to it.
pub proof fn only_the_vault_is_reported(
    paths: Seq<Seq<char>>,
    path: Seq<char>,
    entries: Seq<StatusView>,
    entry: StatusView,
)
    ensures
        vault_paths(paths).contains(path) <==> paths.contains(path) && !is_excluded(path),
        reported(entries).contains(entry) <==> entries.contains(entry) && !is_excluded(entry.path)
            && (entry.original_path is Some ==> !is_excluded(entry.original_path->Some_0)),
{
    filtering_keeps_what_is_wanted(paths, |path: Seq<char>| !is_excluded(path));
    filtering_keeps_what_is_wanted(entries, |entry: StatusView| crate::git::is_reported(entry));
}

/// A path is told by the names on it: one made of names is its own label, and a
/// dot, a double slash or one at the end does not show.
pub proof fn labels_are_made_of_names(names: Seq<Seq<char>>, path: Seq<char>)
    requires
        names.len() > 0,
        forall|i: int|
            0 <= i < names.len() ==> (#[trigger] names[i]).len() > 0 && names[i] != "."@ && names[i]
                != ".."@ && !names[i].contains('/'),
    ensures
        label_of(joined(names, seq!['/'])) == joined(names, seq!['/']),
        label_of("."@ + seq!['/'] + path) == label_of(path),
        label_of(seq!['/'] + path) == label_of(path),
        label_of(path + seq!['/']) == label_of(path),
{
    reveal_strlit("/");
    reveal_strlit(".");
    assert("/"@ =~= seq!['/']);
    let named = |piece: Seq<char>| names_something(piece);
    assert(forall|i: int| 0 <= i < names.len() ==> !(#[trigger] names[i]).contains('/'));
    joined_pieces_read_back(names, '/');
    assert forall|i: int| 0 <= i < names.len() implies named(#[trigger] names[i]) by {}
    lemma_all_kept(names, named);
    let none: Seq<char> = seq![];
    lemma_one_piece(none);
    assert(!"."@.contains('/'));
    lemma_one_piece("."@);
    pieces_of_both("."@, '/', path);
    pieces_of_both(none, '/', path);
    pieces_of_both(path, '/', none);
    assert(none + seq!['/'] + path =~= seq!['/'] + path);
    assert(path + seq!['/'] + none =~= path + seq!['/']);
    lemma_first_dropped("."@, pieces(path, '/'), named);
    lemma_first_dropped(none, pieces(path, '/'), named);
    assert((pieces(path, '/') + seq![none]).drop_last() =~= pieces(path, '/'));
    reveal(Seq::filter);
}

proof fn lemma_all_kept(items: Seq<Seq<char>>, wanted: spec_fn(Seq<char>) -> bool)
    requires
        forall|i: int| 0 <= i < items.len() ==> wanted(#[trigger] items[i]),
    ensures
        items.filter(wanted) == items,
    decreases items.len(),
{
    reveal(Seq::filter);
    if items.len() > 0 {
        let rest = items.drop_last();
        assert(wanted(items[items.len() - 1]));
        assert forall|i: int| 0 <= i < rest.len() implies wanted(#[trigger] rest[i]) by {
            assert(rest[i] == items[i]);
        }
        lemma_all_kept(rest, wanted);
        assert(items.filter(wanted) =~= items);
    } else {
        assert(items.filter(wanted) =~= items);
    }
}

proof fn lemma_first_dropped(
    first: Seq<char>,
    rest: Seq<Seq<char>>,
    wanted: spec_fn(Seq<char>) -> bool,
)
    requires
        !wanted(first),
    ensures
        (seq![first] + rest).filter(wanted) == rest.filter(wanted),
    decreases rest.len(),
{
    reveal(Seq::filter);
    let all = seq![first] + rest;
    if rest.len() == 0 {
        assert(all.drop_last() =~= seq![]);
        assert(all.last() == first);
        assert(all.drop_last().filter(wanted) =~= seq![]);
        assert(rest.filter(wanted) =~= seq![]);
    } else {
        assert(all.drop_last() =~= seq![first] + rest.drop_last());
        assert(all.last() == rest.last());
        lemma_first_dropped(first, rest.drop_last(), wanted);
    }
}

// Status.

/// What kind of change two letters stand for.
pub proof fn codes_stand_for_changes(index: char, tree: char)
    ensures
        ({
            let code = seq![index, tree];
            let holds = |c: char| index == c || tree == c;
            let unmerged = index == 'U' || tree == 'U';
            let clash = (index == 'D' && tree == 'D') || (index == 'A' && tree == 'A') || (unmerged
                && (index == 'U' || index == 'A' || index == 'D') && (tree == 'U' || tree == 'A'
                || tree == 'D'));
            &&& kind_of(code) == GitStatusKind::Unmerged <==> clash
            &&& index == '?' && tree == '?' ==> kind_of(code) == GitStatusKind::Untracked
            &&& !clash && holds('R') ==> kind_of(code) == GitStatusKind::Renamed
            &&& !clash && holds('C') && !holds('R') ==> kind_of(code) == GitStatusKind::Copied
            &&& !clash && holds('A') && !holds('R') && !holds('C') ==> kind_of(code)
                == GitStatusKind::Added
            &&& !clash && holds('D') && !holds('R') && !holds('C') && !holds('A') ==> kind_of(code)
                == GitStatusKind::Deleted
            &&& !holds('U') && !holds('R') && !holds('C') && !holds('A') && !holds('D') && !holds('?')
                ==> kind_of(code) == GitStatusKind::Modified
        }),
{
    reveal_strlit("DD");
    reveal_strlit("AU");
    reveal_strlit("UD");
    reveal_strlit("UA");
    reveal_strlit("DU");
    reveal_strlit("AA");
    reveal_strlit("UU");
    reveal_strlit("??");
    let code = seq![index, tree];
    assert(code[0] == index && code[1] == tree);
    lemma_code(code, "DD"@);
    lemma_code(code, "AU"@);
    lemma_code(code, "UD"@);
    lemma_code(code, "UA"@);
    lemma_code(code, "DU"@);
    lemma_code(code, "AA"@);
    lemma_code(code, "UU"@);
    lemma_code(code, "??"@);
}

proof fn lemma_code(left: Seq<char>, right: Seq<char>)
    requires
        left.len() == 2,
        right.len() == 2,
    ensures
        left == right <==> left[0] == right[0] && left[1] == right[1],
{
    if left[0] == right[0] && left[1] == right[1] {
        assert(left =~= right);
    }
}

/// What a change is about: the file, and before it what it was called, where it was
/// called something else.
pub proof fn renamed_files_have_two_paths(entry: StatusView)
    ensures
        entry.original_path is None ==> paths_of(entry) == seq![entry.path] && shown_path(entry)
            == entry.path,
        entry.original_path matches Some(original) ==> paths_of(entry) == seq![
            original,
            entry.path,
        ] && shown_path(entry) == original + " -> "@ + entry.path,
{
}

proof fn lemma_open_fields(left: Seq<u8>, right: Seq<u8>)
    requires
        open_fields(left).1.len() == 0,
    ensures
        open_fields(left + right) == (
            open_fields(left).0 + open_fields(right).0,
            open_fields(right).1,
        ),
    decreases right.len(),
{
    let all = left + right;
    if right.len() == 0 {
        assert(all =~= left);
        assert(open_fields(left).0 + open_fields(right).0 =~= open_fields(left).0);
        assert(open_fields(left).1 =~= open_fields(right).1);
    } else {
        assert(all.drop_last() =~= left + right.drop_last());
        assert(all.last() == right.last());
        lemma_open_fields(left, right.drop_last());
        let (done, open) = open_fields(right.drop_last());
        if right.last() == 0 && open.len() > 0 {
            assert((open_fields(left).0 + done).push(open) =~= open_fields(left).0 + done.push(open));
        }
    }
}

proof fn lemma_plain_field(field: Seq<u8>)
    requires
        !field.contains(0u8),
    ensures
        open_fields(field) == (Seq::<Seq<u8>>::empty(), field),
    decreases field.len(),
{
    if field.len() > 0 {
        let rest = field.drop_last();
        assert(field.contains(field.last()));
        assert(!rest.contains(0u8)) by {
            if rest.contains(0u8) {
                let i = choose|i: int| 0 <= i < rest.len() && rest[i] == 0u8;
                assert(field[i] == 0u8);
            }
        }
        lemma_plain_field(rest);
        assert(rest.push(field.last()) =~= field);
    }
}

/// Fields are parted by zero bytes: one that is not empty is the first, and what
/// follows is read as if it stood alone.
pub proof fn fields_are_parted_by_zeros(field: Seq<u8>, rest: Seq<u8>)
    requires
        field.len() > 0,
        !field.contains(0u8),
    ensures
        fields(field + seq![0u8] + rest) == seq![field] + fields(rest),
        fields(field) == seq![field],
        fields(seq![0u8] + rest) == fields(rest),
        fields(Seq::<u8>::empty()) == Seq::<Seq<u8>>::empty(),
{
    let closed = field + seq![0u8];
    assert(closed.drop_last() =~= field);
    lemma_plain_field(field);
    assert(open_fields(closed) == (Seq::<Seq<u8>>::empty().push(field), Seq::<u8>::empty()));
    lemma_open_fields(closed, rest);
    let (done, open) = open_fields(rest);
    assert(Seq::<Seq<u8>>::empty().push(field) =~= seq![field]);
    if open.len() > 0 {
        assert((seq![field] + done).push(open) =~= seq![field] + done.push(open));
    }
    assert(fields(field) =~= seq![field]);
    let zero = seq![0u8];
    assert(zero.drop_last() =~= Seq::<u8>::empty());
    assert(open_fields(Seq::<u8>::empty()) == (Seq::<Seq<u8>>::empty(), Seq::<u8>::empty()));
    lemma_open_fields(zero, rest);
    assert(Seq::<Seq<u8>>::empty() + done =~= done);
    assert(open_fields(zero).0 =~= Seq::<Seq<u8>>::empty());
}

proof fn lemma_ascii_first(c: char, rest: Seq<char>)
    requires
        (c as u32) < 128,
    ensures
        encode_utf8(seq![c] + rest).len() == 1 + encode_utf8(rest).len(),
        encode_utf8(seq![c] + rest).skip(1) == encode_utf8(rest),
        encode_utf8(seq![c] + rest).take(1) == encode_utf8(seq![c]),
        pop_first_scalar(encode_utf8(seq![c] + rest)) == encode_utf8(rest),
        length_of_first_scalar(encode_utf8(seq![c] + rest)) == 1,
{
    let all = seq![c] + rest;
    assert(all.drop_first() =~= rest);
    assert(all[0] == c);
    encode_utf8_first_scalar(all);
    assert(encode_scalar(c as u32).len() == 1);
    let none = Seq::<char>::empty();
    assert(seq![c].drop_first() =~= none);
    assert(encode_utf8(none) =~= seq![]);
    assert(encode_utf8(all).skip(1) =~= encode_utf8(rest));
    assert(encode_utf8(all).take(1) =~= encode_utf8(seq![c]));
    assert(pop_first_scalar(encode_utf8(all)) =~= encode_utf8(rest));
}

/// A field of a status is two letters, a space and a path.
pub proof fn statuses_are_codes_and_paths(index: char, tree: char, path: Seq<char>)
    requires
        (index as u32) < 128,
        (tree as u32) < 128,
        path.len() > 0,
    ensures
        cut_field(seq![index, tree, ' '] + path) == Some((seq![index, tree], path)),
{
    let field = seq![index, tree, ' '] + path;
    let second = seq![tree] + (seq![' '] + path);
    let third = seq![' '] + path;
    assert(field =~= seq![index] + second);
    lemma_ascii_first(index, second);
    lemma_ascii_first(tree, third);
    lemma_ascii_first(' ', path);
    let bytes = encode_utf8(field);
    encode_utf8_valid_utf8(field);
    encode_utf8_valid_utf8(second);
    encode_utf8_valid_utf8(third);
    encode_utf8_valid_utf8(path);
    assert(encode_utf8(path).len() > 0) by {
        encode_utf8_first_scalar(path);
    }
    assert(is_char_boundary(encode_utf8(third), 0));
    assert(is_char_boundary(encode_utf8(path), 0));
    assert(is_char_boundary(encode_utf8(second), 1));
    assert(is_char_boundary(bytes, 2));
    assert(is_char_boundary(encode_utf8(third), 1));
    assert(is_char_boundary(encode_utf8(second), 2));
    assert(is_char_boundary(bytes, 3));
    assert(bytes.skip(3) =~= encode_utf8(path)) by {
        assert(bytes.skip(1).skip(1).skip(1) =~= bytes.skip(3));
    }
    let code = seq![index, tree];
    assert(code =~= seq![index] + seq![tree]);
    lemma_ascii_first(index, seq![tree]);
    assert(bytes.take(2) =~= encode_utf8(code)) by {
        assert(bytes[0] == encode_utf8(seq![index])[0]) by {
            assert(bytes.take(1)[0] == bytes[0]);
        }
        assert(encode_utf8(code)[0] == encode_utf8(seq![index])[0]) by {
            assert(encode_utf8(code).take(1)[0] == encode_utf8(code)[0]);
        }
        assert(encode_utf8(second)[0] == encode_utf8(seq![tree])[0]) by {
            assert(encode_utf8(second).take(1)[0] == encode_utf8(second)[0]);
        }
        assert(bytes[1] == bytes.skip(1)[0]);
        assert(encode_utf8(code)[1] == encode_utf8(code).skip(1)[0]);
        lemma_ascii_first(tree, Seq::empty());
        assert(seq![tree] + Seq::<char>::empty() =~= seq![tree]);
        assert(encode_utf8(Seq::<char>::empty()) =~= seq![]);
    }
    encode_utf8_decode_utf8(code);
    encode_utf8_decode_utf8(path);
}

/// Changes are read one by one; one that renames or copies a file takes the next
/// field too, which holds what the file was called before.
pub proof fn changes_are_read_one_by_one(
    index: char,
    tree: char,
    path: Seq<char>,
    original: Seq<char>,
    rest: Seq<Seq<char>>,
)
    requires
        (index as u32) < 128,
        (tree as u32) < 128,
        path.len() > 0,
    ensures
        entries_of(Seq::empty()) == Seq::<StatusView>::empty(),
        index != 'R' && index != 'C' ==> entries_of(
            seq![seq![index, tree, ' '] + path] + rest,
        ) == seq![StatusView { code: seq![index, tree], path, original_path: None }] + entries_of(
            rest,
        ),
        index == 'R' || index == 'C' ==> entries_of(
            seq![seq![index, tree, ' '] + path, original] + rest,
        ) == seq![
            StatusView { code: seq![index, tree], path, original_path: Some(original) },
        ] + entries_of(rest),
{
    statuses_are_codes_and_paths(index, tree, path);
    let field = seq![index, tree, ' '] + path;
    let one = seq![field] + rest;
    let two = seq![field, original] + rest;
    assert(one[0] == field && two[0] == field && two[1] == original);
    assert(one.drop_first() =~= rest);
    assert(two.skip(2) =~= rest);
    assert(seq![index, tree][0] == index);
    assert(has_original(seq![index, tree]) <==> index == 'R' || index == 'C');
}

/// A field that is too short to name a file is passed over.
pub proof fn short_fields_are_passed_over(field: Seq<char>, rest: Seq<Seq<char>>)
    requires
        encode_utf8(field).len() < 4,
    ensures
        entries_of(seq![field] + rest) == entries_of(rest),
{
    assert((seq![field] + rest).drop_first() =~= rest);
    assert((seq![field] + rest)[0] == field);
}

// Answers.

/// A command that succeeds answers with what it wrote, but for white space around
/// it; one that ends with 1 has no answer, and any other way to end is a failure,
/// which is told by what was complained of, else by what was written.
pub proof fn commands_answer_or_fail(
    label: Seq<char>,
    code: Option<i32>,
    status: Seq<char>,
    stdout: Seq<char>,
    stderr: Seq<char>,
)
    ensures
        code == Some(0i32) ==> answer_of(label, code, status, stdout, stderr) == Ok::<_, Seq<char>>(
            Some(trimmed(stdout)),
        ),
        code == Some(1i32) ==> answer_of(label, code, status, stdout, stderr) == Ok::<_, Seq<char>>(
            None::<Seq<char>>,
        ),
        code != Some(0i32) && code != Some(1i32) ==> answer_of(
            label,
            code,
            status,
            stdout,
            stderr,
        ) == Err::<Option<Seq<char>>, _>(failure_of(label, status, stdout, stderr)),
        trimmed(stderr).len() > 0 ==> failure_of(label, status, stdout, stderr) == label
            + " failed: "@ + trimmed(stderr),
        trimmed(stderr).len() == 0 && trimmed(stdout).len() > 0 ==> failure_of(
            label,
            status,
            stdout,
            stderr,
        ) == label + " failed: "@ + trimmed(stdout),
        trimmed(stderr).len() == 0 && trimmed(stdout).len() == 0 ==> failure_of(
            label,
            status,
            stdout,
            stderr,
        ) == label + " failed with status "@ + status,
{
}

// Policies.

/// Each policy stands in the directory of policies, under its name, and says what it
/// was written to say.
pub proof fn policies_have_their_place(root: Seq<char>, name: Seq<char>, content: Seq<char>)
    requires
        root.len() > 0,
        root.last() != '/',
        name.len() > 0,
        name[0] != '/',
    ensures
        policy_of(root, name, content).path == root + "/policies/"@ + name,
        policy_of(root, name, content).content.is_suffix_of(content),
{
    reveal_strlit("/");
    reveal_strlit("policies");
    reveal_strlit("/policies/");
    let dir = below(root, "policies"@);
    assert(dir =~= root + "/"@ + "policies"@);
    assert(below(dir, name) =~= root + "/policies/"@ + name);
    crate::text::lemma_trimmed_start(content);
    let kept = crate::text::trimmed_start(content);
    assert(content.subrange(content.len() - kept.len(), content.len() as int) =~= kept);
}

} // verus!
