//! What is read: labels, front matter, the files of memories, and the rows that
//! conflicts are kept in.

use vstd::prelude::*;

use crate::clock::TimeKind;
use crate::config::StorageMode;
use crate::conflict::{ConflictKind, ConflictStatus, ConflictView};
use crate::conflict_cache::{conflict_in, member_in, members_in, MemberRecordView, StoredView};
use crate::directive::Reading;
use crate::frontmatter::{
    delimiter_index, document_of, fields_of, field_of, list_field, scalar_field, Field,
};
use crate::memory::{markdown_files, memory_of, MemoryKind, MemoryScope, MemoryStatus, MemoryType};
use crate::order::{self, text_less, Ranked};
use crate::order_laws::{filtering_keeps_what_is_wanted, is_ranking, sorting_puts_in_rank};
use crate::path::extension_of;
use crate::search::{is_alphanumeric_char, term_flags, SearchMode};
use crate::text::{is_space, line_seq, trimmed};

verus! {

// Labels.

/// A label is read as what has that label, and no other text is read at all.
pub proof fn labels_are_read_exactly(value: Seq<char>)
    ensures
        MemoryType::of_name(value) matches Ok(read) ==> read.name() == value,
        MemoryScope::of_name(value) matches Ok(read) ==> read.name() == value,
        MemoryKind::of_name(value) matches Ok(read) ==> read.name() == value,
        MemoryStatus::of_name(value) matches Ok(read) ==> read.name() == value,
        ConflictKind::of_name(value) matches Ok(read) ==> read.name() == value,
        ConflictStatus::of_name(value) matches Ok(read) ==> read.name() == value,
        TimeKind::of_name(value) matches Ok(read) ==> read.name() == value,
        StorageMode::of_name(value) matches Ok(read) ==> read.name() == trimmed(value),
        SearchMode::of_name(value) matches Ok(read) ==> read.name() == trimmed(value),
{
}

/// Each label says what it is the label of.
pub proof fn labels_say_what_they_are(
    memory_type: MemoryType,
    status: MemoryStatus,
    kind: ConflictKind,
    state: ConflictStatus,
    storage: StorageMode,
    mode: SearchMode,
)
    ensures
        memory_type.name() == match memory_type {
            MemoryType::Short => "short"@,
            MemoryType::Long => "long"@,
        },
        status.name() == match status {
            MemoryStatus::Active => "active"@,
            MemoryStatus::Archived => "archived"@,
            MemoryStatus::Superseded => "superseded"@,
        },
        kind.name() == match kind {
            ConflictKind::ExactActiveDuplicate => "exact-active-duplicate"@,
            ConflictKind::ExclusiveCurrent => "exclusive-current-conflict"@,
        },
        state.name() == match state {
            ConflictStatus::Open => "open"@,
            ConflictStatus::Accepted => "accepted"@,
            ConflictStatus::Reopened => "reopened"@,
        },
        storage.name() == match storage {
            StorageMode::Local => "local"@,
            StorageMode::Obsidian => "obsidian"@,
            StorageMode::Git => "git"@,
        },
        mode.name() == match mode {
            SearchMode::Auto => "auto"@,
            SearchMode::Grep => "grep"@,
            SearchMode::Bm25 => "bm25"@,
            SearchMode::Vector => "vector"@,
            SearchMode::All => "all"@,
        },
{
}

// Front matter.

proof fn lemma_delimiter_index(lines: Seq<Seq<char>>)
    ensures
        0 <= delimiter_index(lines) <= lines.len(),
        delimiter_index(lines) < lines.len() <==> lines.contains("---"@),
    decreases lines.len(),
{
    if lines.len() > 0 {
        let rest = lines.drop_first();
        lemma_delimiter_index(rest);
        if lines[0] != "---"@ {
            if lines.contains("---"@) {
                let i = choose|i: int| 0 <= i < lines.len() && lines[i] == "---"@;
                assert(rest[i - 1] == "---"@);
            }
            if rest.contains("---"@) {
                let i = choose|i: int| 0 <= i < rest.len() && rest[i] == "---"@;
                assert(lines[i + 1] == "---"@);
            }
        }
    }
}

/// A document has to begin with a line of dashes, and to have another.
pub proof fn documents_need_their_dashes(raw: Seq<char>)
    requires
        document_of(raw) is Ok,
    ensures
        line_seq(raw).len() >= 2,
        line_seq(raw)[0] == "---"@,
        line_seq(raw).drop_first().contains("---"@),
{
    lemma_delimiter_index(line_seq(raw).drop_first());
}

/// A line of front matter is a key, a colon and a value, and no key comes twice;
/// white space around them does not count.
pub proof fn lines_are_keys_and_values(
    key: Seq<char>,
    value: Seq<char>,
    rest: Seq<Seq<char>>,
    number: nat,
    known: Map<Seq<char>, Field>,
)
    requires
        key.len() > 0,
        !key.contains(':'),
        trimmed(key) == key,
        !is_space(key[0]),
        value.len() > 0,
        !is_space(value.last()),
    ensures
        known.contains_key(key) ==> fields_of(
            seq![key + seq![':'] + value] + rest,
            number,
            known,
        ) is Err,
        !known.contains_key(key) ==> fields_of(
            seq![key + seq![':'] + value] + rest,
            number,
            known,
        ) == fields_of(rest, number + 1, known.insert(key, field_of(trimmed(value)))),
        fields_of(Seq::empty(), number, known) == Ok::<_, Seq<char>>(known),
        fields_of(seq![key] + rest, number, known) is Err,
{
    let line = key + seq![':'] + value;
    let lines = seq![line] + rest;
    assert(lines[0] == line);
    assert(lines.drop_first() =~= rest);
    assert(line[0] == key[0]);
    assert(line.last() == value.last());
    crate::text_laws::trimmed_of_tight(line);
    crate::letter_laws::texts_are_split_at_the_first(key, ':', value);
    let bare = seq![key] + rest;
    assert(bare[0] == key);
}

/// A value in square brackets is a list, the word for nothing is nothing, and other
/// values are texts; quotes make a text of anything.
pub proof fn values_are_told_by_their_marks(value: Seq<char>)
    ensures
        value.len() >= 2 && value[0] == '"' && value.last() == '"' ==> field_of(value) is Scalar,
        value.len() >= 2 && value[0] == '\'' && value.last() == '\'' ==> field_of(value) is Scalar,
        value == "null"@ ==> field_of(value) is Null,
        value.len() >= 1 && value[0] == '[' && value.last() == ']' ==> field_of(value) is List,
        value.len() > 0 && value != "null"@ && value[0] != '[' ==> field_of(value) is Scalar,
        value.len() > 0 && value != "null"@ && value[0] != '[' && value[0] != '"' && value[0] != '\''
            && !is_space(value[0]) && !is_space(value.last()) ==> field_of(value) == Field::Scalar(
            value,
        ),
{
    reveal_strlit("null");
    if value.len() > 0 && !is_space(value[0]) && !is_space(value.last()) {
        crate::text_laws::trimmed_of_tight(value);
    }
}

// Memories.

/// A memory that is read says what its file says: each field under its key, and
/// what must not be missing is there.
pub proof fn memories_say_what_their_files_say(raw: Seq<char>, path: Seq<char>)
    requires
        memory_of(raw, path) is Ok,
    ensures
        document_of(raw) is Ok,
        ({
            let (fields, body) = document_of(raw)->Ok_0;
            let memory = memory_of(raw, path)->Ok_0;
            let said = memory.metadata;
            let field = |key: Seq<char>| scalar_field(fields, key);
            &&& memory.body == body
            &&& memory.path == Some(path)
            &&& trimmed(said.id).len() > 0 && trimmed(body).len() > 0
            &&& field("id"@) == Ok::<_, Seq<char>>(Some(said.id))
            &&& field("type"@) == Ok::<_, Seq<char>>(Some(said.memory_type.name()))
            &&& field("scope"@) == Ok::<_, Seq<char>>(Some(said.scope.name()))
            &&& field("kind"@) == Ok::<_, Seq<char>>(Some(said.kind.name()))
            &&& field("status"@) == Ok::<_, Seq<char>>(Some(said.status.name()))
            &&& field("created_at"@) == Ok::<_, Seq<char>>(Some(said.created_at))
            &&& field("updated_at"@) == Ok::<_, Seq<char>>(Some(said.updated_at))
            &&& field("title"@) == Ok::<_, Seq<char>>(said.title)
            &&& field("source"@) == Ok::<_, Seq<char>>(said.source)
            &&& field("source_id"@) == Ok::<_, Seq<char>>(said.source_id)
            &&& field("agent"@) == Ok::<_, Seq<char>>(said.agent)
            &&& field("session"@) == Ok::<_, Seq<char>>(said.session)
            &&& field("confidence"@) == Ok::<_, Seq<char>>(said.confidence)
            &&& field("promoted_from"@) == Ok::<_, Seq<char>>(said.promoted_from)
            &&& said.tags == list_field(fields, "tags"@)
            &&& said.supersedes == list_field(fields, "supersedes"@)
        }),
{
    let (fields, body) = document_of(raw)->Ok_0;
    let said = memory_of(raw, path)->Ok_0.metadata;
    labels_are_read_exactly(scalar_field(fields, "type"@)->Ok_0->Some_0);
    labels_are_read_exactly(scalar_field(fields, "scope"@)->Ok_0->Some_0);
    labels_are_read_exactly(scalar_field(fields, "kind"@)->Ok_0->Some_0);
    labels_are_read_exactly(scalar_field(fields, "status"@)->Ok_0->Some_0);
}

/// The files that are looked into are the Markdown files, in order.
pub proof fn markdown_files_are_looked_into(paths: Seq<Seq<char>>, path: Seq<char>)
    ensures
        markdown_files(paths).contains(path) <==> paths.contains(path) && extension_of(path)
            == Some("md"@),
        forall|i: int, j: int|
            0 <= i < j < markdown_files(paths).len() ==> !text_less(
                #[trigger] markdown_files(paths)[j],
                #[trigger] markdown_files(paths)[i],
            ),
{
    let wanted = |path: Seq<char>| extension_of(path) == Some("md"@);
    let less = |left: Seq<char>, right: Seq<char>| String::ranks_before(left, right);
    filtering_keeps_what_is_wanted(paths, wanted);
    order::lemma_sorted_members(paths.filter(wanted), less);
    assert(markdown_files(paths).contains(path) <==> paths.filter(wanted).contains(path));
    assert(is_ranking(less)) by {
        assert forall|a: Seq<char>, b: Seq<char>| #[trigger] less(a, b) implies !less(b, a) by {
            order::text_less_is_total(a, b);
        }
        assert forall|a: Seq<char>, b: Seq<char>, c: Seq<char>|
            !(#[trigger] less(b, a)) && !(#[trigger] less(c, b)) implies !less(c, a) by {
            order::text_less_is_total(b, a);
            order::text_less_is_total(c, b);
            if text_less(c, a) && text_less(a, b) {
                order::text_less_is_transitive(c, a, b);
            }
        }
    }
    sorting_puts_in_rank(paths.filter(wanted), less);
    let all = markdown_files(paths);
    assert forall|i: int, j: int| 0 <= i < j < all.len() implies !text_less(
        #[trigger] all[j],
        #[trigger] all[i],
    ) by {
        assert(!less(all[j], all[i]));
    }
}

/// Letters, digits and underscores belong to the terms of a query.
pub proof fn terms_are_made_of_letters(query: Seq<char>, i: int)
    requires
        0 <= i < query.len(),
    ensures
        term_flags(query).len() == query.len(),
        term_flags(query)[i] == (is_alphanumeric_char(query[i]) || query[i] == '_'),
{
}

// Rows.

proof fn lemma_members_in(records: Seq<MemberRecordView>, id: Seq<char>)
    requires
        members_in(records, id) is Ok,
    ensures
        members_in(records, id)->Ok_0.len() == records.len(),
        forall|i: int|
            0 <= i < records.len() ==> member_in(#[trigger] records[i], id, i as nat) == Ok::<
                _,
                Seq<char>,
            >(members_in(records, id)->Ok_0[i]),
    decreases records.len(),
{
    if records.len() > 0 {
        let rest = records.drop_last();
        lemma_members_in(rest, id);
        assert(records[records.len() - 1] == records.last());
        assert forall|i: int| 0 <= i < records.len() implies member_in(
            #[trigger] records[i],
            id,
            i as nat,
        ) == Ok::<_, Seq<char>>(members_in(records, id)->Ok_0[i]) by {
            if i < rest.len() {
                assert(rest[i] == records[i]);
            }
        }
    }
}

/// A conflict that is read from its rows is what they say, and makes sense: it has
/// two members or more, rests on facts where it is about facts and on none where it
/// is not, and is decided exactly where a decision is there.
pub proof fn read_conflicts_make_sense(stored: StoredView, conflict: ConflictView)
    requires
        conflict_in(stored, None, None, true) == Ok::<_, Seq<char>>(Some(conflict)),
    ensures
        conflict.id == stored.record.id,
        conflict.kind.name() == stored.record.kind,
        conflict.status.name() == stored.record.status,
        conflict.scope.name() == stored.record.scope,
        conflict.evidence_hash == stored.record.evidence_hash,
        conflict.subject_id == stored.record.subject_id,
        conflict.subject == stored.record.subject,
        conflict.relation == stored.record.relation,
        conflict.members.len() == stored.members.len(),
        conflict.members.len() >= 2,
        conflict.acceptance is Some <==> conflict.status != ConflictStatus::Open,
        conflict.status == ConflictStatus::Accepted ==> conflict.acceptance->Some_0.evidence_hash
            == conflict.evidence_hash,
        conflict.status == ConflictStatus::Reopened ==> conflict.acceptance->Some_0.evidence_hash
            != conflict.evidence_hash,
        conflict.acceptance matches Some(acceptance) ==> stored.record.decision == Some(
            "keep-both"@,
        ) && stored.record.accepted_evidence_hash == Some(acceptance.evidence_hash)
            && stored.record.accepted_at == Some(acceptance.accepted_at) && stored.record.reason
            == acceptance.reason,
        forall|i: int|
            0 <= i < conflict.members.len() ==> ((#[trigger] conflict.members[i]).fact is Some
                <==> conflict.kind == ConflictKind::ExclusiveCurrent),
        conflict.kind == ConflictKind::ExclusiveCurrent <==> conflict.subject_id is Some,
        conflict.kind == ConflictKind::ExclusiveCurrent <==> conflict.relation is Some,
{
    labels_are_read_exactly(stored.record.kind);
    labels_are_read_exactly(stored.record.status);
    labels_are_read_exactly(stored.record.scope);
    lemma_members_in(stored.members, stored.record.id);
    assert forall|i: int| 0 <= i < conflict.members.len() implies ((
    #[trigger] conflict.members[i]).fact is Some <==> conflict.kind
        == ConflictKind::ExclusiveCurrent) by {
        match conflict.kind {
            ConflictKind::ExactActiveDuplicate => {
                assert(!crate::conflict_cache::some_member(conflict.members, true));
            },
            ConflictKind::ExclusiveCurrent => {
                assert(!crate::conflict_cache::some_member(conflict.members, false));
            },
        }
    }
}

/// A member that is read from its row is what the row says, and stands in its place;
/// a row that says something of a fact, but not which, is refused.
pub proof fn read_members_make_sense(record: MemberRecordView, id: Seq<char>, count: nat)
    requires
        count <= i64::MAX,
    ensures
        member_in(record, id, count) matches Ok(member) ==> {
            &&& record.ordinal == count
            &&& member.memory_id == record.memory_id
            &&& member.memory_path == record.memory_path
            &&& member.memory_title == record.memory_title
            &&& member.excerpt == record.excerpt
            &&& member.fact is Some <==> record.fact_id is Some
            &&& member.fact matches Some(fact) ==> {
                &&& record.fact_id == Some(fact.id)
                &&& record.object_id == fact.object_id
                &&& record.object_value == Some(fact.object_value)
                &&& record.valid_from == fact.valid_from
                &&& record.valid_to == fact.valid_to
                &&& record.learned_at == Some(fact.learned_at)
                &&& record.expired_at == fact.expired_at
                &&& fact.line_number >= 1
                &&& record.line_number is Some && record.line_number->Some_0 == fact.line_number
                &&& fact.confidence is Some <==> record.confidence is Some
                &&& fact.confidence matches Some(value) ==> record.confidence == Some(
                    Reading::InRange(value),
                )
            }
        },
        record.fact_id is None && (record.object_value is Some || record.object_id is Some
            || record.learned_at is Some || record.line_number is Some || record.confidence is Some
            || record.valid_from is Some || record.valid_to is Some || record.expired_at is Some)
            ==> member_in(record, id, count) is Err,
{
}

} // verus!
