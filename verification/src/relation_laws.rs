//! What each relation means: which there are, and which exclude.

use vstd::prelude::*;

use crate::conflict::{conflicts_at, exclusives_of, Conflict, ConflictKind, ConflictView};
use crate::conflict_laws::Extractions;
use crate::detection_laws::{found_duplicates_say_the_same, found_facts_exclude_each_other};
use crate::memory::MemoryView;
use crate::order::{self, sorted_by, Ranked};
use crate::review::{action_for, ReviewAction};
use crate::semantic::{
    is_exclusive, normal_relation, object_kind_of, relation_index, relation_key, relation_named,
    relation_table, RelationView,
};
use crate::text::trimmed;

verus! {

/// The names of the relations, in order.
spec fn names() -> Seq<Seq<char>> {
    seq![
        "PREFERS"@,
        "DISLIKES"@,
        "USES"@,
        "WORKS_AT"@,
        "HAS_PROJECT"@,
        "PART_OF"@,
        "SUPERSEDES"@,
        "MENTIONS"@,
    ]
}

proof fn lemma_names()
    ensures
        forall|i: int, j: int| 0 <= i < j < 8 ==> #[trigger] names()[i] != #[trigger] names()[j],
{
    reveal_strlit("PREFERS");
    reveal_strlit("DISLIKES");
    reveal_strlit("USES");
    reveal_strlit("WORKS_AT");
    reveal_strlit("HAS_PROJECT");
    reveal_strlit("PART_OF");
    reveal_strlit("SUPERSEDES");
    reveal_strlit("MENTIONS");
    assert("PREFERS"@[1] != "PART_OF"@[1]);
    assert("DISLIKES"@[0] != "WORKS_AT"@[0]);
    assert("DISLIKES"@[0] != "MENTIONS"@[0]);
    assert("WORKS_AT"@[0] != "MENTIONS"@[0]);
    assert forall|i: int, j: int| 0 <= i < j < 8 implies #[trigger] names()[i]
        != #[trigger] names()[j] by {
        if names()[i].len() == names()[j].len() {
            assert(names()[i][0] != names()[j][0] || names()[i][1] != names()[j][1]);
        }
    }
}

proof fn lemma_index(table: Seq<RelationView>, name: Seq<char>, at: int)
    requires
        0 <= at <= table.len(),
        forall|i: int| 0 <= i < at ==> (#[trigger] table[i]).name != name,
        at < table.len() ==> table[at].name == name,
    ensures
        relation_index(table, name) == at,
    decreases at,
{
    if at > 0 {
        let rest = table.drop_first();
        assert forall|i: int| 0 <= i < at - 1 implies (#[trigger] rest[i]).name != name by {
            assert(rest[i] == table[i + 1]);
        }
        assert(table[0].name != name);
        lemma_index(rest, name, at - 1);
    }
}

proof fn lemma_named(name: Seq<char>)
    ensures
        forall|i: int| 0 <= i < 8 && name == #[trigger] names()[i] ==> relation_named(name) == Some(
            relation_table()[i],
        ),
        (forall|i: int| 0 <= i < 8 ==> name != #[trigger] names()[i]) ==> relation_named(name)
            is None,
{
    let table = relation_table();
    lemma_names();
    assert forall|i: int| 0 <= i < 8 implies (#[trigger] table[i]).name == names()[i] by {}
    assert forall|i: int| 0 <= i < 8 && name == #[trigger] names()[i] implies relation_named(name)
        == Some(table[i]) by {
        assert forall|j: int| 0 <= j < i implies (#[trigger] table[j]).name != name by {
            assert(names()[j] != names()[i]);
        }
        lemma_index(table, name, i);
    }
    if forall|i: int| 0 <= i < 8 ==> name != #[trigger] names()[i] {
        assert forall|j: int| 0 <= j < 8 implies (#[trigger] table[j]).name != name by {
            assert(names()[j] != name);
        }
        lemma_index(table, name, 8);
    }
}

proof fn lemma_words()
    ensures
        "exclusive-current"@ != "multi-current"@,
        "usually-exclusive-current"@ != "multi-current"@,
        "usually-exclusive-current"@ != "exclusive-current"@,
        "review-close-previous"@ != "review"@,
        "review-close-previous"@ != "none"@,
{
    reveal_strlit("exclusive-current");
    reveal_strlit("usually-exclusive-current");
    reveal_strlit("multi-current");
    reveal_strlit("review-close-previous");
    reveal_strlit("review");
    reveal_strlit("none");
    assert("exclusive-current"@.len() == 17 && "multi-current"@.len() == 13);
    assert("usually-exclusive-current"@.len() == 25);
    assert("review-close-previous"@.len() == 21 && "review"@.len() == 6 && "none"@.len() == 4);
}

/// There are eight relations, each under its own name, and no others.
pub proof fn eight_relations_are_known(name: Seq<char>)
    ensures
        relation_named(name) is Some <==> name == "PREFERS"@ || name == "DISLIKES"@ || name
            == "USES"@ || name == "WORKS_AT"@ || name == "HAS_PROJECT"@ || name == "PART_OF"@
            || name == "SUPERSEDES"@ || name == "MENTIONS"@,
        relation_named(name) matches Some(spec) ==> spec.name == name,
{
    lemma_named(name);
    assert(names()[0] == "PREFERS"@ && names()[1] == "DISLIKES"@ && names()[2] == "USES"@);
    assert(names()[3] == "WORKS_AT"@ && names()[4] == "HAS_PROJECT"@ && names()[5] == "PART_OF"@);
    assert(names()[6] == "SUPERSEDES"@ && names()[7] == "MENTIONS"@);
    if relation_named(name) is Some {
        let i = choose|i: int| 0 <= i < 8 && name == #[trigger] names()[i];
        assert(relation_table()[i].name == names()[i]);
    }
}

/// A subject prefers one thing and works at one place at a time; of everything
/// else it can have many.
pub proof fn preferences_and_employers_exclude(relation: Seq<char>)
    ensures
        is_exclusive(relation) <==> relation == "PREFERS"@ || relation == "WORKS_AT"@,
{
    lemma_named(relation);
    lemma_words();
    eight_relations_are_known(relation);
    assert(names()[0] == "PREFERS"@ && names()[1] == "DISLIKES"@ && names()[2] == "USES"@);
    assert(names()[3] == "WORKS_AT"@ && names()[4] == "HAS_PROJECT"@ && names()[5] == "PART_OF"@);
    assert(names()[6] == "SUPERSEDES"@ && names()[7] == "MENTIONS"@);
    lemma_names();
}

/// What a fact of a review is worth: one that says the same is added to, one
/// that excludes the other replaces it, and others stand side by side.
pub proof fn only_exclusive_facts_supersede(relation: Seq<char>, same_object: bool)
    ensures
        action_for(relation, same_object).0 == ReviewAction::Append <==> same_object,
        action_for(relation, same_object).0 == ReviewAction::Supersede <==> !same_object && (
        relation == "PREFERS"@ || relation == "WORKS_AT"@),
        action_for(relation, same_object).0 == ReviewAction::Add <==> !same_object && relation
            != "PREFERS"@ && relation != "WORKS_AT"@,
{
    lemma_named(relation);
    lemma_words();
    eight_relations_are_known(relation);
    assert(names()[0] == "PREFERS"@ && names()[1] == "DISLIKES"@ && names()[2] == "USES"@);
    assert(names()[3] == "WORKS_AT"@ && names()[4] == "HAS_PROJECT"@ && names()[5] == "PART_OF"@);
    assert(names()[6] == "SUPERSEDES"@ && names()[7] == "MENTIONS"@);
    lemma_names();
}

/// A relation that is read is one of those there are, and how its name is
/// written does not matter: in which case, and with blanks or hyphens in place
/// of underscores.
pub proof fn relations_are_read_by_their_key(value: Seq<char>, other: Seq<char>)
    ensures
        match normal_relation(value) {
            Ok(name) => name == relation_key(value) && relation_named(name) is Some,
            Err(_) => relation_named(relation_key(value)) is None,
        },
        relation_key(value) == relation_key(other) && normal_relation(value) is Ok
            ==> normal_relation(value) == normal_relation(other),
{
    eight_relations_are_known(relation_key(value));
}

/// Conflicts of facts are about preferences and employers only: nothing is
/// found about things disliked, used, mentioned or had in any other way, however
/// many there are.
pub proof fn conflicts_are_about_exclusive_relations(
    memories: Seq<MemoryView>,
    extractions: Extractions,
    at: int,
    k: int,
)
    requires
        conflicts_at(memories, extractions, at) is Ok,
        0 <= k < conflicts_at(memories, extractions, at)->Ok_0.len(),
    ensures
        ({
            let conflict = conflicts_at(memories, extractions, at)->Ok_0[k];
            match conflict.kind {
                ConflictKind::ExactActiveDuplicate => true,
                ConflictKind::ExclusiveCurrent => conflict.relation == Some("PREFERS"@)
                    || conflict.relation == Some("WORKS_AT"@),
            }
        }),
{
    let before = |left: ConflictView, right: ConflictView| Conflict::ranks_before(left, right);
    let duplicates = crate::conflict::duplicates_of(memories);
    let exclusives = exclusives_of(memories, extractions, at)->Ok_0;
    let found = duplicates + exclusives;
    let sorted = conflicts_at(memories, extractions, at)->Ok_0;
    assert(sorted == sorted_by(found, before));
    order::lemma_sorted_members(found, before);
    assert(sorted.contains(sorted[k]));
    let i = choose|i: int| 0 <= i < found.len() && found[i] == sorted[k];
    if i < duplicates.len() {
        assert(found[i] == duplicates[i]);
        let content = found_duplicates_say_the_same(memories, i);
    } else {
        assert(found[i] == exclusives[i - duplicates.len()]);
        let facts = found_facts_exclude_each_other(
            memories,
            extractions,
            at,
            i - duplicates.len(),
        );
        assert(is_exclusive(facts[0].relation));
        preferences_and_employers_exclude(facts[0].relation);
    }
}

/// How a relation is written does not matter to what it is: blanks and hyphens stand
/// for underscores, and small letters for capital ones.
pub proof fn relations_are_written_alike(value: Seq<char>)
    ensures
        relation_key(value) == trimmed(value).map_values(
            |c: char|
                if c == ' ' || c == '-' {
                    '_'
                } else if 'a' <= c <= 'z' {
                    (c as u8 - 32) as char
                } else {
                    c
                },
        ),
{
    assert(relation_key(value) =~= trimmed(value).map_values(
        |c: char|
            if c == ' ' || c == '-' {
                '_'
            } else if 'a' <= c <= 'z' {
                (c as u8 - 32) as char
            } else {
                c
            },
    ));
}

/// The objects of a relation are of the kind that it is about.
pub proof fn objects_have_their_kinds(relation: Seq<char>)
    ensures
        relation == "PREFERS"@ || relation == "DISLIKES"@ ==> object_kind_of(relation)
            == "preference"@,
        relation == "USES"@ ==> object_kind_of(relation) == "tool"@,
        relation == "WORKS_AT"@ ==> object_kind_of(relation) == "organization"@,
        relation == "HAS_PROJECT"@ ==> object_kind_of(relation) == "project"@,
        relation == "PART_OF"@ || relation == "SUPERSEDES"@ || relation == "MENTIONS"@
            ==> object_kind_of(relation) == "entity"@,
        relation_named(relation) is None ==> object_kind_of(relation) == "entity"@,
{
    lemma_named(relation);
    assert(names()[0] == "PREFERS"@ && names()[1] == "DISLIKES"@ && names()[2] == "USES"@);
    assert(names()[3] == "WORKS_AT"@ && names()[4] == "HAS_PROJECT"@ && names()[5] == "PART_OF"@);
    assert(names()[6] == "SUPERSEDES"@ && names()[7] == "MENTIONS"@);
    let table = relation_table();
    assert(table[0].object_kind == "preference"@ && table[1].object_kind == "preference"@);
    assert(table[2].object_kind == "tool"@ && table[3].object_kind == "organization"@);
    assert(table[4].object_kind == "project"@ && table[5].object_kind == "entity"@);
    assert(table[6].object_kind == "entity"@ && table[7].object_kind == "entity"@);
}

} // verus!
