use rem::acceptance::{
    accept, apply_acceptance_map, apply_acceptances, ensure_regular_decision_path, has_decision_directory,
    parse_acceptance, render_acceptance,
    validate_reason, DecisionContent, DecisionFile,
};
use rem::conflict::{detect_at, Conflict, ConflictAcceptance, ConflictKind, ConflictStatus};
use rem::conflict_cache::{
    conflict_rows, count, find, find_exact, index_has_schema, open_index, query, query_all,
    StoredConflict,
};
use rem::directive::{ConfidenceReading, ConfidenceTable};
use rem::memory::{Memory, MemoryKind, MemoryMetadata, MemoryScope, MemoryStatus, MemoryType};
use rem::resolution::{expire_memory, plan_resolution, resolution_message, select_member_id};
use rem::semantic::{extract, SemanticExtraction};
use rem::workspace::PathState;

fn memory(id: &str, scope: MemoryScope, status: MemoryStatus, body: &str) -> Memory {
    Memory {
        metadata: MemoryMetadata {
            id: id.to_string(),
            memory_type: MemoryType::Long,
            scope,
            kind: MemoryKind::Fact,
            status,
            created_at: "1".to_string(),
            updated_at: "1".to_string(),
            tags: Vec::new(),
            title: None,
            source: Some("test".to_string()),
            source_id: None,
            agent: None,
            session: None,
            confidence: Some("1.0".to_string()),
            promoted_from: None,
            supersedes: Vec::new(),
        },
        body: body.to_string(),
        path: Some(format!("/vault/memories/long/{id}.md")),
    }
}

fn table() -> ConfidenceTable {
    let mut table = ConfidenceTable::new();
    table.insert("1.0".to_string(), ConfidenceReading::InRange("1".to_string()));
    table
}

fn extractions(memories: &[Memory]) -> Vec<(String, SemanticExtraction)> {
    memories
        .iter()
        .map(|memory| (memory.metadata.id.clone(), extract(memory, &table()).unwrap()))
        .collect()
}

/// Two memories that prefer different editors.
fn editors() -> Vec<Memory> {
    vec![
        memory(
            "a",
            MemoryScope::User,
            MemoryStatus::Active,
            "# A\n@fact User | PREFERS | Vim | valid_from=1",
        ),
        memory(
            "b",
            MemoryScope::User,
            MemoryStatus::Active,
            "# B\n@fact User | PREFERS | Helix | valid_from=1",
        ),
    ]
}

fn stored(conflicts: &[Conflict]) -> Vec<StoredConflict> {
    conflicts.iter().map(conflict_rows).collect()
}

#[test]
fn exact_duplicates_are_scope_status_and_order_aware() {
    let first = memory("a", MemoryScope::Project, MemoryStatus::Active, "# Same\r\nbody\r\n");
    let second = memory("b", MemoryScope::Project, MemoryStatus::Active, "# Same\nbody");
    let other_scope = memory("c", MemoryScope::User, MemoryStatus::Active, "# Same\nbody");
    let archived = memory("d", MemoryScope::Project, MemoryStatus::Archived, "# Same\nbody");
    let memories = vec![first.clone(), archived, second.clone(), other_scope, first.clone()];
    let conflicts = detect_at(&memories, &Vec::new(), 100).unwrap();

    assert_eq!(conflicts.len(), 1);
    assert_eq!(conflicts[0].kind, ConflictKind::ExactActiveDuplicate);
    assert_eq!(conflicts[0].scope, MemoryScope::Project);
    assert_eq!(
        conflicts[0].members.iter().map(|member| member.memory_id.as_str()).collect::<Vec<_>>(),
        ["a", "b"]
    );
    assert!(conflicts[0].id.starts_with("conflict-"));
    assert_eq!(conflicts[0].status, ConflictStatus::Open);
    assert!(conflicts[0].evidence_hash.starts_with("evidence-"));

    let reversed = memories.into_iter().rev().collect::<Vec<_>>();
    assert_eq!(conflicts, detect_at(&reversed, &Vec::new(), 100).unwrap());
}

#[test]
fn exclusive_current_conflicts_are_grouped_with_stable_evidence() {
    let first = memory(
        "a",
        MemoryScope::User,
        MemoryStatus::Active,
        "# Editor A\n@fact User | PREFERS | Vim | valid_from=1",
    );
    let second = memory(
        "b",
        MemoryScope::User,
        MemoryStatus::Active,
        "# Editor B\n@fact user | prefers | Helix | valid_from=2",
    );
    let memories = vec![second.clone(), first.clone()];
    let conflicts = detect_at(&memories, &extractions(&memories), 100).unwrap();

    assert_eq!(conflicts.len(), 1);
    let conflict = &conflicts[0];
    assert_eq!(conflict.kind, ConflictKind::ExclusiveCurrent);
    assert_eq!(conflict.scope, MemoryScope::User);
    assert_eq!(conflict.subject.as_deref(), Some("User"));
    assert_eq!(conflict.relation.as_deref(), Some("PREFERS"));
    assert_eq!(
        conflict
            .members
            .iter()
            .map(|member| member.fact.as_ref().unwrap().object_value.as_str())
            .collect::<Vec<_>>(),
        ["Vim", "Helix"]
    );
    assert!(conflict.members.iter().all(|member| !member.excerpt.is_empty()));

    let third = memory(
        "c",
        MemoryScope::User,
        MemoryStatus::Active,
        "# Editor C\n@fact User | PREFERS | Emacs | valid_from=3",
    );
    let expanded = vec![first, second, third];
    let expanded_conflicts = detect_at(&expanded, &extractions(&expanded), 100).unwrap();
    assert_eq!(expanded_conflicts.len(), 1);
    assert_eq!(expanded_conflicts[0].id, conflict.id);
    assert_eq!(expanded_conflicts[0].members.len(), 3);
    assert_ne!(expanded_conflicts[0].evidence_hash, conflict.evidence_hash);
}

#[test]
fn acceptance_matches_exact_evidence_and_reopens_after_change() {
    let memories = editors();
    let mut conflicts = detect_at(&memories, &extractions(&memories), 100).unwrap();
    let conflict_id = conflicts[0].id.clone();
    let accepted = ConflictAcceptance {
        evidence_hash: conflicts[0].evidence_hash.clone(),
        accepted_at: "100".to_string(),
        reason: Some("intentional alternatives".to_string()),
    };
    apply_acceptance_map(&mut conflicts, &vec![(conflict_id.clone(), accepted.clone())]);
    assert_eq!(conflicts[0].status, ConflictStatus::Accepted);
    assert_eq!(conflicts[0].acceptance.as_ref(), Some(&accepted));

    let mut changed = conflicts.clone();
    let stale = ConflictAcceptance {
        evidence_hash: "evidence-0000000000000000".to_string(),
        ..accepted
    };
    apply_acceptance_map(&mut changed, &vec![(conflict_id, stale.clone())]);
    assert_eq!(changed[0].status, ConflictStatus::Reopened);
    assert_eq!(changed[0].acceptance.as_ref(), Some(&stale));
}

#[test]
fn acceptance_markdown_round_trips_strictly() {
    let conflict_id = "conflict-0123456789abcdef";
    let path = "conflict-0123456789abcdef.md";
    let acceptance = ConflictAcceptance {
        evidence_hash: "evidence-fedcba9876543210".to_string(),
        accepted_at: "100".to_string(),
        reason: Some("both remain valid".to_string()),
    };
    let raw = render_acceptance(conflict_id, &acceptance);

    assert_eq!(parse_acceptance(path, &raw).unwrap(), (conflict_id.to_string(), acceptance));
    assert!(parse_acceptance("conflict-1111111111111111.md", &raw)
        .unwrap_err()
        .message()
        .contains("does not match"));
    let unknown = raw.replacen("---\n", "---\nextra: rejected\n", 1);
    assert!(parse_acceptance(path, &unknown).unwrap_err().message().contains("unknown field"));
    assert!(validate_reason(Some("line\nfeed")).is_err());
    assert!(validate_reason(Some("escape\u{1b}")).is_err());
}

#[test]
fn same_object_multi_current_scope_and_inactive_memories_do_not_conflict() {
    let memories = vec![
        memory(
            "same-a",
            MemoryScope::User,
            MemoryStatus::Active,
            "# Same A\n@fact User | PREFERS | Vim | valid_from=1",
        ),
        memory(
            "same-b",
            MemoryScope::User,
            MemoryStatus::Active,
            "# Same B\n@fact user | prefers | vim | valid_from=2",
        ),
        memory(
            "other-scope",
            MemoryScope::Project,
            MemoryStatus::Active,
            "# Other scope\n@fact User | PREFERS | Helix | valid_from=1",
        ),
        memory(
            "tool-a",
            MemoryScope::User,
            MemoryStatus::Active,
            "# Tool A\n@fact User | USES | Git | valid_from=1",
        ),
        memory(
            "tool-b",
            MemoryScope::User,
            MemoryStatus::Active,
            "# Tool B\n@fact User | USES | SQLite | valid_from=1",
        ),
        memory(
            "superseded",
            MemoryScope::User,
            MemoryStatus::Superseded,
            "# Old\n@fact User | PREFERS | Emacs | valid_from=1",
        ),
    ];

    assert!(detect_at(&memories, &extractions(&memories), 100).unwrap().is_empty());
}

#[test]
fn value_objects_normalize_but_mixed_entity_value_evidence_stays_conservative() {
    let values = vec![
        memory(
            "value-a",
            MemoryScope::User,
            MemoryStatus::Active,
            "# Value A\n@fact User | PREFERS | Vim | object_kind=value | valid_from=1",
        ),
        memory(
            "value-b",
            MemoryScope::User,
            MemoryStatus::Active,
            "# Value B\n@fact user | prefers |  VIM | object_kind=value | valid_from=2",
        ),
    ];
    assert!(detect_at(&values, &extractions(&values), 100).unwrap().is_empty());

    let mixed = vec![
        values[0].clone(),
        memory(
            "entity",
            MemoryScope::User,
            MemoryStatus::Active,
            "# Entity\n@fact User | PREFERS | Vim | object_kind=entity | valid_from=3",
        ),
    ];
    let conflicts = detect_at(&mixed, &extractions(&mixed), 100).unwrap();
    assert_eq!(conflicts.len(), 1);
    assert_eq!(conflicts[0].kind, ConflictKind::ExclusiveCurrent);
    assert_eq!(conflicts[0].members.len(), 2);
}

#[test]
fn temporal_boundaries_exclude_closed_expired_and_future_facts() {
    let memories = vec![
        memory(
            "closed",
            MemoryScope::User,
            MemoryStatus::Active,
            "# Closed\n@fact User | WORKS_AT | OldCo | valid_from=1 | valid_to=100",
        ),
        memory(
            "expired",
            MemoryScope::User,
            MemoryStatus::Active,
            "# Expired\n@fact User | WORKS_AT | ExpiredCo | valid_from=1 | expired_at=100",
        ),
        memory(
            "future",
            MemoryScope::User,
            MemoryStatus::Active,
            "# Future\n@fact User | WORKS_AT | FutureCo | valid_from=101",
        ),
        memory(
            "current",
            MemoryScope::User,
            MemoryStatus::Active,
            "# Current\n@fact User | WORKS_AT | CurrentCo | valid_from=100",
        ),
    ];

    assert!(detect_at(&memories, &extractions(&memories), 100).unwrap().is_empty());
}

#[test]
fn usually_exclusive_facts_can_conflict_inside_one_memory() {
    let memories = vec![memory(
        "employment",
        MemoryScope::User,
        MemoryStatus::Active,
        "# Employment\n@fact User | WORKS_AT | OldCo | valid_from=1\n@fact User | WORKS_AT | NewCo | valid_from=2",
    )];
    let conflicts = detect_at(&memories, &extractions(&memories), 100).unwrap();

    assert_eq!(conflicts.len(), 1);
    assert_eq!(conflicts[0].kind, ConflictKind::ExclusiveCurrent);
    assert_eq!(conflicts[0].relation.as_deref(), Some("WORKS_AT"));
    assert_eq!(conflicts[0].members.len(), 2);
    assert!(conflicts[0].members.iter().all(|member| member.memory_id == "employment"));
    assert_ne!(
        conflicts[0].members[0].fact.as_ref().unwrap().id,
        conflicts[0].members[1].fact.as_ref().unwrap().id
    );
}

#[test]
fn mismatched_extraction_provenance_is_rejected() {
    let memories = vec![memory(
        "source",
        MemoryScope::User,
        MemoryStatus::Active,
        "# Source\n@fact User | PREFERS | Vim | valid_from=1",
    )];
    let mut extracted = extractions(&memories);
    extracted[0].1.facts[0].source_memory_id = "other".to_string();

    let error = detect_at(&memories, &extracted, 100).unwrap_err();
    assert!(error.message().contains("belongs to memory other, not source"));
}

#[test]
fn derived_conflicts_persist_with_ordered_members() {
    let memories = editors();
    let conflicts = detect_at(&memories, &extractions(&memories), 100).unwrap();

    assert_eq!(query(stored(&conflicts), None, None).unwrap(), conflicts);
    assert_eq!(
        query(stored(&conflicts), Some(ConflictKind::ExactActiveDuplicate), None).unwrap(),
        Vec::new()
    );
    assert_eq!(find(stored(&conflicts), "conflict-").unwrap(), conflicts[0]);

    let rows = stored(&conflicts);
    assert_eq!(rows.len(), 1);
    assert_eq!(rows[0].record.member_count, 2);
    let members: Vec<&str> =
        rows[0].members.iter().map(|member| member.memory_id.as_str()).collect();
    assert_eq!(members, ["a", "b"]);

    let mut broken = stored(&conflicts);
    broken[0].record.member_count = 3;
    let error = query(broken, None, None).unwrap_err();
    assert!(error.message().contains("declares 3 members but stores 2"));
}

#[test]
fn accepted_rows_are_hidden_by_default_but_remain_queryable() {
    let memories = editors();
    let mut conflicts = detect_at(&memories, &extractions(&memories), 100).unwrap();
    conflicts[0].status = ConflictStatus::Accepted;
    conflicts[0].acceptance = Some(ConflictAcceptance {
        evidence_hash: conflicts[0].evidence_hash.clone(),
        accepted_at: "100".to_string(),
        reason: None,
    });

    assert!(query(stored(&conflicts), None, None).unwrap().is_empty());
    assert_eq!(count(&stored(&conflicts)), 0);
    assert_eq!(query_all(stored(&conflicts), None, None).unwrap(), conflicts);
    assert_eq!(find(stored(&conflicts), "conflict-").unwrap(), conflicts[0]);
}

#[test]
fn only_unaccepted_conflicts_are_counted() {
    let mut memories = editors();
    memories.push(memory("c", MemoryScope::User, MemoryStatus::Active, "# Same\nbody"));
    memories.push(memory("d", MemoryScope::User, MemoryStatus::Active, "# Same\nbody"));
    let mut conflicts = detect_at(&memories, &extractions(&memories), 100).unwrap();
    assert_eq!(count(&stored(&conflicts)), 2);
    conflicts[1].status = ConflictStatus::Accepted;
    assert_eq!(count(&stored(&conflicts)), 1);
    conflicts[0].status = ConflictStatus::Accepted;
    assert_eq!(count(&stored(&conflicts)), 0);
    assert_eq!(count(&Vec::new()), 0);
}

#[test]
fn repeated_memories_are_one_member() {
    let mut memories = editors();
    memories.push(memory("c", MemoryScope::User, MemoryStatus::Active, "# Same\nbody"));
    memories.push(memory("d", MemoryScope::User, MemoryStatus::Active, "# Same\nbody"));
    let extractions = extractions(&memories);
    let once = detect_at(&memories, &extractions, 100).unwrap();
    let mut twice = memories.clone();
    twice.reverse();
    twice.extend(memories);
    assert_eq!(detect_at(&twice, &extractions, 100).unwrap(), once);

    assert_eq!(once.len(), 2);
    assert_eq!(once[0].kind, ConflictKind::ExactActiveDuplicate);
    assert_eq!(once[1].kind, ConflictKind::ExclusiveCurrent);
    for conflict in &once {
        assert_eq!(conflict.members.len(), 2);
        assert_ne!(conflict.members[0].memory_id, conflict.members[1].memory_id);
    }
}

#[test]
fn reordering_keeps_conflicts_where_facts_share_an_id() {
    let memories = editors();
    let mut extractions = extractions(&memories);
    let mut other = extractions[0].1.facts[0].clone();
    other.object_value = "Emacs".to_string();
    extractions[0].1.facts.push(other);
    let once = detect_at(&memories, &extractions, 100).unwrap();
    assert_eq!(once.len(), 1);
    assert_eq!(once[0].members.len(), 2);
    assert_eq!(once[0].members[0].fact.as_ref().unwrap().object_value, "Emacs");

    let (a, b) = (memories[0].clone(), memories[1].clone());
    for list in [vec![b.clone(), a.clone()], vec![a.clone(), b.clone(), a.clone()], vec![a.clone(), a, b]] {
        assert_eq!(detect_at(&list, &extractions, 100).unwrap(), once);
    }
}

#[test]
fn legacy_conflict_cache_requires_rebuild() {
    assert!(!index_has_schema(true, true, &vec!["id".to_string(), "kind".to_string()]));
}

#[test]
fn member_selection_prefers_exact_ids_and_rejects_ambiguous_prefixes() {
    let candidates =
        vec!["memory-a".to_string(), "memory-ab".to_string(), "other".to_string()];
    assert_eq!(select_member_id(&candidates, "memory-a", "memory").unwrap(), "memory-a");
    assert!(select_member_id(&candidates, "memory-", "memory")
        .unwrap_err()
        .message()
        .contains("ambiguous"));
    assert!(select_member_id(&candidates, "missing", "memory")
        .unwrap_err()
        .message()
        .contains("does not identify"));
}

#[test]
fn detection_does_not_depend_on_the_order_of_memories() {
    let memories = editors();
    let reversed: Vec<Memory> = memories.iter().rev().cloned().collect();
    assert_eq!(
        detect_at(&memories, &extractions(&memories), 100).unwrap(),
        detect_at(&reversed, &extractions(&reversed), 100).unwrap()
    );
}

#[test]
fn accepting_twice_changes_nothing() {
    let memories = editors();
    let mut conflicts = detect_at(&memories, &extractions(&memories), 100).unwrap();
    let (acceptance, changed) = accept(&conflicts[0], Some("fine".to_string()), 7).unwrap();
    assert!(changed);
    assert_eq!(acceptance.accepted_at, "7");
    let id = conflicts[0].id.clone();
    let file = DecisionFile {
        path: format!("/vault/conflicts/{id}.md"),
        content: DecisionContent::Text(render_acceptance(&id, &acceptance)),
    };
    let (decided, diagnostics) = apply_acceptances(conflicts, vec![file]);
    assert!(diagnostics.is_empty());
    conflicts = decided;
    assert_eq!(conflicts[0].status, ConflictStatus::Accepted);
    let (again, changed) = accept(&conflicts[0], Some("fine".to_string()), 9).unwrap();
    assert!(!changed);
    assert_eq!(again, acceptance);
    assert!(accept(&conflicts[0], Some("two\nlines".to_string()), 9).is_err());
}

#[test]
fn resolving_ends_the_other_fact() {
    let memories = editors();
    let conflicts = detect_at(&memories, &extractions(&memories), 100).unwrap();
    let kept = conflicts[0].members[0].fact.as_ref().unwrap().id.clone();
    let plan = plan_resolution(&conflicts[0], &kept, None, 100).unwrap();
    assert_eq!(plan.resolution.kept_id, kept);
    assert_eq!(plan.resolution.expired_at, Some(100));
    assert_eq!(plan.resolution.expired_fact_ids.len(), 1);
    assert_eq!(plan.expiries.len(), 1);
    assert_eq!(
        resolution_message(conflicts[0].kind, &plan.resolution),
        format!("rem: resolve semantic conflict {} keep fact {kept}", conflicts[0].id)
    );
    let ended =
        expire_memory(memories.clone(), &plan.expiries[0], PathState::File, 100, &table(), "100")
            .unwrap();
    let linked =
        expire_memory(memories.clone(), &plan.expiries[0], PathState::Symlink, 100, &table(), "100")
            .unwrap_err();
    assert!(linked.message().starts_with("refusing to mutate symlinked memory "));
    assert_eq!(ended.metadata.id, "b");
    assert_eq!(ended.metadata.updated_at, "100");
    assert!(ended.body.ends_with("valid_from=1 | expired_at=100"));
    let resolved = vec![memories[0].clone(), ended];
    assert!(detect_at(&resolved, &extractions(&resolved), 100).unwrap().is_empty());
    assert!(plan_resolution(&conflicts[0], &kept, Some(101), 100)
        .unwrap_err()
        .message()
        .contains("is in the future"));
}

#[test]
fn resolving_duplicates_archives_all_but_one() {
    let memories = vec![
        memory("a", MemoryScope::User, MemoryStatus::Active, "# Same\nbody"),
        memory("b", MemoryScope::User, MemoryStatus::Active, "# Same\nbody"),
    ];
    let conflicts = detect_at(&memories, &Vec::new(), 100).unwrap();
    let plan = plan_resolution(&conflicts[0], "b", None, 100).unwrap();
    assert_eq!(plan.resolution.kept_id, "b");
    assert_eq!(plan.resolution.archived_memory_ids, vec!["a"]);
    assert_eq!(
        plan_resolution(&conflicts[0], "b", Some(1), 100).unwrap_err().message(),
        "--at only applies to exclusive-current conflicts"
    );
}

#[test]
fn conflicts_are_found_by_prefix() {
    let memories = editors();
    let conflicts = detect_at(&memories, &extractions(&memories), 100).unwrap();
    assert_eq!(
        find(stored(&conflicts), " ").unwrap_err().message(),
        "conflict id or prefix cannot be empty"
    );
    assert!(find(stored(&conflicts), "nothing").is_err());
    assert_eq!(
        find_exact(stored(&conflicts), &conflicts[0].id).unwrap().as_ref(),
        Some(&conflicts[0])
    );
    assert_eq!(find_exact(stored(&conflicts), "conflict-").unwrap(), None);
}

#[test]
fn decisions_are_kept_in_a_regular_directory() {
    assert!(has_decision_directory(PathState::Directory, "/v/conflicts").unwrap());
    assert!(!has_decision_directory(PathState::Missing, "/v/conflicts").unwrap());
    for state in [PathState::Symlink, PathState::File, PathState::Other] {
        assert_eq!(
            has_decision_directory(state, "/v/conflicts").unwrap_err().message(),
            "conflict decision path /v/conflicts must be a regular directory"
        );
    }
}

#[test]
fn decisions_and_indexes_are_regular_files() {
    assert!(ensure_regular_decision_path(PathState::File, "/v/c.md").unwrap());
    assert!(!ensure_regular_decision_path(PathState::Missing, "/v/c.md").unwrap());
    assert_eq!(
        ensure_regular_decision_path(PathState::Symlink, "/v/c.md").unwrap_err().message(),
        "conflict decision path /v/c.md must be a regular file"
    );
    assert!(open_index("/v/i", true, true).is_ok());
    assert_eq!(
        open_index("/v/i", false, false).unwrap_err().message(),
        "semantic conflict index missing at /v/i; run `rem rebuild`"
    );
    assert_eq!(
        open_index("/v/i", true, false).unwrap_err().message(),
        "semantic conflict cache schema missing; run `rem rebuild`"
    );
}
