use rem::directive::{ConfidenceReading, ConfidenceTable};
use rem::memory::{Memory, MemoryKind, MemoryMetadata, MemoryScope, MemoryStatus, MemoryType};
use rem::report::review_line;
use rem::review::{
    choice_prompt, plan, print_plan, prompt_for_action, semantic_action, ReviewAction,
};

fn memory(id: &str, body: &str) -> Memory {
    Memory {
        metadata: MemoryMetadata {
            id: id.to_string(),
            memory_type: MemoryType::Long,
            scope: MemoryScope::User,
            kind: MemoryKind::Fact,
            status: MemoryStatus::Active,
            created_at: "1".to_string(),
            updated_at: "1".to_string(),
            tags: Vec::new(),
            title: None,
            source: Some("test".to_string()),
            source_id: None,
            agent: None,
            session: None,
            confidence: Some("1.0".to_string()),
            promoted_from: None,
            supersedes: Vec::new(),
        },
        body: body.to_string(),
        path: Some(format!("/vault/memories/long/{id}.md")),
    }
}

fn table() -> ConfidenceTable {
    let mut table = ConfidenceTable::new();
    table.insert("1.0".to_string(), ConfidenceReading::InRange("1".to_string()));
    table
}

#[test]
fn review_action_labels_are_stable() {
    assert_eq!(ReviewAction::Add.label(), "add");
    assert_eq!(ReviewAction::Append.label(), "append");
    assert_eq!(ReviewAction::Update.label(), "update");
    assert_eq!(ReviewAction::Supersede.label(), "supersede");
    assert_eq!(ReviewAction::NoOp.label(), "no-op");
}

#[test]
fn semantic_action_respects_relation_cardinality() {
    assert_eq!(
        semantic_action("PREFERS", false),
        (ReviewAction::Supersede, "semantic-exclusive-conflict")
    );
    assert_eq!(semantic_action("PREFERS", true), (ReviewAction::Append, "semantic-same-fact"));
    assert_eq!(semantic_action("USES", false), (ReviewAction::Add, "semantic-compatible-fact"));
}

#[test]
fn a_competing_fact_suggests_to_supersede() {
    let memories = vec![memory("m1", "# Editor\n@fact User | PREFERS | Vim | valid_from=1")];
    let found = plan(
        memories,
        None,
        "# Editor\n@fact User | PREFERS | Helix | valid_from=2",
        MemoryScope::User,
        &table(),
        100,
    )
    .unwrap();
    assert_eq!(found.suggested_action, ReviewAction::Supersede);
    assert_eq!(found.target_id(), Some("m1"));
    assert_eq!(found.reason, "semantic-exclusive-conflict");
    let lines = print_plan(&found, false);
    assert!(lines.iter().any(|line| line.contains("candidate id=m1")));
    assert_eq!(
        review_line(&found, ReviewAction::Supersede, false).unwrap(),
        "review action=supersede target=m1 reason=semantic-exclusive-conflict"
    );
}

#[test]
fn a_proposal_without_a_target_is_added() {
    let found =
        plan(Vec::new(), None, "# New\nbody", MemoryScope::User, &table(), 100).unwrap();
    assert_eq!(found.suggested_action, ReviewAction::Add);
    assert_eq!(found.target_id(), None);
    assert_eq!(
        review_line(&found, ReviewAction::Add, false).unwrap(),
        "review action=add target=- reason=no-explicit-target"
    );
    assert_eq!(
        review_line(&found, ReviewAction::Abort, false).unwrap_err().message(),
        "memory review aborted"
    );
}

#[test]
fn a_named_target_with_the_same_body_is_no_change() {
    let found = plan(
        vec![memory("m1", "# Same\nbody")],
        Some("m1"),
        "# Same\nbody\n",
        MemoryScope::User,
        &table(),
        100,
    )
    .unwrap();
    assert_eq!(found.suggested_action, ReviewAction::NoOp);
    assert_eq!(found.target_id(), Some("m1"));
}

#[test]
fn answers_choose_an_action() {
    let found =
        plan(Vec::new(), None, "# New\nbody", MemoryScope::User, &table(), 100).unwrap();
    assert!(!choice_prompt(&found).is_empty());
    assert_eq!(prompt_for_action(&found, Some("")).unwrap(), ReviewAction::Add);
    assert_eq!(prompt_for_action(&found, Some("abort\n")).unwrap(), ReviewAction::Abort);
    assert!(prompt_for_action(&found, None).is_err());
}
