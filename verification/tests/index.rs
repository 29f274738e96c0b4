use rem::acceptance::{DecisionContent, DecisionFile};
use rem::config::{ProfileConfig, StorageMode};
use rem::conflict::ConflictKind;
use rem::directive::{ConfidenceReading, ConfidenceTable};
use rem::index::{
    check_identities, diagnostic_messages, memory_row, plan_index, select_memories,
    temp_index_path, FileContent, MemoryFile,
};
use rem::memory::{Memory, MemoryKind, MemoryMetadata, MemoryScope, MemoryStatus, MemoryType};
use rem::workspace::{directory_step, DirectoryStep, PathState, Workspace};

fn memory(id: &str, path: &str, body: &str) -> Memory {
    Memory {
        metadata: MemoryMetadata {
            id: id.to_string(),
            memory_type: MemoryType::Long,
            scope: MemoryScope::User,
            kind: MemoryKind::Fact,
            status: MemoryStatus::Active,
            created_at: "1".to_string(),
            updated_at: "1".to_string(),
            tags: vec!["a".to_string(), "b".to_string()],
            title: None,
            source: Some("test".to_string()),
            source_id: None,
            agent: None,
            session: None,
            confidence: Some("1.0".to_string()),
            promoted_from: None,
            supersedes: Vec::new(),
        },
        body: body.to_string(),
        path: Some(path.to_string()),
    }
}

fn file(id: &str, path: &str, body: &str) -> MemoryFile {
    MemoryFile { path: path.to_string(), content: FileContent::Readable(memory(id, path, body)) }
}

fn table() -> ConfidenceTable {
    let mut table = ConfidenceTable::new();
    table.insert("1.0".to_string(), ConfidenceReading::InRange("1".to_string()));
    table
}

fn workspace() -> Workspace {
    Workspace::new(&ProfileConfig {
        name: "default".to_string(),
        root: "/v".to_string(),
        storage: StorageMode::Local,
    })
}

#[test]
fn files_are_indexed_or_diagnosed() {
    let files = vec![
        file("b", "/v/memories/long/b.md", "# B"),
        MemoryFile { path: "/v/link.md".to_string(), content: FileContent::Symlink },
        MemoryFile {
            path: "/v/bad.md".to_string(),
            content: FileContent::Unreadable("missing block".to_string()),
        },
        file("a", "/v/memories/long/a.md", "# A"),
    ];
    let (memories, diagnostics) = select_memories(&files);
    let ids: Vec<&str> = memories.iter().map(|memory| memory.metadata.id.as_str()).collect();
    assert_eq!(ids, ["a", "b"]);
    assert_eq!(
        diagnostic_messages(diagnostics),
        vec![
            "/v/bad.md [error]: missing block",
            "/v/link.md [error]: memory file must be a regular vault file, not a symlink",
        ]
    );
}

#[test]
fn the_canonical_file_wins_over_a_copy() {
    let files = vec![
        file("m", "/v/memories/long/m-sync-conflict.md", "# Stale"),
        file("m", "/v/memories/long/m.md", "# Fresh"),
    ];
    let (memories, diagnostics) = select_memories(&files);
    assert_eq!(memories.len(), 1);
    assert_eq!(memories[0].body, "# Fresh");
    assert_eq!(diagnostics.len(), 1);
    assert_eq!(
        diagnostics[0].message,
        "duplicate memory id m; ignored in favor of /v/memories/long/m.md"
    );
}

#[test]
fn identities_are_used_once() {
    let mut first = memory("a", "/v/a.md", "# A");
    first.metadata.source_id = Some("event".to_string());
    let mut second = memory("b", "/v/b.md", "# B");
    second.metadata.source_id = Some("event".to_string());
    let diagnostics = check_identities(&vec![first, second]);
    assert_eq!(diagnostics.len(), 1);
    assert_eq!(
        diagnostics[0].message,
        "duplicate source identity \"test\"/event; already used by memory a at /v/a.md"
    );
}

#[test]
fn a_clean_vault_is_indexed_whole() {
    let files = vec![
        file("a", "/v/memories/long/a.md", "# A\n@fact User | PREFERS | Vim | valid_from=1"),
        file("b", "/v/memories/long/b.md", "# B\n@fact User | PREFERS | Helix | valid_from=1"),
    ];
    let plan = plan_index(&files, &table());
    assert!(plan.diagnostics.is_empty());
    assert_eq!(plan.memories.len(), 2);
    assert_eq!(plan.extractions.len(), 2);
    let decisions = vec![DecisionFile {
        path: "/v/conflicts/bad.md".to_string(),
        content: DecisionContent::NotRegular,
    }];
    let contents = plan.complete(decisions, 100).unwrap();
    assert_eq!(contents.conflicts.len(), 1);
    assert_eq!(contents.conflicts[0].kind, ConflictKind::ExclusiveCurrent);
    assert_eq!(contents.diagnostics.len(), 1);
}

#[test]
fn facts_that_cannot_be_read_are_diagnosed() {
    let files = vec![
        file("a", "/v/a.md", "# A\n@fact User | LOVES | Vim"),
        file("b", "/v/b.md", "# B\n@fact User | USES | Git"),
    ];
    let plan = plan_index(&files, &table());
    assert_eq!(plan.memories.len(), 2);
    assert_eq!(plan.extractions.len(), 1);
    assert_eq!(plan.diagnostics.len(), 1);
    assert!(plan.diagnostics[0].message.starts_with("semantic cache extraction failed: "));
    let refused = plan.refuse("b", "full");
    assert!(refused.extractions.is_empty());
    assert_eq!(refused.diagnostics[1].message, "semantic cache extraction failed: full");
    assert_eq!(refused.refuse("nobody", "x").diagnostics.len(), 2);
}

#[test]
fn rows_hold_what_is_searched() {
    let row = memory_row(&memory("a", "/v/a.md", "# Title\ntext"));
    assert_eq!(row.title, "Title");
    assert_eq!(row.tags, "a,b");
    assert_eq!(row.search_tags, "a b");
    assert_eq!(row.path, "/v/a.md");
}

#[test]
fn indexes_are_made_beside_their_place() {
    assert_eq!(
        temp_index_path(&workspace(), "rebuild", 7, 42),
        "/v/.rem/cache/index.sqlite.tmp-rebuild-7-42"
    );
    assert_eq!(workspace().index_path(), "/v/.rem/cache/index.sqlite");
}

#[test]
fn vault_directories_are_real_directories() {
    assert_eq!(
        directory_step(PathState::Missing, "/v/inbox", "vault").unwrap(),
        DirectoryStep::Create
    );
    assert_eq!(
        directory_step(PathState::Directory, "/v/inbox", "vault").unwrap(),
        DirectoryStep::Ready
    );
    assert_eq!(
        directory_step(PathState::Symlink, "/v/inbox", "vault").unwrap_err().message(),
        "refusing to use symlinked vault directory /v/inbox"
    );
    assert!(workspace().layout().contains(&"/v/memories/short".to_string()));
}
