use rem::memory::{
    bodies_match, canonical_body, create_memory, decide_add, delete_memory,
    ensure_active_memory, ensure_identity_free, ensure_mutable_memory_path, find_memories_by_source_identity, find_memory,
    generate_id, list_memories, markdown_paths, memory_file, normalize_tags, parse_memory,
    promote_memory, stale_file, supersede_memory, update_memory, AddDecision, CreateMemoryInput,
    Memory, MemoryFilter, MemoryKind, MemoryMetadata, MemoryScope, MemoryStatus, MemoryType,
};
use rem::config::{ProfileConfig, StorageMode};
use rem::workspace::{PathState, Workspace};

fn metadata(id: &str) -> MemoryMetadata {
    MemoryMetadata {
        id: id.to_string(),
        memory_type: MemoryType::Short,
        scope: MemoryScope::Project,
        kind: MemoryKind::Decision,
        status: MemoryStatus::Active,
        created_at: "1".to_string(),
        updated_at: "1".to_string(),
        tags: vec!["rust".to_string()],
        title: None,
        source: Some("test".to_string()),
        source_id: None,
        agent: None,
        session: None,
        confidence: Some("1.0".to_string()),
        promoted_from: None,
        supersedes: Vec::new(),
    }
}

fn memory(id: &str, body: &str) -> Memory {
    Memory { metadata: metadata(id), body: body.to_string(), path: None }
}

fn at(mut memory: Memory, path: &str) -> Memory {
    memory.path = Some(path.to_string());
    memory
}

fn archived(memory: Memory, now: &str) -> Memory {
    let id = memory.metadata.id.clone();
    delete_memory(vec![memory], &id, PathState::File, false, now).unwrap()
}

fn workspace() -> Workspace {
    Workspace::new(&ProfileConfig {
        name: "default".to_string(),
        root: "/v".to_string(),
        storage: StorageMode::Local,
    })
}

#[test]
fn renders_and_parses_memory() {
    let memory = memory("m1", "# Use Markdown\nBody");

    let raw = memory.to_markdown();
    let parsed = parse_memory(&raw, "/tmp/rem-test.md").unwrap();

    assert_eq!(parsed.metadata.id, "m1");
    assert_eq!(parsed.title(), "Use Markdown");
}

#[test]
fn everything_a_memory_says_is_read_back() {
    let mut memory = memory("m1", "# Title\n\nbody");
    memory.metadata.title = Some("A: title".to_string());
    memory.metadata.source_id = Some("[event, 1]".to_string());
    memory.metadata.agent = Some("null".to_string());
    memory.metadata.tags = vec!["a b".to_string(), "c,d".to_string()];
    memory.metadata.supersedes = vec!["m0".to_string()];
    let raw = memory.to_markdown();
    assert!(raw.starts_with("---\nid: m1\n"));
    assert!(raw.contains("\nsupersedes: [m0]\n"));
    let read = parse_memory(&raw, "/v/m1.md").unwrap();
    assert_eq!(read.metadata.title.as_deref(), Some("A: title"));
    assert_eq!(read.metadata.source_id.as_deref(), Some("[event, 1]"));
    assert_eq!(read.metadata.agent.as_deref(), Some("null"));
    assert_eq!(read.metadata.session, None);
    assert_eq!(read.metadata.tags, vec!["a b", "c,d"]);
    assert_eq!(read.body, "# Title\n\nbody");
    assert_eq!(read.path.as_deref(), Some("/v/m1.md"));
    assert_eq!(read.to_markdown(), raw);
}

#[test]
fn broken_memories_are_reported() {
    assert!(parse_memory("# no block", "/v/a.md").is_err());
    let error = parse_memory("---\nid: a\n---\nbody", "/v/a.md").unwrap_err();
    assert!(error.message().contains("type"));
    let raw = memory("m1", "# T").to_markdown().replace("scope: project", "scope: galaxy");
    assert!(parse_memory(&raw, "/v/a.md").is_err());
}

#[test]
fn tags_are_split_sorted_and_told_apart() {
    let tags = vec!["Rust, cli".to_string(), "cli".to_string(), " ".to_string()];
    let normal = normalize_tags(&tags);
    let mut sorted = normal.clone();
    sorted.sort();
    sorted.dedup();
    assert_eq!(normal, sorted);
    assert!(normal.contains(&"cli".to_string()));
    assert_eq!(normalize_tags(&normal), normal);
}

#[test]
fn bodies_are_compared_without_line_ends_and_margins() {
    assert_eq!(canonical_body("a\r\nb\n"), canonical_body("a\nb"));
    assert!(bodies_match("# A\r\nx\r\n", "# A\nx"));
    assert!(!bodies_match("# A\nx", "# A\ny"));
}

#[test]
fn new_memories_need_a_body_and_single_lines() {
    let input = |body: &str| {
        CreateMemoryInput::new(
            MemoryType::Short,
            MemoryScope::User,
            MemoryKind::Note,
            body.to_string(),
        )
    };
    let memory = create_memory(
        input("# Note\ntext").tags(vec!["b,a".to_string()]).source(Some("cli".to_string())),
        "id-1".to_string(),
        "42",
    )
    .unwrap();
    assert_eq!(memory.metadata.id, "id-1");
    assert_eq!(memory.metadata.created_at, "42");
    assert_eq!(memory.metadata.updated_at, "42");
    assert_eq!(memory.metadata.status, MemoryStatus::Active);
    assert_eq!(memory.metadata.tags, vec!["a", "b"]);
    assert_eq!(
        create_memory(input(" \n"), "x".to_string(), "1").unwrap_err().message(),
        "memory body cannot be empty"
    );
    assert!(create_memory(
        input("text").source_id(Some("two\nlines".to_string())),
        "x".to_string(),
        "1"
    )
    .unwrap_err()
    .message()
    .contains("source_id must be a single line"));
    assert!(create_memory(input("text").tags(vec!["a\nb".to_string()]), "x".to_string(), "1")
        .unwrap_err()
        .message()
        .contains("memory tags must be single-line values"));
}

#[test]
fn memories_have_their_places() {
    let mut memory = memory("m1", "x");
    assert_eq!(memory_file(&workspace(), &memory.metadata), "/v/memories/short/m1.md");
    memory.metadata.memory_type = MemoryType::Long;
    assert_eq!(memory_file(&workspace(), &memory.metadata), "/v/memories/long/m1.md");
    memory.metadata.status = MemoryStatus::Archived;
    assert!(memory_file(&workspace(), &memory.metadata).starts_with("/v/archive/"));
    assert_eq!(
        stale_file(&Some("/v/memories/short/m1.md".to_string()), "/v/memories/long/m1.md").as_deref(),
        Some("/v/memories/short/m1.md")
    );
    assert_eq!(stale_file(&Some("/v/a.md".to_string()), "/v/a.md"), None);
}

#[test]
fn updates_replace_or_append() {
    let file = PathState::File;
    let updated = update_memory(memory("m1", "old"), file, "new".to_string(), false, "9").unwrap();
    assert_eq!(updated.body, "new");
    assert_eq!(updated.metadata.updated_at, "9");
    assert_eq!(updated.metadata.created_at, "1");
    let appended =
        update_memory(memory("m1", "old\n"), file, "new".to_string(), true, "9").unwrap();
    assert_eq!(appended.body, "old\n\nnew");
    assert_eq!(
        update_memory(memory("m1", "old"), file, " ".to_string(), false, "9")
            .unwrap_err()
            .message(),
        "updated body cannot be empty"
    );
}

#[test]
fn only_active_memories_change() {
    let archived = archived(memory("m1", "x"), "5");
    assert_eq!(archived.metadata.status, MemoryStatus::Archived);
    assert_eq!(archived.metadata.updated_at, "5");
    assert_eq!(
        ensure_active_memory(&archived, "edited").unwrap_err().message(),
        "only active memories can be edited"
    );
    assert!(ensure_active_memory(&memory("m1", "x"), "edited").is_ok());
}

#[test]
fn superseded_memories_are_not_deleted() {
    let input = CreateMemoryInput::new(
        MemoryType::Long,
        MemoryScope::User,
        MemoryKind::Fact,
        "replacement".to_string(),
    );
    let (old, new) =
        supersede_memory(memory("m1", "x"), PathState::File, input, "m2".to_string(), "8").unwrap();
    assert_eq!(old.metadata.status, MemoryStatus::Superseded);
    assert_eq!(new.metadata.supersedes, vec!["m1"]);
    assert_eq!(new.metadata.status, MemoryStatus::Active);
    assert_eq!(
        delete_memory(vec![old.clone()], "m1", PathState::File, true, "9").unwrap_err().message(),
        "cannot delete superseded memory m1; it preserves provenance"
    );
    let archived = delete_memory(vec![old], "m1", PathState::File, false, "9").unwrap();
    assert_eq!(archived.metadata.status, MemoryStatus::Archived);
}

#[test]
fn short_memories_are_promoted() {
    let promoted =
        promote_memory(&memory("m1", "# T\nx"), None, "m2".to_string(), "8").unwrap();
    assert_eq!(promoted.metadata.memory_type, MemoryType::Long);
    assert_eq!(promoted.metadata.promoted_from.as_deref(), Some("m1"));
    assert_eq!(promoted.body, "# T\nx");
    assert_eq!(
        promote_memory(&promoted, None, "m3".to_string(), "8").unwrap_err().message(),
        "only short-term memories can be promoted"
    );
}

#[test]
fn ids_and_prefixes_find_memories() {
    let all = || vec![memory("abc", "1"), memory("abd", "2"), memory("ab", "3")];
    assert_eq!(find_memory(all(), "ab").unwrap().body, "3");
    assert_eq!(find_memory(all(), "abd").unwrap().body, "2");
    assert_eq!(
        find_memory(vec![memory("abc", "1"), memory("abd", "2")], "ab").unwrap_err().message(),
        "memory prefix \"ab\" is ambiguous"
    );
    assert_eq!(
        find_memory(all(), "x").unwrap_err().message(),
        "no memory found for \"x\""
    );
}

#[test]
fn canonical_and_active_files_are_preferred() {
    let canonical = at(memory("m1", "canonical"), "/v/memories/short/m1.md");
    let copy = at(memory("m1", "copy"), "/v/memories/short/m1-sync-conflict.md");
    assert_eq!(find_memory(vec![copy, canonical], "m1").unwrap().body, "canonical");
    let twice = vec![
        at(memory("m1", "one"), "/v/a/m1.md"),
        at(memory("m1", "two"), "/v/b/m1.md"),
    ];
    assert_eq!(
        find_memory(twice, "m1").unwrap_err().message(),
        "memory id \"m1\" has duplicate canonical matches"
    );
}

#[test]
fn lists_are_filtered() {
    let mut long = memory("l", "x");
    long.metadata.memory_type = MemoryType::Long;
    long.metadata.tags = vec!["a".to_string()];
    let memories = vec![memory("s", "y"), long, archived(memory("old", "z"), "1")];
    let ids = |filter: &MemoryFilter| -> Vec<String> {
        list_memories(&memories, filter).into_iter().map(|memory| memory.metadata.id).collect()
    };
    assert_eq!(ids(&MemoryFilter::default()), ["l", "s"]);
    let by_tag = MemoryFilter { tag: Some("a".to_string()), ..MemoryFilter::default() };
    assert_eq!(ids(&by_tag), ["l"]);
    let all = MemoryFilter { include_archived: true, ..MemoryFilter::default() };
    assert_eq!(ids(&all), ["l", "old", "s"]);
}

#[test]
fn only_markdown_files_hold_memories() {
    let paths = vec!["/v/b.md".to_string(), "/v/a.md".to_string(), "/v/c.txt".to_string()];
    assert_eq!(markdown_paths(&paths), vec!["/v/a.md", "/v/b.md"]);
}

#[test]
fn source_identities_make_adding_repeatable() {
    let mut known = memory("m1", "# Same\nbody");
    known.metadata.source_id = Some("event-1".to_string());
    let memories = vec![known, memory("m2", "other")];
    let matches = find_memories_by_source_identity(&memories, "test", "event-1");
    assert_eq!(matches.len(), 1);
    assert!(matches!(
        decide_add(&matches, "test", "event-1", "# Same\nbody\n").unwrap(),
        AddDecision::NoOp(id) if id == "m1"
    ));
    assert_eq!(
        decide_add(&matches, "test", "event-1", "changed").unwrap_err().message(),
        "source identity \"test\"/event-1 already belongs to memory m1; run `rem update m1` to change it"
    );
    assert!(matches!(
        decide_add(&Vec::new(), "test", "event-2", "new").unwrap(),
        AddDecision::Create
    ));
    assert!(ensure_identity_free(&matches, "test", "event-1").is_err());
    assert!(ensure_identity_free(&Vec::new(), "test", "event-1").is_ok());
}

#[test]
fn ids_are_made_from_time_and_process() {
    let id = generate_id(1_700_000_000, 42, 7);
    assert_eq!(id, generate_id(1_700_000_000, 42, 7));
    assert_ne!(id, generate_id(1_700_000_000, 43, 7));
    assert_eq!(id, "m1700000000000000042-7");
}

#[test]
fn memories_are_not_changed_through_links() {
    assert_eq!(
        ensure_mutable_memory_path(PathState::Symlink, "/v/a.md").unwrap_err().message(),
        "refusing to mutate symlinked memory /v/a.md"
    );
    assert!(ensure_mutable_memory_path(PathState::File, "/v/a.md").is_ok());
}

#[test]
fn every_change_refuses_links() {
    let link = PathState::Symlink;
    let mut linked = memory("m1", "# Linked Memory\nvalid memory");
    linked.path = Some("/v/memories/short/m1.md".to_string());
    let refusal = "refusing to mutate symlinked memory /v/memories/short/m1.md";

    let body = "# Updated\nshould not write".to_string();
    let update = update_memory(linked.clone(), link, body.clone(), false, "9").unwrap_err();
    assert_eq!(update.message(), refusal);
    let append = update_memory(linked.clone(), link, body.clone(), true, "9").unwrap_err();
    assert_eq!(append.message(), refusal);
    let blank = update_memory(linked.clone(), link, " \n".to_string(), false, "9").unwrap_err();
    assert_eq!(blank.message(), "updated body cannot be empty");

    let memories = vec![linked.clone()];
    let hard = delete_memory(memories.clone(), "m1", link, true, "9").unwrap_err();
    assert_eq!(hard.message(), refusal);
    let soft = delete_memory(memories.clone(), "m1", link, false, "9").unwrap_err();
    assert_eq!(soft.message(), refusal);
    assert!(delete_memory(memories, "m1", PathState::File, true, "9").is_ok());

    let input =
        CreateMemoryInput::new(MemoryType::Short, MemoryScope::User, MemoryKind::Fact, body);
    let superseded =
        supersede_memory(linked, link, input, "m2".to_string(), "9").unwrap_err();
    assert_eq!(superseded.message(), refusal);
}

#[test]
fn absent_fields_read_back_as_absent() {
    let mut bare = memory("m1", "# Use Markdown\nBody");
    bare.metadata.source = None;
    bare.metadata.confidence = None;
    bare.metadata.tags = vec!["it's".to_string(), String::new(), "b".to_string()];
    let written = bare.to_markdown();
    for key in ["title", "source", "source_id", "agent", "session", "confidence", "promoted_from"] {
        let wanted = format!("{key}: null");
        assert!(written.lines().any(|line| line == wanted), "{wanted}");
    }
    let read = parse_memory(&written, "/v/m1.md").unwrap();
    assert_eq!(read.metadata.title, None);
    assert_eq!(read.metadata.source, None);
    assert_eq!(read.metadata.source_id, None);
    assert_eq!(read.metadata.agent, None);
    assert_eq!(read.metadata.session, None);
    assert_eq!(read.metadata.confidence, None);
    assert_eq!(read.metadata.promoted_from, None);
    assert_eq!(read.title(), "Use Markdown");
    assert_eq!(read.body, bare.body);
}
