use rem::search::{
    ensure_indexed, facts, grep, index_warning, merge, rank, ranked_or_none, sanitize_fts_query,
    score_match, search, GrepFile, SearchMode, SearchPlan,
    SearchResult,
};
use rem::error::Error;
use rem::memory::{Memory, MemoryKind, MemoryMetadata, MemoryScope, MemoryStatus, MemoryType};

fn result(id: &str, source: &str, score: u128) -> SearchResult {
    SearchResult {
        id: id.to_string(),
        memory_type: "short".to_string(),
        title: format!("Title {id}"),
        path: format!("memories/short/{id}.md"),
        source: source.to_string(),
        score,
    }
}

fn memory(id: &str, body: &str) -> Memory {
    Memory {
        metadata: MemoryMetadata {
            id: id.to_string(),
            memory_type: MemoryType::Short,
            scope: MemoryScope::User,
            kind: MemoryKind::Note,
            status: MemoryStatus::Active,
            created_at: "1".to_string(),
            updated_at: "1".to_string(),
            tags: Vec::new(),
            title: None,
            source: None,
            source_id: None,
            agent: None,
            session: None,
            confidence: None,
            promoted_from: None,
            supersedes: Vec::new(),
        },
        body: body.to_string(),
        path: Some(format!("/v/memories/short/{id}.md")),
    }
}

#[test]
fn modes_are_read_from_their_labels() {
    for mode in
        [SearchMode::Auto, SearchMode::Grep, SearchMode::Bm25, SearchMode::Vector, SearchMode::All]
    {
        assert_eq!(SearchMode::parse_config_value(mode.label()).unwrap(), mode);
    }
    assert!(SearchMode::parse_config_value("fast")
        .unwrap_err()
        .message()
        .contains("invalid search mode"));
}

#[test]
fn vector_search_is_not_there() {
    let error = search("x", SearchMode::Vector).unwrap_err();
    assert!(error.message().contains("vector search is not configured"));
    assert!(search("x", SearchMode::Grep).is_ok());
}

#[test]
fn queries_become_quoted_terms() {
    assert_eq!(sanitize_fts_query("Alpha beta-2!").as_deref(), Some("\"Alpha\" AND \"beta\" AND \"2\""));
    assert_eq!(sanitize_fts_query("\u{fc}ber *"), Some("\"\u{fc}ber\"".to_string()));
    assert_eq!(sanitize_fts_query(" -- "), None);
}

#[test]
fn matches_are_scored_by_how_often_they_occur() {
    let needle = "md";
    let once = score_match("an md file", "an md file", needle);
    let twice = score_match("md and md", "md and md", needle);
    assert!(twice > once);
    assert!(once > 0);
}

#[test]
fn grep_ignores_case() {
    let file = |id: &str, body: &str| {
        let memory = memory(id, body);
        let raw = memory.to_markdown();
        GrepFile { memory, raw }
    };
    let files = vec![file("a", "# \u{dc}ber Markdown"), file("b", "# Nothing")];
    let found = grep(&files, "\u{fc}BER mark");
    assert_eq!(found.len(), 1);
    assert_eq!(found[0].id, "a");
    assert_eq!(found[0].source, "grep");
}

#[test]
fn better_results_come_first() {
    let ids: Vec<String> = rank(vec![result("b", "grep", 1), result("a", "grep", 1), result("c", "grep", 9)])
        .into_iter()
        .map(|result| result.id)
        .collect();
    assert_eq!(ids, ["c", "a", "b"]);
}

#[test]
fn results_of_both_searches_are_merged() {
    let merged = merge(&vec![result("a", "grep", 3), result("b", "grep", 1), result("a", "bm25", 2)]);
    assert_eq!(merged.len(), 2);
    assert_eq!(merged[0].result.id, "a");
    assert_eq!(merged[0].result.source, "grep,bm25");
    assert_eq!(merged[0].parts, vec![0, 2]);
}

#[test]
fn plans_follow_the_mode() {
    assert_eq!(search("x", SearchMode::Bm25).unwrap(), SearchPlan::Bm25);
    assert_ne!(search("x", SearchMode::All).unwrap(), SearchPlan::Grep);
}

#[test]
fn indexes_are_needed_for_ranked_searches_and_facts() {
    assert_eq!(
        ensure_indexed(false).unwrap_err().message(),
        "search index does not exist; run `rem rebuild` before BM25 search"
    );
    assert!(facts(false).unwrap_err().message().contains("semantic index does not exist"));
    assert!(facts(true).is_ok());
    assert_eq!(index_warning("/v/i", "bad"), "warn\t/v/i: bad; run `rem rebuild`");
}

#[test]
fn search_goes_on_without_a_ranked_index() {
    let path = "/v/.rem/cache/index.sqlite";
    let broken = || Err(Error::new("database disk image is malformed".to_string()));

    let (hits, warning) = ranked_or_none(false, path, broken());
    assert!(hits.is_empty());
    assert_eq!(warning, None);

    let (hits, warning) = ranked_or_none(true, path, broken());
    assert!(hits.is_empty());
    assert_eq!(
        warning.as_deref(),
        Some(
            "warn\t/v/.rem/cache/index.sqlite: database disk image is malformed; run `rem rebuild`"
        )
    );

    let (hits, warning) = ranked_or_none(true, path, Ok(vec![result("m1", "bm25", 3)]));
    assert_eq!(hits.len(), 1);
    assert_eq!(hits[0].id, "m1");
    assert_eq!(hits[0].score, 3);
    assert_eq!(warning, None);
}
