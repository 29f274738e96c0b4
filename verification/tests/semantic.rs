use rem::clock::{
    iso_to_unix_seconds, parse_time_kind, temporal_unix_seconds, validate_fact_times, TimeKind,
};
use rem::digest::{stable_hash, stable_id};
use rem::directive::{
    parse_confidence, parse_fact_directive, ConfidenceReading, ConfidenceTable, FactDirective,
};
use rem::error::Error;
use rem::expiry::{expire_facts, iso_timestamp};
use rem::memory::{Memory, MemoryKind, MemoryMetadata, MemoryScope, MemoryStatus, MemoryType};
use rem::semantic::{
    confidence_texts, entity_id, extract, normalize_entity_name, normalize_relation, query_facts,
    relation_is_exclusive_current, relation_specs, semantic_fact_is_valid_at,
    validate_no_duplicate_fact_ids, FactQuery, FactRow, StoredFact,
};

/// How a text reads as a confidence.
fn reading(text: &str) -> ConfidenceReading {
    match text.trim().parse::<f64>() {
        Err(_) => ConfidenceReading::NotANumber,
        Ok(number) if number.is_finite() && (0.0..=1.0).contains(&number) => {
            ConfidenceReading::InRange(number.to_string())
        }
        Ok(_) => ConfidenceReading::OutOfRange,
    }
}

fn table(texts: &[&str]) -> ConfidenceTable {
    let mut table = ConfidenceTable::new();
    for text in texts {
        table.insert(text.to_string(), reading(text));
    }
    table
}

fn directive(raw: &str) -> Result<FactDirective, Error> {
    parse_fact_directive(raw, &table(&["0.7", "2.0"]))
}

fn memory(id: &str, kind: MemoryKind, time: &str, confidence: &str, body: &str) -> Memory {
    Memory {
        metadata: MemoryMetadata {
            id: id.to_string(),
            memory_type: MemoryType::Short,
            scope: MemoryScope::User,
            kind,
            status: MemoryStatus::Active,
            created_at: time.to_string(),
            updated_at: time.to_string(),
            tags: Vec::new(),
            title: None,
            source: Some("test".to_string()),
            source_id: None,
            agent: None,
            session: None,
            confidence: Some(confidence.to_string()),
            promoted_from: None,
            supersedes: Vec::new(),
        },
        body: body.to_string(),
        path: None,
    }
}

fn note(id: &str, body: &str) -> Memory {
    memory(id, MemoryKind::Note, "1", "1.0", body)
}

fn table_of(memory: &Memory) -> ConfidenceTable {
    let mut table = ConfidenceTable::new();
    for text in confidence_texts(memory) {
        let read = reading(&text);
        table.insert(text, read);
    }
    table
}

#[test]
fn relation_whitelist_normalizes_supported_relations() {
    assert_eq!(normalize_relation("prefers").unwrap(), "PREFERS");
    assert_eq!(normalize_relation("works-at").unwrap(), "WORKS_AT");
    assert!(normalize_relation("loves").is_err());
}

#[test]
fn parses_temporal_fact_directive() {
    let directive = directive(
        "User | PREFERS | Puma | valid_from=2025-04-02 | valid_to=2025-05-01 | confidence=0.7",
    )
    .unwrap();

    assert_eq!(directive.subject, "User");
    assert_eq!(directive.relation, "PREFERS");
    assert_eq!(directive.object, "Puma");
    assert_eq!(directive.valid_from.as_deref(), Some("2025-04-02"));
    assert_eq!(directive.valid_to.as_deref(), Some("2025-05-01"));
    assert_eq!(directive.confidence.map(|text| text.parse::<f64>().unwrap()), Some(0.7));
}

#[test]
fn validates_temporal_ranges_and_time_formats() {
    assert!(parse_time_kind("2025-04-02").is_ok());
    assert!(parse_time_kind("2025-04-02T03:04:05Z").is_ok());
    assert!(parse_time_kind("1712016000").is_ok());
    assert_eq!(parse_time_kind("-1").unwrap(), TimeKind::Unix);
    assert!(parse_time_kind("9223372036854775808").is_err());
    assert!(parse_time_kind("2025-4-2").is_err());
    assert!(parse_time_kind("2025-04-02T25:04:05Z").is_err());
    assert!(parse_time_kind("2025-02-29").is_err());
    assert!(parse_time_kind("2024-02-29").is_ok());

    let reversed = validate_fact_times(Some("2025-04-02"), Some("2025-01-10"), None, "1712016000")
        .unwrap_err();
    assert!(reversed.message().contains("valid_to must be later"));

    let mixed = validate_fact_times(Some("2025-04-02"), Some("1712016000"), None, "1712016000")
        .unwrap_err();
    assert!(mixed.message().contains("same time format"));

    let same_instant =
        validate_fact_times(Some("2025-04-02"), Some("2025-04-02T00:00:00Z"), None, "1712016000")
            .unwrap_err();
    assert!(same_instant.message().contains("valid_to must be later"));

    let expired_before_start =
        validate_fact_times(Some("2025-04-02"), None, Some("2025-04-01"), "1712016000")
            .unwrap_err();
    assert!(expired_before_start.message().contains("expired_at must be later"));
}

#[test]
fn converts_iso_times_to_unix_seconds() {
    assert_eq!(iso_to_unix_seconds("1970-01-01").unwrap(), 0);
    assert_eq!(iso_to_unix_seconds("2025-01-01").unwrap(), 1_735_689_600);
    assert_eq!(iso_to_unix_seconds("2025-01-01T12:00:00Z").unwrap(), 1_735_732_800);
    assert_eq!(temporal_unix_seconds("-1").unwrap(), -1);
}

#[test]
fn rejects_unknown_fact_options_and_bad_confidence() {
    let unknown =
        directive("User | PREFERS | Puma | valid_from=2025-04-02 | typo=true").unwrap_err();
    assert!(unknown.message().contains("unknown semantic fact option"));

    let bad_confidence = directive("User | PREFERS | Puma | confidence=2.0").unwrap_err();
    assert!(bad_confidence.message().contains("between 0.0 and 1.0"));

    let bad_metadata = parse_confidence(Some("2.0"), &table(&["2.0"])).unwrap_err();
    assert!(bad_metadata.message().contains("between 0.0 and 1.0"));
}

#[test]
fn rejects_empty_segments_and_duplicate_options() {
    let empty_segment = directive("User || PREFERS | Puma").unwrap_err();
    assert!(empty_segment.message().contains("subject, relation, and object are required"));

    let duplicate_option =
        directive("User | PREFERS | Puma | valid_from=2025-01-01 | valid_from=2025-02-01")
            .unwrap_err();
    assert!(duplicate_option.message().contains("duplicate semantic fact option"));
}

#[test]
fn extracts_episode_entities_and_facts_from_memory_body() {
    let memory = memory(
        "abc123",
        MemoryKind::Preference,
        "2026-07-09T00:00:00Z",
        "0.9",
        "# Preference\n@fact User | PREFERS | Puma | valid_from=2025-04-02",
    );

    let extraction = extract(&memory, &table_of(&memory)).unwrap();
    assert_eq!(extraction.episode.id, "episode-abc123");
    assert_eq!(extraction.entities.len(), 2);
    assert_eq!(extraction.facts.len(), 1);
    assert_eq!(extraction.facts[0].relation, "PREFERS");
    assert_eq!(extraction.facts[0].valid_from.as_deref(), Some("2025-04-02"));
    assert_eq!(extraction.facts[0].time_kind, TimeKind::IsoDate);
    assert_eq!(
        extraction.facts[0].confidence.as_deref().map(|text| text.parse::<f64>().unwrap()),
        Some(0.9)
    );
}

#[test]
fn ignores_fact_directives_inside_markdown_code_fences() {
    let memory = note(
        "abc123",
        "# Example\n```text\n@fact User | LOVES | Broken\n```\n    @fact User | LOVES | AlsoBroken\n@fact User | USES | SQLite",
    );

    let extraction = extract(&memory, &table_of(&memory)).unwrap();
    assert_eq!(extraction.facts.len(), 1);
    assert_eq!(extraction.facts[0].relation, "USES");
}

#[test]
fn honors_fence_marker_and_width_when_skipping_directives() {
    let memory = note(
        "fence-test",
        "# Example\n````text\n```\n@fact User | LOVES | CodeOnly\n````\n@fact User | USES | SQLite",
    );

    let extraction = extract(&memory, &table_of(&memory)).unwrap();
    assert_eq!(extraction.facts.len(), 1);
    assert_eq!(extraction.facts[0].relation, "USES");
    assert_eq!(extraction.facts[0].object_value, "SQLite");
}

#[test]
fn does_not_treat_four_space_indented_code_as_a_fence() {
    let memory =
        note("indented-fence-test", "# Example\n    ```\n@fact User | USES | SQLite");

    let extraction = extract(&memory, &table_of(&memory)).unwrap();
    assert_eq!(extraction.facts.len(), 1);
    assert_eq!(extraction.facts[0].relation, "USES");
}

#[test]
fn ignores_fact_directives_inside_html_comments() {
    let memory = note(
        "comment-test",
        "# Example\n<!--\n@fact User | LOVES | CommentOnly\n-->\n@fact User | USES | SQLite",
    );

    let extraction = extract(&memory, &table_of(&memory)).unwrap();
    assert_eq!(extraction.facts.len(), 1);
    assert_eq!(extraction.facts[0].relation, "USES");
}

#[test]
fn relations_are_few_and_some_are_exclusive() {
    let names: Vec<&str> = relation_specs().iter().map(|spec| spec.name).collect();
    assert_eq!(
        names,
        [
            "PREFERS", "DISLIKES", "USES", "WORKS_AT", "HAS_PROJECT", "PART_OF", "SUPERSEDES",
            "MENTIONS"
        ]
    );
    assert!(relation_is_exclusive_current("PREFERS"));
    assert!(!relation_is_exclusive_current("USES"));
    let error = normalize_relation("loves").unwrap_err();
    assert_eq!(
        error.message(),
        "unsupported semantic relation \"loves\"; expected one of: PREFERS, DISLIKES, USES, WORKS_AT, HAS_PROJECT, PART_OF, SUPERSEDES, MENTIONS"
    );
}

#[test]
fn entity_names_are_compared_without_case_and_spacing() {
    assert_eq!(normalize_entity_name("  Ada   Lovelace "), "ada lovelace");
    assert_eq!(entity_id("Ada  Lovelace"), entity_id("ada lovelace"));
    assert_ne!(entity_id("Ada"), entity_id("Bob"));
}

#[test]
fn hashes_are_stable() {
    assert_eq!(stable_hash(""), "cbf29ce484222325");
    assert_eq!(stable_hash("a"), "af63dc4c8601ec8c");
    assert_eq!(stable_id("conflict", "a"), "conflict-af63dc4c8601ec8c");
}

#[test]
fn facts_hold_from_their_start_to_before_their_end() {
    let memory = note("m", "@fact User | USES | Tool | valid_from=10 | valid_to=20");
    let extraction = extract(&memory, &table_of(&memory)).unwrap();
    let fact = &extraction.facts[0];
    for (at, valid) in [(9, false), (10, true), (19, true), (20, false)] {
        assert_eq!(semantic_fact_is_valid_at(fact, at).unwrap(), valid, "at {at}");
    }
}

#[test]
fn bad_facts_are_reported_with_their_line() {
    let memory = note("m", "# Title\n@fact User | USES");
    let error = extract(&memory, &table_of(&memory)).unwrap_err();
    assert_eq!(
        error.message(),
        "semantic fact line 2: expected `@fact subject | RELATION | object | key=value ...`"
    );
}

#[test]
fn fact_ids_must_differ() {
    let ids = vec!["a".to_string(), "b".to_string(), "a".to_string()];
    assert_eq!(
        validate_no_duplicate_fact_ids(&ids).unwrap_err().message(),
        "duplicate semantic fact id a"
    );
    assert!(validate_no_duplicate_fact_ids(&ids[..2].to_vec()).is_ok());
}

#[test]
fn ended_facts_say_when_they_ended() {
    let memory = note(
        "m",
        "# Shoes\n@fact User | PREFERS | Puma | valid_from=1\nkept\n@fact User | USES | Git | valid_from=2020-01-01 | expired_at=2030-01-01",
    );
    let extraction = extract(&memory, &table_of(&memory)).unwrap();
    let first = extraction.facts[0].id.clone();
    let second = extraction.facts[1].id.clone();
    assert_eq!(
        expire_facts(&memory, &extraction.facts, &vec![first.clone()], 100).unwrap(),
        "# Shoes\n@fact User | PREFERS | Puma | valid_from=1 | expired_at=100\nkept\n@fact User | USES | Git | valid_from=2020-01-01 | expired_at=2030-01-01"
    );
    assert_eq!(
        expire_facts(&memory, &extraction.facts, &vec![second], 1_735_732_800).unwrap(),
        "# Shoes\n@fact User | PREFERS | Puma | valid_from=1\nkept\n@fact User | USES | Git | valid_from=2020-01-01 | expired_at=2025-01-01T12:00:00Z"
    );
    assert_eq!(
        expire_facts(&memory, &extraction.facts, &vec!["fact-x".to_string()], 100)
            .unwrap_err()
            .message(),
        "semantic fact fact-x is not stated by memory m"
    );
    let ended = note("m", &expire_facts(&memory, &extraction.facts, &vec![first], 100).unwrap());
    let facts = extract(&ended, &table_of(&ended)).unwrap().facts;
    assert!(!semantic_fact_is_valid_at(&facts[0], 100).unwrap());
    assert!(semantic_fact_is_valid_at(&facts[0], 99).unwrap());
}

#[test]
fn times_are_written_as_dates() {
    assert_eq!(iso_timestamp(0).as_deref(), Some("1970-01-01T00:00:00Z"));
    assert_eq!(iso_timestamp(1_735_732_800).as_deref(), Some("2025-01-01T12:00:00Z"));
    assert_eq!(iso_timestamp(i64::MAX), None);
}

fn stored(object: &str, from: Option<&str>, to: Option<&str>, kind: &str) -> StoredFact {
    StoredFact {
        row: FactRow {
            id: format!("fact-{object}"),
            subject: "User".to_string(),
            relation: "USES".to_string(),
            object: object.to_string(),
            valid_from: from.map(str::to_string),
            valid_to: to.map(str::to_string),
            expired_at: None,
            learned_at: "1".to_string(),
            source_memory_id: "m1".to_string(),
            source_path: "memories/long/m1.md".to_string(),
            episode_id: "episode-m1".to_string(),
            excerpt: "text".to_string(),
            confidence: None,
        },
        time_kind: kind.to_string(),
        source_is_active: true,
    }
}

#[test]
fn queries_choose_facts_by_name_and_time() {
    let all = vec![
        stored("Old", Some("1"), Some("50"), "unix"),
        stored("New", Some("50"), None, "unix"),
        stored("Dated", Some("1970-01-01"), None, "iso-date"),
    ];
    let query = |at: Option<&str>, include_expired: bool| FactQuery {
        entity: Some("user".to_string()),
        relation: None,
        at: at.map(str::to_string),
        include_expired,
    };
    let objects = |query: FactQuery| {
        let mut found: Vec<String> = query_facts(&all, &query, 100)
            .unwrap()
            .into_iter()
            .map(|fact| fact.object)
            .collect();
        found.sort();
        found
    };
    assert_eq!(objects(query(None, false)), ["Dated", "New"]);
    assert_eq!(objects(query(Some("49"), false)), ["Dated", "Old"]);
    assert_eq!(objects(query(None, true)), ["Dated", "New", "Old"]);
    assert_eq!(objects(query(Some("1970-01-01T00:00:49Z"), false)), objects(query(Some("49"), false)));
    assert_eq!(objects(query(Some("100"), false)), objects(query(None, false)));
    assert!(query_facts(&all, &query(Some("2025-4-2"), false), 100).is_err());
}

#[test]
fn iso_times_stand_in_the_order_of_their_texts() {
    let dates = ["0001-01-01", "1969-12-31", "1970-01-01", "2024-02-29", "2024-03-01", "9999-12-31"];
    for pair in dates.windows(2) {
        assert!(pair[0] < pair[1]);
        assert!(iso_to_unix_seconds(pair[0]).unwrap() < iso_to_unix_seconds(pair[1]).unwrap());
    }
    for date in dates {
        let seconds = iso_to_unix_seconds(date).unwrap();
        assert_eq!(seconds % 86_400, 0);
        assert_eq!(iso_to_unix_seconds(&format!("{date}T00:00:00Z")).unwrap(), seconds);
    }
    let stamps = ["2024-12-31T23:59:59Z", "2025-01-01T00:00:00Z", "2025-01-01T00:01:00Z"];
    for pair in stamps.windows(2) {
        assert!(pair[0] < pair[1]);
        assert!(iso_to_unix_seconds(pair[0]).unwrap() < iso_to_unix_seconds(pair[1]).unwrap());
    }
}
