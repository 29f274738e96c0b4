use rem::cli::ConfigKey;
use rem::config::{AppConfig, ProfileConfig, StorageMode};
use rem::conflict::{detect_at, ConflictKind};
use rem::doctor::{run, DoctorLevel, IndexFacts, SemanticCounts, VaultFacts};
use rem::error::Error;
use rem::index::RebuildReport;
use rem::memory::{Memory, MemoryKind, MemoryMetadata, MemoryScope, MemoryStatus, MemoryType};
use rem::output::Tone;
use rem::policy::{default_policies, write_if_missing, PolicyStep};
use rem::report::{
    added_line, commit_line, deleted_line, done_line, dry_run_lines, ensure_committable,
    fact_line, finding_line, list_conflict_lines, list_memory_lines, no_op_line, print_conflict,
    profile_details, profile_lines, rebuild_line, resolution_lines, search_line, setting_line,
    start_inspection, superseded_line,
};
use rem::resolution::Resolution;
use rem::search::SearchResult;
use rem::semantic::FactRow;
use rem::transaction::{DryRunReport, GitInfo, TransactionOutcome};
use rem::workspace::{PathState, Workspace};

fn memory(id: &str, body: &str) -> Memory {
    Memory {
        metadata: MemoryMetadata {
            id: id.to_string(),
            memory_type: MemoryType::Long,
            scope: MemoryScope::Project,
            kind: MemoryKind::Decision,
            status: MemoryStatus::Active,
            created_at: "1".to_string(),
            updated_at: "1".to_string(),
            tags: Vec::new(),
            title: None,
            source: None,
            source_id: None,
            agent: None,
            session: None,
            confidence: None,
            promoted_from: None,
            supersedes: Vec::new(),
        },
        body: body.to_string(),
        path: Some(format!("/v/memories/long/{id}.md")),
    }
}

fn workspace() -> Workspace {
    Workspace::new(&ProfileConfig {
        name: "default".to_string(),
        root: "/v".to_string(),
        storage: StorageMode::Local,
    })
}

fn config() -> AppConfig {
    let mut config = AppConfig::with_editor(None);
    config.upsert_profile(ProfileConfig {
        name: "default".to_string(),
        root: "/v".to_string(),
        storage: StorageMode::Git,
    });
    config
}

#[test]
fn memories_are_listed_for_programs_and_readers() {
    let memories = vec![memory("m1", "# Color Contract\ntext")];
    assert_eq!(
        list_memory_lines(&memories, false, false),
        vec!["m1\tlong\tproject\tdecision\tColor Contract"]
    );
    assert_eq!(
        list_memory_lines(&memories, true, false),
        vec![
            "ID  TYPE  SCOPE    KIND      TITLE         ",
            "m1  long  project  decision  Color Contract",
        ]
    );
    assert_eq!(list_memory_lines(&Vec::new(), true, false), vec!["ID  TYPE  SCOPE  KIND  TITLE"]);
}

#[test]
fn conflicts_are_listed_with_their_status() {
    let memories = vec![memory("a", "# Same"), memory("b", "# Same")];
    let conflicts = detect_at(&memories, &Vec::new(), 100).unwrap();
    let lines = list_conflict_lines(&conflicts, false, false);
    assert_eq!(
        lines,
        vec![format!("{}\topen\texact-active-duplicate\tproject\t-\t-\t2", conflicts[0].id)]
    );
    let header = list_conflict_lines(&Vec::new(), true, false);
    assert_eq!(header, vec!["ID  STATUS  KIND  SCOPE  SUBJECT  RELATION  MEMBERS"]);
}

#[test]
fn conflicts_are_shown_with_their_evidence() {
    let memories = vec![memory("a", "# Same"), memory("b", "# Same")];
    let conflicts = detect_at(&memories, &Vec::new(), 100).unwrap();
    let lines = print_conflict(&conflicts[0], false);
    assert_eq!(lines[1], "kind: exact-active-duplicate");
    assert_eq!(lines[3], "subject_id: -");
    assert_eq!(lines[6], "members: 2");
    assert_eq!(lines[7], "");
    assert_eq!(lines[8], "member: 1");
    assert_eq!(lines[9], "memory_id: a");
    assert_eq!(lines[14], "member: 2");
    assert_eq!(lines.len(), 19);
}

#[test]
fn changes_are_told_in_a_line() {
    assert_eq!(added_line(&memory("m1", "x"), false), "added long m1");
    assert_eq!(no_op_line("m1", "unchanged-body", false), "no-op m1 reason=unchanged-body");
    assert_eq!(deleted_line("m1", true, false), "deleted m1");
    assert_eq!(deleted_line("m1", false, false), "archived m1");
    assert_eq!(superseded_line("m1", "m2", false), "superseded m1 with m2");
    assert_eq!(done_line("edited", "/v/a.md", Tone::Path, Tone::Success, false), "edited /v/a.md");
    assert_eq!(
        setting_line(ConfigKey::Editor, "/c.toml", false),
        "updated editor in /c.toml"
    );
}

#[test]
fn searches_and_facts_are_rows() {
    let result = SearchResult {
        id: "m1".to_string(),
        memory_type: "short".to_string(),
        title: "Title".to_string(),
        path: "memories/short/m1.md".to_string(),
        source: "grep".to_string(),
        score: 1,
    };
    assert_eq!(
        search_line(&result, "1.000", false),
        "m1\tshort\tgrep\tTitle\t1.000\tmemories/short/m1.md"
    );
    let fact = FactRow {
        id: "fact-1".to_string(),
        subject: "User".to_string(),
        relation: "USES".to_string(),
        object: "Git".to_string(),
        valid_from: Some("1".to_string()),
        valid_to: None,
        expired_at: None,
        learned_at: "2".to_string(),
        source_memory_id: "m1".to_string(),
        source_path: "memories/long/m1.md".to_string(),
        episode_id: "episode-m1".to_string(),
        excerpt: "text".to_string(),
        confidence: Some("0.5".to_string()),
    };
    assert_eq!(fact_line(&fact, false, false), "fact-1\tUser\tUSES\tGit\t1\t\t\t2\t0.5\tm1");
    assert_eq!(
        fact_line(&fact, true, false),
        "fact-1\tUser\tUSES\tGit\t1\t\t\tm1\t0.5\tmemories/long/m1.md\tepisode-m1\ttext"
    );
}

#[test]
fn commits_and_rebuilds_are_counted() {
    let report = RebuildReport {
        indexed: 2,
        diagnostics: 1,
        semantic_entities: 3,
        semantic_episodes: 1,
        semantic_facts: 2,
        semantic_conflicts: 0,
        index_path: "/v/i".to_string(),
    };
    assert_eq!(
        rebuild_line(&report, false),
        "rebuilt /v/i indexed=2 diagnostics=1 semantic_entities=3 semantic_episodes=1 semantic_facts=2 semantic_conflicts=0"
    );
    let mut outcome = TransactionOutcome {
        commit_id: Some("abc".to_string()),
        changed_paths: vec!["a.md".to_string()],
        indexed: 2,
    };
    assert_eq!(commit_line(&outcome, false), "committed abc changes=1 indexed=2");
    outcome.commit_id = None;
    assert_eq!(commit_line(&outcome, false), "nothing to commit indexed=2");
    let dry = DryRunReport { changed_paths: vec!["a.md".to_string()], indexed: 2, diagnostics: 1 };
    assert_eq!(
        dry_run_lines(&dry, false),
        vec![
            "dry-run changes=1",
            "would commit\ta.md",
            "dry-run reindex indexed=2 diagnostics=1",
        ]
    );
    assert_eq!(
        ensure_committable(&dry).unwrap_err().message(),
        "reindex produced 1 diagnostics; commit would fail"
    );
}

#[test]
fn resolutions_are_told_in_full() {
    let resolution = Resolution {
        conflict_id: "c1".to_string(),
        kept_id: "f1".to_string(),
        archived_memory_ids: Vec::new(),
        expired_fact_ids: vec!["f2".to_string()],
        expired_at: Some(-5),
    };
    assert_eq!(
        resolution_lines(
            &resolution,
            ConflictKind::ExclusiveCurrent,
            &Some("abc".to_string()),
            false
        ),
        vec![
            "resolved c1 kind=exclusive-current-conflict kept=f1 archived=0 expired=1",
            "expired_at: -5",
            "expired\tf2",
            "commit: abc",
        ]
    );
}

#[test]
fn profiles_are_listed_and_shown() {
    assert_eq!(profile_lines(&config(), false), vec!["* default\tgit\t/v"]);
    assert_eq!(
        profile_lines(&AppConfig::with_editor(None), false),
        vec!["no profiles configured; run `rem init --root <path>`"]
    );
    assert_eq!(
        profile_details(&config(), None, false).unwrap(),
        vec!["name = default", "storage = git", "root = /v"]
    );
    assert!(profile_details(&config(), Some("none"), false).is_err());
}

fn facts() -> VaultFacts {
    VaultFacts {
        has_root: true,
        has_short: true,
        has_long: true,
        has_policies: true,
        has_archive: true,
        has_cache: false,
        has_short_policy: true,
        has_long_policy: true,
        has_promote_policy: false,
        index: Some(IndexFacts {
            diagnostics: Ok(0),
            semantic: Ok(Some(SemanticCounts { entities: 3, episodes: 1, facts: 2 })),
        }),
        git: Ok(GitInfo {
            root: "/v".to_string(),
            origin_url: "git@github.com:a/b.git".to_string(),
        }),
        gitignore: ".rem/cache/\n".to_string(),
        pending: Ok(vec!["/v/.rem/tx/active.lock".to_string(), "/v/.rem/tx/tx-1".to_string()]),
    }
}

#[test]
fn vaults_are_inspected() {
    let findings = run(&workspace(), &facts());
    let lines: Vec<String> = findings.iter().map(|finding| finding_line(finding, false)).collect();
    assert_eq!(lines[0], "ok\tvault root exists: /v");
    assert_eq!(lines[5], "warn\t.rem/cache missing: /v/.rem/cache");
    assert_eq!(lines[8], "warn\tmissing policy: /v/policies/promote.md");
    assert_eq!(lines[9], "ok\tindex exists: /v/.rem/cache/index.sqlite");
    assert_eq!(lines[10], "ok\tindex diagnostics are clean");
    assert_eq!(lines[11], "ok\tsemantic cache ready entities=3 episodes=1 facts=2");
    assert_eq!(
        lines[12],
        "ok\tGit remote origin is supported for /v: git@github.com:a/b.git"
    );
    assert_eq!(lines[13], "ok\t.gitignore excludes .rem/cache/");
    assert_eq!(lines[14], "warn\tGit-backed vault should ignore .rem/tx/");
    assert!(lines[15].contains("transaction lock present: /v/.rem/tx/active.lock"));
    assert!(lines[16].contains("pending transaction journal: /v/.rem/tx/tx-1"));
    assert_eq!(findings[0].level, DoctorLevel::Fine);

    let broken = VaultFacts {
        index: None,
        git: Err(Error::of("not a Git repository")),
        pending: Ok(Vec::new()),
        ..facts()
    };
    let messages: Vec<String> =
        run(&workspace(), &broken).into_iter().map(|finding| finding.message).collect();
    assert!(messages.contains(&"index missing; run `rem rebuild`".to_string()));
    assert!(messages.contains(&"Git vault validation failed: not a Git repository".to_string()));
    assert!(messages.contains(&"no pending transaction journals".to_string()));

    let unreadable = VaultFacts {
        index: Some(IndexFacts { diagnostics: Err(Error::of("bad")), semantic: Ok(None) }),
        ..facts()
    };
    let messages: Vec<String> =
        run(&workspace(), &unreadable).into_iter().map(|finding| finding.message).collect();
    assert!(messages.contains(&"index is unreadable; run `rem rebuild`: bad".to_string()));
    assert!(messages.contains(&"semantic cache schema missing; run `rem rebuild`".to_string()));
}

#[test]
fn inspections_start_with_the_profile() {
    let (lines, profile) = start_inspection(&config(), "/c.toml", false);
    assert_eq!(lines, vec!["config: /c.toml", "active_profile: default", "root: /v"]);
    assert_eq!(profile.unwrap().root, "/v");
    let (lines, profile) = start_inspection(&AppConfig::with_editor(None), "/c.toml", false);
    assert!(lines[1].contains("no profiles configured"));
    assert!(profile.is_none());
}

#[test]
fn policies_are_written_where_they_are_missing() {
    let policies = default_policies(&workspace());
    assert_eq!(policies[0].path, "/v/policies/short.md");
    assert!(policies[0].content.starts_with("---\npolicy_id: default-short\n"));
    assert!(policies[1].content.contains("max_age_days: null"));
    assert!(policies[2].content.ends_with("multiple sessions.\n"));
    assert_eq!(write_if_missing(PathState::Missing, "/p").unwrap(), PolicyStep::Write);
    assert_eq!(write_if_missing(PathState::File, "/p").unwrap(), PolicyStep::Keep);
    assert_eq!(
        write_if_missing(PathState::Symlink, "/p").unwrap_err().message(),
        "refusing to use symlinked policy file /p"
    );
    assert_eq!(
        write_if_missing(PathState::Directory, "/p").unwrap_err().message(),
        "policy path /p must be a file"
    );
}
