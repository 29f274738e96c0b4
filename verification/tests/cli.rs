use rem::cli::{
    command_categories, render_grouped_commands, Cli, Command, CommandSummary, ConfigKey,
    ConflictKindArg, ListArgs, MemoryWriteArgs, MutationArgs, PromoteArgs, SearchArgs,
    SupersedeArgs,
};
use rem::command::{
    add_input, add_message, add_profile, chosen_editor, commit_message, decide_supersede,
    decide_update, delete_message, editor_command, ensure_resolved, initial_profile, list_filter,
    memory_message, promote_message, remember_profile, search_mode, set_config_value,
    supersede_input, supersede_message, supersede_source, transaction_options, use_profile, ChangeDecision,
};
use rem::config::{AppConfig, ProfileConfig, StorageMode};
use rem::conflict::ConflictKind;
use rem::memory::{create_memory, Memory, MemoryKind, MemoryScope, MemoryStatus, MemoryType};
use rem::output::ColorChoice;
use rem::search::SearchMode;

fn supersede_args() -> SupersedeArgs {
    SupersedeArgs {
        tx: MutationArgs::default(),
        id: "m1".to_string(),
        short: false,
        long: false,
        memory_type: None,
        scope: None,
        kind: None,
        tags: Vec::new(),
        source: None,
        source_id: None,
        agent: None,
        session: None,
        text: vec!["same body".to_string()],
    }
}

fn write_args() -> MemoryWriteArgs {
    MemoryWriteArgs {
        tx: MutationArgs::default(),
        short: false,
        long: false,
        memory_type: None,
        scope: MemoryScope::User,
        kind: MemoryKind::Note,
        tags: vec!["b".to_string(), "a".to_string()],
        source: "cli".to_string(),
        source_id: None,
        agent: Some("codex".to_string()),
        session: None,
        text: vec![" same".to_string(), "body ".to_string()],
    }
}

fn memory() -> Memory {
    create_memory(add_input(write_args()), "m1".to_string(), "1").unwrap()
}

#[test]
fn supersede_metadata_override_detection_is_explicit() {
    let mut args = supersede_args();
    assert!(!args.has_metadata_overrides());

    args.kind = Some(MemoryKind::Decision);
    assert!(args.has_metadata_overrides());
    args.kind = None;
    args.source_id = Some("event-2".to_string());
    assert!(args.has_metadata_overrides());
    args.source_id = None;
    args.tags.push("durable".to_string());
    assert!(args.has_metadata_overrides());
}

/// The commands that the program has.
const COMMANDS: [&str; 21] = [
    "configure", "init", "profile", "add", "list", "show", "edit", "update", "append", "review",
    "supersede", "delete", "promote", "commit", "search", "facts", "conflict", "rebuild", "doctor",
    "config", "help",
];

#[test]
fn command_categories_cover_every_visible_subcommand_once() {
    for name in COMMANDS {
        let category_count = command_categories()
            .iter()
            .filter(|category| category.commands.contains(&name))
            .count();
        assert_eq!(
            category_count, 1,
            "top-level command {name:?} must belong to exactly one help category"
        );
    }

    for category in command_categories() {
        for name in category.commands {
            assert!(
                COMMANDS.contains(name),
                "help category {:?} references missing command {name:?}",
                category.heading
            );
        }
    }
}

fn summary(name: &str, about: &str) -> CommandSummary {
    CommandSummary { name: name.to_string(), about: about.to_string() }
}

#[test]
fn help_groups_commands_under_headings() {
    let commands = vec![
        summary("show", "Show one memory."),
        summary("extra", "Something else."),
        summary("configure", "Open the settings."),
        summary("list", "List memories."),
    ];
    assert_eq!(
        render_grouped_commands(&commands),
        "Setup & Configuration:\n  configure  Open the settings.\n\nRead & Search:\n  list       List memories.\n  show       Show one memory.\n\nOther:\n  extra      Something else."
    );
    assert_eq!(render_grouped_commands(&Vec::new()), "");
}

#[test]
fn types_are_resolved_from_flags_and_names() {
    let mut args = write_args();
    assert_eq!(args.resolved_type(), MemoryType::Short);
    args.memory_type = Some(MemoryType::Long);
    assert_eq!(args.resolved_type(), MemoryType::Long);
    args.short = true;
    assert_eq!(args.resolved_type(), MemoryType::Short);
    assert_eq!(args.body(), "same body");
    assert_eq!(supersede_args().resolved_type(MemoryType::Long), MemoryType::Long);
}

#[test]
fn without_a_command_the_settings_open() {
    let cli = Cli { color: ColorChoice::Auto, command: None };
    assert!(matches!(cli.command(), Command::Configure));
    let cli = Cli { color: ColorChoice::Auto, command: Some(Command::Doctor) };
    assert!(matches!(cli.command(), Command::Doctor));
}

#[test]
fn kinds_of_conflicts_are_named_on_the_command_line() {
    assert_eq!(
        ConflictKind::from(ConflictKindArg::ExactActiveDuplicate),
        ConflictKind::ExactActiveDuplicate
    );
    assert_eq!(
        ConflictKind::from(ConflictKindArg::ExclusiveCurrent),
        ConflictKind::ExclusiveCurrent
    );
}

#[test]
fn promotions_may_bring_another_body() {
    let mut args =
        PromoteArgs { tx: MutationArgs::default(), id: "m".to_string(), text: Vec::new() };
    assert_eq!(args.body_override(), None);
    args.text = vec!["new".to_string(), "body".to_string()];
    assert_eq!(args.body_override().as_deref(), Some("new body"));
}

fn search_args() -> SearchArgs {
    SearchArgs {
        grep: false,
        bm25: false,
        vector: false,
        all: false,
        mode: None,
        query: vec!["alpha".to_string(), "beta".to_string()],
    }
}

#[test]
fn search_modes_come_from_flags_or_the_configuration() {
    let mut args = search_args();
    assert_eq!(args.query(), "alpha beta");
    assert!(!args.has_explicit_mode());
    assert_eq!(args.resolved_mode(), SearchMode::Auto);
    assert_eq!(search_mode(&args, "bm25").unwrap(), SearchMode::Bm25);
    assert!(search_mode(&args, "nonsense").unwrap_err().message().contains("invalid search mode"));
    args.grep = true;
    assert_eq!(search_mode(&args, "nonsense").unwrap(), SearchMode::Grep);
    args.all = true;
    assert_eq!(args.resolved_mode(), SearchMode::All);
}

#[test]
fn lists_can_be_narrowed() {
    let filter = list_filter(ListArgs {
        short: false,
        long: true,
        memory_type: None,
        scope: Some(MemoryScope::User),
        kind: None,
        tag: Some("rust".to_string()),
        all: true,
    });
    assert_eq!(filter.memory_type, Some(MemoryType::Long));
    assert_eq!(filter.scope, Some(MemoryScope::User));
    assert_eq!(filter.tag.as_deref(), Some("rust"));
    assert!(filter.include_archived);
}

#[test]
fn settings_are_checked_before_they_are_set() {
    let mut config = AppConfig::with_editor(None);
    assert_eq!(
        set_config_value(&mut config, ConfigKey::ActiveProfile, "work").unwrap_err().message(),
        "profile \"work\" is not configured"
    );
    assert_eq!(config.active_profile, "default");
    set_config_value(&mut config, ConfigKey::DefaultSearch, "grep").unwrap();
    assert_eq!(config.default_search, "grep");
    assert!(set_config_value(&mut config, ConfigKey::DefaultSearch, "loud").is_err());
    set_config_value(&mut config, ConfigKey::Editor, " vim ").unwrap();
    assert_eq!(config.editor.as_deref(), Some("vim"));
    set_config_value(&mut config, ConfigKey::Editor, " ").unwrap();
    assert_eq!(config.editor, None);
    assert_eq!(ConfigKey::ActiveProfile.label(), "active-profile");
}

#[test]
fn profiles_are_added_and_used() {
    let profile = |name: &str, root: &str| ProfileConfig {
        name: name.to_string(),
        root: root.to_string(),
        storage: StorageMode::Git,
    };
    let mut config = AppConfig::with_editor(None);
    add_profile(&mut config, profile("work", "/w"));
    assert_eq!(config.active_profile, "work");
    add_profile(&mut config, profile("home", "/h"));
    assert_eq!(config.active_profile, "work");
    use_profile(&mut config, "home").unwrap();
    assert_eq!(config.active_profile, "home");
    assert!(use_profile(&mut config, "none").is_err());
    remember_profile(&mut config, profile("third", "/t"));
    assert_eq!(config.active_profile, "third");
    assert_eq!(config.profiles.len(), 3);
}

#[test]
fn a_vault_is_made_where_the_profile_is() {
    let mut config = AppConfig::with_editor(None);
    let fresh = initial_profile(&config, None, None, None, None, "/work");
    assert_eq!(fresh.name, "default");
    assert_eq!(fresh.root, "/work/rem");
    assert_eq!(fresh.storage, StorageMode::Local);
    remember_profile(
        &mut config,
        ProfileConfig {
            name: "default".to_string(),
            root: "/vault".to_string(),
            storage: StorageMode::Obsidian,
        },
    );
    let known = initial_profile(&config, None, None, None, None, "/work");
    assert_eq!(known.root, "/vault");
    assert_eq!(known.storage, StorageMode::Obsidian);
    let given = initial_profile(
        &config,
        Some("new".to_string()),
        Some("~/v".to_string()),
        Some(StorageMode::Git),
        Some("/home/ada".to_string()),
        "/work",
    );
    assert_eq!(given.name, "new");
    assert_eq!(given.root, "/home/ada/v");
    assert_eq!(given.storage, StorageMode::Git);
}

#[test]
fn editors_are_commands_with_arguments() {
    assert_eq!(chosen_editor(&None, &None), "vi");
    assert_eq!(chosen_editor(&None, &Some("nano".to_string())), "nano");
    assert_eq!(chosen_editor(&Some("code -w".to_string()), &Some("nano".to_string())), "code -w");
    assert_eq!(editor_command(" code  -w ").unwrap(), vec!["code", "-w"]);
    assert_eq!(editor_command("  ").unwrap_err().message(), "editor command cannot be empty");
}

#[test]
fn unchanged_bodies_are_not_written() {
    assert_eq!(decide_update(&memory(), "same body\n").unwrap(), ChangeDecision::Unchanged);
    assert_eq!(decide_update(&memory(), "other").unwrap(), ChangeDecision::Change);
    let mut archived = memory();
    archived.metadata.status = MemoryStatus::Archived;
    assert_eq!(
        decide_update(&archived, "other").unwrap_err().message(),
        "only active memories can be updated"
    );
    assert_eq!(
        decide_supersede(&memory(), &supersede_args()).unwrap(),
        ChangeDecision::Unchanged
    );
    let mut args = supersede_args();
    args.kind = Some(MemoryKind::Decision);
    assert_eq!(decide_supersede(&memory(), &args).unwrap(), ChangeDecision::Change);
}

#[test]
fn replacements_take_over_what_is_not_given() {
    let mut args = supersede_args();
    args.kind = Some(MemoryKind::Decision);
    let replacement =
        create_memory(supersede_input(&memory(), args), "m2".to_string(), "2").unwrap();
    assert_eq!(replacement.metadata.kind, MemoryKind::Decision);
    assert_eq!(replacement.metadata.scope, MemoryScope::User);
    assert_eq!(replacement.metadata.tags, vec!["a", "b"]);
    assert_eq!(replacement.metadata.source.as_deref(), Some("supersede"));
    assert_eq!(replacement.metadata.agent.as_deref(), Some("codex"));
    assert_eq!(replacement.body, "same body");
}

#[test]
fn changes_are_recorded_in_words() {
    assert_eq!(add_message(&memory()), "rem: add short memory m1");
    assert_eq!(memory_message("append", "m1"), "rem: append memory m1");
    assert_eq!(delete_message(true, "m1"), "rem: delete memory m1");
    assert_eq!(delete_message(false, "m1"), "rem: archive memory m1");
    assert_eq!(promote_message(&memory(), "m0"), "rem: promote memory m0 to m1");
    assert_eq!(supersede_message("m1", "m2"), "rem: supersede memory m1 with m2");
    assert_eq!(commit_message(None), "rem: commit vault changes");
    assert_eq!(commit_message(Some("mine".to_string())), "mine");
    assert!(transaction_options(MutationArgs::default()).is_ok());
    assert!(ensure_resolved("c1", false).is_ok());
    assert_eq!(
        ensure_resolved("c1", true).unwrap_err().message(),
        "conflict c1 remains after resolution; rolled back without committing"
    );
}

#[test]
fn replacements_come_from_superseding_unless_told_otherwise() {
    let mut args = supersede_args();
    assert_eq!(supersede_source(&args), "supersede");
    args.source = Some("import".to_string());
    assert_eq!(supersede_source(&args), "import");
}
