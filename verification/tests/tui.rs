use rem::config::{AppConfig, ProfileConfig, StorageMode};
use rem::error::Error;
use rem::finder::{fuzzy_path_matches, RootFinder, RootFinderFocus};
use rem::picker::{move_to_enabled, search_options, Motion};
use rem::tui::{
    active_profile, field_at, ConfigApp, Effect, Field, Key, KeyPress, Surroundings, FIELD_COUNT,
};

fn around() -> Surroundings {
    Surroundings {
        home: Some("/home/ada".to_string()),
        current_dir: "/work".to_string(),
        editor: None,
    }
}

fn app(finder_root: Option<&str>) -> ConfigApp {
    ConfigApp::with_finder_root(
        AppConfig::with_editor(None),
        "/home/ada/.rem/config.toml".to_string(),
        around(),
        finder_root.map(str::to_string),
    )
}

fn key(key: Key) -> KeyPress {
    KeyPress { key, control: false }
}

fn ctrl(code: char) -> KeyPress {
    KeyPress { key: Key::Char(code), control: true }
}

fn select_field(app: &mut ConfigApp, field: Field) {
    app.selected = (0..FIELD_COUNT).find(|at| field_at(*at) == field).unwrap();
}

#[test]
fn finder_requires_a_valid_home_directory() {
    let mut app = app(None);
    select_field(&mut app, Field::ProfileRoot);

    app.handle_key(ctrl('f'));

    assert!(app.root_finder.is_none());
    assert!(app.message.contains("HOME"));
}

#[test]
fn fresh_configure_saves_without_a_git_vault_and_uppercase_s_works() {
    let mut app = app(None);

    assert_eq!(app.handle_key(key(Key::Char('S'))), Effect::Save);
    app.saved(Ok(()));

    assert!(!app.should_quit);
    assert_eq!(app.config.default_search, "auto");
    assert!(app.message.starts_with("Saved "));
}

#[test]
fn option_pickers_persist_explicit_storage_and_search_values() {
    let mut app = app(None);

    select_field(&mut app, Field::StorageMode);
    app.handle_key(key(Key::Enter));
    app.handle_key(key(Key::Down));
    app.handle_key(key(Key::Enter));
    assert_eq!(active_profile(&app.config).storage, StorageMode::Obsidian);

    select_field(&mut app, Field::DefaultSearch);
    app.handle_key(key(Key::Enter));
    app.handle_key(key(Key::Down));
    app.handle_key(key(Key::Down));
    app.handle_key(key(Key::Enter));
    assert_eq!(app.config.default_search, "bm25");

    assert_eq!(app.handle_key(key(Key::Char('s'))), Effect::Save);
    assert_eq!(app.config.default_search, "bm25");
    assert_eq!(app.config.active_profile().unwrap().storage, StorageMode::Obsidian);
}

#[test]
fn profile_root_finder_searches_the_full_injected_home_directory() {
    let profile_root = "/tmp/home/current-project/missing-child";
    let direct_root = "/tmp/typed-root";
    let picked_root = "/tmp/home/outside-project/one/two/three/four/picked-directory";
    let config = AppConfig {
        active_profile: "default".to_string(),
        default_search: "auto".to_string(),
        editor: None,
        profiles: vec![ProfileConfig {
            name: "default".to_string(),
            root: profile_root.to_string(),
            storage: StorageMode::Local,
        }],
    };
    let mut app = ConfigApp::with_finder_root(
        config,
        "/tmp/config.toml".to_string(),
        around(),
        Some("/tmp/home".to_string()),
    );
    select_field(&mut app, Field::ProfileRoot);

    app.handle_key(key(Key::Enter));
    app.handle_key(ctrl('a'));
    for character in direct_root.chars() {
        app.handle_key(key(Key::Char(character)));
    }
    app.handle_key(key(Key::Enter));
    assert_eq!(active_profile(&app.config).root, direct_root);

    app.config.profiles[0].root = profile_root.to_string();
    app.handle_key(key(Key::Char(' ')));
    app.handle_key(key(Key::Char('f')));
    app.handle_key(key(Key::Char('f')));
    assert!(app.root_finder.is_none());
    app.handle_key(ctrl('f'));
    assert!(app.root_finder.is_some());
    app.poll_root_finder(&vec!["/tmp/home/other".to_string(), picked_root.to_string()], true);
    app.handle_key(ctrl('a'));
    for character in "picked-directory".chars() {
        app.handle_key(key(Key::Char(character)));
    }
    app.poll_root_finder(&Vec::new(), true);
    assert_eq!(app.root_finder.as_ref().and_then(RootFinder::selected_path), Some(picked_root));
    app.handle_key(key(Key::Enter));

    assert_eq!(active_profile(&app.config).root, picked_root);
}

#[test]
fn root_finder_prefills_home_path_and_uses_tab_for_path_focus() {
    let mut app = app(Some("/tmp/home"));
    select_field(&mut app, Field::ProfileRoot);
    app.handle_key(ctrl('f'));
    app.poll_root_finder(
        &vec!["/tmp/home/j-k-first".to_string(), "/tmp/home/j-k-second".to_string()],
        true,
    );

    assert_eq!(app.root_finder.as_ref().expect("finder is open").query, "/tmp/home");
    app.handle_key(ctrl('a'));
    app.handle_key(key(Key::Char('j')));
    app.handle_key(key(Key::Char('k')));
    app.poll_root_finder(&Vec::new(), true);

    let finder = app.root_finder.as_ref().expect("finder is open");
    assert_eq!(finder.query, "jk");
    assert_eq!(finder.focus, RootFinderFocus::Filter);
    assert!(finder.matches.len() >= 2);

    app.handle_key(key(Key::Tab));
    let selected = app.root_finder.as_ref().expect("finder is open").selected;
    assert_eq!(
        app.root_finder.as_ref().expect("finder is open").focus,
        RootFinderFocus::Paths
    );
    app.handle_key(key(Key::Char('j')));
    let finder = app.root_finder.as_ref().expect("finder is open");
    assert_eq!(finder.query, "jk");
    assert_ne!(finder.selected, selected);

    app.handle_key(key(Key::BackTab));
    app.handle_key(key(Key::Char('k')));
    let finder = app.root_finder.as_ref().expect("finder is open");
    assert_eq!(finder.focus, RootFinderFocus::Filter);
    assert_eq!(finder.query, "jkk");
}

#[test]
fn save_failure_stays_in_the_tui_and_keeps_changes_unsaved() {
    let mut app = app(None);
    app.dirty = true;

    assert_eq!(app.handle_key(key(Key::Char('S'))), Effect::Save);
    app.saved(Err(Error::of("not a directory")));

    assert!(!app.should_quit);
    assert!(app.dirty);
    assert!(app.message.starts_with("Save failed:"));
}

#[test]
fn default_search_picker_skips_unavailable_vector_option() {
    let mut app = app(None);
    select_field(&mut app, Field::DefaultSearch);
    app.handle_key(key(Key::Enter));
    app.handle_key(key(Key::Down));
    app.handle_key(key(Key::Down));
    app.handle_key(key(Key::Down));

    assert_eq!(app.picker.as_ref().unwrap().selected_option().value, "all");
    assert_eq!(app.config.default_search, "auto");
}

#[test]
fn a_new_profile_name_copies_the_active_profile() {
    let mut app = app(None);
    select_field(&mut app, Field::ActiveProfile);
    app.handle_key(key(Key::Enter));
    app.handle_key(ctrl('u'));
    app.handle_paste("work");
    app.handle_key(key(Key::Enter));
    assert_eq!(app.config.active_profile, "work");
    assert_eq!(app.config.profiles.len(), 2);
    assert_eq!(active_profile(&app.config).root, "/work/rem");
    assert_eq!(app.message, "Updated active-profile. Press S to write config changes.");
    assert!(app.dirty);
}

#[test]
fn edits_can_be_cancelled() {
    let mut app = app(None);
    select_field(&mut app, Field::Editor);
    app.handle_key(key(Key::Enter));
    app.handle_key(key(Key::Char('v')));
    app.handle_key(key(Key::Backspace));
    app.handle_key(key(Key::Char('x')));
    assert_eq!(app.input, "x");
    app.handle_key(key(Key::Esc));
    assert_eq!(app.config.editor, None);
    assert_eq!(app.editing, None);
    assert!(!app.dirty);
    assert_eq!(app.message, "Edit cancelled.");
}

#[test]
fn an_empty_root_is_refused() {
    let mut app = app(None);
    select_field(&mut app, Field::ProfileRoot);
    app.handle_key(key(Key::Enter));
    app.handle_key(ctrl('a'));
    app.handle_key(key(Key::Enter));
    assert_eq!(app.message, "Invalid profile-root: profile root cannot be empty");
    assert_eq!(app.editing, Some(Field::ProfileRoot));
}

#[test]
fn keys_on_the_list_move_reset_and_quit() {
    let mut app = app(None);
    app.handle_key(key(Key::Up));
    assert_eq!(app.selected, FIELD_COUNT - 1);
    app.handle_key(key(Key::Char('j')));
    assert_eq!(app.selected, 0);
    app.config.default_search = "grep".to_string();
    app.handle_key(key(Key::Char('R')));
    assert_eq!(app.config.default_search, "auto");
    assert!(app.dirty);
    assert_eq!(app.handle_key(key(Key::Char('i'))), Effect::InitializeVault);
    app.initialized(Err(Error::of("no repository")));
    assert_eq!(app.message, "Could not initialize vault: no repository");
    app.initialized(Ok(()));
    assert_eq!(
        app.message,
        "Initialized /work/rem. Press S to save the profile configuration."
    );
    app.handle_key(key(Key::Esc));
    assert!(app.should_quit);
}

#[test]
fn paths_match_by_scattered_letters() {
    assert!(fuzzy_path_matches("/home/ada/Projects/rem", "prj rem"));
    assert!(!fuzzy_path_matches("/home/ada/Projects/rem", "xyz"));
    assert!(fuzzy_path_matches("/any/path", ""));
}

#[test]
fn moving_passes_over_disabled_options() {
    let options = search_options();
    let disabled = options.iter().position(|option| !option.enabled).unwrap();
    let next = move_to_enabled(options, disabled - 1, Motion::Next);
    assert!(options[next].enabled);
    assert_ne!(next, disabled);
}
