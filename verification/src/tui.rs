//! The settings screen: what it shows, and what each key does to it.

use vstd::prelude::*;
use vstd::string::*;

use crate::config::{
    lemma_profile_index_spec, normal_root, normalize_root, profile_index, upserted,
    upserted_profile_is_found, AppConfig, ConfigView, ProfileConfig, ProfileView, StorageMode,
};
use crate::error::Error;
use crate::finder::{
    opened, pop_char, selected_in, unfiltered, without_last, FinderView, RootFinder,
    RootFinderFocus,
};
use crate::path;
use crate::picker::{
    self, beside, moved, search_choices, starting_at, storage_choices, Motion, OptionView,
    PickerOption,
};
use crate::search::SearchMode;
use crate::text;

verus! {

// Fields.

/// A setting.
#[derive(Clone, Copy, Debug, PartialEq, Eq, Structural)]
pub enum Field {
    ActiveProfile,
    ProfileRoot,
    StorageMode,
    DefaultSearch,
    Editor,
}

/// The settings in the order in which they are shown.
pub open spec fn all_fields() -> Seq<Field> {
    seq![
        Field::ActiveProfile,
        Field::ProfileRoot,
        Field::StorageMode,
        Field::DefaultSearch,
        Field::Editor,
    ]
}

/// The number of settings.
pub const FIELD_COUNT: usize = 5;

pub fn field_at(at: usize) -> (field: Field)
    requires
        at < FIELD_COUNT,
    ensures
        field == all_fields()[at as int],
{
    if at == 0 {
        Field::ActiveProfile
    } else if at == 1 {
        Field::ProfileRoot
    } else if at == 2 {
        Field::StorageMode
    } else if at == 3 {
        Field::DefaultSearch
    } else {
        Field::Editor
    }
}

/// Whether there is a profile of the active name.
pub open spec fn has_active(config: ConfigView) -> bool {
    profile_index(config.profiles, config.active_profile) < config.profiles.len()
}

/// The active profile, else the first one.
pub open spec fn active_of(config: ConfigView) -> ProfileView {
    if has_active(config) {
        config.profiles[profile_index(config.profiles, config.active_profile)]
    } else {
        config.profiles[0]
    }
}

/// A configuration that has an active profile: the one it names, made new below
/// the current directory where there is none.
pub open spec fn ensured(config: ConfigView, current_dir: Seq<char>) -> ConfigView {
    if has_active(config) {
        config
    } else {
        ConfigView {
            profiles: upserted(
                config.profiles,
                ProfileView {
                    name: config.active_profile,
                    root: path::below(current_dir, "rem"@),
                    storage: StorageMode::Local,
                },
            ),
            ..config
        }
    }
}

pub fn ensure_active_profile(config: &mut AppConfig, current_dir: &str)
    ensures
        final(config)@ == ensured(old(config)@, current_dir@),
        has_active(final(config)@),
{
    let at = config.find_profile(config.active_profile.as_str());
    if at < config.profiles.len() {
        return ;
    }
    let profile = ProfileConfig {
        name: config.active_profile.clone(),
        root: path::join(current_dir, "rem"),
        storage: StorageMode::Local,
    };
    proof {
        lemma_profile_index_spec(config@.profiles, config@.active_profile);
        upserted_profile_is_found(config@.profiles, profile@);
    }
    config.upsert_profile(profile);
}

pub fn active_profile(config: &AppConfig) -> (profile: &ProfileConfig)
    requires
        config.profiles.len() > 0,
    ensures
        profile@ == active_of(config@),
{
    let at = config.find_profile(config.active_profile.as_str());
    if at < config.profiles.len() {
        assert(config@.profiles[at as int] == config.profiles[at as int]@);
        &config.profiles[at]
    } else {
        assert(config@.profiles[0] == config.profiles[0]@);
        &config.profiles[0]
    }
}

pub open spec fn or_nothing(value: Option<Seq<char>>) -> Seq<char> {
    match value {
        Some(value) => value,
        None => seq![],
    }
}

impl Field {
    pub open spec fn name(self) -> Seq<char> {
        match self {
            Field::ActiveProfile => "active-profile"@,
            Field::ProfileRoot => "profile-root"@,
            Field::StorageMode => "storage-mode"@,
            Field::DefaultSearch => "default-search"@,
            Field::Editor => "editor"@,
        }
    }

    pub fn label(self) -> (label: &'static str)
        ensures
            label@ == self.name(),
    {
        match self {
            Field::ActiveProfile => "active-profile",
            Field::ProfileRoot => "profile-root",
            Field::StorageMode => "storage-mode",
            Field::DefaultSearch => "default-search",
            Field::Editor => "editor",
        }
    }

    pub fn help(self) -> (help: &'static str)
        ensures
            help@ == (match self {
                Field::ActiveProfile => "Profile name; a new name copies the active profile"@,
                Field::ProfileRoot => "Type a path, or Ctrl-F to search directories under HOME"@,
                Field::StorageMode => "Choose local, obsidian, or git"@,
                Field::DefaultSearch => "Choose the default local search mode"@,
                Field::Editor => "External editor command"@,
            }),
    {
        match self {
            Field::ActiveProfile => "Profile name; a new name copies the active profile",
            Field::ProfileRoot => "Type a path, or Ctrl-F to search directories under HOME",
            Field::StorageMode => "Choose local, obsidian, or git",
            Field::DefaultSearch => "Choose the default local search mode",
            Field::Editor => "External editor command",
        }
    }

    /// The options of a setting that is chosen, not typed.
    pub open spec fn choices(self) -> Option<Seq<OptionView>> {
        match self {
            Field::StorageMode => Some(storage_choices()),
            Field::DefaultSearch => Some(search_choices()),
            _ => None,
        }
    }

    pub fn picker_options(self) -> (options: Option<&'static [PickerOption]>)
        ensures
            match options {
                Some(options) => self.choices() == Some(options.deep_view()) && options.len() > 0,
                None => self.choices() is None,
            },
    {
        match self {
            Field::StorageMode => {
                let options = picker::storage_options();
                assert(options.deep_view().len() == options.len());
                Some(options)
            },
            Field::DefaultSearch => {
                let options = picker::search_options();
                assert(options.deep_view().len() == options.len());
                Some(options)
            },
            _ => None,
        }
    }

    /// What a setting says.
    pub open spec fn value_in(self, config: ConfigView) -> Seq<char> {
        match self {
            Field::ActiveProfile => config.active_profile,
            Field::ProfileRoot => active_of(config).root,
            Field::StorageMode => active_of(config).storage.name(),
            Field::DefaultSearch => config.default_search,
            Field::Editor => or_nothing(config.editor),
        }
    }

    pub fn value(self, config: &AppConfig) -> (value: String)
        requires
            config.profiles.len() > 0,
        ensures
            value@ == self.value_in(config@),
    {
        match self {
            Field::ActiveProfile => config.active_profile.clone(),
            Field::ProfileRoot => active_profile(config).root.clone(),
            Field::StorageMode => active_profile(config).storage.label().to_owned(),
            Field::DefaultSearch => config.default_search.clone(),
            Field::Editor => match &config.editor {
                Some(editor) => editor.clone(),
                None => {
                    let empty = String::new();
                    assert(empty@ =~= seq![]);
                    empty
                },
            },
        }
    }
}

/// Where a program runs.
#[derive(Debug)]
pub struct Surroundings {
    pub home: Option<String>,
    pub current_dir: String,
    pub editor: Option<String>,
}

#[verifier::ext_equal]
pub struct SurroundingsView {
    pub home: Option<Seq<char>>,
    pub current_dir: Seq<char>,
    pub editor: Option<Seq<char>>,
}

impl View for Surroundings {
    type V = SurroundingsView;

    open spec fn view(&self) -> SurroundingsView {
        SurroundingsView {
            home: self.home.deep_view(),
            current_dir: self.current_dir@,
            editor: self.editor.deep_view(),
        }
    }
}

pub open spec fn with_root(config: ConfigView, root: Seq<char>) -> ConfigView {
    let at = profile_index(config.profiles, config.active_profile);
    ConfigView {
        profiles: config.profiles.update(at, ProfileView { root, ..config.profiles[at] }),
        ..config
    }
}

pub open spec fn with_storage(config: ConfigView, storage: StorageMode) -> ConfigView {
    let at = profile_index(config.profiles, config.active_profile);
    ConfigView {
        profiles: config.profiles.update(at, ProfileView { storage, ..config.profiles[at] }),
        ..config
    }
}

/// A configuration in which another profile is active; one that is new copies
/// the one that was active.
pub open spec fn with_active(config: ConfigView, name: Seq<char>) -> ConfigView {
    let renamed = ConfigView { active_profile: name, ..config };
    if has_active(renamed) {
        renamed
    } else {
        ConfigView {
            profiles: upserted(
                config.profiles,
                ProfileView {
                    name,
                    root: active_of(config).root,
                    storage: active_of(config).storage,
                },
            ),
            ..renamed
        }
    }
}

/// What setting a value comes to.
pub open spec fn set_to(
    field: Field,
    config: ConfigView,
    value: Seq<char>,
    around: SurroundingsView,
) -> Result<ConfigView, Seq<char>> {
    let config = ensured(config, around.current_dir);
    match field {
        Field::ActiveProfile => Ok(
            with_active(
                config,
                if value.len() == 0 {
                    "default"@
                } else {
                    value
                },
            ),
        ),
        Field::ProfileRoot => if text::trimmed(value).len() == 0 {
            Err("profile root cannot be empty"@)
        } else {
            Ok(with_root(config, normal_root(value, around.home, around.current_dir)))
        },
        Field::StorageMode => match StorageMode::of_name(value) {
            Ok(storage) => Ok(with_storage(config, storage)),
            Err(message) => Err(message),
        },
        Field::DefaultSearch => match SearchMode::of_name(value) {
            Ok(mode) => Ok(ConfigView { default_search: mode.name(), ..config }),
            Err(message) => Err(message),
        },
        Field::Editor => Ok(
            ConfigView {
                editor: if value.len() == 0 {
                    None
                } else {
                    Some(value)
                },
                ..config
            },
        ),
    }
}

fn set_root(config: &mut AppConfig, root: String)
    requires
        has_active(old(config)@),
    ensures
        final(config)@ == with_root(old(config)@, root@),
        has_active(final(config)@),
{
    let at = config.find_profile(config.active_profile.as_str());
    let ghost before = config@;
    proof {
        lemma_profile_index_spec(before.profiles, before.active_profile);
        lemma_changed_in_place(before.profiles, before.active_profile, ProfileView {
            root: root@,
            ..before.profiles[at as int]
        });
    }
    let profile = ProfileConfig {
        name: config.profiles[at].name.clone(),
        root,
        storage: config.profiles[at].storage,
    };
    let ghost model = profile@;
    config.profiles.set(at, profile);
    assert(config.profiles.deep_view() =~= before.profiles.update(at as int, model));
}

fn set_storage(config: &mut AppConfig, storage: StorageMode)
    requires
        has_active(old(config)@),
    ensures
        final(config)@ == with_storage(old(config)@, storage),
        has_active(final(config)@),
{
    let at = config.find_profile(config.active_profile.as_str());
    let ghost before = config@;
    proof {
        lemma_profile_index_spec(before.profiles, before.active_profile);
        lemma_changed_in_place(before.profiles, before.active_profile, ProfileView {
            storage,
            ..before.profiles[at as int]
        });
    }
    let profile = ProfileConfig {
        name: config.profiles[at].name.clone(),
        root: config.profiles[at].root.clone(),
        storage,
    };
    let ghost model = profile@;
    config.profiles.set(at, profile);
    assert(config.profiles.deep_view() =~= before.profiles.update(at as int, model));
}

proof fn lemma_changed_in_place(profiles: Seq<ProfileView>, name: Seq<char>, changed: ProfileView)
    requires
        profile_index(profiles, name) < profiles.len(),
        changed.name == name,
    ensures
        profile_index(profiles.update(profile_index(profiles, name), changed), name)
            == profile_index(profiles, name),
{
    lemma_profile_index_spec(profiles, name);
    let at = profile_index(profiles, name);
    crate::config::lemma_profile_index(profiles.update(at, changed), name, at);
}

impl Field {
    /// Sets a value. One that is refused changes nothing, besides that there is
    /// an active profile.
    pub fn set_value(self, config: &mut AppConfig, value: &str, around: &Surroundings) -> (set: Result<
        (),
        Error,
    >)
        ensures
            match set {
                Ok(_) => set_to(self, old(config)@, value@, around@) == Ok::<_, Seq<char>>(
                    final(config)@,
                ),
                Err(error) => {
                    &&& set_to(self, old(config)@, value@, around@) == Err::<ConfigView, _>(error@)
                    &&& final(config)@ == ensured(old(config)@, around@.current_dir)
                },
            },
            has_active(final(config)@),
    {
        ensure_active_profile(config, around.current_dir.as_str());
        let ghost ready = config@;
        match self {
            Field::ActiveProfile => {
                proof {
                    lemma_profile_index_spec(ready.profiles, ready.active_profile);
                }
                let old_profile = active_profile(config).clone();
                let name = if value.is_empty() {
                    "default".to_owned()
                } else {
                    value.to_owned()
                };
                config.active_profile = name;
                let at = config.find_profile(config.active_profile.as_str());
                if at >= config.profiles.len() {
                    let profile = ProfileConfig {
                        name: config.active_profile.clone(),
                        root: old_profile.root,
                        storage: old_profile.storage,
                    };
                    proof {
                        upserted_profile_is_found(ready.profiles, profile@);
                    }
                    config.upsert_profile(profile);
                }
                Ok(())
            },
            Field::ProfileRoot => {
                if text::trim(value).is_empty() {
                    return Err(Error::of("profile root cannot be empty"));
                }
                let root = normalize_root(
                    value.to_owned(),
                    text::clone_optional(&around.home),
                    around.current_dir.as_str(),
                );
                set_root(config, root);
                Ok(())
            },
            Field::StorageMode => {
                let storage = StorageMode::parse_config_value(value)?;
                set_storage(config, storage);
                Ok(())
            },
            Field::DefaultSearch => {
                let mode = SearchMode::parse_config_value(value)?;
                config.default_search = mode.label().to_owned();
                Ok(())
            },
            Field::Editor => {
                config.editor =
                if value.is_empty() {
                    None
                } else {
                    Some(value.to_owned())
                };
                Ok(())
            },
        }
    }
}

// Keys.

/// A key, as far as it means anything here.
#[derive(Clone, Copy, Debug, PartialEq, Eq, Structural)]
pub enum Key {
    Char(char),
    Enter,
    Esc,
    Up,
    Down,
    Tab,
    BackTab,
    Backspace,
    Other,
}

/// A key, and whether the control key was held.
#[derive(Clone, Copy, Debug, PartialEq, Eq, Structural)]
pub struct KeyPress {
    pub key: Key,
    pub control: bool,
}

/// What is left to do outside after a key.
#[derive(Clone, Copy, Debug, PartialEq, Eq, Structural)]
pub enum Effect {
    Nothing,
    Save,
    InitializeVault,
}

// The screen.

/// Options to choose from.
#[derive(Debug)]
pub struct Picker {
    pub field: Field,
    pub options: &'static [PickerOption],
    pub selected: usize,
}

#[verifier::ext_equal]
pub struct PickerView {
    pub field: Field,
    pub options: Seq<OptionView>,
    pub selected: usize,
}

impl View for Picker {
    type V = PickerView;

    open spec fn view(&self) -> PickerView {
        PickerView {
            field: self.field,
            options: self.options.deep_view(),
            selected: self.selected,
        }
    }
}

impl DeepView for Picker {
    type V = PickerView;

    open spec fn deep_view(&self) -> PickerView {
        self@
    }
}

impl Picker {
    pub fn new(field: Field, options: &'static [PickerOption], current_value: &str) -> (picker: Picker)
        requires
            options.len() > 0,
        ensures
            picker@ == (PickerView {
                field,
                options: options.deep_view(),
                selected: starting_at(options.deep_view(), current_value@) as usize,
            }),
            picker@.selected < picker@.options.len(),
    {
        let selected = picker::start_at(options, current_value);
        Picker { field, options, selected }
    }

    pub fn move_selection(&mut self, motion: Motion)
        requires
            old(self)@.selected < old(self)@.options.len(),
        ensures
            final(self)@ == (PickerView {
                selected: moved(
                    old(self)@.options,
                    old(self)@.selected as int,
                    motion,
                    old(self)@.options.len(),
                ) as usize,
                ..old(self)@
            }),
            final(self)@.selected < final(self)@.options.len(),
    {
        self.selected = picker::move_to_enabled(self.options, self.selected, motion);
    }

    pub fn selected_option(&self) -> (option: PickerOption)
        requires
            self@.selected < self@.options.len(),
        ensures
            option@ == self@.options[self@.selected as int],
    {
        assert(self@.options[self.selected as int] == self.options[self.selected as int]@);
        self.options[self.selected]
    }
}

/// The settings screen.
#[derive(Debug)]
pub struct ConfigApp {
    pub config: AppConfig,
    pub config_path: String,
    pub around: Surroundings,
    pub editing: Option<Field>,
    pub input: String,
    pub picker: Option<Picker>,
    pub root_finder: Option<RootFinder>,
    pub finder_root: Option<String>,
    pub message: String,
    pub selected: usize,
    pub should_quit: bool,
    pub dirty: bool,
}

#[verifier::ext_equal]
pub struct AppView {
    pub config: ConfigView,
    pub config_path: Seq<char>,
    pub around: SurroundingsView,
    pub editing: Option<Field>,
    pub input: Seq<char>,
    pub picker: Option<PickerView>,
    pub root_finder: Option<FinderView>,
    pub finder_root: Option<Seq<char>>,
    pub message: Seq<char>,
    pub selected: usize,
    pub should_quit: bool,
    pub dirty: bool,
}

impl View for ConfigApp {
    type V = AppView;

    open spec fn view(&self) -> AppView {
        AppView {
            config: self.config@,
            config_path: self.config_path@,
            around: self.around@,
            editing: self.editing,
            input: self.input@,
            picker: self.picker.deep_view(),
            root_finder: self.root_finder.deep_view(),
            finder_root: self.finder_root.deep_view(),
            message: self.message@,
            selected: self.selected,
            should_quit: self.should_quit,
            dirty: self.dirty,
        }
    }
}

impl AppView {
    /// There is an active profile, a setting is selected, and so is an option
    /// of an open picker; an open finder is in order.
    pub open spec fn well_formed(self) -> bool {
        &&& has_active(self.config)
        &&& self.selected < FIELD_COUNT
        &&& self.picker matches Some(picker) ==> picker.selected < picker.options.len()
        &&& self.root_finder matches Some(finder) ==> finder.well_formed()
    }

    pub open spec fn field(self) -> Field {
        all_fields()[self.selected as int]
    }
}

/// A screen that was just opened.
pub open spec fn started(
    config: ConfigView,
    config_path: Seq<char>,
    around: SurroundingsView,
    finder_root: Option<Seq<char>>,
) -> AppView {
    AppView {
        config: ensured(config, around.current_dir),
        config_path,
        around,
        editing: None,
        input: seq![],
        picker: None,
        root_finder: None,
        finder_root,
        message: "Arrows move. Enter applies a field. S saves config. Ctrl-F opens the HOME path finder."@,
        selected: 0,
        should_quit: false,
        dirty: false,
    }
}

/// The configuration to start with.
pub open spec fn default_config(editor: Option<Seq<char>>) -> ConfigView {
    ConfigView {
        active_profile: "default"@,
        default_search: "auto"@,
        editor,
        profiles: seq![],
    }
}

pub open spec fn updated_message(field: Field) -> Seq<char> {
    "Updated "@ + field.name() + ". Press S to write config changes."@
}

pub open spec fn invalid_message(field: Field, message: Seq<char>) -> Seq<char> {
    "Invalid "@ + field.name() + ": "@ + message
}

/// The screen after a setting was opened.
pub open spec fn edit_begun(app: AppView) -> AppView {
    let field = app.field();
    let value = field.value_in(app.config);
    match field.choices() {
        Some(options) => AppView {
            picker: Some(
                PickerView { field, options, selected: starting_at(options, value) as usize },
            ),
            message: "Choose "@ + field.name() + " with arrows, then press Enter."@,
            ..app
        },
        None => AppView {
            input: value,
            editing: Some(field),
            message: "Editing "@ + field.name() + ". Enter applies, Ctrl-A clears, Esc cancels."@,
            ..app
        },
    }
}

/// The screen after what was typed was applied.
pub open spec fn edit_committed(app: AppView, field: Field) -> AppView {
    match set_to(field, app.config, text::trimmed(app.input), app.around) {
        Ok(config) => AppView {
            config,
            editing: None,
            input: seq![],
            dirty: true,
            message: updated_message(field),
            ..app
        },
        Err(message) => AppView { message: invalid_message(field, message), ..app },
    }
}

/// The screen after an option was chosen.
pub open spec fn pick_committed(app: AppView, picker: PickerView) -> AppView {
    let option = picker.options[picker.selected as int];
    if !option.enabled {
        AppView { message: option.value + " is unavailable: "@ + option.help, ..app }
    } else {
        match set_to(picker.field, app.config, option.value, app.around) {
            Ok(config) => AppView {
                config,
                picker: None,
                dirty: true,
                message: updated_message(picker.field),
                ..app
            },
            Err(message) => AppView { message: invalid_message(picker.field, message), ..app },
        }
    }
}

/// The screen after the finder was asked for.
pub open spec fn finder_opened(app: AppView) -> AppView {
    match app.finder_root {
        None => AppView {
            message: "Directory finder needs HOME to point to an existing directory."@,
            ..app
        },
        Some(root) => AppView {
            root_finder: Some(opened(root)),
            message: "Directory finder: HOME path is prefilled; edit it to narrow results, Tab focuses paths."@,
            ..app
        },
    }
}

/// The screen after a found directory was taken.
pub open spec fn find_committed(app: AppView, finder: FinderView) -> AppView {
    match selected_in(finder) {
        None => AppView {
            message: if finder.refilter_cursor is Some {
                "Still filtering HOME directories; try Enter again in a moment."@
            } else {
                "No matching directories. Type a different query or press Esc."@
            },
            ..app
        },
        Some(path) => AppView {
            config: with_root(
                app.config,
                normal_root(path, app.around.home, app.around.current_dir),
            ),
            root_finder: None,
            dirty: true,
            message: "Updated profile-root. Press S to write config changes."@,
            ..app
        },
    }
}

pub open spec fn is_clearing(press: KeyPress) -> bool {
    press.control && (press.key == Key::Char('a') || press.key == Key::Char('A') || press.key
        == Key::Char('u') || press.key == Key::Char('U'))
}

pub open spec fn moved_finder(finder: FinderView, motion: Motion) -> FinderView {
    if finder.matches.len() > 0 {
        FinderView {
            selected: beside(finder.selected as int, finder.matches.len() as int, motion) as usize,
            ..finder
        }
    } else {
        finder
    }
}

/// What a key does while the finder is open.
pub open spec fn finder_pressed(app: AppView, finder: FinderView, press: KeyPress) -> AppView {
    let on_paths = finder.focus == RootFinderFocus::Paths;
    if is_clearing(press) {
        AppView { root_finder: Some(unfiltered(finder, seq![])), ..app }
    } else {
        match press.key {
            Key::Tab | Key::BackTab => if on_paths {
                AppView {
                    root_finder: Some(FinderView { focus: RootFinderFocus::Filter, ..finder }),
                    message: "Directory finder path filter focused. Edit the HOME path; Tab focuses paths."@,
                    ..app
                }
            } else {
                AppView {
                    root_finder: Some(FinderView { focus: RootFinderFocus::Paths, ..finder }),
                    message: "Directory finder paths focused. Use arrows or j/k; Tab returns to filter."@,
                    ..app
                }
            },
            Key::Down if on_paths => AppView {
                root_finder: Some(moved_finder(finder, Motion::Next)),
                ..app
            },
            Key::Char('j') if on_paths => AppView {
                root_finder: Some(moved_finder(finder, Motion::Next)),
                ..app
            },
            Key::Up if on_paths => AppView {
                root_finder: Some(moved_finder(finder, Motion::Previous)),
                ..app
            },
            Key::Char('k') if on_paths => AppView {
                root_finder: Some(moved_finder(finder, Motion::Previous)),
                ..app
            },
            Key::Enter => find_committed(app, finder),
            Key::Esc => AppView {
                root_finder: None,
                message: "Directory finder cancelled."@,
                ..app
            },
            Key::Backspace => AppView {
                root_finder: Some(unfiltered(finder, without_last(finder.query))),
                ..app
            },
            Key::Char(value) if !press.control => AppView {
                root_finder: Some(unfiltered(finder, finder.query + seq![value])),
                ..app
            },
            _ => app,
        }
    }
}

/// What a key does while a picker is open.
pub open spec fn picker_pressed(app: AppView, picker: PickerView, press: KeyPress) -> AppView {
    let to = |motion: Motion|
        AppView {
            picker: Some(
                PickerView {
                    selected: moved(
                        picker.options,
                        picker.selected as int,
                        motion,
                        picker.options.len(),
                    ) as usize,
                    ..picker
                },
            ),
            ..app
        };
    match press.key {
        Key::Down | Key::Char('j') => to(Motion::Next),
        Key::Up | Key::Char('k') => to(Motion::Previous),
        Key::Enter => pick_committed(app, picker),
        Key::Esc | Key::Char('q') | Key::Char('Q') => AppView {
            picker: None,
            message: "Selection cancelled."@,
            ..app
        },
        _ => app,
    }
}

/// What a key does while a value is typed.
pub open spec fn edit_pressed(app: AppView, field: Field, press: KeyPress) -> AppView {
    if is_clearing(press) {
        AppView { input: seq![], ..app }
    } else {
        match press.key {
            Key::Enter => edit_committed(app, field),
            Key::Esc => AppView { editing: None, input: seq![], message: "Edit cancelled."@, ..app },
            Key::Backspace => AppView { input: without_last(app.input), ..app },
            Key::Char(value) if !press.control => AppView { input: app.input.push(value), ..app },
            _ => app,
        }
    }
}

/// What a key does on the list of settings.
pub open spec fn list_pressed(app: AppView, press: KeyPress) -> (AppView, Effect) {
    match press.key {
        Key::Char('c') if press.control => (AppView { should_quit: true, ..app }, Effect::Nothing),
        Key::Char('f') if press.control && app.field() == Field::ProfileRoot => (
            finder_opened(app),
            Effect::Nothing,
        ),
        Key::Char('q') | Key::Char('Q') | Key::Esc => (
            AppView { should_quit: true, ..app },
            Effect::Nothing,
        ),
        Key::Down | Key::Char('j') => (
            AppView {
                selected: beside(
                    app.selected as int,
                    FIELD_COUNT as int,
                    Motion::Next,
                ) as usize,
                ..app
            },
            Effect::Nothing,
        ),
        Key::Up | Key::Char('k') => (
            AppView {
                selected: beside(
                    app.selected as int,
                    FIELD_COUNT as int,
                    Motion::Previous,
                ) as usize,
                ..app
            },
            Effect::Nothing,
        ),
        Key::Enter => (edit_begun(app), Effect::Nothing),
        Key::Char('r') | Key::Char('R') => (
            AppView {
                config: ensured(default_config(app.around.editor), app.around.current_dir),
                dirty: true,
                message: "Reset to defaults. Press S to write config changes."@,
                ..app
            },
            Effect::Nothing,
        ),
        Key::Char('i') | Key::Char('I') => (app, Effect::InitializeVault),
        Key::Char('s') | Key::Char('S') => (app, Effect::Save),
        _ => (app, Effect::Nothing),
    }
}

/// What a key does.
pub open spec fn pressed(app: AppView, press: KeyPress) -> (AppView, Effect) {
    match (app.root_finder, app.picker, app.editing) {
        (Some(finder), _, _) => (finder_pressed(app, finder, press), Effect::Nothing),
        (None, Some(picker), _) => (picker_pressed(app, picker, press), Effect::Nothing),
        (None, None, Some(field)) => (edit_pressed(app, field, press), Effect::Nothing),
        (None, None, None) => list_pressed(app, press),
    }
}

fn is_clearing_key(press: KeyPress) -> (clearing: bool)
    ensures
        clearing == is_clearing(press),
{
    press.control && (press.key == Key::Char('a') || press.key == Key::Char('A') || press.key
        == Key::Char('u') || press.key == Key::Char('U'))
}

impl ConfigApp {
    pub fn with_finder_root(
        config: AppConfig,
        config_path: String,
        around: Surroundings,
        finder_root: Option<String>,
    ) -> (app: ConfigApp)
        ensures
            app@ == started(config@, config_path@, around@, finder_root.deep_view()),
            app@.well_formed(),
    {
        let mut config = config;
        ensure_active_profile(&mut config, around.current_dir.as_str());
        let input = String::new();
        assert(input@ =~= seq![]);
        ConfigApp {
            config,
            config_path,
            around,
            editing: None,
            input,
            picker: None,
            root_finder: None,
            finder_root,
            message: "Arrows move. Enter applies a field. S saves config. Ctrl-F opens the HOME path finder.".to_owned(),
            selected: 0,
            should_quit: false,
            dirty: false,
        }
    }

    pub fn selected_field(&self) -> (field: Field)
        requires
            self@.well_formed(),
        ensures
            field == self@.field(),
    {
        field_at(self.selected)
    }

    /// Takes in directories that were found.
    pub fn poll_root_finder(&mut self, found: &Vec<String>, finished: bool)
        requires
            old(self)@.well_formed(),
        ensures
            final(self)@ == (match old(self)@.root_finder {
                Some(finder) => AppView {
                    root_finder: Some(
                        crate::finder::polled(finder, found.deep_view(), finished),
                    ),
                    ..old(self)@
                },
                None => old(self)@,
            }),
            final(self)@.well_formed(),
    {
        if let Some(finder) = &mut self.root_finder {
            finder.poll(found, finished);
        }
    }

    /// Takes in a text that was pasted.
    pub fn handle_paste(&mut self, value: &str)
        requires
            old(self)@.well_formed(),
        ensures
            final(self)@ == (if old(self)@.editing is Some {
                AppView { input: old(self)@.input + value@, ..old(self)@ }
            } else {
                match old(self)@.root_finder {
                    Some(finder) => AppView {
                        root_finder: Some(unfiltered(finder, finder.query + value@)),
                        ..old(self)@
                    },
                    None => old(self)@,
                }
            }),
            final(self)@.well_formed(),
    {
        if self.editing.is_some() {
            self.input.append(value);
        } else if let Some(finder) = &mut self.root_finder {
            finder.push_query(value);
        }
    }

    fn begin_edit(&mut self)
        requires
            old(self)@.well_formed(),
        ensures
            final(self)@ == edit_begun(old(self)@),
            final(self)@.well_formed(),
    {
        let field = self.selected_field();
        proof {
            lemma_profile_index_spec(self@.config.profiles, self@.config.active_profile);
        }
        assert(self.config.profiles.deep_view().len() == self.config.profiles.len());
        let value = field.value(&self.config);
        match field.picker_options() {
            Some(options) => {
                self.picker = Some(Picker::new(field, options, value.as_str()));
                self.message =
                text::concat3("Choose ", field.label(), " with arrows, then press Enter.");
            },
            None => {
                self.input = value;
                self.editing = Some(field);
                self.message =
                text::concat3(
                    "Editing ",
                    field.label(),
                    ". Enter applies, Ctrl-A clears, Esc cancels.",
                );
            },
        }
    }

    fn commit_text_edit(&mut self, field: Field)
        requires
            old(self)@.well_formed(),
        ensures
            final(self)@ == edit_committed(old(self)@, field),
            final(self)@.well_formed(),
    {
        let value = text::trim(self.input.as_str()).to_owned();
        match field.set_value(&mut self.config, value.as_str(), &self.around) {
            Ok(_) => {
                self.editing = None;
                self.input = String::new();
                assert(self.input@ =~= seq![]);
                self.dirty = true;
                self.message =
                text::concat3("Updated ", field.label(), ". Press S to write config changes.");
            },
            Err(error) => {
                self.message =
                text::concat4("Invalid ", field.label(), ": ", error.message());
            },
        }
    }

    fn commit_picker(&mut self, field: Field, option: PickerOption)
        requires
            old(self)@.well_formed(),
            old(self)@.picker is Some,
            old(self)@.picker->Some_0.field == field,
            old(self)@.picker->Some_0.options[old(self)@.picker->Some_0.selected as int] == option@,
        ensures
            final(self)@ == pick_committed(old(self)@, old(self)@.picker->Some_0),
            final(self)@.well_formed(),
    {
        if !option.enabled {
            self.message = text::concat3(option.value, " is unavailable: ", option.help);
            return ;
        }
        match field.set_value(&mut self.config, option.value, &self.around) {
            Ok(_) => {
                self.picker = None;
                self.dirty = true;
                self.message =
                text::concat3("Updated ", field.label(), ". Press S to write config changes.");
            },
            Err(error) => {
                self.message =
                text::concat4("Invalid ", field.label(), ": ", error.message());
            },
        }
    }

    fn open_root_finder(&mut self)
        requires
            old(self)@.well_formed(),
        ensures
            final(self)@ == finder_opened(old(self)@),
            final(self)@.well_formed(),
    {
        match &self.finder_root {
            None => {
                self.message =
                "Directory finder needs HOME to point to an existing directory.".to_owned();
            },
            Some(root) => {
                self.root_finder = Some(RootFinder::new(root.as_str()));
                self.message =
                "Directory finder: HOME path is prefilled; edit it to narrow results, Tab focuses paths.".to_owned();
            },
        }
    }

    fn commit_root_finder(&mut self)
        requires
            old(self)@.well_formed(),
            old(self)@.root_finder is Some,
        ensures
            final(self)@ == find_committed(old(self)@, old(self)@.root_finder->Some_0),
            final(self)@.well_formed(),
    {
        let mut chosen: Option<String> = None;
        let mut filtering = false;
        if let Some(finder) = &self.root_finder {
            chosen =
            match finder.selected_path() {
                Some(path) => Some(path.to_owned()),
                None => None,
            };
            filtering = finder.refilter_cursor.is_some();
        }
        match chosen {
            None => {
                self.message =
                if filtering {
                    "Still filtering HOME directories; try Enter again in a moment.".to_owned()
                } else {
                    "No matching directories. Type a different query or press Esc.".to_owned()
                };
            },
            Some(path) => {
                let root = normalize_root(
                    path,
                    text::clone_optional(&self.around.home),
                    self.around.current_dir.as_str(),
                );
                set_root(&mut self.config, root);
                self.root_finder = None;
                self.dirty = true;
                self.message =
                "Updated profile-root. Press S to write config changes.".to_owned();
            },
        }
    }

    fn handle_root_finder_key(&mut self, press: KeyPress)
        requires
            old(self)@.well_formed(),
            old(self)@.root_finder is Some,
        ensures
            final(self)@ == finder_pressed(old(self)@, old(self)@.root_finder->Some_0, press),
            final(self)@.well_formed(),
    {
        let mut finder = match self.root_finder.take() {
            Some(finder) => finder,
            None => {
                return ;
            },
        };
        if is_clearing_key(press) {
            finder.clear_query();
            self.root_finder = Some(finder);
            return ;
        }
        let on_paths = finder.focus == RootFinderFocus::Paths;
        match press.key {
            Key::Tab | Key::BackTab => {
                let focus = finder.toggle_focus();
                self.message =
                match focus {
                    RootFinderFocus::Filter => "Directory finder path filter focused. Edit the HOME path; Tab focuses paths.".to_owned(),
                    RootFinderFocus::Paths => "Directory finder paths focused. Use arrows or j/k; Tab returns to filter.".to_owned(),
                };
                self.root_finder = Some(finder);
            },
            Key::Enter => {
                self.root_finder = Some(finder);
                self.commit_root_finder();
            },
            Key::Esc => {
                self.message = "Directory finder cancelled.".to_owned();
            },
            Key::Backspace => {
                finder.pop_query();
                self.root_finder = Some(finder);
            },
            Key::Down => {
                if on_paths {
                    finder.move_selection(Motion::Next);
                }
                self.root_finder = Some(finder);
            },
            Key::Up => {
                if on_paths {
                    finder.move_selection(Motion::Previous);
                }
                self.root_finder = Some(finder);
            },
            Key::Char(value) => {
                if on_paths && value == 'j' {
                    finder.move_selection(Motion::Next);
                } else if on_paths && value == 'k' {
                    finder.move_selection(Motion::Previous);
                } else if !press.control {
                    let mut typed = String::new();
                    typed.push(value);
                    assert(typed@ =~= seq![value]);
                    finder.push_query(typed.as_str());
                }
                self.root_finder = Some(finder);
            },
            Key::Other => {
                self.root_finder = Some(finder);
            },
        }
    }

    fn handle_picker_key(&mut self, press: KeyPress)
        requires
            old(self)@.well_formed(),
            old(self)@.picker is Some,
        ensures
            final(self)@ == picker_pressed(old(self)@, old(self)@.picker->Some_0, press),
            final(self)@.well_formed(),
    {
        match press.key {
            Key::Down | Key::Char('j') => {
                if let Some(picker) = &mut self.picker {
                    picker.move_selection(Motion::Next);
                }
            },
            Key::Up | Key::Char('k') => {
                if let Some(picker) = &mut self.picker {
                    picker.move_selection(Motion::Previous);
                }
            },
            Key::Enter => {
                let mut chosen: Option<(Field, PickerOption)> = None;
                if let Some(picker) = &self.picker {
                    chosen = Some((picker.field, picker.selected_option()));
                }
                if let Some((field, option)) = chosen {
                    self.commit_picker(field, option);
                }
            },
            Key::Esc | Key::Char('q') | Key::Char('Q') => {
                self.picker = None;
                self.message = "Selection cancelled.".to_owned();
            },
            _ => {},
        }
    }

    fn handle_text_edit_key(&mut self, field: Field, press: KeyPress)
        requires
            old(self)@.well_formed(),
        ensures
            final(self)@ == edit_pressed(old(self)@, field, press),
            final(self)@.well_formed(),
    {
        if is_clearing_key(press) {
            self.input = String::new();
            assert(self.input@ =~= seq![]);
            return ;
        }
        match press.key {
            Key::Enter => {
                self.commit_text_edit(field);
            },
            Key::Esc => {
                self.editing = None;
                self.input = String::new();
                assert(self.input@ =~= seq![]);
                self.message = "Edit cancelled.".to_owned();
            },
            Key::Backspace => {
                self.input = pop_char(self.input.as_str());
            },
            Key::Char(value) => {
                if !press.control {
                    self.input.push(value);
                }
            },
            _ => {},
        }
    }

    fn handle_list_key(&mut self, press: KeyPress) -> (effect: Effect)
        requires
            old(self)@.well_formed(),
        ensures
            (final(self)@, effect) == list_pressed(old(self)@, press),
            final(self)@.well_formed(),
    {
        match press.key {
            Key::Char('c') if press.control => {
                self.should_quit = true;
                Effect::Nothing
            },
            Key::Char('f') => {
                if press.control && self.selected_field() == Field::ProfileRoot {
                    self.open_root_finder();
                }
                Effect::Nothing
            },
            Key::Char('q') | Key::Char('Q') | Key::Esc => {
                self.should_quit = true;
                Effect::Nothing
            },
            Key::Down | Key::Char('j') => {
                self.selected = picker::step_beside(self.selected, FIELD_COUNT, Motion::Next);
                Effect::Nothing
            },
            Key::Up | Key::Char('k') => {
                self.selected = picker::step_beside(self.selected, FIELD_COUNT, Motion::Previous);
                Effect::Nothing
            },
            Key::Enter => {
                self.begin_edit();
                Effect::Nothing
            },
            Key::Char('r') | Key::Char('R') => {
                let mut config = AppConfig::with_editor(text::clone_optional(&self.around.editor));
                assert(config@ == default_config(self@.around.editor));
                ensure_active_profile(&mut config, self.around.current_dir.as_str());
                self.config = config;
                self.dirty = true;
                self.message = "Reset to defaults. Press S to write config changes.".to_owned();
                Effect::Nothing
            },
            Key::Char('i') | Key::Char('I') => Effect::InitializeVault,
            Key::Char('s') | Key::Char('S') => Effect::Save,
            _ => Effect::Nothing,
        }
    }

    /// Does what a key asks for, and says what is left to do outside.
    pub fn handle_key(&mut self, press: KeyPress) -> (effect: Effect)
        requires
            old(self)@.well_formed(),
        ensures
            (final(self)@, effect) == pressed(old(self)@, press),
            final(self)@.well_formed(),
    {
        if self.root_finder.is_some() {
            self.handle_root_finder_key(press);
            return Effect::Nothing;
        }
        if self.picker.is_some() {
            self.handle_picker_key(press);
            return Effect::Nothing;
        }
        match self.editing {
            Some(field) => {
                self.handle_text_edit_key(field, press);
                Effect::Nothing
            },
            None => self.handle_list_key(press),
        }
    }

    /// Takes in how saving turned out.
    pub fn saved(&mut self, outcome: Result<(), Error>)
        requires
            old(self)@.well_formed(),
        ensures
            final(self)@ == (match outcome {
                Ok(_) => AppView {
                    dirty: false,
                    message: "Saved "@ + old(self)@.config_path,
                    ..old(self)@
                },
                Err(error) => AppView { message: "Save failed: "@ + error@, ..old(self)@ },
            }),
            final(self)@.well_formed(),
    {
        match outcome {
            Ok(_) => {
                self.dirty = false;
                self.message = text::concat2("Saved ", self.config_path.as_str());
            },
            Err(error) => {
                self.message = text::concat2("Save failed: ", error.message());
            },
        }
    }

    /// Takes in how making the vault of the active profile turned out.
    pub fn initialized(&mut self, outcome: Result<(), Error>)
        requires
            old(self)@.well_formed(),
        ensures
            final(self)@ == (AppView {
                message: match outcome {
                    Ok(_) => "Initialized "@ + active_of(old(self)@.config).root
                        + ". Press S to save the profile configuration."@,
                    Err(error) => "Could not initialize vault: "@ + error@,
                },
                ..old(self)@
            }),
            final(self)@.well_formed(),
    {
        proof {
            lemma_profile_index_spec(self@.config.profiles, self@.config.active_profile);
        }
        assert(self.config.profiles.deep_view().len() == self.config.profiles.len());
        match outcome {
            Ok(_) => {
                let root = active_profile(&self.config).root.clone();
                self.message =
                text::concat3(
                    "Initialized ",
                    root.as_str(),
                    ". Press S to save the profile configuration.",
                );
            },
            Err(error) => {
                self.message = text::concat2("Could not initialize vault: ", error.message());
            },
        }
    }
}

// Laws.

/// The configuration changes by the enter key and by a reset only; and where it
/// changes, it is marked as not saved.
pub proof fn only_enter_and_reset_change_the_configuration(app: AppView, press: KeyPress)
    requires
        app.well_formed(),
        pressed(app, press).0.config != app.config,
    ensures
        press.key == Key::Enter || press.key == Key::Char('r') || press.key == Key::Char('R'),
        pressed(app, press).0.dirty,
{
}

/// An option that is disabled is never set.
pub proof fn disabled_options_are_not_set(app: AppView, picker: PickerView, press: KeyPress)
    requires
        app.well_formed(),
        app.root_finder is None,
        app.picker == Some(picker),
        !picker.options[picker.selected as int].enabled,
    ensures
        pressed(app, press).0.config == app.config,
{
}

} // verus!
