//! What the commands decide, from what was typed and what is configured.

use vstd::prelude::*;
use vstd::string::*;

use crate::cli::{
    typed, ConfigKey, ListArgs, MemoryWriteArgs, MutationArgs, SearchArgs, SupersedeArgs,
};
use crate::config::{
    normal_root, normalize_root, profile_index, upserted, AppConfig, ConfigView, ProfileConfig,
    ProfileView, StorageMode,
};
use crate::error::Error;
use crate::memory::{
    self, canonical, CreateMemoryInput, InputView, Memory, MemoryFilter, MemoryStatus, MemoryView,
};
use crate::order::{self, Ranked};
use crate::path;
use crate::search::SearchMode;
use crate::text;
use crate::transaction::{options_of, transaction_options_from_parts, TransactionOptions};

verus! {

// Configuration.

pub open spec fn unconfigured(name: Seq<char>) -> Seq<char> {
    "profile "@ + text::quoted_form(name) + " is not configured"@
}

pub open spec fn is_configured(config: ConfigView, name: Seq<char>) -> bool {
    profile_index(config.profiles, name) < config.profiles.len()
}

/// What setting a value comes to.
pub open spec fn config_set(config: ConfigView, key: ConfigKey, value: Seq<char>) -> Result<
    ConfigView,
    Seq<char>,
> {
    match key {
        ConfigKey::ActiveProfile => if is_configured(config, value) {
            Ok(ConfigView { active_profile: value, ..config })
        } else {
            Err(unconfigured(value))
        },
        ConfigKey::DefaultSearch => match SearchMode::of_name(value) {
            Ok(mode) => Ok(ConfigView { default_search: mode.name(), ..config }),
            Err(message) => Err(message),
        },
        ConfigKey::Editor => Ok(
            ConfigView {
                editor: if text::trimmed(value).len() == 0 {
                    None
                } else {
                    Some(text::trimmed(value))
                },
                ..config
            },
        ),
    }
}

/// Sets a value. One that is refused changes nothing.
pub fn set_config_value(config: &mut AppConfig, key: ConfigKey, value: &str) -> (set: Result<
    (),
    Error,
>)
    ensures
        match set {
            Ok(_) => config_set(old(config)@, key, value@) == Ok::<_, Seq<char>>(final(config)@),
            Err(error) => final(config)@ == old(config)@ && config_set(old(config)@, key, value@)
                == Err::<ConfigView, _>(error@),
        },
{
    match key {
        ConfigKey::ActiveProfile => {
            config.profile(value)?;
            config.active_profile = value.to_owned();
        },
        ConfigKey::DefaultSearch => {
            let mode = SearchMode::parse_config_value(value)?;
            config.default_search = mode.label().to_owned();
        },
        ConfigKey::Editor => {
            let value = text::trim(value);
            config.editor =
            if value.is_empty() {
                None
            } else {
                Some(value.to_owned())
            };
        },
    }
    Ok(())
}

/// The profile that a vault is made for: what is not given comes from the
/// profile of that name, and else is the default.
pub open spec fn initial_profile_of(
    config: ConfigView,
    name: Option<Seq<char>>,
    root: Option<Seq<char>>,
    storage: Option<StorageMode>,
    home: Option<Seq<char>>,
    current_dir: Seq<char>,
) -> ProfileView {
    let name = match name {
        Some(name) => name,
        None => config.active_profile,
    };
    let known = is_configured(config, name);
    let at = profile_index(config.profiles, name);
    ProfileView {
        name,
        root: match root {
            Some(root) => normal_root(root, home, current_dir),
            None => if known {
                config.profiles[at].root
            } else {
                path::below(current_dir, "rem"@)
            },
        },
        storage: match storage {
            Some(storage) => storage,
            None => if known {
                config.profiles[at].storage
            } else {
                StorageMode::Local
            },
        },
    }
}

pub fn initial_profile(
    config: &AppConfig,
    name: Option<String>,
    root: Option<String>,
    storage: Option<StorageMode>,
    home: Option<String>,
    current_dir: &str,
) -> (profile: ProfileConfig)
    ensures
        profile@ == initial_profile_of(
            config@,
            name.deep_view(),
            root.deep_view(),
            storage,
            home.deep_view(),
            current_dir@,
        ),
{
    let name = match name {
        Some(name) => name,
        None => config.active_profile.clone(),
    };
    let at = config.find_profile(name.as_str());
    let known = at < config.profiles.len();
    if known {
        assert(config@.profiles[at as int] == config.profiles[at as int]@);
    }
    let root = match root {
        Some(root) => normalize_root(root, home, current_dir),
        None => if known {
            config.profiles[at].root.clone()
        } else {
            path::join(current_dir, "rem")
        },
    };
    let storage = match storage {
        Some(storage) => storage,
        None => if known {
            config.profiles[at].storage
        } else {
            StorageMode::Local
        },
    };
    ProfileConfig { name, root, storage }
}

/// The configuration with a profile put in and made the active one.
pub open spec fn remembered(config: ConfigView, profile: ProfileView) -> ConfigView {
    ConfigView {
        active_profile: profile.name,
        profiles: upserted(config.profiles, profile),
        ..config
    }
}

/// The configuration with a profile put in; the only one is the active one.
pub open spec fn with_profile(config: ConfigView, profile: ProfileView) -> ConfigView {
    let profiles = upserted(config.profiles, profile);
    ConfigView {
        profiles,
        active_profile: if profiles.len() == 1 {
            profile.name
        } else {
            config.active_profile
        },
        ..config
    }
}

/// What making a profile the active one comes to.
pub open spec fn used_profile(config: ConfigView, name: Seq<char>) -> Result<ConfigView, Seq<char>> {
    if is_configured(config, name) {
        Ok(ConfigView { active_profile: name, ..config })
    } else {
        Err(unconfigured(name))
    }
}

/// Puts in a profile, and makes it the active one.
pub fn remember_profile(config: &mut AppConfig, profile: ProfileConfig)
    ensures
        final(config)@ == remembered(old(config)@, profile@),
{
    let name = profile.name.clone();
    config.upsert_profile(profile);
    config.active_profile = name;
}

/// Puts in a profile; the only one is the active one.
pub fn add_profile(config: &mut AppConfig, profile: ProfileConfig)
    ensures
        final(config)@ == with_profile(old(config)@, profile@),
{
    let name = profile.name.clone();
    config.upsert_profile(profile);
    assert(config.profiles.deep_view().len() == config.profiles.len());
    if config.profiles.len() == 1 {
        config.active_profile = name;
    }
}

/// Makes a profile the active one.
pub fn use_profile(config: &mut AppConfig, name: &str) -> (used: Result<(), Error>)
    ensures
        match used {
            Ok(_) => used_profile(old(config)@, name@) == Ok::<_, Seq<char>>(final(config)@),
            Err(error) => final(config)@ == old(config)@ && used_profile(old(config)@, name@)
                == Err::<ConfigView, _>(error@),
        },
{
    config.profile(name)?;
    config.active_profile = name.to_owned();
    Ok(())
}

/// The editor that is configured, else the one of the environment.
pub fn chosen_editor(configured: &Option<String>, surrounding: &Option<String>) -> (editor: String)
    ensures
        editor@ == (match (configured.deep_view(), surrounding.deep_view()) {
            (Some(editor), _) => editor,
            (None, Some(editor)) => editor,
            (None, None) => "vi"@,
        }),
{
    match configured {
        Some(editor) => editor.clone(),
        None => match surrounding {
            Some(editor) => editor.clone(),
            None => "vi".to_owned(),
        },
    }
}

/// The program of an editor command and its arguments.
pub fn editor_command<'a>(editor: &'a str) -> (command: Result<Vec<&'a str>, Error>)
    ensures
        match command {
            Ok(command) => command.deep_view() == text::words(editor@) && command.len() > 0,
            Err(error) => text::words(editor@).len() == 0 && error@
                == "editor command cannot be empty"@,
        },
{
    let command = text::split_whitespace(editor);
    assert(command.deep_view().len() == command.len());
    if command.len() == 0 {
        return Err(Error::of("editor command cannot be empty"));
    }
    Ok(command)
}

// Options of a change.

pub fn transaction_options(args: MutationArgs) -> (options: Result<TransactionOptions, Error>)
    ensures
        ({
            let expected = options_of(
                args.accept_external,
                args.restore_external,
                false,
                args.non_interactive,
            );
            match options {
                Ok(options) => expected == Ok::<_, Seq<char>>(options),
                Err(error) => expected == Err::<TransactionOptions, _>(error@),
            }
        }),
{
    transaction_options_from_parts(
        args.accept_external,
        args.restore_external,
        false,
        args.non_interactive,
    )
}

/// What a commit says where nothing else is given.
pub fn commit_message(message: Option<String>) -> (chosen: String)
    ensures
        chosen@ == (match message.deep_view() {
            Some(message) => message,
            None => "rem: commit vault changes"@,
        }),
{
    match message {
        Some(message) => message,
        None => "rem: commit vault changes".to_owned(),
    }
}

// Reading.

pub fn list_filter(args: ListArgs) -> (filter: MemoryFilter)
    ensures
        filter.memory_type == crate::cli::chosen_type(args.long, args.short, args.memory_type),
        filter.scope == args.scope,
        filter.kind == args.kind,
        filter.tag == args.tag,
        filter.include_archived == args.all,
{
    MemoryFilter {
        memory_type: args.resolved_type(),
        scope: args.scope,
        kind: args.kind,
        tag: args.tag,
        include_archived: args.all,
    }
}

/// How to search: as asked for, else as configured.
pub fn search_mode(args: &SearchArgs, default_search: &str) -> (mode: Result<SearchMode, Error>)
    ensures
        match mode {
            Ok(mode) => match args.chosen_mode() {
                Some(chosen) => mode == chosen,
                None => SearchMode::of_name(default_search@) == Ok::<_, Seq<char>>(mode),
            },
            Err(error) => args.chosen_mode() is None && SearchMode::of_name(default_search@)
                == Err::<SearchMode, _>(error@),
        },
{
    if args.has_explicit_mode() {
        Ok(args.resolved_mode())
    } else {
        SearchMode::parse_config_value(default_search)
    }
}

// Writing.

pub open spec fn added_input(args: &MemoryWriteArgs) -> InputView {
    InputView {
        memory_type: match crate::cli::chosen_type(args.long, args.short, args.memory_type) {
            Some(chosen) => chosen,
            None => crate::memory::MemoryType::Short,
        },
        scope: args.scope,
        kind: args.kind,
        tags: args.tags.deep_view(),
        body: typed(args.text.deep_view()),
        source: Some(args.source@),
        source_id: args.source_id.deep_view(),
        agent: args.agent.deep_view(),
        session: args.session.deep_view(),
    }
}

/// What a memory that is added is made from.
pub fn add_input(args: MemoryWriteArgs) -> (input: CreateMemoryInput)
    ensures
        input@ == added_input(&args),
{
    let memory_type = args.resolved_type();
    let body = args.body();
    CreateMemoryInput::new(memory_type, args.scope, args.kind, body).tags(args.tags).source(
        Some(args.source),
    ).source_id(args.source_id).agent(args.agent).session(args.session)
}

/// Whether a change is one.
#[derive(Clone, Copy, Debug, PartialEq, Eq, Structural)]
pub enum ChangeDecision {
    Unchanged,
    Change,
}

/// Whether another body changes an active memory.
pub fn decide_update(existing: &Memory, body: &str) -> (decision: Result<ChangeDecision, Error>)
    ensures
        match decision {
            Ok(decision) => existing@.metadata.status == MemoryStatus::Active && decision == (
            if canonical(existing@.body) == canonical(body@) {
                ChangeDecision::Unchanged
            } else {
                ChangeDecision::Change
            }),
            Err(error) => existing@.metadata.status != MemoryStatus::Active && error@
                == "only active memories can be "@ + "updated"@,
        },
{
    memory::ensure_active_memory(existing, "updated")?;
    if memory::bodies_match(existing.body.as_str(), body) {
        Ok(ChangeDecision::Unchanged)
    } else {
        Ok(ChangeDecision::Change)
    }
}

/// Whether a replacement differs from the active memory that it replaces.
pub fn decide_supersede(source: &Memory, args: &SupersedeArgs) -> (decision: Result<
    ChangeDecision,
    Error,
>)
    ensures
        match decision {
            Ok(decision) => source@.metadata.status == MemoryStatus::Active && decision == (
            if canonical(source@.body) == canonical(typed(args.text.deep_view()))
                && !args.overrides() {
                ChangeDecision::Unchanged
            } else {
                ChangeDecision::Change
            }),
            Err(error) => source@.metadata.status != MemoryStatus::Active && error@
                == "only active memories can be "@ + "superseded"@,
        },
{
    memory::ensure_active_memory(source, "superseded")?;
    if memory::bodies_match(source.body.as_str(), args.body().as_str())
        && !args.has_metadata_overrides() {
        Ok(ChangeDecision::Unchanged)
    } else {
        Ok(ChangeDecision::Change)
    }
}

/// Where a replacement comes from, where nothing else is given.
pub open spec fn replacement_source(source: Option<Seq<char>>) -> Seq<char> {
    match source {
        Some(source) => source,
        None => "supersede"@,
    }
}

/// Where the replacement that is asked for comes from.
pub fn supersede_source(args: &SupersedeArgs) -> (source: String)
    ensures
        source@ == replacement_source(args.source.deep_view()),
{
    match &args.source {
        Some(source) => source.clone(),
        None => "supersede".to_owned(),
    }
}

pub open spec fn or_else<T>(first: Option<T>, second: Option<T>) -> Option<T> {
    match first {
        Some(value) => Some(value),
        None => second,
    }
}

/// What a replacement is made from: what is not asked for is as in the memory
/// that it replaces.
pub open spec fn replacement_input(source: MemoryView, args: &SupersedeArgs) -> InputView {
    InputView {
        memory_type: match crate::cli::chosen_type(args.long, args.short, args.memory_type) {
            Some(chosen) => chosen,
            None => source.metadata.memory_type,
        },
        scope: match args.scope {
            Some(scope) => scope,
            None => source.metadata.scope,
        },
        kind: match args.kind {
            Some(kind) => kind,
            None => source.metadata.kind,
        },
        tags: if args.tags.deep_view().len() == 0 {
            source.metadata.tags
        } else {
            args.tags.deep_view()
        },
        body: typed(args.text.deep_view()),
        source: Some(replacement_source(args.source.deep_view())),
        source_id: args.source_id.deep_view(),
        agent: or_else(args.agent.deep_view(), source.metadata.agent),
        session: or_else(args.session.deep_view(), source.metadata.session),
    }
}

fn first_of(first: Option<String>, second: &Option<String>) -> (chosen: Option<String>)
    ensures
        chosen.deep_view() == or_else(first.deep_view(), second.deep_view()),
{
    match first {
        Some(value) => Some(value),
        None => text::clone_optional(second),
    }
}

pub fn supersede_input(source: &Memory, args: SupersedeArgs) -> (input: CreateMemoryInput)
    ensures
        input@ == replacement_input(source@, &args),
{
    let memory_type = args.resolved_type(source.metadata.memory_type);
    let body = args.body();
    let new_source = supersede_source(&args);
    let scope = match args.scope {
        Some(scope) => scope,
        None => source.metadata.scope,
    };
    let kind = match args.kind {
        Some(kind) => kind,
        None => source.metadata.kind,
    };
    assert(args.tags.deep_view().len() == args.tags.len());
    let tags = if args.tags.len() == 0 {
        text::clone_texts(&source.metadata.tags)
    } else {
        args.tags
    };
    CreateMemoryInput::new(memory_type, scope, kind, body).tags(tags).source(
        Some(new_source),
    ).source_id(args.source_id).agent(first_of(args.agent, &source.metadata.agent)).session(
        first_of(args.session, &source.metadata.session),
    )
}

// What a change is recorded as.

pub fn add_message(memory: &Memory) -> (message: String)
    ensures
        message@ == "rem: add "@ + memory@.metadata.memory_type.name() + " memory "@
            + memory@.metadata.id,
{
    text::concat4(
        "rem: add ",
        memory.metadata.memory_type.label(),
        " memory ",
        memory.metadata.id.as_str(),
    )
}

/// The record of an update, an addition, an archival or a deletion.
pub fn memory_message(verb: &str, id: &str) -> (message: String)
    ensures
        message@ == "rem: "@ + verb@ + " memory "@ + id@,
{
    text::concat4("rem: ", verb, " memory ", id)
}

pub fn delete_message(hard: bool, id: &str) -> (message: String)
    ensures
        message@ == "rem: "@ + (if hard {
            "delete"@
        } else {
            "archive"@
        }) + " memory "@ + id@,
{
    memory_message(
        if hard {
            "delete"
        } else {
            "archive"
        },
        id,
    )
}

/// The record of a promotion; the memory that was promoted is the one that the
/// new memory names, else the one that was asked for.
pub fn promote_message(promoted: &Memory, asked: &str) -> (message: String)
    ensures
        message@ == "rem: promote memory "@ + (match promoted@.metadata.promoted_from {
            Some(from) => from,
            None => asked@,
        }) + " to "@ + promoted@.metadata.id,
{
    let from = match &promoted.metadata.promoted_from {
        Some(from) => from.as_str(),
        None => asked,
    };
    text::concat4("rem: promote memory ", from, " to ", promoted.metadata.id.as_str())
}

pub fn supersede_message(source_id: &str, replacement_id: &str) -> (message: String)
    ensures
        message@ == "rem: supersede memory "@ + source_id@ + " with "@ + replacement_id@,
{
    text::concat4("rem: supersede memory ", source_id, " with ", replacement_id)
}

/// Refuses to go on where a conflict is still there after it was resolved.
pub fn ensure_resolved(conflict_id: &str, remains: bool) -> (resolved: Result<(), Error>)
    ensures
        match resolved {
            Ok(_) => !remains,
            Err(error) => remains && error@ == "conflict "@ + conflict_id@
                + " remains after resolution; rolled back without committing"@,
        },
{
    if remains {
        return Err(
            Error::new(
                text::concat3(
                    "conflict ",
                    conflict_id,
                    " remains after resolution; rolled back without committing",
                ),
            ),
        );
    }
    Ok(())
}

// Laws.

/// A profile that is added can be made the active one.
pub proof fn added_profile_can_be_used(config: ConfigView, profile: ProfileView)
    ensures
        is_configured(
            ConfigView { profiles: upserted(config.profiles, profile), ..config },
            profile.name,
        ),
{
    crate::config::upserted_profile_is_found(config.profiles, profile);
}

/// The first profile that is added is the active one.
pub proof fn first_profile_is_active(config: ConfigView, profile: ProfileView)
    requires
        config.profiles.len() == 0,
    ensures
        upserted(config.profiles, profile).len() == 1,
{
    let less = |left: ProfileView, right: ProfileView| ProfileConfig::ranks_before(left, right);
    order::lemma_sorted_members(config.profiles.push(profile), less);
}

} // verus!
