//! What is asked for on the command line, and what the operations that change
//! memories do, told by what goes in and what comes out.

use vstd::prelude::*;

use crate::cli::{typed, ConfigKey, ListArgs, MemoryWriteArgs, SearchArgs, SupersedeArgs};
use crate::command::{
    added_input, config_set, decide_supersede, decide_update, initial_profile_of, list_filter,
    remembered, replacement_input, search_mode, used_profile, with_profile, ChangeDecision,
};
use crate::config::{
    home_of, lemma_profile_index_spec, normal_root, profile_index, upserted, ConfigView,
    ProfileConfig, ProfileView, StorageMode,
};
use crate::error::Error;
use crate::keeping_laws::blank_texts_are_white;
use crate::memory::{
    canonical, created, normal_tags, supersede_memory, update_memory, with_source_identity,
    CreateMemoryInput, Memory, MemoryFilter, MemoryStatus, MemoryType, MemoryView, MetadataView,
};
use crate::order::{self, text_less, Ranked};
use crate::order_laws::{
    filtering_keeps_what_is_wanted, goes_first_by, sorting_goes_by_the_first_key,
};
use crate::search::SearchMode;
use crate::text::{is_space, trimmed};
use crate::workspace::PathState;

verus! {

// Memories.

/// An update is refused for a text of white space, and through a link, and never
/// else. It changes what a memory says, and when it was changed, and nothing else.
pub proof fn updating_changes_the_body(
    memory: Memory,
    state: PathState,
    body: String,
    append: bool,
    now: &str,
    updated: Result<Memory, Error>,
)
    requires
        call_ensures(update_memory, (memory, state, body, append, now), updated),
    ensures
        updated is Ok <==> state != PathState::Symlink && exists|i: int|
            0 <= i < body@.len() && !is_space(#[trigger] body@[i]),
        updated matches Ok(after) ==> {
            &&& after@.metadata == (MetadataView { updated_at: now@, ..memory@.metadata })
            &&& after@.path == memory@.path
            &&& !append ==> after@.body == body@
            &&& append ==> trimmed(memory@.body).is_prefix_of(after@.body) && trimmed(
                body@,
            ).is_suffix_of(after@.body)
        },
{
    blank_texts_are_white(body@);
    crate::keeping_laws::updates_keep_or_replace(memory@.body, body@);
}

/// A memory is superseded that is active, is not a link, and has a replacement that
/// can be made. What is superseded says what it said; what replaces it is active
/// and names it.
pub proof fn superseding_keeps_both(
    old_memory: Memory,
    state: PathState,
    input: CreateMemoryInput,
    id: String,
    now: &str,
    result: Result<(Memory, Memory), Error>,
)
    requires
        call_ensures(supersede_memory, (old_memory, state, input, id, now), result),
    ensures
        result is Ok <==> old_memory@.metadata.status == MemoryStatus::Active && state
            != PathState::Symlink && created(input@, id@, now@) is Ok,
        result matches Ok((superseded, replacement)) ==> {
            &&& superseded@.metadata == (MetadataView {
                status: MemoryStatus::Superseded,
                updated_at: now@,
                ..old_memory@.metadata
            })
            &&& superseded@.body == old_memory@.body
            &&& superseded@.path == old_memory@.path
            &&& replacement@.metadata.id == id@
            &&& replacement@.metadata.status == MemoryStatus::Active
            &&& replacement@.metadata.supersedes == seq![old_memory@.metadata.id]
            &&& replacement@.metadata.created_at == now@
            &&& replacement@.metadata.updated_at == now@
            &&& replacement@.metadata.memory_type == input@.memory_type
            &&& replacement@.metadata.scope == input@.scope
            &&& replacement@.metadata.kind == input@.kind
            &&& replacement@.metadata.tags == normal_tags(input@.tags)
            &&& replacement@.metadata.source == input@.source
            &&& replacement@.metadata.source_id == input@.source_id
            &&& replacement@.body == input@.body
            &&& replacement@.path is None
        },
{
}

/// Only an active memory is updated, and only where it would say something else.
pub proof fn updates_that_change_nothing_are_none(
    existing: &Memory,
    body: &str,
    decision: Result<ChangeDecision, Error>,
)
    requires
        call_ensures(decide_update, (existing, body), decision),
    ensures
        decision is Ok <==> existing@.metadata.status == MemoryStatus::Active,
        decision matches Ok(decision) ==> (decision == ChangeDecision::Unchanged <==> canonical(
            existing@.body,
        ) == canonical(body@)),
{
}

/// Only an active memory is superseded, and only where it would say something else
/// or anything else is asked for.
pub proof fn replacements_that_change_nothing_are_none(
    source: &Memory,
    args: &SupersedeArgs,
    decision: Result<ChangeDecision, Error>,
)
    requires
        call_ensures(decide_supersede, (source, args), decision),
    ensures
        decision is Ok <==> source@.metadata.status == MemoryStatus::Active,
        decision matches Ok(decision) ==> (decision == ChangeDecision::Unchanged <==> {
            &&& canonical(source@.body) == canonical(typed(args.text.deep_view()))
            &&& !args.short && !args.long
            &&& args.memory_type is None && args.scope is None && args.kind is None
            &&& args.tags@.len() == 0
            &&& args.source is None && args.source_id is None
            &&& args.agent is None && args.session is None
        }),
{
}

/// The memories that come from an item of a source are those that name both.
pub proof fn origins_name_source_and_item(
    memories: Seq<MemoryView>,
    source: Seq<char>,
    source_id: Seq<char>,
    memory: MemoryView,
)
    ensures
        with_source_identity(memories, source, source_id).contains(memory) <==> memories.contains(
            memory,
        ) && memory.metadata.source == Some(source) && memory.metadata.source_id == Some(source_id),
{
    filtering_keeps_what_is_wanted(
        memories,
        |memory: MemoryView| crate::memory::has_source_identity(memory, source, source_id),
    );
}

// What is asked for.

/// A listing asks for what is given: the flag for long-term memories goes before
/// the one for short-term memories, and both before a type that is named.
pub proof fn listings_ask_for_what_is_given(args: ListArgs, filter: MemoryFilter)
    requires
        call_ensures(list_filter, (args,), filter),
    ensures
        args.long ==> filter.memory_type == Some(MemoryType::Long),
        !args.long && args.short ==> filter.memory_type == Some(MemoryType::Short),
        !args.long && !args.short ==> filter.memory_type == args.memory_type,
        filter.scope == args.scope,
        filter.kind == args.kind,
        filter.tag == args.tag,
        filter.include_archived == args.all,
{
}

/// A search is made as its flags say, else in the mode that is named, else in the
/// one that is configured.
pub proof fn searches_go_by_their_flags(
    args: &SearchArgs,
    default_search: &str,
    mode: Result<SearchMode, Error>,
)
    requires
        call_ensures(search_mode, (args, default_search), mode),
    ensures
        args.all ==> mode == Ok::<_, Error>(SearchMode::All),
        !args.all && args.vector ==> mode == Ok::<_, Error>(SearchMode::Vector),
        !args.all && !args.vector && args.bm25 ==> mode == Ok::<_, Error>(SearchMode::Bm25),
        !args.all && !args.vector && !args.bm25 && args.grep ==> mode == Ok::<_, Error>(
            SearchMode::Grep,
        ),
        !args.all && !args.vector && !args.bm25 && !args.grep ==> match args.mode {
            Some(named) => mode == Ok::<_, Error>(named),
            None => match SearchMode::of_name(default_search@) {
                Ok(configured) => mode == Ok::<_, Error>(configured),
                Err(_) => mode is Err,
            },
        },
{
}

/// A memory is made of what is typed; without a type it is a short-term one.
pub proof fn additions_hold_what_is_typed(args: &MemoryWriteArgs)
    ensures
        ({
            let input = added_input(args);
            &&& args.long ==> input.memory_type == MemoryType::Long
            &&& !args.long && args.short ==> input.memory_type == MemoryType::Short
            &&& !args.long && !args.short ==> input.memory_type == match args.memory_type {
                Some(named) => named,
                None => MemoryType::Short,
            }
            &&& input.scope == args.scope
            &&& input.kind == args.kind
            &&& input.tags == args.tags.deep_view()
            &&& input.body == typed(args.text.deep_view())
            &&& input.source == Some(args.source@)
            &&& input.source_id == args.source_id.deep_view()
            &&& input.agent == args.agent.deep_view()
            &&& input.session == args.session.deep_view()
        }),
{
}

/// A replacement is like the memory that it replaces, but for what is asked for;
/// its text is what is typed, and its origin is never that of the other.
pub proof fn replacements_are_like_what_they_replace(source: MemoryView, args: &SupersedeArgs)
    ensures
        ({
            let input = replacement_input(source, args);
            let old_data = source.metadata;
            &&& args.long ==> input.memory_type == MemoryType::Long
            &&& !args.long && args.short ==> input.memory_type == MemoryType::Short
            &&& !args.long && !args.short ==> input.memory_type == match args.memory_type {
                Some(named) => named,
                None => old_data.memory_type,
            }
            &&& args.scope is None ==> input.scope == old_data.scope
            &&& args.scope matches Some(scope) ==> input.scope == scope
            &&& args.kind is None ==> input.kind == old_data.kind
            &&& args.kind matches Some(kind) ==> input.kind == kind
            &&& args.tags@.len() == 0 ==> input.tags == old_data.tags
            &&& args.tags@.len() > 0 ==> input.tags == args.tags.deep_view()
            &&& input.body == typed(args.text.deep_view())
            &&& args.source is None ==> input.source == Some("supersede"@)
            &&& args.source matches Some(named) ==> input.source == Some(named@)
            &&& input.source_id == args.source_id.deep_view()
            &&& args.agent is None ==> input.agent == old_data.agent
            &&& args.agent matches Some(agent) ==> input.agent == Some(agent@)
            &&& args.session is None ==> input.session == old_data.session
            &&& args.session matches Some(session) ==> input.session == Some(session@)
        }),
{
    assert(args.tags.deep_view().len() == args.tags@.len());
}

// Configuration.

/// Whether a profile of that name is configured.
pub open spec fn has_profile(config: ConfigView, name: Seq<char>) -> bool {
    exists|i: int| 0 <= i < config.profiles.len() && (#[trigger] config.profiles[i]).name == name
}

proof fn lemma_has_profile(config: ConfigView, name: Seq<char>)
    ensures
        crate::command::is_configured(config, name) == has_profile(config, name),
{
    lemma_profile_index_spec(config.profiles, name);
    if has_profile(config, name) {
        let i = choose|i: int|
            0 <= i < config.profiles.len() && (#[trigger] config.profiles[i]).name == name;
        assert(config.profiles[i].name == name);
    }
}

/// Setting a value changes that value and no other. A profile has to be configured
/// to be the active one, a search mode has to be one, and an editor of white space
/// is none.
pub proof fn settings_are_set_one_by_one(config: ConfigView, key: ConfigKey, value: Seq<char>)
    ensures
        match key {
            ConfigKey::ActiveProfile => config_set(config, key, value) == if has_profile(
                config,
                value,
            ) {
                Ok::<_, Seq<char>>(ConfigView { active_profile: value, ..config })
            } else {
                Err(config_set(config, key, value)->Err_0)
            },
            ConfigKey::DefaultSearch => match config_set(config, key, value) {
                Ok(after) => {
                    &&& SearchMode::of_name(value) is Ok
                    &&& after.default_search == trimmed(value)
                    &&& after == (ConfigView { default_search: after.default_search, ..config })
                },
                Err(_) => SearchMode::of_name(value) is Err,
            },
            ConfigKey::Editor => config_set(config, key, value) == Ok::<_, Seq<char>>(
                ConfigView {
                    editor: if forall|i: int| 0 <= i < value.len() ==> is_space(#[trigger] value[i]) {
                        None
                    } else {
                        Some(trimmed(value))
                    },
                    ..config
                },
            ),
        },
{
    lemma_has_profile(config, value);
    blank_texts_are_white(value);
}

/// The profile that is put in is there under its name, and the others stay as they
/// were; only where it is the only one, or it is to be, it becomes the active one.
pub proof fn profiles_are_put_in(config: ConfigView, profile: ProfileView, other: ProfileView)
    requires
        forall|i: int, j: int|
            0 <= i < j < config.profiles.len() ==> (#[trigger] config.profiles[i]).name != (
            #[trigger] config.profiles[j]).name,
    ensures
        with_profile(config, profile).profiles.contains(other) <==> other == profile || (
        config.profiles.contains(other) && other.name != profile.name),
        remembered(config, profile).profiles == with_profile(config, profile).profiles,
        remembered(config, profile).active_profile == profile.name,
        with_profile(config, profile).active_profile == if config.profiles.len() == 0 || (
        config.profiles.len() == 1 && config.profiles[0].name == profile.name) {
            profile.name
        } else {
            config.active_profile
        },
        with_profile(config, profile).default_search == config.default_search,
        with_profile(config, profile).editor == config.editor,
        remembered(config, profile).default_search == config.default_search,
        remembered(config, profile).editor == config.editor,
{
    let profiles = config.profiles;
    let at = profile_index(profiles, profile.name);
    let after = upserted(profiles, profile);
    lemma_profile_index_spec(profiles, profile.name);
    if at < profiles.len() {
        assert(after[at] == profile);
        if profiles.contains(other) && other.name != profile.name {
            let i = choose|i: int| 0 <= i < profiles.len() && profiles[i] == other;
            assert(after[i] == other);
        }
        if after.contains(other) && other != profile {
            let i = choose|i: int| 0 <= i < after.len() && after[i] == other;
            assert(profiles[i] == other);
            if i < at {
                assert(profiles[i].name != profiles[at].name);
            } else {
                assert(profiles[at].name != profiles[i].name);
            }
        }
    } else {
        let all = profiles.push(profile);
        order::lemma_sorted_members(
            all,
            |left: ProfileView, right: ProfileView| ProfileConfig::ranks_before(left, right),
        );
        assert(all[profiles.len() as int] == profile);
        assert(after.contains(other) <==> all.contains(other));
        if profiles.contains(other) {
            let i = choose|i: int| 0 <= i < profiles.len() && profiles[i] == other;
            assert(all[i] == other);
        }
        if all.contains(other) && other != profile {
            let i = choose|i: int| 0 <= i < all.len() && all[i] == other;
            assert(profiles[i] == other);
        }
    }
}

/// Only a profile that is configured can become the active one, and nothing else
/// changes then.
pub proof fn configured_profiles_are_used(config: ConfigView, name: Seq<char>)
    ensures
        used_profile(config, name) is Ok <==> has_profile(config, name),
        used_profile(config, name) matches Ok(after) ==> after == (ConfigView {
            active_profile: name,
            ..config
        }),
{
    lemma_has_profile(config, name);
}

/// A vault is made for the profile that is named, else for the active one. What is
/// not given is as that profile has it; a new one is kept locally, below the place
/// where one is.
pub proof fn vaults_are_made_for_profiles(
    config: ConfigView,
    name: Option<Seq<char>>,
    root: Option<Seq<char>>,
    storage: Option<StorageMode>,
    home: Option<Seq<char>>,
    current_dir: Seq<char>,
)
    ensures
        ({
            let profile = initial_profile_of(config, name, root, storage, home, current_dir);
            &&& name matches Some(name) ==> profile.name == name
            &&& name is None ==> profile.name == config.active_profile
            &&& root matches Some(root) ==> profile.root == normal_root(root, home, current_dir)
            &&& storage matches Some(storage) ==> profile.storage == storage
            &&& has_profile(config, profile.name) ==> exists|i: int|
                0 <= i < config.profiles.len() && (#[trigger] config.profiles[i]).name
                    == profile.name && (root is None ==> profile.root == config.profiles[i].root)
                    && (storage is None ==> profile.storage == config.profiles[i].storage)
            &&& !has_profile(config, profile.name) ==> {
                &&& root is None ==> profile.root == crate::path::below(current_dir, "rem"@)
                &&& storage is None ==> profile.storage == StorageMode::Local
            }
        }),
{
    let profile = initial_profile_of(config, name, root, storage, home, current_dir);
    lemma_has_profile(config, profile.name);
    lemma_profile_index_spec(config.profiles, profile.name);
    let at = profile_index(config.profiles, profile.name);
    if at < config.profiles.len() {
        assert(config.profiles[at].name == profile.name);
    }
}

/// A path stays as it is where it is absolute, begins in the home directory where
/// it begins with a tilde, and else below the place where one is.
pub proof fn roots_are_absolute(rest: Seq<char>, home: Seq<char>, current_dir: Seq<char>)
    requires
        home.len() > 1,
        home[0] == '/',
        home.last() != '/',
        current_dir.len() > 1,
        current_dir[0] == '/',
        current_dir.last() != '/',
        rest.len() > 0,
        rest[0] != '/',
    ensures
        normal_root("~"@, Some(home), current_dir) == home,
        normal_root("~/"@ + rest, Some(home), current_dir) == home + "/"@ + rest,
        normal_root("/"@ + rest, Some(home), current_dir) == "/"@ + rest,
        rest[0] != '~' ==> normal_root(rest, Some(home), current_dir) == current_dir + "/"@ + rest,
        normal_root(rest, None, current_dir) == current_dir + "/"@ + rest,
        home_of(None, Some(home)) == Ok::<_, Seq<char>>(home + "/.rem"@),
        home_of(Some(rest), Some(home)) == Ok::<_, Seq<char>>(rest),
        home_of(Some(rest), None) == Ok::<_, Seq<char>>(rest),
        home_of(None, None) is Err,
{
    reveal_strlit("~");
    reveal_strlit("~/");
    reveal_strlit("/");
    reveal_strlit(".rem");
    reveal_strlit("/.rem");
    let tilde = "~/"@ + rest;
    assert("~/"@.is_prefix_of(tilde)) by {
        assert(tilde.subrange(0, 2) =~= "~/"@);
    }
    assert(tilde.len() > 1);
    assert(tilde.skip(2) =~= rest);
    let absolute = "/"@ + rest;
    assert(absolute[0] == '/');
    assert("~"@[0] == '~');
    assert("~/"@[0] == '~');
    if "~/"@.is_prefix_of(absolute) {
        assert(absolute.subrange(0, 2)[0] == absolute[0]);
    }
    if "~/"@.is_prefix_of(rest) {
        assert(rest.subrange(0, 2)[0] == rest[0]);
    }
    assert((home + "/"@ + rest)[0] == home[0]);
    assert(crate::path::below(home, ".rem"@) =~= home + "/.rem"@);
}

/// A profile that is new is put in its place: the profiles stand by their names
/// then.
pub proof fn new_profiles_are_put_in_order(profiles: Seq<ProfileView>, profile: ProfileView)
    requires
        forall|i: int| 0 <= i < profiles.len() ==> (#[trigger] profiles[i]).name != profile.name,
    ensures
        forall|i: int, j: int|
            0 <= i < j < upserted(profiles, profile).len() ==> !text_less(
                (#[trigger] upserted(profiles, profile)[j]).name,
                (#[trigger] upserted(profiles, profile)[i]).name,
            ),
{
    let before = |left: ProfileView, right: ProfileView| ProfileConfig::ranks_before(left, right);
    let key = |profile: ProfileView| profile.name;
    lemma_profile_index_spec(profiles, profile.name);
    assert(profile_index(profiles, profile.name) == profiles.len());
    assert(goes_first_by(before, key)) by {
        assert forall|a: ProfileView, b: ProfileView| #[trigger] before(a, b) implies !text_less(
            key(b),
            key(a),
        ) by {
            order::text_less_is_total(a.name, b.name);
        }
    }
    sorting_goes_by_the_first_key(profiles.push(profile), before, key);
    let all = upserted(profiles, profile);
    assert forall|i: int, j: int| 0 <= i < j < all.len() implies !text_less(
        (#[trigger] all[j]).name,
        (#[trigger] all[i]).name,
    ) by {
        assert(!text_less(key(all[j]), key(all[i])));
    }
}

} // verus!
