//! The configuration: which vaults there are, and which is in use.

use vstd::prelude::*;

use crate::error::Error;
use crate::order::{self, Ranked};
use crate::path;
use crate::text;

verus! {

/// How a vault is kept.
#[derive(Clone, Copy, Debug, PartialEq, Eq, Structural)]
pub enum StorageMode {
    Local,
    Obsidian,
    Git,
}

impl Default for StorageMode {
    fn default() -> (mode: Self)
        ensures
            mode == StorageMode::Local,
    {
        StorageMode::Local
    }
}

impl StorageMode {
    pub open spec fn name(self) -> Seq<char> {
        match self {
            StorageMode::Local => "local"@,
            StorageMode::Obsidian => "obsidian"@,
            StorageMode::Git => "git"@,
        }
    }

    pub fn label(self) -> (label: &'static str)
        ensures
            label@ == self.name(),
    {
        match self {
            StorageMode::Local => "local",
            StorageMode::Obsidian => "obsidian",
            StorageMode::Git => "git",
        }
    }

    pub open spec fn of_name(value: Seq<char>) -> Result<StorageMode, Seq<char>> {
        let value = text::trimmed(value);
        if value == "local"@ {
            Ok(StorageMode::Local)
        } else if value == "obsidian"@ {
            Ok(StorageMode::Obsidian)
        } else if value == "git"@ {
            Ok(StorageMode::Git)
        } else {
            Err(
                "invalid storage mode "@ + text::quoted_form(value)
                    + "; expected local, obsidian, or git"@,
            )
        }
    }

    pub fn parse_config_value(value: &str) -> (mode: Result<StorageMode, Error>)
        ensures
            match mode {
                Ok(mode) => StorageMode::of_name(value@) == Ok::<_, Seq<char>>(mode),
                Err(error) => StorageMode::of_name(value@) == Err::<StorageMode, _>(error@),
            },
    {
        let value = text::trim(value);
        if text::same(value, "local") {
            Ok(StorageMode::Local)
        } else if text::same(value, "obsidian") {
            Ok(StorageMode::Obsidian)
        } else if text::same(value, "git") {
            Ok(StorageMode::Git)
        } else {
            Err(
                Error::new(
                    text::concat3(
                        "invalid storage mode ",
                        text::quoted(value).as_str(),
                        "; expected local, obsidian, or git",
                    ),
                ),
            )
        }
    }
}

/// A label is read back.
pub proof fn storage_mode_reads_back(value: StorageMode)
    ensures
        StorageMode::of_name(value.name()) == Ok::<_, Seq<char>>(value),
{
    reveal_strlit("local");
    reveal_strlit("obsidian");
    reveal_strlit("git");
    crate::text_laws::trimmed_of_tight(value.name());
    assert("local"@.len() != "obsidian"@.len());
    assert("local"@.len() != "git"@.len());
    assert("obsidian"@.len() != "git"@.len());
}

/// A named vault.
#[derive(Debug, Eq, PartialEq)]
pub struct ProfileConfig {
    pub name: String,
    pub root: String,
    pub storage: StorageMode,
}

#[verifier::ext_equal]
pub struct ProfileView {
    pub name: Seq<char>,
    pub root: Seq<char>,
    pub storage: StorageMode,
}

impl View for ProfileConfig {
    type V = ProfileView;

    open spec fn view(&self) -> ProfileView {
        ProfileView { name: self.name@, root: self.root@, storage: self.storage }
    }
}

impl DeepView for ProfileConfig {
    type V = ProfileView;

    open spec fn deep_view(&self) -> ProfileView {
        self@
    }
}

impl Clone for ProfileConfig {
    fn clone(&self) -> (copy: Self)
        ensures
            copy@ == self@,
    {
        ProfileConfig {
            name: self.name.clone(),
            root: self.root.clone(),
            storage: self.storage,
        }
    }
}

impl Ranked for ProfileConfig {
    open spec fn ranks_before(left: ProfileView, right: ProfileView) -> bool {
        order::text_less(left.name, right.name)
    }

    fn is_before(&self, other: &Self) -> (before: bool) {
        order::is_less(self.name.as_str(), other.name.as_str())
    }
}

#[derive(Debug, Eq, PartialEq)]
pub struct AppConfig {
    pub active_profile: String,
    pub default_search: String,
    pub editor: Option<String>,
    pub profiles: Vec<ProfileConfig>,
}

#[verifier::ext_equal]
pub struct ConfigView {
    pub active_profile: Seq<char>,
    pub default_search: Seq<char>,
    pub editor: Option<Seq<char>>,
    pub profiles: Seq<ProfileView>,
}

impl View for AppConfig {
    type V = ConfigView;

    open spec fn view(&self) -> ConfigView {
        ConfigView {
            active_profile: self.active_profile@,
            default_search: self.default_search@,
            editor: self.editor.deep_view(),
            profiles: self.profiles.deep_view(),
        }
    }
}

fn clone_profiles(profiles: &Vec<ProfileConfig>) -> (copies: Vec<ProfileConfig>)
    ensures
        copies.deep_view() == profiles.deep_view(),
{
    let mut copies: Vec<ProfileConfig> = Vec::new();
    let ghost all = profiles.deep_view();
    let mut i: usize = 0;
    while i < profiles.len()
        invariant
            i <= profiles.len(),
            all == profiles.deep_view(),
            copies.deep_view() == all.take(i as int),
        decreases profiles.len() - i,
    {
        let ghost before = copies.deep_view();
        copies.push(profiles[i].clone());
        assert(copies.deep_view() =~= before.push(profiles[i as int]@));
        assert(all.take(i + 1) =~= all.take(i as int).push(all[i as int]));
        i = i + 1;
    }
    assert(all.take(i as int) =~= all);
    copies
}

impl Clone for AppConfig {
    fn clone(&self) -> (copy: Self)
        ensures
            copy@ == self@,
    {
        AppConfig {
            active_profile: self.active_profile.clone(),
            default_search: self.default_search.clone(),
            editor: text::clone_optional(&self.editor),
            profiles: clone_profiles(&self.profiles),
        }
    }
}

/// The position of the first profile of that name; the number of profiles if
/// there is none.
pub open spec fn profile_index(profiles: Seq<ProfileView>, name: Seq<char>) -> int
    decreases profiles.len(),
{
    if profiles.len() == 0 || profiles[0].name == name {
        0
    } else {
        1 + profile_index(profiles.drop_first(), name)
    }
}

pub proof fn lemma_profile_index(profiles: Seq<ProfileView>, name: Seq<char>, n: int)
    requires
        0 <= n <= profiles.len(),
        forall|i: int| 0 <= i < n ==> (#[trigger] profiles[i]).name != name,
        n < profiles.len() ==> profiles[n].name == name,
    ensures
        profile_index(profiles, name) == n,
    decreases profiles.len(),
{
    if n > 0 {
        let rest = profiles.drop_first();
        assert forall|i: int| 0 <= i < n - 1 implies (#[trigger] rest[i]).name != name by {
            assert(rest[i] == profiles[i + 1]);
        }
        assert(profiles[0].name != name);
        lemma_profile_index(rest, name, n - 1);
    }
}

/// The profiles with one put in: in place of the first of its name, or behind
/// the others, which are then sorted by name.
pub open spec fn upserted(profiles: Seq<ProfileView>, profile: ProfileView) -> Seq<ProfileView> {
    let at = profile_index(profiles, profile.name);
    if at < profiles.len() {
        profiles.update(at, profile)
    } else {
        order::ranked::<ProfileConfig>(profiles.push(profile))
    }
}

impl AppConfig {
    /// The configuration to start with.
    pub fn with_editor(editor: Option<String>) -> (config: AppConfig)
        ensures
            config.active_profile@ == "default"@,
            config.default_search@ == "auto"@,
            config.editor == editor,
            config.profiles.deep_view() == Seq::<ProfileView>::empty(),
    {
        let config = AppConfig {
            active_profile: "default".to_owned(),
            default_search: "auto".to_owned(),
            editor,
            profiles: Vec::new(),
        };
        assert(config.profiles.deep_view() =~= Seq::<ProfileView>::empty());
        config
    }

    pub fn find_profile(&self, name: &str) -> (at: usize)
        ensures
            at == profile_index(self.profiles.deep_view(), name@),
            at <= self.profiles.len(),
    {
        let ghost all = self.profiles.deep_view();
        let mut i: usize = 0;
        while i < self.profiles.len() && !text::same(self.profiles[i].name.as_str(), name)
            invariant
                i <= self.profiles.len(),
                all == self.profiles.deep_view(),
                forall|k: int| 0 <= k < i ==> (#[trigger] all[k]).name != name@,
            decreases self.profiles.len() - i,
        {
            assert(all[i as int] == self.profiles[i as int]@);
            i = i + 1;
        }
        proof {
            assert(i < all.len() ==> all[i as int] == self.profiles[i as int]@);
            lemma_profile_index(all, name@, i as int);
        }
        i
    }

    /// The profile of that name.
    pub fn profile(&self, name: &str) -> (profile: Result<&ProfileConfig, Error>)
        ensures
            ({
                let at = profile_index(self.profiles.deep_view(), name@);
                match profile {
                    Ok(profile) => at < self.profiles.len() && profile@
                        == self.profiles.deep_view()[at],
                    Err(error) => at == self.profiles.len() && error@ == "profile "@
                        + text::quoted_form(name@) + " is not configured"@,
                }
            }),
    {
        let at = self.find_profile(name);
        if at < self.profiles.len() {
            Ok(&self.profiles[at])
        } else {
            Err(
                Error::new(
                    text::concat3("profile ", text::quoted(name).as_str(), " is not configured"),
                ),
            )
        }
    }

    pub fn active_profile(&self) -> (profile: Result<&ProfileConfig, Error>)
        ensures
            ({
                let at = profile_index(self.profiles.deep_view(), self.active_profile@);
                match profile {
                    Ok(profile) => at < self.profiles.len() && profile@
                        == self.profiles.deep_view()[at],
                    Err(error) => at == self.profiles.len() && error@ == "profile "@
                        + text::quoted_form(self.active_profile@) + " is not configured"@,
                }
            }),
    {
        self.profile(self.active_profile.as_str())
    }

    /// Adds a profile, or replaces the one of its name.
    pub fn upsert_profile(&mut self, profile: ProfileConfig)
        ensures
            final(self).profiles.deep_view() == upserted(
                old(self).profiles.deep_view(),
                profile@,
            ),
            final(self).active_profile == old(self).active_profile,
            final(self).default_search == old(self).default_search,
            final(self).editor == old(self).editor,
    {
        let at = self.find_profile(profile.name.as_str());
        let ghost all = self.profiles.deep_view();
        let ghost added = profile@;
        if at < self.profiles.len() {
            self.profiles.set(at, profile);
            assert(self.profiles.deep_view() =~= all.update(at as int, added));
        } else {
            let mut profiles: Vec<ProfileConfig> = Vec::new();
            profiles.append(&mut self.profiles);
            assert(profiles.deep_view() =~= all);
            profiles.push(profile);
            assert(profiles.deep_view() =~= all.push(added));
            self.profiles = order::sort(profiles);
        }
    }
}

/// Where the configuration of a home directory is kept.
#[derive(Debug)]
pub struct ConfigStore {
    root: String,
    path: String,
}

impl ConfigStore {
    pub closed spec fn root_text(&self) -> Seq<char> {
        self.root@
    }

    pub closed spec fn path_text(&self) -> Seq<char> {
        self.path@
    }

    pub fn at(root: String) -> (store: ConfigStore)
        ensures
            store.root_text() == root@,
            store.path_text() == path::below(root@, "config.toml"@),
    {
        let path = path::join(root.as_str(), "config.toml");
        ConfigStore { root, path }
    }

    pub fn root(&self) -> (root: &str)
        ensures
            root@ == self.root_text(),
    {
        self.root.as_str()
    }

    pub fn path(&self) -> (path: &str)
        ensures
            path@ == self.path_text(),
    {
        self.path.as_str()
    }
}

/// The directory that holds the configuration: the one named for it, else `.rem`
/// in the home directory.
pub open spec fn home_of(configured: Option<Seq<char>>, home: Option<Seq<char>>) -> Result<
    Seq<char>,
    Seq<char>,
> {
    match (configured, home) {
        (Some(path), _) => Ok(path),
        (None, Some(home)) => Ok(path::below(home, ".rem"@)),
        (None, None) => Err("could not resolve HOME; set REM_HOME explicitly"@),
    }
}

pub fn rem_home(configured: Option<String>, home: Option<String>) -> (root: Result<String, Error>)
    ensures
        crate::error::agrees(root, home_of(configured.deep_view(), home.deep_view())),
{
    match (configured, home) {
        (Some(path), _) => Ok(path),
        (None, Some(home)) => Ok(path::join(home.as_str(), ".rem")),
        (None, None) => Err(Error::of("could not resolve HOME; set REM_HOME explicitly")),
    }
}

/// A path with a leading `~` replaced by the home directory, where there is one.
pub open spec fn expanded(path: Seq<char>, home: Option<Seq<char>>) -> Seq<char> {
    match home {
        Some(home) => if path == "~"@ {
            home
        } else if "~/"@.is_prefix_of(path) {
            path::below(home, path.skip(2))
        } else {
            path
        },
        None => path,
    }
}

/// An absolute form of a path that the user gave.
pub open spec fn normal_root(
    path: Seq<char>,
    home: Option<Seq<char>>,
    current_dir: Seq<char>,
) -> Seq<char> {
    path::below(current_dir, expanded(path, home))
}

fn expand_tilde(path: String, home: &Option<String>) -> (result: String)
    ensures
        result@ == expanded(path@, home.deep_view()),
{
    match home {
        Some(home) => {
            if text::same(path.as_str(), "~") {
                return home.clone();
            }
            proof {
                reveal_strlit("~/");
                assert("~/"@.len() == 2);
            }
            match text::strip_prefix(path.as_str(), "~/") {
                Some(rest) => path::join(home.as_str(), rest),
                None => path.clone(),
            }
        },
        None => path,
    }
}

/// Makes a path absolute, given the home and the current directory.
pub fn normalize_root(path: String, home: Option<String>, current_dir: &str) -> (root: String)
    ensures
        root@ == normal_root(path@, home.deep_view(), current_dir@),
{
    let path = expand_tilde(path, &home);
    path::join(current_dir, path.as_str())
}

// Laws.

/// A profile that was put in is found under its name.
pub proof fn upserted_profile_is_found(profiles: Seq<ProfileView>, profile: ProfileView)
    ensures
        ({
            let after = upserted(profiles, profile);
            let at = profile_index(after, profile.name);
            at < after.len() && after[at] == profile
        }),
{
    let at = profile_index(profiles, profile.name);
    lemma_profile_index_spec(profiles, profile.name);
    let after = upserted(profiles, profile);
    if at < profiles.len() {
        lemma_profile_index(after, profile.name, at);
    } else {
        let all = profiles.push(profile);
        let less = |left: ProfileView, right: ProfileView|
            ProfileConfig::ranks_before(left, right);
        order::lemma_sorted_members(all, less);
        assert(all.last() == profile);
        assert(all.contains(profile));
        assert(after.contains(profile));
        let n = choose|n: int| 0 <= n < after.len() && after[n] == profile;
        lemma_profile_index_spec(after, profile.name);
        let first = profile_index(after, profile.name);
        assert(first <= n) by {
            if first > n {
                assert(after[n].name != profile.name);
            }
        }
        assert(after.contains(after[first]));
        assert(all.contains(after[first]));
        let k = choose|k: int| 0 <= k < all.len() && all[k] == after[first];
        if k < profiles.len() {
            assert(profiles[k].name != profile.name);
        }
    }
}

pub proof fn lemma_profile_index_spec(profiles: Seq<ProfileView>, name: Seq<char>)
    ensures
        0 <= profile_index(profiles, name) <= profiles.len(),
        forall|i: int|
            0 <= i < profile_index(profiles, name) ==> (#[trigger] profiles[i]).name != name,
        profile_index(profiles, name) < profiles.len() ==> profiles[profile_index(
            profiles,
            name,
        )].name == name,
    decreases profiles.len(),
{
    if profiles.len() > 0 && profiles[0].name != name {
        let rest = profiles.drop_first();
        lemma_profile_index_spec(rest, name);
        assert forall|i: int| 0 <= i < profile_index(profiles, name) implies (
        #[trigger] profiles[i]).name != name by {
            if i > 0 {
                assert(rest[i - 1] == profiles[i]);
            }
        }
        let n = profile_index(rest, name);
        if n < rest.len() {
            assert(rest[n] == profiles[n + 1]);
        }
    }
}

} // verus!
