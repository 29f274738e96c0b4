//! The command line: what can be asked for, and the grouped help.

use vstd::prelude::*;
use vstd::string::*;

use crate::config::StorageMode;
use crate::conflict::ConflictKind;
use crate::memory::{MemoryKind, MemoryScope, MemoryType};
use crate::output::{spaces, ColorChoice};
use crate::search::SearchMode;
use crate::text;

verus! {

/// What was typed as separate words.
pub open spec fn typed(words: Seq<Seq<char>>) -> Seq<char> {
    text::trimmed(text::joined(words, " "@))
}

fn typed_text(words: &Vec<String>) -> (body: String)
    ensures
        body@ == typed(words.deep_view()),
{
    text::trim(text::join(words, " ").as_str()).to_owned()
}

/// A type that is asked for, by a flag or by its name.
pub open spec fn chosen_type(long: bool, short: bool, named: Option<MemoryType>) -> Option<MemoryType> {
    if long {
        Some(MemoryType::Long)
    } else if short {
        Some(MemoryType::Short)
    } else {
        named
    }
}

/// The whole command line.
#[derive(Debug)]
pub struct Cli {
    pub color: ColorChoice,
    pub command: Option<Command>,
}

impl Cli {
    /// The command; the settings screen where none is given.
    pub fn command(self) -> (command: Command)
        ensures
            command == (match self.command {
                Some(command) => command,
                None => Command::Configure,
            }),
    {
        match self.command {
            Some(command) => command,
            None => Command::Configure,
        }
    }
}

#[derive(Debug)]
pub enum Command {
    Configure,
    Init(InitArgs),
    Profile { command: ProfileCommand },
    Add(MemoryWriteArgs),
    List(ListArgs),
    Show(IdArgs),
    Edit(EditArgs),
    Update(UpdateArgs),
    Append(AppendArgs),
    Review(ReviewArgs),
    Supersede(SupersedeArgs),
    Delete(DeleteArgs),
    Promote(PromoteArgs),
    Commit(CommitArgs),
    Search(SearchArgs),
    Facts(FactsArgs),
    Conflict { command: ConflictCommand },
    Rebuild,
    Doctor,
    Config { command: ConfigCommand },
}

/// What to do about changes that were made outside.
#[derive(Clone, Copy, Debug)]
pub struct MutationArgs {
    pub accept_external: bool,
    pub restore_external: bool,
    pub non_interactive: bool,
}

impl Default for MutationArgs {
    fn default() -> (args: MutationArgs)
        ensures
            !args.accept_external,
            !args.restore_external,
            !args.non_interactive,
    {
        MutationArgs { accept_external: false, restore_external: false, non_interactive: false }
    }
}

#[derive(Debug)]
pub struct InitArgs {
    pub tx: MutationArgs,
    pub root: Option<String>,
    pub storage: Option<StorageMode>,
    pub profile: Option<String>,
}

#[derive(Debug)]
pub enum ProfileCommand {
    List,
    Show { name: Option<String> },
    Add { name: String, root: String, storage: StorageMode },
    Use { name: String },
}

#[derive(Debug)]
pub struct MemoryWriteArgs {
    pub tx: MutationArgs,
    pub short: bool,
    pub long: bool,
    pub memory_type: Option<MemoryType>,
    pub scope: MemoryScope,
    pub kind: MemoryKind,
    pub tags: Vec<String>,
    pub source: String,
    pub source_id: Option<String>,
    pub agent: Option<String>,
    pub session: Option<String>,
    pub text: Vec<String>,
}

impl MemoryWriteArgs {
    pub fn resolved_type(&self) -> (resolved: MemoryType)
        ensures
            resolved == (match chosen_type(self.long, self.short, self.memory_type) {
                Some(chosen) => chosen,
                None => MemoryType::Short,
            }),
    {
        if self.long {
            MemoryType::Long
        } else if self.short {
            MemoryType::Short
        } else {
            match self.memory_type {
                Some(named) => named,
                None => MemoryType::Short,
            }
        }
    }

    pub fn body(&self) -> (body: String)
        ensures
            body@ == typed(self.text.deep_view()),
    {
        typed_text(&self.text)
    }
}

#[derive(Debug)]
pub struct ListArgs {
    pub short: bool,
    pub long: bool,
    pub memory_type: Option<MemoryType>,
    pub scope: Option<MemoryScope>,
    pub kind: Option<MemoryKind>,
    pub tag: Option<String>,
    pub all: bool,
}

impl ListArgs {
    pub fn resolved_type(&self) -> (resolved: Option<MemoryType>)
        ensures
            resolved == chosen_type(self.long, self.short, self.memory_type),
    {
        if self.long {
            Some(MemoryType::Long)
        } else if self.short {
            Some(MemoryType::Short)
        } else {
            self.memory_type
        }
    }
}

#[derive(Debug)]
pub struct IdArgs {
    pub id: String,
}

#[derive(Debug)]
pub struct EditArgs {
    pub tx: MutationArgs,
    pub id: String,
}

#[derive(Debug)]
pub struct UpdateArgs {
    pub tx: MutationArgs,
    pub id: String,
    pub text: Vec<String>,
}

impl UpdateArgs {
    pub fn body(&self) -> (body: String)
        ensures
            body@ == typed(self.text.deep_view()),
    {
        typed_text(&self.text)
    }
}

#[derive(Debug)]
pub struct AppendArgs {
    pub tx: MutationArgs,
    pub id: String,
    pub text: Vec<String>,
}

impl AppendArgs {
    pub fn body(&self) -> (body: String)
        ensures
            body@ == typed(self.text.deep_view()),
    {
        typed_text(&self.text)
    }
}

#[derive(Debug)]
pub struct ReviewArgs {
    pub id: Option<String>,
    pub scope: MemoryScope,
    pub non_interactive: bool,
    pub text: Vec<String>,
}

impl ReviewArgs {
    pub fn body(&self) -> (body: String)
        ensures
            body@ == typed(self.text.deep_view()),
    {
        typed_text(&self.text)
    }
}

#[derive(Debug)]
pub struct SupersedeArgs {
    pub tx: MutationArgs,
    pub id: String,
    pub short: bool,
    pub long: bool,
    pub memory_type: Option<MemoryType>,
    pub scope: Option<MemoryScope>,
    pub kind: Option<MemoryKind>,
    pub tags: Vec<String>,
    pub source: Option<String>,
    pub source_id: Option<String>,
    pub agent: Option<String>,
    pub session: Option<String>,
    pub text: Vec<String>,
}

impl SupersedeArgs {
    /// Whether anything besides the text is asked for.
    pub open spec fn overrides(&self) -> bool {
        self.short || self.long || self.memory_type is Some || self.scope is Some || self.kind
            is Some || self.tags@.len() > 0 || self.source is Some || self.source_id is Some
            || self.agent is Some || self.session is Some
    }

    pub fn resolved_type(&self, source: MemoryType) -> (resolved: MemoryType)
        ensures
            resolved == (match chosen_type(self.long, self.short, self.memory_type) {
                Some(chosen) => chosen,
                None => source,
            }),
    {
        if self.long {
            MemoryType::Long
        } else if self.short {
            MemoryType::Short
        } else {
            match self.memory_type {
                Some(named) => named,
                None => source,
            }
        }
    }

    pub fn body(&self) -> (body: String)
        ensures
            body@ == typed(self.text.deep_view()),
    {
        typed_text(&self.text)
    }

    pub fn has_metadata_overrides(&self) -> (overridden: bool)
        ensures
            overridden == self.overrides(),
    {
        self.short || self.long || self.memory_type.is_some() || self.scope.is_some()
            || self.kind.is_some() || self.tags.len() > 0 || self.source.is_some()
            || self.source_id.is_some() || self.agent.is_some() || self.session.is_some()
    }
}

#[derive(Debug)]
pub struct DeleteArgs {
    pub tx: MutationArgs,
    pub id: String,
    pub hard: bool,
}

#[derive(Debug)]
pub struct PromoteArgs {
    pub tx: MutationArgs,
    pub id: String,
    pub text: Vec<String>,
}

impl PromoteArgs {
    /// Another text, where one is given.
    pub fn body_override(&self) -> (body: Option<String>)
        ensures
            body.deep_view() == (if typed(self.text.deep_view()).len() == 0 {
                None::<Seq<char>>
            } else {
                Some(typed(self.text.deep_view()))
            }),
    {
        let body = typed_text(&self.text);
        if body.as_str().is_empty() {
            None
        } else {
            Some(body)
        }
    }
}

#[derive(Debug)]
pub struct CommitArgs {
    pub message: Option<String>,
    pub accept_external: bool,
    pub restore_external: bool,
    pub review: bool,
    pub dry_run: bool,
    pub non_interactive: bool,
}

#[derive(Debug)]
pub struct SearchArgs {
    pub grep: bool,
    pub bm25: bool,
    pub vector: bool,
    pub all: bool,
    pub mode: Option<SearchMode>,
    pub query: Vec<String>,
}

impl SearchArgs {
    /// The mode that is asked for, by a flag or by its name.
    pub open spec fn chosen_mode(&self) -> Option<SearchMode> {
        if self.all {
            Some(SearchMode::All)
        } else if self.vector {
            Some(SearchMode::Vector)
        } else if self.bm25 {
            Some(SearchMode::Bm25)
        } else if self.grep {
            Some(SearchMode::Grep)
        } else {
            self.mode
        }
    }

    pub fn has_explicit_mode(&self) -> (explicit: bool)
        ensures
            explicit == self.chosen_mode() is Some,
    {
        self.all || self.vector || self.bm25 || self.grep || self.mode.is_some()
    }

    pub fn resolved_mode(&self) -> (mode: SearchMode)
        ensures
            mode == (match self.chosen_mode() {
                Some(chosen) => chosen,
                None => SearchMode::Auto,
            }),
    {
        if self.all {
            SearchMode::All
        } else if self.vector {
            SearchMode::Vector
        } else if self.bm25 {
            SearchMode::Bm25
        } else if self.grep {
            SearchMode::Grep
        } else {
            match self.mode {
                Some(mode) => mode,
                None => SearchMode::Auto,
            }
        }
    }

    pub fn query(&self) -> (query: String)
        ensures
            query@ == typed(self.query.deep_view()),
    {
        typed_text(&self.query)
    }
}

#[derive(Debug)]
pub struct FactsArgs {
    pub entity: Option<String>,
    pub relation: Option<String>,
    pub at: Option<String>,
    pub all: bool,
    pub source: bool,
}

#[derive(Debug)]
pub enum ConflictCommand {
    List(ConflictListArgs),
    Show(IdArgs),
    Accept(ConflictAcceptArgs),
    Resolve(ConflictResolveArgs),
}

#[derive(Debug)]
pub struct ConflictListArgs {
    pub kind: Option<ConflictKindArg>,
    pub scope: Option<MemoryScope>,
    pub all: bool,
}

#[derive(Clone, Copy, Debug, PartialEq, Eq, Structural)]
pub enum ConflictKindArg {
    ExactActiveDuplicate,
    ExclusiveCurrent,
}

impl From<ConflictKindArg> for ConflictKind {
    fn from(value: ConflictKindArg) -> (kind: ConflictKind) {
        match value {
            ConflictKindArg::ExactActiveDuplicate => ConflictKind::ExactActiveDuplicate,
            ConflictKindArg::ExclusiveCurrent => ConflictKind::ExclusiveCurrent,
        }
    }
}

impl vstd::std_specs::convert::FromSpecImpl<ConflictKindArg> for ConflictKind {
    open spec fn obeys_from_spec() -> bool {
        true
    }

    open spec fn from_spec(value: ConflictKindArg) -> ConflictKind {
        match value {
            ConflictKindArg::ExactActiveDuplicate => ConflictKind::ExactActiveDuplicate,
            ConflictKindArg::ExclusiveCurrent => ConflictKind::ExclusiveCurrent,
        }
    }
}

#[derive(Debug)]
pub struct ConflictAcceptArgs {
    pub tx: MutationArgs,
    pub id: String,
    pub reason: Option<String>,
}

#[derive(Debug)]
pub struct ConflictResolveArgs {
    pub tx: MutationArgs,
    pub id: String,
    pub keep: String,
    pub at: Option<String>,
}

#[derive(Debug)]
pub enum ConfigCommand {
    Init,
    Path,
    Show,
    Assign { key: ConfigKey, value: String },
    Reset,
}

#[derive(Clone, Copy, Debug, PartialEq, Eq, Structural)]
pub enum ConfigKey {
    ActiveProfile,
    DefaultSearch,
    Editor,
}

impl ConfigKey {
    pub open spec fn name(self) -> Seq<char> {
        match self {
            ConfigKey::ActiveProfile => "active-profile"@,
            ConfigKey::DefaultSearch => "default-search"@,
            ConfigKey::Editor => "editor"@,
        }
    }

    pub fn label(self) -> (label: &'static str)
        ensures
            label@ == self.name(),
    {
        match self {
            ConfigKey::ActiveProfile => "active-profile",
            ConfigKey::DefaultSearch => "default-search",
            ConfigKey::Editor => "editor",
        }
    }
}

// Help.

/// Commands that stand under one heading.
#[derive(Debug)]
pub struct CommandCategory {
    pub heading: &'static str,
    pub commands: &'static [&'static str],
}

#[verifier::ext_equal]
pub struct CategoryView {
    pub heading: Seq<char>,
    pub commands: Seq<Seq<char>>,
}

impl View for CommandCategory {
    type V = CategoryView;

    open spec fn view(&self) -> CategoryView {
        CategoryView { heading: self.heading@, commands: self.commands.deep_view() }
    }
}

impl DeepView for CommandCategory {
    type V = CategoryView;

    open spec fn deep_view(&self) -> CategoryView {
        self@
    }
}

/// The headings of the help, and what stands under each.
pub open spec fn categories() -> Seq<CategoryView> {
    seq![
        CategoryView {
            heading: "Setup & Configuration"@,
            commands: seq!["configure"@, "init"@, "profile"@, "config"@],
        },
        CategoryView {
            heading: "Read & Search"@,
            commands: seq!["list"@, "show"@, "search"@, "facts"@],
        },
        CategoryView {
            heading: "Create & Change"@,
            commands: seq![
                "add"@,
                "append"@,
                "update"@,
                "edit"@,
                "supersede"@,
                "promote"@,
                "delete"@,
            ],
        },
        CategoryView {
            heading: "Review & Maintenance"@,
            commands: seq!["review"@, "conflict"@, "commit"@, "rebuild"@, "doctor"@],
        },
        CategoryView { heading: "Help"@, commands: seq!["help"@] },
    ]
}

pub fn command_categories() -> (listed: &'static [CommandCategory])
    ensures
        listed.deep_view() == categories(),
{
    let listed: &'static [CommandCategory] = &[
        CommandCategory {
            heading: "Setup & Configuration",
            commands: &["configure", "init", "profile", "config"],
        },
        CommandCategory {
            heading: "Read & Search",
            commands: &["list", "show", "search", "facts"],
        },
        CommandCategory {
            heading: "Create & Change",
            commands: &["add", "append", "update", "edit", "supersede", "promote", "delete"],
        },
        CommandCategory {
            heading: "Review & Maintenance",
            commands: &["review", "conflict", "commit", "rebuild", "doctor"],
        },
        CommandCategory { heading: "Help", commands: &["help"] },
    ];
    assert(listed.deep_view() =~~= categories());
    listed
}

/// A command, and what it is for.
#[derive(Debug)]
pub struct CommandSummary {
    pub name: String,
    pub about: String,
}

#[verifier::ext_equal]
pub struct SummaryView {
    pub name: Seq<char>,
    pub about: Seq<char>,
}

impl View for CommandSummary {
    type V = SummaryView;

    open spec fn view(&self) -> SummaryView {
        SummaryView { name: self.name@, about: self.about@ }
    }
}

impl DeepView for CommandSummary {
    type V = SummaryView;

    open spec fn deep_view(&self) -> SummaryView {
        self@
    }
}

/// The number of bytes of a text.
pub open spec fn byte_length(text: Seq<char>) -> nat {
    vstd::utf8::encode_utf8(text).len()
}

/// The length of the longest name.
pub open spec fn name_width(commands: Seq<SummaryView>) -> nat
    decreases commands.len(),
{
    if commands.len() == 0 {
        0
    } else {
        let before = name_width(commands.drop_last());
        if byte_length(commands.last().name) > before {
            byte_length(commands.last().name)
        } else {
            before
        }
    }
}

/// The first place of a command of some name; the length where there is none.
pub open spec fn command_index(commands: Seq<SummaryView>, name: Seq<char>) -> int
    decreases commands.len(),
{
    if commands.len() == 0 {
        0
    } else if commands[0].name == name {
        0
    } else {
        1 + command_index(commands.skip(1), name)
    }
}

/// The commands of some names, in the order of the names.
pub open spec fn found(commands: Seq<SummaryView>, names: Seq<Seq<char>>) -> Seq<SummaryView>
    decreases names.len(),
{
    if names.len() == 0 {
        seq![]
    } else {
        let before = found(commands, names.drop_last());
        let at = command_index(commands, names.last());
        if at < commands.len() {
            before.push(commands[at])
        } else {
            before
        }
    }
}

pub open spec fn is_categorized(groups: Seq<CategoryView>, name: Seq<char>) -> bool {
    exists|g: int| 0 <= g < groups.len() && (#[trigger] groups[g]).commands.contains(name)
}

pub open spec fn is_left_over() -> spec_fn(SummaryView) -> bool {
    |command: SummaryView| !is_categorized(categories(), command.name)
}

/// The commands that stand under no heading.
pub open spec fn uncategorized(commands: Seq<SummaryView>) -> Seq<SummaryView> {
    commands.filter(is_left_over())
}

pub open spec fn help_line(command: SummaryView, width: nat) -> Seq<char> {
    let missing = width - command.name.len();
    "  "@ + command.name + spaces(
        if missing > 0 {
            missing
        } else {
            0
        },
    ) + "  "@ + command.about + "\n"@
}

pub open spec fn help_lines(commands: Seq<SummaryView>, width: nat) -> Seq<char>
    decreases commands.len(),
{
    if commands.len() == 0 {
        seq![]
    } else {
        help_lines(commands.drop_last(), width) + help_line(commands.last(), width)
    }
}

/// A heading with its commands; nothing where it has none.
pub open spec fn section(heading: Seq<char>, commands: Seq<SummaryView>, width: nat) -> Seq<char> {
    if commands.len() == 0 {
        seq![]
    } else {
        heading + ":\n"@ + help_lines(commands, width) + "\n"@
    }
}

pub open spec fn sections(
    groups: Seq<CategoryView>,
    commands: Seq<SummaryView>,
    width: nat,
) -> Seq<char>
    decreases groups.len(),
{
    if groups.len() == 0 {
        seq![]
    } else {
        sections(groups.drop_last(), commands, width) + section(
            groups.last().heading,
            found(commands, groups.last().commands),
            width,
        )
    }
}

/// The help on all commands.
pub open spec fn grouped_help(commands: Seq<SummaryView>) -> Seq<char> {
    let width = name_width(commands);
    text::trimmed_end(
        sections(categories(), commands, width) + section(
            "Other"@,
            uncategorized(commands),
            width,
        ),
    )
}

fn widest(commands: &Vec<CommandSummary>) -> (width: usize)
    ensures
        width == name_width(commands.deep_view()),
{
    let ghost all = commands.deep_view();
    let mut width: usize = 0;
    let mut i: usize = 0;
    while i < commands.len()
        invariant
            i <= commands.len(),
            all == commands.deep_view(),
            width == name_width(all.take(i as int)),
        decreases commands.len() - i,
    {
        let length = commands[i].name.as_str().as_bytes().len();
        assert(all.take(i + 1).drop_last() =~= all.take(i as int));
        assert(all.take(i + 1).last() == commands[i as int]@);
        if length > width {
            width = length;
        }
        i = i + 1;
    }
    assert(all.take(i as int) =~= all);
    width
}

fn find_command(commands: &Vec<CommandSummary>, name: &str) -> (at: usize)
    ensures
        at == command_index(commands.deep_view(), name@),
        at <= commands.len(),
        at < commands.len() ==> commands.deep_view()[at as int].name == name@,
{
    let ghost all = commands.deep_view();
    let mut i: usize = 0;
    assert(all.skip(0) =~= all);
    while i < commands.len()
        invariant
            i <= commands.len(),
            all == commands.deep_view(),
            command_index(all, name@) == i + command_index(all.skip(i as int), name@),
        decreases commands.len() - i,
    {
        assert(all.skip(i as int)[0] == commands[i as int]@);
        if text::same(commands[i].name.as_str(), name) {
            return i;
        }
        assert(all.skip(i as int).skip(1) =~= all.skip(i + 1));
        i = i + 1;
    }
    i
}

fn is_in_category(name: &str) -> (categorized: bool)
    ensures
        categorized == is_categorized(categories(), name@),
{
    let listed = command_categories();
    let ghost groups = categories();
    let mut g: usize = 0;
    while g < listed.len()
        invariant
            g <= listed.len(),
            groups == categories(),
            listed.deep_view() == groups,
            forall|k: int| 0 <= k < g ==> !(#[trigger] groups[k]).commands.contains(name@),
        decreases listed.len() - g,
    {
        let commands = listed[g].commands;
        assert(groups[g as int] == listed[g as int]@);
        let ghost names = groups[g as int].commands;
        let mut i: usize = 0;
        while i < commands.len()
            invariant
                i <= commands.len(),
                g < listed.len(),
                groups == categories(),
                listed.deep_view() == groups,
                names == groups[g as int].commands,
                names == commands.deep_view(),
                forall|k: int| 0 <= k < i ==> names[k] != name@,
            decreases commands.len() - i,
        {
            assert(names[i as int] == commands[i as int]@);
            if text::same(commands[i], name) {
                assert(groups[g as int].commands.contains(name@));
                return true;
            }
            i = i + 1;
        }
        g = g + 1;
    }
    false
}

/// One line of the help.
fn write_line(command: &CommandSummary, width: usize) -> (line: String)
    ensures
        line@ == help_line(command@, width as nat),
{
    let length = text::chars_of(command.name.as_str()).len();
    let mut line = text::concat2("  ", command.name.as_str());
    let ghost start = line@;
    let mut column: usize = length;
    while column < width
        invariant
            length == command@.name.len(),
            length <= column,
            column <= width || column == length,
            line@ == start + spaces(column - length),
        decreases width - column,
    {
        let ghost before = line@;
        line.push(' ');
        assert(spaces(column + 1 - length) =~= spaces(column - length).push(' '));
        assert(line@ =~= start + spaces(column + 1 - length));
        column = column + 1;
    }
    assert(column - length == if width > length {
        width - length
    } else {
        0
    });
    line.append("  ");
    line.append(command.about.as_str());
    line.append("\n");
    line
}

/// The names under a heading, as far as there are such commands.
fn under(commands: &Vec<CommandSummary>, names: &'static [&'static str]) -> (places: Vec<usize>)
    ensures
        is_places(commands.deep_view(), places@, found(commands.deep_view(), names.deep_view())),
{
    let ghost all = commands.deep_view();
    let ghost wanted = names.deep_view();
    let mut places: Vec<usize> = Vec::new();
    let mut i: usize = 0;
    while i < names.len()
        invariant
            i <= names.len(),
            all == commands.deep_view(),
            wanted == names.deep_view(),
            is_places(all, places@, found(all, wanted.take(i as int))),
        decreases names.len() - i,
    {
        let at = find_command(commands, names[i]);
        assert(wanted.take(i + 1).drop_last() =~= wanted.take(i as int));
        assert(wanted.take(i + 1).last() == names[i as int]@);
        if at < commands.len() {
            places.push(at);
        }
        i = i + 1;
    }
    assert(wanted.take(i as int) =~= wanted);
    places
}

/// Whether the commands at some places are these.
pub open spec fn is_places(
    commands: Seq<SummaryView>,
    places: Seq<usize>,
    chosen: Seq<SummaryView>,
) -> bool {
    &&& places.len() == chosen.len()
    &&& forall|i: int|
        0 <= i < places.len() ==> (#[trigger] places[i]) < commands.len()
            && commands[places[i] as int] == chosen[i]
}

fn left_over(commands: &Vec<CommandSummary>) -> (places: Vec<usize>)
    ensures
        is_places(commands.deep_view(), places@, uncategorized(commands.deep_view())),
{
    let ghost all = commands.deep_view();
    let mut places: Vec<usize> = Vec::new();
    let mut i: usize = 0;
    proof {
        reveal(Seq::filter);
    }
    while i < commands.len()
        invariant
            i <= commands.len(),
            all == commands.deep_view(),
            is_places(all, places@, all.take(i as int).filter(is_left_over())),
        decreases commands.len() - i,
    {
        proof {
            reveal(Seq::filter);
        }
        assert(all.take(i + 1).drop_last() =~= all.take(i as int));
        assert(all.take(i + 1).last() == commands[i as int]@);
        if !is_in_category(commands[i].name.as_str()) {
            places.push(i);
        }
        i = i + 1;
    }
    assert(all.take(i as int) =~= all);
    places
}

fn write_section(
    heading: &str,
    commands: &Vec<CommandSummary>,
    places: &Vec<usize>,
    width: usize,
    Ghost(chosen): Ghost<Seq<SummaryView>>,
) -> (whole: String)
    requires
        is_places(commands.deep_view(), places@, chosen),
    ensures
        whole@ == section(heading@, chosen, width as nat),
{
    if places.len() == 0 {
        let whole = String::new();
        assert(whole@ =~= seq![]);
        return whole;
    }
    let mut listed = String::new();
    assert(listed@ =~= seq![]);
    let mut i: usize = 0;
    while i < places.len()
        invariant
            i <= places.len(),
            is_places(commands.deep_view(), places@, chosen),
            listed@ == help_lines(chosen.take(i as int), width as nat),
        decreases places.len() - i,
    {
        let at = places[i];
        assert(commands.deep_view()[at as int] == commands[at as int]@);
        assert(chosen.take(i + 1).drop_last() =~= chosen.take(i as int));
        assert(chosen.take(i + 1).last() == commands[at as int]@);
        let line = write_line(&commands[at], width);
        listed.append(line.as_str());
        i = i + 1;
    }
    assert(chosen.take(i as int) =~= chosen);
    text::concat4(heading, ":\n", listed.as_str(), "\n")
}

/// The help on all commands, each under its heading; those without one come
/// last.
pub fn render_grouped_commands(commands: &Vec<CommandSummary>) -> (help: String)
    ensures
        help@ == grouped_help(commands.deep_view()),
{
    let width = widest(commands);
    let listed = command_categories();
    let ghost groups = categories();
    let ghost all = commands.deep_view();
    let mut help = String::new();
    assert(help@ =~= seq![]);
    let mut g: usize = 0;
    while g < listed.len()
        invariant
            g <= listed.len(),
            groups == categories(),
            listed.deep_view() == groups,
            all == commands.deep_view(),
            help@ == sections(groups.take(g as int), all, width as nat),
        decreases listed.len() - g,
    {
        let category = &listed[g];
        let places = under(commands, category.commands);
        assert(groups.take(g + 1).drop_last() =~= groups.take(g as int));
        assert(groups.take(g + 1).last() == listed[g as int]@);
        let part = write_section(
            category.heading,
            commands,
            &places,
            width,
            Ghost(found(all, groups[g as int].commands)),
        );
        help.append(part.as_str());
        g = g + 1;
    }
    assert(groups.take(g as int) =~= groups);
    let places = left_over(commands);
    let part = write_section("Other", commands, &places, width, Ghost(uncategorized(all)));
    help.append(part.as_str());
    text::trim_end(help.as_str()).to_owned()
}

// Laws.

proof fn lemma_first_of_name(commands: Seq<SummaryView>, at: int)
    requires
        0 <= at < commands.len(),
        forall|i: int, j: int|
            0 <= i < j < commands.len() ==> (#[trigger] commands[i]).name != (
            #[trigger] commands[j]).name,
    ensures
        command_index(commands, commands[at].name) == at,
    decreases commands.len(),
{
    if at > 0 {
        assert(commands[0].name != commands[at].name);
        let rest = commands.skip(1);
        assert(rest[at - 1] == commands[at]);
        assert forall|i: int, j: int| 0 <= i < j < rest.len() implies (#[trigger] rest[i]).name != (
        #[trigger] rest[j]).name by {
            assert(rest[i] == commands[i + 1]);
            assert(rest[j] == commands[j + 1]);
        }
        lemma_first_of_name(rest, at - 1);
    }
}

proof fn lemma_found(commands: Seq<SummaryView>, names: Seq<Seq<char>>, at: int)
    requires
        0 <= at < commands.len(),
        names.contains(commands[at].name),
        command_index(commands, commands[at].name) == at,
    ensures
        found(commands, names).contains(commands[at]),
    decreases names.len(),
{
    let before = found(commands, names.drop_last());
    if names.last() == commands[at].name {
        assert(found(commands, names) == before.push(commands[at]));
        assert(before.push(commands[at])[before.len() as int] == commands[at]);
    } else {
        let k = choose|k: int| 0 <= k < names.len() && names[k] == commands[at].name;
        assert(names.drop_last()[k] == commands[at].name);
        lemma_found(commands, names.drop_last(), at);
        let place = choose|place: int| 0 <= place < before.len() && before[place] == commands[at];
        assert(found(commands, names)[place] == commands[at]);
    }
}

/// Where no two commands have the same name, every command stands in the help:
/// under a heading that lists it, or among the others.
pub proof fn every_command_is_listed(commands: Seq<SummaryView>, at: int)
    requires
        0 <= at < commands.len(),
        forall|i: int, j: int|
            0 <= i < j < commands.len() ==> (#[trigger] commands[i]).name != (
            #[trigger] commands[j]).name,
    ensures
        uncategorized(commands).contains(commands[at]) || exists|g: int|
            0 <= g < categories().len() && found(
                commands,
                (#[trigger] categories()[g]).commands,
            ).contains(commands[at]),
{
    if is_categorized(categories(), commands[at].name) {
        let g = choose|g: int|
            0 <= g < categories().len() && (#[trigger] categories()[g]).commands.contains(
                commands[at].name,
            );
        lemma_first_of_name(commands, at);
        lemma_found(commands, categories()[g].commands, at);
    } else {
        assert(is_left_over()(commands[at]));
        commands.lemma_filter_contains_rev(is_left_over(), commands[at]);
    }
}

} // verus!
