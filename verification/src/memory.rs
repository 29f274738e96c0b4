//! Memories: what they hold, how they are written and read, and how they change.

use vstd::prelude::*;
use vstd::string::*;

use crate::error::Error;
use crate::frontmatter::{self, Entry, Field, FieldValue, Frontmatter};
use crate::numeral::{decimal, decimal_u64};
use crate::order::{self, Ranked};
use crate::path;
use crate::text;
use crate::workspace::{self, PathState, Workspace};

verus! {

/// How long a memory is meant to live.
#[derive(Clone, Copy, Debug, PartialEq, Eq, Structural)]
pub enum MemoryType {
    Short,
    Long,
}

impl MemoryType {
    pub open spec fn name(self) -> Seq<char> {
        match self {
            MemoryType::Short => "short"@,
            MemoryType::Long => "long"@,
        }
    }

    pub fn label(self) -> (label: &'static str)
        ensures
            label@ == self.name(),
    {
        match self {
            MemoryType::Short => "short",
            MemoryType::Long => "long",
        }
    }

    pub open spec fn of_name(value: Seq<char>) -> Result<MemoryType, Seq<char>> {
        if value == "short"@ {
            Ok(MemoryType::Short)
        } else if value == "long"@ {
            Ok(MemoryType::Long)
        } else {
            Err("unknown memory type "@ + text::quoted_form(value))
        }
    }

    pub fn from_label(value: &str) -> (parsed: Result<MemoryType, Error>)
        ensures
            match parsed {
                Ok(parsed) => MemoryType::of_name(value@) == Ok::<_, Seq<char>>(parsed),
                Err(error) => MemoryType::of_name(value@) == Err::<MemoryType, _>(error@),
            },
    {
        if text::same(value, "short") {
            Ok(MemoryType::Short)
        } else if text::same(value, "long") {
            Ok(MemoryType::Long)
        } else {
            Err(Error::new(text::concat2("unknown memory type ", text::quoted(value).as_str())))
        }
    }
}

/// A label is read back.
pub proof fn memory_type_reads_back(value: MemoryType)
    ensures
        MemoryType::of_name(value.name()) == Ok::<_, Seq<char>>(value),
{
    reveal_strlit("short");
    reveal_strlit("long");
    assert("short"@.len() != "long"@.len());
}

/// Whom a memory is about.
#[derive(Clone, Copy, Debug, PartialEq, Eq, Structural)]
pub enum MemoryScope {
    User,
    Project,
    Agent,
    Session,
}

impl MemoryScope {
    pub open spec fn name(self) -> Seq<char> {
        match self {
            MemoryScope::User => "user"@,
            MemoryScope::Project => "project"@,
            MemoryScope::Agent => "agent"@,
            MemoryScope::Session => "session"@,
        }
    }

    pub fn label(self) -> (label: &'static str)
        ensures
            label@ == self.name(),
    {
        match self {
            MemoryScope::User => "user",
            MemoryScope::Project => "project",
            MemoryScope::Agent => "agent",
            MemoryScope::Session => "session",
        }
    }

    pub open spec fn of_name(value: Seq<char>) -> Result<MemoryScope, Seq<char>> {
        if value == "user"@ {
            Ok(MemoryScope::User)
        } else if value == "project"@ {
            Ok(MemoryScope::Project)
        } else if value == "agent"@ {
            Ok(MemoryScope::Agent)
        } else if value == "session"@ {
            Ok(MemoryScope::Session)
        } else {
            Err("unknown memory scope "@ + text::quoted_form(value))
        }
    }

    pub fn from_label(value: &str) -> (parsed: Result<MemoryScope, Error>)
        ensures
            match parsed {
                Ok(parsed) => MemoryScope::of_name(value@) == Ok::<_, Seq<char>>(parsed),
                Err(error) => MemoryScope::of_name(value@) == Err::<MemoryScope, _>(error@),
            },
    {
        if text::same(value, "user") {
            Ok(MemoryScope::User)
        } else if text::same(value, "project") {
            Ok(MemoryScope::Project)
        } else if text::same(value, "agent") {
            Ok(MemoryScope::Agent)
        } else if text::same(value, "session") {
            Ok(MemoryScope::Session)
        } else {
            Err(Error::new(text::concat2("unknown memory scope ", text::quoted(value).as_str())))
        }
    }
}

/// A label is read back.
pub proof fn memory_scope_reads_back(value: MemoryScope)
    ensures
        MemoryScope::of_name(value.name()) == Ok::<_, Seq<char>>(value),
{
    reveal_strlit("user");
    reveal_strlit("project");
    reveal_strlit("agent");
    reveal_strlit("session");
    assert("user"@.len() != "project"@.len());
    assert("user"@.len() != "agent"@.len());
    assert("user"@.len() != "session"@.len());
    assert("project"@.len() != "agent"@.len());
    assert("project"@[0] != "session"@[0]);
    assert("agent"@.len() != "session"@.len());
}

/// What a memory is.
#[derive(Clone, Copy, Debug, PartialEq, Eq, Structural)]
pub enum MemoryKind {
    Fact,
    Preference,
    Decision,
    Task,
    Procedure,
    Note,
    Question,
}

impl MemoryKind {
    pub open spec fn name(self) -> Seq<char> {
        match self {
            MemoryKind::Fact => "fact"@,
            MemoryKind::Preference => "preference"@,
            MemoryKind::Decision => "decision"@,
            MemoryKind::Task => "task"@,
            MemoryKind::Procedure => "procedure"@,
            MemoryKind::Note => "note"@,
            MemoryKind::Question => "question"@,
        }
    }

    pub fn label(self) -> (label: &'static str)
        ensures
            label@ == self.name(),
    {
        match self {
            MemoryKind::Fact => "fact",
            MemoryKind::Preference => "preference",
            MemoryKind::Decision => "decision",
            MemoryKind::Task => "task",
            MemoryKind::Procedure => "procedure",
            MemoryKind::Note => "note",
            MemoryKind::Question => "question",
        }
    }

    pub open spec fn of_name(value: Seq<char>) -> Result<MemoryKind, Seq<char>> {
        if value == "fact"@ {
            Ok(MemoryKind::Fact)
        } else if value == "preference"@ {
            Ok(MemoryKind::Preference)
        } else if value == "decision"@ {
            Ok(MemoryKind::Decision)
        } else if value == "task"@ {
            Ok(MemoryKind::Task)
        } else if value == "procedure"@ {
            Ok(MemoryKind::Procedure)
        } else if value == "note"@ {
            Ok(MemoryKind::Note)
        } else if value == "question"@ {
            Ok(MemoryKind::Question)
        } else {
            Err("unknown memory kind "@ + text::quoted_form(value))
        }
    }

    pub fn from_label(value: &str) -> (parsed: Result<MemoryKind, Error>)
        ensures
            match parsed {
                Ok(parsed) => MemoryKind::of_name(value@) == Ok::<_, Seq<char>>(parsed),
                Err(error) => MemoryKind::of_name(value@) == Err::<MemoryKind, _>(error@),
            },
    {
        if text::same(value, "fact") {
            Ok(MemoryKind::Fact)
        } else if text::same(value, "preference") {
            Ok(MemoryKind::Preference)
        } else if text::same(value, "decision") {
            Ok(MemoryKind::Decision)
        } else if text::same(value, "task") {
            Ok(MemoryKind::Task)
        } else if text::same(value, "procedure") {
            Ok(MemoryKind::Procedure)
        } else if text::same(value, "note") {
            Ok(MemoryKind::Note)
        } else if text::same(value, "question") {
            Ok(MemoryKind::Question)
        } else {
            Err(Error::new(text::concat2("unknown memory kind ", text::quoted(value).as_str())))
        }
    }
}

/// A label is read back.
pub proof fn memory_kind_reads_back(value: MemoryKind)
    ensures
        MemoryKind::of_name(value.name()) == Ok::<_, Seq<char>>(value),
{
    reveal_strlit("fact");
    reveal_strlit("preference");
    reveal_strlit("decision");
    reveal_strlit("task");
    reveal_strlit("procedure");
    reveal_strlit("note");
    reveal_strlit("question");
    assert("fact"@.len() != "preference"@.len());
    assert("fact"@.len() != "decision"@.len());
    assert("fact"@[0] != "task"@[0]);
    assert("fact"@.len() != "procedure"@.len());
    assert("fact"@[0] != "note"@[0]);
    assert("fact"@.len() != "question"@.len());
    assert("preference"@.len() != "decision"@.len());
    assert("preference"@.len() != "task"@.len());
    assert("preference"@.len() != "procedure"@.len());
    assert("preference"@.len() != "note"@.len());
    assert("preference"@.len() != "question"@.len());
    assert("decision"@.len() != "task"@.len());
    assert("decision"@.len() != "procedure"@.len());
    assert("decision"@.len() != "note"@.len());
    assert("decision"@[0] != "question"@[0]);
    assert("task"@.len() != "procedure"@.len());
    assert("task"@[0] != "note"@[0]);
    assert("task"@.len() != "question"@.len());
    assert("procedure"@.len() != "note"@.len());
    assert("procedure"@.len() != "question"@.len());
    assert("note"@.len() != "question"@.len());
}

/// Whether a memory still holds.
#[derive(Clone, Copy, Debug, PartialEq, Eq, Structural)]
pub enum MemoryStatus {
    Active,
    Archived,
    Superseded,
}

impl MemoryStatus {
    pub open spec fn name(self) -> Seq<char> {
        match self {
            MemoryStatus::Active => "active"@,
            MemoryStatus::Archived => "archived"@,
            MemoryStatus::Superseded => "superseded"@,
        }
    }

    pub fn label(self) -> (label: &'static str)
        ensures
            label@ == self.name(),
    {
        match self {
            MemoryStatus::Active => "active",
            MemoryStatus::Archived => "archived",
            MemoryStatus::Superseded => "superseded",
        }
    }

    pub open spec fn of_name(value: Seq<char>) -> Result<MemoryStatus, Seq<char>> {
        if value == "active"@ {
            Ok(MemoryStatus::Active)
        } else if value == "archived"@ {
            Ok(MemoryStatus::Archived)
        } else if value == "superseded"@ {
            Ok(MemoryStatus::Superseded)
        } else {
            Err("unknown memory status "@ + text::quoted_form(value))
        }
    }

    pub fn from_label(value: &str) -> (parsed: Result<MemoryStatus, Error>)
        ensures
            match parsed {
                Ok(parsed) => MemoryStatus::of_name(value@) == Ok::<_, Seq<char>>(parsed),
                Err(error) => MemoryStatus::of_name(value@) == Err::<MemoryStatus, _>(error@),
            },
    {
        if text::same(value, "active") {
            Ok(MemoryStatus::Active)
        } else if text::same(value, "archived") {
            Ok(MemoryStatus::Archived)
        } else if text::same(value, "superseded") {
            Ok(MemoryStatus::Superseded)
        } else {
            Err(Error::new(text::concat2("unknown memory status ", text::quoted(value).as_str())))
        }
    }
}

/// A label is read back.
pub proof fn memory_status_reads_back(value: MemoryStatus)
    ensures
        MemoryStatus::of_name(value.name()) == Ok::<_, Seq<char>>(value),
{
    reveal_strlit("active");
    reveal_strlit("archived");
    reveal_strlit("superseded");
    assert("active"@.len() != "archived"@.len());
    assert("active"@.len() != "superseded"@.len());
    assert("archived"@.len() != "superseded"@.len());
}

/// The fields of a memory.
#[derive(Debug)]
pub struct MemoryMetadata {
    pub id: String,
    pub memory_type: MemoryType,
    pub scope: MemoryScope,
    pub kind: MemoryKind,
    pub status: MemoryStatus,
    pub created_at: String,
    pub updated_at: String,
    pub tags: Vec<String>,
    pub title: Option<String>,
    pub source: Option<String>,
    pub source_id: Option<String>,
    pub agent: Option<String>,
    pub session: Option<String>,
    pub confidence: Option<String>,
    pub promoted_from: Option<String>,
    pub supersedes: Vec<String>,
}

#[verifier::ext_equal]
pub struct MetadataView {
    pub id: Seq<char>,
    pub memory_type: MemoryType,
    pub scope: MemoryScope,
    pub kind: MemoryKind,
    pub status: MemoryStatus,
    pub created_at: Seq<char>,
    pub updated_at: Seq<char>,
    pub tags: Seq<Seq<char>>,
    pub title: Option<Seq<char>>,
    pub source: Option<Seq<char>>,
    pub source_id: Option<Seq<char>>,
    pub agent: Option<Seq<char>>,
    pub session: Option<Seq<char>>,
    pub confidence: Option<Seq<char>>,
    pub promoted_from: Option<Seq<char>>,
    pub supersedes: Seq<Seq<char>>,
}

impl View for MemoryMetadata {
    type V = MetadataView;

    open spec fn view(&self) -> MetadataView {
        MetadataView {
            id: self.id@,
            memory_type: self.memory_type,
            scope: self.scope,
            kind: self.kind,
            status: self.status,
            created_at: self.created_at@,
            updated_at: self.updated_at@,
            tags: self.tags.deep_view(),
            title: self.title.deep_view(),
            source: self.source.deep_view(),
            source_id: self.source_id.deep_view(),
            agent: self.agent.deep_view(),
            session: self.session.deep_view(),
            confidence: self.confidence.deep_view(),
            promoted_from: self.promoted_from.deep_view(),
            supersedes: self.supersedes.deep_view(),
        }
    }
}

impl Clone for MemoryMetadata {
    fn clone(&self) -> (copy: Self)
        ensures
            copy@ == self@,
    {
        MemoryMetadata {
            id: self.id.clone(),
            memory_type: self.memory_type,
            scope: self.scope,
            kind: self.kind,
            status: self.status,
            created_at: self.created_at.clone(),
            updated_at: self.updated_at.clone(),
            tags: text::clone_texts(&self.tags),
            title: text::clone_optional(&self.title),
            source: text::clone_optional(&self.source),
            source_id: text::clone_optional(&self.source_id),
            agent: text::clone_optional(&self.agent),
            session: text::clone_optional(&self.session),
            confidence: text::clone_optional(&self.confidence),
            promoted_from: text::clone_optional(&self.promoted_from),
            supersedes: text::clone_texts(&self.supersedes),
        }
    }
}

/// A memory, and the file it was read from, if any.
#[derive(Debug)]
pub struct Memory {
    pub metadata: MemoryMetadata,
    pub body: String,
    pub path: Option<String>,
}

#[verifier::ext_equal]
pub struct MemoryView {
    pub metadata: MetadataView,
    pub body: Seq<char>,
    pub path: Option<Seq<char>>,
}

impl View for Memory {
    type V = MemoryView;

    open spec fn view(&self) -> MemoryView {
        MemoryView {
            metadata: self.metadata@,
            body: self.body@,
            path: self.path.deep_view(),
        }
    }
}

impl DeepView for Memory {
    type V = MemoryView;

    open spec fn deep_view(&self) -> MemoryView {
        self@
    }
}

impl Clone for Memory {
    fn clone(&self) -> (copy: Self)
        ensures
            copy@ == self@,
    {
        Memory {
            metadata: self.metadata.clone(),
            body: self.body.clone(),
            path: text::clone_optional(&self.path),
        }
    }
}

impl Ranked for Memory {
    open spec fn ranks_before(left: MemoryView, right: MemoryView) -> bool {
        order::text_less(left.metadata.id, right.metadata.id)
    }

    fn is_before(&self, other: &Self) -> (before: bool) {
        order::is_less(self.metadata.id.as_str(), other.metadata.id.as_str())
    }
}

// Titles and bodies.

/// The heading of the first line that is one.
pub open spec fn first_heading(lines: Seq<Seq<char>>) -> Option<Seq<char>>
    decreases lines.len(),
{
    if lines.len() == 0 {
        None
    } else if "# "@.is_prefix_of(lines[0]) {
        Some(text::trimmed(lines[0].skip(2)))
    } else {
        first_heading(lines.drop_first())
    }
}

/// At most that many of the first words.
pub open spec fn leading_words(body: Seq<char>, count: nat) -> Seq<char> {
    let words = text::words(body);
    let title = text::joined(
        words.take(
            if words.len() < count {
                words.len() as int
            } else {
                count as int
            },
        ),
        seq![' '],
    );
    if title.len() == 0 {
        "Untitled memory"@
    } else {
        title
    }
}

/// The title of a memory: the one it was given, its first heading, or its first
/// words.
pub open spec fn title_of(memory: MemoryView) -> Seq<char> {
    match memory.metadata.title {
        Some(title) => title,
        None => match first_heading(text::line_seq(memory.body)) {
            Some(title) => title,
            None => leading_words(memory.body, 8),
        },
    }
}

/// A body with its line ends normalised and without the white space around it.
pub open spec fn canonical(body: Seq<char>) -> Seq<char> {
    text::trimmed(text::replaced(body, "\r\n"@, "\n"@))
}

pub fn canonical_body(body: &str) -> (result: String)
    ensures
        result@ == canonical(body@),
{
    proof {
        reveal_strlit("\r\n");
        assert("\r\n"@.len() == 2);
    }
    let unified = text::replace(body, "\r\n", "\n");
    text::trim(unified.as_str()).to_owned()
}

/// Whether two bodies say the same.
pub fn bodies_match(left: &str, right: &str) -> (same: bool)
    ensures
        same == (canonical(left@) == canonical(right@)),
{
    canonical_body(left) == canonical_body(right)
}

fn first_words(body: &str, count: usize) -> (title: String)
    ensures
        title@ == leading_words(body@, count as nat),
{
    let found = text::split_whitespace(body);
    let mut leading: Vec<&str> = Vec::new();
    let ghost all = found.deep_view();
    let mut i: usize = 0;
    while i < found.len() && i < count
        invariant
            i <= found.len(),
            i <= count,
            all == found.deep_view(),
            leading.deep_view() == all.take(i as int),
        decreases found.len() - i,
    {
        let ghost before = leading.deep_view();
        leading.push(found[i]);
        assert(leading.deep_view() =~= before.push(found[i as int]@));
        assert(leading.deep_view() =~= all.take(i + 1));
        i = i + 1;
    }
    proof {
        reveal_strlit(" ");
        assert(" "@ =~= seq![' ']);
    }
    let title = text::join_slices(&leading, " ");
    if title.as_str().is_empty() {
        "Untitled memory".to_owned()
    } else {
        title
    }
}

fn heading(body: &str) -> (title: Option<String>)
    ensures
        title.deep_view() == first_heading(text::line_seq(body@)),
{
    let lines = text::lines(body);
    let ghost all = lines.deep_view();
    let mut i: usize = 0;
    assert(all.skip(0) =~= all);
    proof {
        reveal_strlit("# ");
        assert("# "@.len() == 2);
    }
    while i < lines.len()
        invariant
            i <= lines.len(),
            all == lines.deep_view(),
            "# "@.len() == 2,
            all == text::line_seq(body@),
            first_heading(all) == first_heading(all.skip(i as int)),
        decreases lines.len() - i,
    {
        assert(all.skip(i as int)[0] == lines[i as int]@);
        assert(all.skip(i as int).drop_first() =~= all.skip(i + 1));
        if let Some(rest) = text::strip_prefix(lines[i], "# ") {
            return Some(text::trim(rest).to_owned());
        }
        i = i + 1;
    }
    None
}

// Writing.

pub open spec fn optional_field(value: Option<Seq<char>>) -> Field {
    match value {
        Some(value) => Field::Scalar(value),
        None => Field::Null,
    }
}

/// The front matter of a memory.
pub open spec fn memory_entries(metadata: MetadataView) -> Seq<Entry> {
    seq![
        ("id"@, Field::Scalar(metadata.id)),
        ("type"@, Field::Scalar(metadata.memory_type.name())),
        ("scope"@, Field::Scalar(metadata.scope.name())),
        ("kind"@, Field::Scalar(metadata.kind.name())),
        ("status"@, Field::Scalar(metadata.status.name())),
        ("created_at"@, Field::Scalar(metadata.created_at)),
        ("updated_at"@, Field::Scalar(metadata.updated_at)),
        ("tags"@, Field::List(metadata.tags)),
        ("title"@, optional_field(metadata.title)),
        ("source"@, optional_field(metadata.source)),
        ("source_id"@, optional_field(metadata.source_id)),
        ("agent"@, optional_field(metadata.agent)),
        ("session"@, optional_field(metadata.session)),
        ("confidence"@, optional_field(metadata.confidence)),
        ("promoted_from"@, optional_field(metadata.promoted_from)),
        ("supersedes"@, Field::List(metadata.supersedes)),
    ]
}

/// The file of a memory.
pub open spec fn markdown_of(memory: MemoryView) -> Seq<char> {
    frontmatter::block_text(memory_entries(memory.metadata)) + "\n"@ + text::trimmed(memory.body)
        + "\n"@
}

fn scalar(value: &str) -> (field: FieldValue)
    ensures
        field@ == Field::Scalar(value@),
{
    FieldValue::Scalar(value.to_owned())
}

fn optional_scalar(value: &Option<String>) -> (field: FieldValue)
    ensures
        field@ == optional_field(value.deep_view()),
{
    match value {
        Some(value) => FieldValue::Scalar(value.clone()),
        None => FieldValue::Null,
    }
}

fn list(values: &Vec<String>) -> (field: FieldValue)
    ensures
        field@ == Field::List(values.deep_view()),
{
    FieldValue::List(text::clone_texts(values))
}

impl Memory {
    pub fn title(&self) -> (title: String)
        ensures
            title@ == title_of(self@),
    {
        match &self.metadata.title {
            Some(title) => title.clone(),
            None => match heading(self.body.as_str()) {
                Some(title) => title,
                None => first_words(self.body.as_str(), 8),
            },
        }
    }

    /// Writes the memory as Markdown with front matter.
    pub fn to_markdown(&self) -> (output: String)
        ensures
            output@ == markdown_of(self@),
    {
        let metadata = &self.metadata;
        let mut fields: Vec<(&str, FieldValue)> = Vec::new();
        fields.push(("id", scalar(metadata.id.as_str())));
        fields.push(("type", scalar(metadata.memory_type.label())));
        fields.push(("scope", scalar(metadata.scope.label())));
        fields.push(("kind", scalar(metadata.kind.label())));
        fields.push(("status", scalar(metadata.status.label())));
        fields.push(("created_at", scalar(metadata.created_at.as_str())));
        fields.push(("updated_at", scalar(metadata.updated_at.as_str())));
        fields.push(("tags", list(&metadata.tags)));
        fields.push(("title", optional_scalar(&metadata.title)));
        fields.push(("source", optional_scalar(&metadata.source)));
        fields.push(("source_id", optional_scalar(&metadata.source_id)));
        fields.push(("agent", optional_scalar(&metadata.agent)));
        fields.push(("session", optional_scalar(&metadata.session)));
        fields.push(("confidence", optional_scalar(&metadata.confidence)));
        fields.push(("promoted_from", optional_scalar(&metadata.promoted_from)));
        fields.push(("supersedes", list(&metadata.supersedes)));
        assert(frontmatter::entry_seq(fields@) =~= memory_entries(self@.metadata));
        let mut output = frontmatter::render_frontmatter(fields.as_slice());
        output.append("\n");
        output.append(text::trim(self.body.as_str()));
        output.append("\n");
        output
    }

    /// What is missing in the memory, if anything is.
    pub open spec fn problem(memory: MemoryView) -> Option<Seq<char>> {
        if text::trimmed(memory.metadata.id).len() == 0 {
            Some("memory id is required"@)
        } else if text::trimmed(memory.body).len() == 0 {
            Some("memory body is required"@)
        } else {
            None
        }
    }

    pub fn validate(&self) -> (valid: Result<(), Error>)
        ensures
            match valid {
                Ok(_) => Memory::problem(self@) is None,
                Err(error) => Memory::problem(self@) == Some(error@),
            },
    {
        if text::trim(self.metadata.id.as_str()).is_empty() {
            return Err(Error::of("memory id is required"));
        }
        if text::trim(self.body.as_str()).is_empty() {
            return Err(Error::of("memory body is required"));
        }
        Ok(())
    }
}

// Reading.

/// The scalar under `key`, which has to be there.
pub open spec fn required_field(fields: Map<Seq<char>, Field>, key: Seq<char>) -> Result<
    Seq<char>,
    Seq<char>,
> {
    match frontmatter::scalar_field(fields, key) {
        Ok(Some(value)) => Ok(value),
        Ok(None) => Err("missing required frontmatter field "@ + text::quoted_form(key)),
        Err(message) => Err(message),
    }
}

/// A required scalar, put through `read`.
pub open spec fn read_field<T>(
    fields: Map<Seq<char>, Field>,
    key: Seq<char>,
    read: spec_fn(Seq<char>) -> Result<T, Seq<char>>,
) -> Result<T, Seq<char>> {
    match required_field(fields, key) {
        Ok(value) => read(value),
        Err(message) => Err(message),
    }
}

/// The memory that a parsed document gives. Of several problems the first, in
/// the order of the fields below, is reported.
pub open spec fn memory_from(
    fields: Map<Seq<char>, Field>,
    body: Seq<char>,
    path: Seq<char>,
) -> Result<MemoryView, Seq<char>> {
    let memory_type = read_field(fields, "type"@, |v: Seq<char>| MemoryType::of_name(v));
    let scope = read_field(fields, "scope"@, |v: Seq<char>| MemoryScope::of_name(v));
    let kind = read_field(fields, "kind"@, |v: Seq<char>| MemoryKind::of_name(v));
    let status = read_field(fields, "status"@, |v: Seq<char>| MemoryStatus::of_name(v));
    let id = required_field(fields, "id"@);
    let created_at = required_field(fields, "created_at"@);
    let updated_at = required_field(fields, "updated_at"@);
    let title = frontmatter::scalar_field(fields, "title"@);
    let source = frontmatter::scalar_field(fields, "source"@);
    let source_id = frontmatter::scalar_field(fields, "source_id"@);
    let agent = frontmatter::scalar_field(fields, "agent"@);
    let session = frontmatter::scalar_field(fields, "session"@);
    let confidence = frontmatter::scalar_field(fields, "confidence"@);
    let promoted_from = frontmatter::scalar_field(fields, "promoted_from"@);
    if memory_type is Err {
        Err(memory_type->Err_0)
    } else if scope is Err {
        Err(scope->Err_0)
    } else if kind is Err {
        Err(kind->Err_0)
    } else if status is Err {
        Err(status->Err_0)
    } else if id is Err {
        Err(id->Err_0)
    } else if created_at is Err {
        Err(created_at->Err_0)
    } else if updated_at is Err {
        Err(updated_at->Err_0)
    } else if title is Err {
        Err(title->Err_0)
    } else if source is Err {
        Err(source->Err_0)
    } else if source_id is Err {
        Err(source_id->Err_0)
    } else if agent is Err {
        Err(agent->Err_0)
    } else if session is Err {
        Err(session->Err_0)
    } else if confidence is Err {
        Err(confidence->Err_0)
    } else if promoted_from is Err {
        Err(promoted_from->Err_0)
    } else {
        let memory = MemoryView {
            metadata: MetadataView {
                id: id->Ok_0,
                memory_type: memory_type->Ok_0,
                scope: scope->Ok_0,
                kind: kind->Ok_0,
                status: status->Ok_0,
                created_at: created_at->Ok_0,
                updated_at: updated_at->Ok_0,
                tags: frontmatter::list_field(fields, "tags"@),
                title: title->Ok_0,
                source: source->Ok_0,
                source_id: source_id->Ok_0,
                agent: agent->Ok_0,
                session: session->Ok_0,
                confidence: confidence->Ok_0,
                promoted_from: promoted_from->Ok_0,
                supersedes: frontmatter::list_field(fields, "supersedes"@),
            },
            body,
            path: Some(path),
        };
        match Memory::problem(memory) {
            Some(message) => Err(message),
            None => Ok(memory),
        }
    }
}

/// The memory that a file holds.
pub open spec fn memory_of(raw: Seq<char>, path: Seq<char>) -> Result<MemoryView, Seq<char>> {
    match frontmatter::document_of(raw) {
        Ok((fields, body)) => memory_from(fields, body, path),
        Err(_) => Err("failed to parse memory "@ + path),
    }
}

fn required_scalar(map: &Frontmatter, key: &str) -> (value: Result<String, Error>)
    ensures
        crate::error::agrees(value, required_field(map@, key@)),
{
    match frontmatter::get_optional_scalar(map, key)? {
        Some(value) => Ok(value),
        None => Err(
            Error::new(
                text::concat2(
                    "missing required frontmatter field ",
                    text::quoted(key).as_str(),
                ),
            ),
        ),
    }
}

/// Reads the memory that a file holds.
pub fn parse_memory(raw: &str, path: &str) -> (memory: Result<Memory, Error>)
    ensures
        crate::error::agrees(memory, memory_of(raw@, path@)),
{
    let (fields, body) = match frontmatter::split_document(raw) {
        Ok(parsed) => parsed,
        Err(_) => {
            return Err(Error::new(text::concat2("failed to parse memory ", path)));
        },
    };
    let memory_type = MemoryType::from_label(required_scalar(&fields, "type")?.as_str())?;
    let scope = MemoryScope::from_label(required_scalar(&fields, "scope")?.as_str())?;
    let kind = MemoryKind::from_label(required_scalar(&fields, "kind")?.as_str())?;
    let status = MemoryStatus::from_label(required_scalar(&fields, "status")?.as_str())?;
    let id = required_scalar(&fields, "id")?;
    let created_at = required_scalar(&fields, "created_at")?;
    let updated_at = required_scalar(&fields, "updated_at")?;
    let tags = frontmatter::get_list(&fields, "tags");
    let title = frontmatter::get_optional_scalar(&fields, "title")?;
    let source = frontmatter::get_optional_scalar(&fields, "source")?;
    let source_id = frontmatter::get_optional_scalar(&fields, "source_id")?;
    let agent = frontmatter::get_optional_scalar(&fields, "agent")?;
    let session = frontmatter::get_optional_scalar(&fields, "session")?;
    let confidence = frontmatter::get_optional_scalar(&fields, "confidence")?;
    let promoted_from = frontmatter::get_optional_scalar(&fields, "promoted_from")?;
    let supersedes = frontmatter::get_list(&fields, "supersedes");
    let memory = Memory {
        metadata: MemoryMetadata {
            id,
            memory_type,
            scope,
            kind,
            status,
            created_at,
            updated_at,
            tags,
            title,
            source,
            source_id,
            agent,
            session,
            confidence,
            promoted_from,
            supersedes,
        },
        body,
        path: Some(path.to_owned()),
    };
    memory.validate()?;
    Ok(memory)
}

// Tags.

/// The trimmed pieces that are not empty.
pub open spec fn tag_pieces(pieces: Seq<Seq<char>>) -> Seq<Seq<char>>
    decreases pieces.len(),
{
    if pieces.len() == 0 {
        seq![]
    } else {
        let before = tag_pieces(pieces.drop_last());
        let tag = text::trimmed(pieces.last());
        if tag.len() == 0 {
            before
        } else {
            before.push(tag)
        }
    }
}

/// The tags that are written in the given texts, between commas.
pub open spec fn written_tags(tags: Seq<Seq<char>>) -> Seq<Seq<char>>
    decreases tags.len(),
{
    if tags.len() == 0 {
        seq![]
    } else {
        written_tags(tags.drop_last()) + tag_pieces(text::pieces(tags.last(), ','))
    }
}

/// `items` without those that equal the one before them.
pub open spec fn deduped(items: Seq<Seq<char>>) -> Seq<Seq<char>>
    decreases items.len(),
{
    if items.len() <= 1 {
        items
    } else {
        let before = deduped(items.drop_last());
        if items.last() == items[items.len() - 2] {
            before
        } else {
            before.push(items.last())
        }
    }
}

/// The tags in order, each of them once.
pub open spec fn normal_tags(tags: Seq<Seq<char>>) -> Seq<Seq<char>> {
    deduped(order::ranked::<String>(written_tags(tags)))
}

fn dedup(items: Vec<String>) -> (kept: Vec<String>)
    ensures
        kept.deep_view() == deduped(items.deep_view()),
{
    let mut kept: Vec<String> = Vec::new();
    let ghost all = items.deep_view();
    let mut i: usize = 0;
    assert(all.take(0) =~= seq![]);
    assert(kept.deep_view() =~= seq![]);
    while i < items.len()
        invariant
            i <= items.len(),
            all == items.deep_view(),
            kept.deep_view() == deduped(all.take(i as int)),
        decreases items.len() - i,
    {
        assert(all.take(i + 1).drop_last() =~= all.take(i as int));
        assert(all.take(i + 1).last() == items[i as int]@);
        assert(i > 0 ==> all.take(i + 1)[i - 1] == items[i - 1]@);
        if i == 0 || items[i] != items[i - 1] {
            let ghost before = kept.deep_view();
            kept.push(items[i].clone());
            assert(kept.deep_view() =~= before.push(items[i as int]@));
            assert(i == 0 ==> all.take(1) =~= seq![items[0]@]);
        }
        i = i + 1;
    }
    assert(all.take(i as int) =~= all);
    kept
}

pub fn normalize_tags(tags: &Vec<String>) -> (normal: Vec<String>)
    ensures
        normal.deep_view() == normal_tags(tags.deep_view()),
{
    let mut found: Vec<String> = Vec::new();
    let ghost all = tags.deep_view();
    let mut i: usize = 0;
    assert(all.take(0) =~= seq![]);
    assert(found.deep_view() =~= seq![]);
    while i < tags.len()
        invariant
            i <= tags.len(),
            all == tags.deep_view(),
            found.deep_view() == written_tags(all.take(i as int)),
        decreases tags.len() - i,
    {
        let parts = text::split(tags[i].as_str(), ',');
        let ghost pieces = parts.deep_view();
        let ghost base = found.deep_view();
        let mut k: usize = 0;
        assert(pieces.take(0) =~= seq![]);
        assert(base + tag_pieces(pieces.take(0)) =~= base);
        while k < parts.len()
            invariant
                k <= parts.len(),
                pieces == parts.deep_view(),
                found.deep_view() == base + tag_pieces(pieces.take(k as int)),
            decreases parts.len() - k,
        {
            let tag = text::trim(parts[k]);
            assert(pieces.take(k + 1).drop_last() =~= pieces.take(k as int));
            assert(pieces.take(k + 1).last() == parts[k as int]@);
            if !tag.is_empty() {
                let ghost before = found.deep_view();
                found.push(tag.to_owned());
                assert(found.deep_view() =~= before.push(tag@));
                assert(found.deep_view() =~= base + tag_pieces(pieces.take(k + 1)));
            }
            k = k + 1;
        }
        assert(pieces.take(k as int) =~= pieces);
        assert(all.take(i + 1).drop_last() =~= all.take(i as int));
        assert(all.take(i + 1).last() == tags[i as int]@);
        i = i + 1;
    }
    assert(all.take(i as int) =~= all);
    dedup(order::sort(found))
}

/// Whether a text stays on one line.
pub open spec fn on_one_line(value: Seq<char>) -> bool {
    !value.contains('\n') && !value.contains('\r')
}

fn is_single_line(value: &str) -> (single: bool)
    ensures
        single == on_one_line(value@),
{
    !text::contains_char(value, '\n') && !text::contains_char(value, '\r')
}

// Making memories.

/// What a new memory is made from.
#[derive(Debug)]
pub struct CreateMemoryInput {
    memory_type: MemoryType,
    scope: MemoryScope,
    kind: MemoryKind,
    tags: Vec<String>,
    body: String,
    source: Option<String>,
    source_id: Option<String>,
    agent: Option<String>,
    session: Option<String>,
}

pub struct InputView {
    pub memory_type: MemoryType,
    pub scope: MemoryScope,
    pub kind: MemoryKind,
    pub tags: Seq<Seq<char>>,
    pub body: Seq<char>,
    pub source: Option<Seq<char>>,
    pub source_id: Option<Seq<char>>,
    pub agent: Option<Seq<char>>,
    pub session: Option<Seq<char>>,
}

impl View for CreateMemoryInput {
    type V = InputView;

    closed spec fn view(&self) -> InputView {
        InputView {
            memory_type: self.memory_type,
            scope: self.scope,
            kind: self.kind,
            tags: self.tags.deep_view(),
            body: self.body@,
            source: self.source.deep_view(),
            source_id: self.source_id.deep_view(),
            agent: self.agent.deep_view(),
            session: self.session.deep_view(),
        }
    }
}

impl CreateMemoryInput {
    pub fn new(
        memory_type: MemoryType,
        scope: MemoryScope,
        kind: MemoryKind,
        body: String,
    ) -> (input: CreateMemoryInput)
        ensures
            input@ == (InputView {
                memory_type,
                scope,
                kind,
                tags: seq![],
                body: body@,
                source: None,
                source_id: None,
                agent: None,
                session: None,
            }),
    {
        let tags: Vec<String> = Vec::new();
        assert(tags.deep_view() =~= seq![]);
        CreateMemoryInput {
            memory_type,
            scope,
            kind,
            tags,
            body,
            source: None,
            source_id: None,
            agent: None,
            session: None,
        }
    }

    pub fn tags(self, tags: Vec<String>) -> (input: CreateMemoryInput)
        ensures
            input@ == (InputView { tags: tags.deep_view(), ..self@ }),
    {
        let mut input = self;
        input.tags = tags;
        input
    }

    pub fn source(self, source: Option<String>) -> (input: CreateMemoryInput)
        ensures
            input@ == (InputView { source: source.deep_view(), ..self@ }),
    {
        let mut input = self;
        input.source = source;
        input
    }

    pub fn source_id(self, source_id: Option<String>) -> (input: CreateMemoryInput)
        ensures
            input@ == (InputView { source_id: source_id.deep_view(), ..self@ }),
    {
        let mut input = self;
        input.source_id = source_id;
        input
    }

    pub fn agent(self, agent: Option<String>) -> (input: CreateMemoryInput)
        ensures
            input@ == (InputView { agent: agent.deep_view(), ..self@ }),
    {
        let mut input = self;
        input.agent = agent;
        input
    }

    pub fn session(self, session: Option<String>) -> (input: CreateMemoryInput)
        ensures
            input@ == (InputView { session: session.deep_view(), ..self@ }),
    {
        let mut input = self;
        input.session = session;
        input
    }
}

/// The memory that the input makes, under an id and at a time.
pub open spec fn created(input: InputView, id: Seq<char>, now: Seq<char>) -> Result<
    MemoryView,
    Seq<char>,
> {
    let tags = normal_tags(input.tags);
    if text::trimmed(input.body).len() == 0 {
        Err("memory body cannot be empty"@)
    } else if input.source_id is Some && !on_one_line(input.source_id->Some_0) {
        Err("source_id must be a single line"@)
    } else if exists|i: int| 0 <= i < tags.len() && !on_one_line(#[trigger] tags[i]) {
        Err("memory tags must be single-line values"@)
    } else {
        Ok(
            MemoryView {
                metadata: MetadataView {
                    id,
                    memory_type: input.memory_type,
                    scope: input.scope,
                    kind: input.kind,
                    status: MemoryStatus::Active,
                    created_at: now,
                    updated_at: now,
                    tags,
                    title: None,
                    source: input.source,
                    source_id: input.source_id,
                    agent: input.agent,
                    session: input.session,
                    confidence: Some("1.0"@),
                    promoted_from: None,
                    supersedes: seq![],
                },
                body: input.body,
                path: None,
            },
        )
    }
}

/// Makes a new memory.
pub fn create_memory(input: CreateMemoryInput, id: String, now: &str) -> (memory: Result<
    Memory,
    Error,
>)
    ensures
        crate::error::agrees(memory, created(input@, id@, now@)),
{
    if text::trim(input.body.as_str()).is_empty() {
        return Err(Error::of("memory body cannot be empty"));
    }
    if let Some(source_id) = &input.source_id {
        if !is_single_line(source_id.as_str()) {
            return Err(Error::of("source_id must be a single line"));
        }
    }
    let tags = normalize_tags(&input.tags);
    let ghost all = normal_tags(input@.tags);
    let mut i: usize = 0;
    while i < tags.len()
        invariant
            i <= tags.len(),
            tags.deep_view() == all,
            forall|k: int| 0 <= k < i ==> on_one_line(#[trigger] all[k]),
        ensures
            i == tags.len() || !on_one_line(all[i as int]),
        decreases tags.len() - i,
    {
        assert(all[i as int] == tags[i as int]@);
        if !is_single_line(tags[i].as_str()) {
            break;
        }
        i = i + 1;
    }
    if i < tags.len() {
        return Err(Error::of("memory tags must be single-line values"));
    }
    let supersedes: Vec<String> = Vec::new();
    assert(supersedes.deep_view() =~= seq![]);
    Ok(
        Memory {
            metadata: MemoryMetadata {
                id,
                memory_type: input.memory_type,
                scope: input.scope,
                kind: input.kind,
                status: MemoryStatus::Active,
                created_at: now.to_owned(),
                updated_at: now.to_owned(),
                tags,
                title: None,
                source: input.source,
                source_id: input.source_id,
                agent: input.agent,
                session: input.session,
                confidence: Some("1.0".to_owned()),
                promoted_from: None,
                supersedes,
            },
            body: input.body,
            path: None,
        },
    )
}

/// The directory that a memory belongs in.
pub open spec fn directory_of(root: Seq<char>, status: MemoryStatus, memory_type: MemoryType) -> Seq<
    char,
> {
    match status {
        MemoryStatus::Archived => workspace::archive_path(root),
        _ => match memory_type {
            MemoryType::Short => workspace::short_path(root),
            MemoryType::Long => workspace::long_path(root),
        },
    }
}

/// The file that a memory belongs in.
pub open spec fn file_of(root: Seq<char>, metadata: MetadataView) -> Seq<char> {
    path::below(directory_of(root, metadata.status, metadata.memory_type), metadata.id + ".md"@)
}

pub fn memory_directory(workspace: &Workspace, metadata: &MemoryMetadata) -> (dir: String)
    ensures
        dir@ == directory_of(workspace@, metadata@.status, metadata@.memory_type),
{
    match metadata.status {
        MemoryStatus::Archived => workspace.archive_dir(),
        MemoryStatus::Active | MemoryStatus::Superseded => match metadata.memory_type {
            MemoryType::Short => workspace.short_dir(),
            MemoryType::Long => workspace.long_dir(),
        },
    }
}

pub fn memory_file(workspace: &Workspace, metadata: &MemoryMetadata) -> (file: String)
    ensures
        file@ == file_of(workspace@, metadata@),
{
    path::join(
        memory_directory(workspace, metadata).as_str(),
        text::concat2(metadata.id.as_str(), ".md").as_str(),
    )
}

/// The file to remove once a memory has been written elsewhere.
pub fn stale_file(original: &Option<String>, written: &str) -> (stale: Option<String>)
    ensures
        stale.deep_view() == (if original.deep_view() == Some(written@) {
            None
        } else {
            original.deep_view()
        }),
{
    match original {
        Some(original) => {
            if text::same(original.as_str(), written) {
                None
            } else {
                Some(original.clone())
            }
        },
        None => None,
    }
}

// Changing memories.

/// Refuses to go on with a memory that is not active.
pub fn ensure_active_memory(memory: &Memory, verb: &str) -> (active: Result<(), Error>)
    ensures
        match active {
            Ok(_) => memory@.metadata.status == MemoryStatus::Active,
            Err(error) => memory@.metadata.status != MemoryStatus::Active && error@
                == "only active memories can be "@ + verb@,
        },
{
    match memory.metadata.status {
        MemoryStatus::Active => Ok(()),
        _ => Err(Error::new(text::concat2("only active memories can be ", verb))),
    }
}

/// Refuses to change a memory through a link, of which only the link would be
/// recorded.
pub fn ensure_mutable_memory_path(state: PathState, path: &str) -> (mutable: Result<(), Error>)
    ensures
        match mutable {
            Ok(_) => state != PathState::Symlink,
            Err(error) => state == PathState::Symlink && error@
                == "refusing to mutate symlinked memory "@ + path@,
        },
{
    match state {
        PathState::Symlink => Err(
            Error::new(text::concat2("refusing to mutate symlinked memory ", path)),
        ),
        _ => Ok(()),
    }
}

/// What is said of a change to a memory whose file is a link.
pub open spec fn link_refusal(memory: MemoryView) -> Seq<char> {
    "refusing to mutate symlinked memory "@ + stored_path(memory)
}

/// The file of a memory, where it has one.
pub open spec fn stored_path(memory: MemoryView) -> Seq<char> {
    match memory.path {
        Some(path) => path,
        None => ""@,
    }
}

/// Refuses to change a memory whose file is a link.
fn ensure_mutable(memory: &Memory, state: PathState) -> (mutable: Result<(), Error>)
    ensures
        match mutable {
            Ok(_) => state != PathState::Symlink,
            Err(error) => state == PathState::Symlink && error@ == link_refusal(memory@),
        },
{
    let path = match &memory.path {
        Some(path) => path.as_str(),
        None => "",
    };
    ensure_mutable_memory_path(state, path)
}

/// The body after an update.
pub open spec fn updated_body(old_body: Seq<char>, body: Seq<char>, append: bool) -> Seq<char> {
    if append {
        text::trimmed(old_body) + "\n\n"@ + text::trimmed(body)
    } else {
        body
    }
}

/// Replaces the body of a memory, or adds to it. The state is that of the
/// memory's file.
pub fn update_memory(
    memory: Memory,
    state: PathState,
    body: String,
    append: bool,
    now: &str,
) -> (updated: Result<Memory, Error>)
    ensures
        match updated {
            Ok(updated) => {
                &&& text::trimmed(body@).len() > 0
                &&& state != PathState::Symlink
                &&& updated@ == (MemoryView {
                    metadata: MetadataView { updated_at: now@, ..memory@.metadata },
                    body: updated_body(memory@.body, body@, append),
                    ..memory@
                })
            },
            Err(error) => if text::trimmed(body@).len() == 0 {
                error@ == "updated body cannot be empty"@
            } else {
                state == PathState::Symlink && error@ == link_refusal(memory@)
            },
        },
{
    if text::trim(body.as_str()).is_empty() {
        return Err(Error::of("updated body cannot be empty"));
    }
    ensure_mutable(&memory, state)?;
    let mut memory = memory;
    if append {
        memory.body =
        text::concat3(text::trim(memory.body.as_str()), "\n\n", text::trim(body.as_str()));
    } else {
        memory.body = body;
    }
    memory.metadata.updated_at = now.to_owned();
    Ok(memory)
}

/// Whether a memory may be deleted for good: a superseded one is kept.
pub fn ensure_deletable(memory: &Memory, hard: bool) -> (deletable: Result<(), Error>)
    ensures
        match deletable {
            Ok(_) => !(hard && memory@.metadata.status == MemoryStatus::Superseded),
            Err(error) => hard && memory@.metadata.status == MemoryStatus::Superseded && error@
                == "cannot delete superseded memory "@ + memory@.metadata.id
                + "; it preserves provenance"@,
        },
{
    match memory.metadata.status {
        MemoryStatus::Superseded if hard => Err(
            Error::new(
                text::concat3(
                    "cannot delete superseded memory ",
                    memory.metadata.id.as_str(),
                    "; it preserves provenance",
                ),
            ),
        ),
        _ => Ok(()),
    }
}

fn archive_memory(memory: Memory, now: &str) -> (archived: Memory)
    ensures
        archived@ == (MemoryView {
            metadata: MetadataView {
                status: MemoryStatus::Archived,
                updated_at: now@,
                ..memory@.metadata
            },
            ..memory@
        }),
{
    let mut memory = memory;
    memory.metadata.status = MemoryStatus::Archived;
    memory.metadata.updated_at = now.to_owned();
    memory
}

/// Whether that is what becomes of a memory that is deleted, or archived.
pub open spec fn is_deleted(
    memories: Seq<MemoryView>,
    id: Seq<char>,
    state: PathState,
    hard: bool,
    now: Seq<char>,
    deleted: Result<MemoryView, Seq<char>>,
) -> bool {
    exists|found: Result<MemoryView, Seq<char>>| #[trigger]
        is_found(memories, id, found) && deleted == (match found {
            Err(message) => Err(message),
            Ok(memory) => if state == PathState::Symlink {
                Err(link_refusal(memory))
            } else if !hard {
                Ok(
                    MemoryView {
                        metadata: MetadataView {
                            status: MemoryStatus::Archived,
                            updated_at: now,
                            ..memory.metadata
                        },
                        ..memory
                    },
                )
            } else if memory.metadata.status == MemoryStatus::Superseded {
                Err(
                    "cannot delete superseded memory "@ + memory.metadata.id
                        + "; it preserves provenance"@,
                )
            } else {
                Ok(memory)
            },
        })
}

/// Finds a memory, and archives it; one that is to be deleted for good comes
/// back as it is. The state is that of the file of the memory that is found.
pub fn delete_memory(
    memories: Vec<Memory>,
    id: &str,
    state: PathState,
    hard: bool,
    now: &str,
) -> (deleted: Result<Memory, Error>)
    ensures
        is_deleted(memories.deep_view(), id@, state, hard, now@, outcome(deleted)),
{
    let ghost all = memories.deep_view();
    let found = find_memory(memories, id);
    assert(is_found(all, id@, outcome(found)));
    let memory = match found {
        Ok(memory) => memory,
        Err(error) => {
            return Err(error);
        },
    };
    match ensure_mutable(&memory, state) {
        Ok(_) => {},
        Err(error) => {
            return Err(error);
        },
    }
    if !hard {
        return Ok(archive_memory(memory, now));
    }
    match ensure_deletable(&memory, hard) {
        Ok(_) => Ok(memory),
        Err(error) => Err(error),
    }
}

/// The long-term memory that a short-term one is promoted to.
pub open spec fn promoted(
    source: MemoryView,
    body: Option<Seq<char>>,
    id: Seq<char>,
    now: Seq<char>,
) -> Result<MemoryView, Seq<char>> {
    if source.metadata.status != MemoryStatus::Active {
        Err("only active memories can be promoted"@)
    } else if source.metadata.memory_type != MemoryType::Short {
        Err("only short-term memories can be promoted"@)
    } else {
        Ok(
            MemoryView {
                metadata: MetadataView {
                    id,
                    memory_type: MemoryType::Long,
                    created_at: now,
                    updated_at: now,
                    source: Some("promote"@),
                    source_id: None,
                    promoted_from: Some(source.metadata.id),
                    supersedes: seq![],
                    ..source.metadata
                },
                body: match body {
                    Some(body) => body,
                    None => source.body,
                },
                path: None,
            },
        )
    }
}

pub fn promote_memory(
    source: &Memory,
    body_override: Option<String>,
    id: String,
    now: &str,
) -> (memory: Result<Memory, Error>)
    ensures
        crate::error::agrees(
            memory,
            promoted(source@, body_override.deep_view(), id@, now@),
        ),
{
    proof {
        reveal_strlit("only active memories can be ");
        reveal_strlit("promoted");
        reveal_strlit("only active memories can be promoted");
        assert("only active memories can be "@ + "promoted"@
            =~= "only active memories can be promoted"@);
    }
    ensure_active_memory(source, "promoted")?;
    if source.metadata.memory_type != MemoryType::Short {
        return Err(Error::of("only short-term memories can be promoted"));
    }
    let body = match body_override {
        Some(body) => body,
        None => source.body.clone(),
    };
    let supersedes: Vec<String> = Vec::new();
    assert(supersedes.deep_view() =~= seq![]);
    let mut metadata = source.metadata.clone();
    metadata.promoted_from = Some(metadata.id);
    metadata.id = id;
    metadata.memory_type = MemoryType::Long;
    metadata.created_at = now.to_owned();
    metadata.updated_at = now.to_owned();
    metadata.source = Some("promote".to_owned());
    metadata.source_id = None;
    metadata.supersedes = supersedes;
    Ok(Memory { metadata, body, path: None })
}

/// Replaces an active memory by a new one, which names the one it supersedes.
/// The state is that of the file of the memory that is replaced.
pub fn supersede_memory(
    old_memory: Memory,
    state: PathState,
    input: CreateMemoryInput,
    id: String,
    now: &str,
) -> (result: Result<(Memory, Memory), Error>)
    ensures
        match result {
            Ok((superseded, replacement)) => {
                &&& old_memory@.metadata.status == MemoryStatus::Active
                &&& state != PathState::Symlink
                &&& created(input@, id@, now@) is Ok
                &&& superseded@ == (MemoryView {
                    metadata: MetadataView {
                        status: MemoryStatus::Superseded,
                        updated_at: now@,
                        ..old_memory@.metadata
                    },
                    ..old_memory@
                })
                &&& replacement@ == (MemoryView {
                    metadata: MetadataView {
                        supersedes: seq![old_memory@.metadata.id],
                        ..created(input@, id@, now@)->Ok_0.metadata
                    },
                    ..created(input@, id@, now@)->Ok_0
                })
            },
            Err(error) => if old_memory@.metadata.status != MemoryStatus::Active {
                error@ == "only active memories can be superseded"@
            } else if state == PathState::Symlink {
                error@ == link_refusal(old_memory@)
            } else {
                created(input@, id@, now@) == Err::<MemoryView, _>(error@)
            },
        },
{
    proof {
        reveal_strlit("only active memories can be ");
        reveal_strlit("superseded");
        reveal_strlit("only active memories can be superseded");
        assert("only active memories can be "@ + "superseded"@
            =~= "only active memories can be superseded"@);
    }
    ensure_active_memory(&old_memory, "superseded")?;
    ensure_mutable(&old_memory, state)?;
    let mut replacement = create_memory(input, id, now)?;
    let mut supersedes: Vec<String> = Vec::new();
    supersedes.push(old_memory.metadata.id.clone());
    assert(supersedes.deep_view() =~= seq![old_memory@.metadata.id]);
    replacement.metadata.supersedes = supersedes;
    let mut superseded = old_memory;
    superseded.metadata.status = MemoryStatus::Superseded;
    superseded.metadata.updated_at = now.to_owned();
    Ok((superseded, replacement))
}

/// The id of a memory made at a time, by a process.
pub open spec fn fresh_id(seconds: nat, nanos: nat, process: nat) -> Seq<char> {
    "m"@ + decimal(seconds) + padded(nanos, 9) + "-"@ + decimal(process)
}

/// The decimal digits of a number, with zeros before them up to a width.
pub open spec fn padded(number: nat, width: nat) -> Seq<char> {
    zeros((width - decimal(number).len()) as int) + decimal(number)
}

pub open spec fn zeros(count: int) -> Seq<char> {
    Seq::new(
        if count < 0 {
            0nat
        } else {
            count as nat
        },
        |i: int| '0',
    )
}

pub fn generate_id(seconds: u64, nanos: u32, process: u32) -> (id: String)
    ensures
        id@ == fresh_id(seconds as nat, nanos as nat, process as nat),
{
    let digits = decimal_u64(nanos as u64);
    let length: usize = digits.as_str().unicode_len();
    let mut id = text::concat2("m", decimal_u64(seconds).as_str());
    let ghost head = id@;
    let mut padding: usize = length;
    assert(zeros(0) =~= seq![]);
    assert(head + zeros(0) =~= head);
    while padding < 9
        invariant
            length <= padding,
            padding <= 9 || padding == length,
            id@ == head + zeros(padding - length),
        decreases 9 - padding,
    {
        id.push('0');
        padding = padding + 1;
        assert(zeros(padding - length) =~= zeros(padding - 1 - length).push('0'));
        assert(id@ =~= head + zeros(padding - length));
    }
    assert(zeros(padding - length) =~= zeros(9 - length));
    id.append(digits.as_str());
    id.append("-");
    id.append(decimal_u64(process as u64).as_str());
    assert(id@ =~= fresh_id(seconds as nat, nanos as nat, process as nat));
    id
}

// Choosing among memories.

/// Which memories are wanted.
#[derive(Debug)]
pub struct MemoryFilter {
    pub memory_type: Option<MemoryType>,
    pub scope: Option<MemoryScope>,
    pub kind: Option<MemoryKind>,
    pub tag: Option<String>,
    pub include_archived: bool,
}

impl Default for MemoryFilter {
    fn default() -> (filter: Self)
        ensures
            filter == (MemoryFilter {
                memory_type: None,
                scope: None,
                kind: None,
                tag: None,
                include_archived: false,
            }),
    {
        MemoryFilter { memory_type: None, scope: None, kind: None, tag: None, include_archived: false }
    }
}

impl MemoryFilter {
    /// Whether a memory is wanted.
    pub open spec fn accepts(&self, memory: MemoryView) -> bool {
        &&& self.include_archived || memory.metadata.status == MemoryStatus::Active
        &&& self.memory_type matches Some(wanted) ==> memory.metadata.memory_type == wanted
        &&& self.scope matches Some(wanted) ==> memory.metadata.scope == wanted
        &&& self.kind matches Some(wanted) ==> memory.metadata.kind == wanted
        &&& self.tag matches Some(wanted) ==> memory.metadata.tags.contains(wanted@)
    }
}

/// Whether a list of texts holds one.
pub fn contains_text(texts: &Vec<String>, wanted: &str) -> (found: bool)
    ensures
        found == texts.deep_view().contains(wanted@),
{
    let ghost all = texts.deep_view();
    let mut i: usize = 0;
    while i < texts.len()
        invariant
            i <= texts.len(),
            all == texts.deep_view(),
            forall|k: int| 0 <= k < i ==> all[k] != wanted@,
        decreases texts.len() - i,
    {
        assert(all[i as int] == texts[i as int]@);
        if text::same(texts[i].as_str(), wanted) {
            return true;
        }
        i = i + 1;
    }
    false
}

pub fn matches_filter(memory: &Memory, filter: &MemoryFilter) -> (matches: bool)
    ensures
        matches == filter.accepts(memory@),
{
    if !filter.include_archived && memory.metadata.status != MemoryStatus::Active {
        return false;
    }
    if let Some(memory_type) = filter.memory_type {
        if memory.metadata.memory_type != memory_type {
            return false;
        }
    }
    if let Some(scope) = filter.scope {
        if memory.metadata.scope != scope {
            return false;
        }
    }
    if let Some(kind) = filter.kind {
        if memory.metadata.kind != kind {
            return false;
        }
    }
    if let Some(tag) = &filter.tag {
        if !contains_text(&memory.metadata.tags, tag.as_str()) {
            return false;
        }
    }
    true
}

/// The wanted ones of the memories, by their ids.
pub open spec fn listed(memories: Seq<MemoryView>, filter: &MemoryFilter) -> Seq<MemoryView> {
    order::ranked::<Memory>(memories.filter(|memory: MemoryView| filter.accepts(memory)))
}

/// Picks the wanted memories and sorts them by their ids.
pub fn list_memories(memories: &Vec<Memory>, filter: &MemoryFilter) -> (chosen: Vec<Memory>)
    ensures
        chosen.deep_view() == listed(memories.deep_view(), filter),
{
    let mut chosen: Vec<Memory> = Vec::new();
    let ghost all = memories.deep_view();
    let ghost wanted = |memory: MemoryView| filter.accepts(memory);
    let mut i: usize = 0;
    proof {
        reveal(Seq::filter);
        assert(all.take(0) =~= seq![]);
        assert(chosen.deep_view() =~= seq![]);
        assert(all.take(0).filter(wanted) =~= seq![]);
    }
    while i < memories.len()
        invariant
            i <= memories.len(),
            all == memories.deep_view(),
            wanted == (|memory: MemoryView| filter.accepts(memory)),
            chosen.deep_view() == all.take(i as int).filter(wanted),
        decreases memories.len() - i,
    {
        proof {
            reveal(Seq::filter);
            assert(all.take(i + 1).drop_last() =~= all.take(i as int));
            assert(all.take(i + 1).last() == memories[i as int]@);
        }
        if matches_filter(&memories[i], filter) {
            let ghost before = chosen.deep_view();
            chosen.push(memories[i].clone());
            assert(chosen.deep_view() =~= before.push(memories[i as int]@));
        }
        i = i + 1;
    }
    assert(all.take(i as int) =~= all);
    order::sort(chosen)
}

/// The Markdown files among the paths, in order.
pub open spec fn markdown_files(paths: Seq<Seq<char>>) -> Seq<Seq<char>> {
    order::ranked::<String>(
        paths.filter(|path: Seq<char>| path::extension_of(path) == Some("md"@)),
    )
}

pub fn markdown_paths(paths: &Vec<String>) -> (files: Vec<String>)
    ensures
        files.deep_view() == markdown_files(paths.deep_view()),
{
    let mut files: Vec<String> = Vec::new();
    let ghost all = paths.deep_view();
    let ghost wanted = |path: Seq<char>| path::extension_of(path) == Some("md"@);
    let mut i: usize = 0;
    proof {
        reveal(Seq::filter);
        assert(all.take(0) =~= seq![]);
        assert(files.deep_view() =~= seq![]);
        assert(all.take(0).filter(wanted) =~= seq![]);
    }
    while i < paths.len()
        invariant
            i <= paths.len(),
            all == paths.deep_view(),
            wanted == (|path: Seq<char>| path::extension_of(path) == Some("md"@)),
            files.deep_view() == all.take(i as int).filter(wanted),
        decreases paths.len() - i,
    {
        proof {
            reveal(Seq::filter);
            assert(all.take(i + 1).drop_last() =~= all.take(i as int));
            assert(all.take(i + 1).last() == paths[i as int]@);
        }
        let markdown = match path::extension(paths[i].as_str()) {
            Some(extension) => text::same(extension, "md"),
            None => false,
        };
        if markdown {
            let ghost before = files.deep_view();
            files.push(paths[i].clone());
            assert(files.deep_view() =~= before.push(paths[i as int]@));
        }
        i = i + 1;
    }
    assert(all.take(i as int) =~= all);
    order::sort(files)
}

/// The directories that hold memories.
pub fn memory_directories(workspace: &Workspace, include_archived: bool) -> (dirs: Vec<String>)
    ensures
        dirs.deep_view() == (if include_archived {
            seq![
                workspace::short_path(workspace@),
                workspace::long_path(workspace@),
                workspace::archive_path(workspace@),
            ]
        } else {
            seq![workspace::short_path(workspace@), workspace::long_path(workspace@)]
        }),
{
    let mut dirs: Vec<String> = Vec::new();
    dirs.push(workspace.short_dir());
    dirs.push(workspace.long_dir());
    if include_archived {
        dirs.push(workspace.archive_dir());
        assert(dirs.deep_view() =~= seq![
            workspace::short_path(workspace@),
            workspace::long_path(workspace@),
            workspace::archive_path(workspace@),
        ]);
    } else {
        assert(dirs.deep_view() =~= seq![
            workspace::short_path(workspace@),
            workspace::long_path(workspace@),
        ]);
    }
    dirs
}

/// How good a match a memory is for its id: active ones come first, then those
/// whose file is named after the id.
pub open spec fn match_rank(memory: MemoryView, id: Seq<char>) -> (u8, u8) {
    (
        if memory.metadata.status == MemoryStatus::Active {
            0u8
        } else {
            1u8
        },
        if memory.path is Some && path::stem_of(memory.path->Some_0) == Some(id) {
            0u8
        } else {
            1u8
        },
    )
}

/// Whether one rank is better than another.
pub open spec fn better(left: (u8, u8), right: (u8, u8)) -> bool {
    left.0 < right.0 || (left.0 == right.0 && left.1 < right.1)
}

fn exact_match_priority(memory: &Memory, id: &str) -> (rank: (u8, u8))
    ensures
        rank == match_rank(memory@, id@),
{
    let status_rank: u8 = if memory.metadata.status == MemoryStatus::Active {
        0
    } else {
        1
    };
    let canonical = match &memory.path {
        Some(path) => match path::file_stem(path.as_str()) {
            Some(stem) => text::same(stem, id),
            None => false,
        },
        None => false,
    };
    let path_rank: u8 = if canonical {
        0
    } else {
        1
    };
    (status_rank, path_rank)
}

pub fn effective_priority(memory: &Memory) -> (rank: (u8, u8))
    ensures
        rank == match_rank(memory@, memory@.metadata.id),
{
    exact_match_priority(memory, memory.metadata.id.as_str())
}

/// The memories with that very id.
pub open spec fn exact_matches(memories: Seq<MemoryView>, id: Seq<char>) -> Seq<MemoryView> {
    memories.filter(|memory: MemoryView| memory.metadata.id == id)
}

/// The memories whose id begins with the text and goes on.
pub open spec fn prefix_matches(memories: Seq<MemoryView>, id: Seq<char>) -> Seq<MemoryView> {
    memories.filter(
        |memory: MemoryView| memory.metadata.id != id && id.is_prefix_of(memory.metadata.id),
    )
}

/// Whether no memory among the candidates is a better match.
pub open spec fn is_best(candidates: Seq<MemoryView>, id: Seq<char>, at: int) -> bool {
    forall|i: int|
        0 <= i < candidates.len() ==> !better(
            match_rank(#[trigger] candidates[i], id),
            match_rank(candidates[at], id),
        )
}

/// Whether a memory is the one best match among the candidates.
pub open spec fn is_only_best(candidates: Seq<MemoryView>, id: Seq<char>, at: int) -> bool {
    &&& 0 <= at < candidates.len()
    &&& is_best(candidates, id, at)
    &&& forall|i: int|
        0 <= i < candidates.len() && i != at ==> match_rank(#[trigger] candidates[i], id)
            != match_rank(candidates[at], id)
}

/// Whether that is the memory that an id, or the start of one, stands for; or
/// what is said where there is none, or more than one. An exact match goes
/// before any other; of several the best one is taken, if there is one best.
pub open spec fn is_found(
    memories: Seq<MemoryView>,
    id: Seq<char>,
    found: Result<MemoryView, Seq<char>>,
) -> bool {
    let exact = exact_matches(memories, id);
    let prefixed = prefix_matches(memories, id);
    match found {
        Ok(memory) => if exact.len() > 0 {
            exists|at: int| #[trigger] is_only_best(exact, id, at) && exact[at] == memory
        } else {
            prefixed.len() == 1 && prefixed[0] == memory
        },
        Err(message) => if exact.len() > 0 {
            &&& forall|at: int| !(#[trigger] is_only_best(exact, id, at))
            &&& message == "memory id "@ + text::quoted_form(id)
                + " has duplicate canonical matches"@
        } else if prefixed.len() == 0 {
            message == "no memory found for "@ + text::quoted_form(id)
        } else {
            &&& prefixed.len() != 1
            &&& message == "memory prefix "@ + text::quoted_form(id) + " is ambiguous"@
        },
    }
}

/// The outcome of a search, by its views.
pub open spec fn outcome(found: Result<Memory, Error>) -> Result<MemoryView, Seq<char>> {
    match found {
        Ok(memory) => Ok(memory@),
        Err(error) => Err(error@),
    }
}

/// Picks the memory that an id, or the start of one, stands for.
pub fn find_memory(memories: Vec<Memory>, id_or_prefix: &str) -> (found: Result<Memory, Error>)
    ensures
        is_found(memories.deep_view(), id_or_prefix@, outcome(found)),
{
    let mut exact: Vec<Memory> = Vec::new();
    let mut prefixed: Vec<Memory> = Vec::new();
    let ghost all = memories.deep_view();
    let ghost id = id_or_prefix@;
    let ghost is_exact = |memory: MemoryView| memory.metadata.id == id;
    let ghost is_prefixed = |memory: MemoryView|
        memory.metadata.id != id && id.is_prefix_of(memory.metadata.id);
    let mut i: usize = 0;
    proof {
        reveal(Seq::filter);
        assert(all.take(0) =~= seq![]);
        assert(exact.deep_view() =~= seq![]);
        assert(prefixed.deep_view() =~= seq![]);
        assert(all.take(0).filter(is_exact) =~= seq![]);
        assert(all.take(0).filter(is_prefixed) =~= seq![]);
    }
    while i < memories.len()
        invariant
            i <= memories.len(),
            all == memories.deep_view(),
            id == id_or_prefix@,
            is_exact == (|memory: MemoryView| memory.metadata.id == id),
            is_prefixed == (|memory: MemoryView|
                memory.metadata.id != id && id.is_prefix_of(memory.metadata.id)),
            exact.deep_view() == all.take(i as int).filter(is_exact),
            prefixed.deep_view() == all.take(i as int).filter(is_prefixed),
        decreases memories.len() - i,
    {
        proof {
            reveal(Seq::filter);
            assert(all.take(i + 1).drop_last() =~= all.take(i as int));
            assert(all.take(i + 1).last() == memories[i as int]@);
        }
        let memory = &memories[i];
        if text::same(memory.metadata.id.as_str(), id_or_prefix) {
            let ghost before = exact.deep_view();
            exact.push(memory.clone());
            assert(exact.deep_view() =~= before.push(memories[i as int]@));
        } else if text::starts_with(memory.metadata.id.as_str(), id_or_prefix) {
            let ghost before = prefixed.deep_view();
            prefixed.push(memory.clone());
            assert(prefixed.deep_view() =~= before.push(memories[i as int]@));
        }
        i = i + 1;
    }
    assert(all.take(i as int) =~= all);
    assert(exact.deep_view() == exact_matches(all, id));
    assert(prefixed.deep_view() == prefix_matches(all, id));
    if exact.len() > 0 {
        return select_exact_match(id_or_prefix, exact);
    }
    if prefixed.len() == 0 {
        Err(
            Error::new(
                text::concat2("no memory found for ", text::quoted(id_or_prefix).as_str()),
            ),
        )
    } else if prefixed.len() == 1 {
        let ghost only = prefixed.deep_view();
        let memory = prefixed.remove(0);
        assert(memory@ == only[0]);
        Ok(memory)
    } else {
        Err(
            Error::new(
                text::concat3(
                    "memory prefix ",
                    text::quoted(id_or_prefix).as_str(),
                    " is ambiguous",
                ),
            ),
        )
    }
}

fn select_exact_match(id: &str, candidates: Vec<Memory>) -> (found: Result<Memory, Error>)
    requires
        candidates.len() > 0,
    ensures
        ({
            let exact = candidates.deep_view();
            match found {
                Ok(memory) => exists|at: int| #[trigger]
                    is_only_best(exact, id@, at) && exact[at] == memory@,
                Err(error) => {
                    &&& forall|at: int| !(#[trigger] is_only_best(exact, id@, at))
                    &&& error@ == "memory id "@ + text::quoted_form(id@)
                        + " has duplicate canonical matches"@
                },
            }
        }),
{
    let ghost exact = candidates.deep_view();
    let mut best: usize = 0;
    let mut best_rank = exact_match_priority(&candidates[0], id);
    let mut shared = false;
    let mut i: usize = 1;
    while i < candidates.len()
        invariant
            1 <= i <= candidates.len(),
            best < i,
            exact == candidates.deep_view(),
            best_rank == match_rank(exact[best as int], id@),
            forall|k: int|
                0 <= k < i ==> !better(match_rank(#[trigger] exact[k], id@), best_rank),
            shared <==> exists|k: int|
                0 <= k < i && k != best && match_rank(#[trigger] exact[k], id@) == best_rank,
        decreases candidates.len() - i,
    {
        let rank = exact_match_priority(&candidates[i], id);
        assert(exact[i as int] == candidates[i as int]@);
        if rank.0 < best_rank.0 || (rank.0 == best_rank.0 && rank.1 < best_rank.1) {
            best = i;
            best_rank = rank;
            shared = false;
        } else if rank.0 == best_rank.0 && rank.1 == best_rank.1 {
            shared = true;
        }
        i = i + 1;
    }
    if shared {
        proof {
            let k = choose|k: int|
                0 <= k < i && k != best && match_rank(#[trigger] exact[k], id@) == best_rank;
            assert forall|at: int| !(#[trigger] is_only_best(exact, id@, at)) by {
                if is_only_best(exact, id@, at) {
                    assert(!better(match_rank(exact[best as int], id@), match_rank(exact[at], id@)));
                    assert(!better(match_rank(exact[at], id@), best_rank));
                    assert(match_rank(exact[at], id@) == best_rank);
                    if at == best {
                        assert(match_rank(exact[k], id@) != match_rank(exact[at], id@));
                    } else {
                        assert(match_rank(exact[best as int], id@) != match_rank(exact[at], id@));
                    }
                }
            }
        }
        return Err(
            Error::new(
                text::concat3(
                    "memory id ",
                    text::quoted(id).as_str(),
                    " has duplicate canonical matches",
                ),
            ),
        );
    }
    assert(is_only_best(exact, id@, best as int));
    let mut candidates = candidates;
    let memory = candidates.remove(best);
    assert(memory@ == exact[best as int]);
    Ok(memory)
}

/// Whether a memory came from that source under that id.
pub open spec fn has_source_identity(
    memory: MemoryView,
    source: Seq<char>,
    source_id: Seq<char>,
) -> bool {
    memory.metadata.source == Some(source) && memory.metadata.source_id == Some(source_id)
}

pub open spec fn with_source_identity(
    memories: Seq<MemoryView>,
    source: Seq<char>,
    source_id: Seq<char>,
) -> Seq<MemoryView> {
    memories.filter(|memory: MemoryView| has_source_identity(memory, source, source_id))
}

fn optional_is(value: &Option<String>, wanted: &str) -> (same: bool)
    ensures
        same == (value.deep_view() == Some(wanted@)),
{
    match value {
        Some(value) => text::same(value.as_str(), wanted),
        None => false,
    }
}

/// The memories that came from a source under an id.
pub fn find_memories_by_source_identity(memories: &Vec<Memory>, source: &str, source_id: &str) -> (
    found: Vec<Memory>)
    ensures
        found.deep_view() == with_source_identity(memories.deep_view(), source@, source_id@),
{
    let mut found: Vec<Memory> = Vec::new();
    let ghost all = memories.deep_view();
    let ghost wanted = |memory: MemoryView| has_source_identity(memory, source@, source_id@);
    let mut i: usize = 0;
    proof {
        reveal(Seq::filter);
        assert(all.take(0) =~= seq![]);
        assert(found.deep_view() =~= seq![]);
        assert(all.take(0).filter(wanted) =~= seq![]);
    }
    while i < memories.len()
        invariant
            i <= memories.len(),
            all == memories.deep_view(),
            wanted == (|memory: MemoryView| has_source_identity(memory, source@, source_id@)),
            found.deep_view() == all.take(i as int).filter(wanted),
        decreases memories.len() - i,
    {
        proof {
            reveal(Seq::filter);
            assert(all.take(i + 1).drop_last() =~= all.take(i as int));
            assert(all.take(i + 1).last() == memories[i as int]@);
        }
        let metadata = &memories[i].metadata;
        if optional_is(&metadata.source, source) && optional_is(&metadata.source_id, source_id) {
            let ghost before = found.deep_view();
            found.push(memories[i].clone());
            assert(found.deep_view() =~= before.push(memories[i as int]@));
        }
        i = i + 1;
    }
    assert(all.take(i as int) =~= all);
    found
}

/// What adding a memory with a source identity comes to.
#[derive(Debug)]
pub enum AddDecision {
    Create,
    NoOp(String),
}

/// A source and an id, as messages name them.
pub open spec fn identity_text(source: Seq<char>, source_id: Seq<char>) -> Seq<char> {
    "source identity "@ + text::quoted_form(source) + "/"@ + source_id
}

/// What adding a memory comes to, given those that have its source identity:
/// nothing stands in its way, or it is there already under an id.
pub open spec fn add_outcome(
    matches: Seq<MemoryView>,
    source: Seq<char>,
    source_id: Seq<char>,
    body: Seq<char>,
) -> Result<Option<Seq<char>>, Seq<char>> {
    let identity = identity_text(source, source_id);
    if matches.len() == 0 {
        Ok(None)
    } else if matches.len() > 1 {
        Err(
            identity + " matches "@ + decimal(matches.len())
                + " memories; resolve duplicate source_id values before adding"@,
        )
    } else {
        let existing = matches[0].metadata;
        if existing.status != MemoryStatus::Active {
            Err(
                identity + " belongs to "@ + existing.status.name() + " memory "@ + existing.id
                    + "; use an explicit action instead of add"@,
            )
        } else if canonical(matches[0].body) == canonical(body) {
            Ok(Some(existing.id))
        } else {
            Err(
                identity + " already belongs to memory "@ + existing.id + "; run `rem update "@
                    + existing.id + "` to change it"@,
            )
        }
    }
}

/// Decides about adding a memory, given those that have its source identity.
pub fn decide_add(matches: &Vec<Memory>, source: &str, source_id: &str, body: &str) -> (
    decision: Result<AddDecision, Error>)
    ensures
        ({
            let expected = add_outcome(matches.deep_view(), source@, source_id@, body@);
            match decision {
                Ok(AddDecision::Create) => expected == Ok::<_, Seq<char>>(None::<Seq<char>>),
                Ok(AddDecision::NoOp(id)) => expected == Ok::<_, Seq<char>>(Some(id@)),
                Err(error) => expected == Err::<Option<Seq<char>>, _>(error@),
            }
        }),
{
    let ghost all = matches.deep_view();
    if matches.len() == 0 {
        return Ok(AddDecision::Create);
    }
    let mut message = text::concat4(
        "source identity ",
        text::quoted(source).as_str(),
        "/",
        source_id,
    );
    if matches.len() == 1 {
        let existing = &matches[0];
        assert(all[0] == existing@);
        if existing.metadata.status != MemoryStatus::Active {
            message.append(" belongs to ");
            message.append(existing.metadata.status.label());
            message.append(" memory ");
            message.append(existing.metadata.id.as_str());
            message.append("; use an explicit action instead of add");
            return Err(Error::new(message));
        }
        if bodies_match(existing.body.as_str(), body) {
            return Ok(AddDecision::NoOp(existing.metadata.id.clone()));
        }
        message.append(" already belongs to memory ");
        message.append(existing.metadata.id.as_str());
        message.append("; run `rem update ");
        message.append(existing.metadata.id.as_str());
        message.append("` to change it");
        return Err(Error::new(message));
    }
    message.append(" matches ");
    message.append(crate::numeral::decimal_usize(matches.len()).as_str());
    message.append(" memories; resolve duplicate source_id values before adding");
    Err(Error::new(message))
}

/// Refuses a replacement whose source identity is taken.
pub fn ensure_identity_free(matches: &Vec<Memory>, source: &str, source_id: &str) -> (
    free: Result<(), Error>)
    ensures
        ({
            let all = matches.deep_view();
            match free {
                Ok(_) => all.len() == 0,
                Err(error) => all.len() > 0 && error@ == identity_text(source@, source_id@)
                    + " already belongs to memory "@ + all[0].metadata.id
                    + "; use an explicit update or a new source_id"@,
            }
        }),
{
    let ghost all = matches.deep_view();
    if matches.len() == 0 {
        return Ok(());
    }
    assert(all[0] == matches[0]@);
    let mut message = text::concat4(
        "source identity ",
        text::quoted(source).as_str(),
        "/",
        source_id,
    );
    message.append(" already belongs to memory ");
    message.append(matches[0].metadata.id.as_str());
    message.append("; use an explicit update or a new source_id");
    Err(Error::new(message))
}

} // verus!
