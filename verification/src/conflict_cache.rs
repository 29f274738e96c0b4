//! Conflicts as the rows that the index keeps of them.

use vstd::prelude::*;
use vstd::string::*;

use crate::acceptance::{self, is_reason};
use crate::conflict::{
    self, AcceptanceView, Conflict, ConflictAcceptance, ConflictFact, ConflictFactView,
    ConflictKind, ConflictMember, ConflictStatus, ConflictView, MemberView,
};
use crate::digest;
use crate::directive::{ConfidenceReading, Reading};
use crate::error::Error;
use crate::memory::{self, MemoryScope};
use crate::numeral::{decimal, decimal_i64, decimal_usize, i64_of, parse_i64, signed_decimal};
use crate::order::{self, text_less, Ranked};
use crate::text;

verus! {

/// A row about a conflict.
#[derive(Debug)]
pub struct ConflictRecord {
    pub id: String,
    pub kind: String,
    pub status: String,
    pub evidence_hash: String,
    pub decision: Option<String>,
    pub accepted_evidence_hash: Option<String>,
    pub accepted_at: Option<String>,
    pub reason: Option<String>,
    pub scope: String,
    pub subject_id: Option<String>,
    pub subject: Option<String>,
    pub relation: Option<String>,
    pub member_count: i64,
}

#[verifier::ext_equal]
pub struct RecordView {
    pub id: Seq<char>,
    pub kind: Seq<char>,
    pub status: Seq<char>,
    pub evidence_hash: Seq<char>,
    pub decision: Option<Seq<char>>,
    pub accepted_evidence_hash: Option<Seq<char>>,
    pub accepted_at: Option<Seq<char>>,
    pub reason: Option<Seq<char>>,
    pub scope: Seq<char>,
    pub subject_id: Option<Seq<char>>,
    pub subject: Option<Seq<char>>,
    pub relation: Option<Seq<char>>,
    pub member_count: i64,
}

impl View for ConflictRecord {
    type V = RecordView;

    open spec fn view(&self) -> RecordView {
        RecordView {
            id: self.id@,
            kind: self.kind@,
            status: self.status@,
            evidence_hash: self.evidence_hash@,
            decision: self.decision.deep_view(),
            accepted_evidence_hash: self.accepted_evidence_hash.deep_view(),
            accepted_at: self.accepted_at.deep_view(),
            reason: self.reason.deep_view(),
            scope: self.scope@,
            subject_id: self.subject_id.deep_view(),
            subject: self.subject.deep_view(),
            relation: self.relation.deep_view(),
            member_count: self.member_count,
        }
    }
}

impl DeepView for ConflictRecord {
    type V = RecordView;

    open spec fn deep_view(&self) -> RecordView {
        self@
    }
}

/// A row about a memory, or a fact of it, that takes part in a conflict.
#[derive(Debug)]
pub struct MemberRecord {
    pub ordinal: i64,
    pub memory_id: String,
    pub memory_path: String,
    pub memory_title: String,
    pub excerpt: String,
    pub fact_id: Option<String>,
    pub object_id: Option<String>,
    pub object_value: Option<String>,
    pub valid_from: Option<String>,
    pub valid_to: Option<String>,
    pub learned_at: Option<String>,
    pub expired_at: Option<String>,
    pub confidence: Option<ConfidenceReading>,
    pub line_number: Option<i64>,
}

#[verifier::ext_equal]
pub struct MemberRecordView {
    pub ordinal: i64,
    pub memory_id: Seq<char>,
    pub memory_path: Seq<char>,
    pub memory_title: Seq<char>,
    pub excerpt: Seq<char>,
    pub fact_id: Option<Seq<char>>,
    pub object_id: Option<Seq<char>>,
    pub object_value: Option<Seq<char>>,
    pub valid_from: Option<Seq<char>>,
    pub valid_to: Option<Seq<char>>,
    pub learned_at: Option<Seq<char>>,
    pub expired_at: Option<Seq<char>>,
    pub confidence: Option<Reading>,
    pub line_number: Option<i64>,
}

impl View for MemberRecord {
    type V = MemberRecordView;

    open spec fn view(&self) -> MemberRecordView {
        MemberRecordView {
            ordinal: self.ordinal,
            memory_id: self.memory_id@,
            memory_path: self.memory_path@,
            memory_title: self.memory_title@,
            excerpt: self.excerpt@,
            fact_id: self.fact_id.deep_view(),
            object_id: self.object_id.deep_view(),
            object_value: self.object_value.deep_view(),
            valid_from: self.valid_from.deep_view(),
            valid_to: self.valid_to.deep_view(),
            learned_at: self.learned_at.deep_view(),
            expired_at: self.expired_at.deep_view(),
            confidence: match self.confidence {
                Some(reading) => Some(reading@),
                None => None,
            },
            line_number: self.line_number,
        }
    }
}

impl DeepView for MemberRecord {
    type V = MemberRecordView;

    open spec fn deep_view(&self) -> MemberRecordView {
        self@
    }
}

/// A conflict with its members, in the order of their ordinals.
#[derive(Debug)]
pub struct StoredConflict {
    pub record: ConflictRecord,
    pub members: Vec<MemberRecord>,
}

#[verifier::ext_equal]
pub struct StoredView {
    pub record: RecordView,
    pub members: Seq<MemberRecordView>,
}

impl View for StoredConflict {
    type V = StoredView;

    open spec fn view(&self) -> StoredView {
        StoredView { record: self.record@, members: self.members.deep_view() }
    }
}

impl DeepView for StoredConflict {
    type V = StoredView;

    open spec fn deep_view(&self) -> StoredView {
        self@
    }
}

// Writing.

pub open spec fn accepted_field(
    acceptance: Option<AcceptanceView>,
    field: spec_fn(AcceptanceView) -> Option<Seq<char>>,
) -> Option<Seq<char>> {
    match acceptance {
        Some(acceptance) => field(acceptance),
        None => None,
    }
}

/// The row about a conflict.
pub open spec fn record_of(conflict: ConflictView) -> RecordView {
    RecordView {
        id: conflict.id,
        kind: conflict.kind.name(),
        status: conflict.status.name(),
        evidence_hash: conflict.evidence_hash,
        decision: accepted_field(conflict.acceptance, |a: AcceptanceView| Some("keep-both"@)),
        accepted_evidence_hash: accepted_field(
            conflict.acceptance,
            |a: AcceptanceView| Some(a.evidence_hash),
        ),
        accepted_at: accepted_field(conflict.acceptance, |a: AcceptanceView| Some(a.accepted_at)),
        reason: accepted_field(conflict.acceptance, |a: AcceptanceView| a.reason),
        scope: conflict.scope.name(),
        subject_id: conflict.subject_id,
        subject: conflict.subject,
        relation: conflict.relation,
        member_count: conflict.members.len() as usize as i64,
    }
}

/// The row about a member, in its place among the members.
pub open spec fn member_record_of(member: MemberView, ordinal: nat) -> MemberRecordView {
    let fact = member.fact;
    MemberRecordView {
        ordinal: ordinal as usize as i64,
        memory_id: member.memory_id,
        memory_path: member.memory_path,
        memory_title: member.memory_title,
        excerpt: member.excerpt,
        fact_id: if fact is Some { Some(fact->Some_0.id) } else { None },
        object_id: if fact is Some { fact->Some_0.object_id } else { None },
        object_value: if fact is Some { Some(fact->Some_0.object_value) } else { None },
        valid_from: if fact is Some { fact->Some_0.valid_from } else { None },
        valid_to: if fact is Some { fact->Some_0.valid_to } else { None },
        learned_at: if fact is Some { Some(fact->Some_0.learned_at) } else { None },
        expired_at: if fact is Some { fact->Some_0.expired_at } else { None },
        confidence: if fact is Some && fact->Some_0.confidence is Some {
            Some(Reading::InRange(fact->Some_0.confidence->Some_0))
        } else {
            None
        },
        line_number: if fact is Some {
            Some(fact->Some_0.line_number as usize as i64)
        } else {
            None
        },
    }
}

pub open spec fn member_records_of(members: Seq<MemberView>) -> Seq<MemberRecordView> {
    Seq::new(members.len(), |i: int| member_record_of(members[i], i as nat))
}

/// The rows about a conflict and its members.
pub open spec fn stored_of(conflict: ConflictView) -> StoredView {
    StoredView {
        record: record_of(conflict),
        members: member_records_of(conflict.members),
    }
}

fn member_record(member: &ConflictMember, ordinal: usize) -> (record: MemberRecord)
    ensures
        record@ == member_record_of(member@, ordinal as nat),
{
    let memory_id = member.memory_id.clone();
    let memory_path = member.memory_path.clone();
    let memory_title = member.memory_title.clone();
    let excerpt = member.excerpt.clone();
    match &member.fact {
        None => MemberRecord {
            ordinal: ordinal as i64,
            memory_id,
            memory_path,
            memory_title,
            excerpt,
            fact_id: None,
            object_id: None,
            object_value: None,
            valid_from: None,
            valid_to: None,
            learned_at: None,
            expired_at: None,
            confidence: None,
            line_number: None,
        },
        Some(fact) => MemberRecord {
            ordinal: ordinal as i64,
            memory_id,
            memory_path,
            memory_title,
            excerpt,
            fact_id: Some(fact.id.clone()),
            object_id: text::clone_optional(&fact.object_id),
            object_value: Some(fact.object_value.clone()),
            valid_from: text::clone_optional(&fact.valid_from),
            valid_to: text::clone_optional(&fact.valid_to),
            learned_at: Some(fact.learned_at.clone()),
            expired_at: text::clone_optional(&fact.expired_at),
            confidence: match &fact.confidence {
                Some(confidence) => Some(ConfidenceReading::InRange(confidence.clone())),
                None => None,
            },
            line_number: Some(fact.line_number as i64),
        },
    }
}

/// Makes the rows about a conflict and its members.
pub fn conflict_rows(conflict: &Conflict) -> (stored: StoredConflict)
    ensures
        stored@ == stored_of(conflict@),
{
    let mut members: Vec<MemberRecord> = Vec::new();
    let ghost all = conflict.members.deep_view();
    let ghost wanted = member_records_of(all);
    let mut i: usize = 0;
    while i < conflict.members.len()
        invariant
            i <= conflict.members.len(),
            all == conflict.members.deep_view(),
            wanted == member_records_of(all),
            members.deep_view() == wanted.take(i as int),
        decreases conflict.members.len() - i,
    {
        let ghost before = members.deep_view();
        let record = member_record(&conflict.members[i], i);
        let ghost model = record@;
        members.push(record);
        assert(members.deep_view() =~= before.push(model));
        assert(wanted.take(i + 1) =~= wanted.take(i as int).push(wanted[i as int]));
        i = i + 1;
    }
    assert(wanted.take(i as int) =~= wanted);
    let record = ConflictRecord {
        id: conflict.id.clone(),
        kind: conflict.kind.label().to_owned(),
        status: conflict.status.label().to_owned(),
        evidence_hash: conflict.evidence_hash.clone(),
        decision: match &conflict.acceptance {
            Some(_) => Some("keep-both".to_owned()),
            None => None,
        },
        accepted_evidence_hash: match &conflict.acceptance {
            Some(acceptance) => Some(acceptance.evidence_hash.clone()),
            None => None,
        },
        accepted_at: match &conflict.acceptance {
            Some(acceptance) => Some(acceptance.accepted_at.clone()),
            None => None,
        },
        reason: match &conflict.acceptance {
            Some(acceptance) => text::clone_optional(&acceptance.reason),
            None => None,
        },
        scope: conflict.scope.label().to_owned(),
        subject_id: text::clone_optional(&conflict.subject_id),
        subject: text::clone_optional(&conflict.subject),
        relation: text::clone_optional(&conflict.relation),
        member_count: conflict.members.len() as i64,
    };
    StoredConflict { record, members }
}

// Reading a member.

/// What is said of rows that nothing could have written.
pub open spec fn invalid(before: Seq<char>, id: Seq<char>, after: Seq<char>) -> Seq<char> {
    "semantic conflict cache is invalid: "@ + before + id + after + "; run `rem rebuild`"@
}

fn invalid_cache(before: &str, id: &str, after: &str) -> (error: Error)
    ensures
        error@ == invalid(before@, id@, after@),
{
    let mut message = "semantic conflict cache is invalid: ".to_owned();
    message.append(before);
    message.append(id);
    message.append(after);
    message.append("; run `rem rebuild`");
    Error::new(message)
}

/// The place of a member behind `count` others.
pub open spec fn place(count: nat) -> int {
    if count > i64::MAX {
        i64::MAX as int
    } else {
        count as int
    }
}

/// The fact that a row holds, or what is wrong with it.
pub open spec fn fact_in(record: MemberRecordView, conflict_id: Seq<char>) -> Result<
    ConflictFactView,
    Seq<char>,
> {
    let evidence = "fact evidence in "@;
    match record.line_number {
        None => Err(invalid(evidence, conflict_id, " lacks line_number"@)),
        Some(line) => if line < 0 || line > usize::MAX {
            Err(invalid(evidence, conflict_id, " has a negative line_number"@))
        } else if line == 0 {
            Err(invalid(evidence, conflict_id, " has line_number 0"@))
        } else if record.object_value is None {
            Err(invalid(evidence, conflict_id, " lacks object_value"@))
        } else if record.learned_at is None {
            Err(invalid(evidence, conflict_id, " lacks learned_at"@))
        } else {
            Ok(
                ConflictFactView {
                    id: record.fact_id->Some_0,
                    object_id: record.object_id,
                    object_value: record.object_value->Some_0,
                    valid_from: record.valid_from,
                    valid_to: record.valid_to,
                    learned_at: record.learned_at->Some_0,
                    expired_at: record.expired_at,
                    confidence: match record.confidence {
                        Some(Reading::InRange(value)) => Some(value),
                        _ => None,
                    },
                    line_number: line as nat,
                },
            )
        },
    }
}

/// Whether a row says anything about a fact, besides which one.
pub open spec fn has_fact_fields(record: MemberRecordView) -> bool {
    record.object_id is Some || record.object_value is Some || record.valid_from is Some
        || record.valid_to is Some || record.learned_at is Some || record.expired_at is Some
        || record.confidence is Some || record.line_number is Some
}

/// The member that a row behind `count` others holds, or what is wrong with it.
pub open spec fn member_in(record: MemberRecordView, conflict_id: Seq<char>, count: nat) -> Result<
    MemberView,
    Seq<char>,
> {
    let fact = if record.fact_id is Some {
        match fact_in(record, conflict_id) {
            Ok(fact) => Ok(Some(fact)),
            Err(message) => Err(message),
        }
    } else if has_fact_fields(record) {
        Err(invalid("non-fact evidence in "@, conflict_id, " has fact fields"@))
    } else {
        Ok(None)
    };
    if record.ordinal != place(count) {
        Err(
            invalid(
                "conflict "@,
                conflict_id,
                " has ordinal "@ + signed_decimal(record.ordinal as int) + ", expected "@
                    + signed_decimal(place(count)),
            ),
        )
    } else if record.confidence is Some && !(record.confidence->Some_0 is InRange) {
        Err(invalid("conflict "@, conflict_id, " has invalid confidence"@))
    } else {
        match fact {
            Err(message) => Err(message),
            Ok(fact) => Ok(
                MemberView {
                    memory_id: record.memory_id,
                    memory_path: record.memory_path,
                    memory_title: record.memory_title,
                    excerpt: record.excerpt,
                    fact,
                },
            ),
        }
    }
}

/// The members that the rows hold, or what is wrong with the first bad one.
pub open spec fn members_in(records: Seq<MemberRecordView>, conflict_id: Seq<char>) -> Result<
    Seq<MemberView>,
    Seq<char>,
>
    decreases records.len(),
{
    if records.len() == 0 {
        Ok(seq![])
    } else {
        match members_in(records.drop_last(), conflict_id) {
            Err(message) => Err(message),
            Ok(members) => match member_in(
                records.last(),
                conflict_id,
                (records.len() - 1) as nat,
            ) {
                Err(message) => Err(message),
                Ok(member) => Ok(members.push(member)),
            },
        }
    }
}

fn read_fact(record: &MemberRecord, id: &String, conflict_id: &str) -> (fact: Result<
    ConflictFact,
    Error,
>)
    requires
        record.fact_id == Some(*id),
    ensures
        crate::error::agrees(fact, fact_in(record@, conflict_id@)),
{
    let line = match record.line_number {
        Some(line) => line,
        None => {
            return Err(invalid_cache("fact evidence in ", conflict_id, " lacks line_number"));
        },
    };
    if line < 0 || line as u64 > usize::MAX as u64 {
        return Err(invalid_cache("fact evidence in ", conflict_id, " has a negative line_number"));
    }
    if line == 0 {
        return Err(invalid_cache("fact evidence in ", conflict_id, " has line_number 0"));
    }
    let object_value = match &record.object_value {
        Some(value) => value.clone(),
        None => {
            return Err(invalid_cache("fact evidence in ", conflict_id, " lacks object_value"));
        },
    };
    let learned_at = match &record.learned_at {
        Some(value) => value.clone(),
        None => {
            return Err(invalid_cache("fact evidence in ", conflict_id, " lacks learned_at"));
        },
    };
    let confidence = match &record.confidence {
        Some(ConfidenceReading::InRange(value)) => Some(value.clone()),
        _ => None,
    };
    Ok(
        ConflictFact {
            id: id.clone(),
            object_id: text::clone_optional(&record.object_id),
            object_value,
            valid_from: text::clone_optional(&record.valid_from),
            valid_to: text::clone_optional(&record.valid_to),
            learned_at,
            expired_at: text::clone_optional(&record.expired_at),
            confidence,
            line_number: line as usize,
        },
    )
}

fn read_member(record: &MemberRecord, conflict_id: &str, count: usize) -> (member: Result<
    ConflictMember,
    Error,
>)
    ensures
        crate::error::agrees(member, member_in(record@, conflict_id@, count as nat)),
{
    let expected: i64 = if count as u64 > i64::MAX as u64 {
        i64::MAX
    } else {
        count as i64
    };
    if record.ordinal != expected {
        let mut after = " has ordinal ".to_owned();
        after.append(decimal_i64(record.ordinal).as_str());
        after.append(", expected ");
        after.append(decimal_i64(expected).as_str());
        return Err(invalid_cache("conflict ", conflict_id, after.as_str()));
    }
    let sound = match &record.confidence {
        None => true,
        Some(ConfidenceReading::InRange(_)) => true,
        _ => false,
    };
    if !sound {
        return Err(invalid_cache("conflict ", conflict_id, " has invalid confidence"));
    }
    let fact = match &record.fact_id {
        Some(id) => Some(read_fact(record, id, conflict_id)?),
        None => {
            if record.object_id.is_some() || record.object_value.is_some()
                || record.valid_from.is_some() || record.valid_to.is_some()
                || record.learned_at.is_some() || record.expired_at.is_some()
                || record.confidence.is_some() || record.line_number.is_some() {
                return Err(
                    invalid_cache("non-fact evidence in ", conflict_id, " has fact fields"),
                );
            }
            None
        },
    };
    Ok(
        ConflictMember {
            memory_id: record.memory_id.clone(),
            memory_path: record.memory_path.clone(),
            memory_title: record.memory_title.clone(),
            excerpt: record.excerpt.clone(),
            fact,
        },
    )
}

proof fn lemma_members_prefix(records: Seq<MemberRecordView>, conflict_id: Seq<char>, n: int)
    requires
        0 <= n <= records.len(),
        members_in(records.take(n), conflict_id) is Err,
    ensures
        members_in(records, conflict_id) == members_in(records.take(n), conflict_id),
    decreases records.len(),
{
    if n == records.len() {
        assert(records.take(n) =~= records);
    } else {
        assert(records.drop_last().take(n) =~= records.take(n));
        lemma_members_prefix(records.drop_last(), conflict_id, n);
    }
}

/// Reads the members of a conflict.
pub fn load_members(records: &Vec<MemberRecord>, conflict_id: &str) -> (members: Result<
    Vec<ConflictMember>,
    Error,
>)
    ensures
        match members {
            Ok(members) => members_in(records.deep_view(), conflict_id@) == Ok::<_, Seq<char>>(
                members.deep_view(),
            ),
            Err(error) => members_in(records.deep_view(), conflict_id@) == Err::<
                Seq<MemberView>,
                _,
            >(error@),
        },
{
    let mut members: Vec<ConflictMember> = Vec::new();
    let ghost all = records.deep_view();
    let mut i: usize = 0;
    assert(members.deep_view() =~= seq![]);
    while i < records.len()
        invariant
            i <= records.len(),
            all == records.deep_view(),
            members.len() == i,
            members_in(all.take(i as int), conflict_id@) == Ok::<_, Seq<char>>(
                members.deep_view(),
            ),
        decreases records.len() - i,
    {
        assert(all.take(i + 1).drop_last() =~= all.take(i as int));
        assert(all.take(i + 1).last() == records[i as int]@);
        match read_member(&records[i], conflict_id, i) {
            Err(error) => {
                proof {
                    lemma_members_prefix(all, conflict_id@, i + 1);
                }
                return Err(error);
            },
            Ok(member) => {
                let ghost before = members.deep_view();
                let ghost model = member@;
                members.push(member);
                assert(members.deep_view() =~= before.push(model));
            },
        }
        i = i + 1;
    }
    assert(all.take(i as int) =~= all);
    Ok(members)
}

// Reading a conflict.

/// The decision that a row holds, if any, or what is wrong with it.
pub open spec fn acceptance_in(record: RecordView) -> Result<Option<AcceptanceView>, Seq<char>> {
    if record.decision is None && record.accepted_evidence_hash is None && record.accepted_at is None
        && record.reason is None {
        Ok(None)
    } else if record.decision == Some("keep-both"@) && record.accepted_evidence_hash is Some
        && record.accepted_at is Some {
        let hash = record.accepted_evidence_hash->Some_0;
        let at = record.accepted_at->Some_0;
        if digest::id_problem(hash, "evidence"@) is Some {
            Err("invalid accepted evidence hash for conflict "@ + record.id)
        } else if i64_of(at) is None {
            Err(invalid("conflict "@, record.id, " has invalid accepted_at"@))
        } else if record.reason is Some && !is_reason(record.reason->Some_0) {
            Err("invalid acceptance reason for conflict "@ + record.id + "; run `rem rebuild`"@)
        } else {
            Ok(
                Some(
                    AcceptanceView { evidence_hash: hash, accepted_at: at, reason: record.reason },
                ),
            )
        }
    } else {
        Err(invalid("conflict "@, record.id, " has incomplete acceptance fields"@))
    }
}

/// Whether a status is the one that a decision brings about.
pub open spec fn status_fits(
    status: ConflictStatus,
    acceptance: Option<AcceptanceView>,
    evidence_hash: Seq<char>,
) -> bool {
    match (status, acceptance) {
        (ConflictStatus::Open, None) => true,
        (ConflictStatus::Accepted, Some(acceptance)) => acceptance.evidence_hash == evidence_hash,
        (ConflictStatus::Reopened, Some(acceptance)) => acceptance.evidence_hash != evidence_hash,
        _ => false,
    }
}

/// The count that a row declares, as a number of members.
pub open spec fn declared(member_count: i64) -> int {
    if member_count > usize::MAX {
        usize::MAX as int
    } else {
        member_count as int
    }
}

/// What is wrong with the evidence of a conflict of that kind, if anything.
pub open spec fn evidence_problem(
    kind: ConflictKind,
    record: RecordView,
    members: Seq<MemberView>,
) -> Option<Seq<char>> {
    match kind {
        ConflictKind::ExactActiveDuplicate => {
            if record.subject_id is Some || record.subject is Some || record.relation is Some {
                Some(invalid("duplicate conflict "@, record.id, " has semantic key fields"@))
            } else if some_member(members, true) {
                Some(invalid("duplicate conflict "@, record.id, " has fact evidence"@))
            } else {
                None
            }
        },
        ConflictKind::ExclusiveCurrent => {
            if record.subject_id is None || record.subject is None || record.relation is None {
                Some(invalid("exclusive conflict "@, record.id, " is missing its semantic key"@))
            } else if some_member(members, false) {
                Some(invalid("exclusive conflict "@, record.id, " is missing fact evidence"@))
            } else {
                None
            }
        },
    }
}

/// Whether one of the members rests on a fact, or one on none.
pub open spec fn some_member(members: Seq<MemberView>, with_fact: bool) -> bool {
    exists|i: int| 0 <= i < members.len() && (#[trigger] members[i]).fact is Some == with_fact
}

/// The conflict that rows hold: none where the filters leave it out, or what
/// is wrong with them.
pub open spec fn conflict_in(
    stored: StoredView,
    kind: Option<ConflictKind>,
    scope: Option<MemoryScope>,
    include_accepted: bool,
) -> Result<Option<ConflictView>, Seq<char>> {
    let record = stored.record;
    let found_kind = ConflictKind::of_name(record.kind);
    let found_status = ConflictStatus::of_name(record.status);
    let found_scope = MemoryScope::of_name(record.scope);
    if found_kind is Err || found_status is Err {
        Err("invalid conflict "@ + record.id)
    } else if found_scope is Err {
        Err("invalid scope for conflict "@ + record.id)
    } else if (kind is Some && kind != Some(found_kind->Ok_0)) || (scope is Some && scope != Some(
        found_scope->Ok_0,
    )) {
        Ok(None)
    } else if record.member_count < 2 {
        Err(
            invalid(
                "conflict "@,
                record.id,
                " has member_count="@ + signed_decimal(record.member_count as int),
            ),
        )
    } else if digest::id_problem(record.evidence_hash, "evidence"@) is Some {
        Err("invalid evidence hash for conflict "@ + record.id)
    } else {
        match acceptance_in(record) {
            Err(message) => Err(message),
            Ok(acceptance) => if !status_fits(found_status->Ok_0, acceptance, record.evidence_hash) {
                Err(invalid("conflict "@, record.id, " status does not match its acceptance"@))
            } else {
                match members_in(stored.members, record.id) {
                    Err(message) => Err(message),
                    Ok(members) => if members.len() != declared(record.member_count) {
                        Err(
                            invalid(
                                "conflict "@,
                                record.id,
                                " declares "@ + signed_decimal(record.member_count as int)
                                    + " members but stores "@ + decimal(members.len()),
                            ),
                        )
                    } else {
                        match evidence_problem(found_kind->Ok_0, record, members) {
                            Some(message) => Err(message),
                            None => if !include_accepted && found_status->Ok_0
                                == ConflictStatus::Accepted {
                                Ok(None)
                            } else {
                                Ok(
                                    Some(
                                        ConflictView {
                                            id: record.id,
                                            kind: found_kind->Ok_0,
                                            status: found_status->Ok_0,
                                            evidence_hash: record.evidence_hash,
                                            acceptance,
                                            scope: found_scope->Ok_0,
                                            subject_id: record.subject_id,
                                            subject: record.subject,
                                            relation: record.relation,
                                            members,
                                        },
                                    ),
                                )
                            },
                        }
                    },
                }
            },
        }
    }
}

fn read_acceptance(record: &ConflictRecord) -> (acceptance: Result<
    Option<ConflictAcceptance>,
    Error,
>)
    ensures
        match acceptance {
            Ok(acceptance) => acceptance_in(record@) == Ok::<_, Seq<char>>(acceptance.deep_view()),
            Err(error) => acceptance_in(record@) == Err::<Option<AcceptanceView>, _>(error@),
        },
{
    if record.decision.is_none() && record.accepted_evidence_hash.is_none()
        && record.accepted_at.is_none() && record.reason.is_none() {
        return Ok(None);
    }
    if let Some(decision) = &record.decision {
        if text::same(decision.as_str(), "keep-both") {
            if let Some(hash) = &record.accepted_evidence_hash {
                if let Some(at) = &record.accepted_at {
                    if acceptance::validate_stable_id(hash.as_str(), "evidence").is_err() {
                        return Err(
                            Error::new(
                                text::concat2(
                                    "invalid accepted evidence hash for conflict ",
                                    record.id.as_str(),
                                ),
                            ),
                        );
                    }
                    if parse_i64(at.as_str()).is_none() {
                        return Err(
                            invalid_cache(
                                "conflict ",
                                record.id.as_str(),
                                " has invalid accepted_at",
                            ),
                        );
                    }
                    if acceptance::validate_reason(
                        crate::semantic::as_slice(&record.reason),
                    ).is_err() {
                        return Err(
                            Error::new(
                                text::concat3(
                                    "invalid acceptance reason for conflict ",
                                    record.id.as_str(),
                                    "; run `rem rebuild`",
                                ),
                            ),
                        );
                    }
                    return Ok(
                        Some(
                            ConflictAcceptance {
                                evidence_hash: hash.clone(),
                                accepted_at: at.clone(),
                                reason: text::clone_optional(&record.reason),
                            },
                        ),
                    );
                }
            }
        }
    }
    Err(invalid_cache("conflict ", record.id.as_str(), " has incomplete acceptance fields"))
}

fn does_status_fit(
    status: ConflictStatus,
    acceptance: &Option<ConflictAcceptance>,
    evidence_hash: &str,
) -> (fits: bool)
    ensures
        fits == status_fits(status, acceptance.deep_view(), evidence_hash@),
{
    match (status, acceptance) {
        (ConflictStatus::Open, None) => true,
        (ConflictStatus::Accepted, Some(acceptance)) => text::same(
            acceptance.evidence_hash.as_str(),
            evidence_hash,
        ),
        (ConflictStatus::Reopened, Some(acceptance)) => !text::same(
            acceptance.evidence_hash.as_str(),
            evidence_hash,
        ),
        _ => false,
    }
}

fn is_some_member(members: &Vec<ConflictMember>, with_fact: bool) -> (found: bool)
    ensures
        found == some_member(members.deep_view(), with_fact),
{
    let mut i: usize = 0;
    while i < members.len()
        invariant
            i <= members.len(),
            forall|k: int|
                0 <= k < i ==> (#[trigger] members.deep_view()[k]).fact is Some != with_fact,
        decreases members.len() - i,
    {
        if members[i].fact.is_some() == with_fact {
            assert(members.deep_view()[i as int].fact is Some == with_fact);
            return true;
        }
        i = i + 1;
    }
    false
}

fn check_evidence(
    kind: ConflictKind,
    record: &ConflictRecord,
    members: &Vec<ConflictMember>,
) -> (checked: Result<(), Error>)
    ensures
        match checked {
            Ok(_) => evidence_problem(kind, record@, members.deep_view()) is None,
            Err(error) => evidence_problem(kind, record@, members.deep_view()) == Some(error@),
        },
{
    let id = record.id.as_str();
    match kind {
        ConflictKind::ExactActiveDuplicate => {
            if record.subject_id.is_some() || record.subject.is_some() || record.relation.is_some() {
                return Err(invalid_cache("duplicate conflict ", id, " has semantic key fields"));
            }
            if is_some_member(members, true) {
                return Err(invalid_cache("duplicate conflict ", id, " has fact evidence"));
            }
        },
        ConflictKind::ExclusiveCurrent => {
            if record.subject_id.is_none() || record.subject.is_none() || record.relation.is_none() {
                return Err(
                    invalid_cache("exclusive conflict ", id, " is missing its semantic key"),
                );
            }
            if is_some_member(members, false) {
                return Err(invalid_cache("exclusive conflict ", id, " is missing fact evidence"));
            }
        },
    }
    Ok(())
}

/// Reads a conflict from its rows, where the filters let it through.
pub fn read_conflict(
    stored: &StoredConflict,
    kind: Option<ConflictKind>,
    scope: Option<MemoryScope>,
    include_accepted: bool,
) -> (conflict: Result<Option<Conflict>, Error>)
    ensures
        match conflict {
            Ok(conflict) => conflict_in(stored@, kind, scope, include_accepted) == Ok::<
                _,
                Seq<char>,
            >(conflict.deep_view()),
            Err(error) => conflict_in(stored@, kind, scope, include_accepted) == Err::<
                Option<ConflictView>,
                _,
            >(error@),
        },
{
    let record = &stored.record;
    let id = record.id.as_str();
    let found_kind = match ConflictKind::from_label(record.kind.as_str()) {
        Ok(found) => found,
        Err(_) => {
            return Err(Error::new(text::concat2("invalid conflict ", id)));
        },
    };
    let found_status = match ConflictStatus::from_label(record.status.as_str()) {
        Ok(found) => found,
        Err(_) => {
            return Err(Error::new(text::concat2("invalid conflict ", id)));
        },
    };
    let found_scope = match MemoryScope::from_label(record.scope.as_str()) {
        Ok(found) => found,
        Err(_) => {
            return Err(Error::new(text::concat2("invalid scope for conflict ", id)));
        },
    };
    let other_kind = match kind {
        Some(kind) => kind != found_kind,
        None => false,
    };
    let other_scope = match scope {
        Some(scope) => scope != found_scope,
        None => false,
    };
    if other_kind || other_scope {
        return Ok(None);
    }
    if record.member_count < 2 {
        let after = text::concat2(" has member_count=", decimal_i64(record.member_count).as_str());
        return Err(invalid_cache("conflict ", id, after.as_str()));
    }
    if acceptance::validate_stable_id(record.evidence_hash.as_str(), "evidence").is_err() {
        return Err(Error::new(text::concat2("invalid evidence hash for conflict ", id)));
    }
    let acceptance = read_acceptance(record)?;
    if !does_status_fit(found_status, &acceptance, record.evidence_hash.as_str()) {
        return Err(invalid_cache("conflict ", id, " status does not match its acceptance"));
    }
    let members = load_members(&stored.members, id)?;
    let declared: usize = if record.member_count as u64 > usize::MAX as u64 {
        usize::MAX
    } else {
        record.member_count as usize
    };
    if members.len() != declared {
        let mut after = " declares ".to_owned();
        after.append(decimal_i64(record.member_count).as_str());
        after.append(" members but stores ");
        after.append(decimal_usize(members.len()).as_str());
        return Err(invalid_cache("conflict ", id, after.as_str()));
    }
    check_evidence(found_kind, record, &members)?;
    if !include_accepted && found_status == ConflictStatus::Accepted {
        return Ok(None);
    }
    Ok(
        Some(
            Conflict {
                id: record.id.clone(),
                kind: found_kind,
                status: found_status,
                evidence_hash: record.evidence_hash.clone(),
                acceptance,
                scope: found_scope,
                subject_id: text::clone_optional(&record.subject_id),
                subject: text::clone_optional(&record.subject),
                relation: text::clone_optional(&record.relation),
                members,
            },
        ),
    )
}

// Queries.

/// By status, kind, scope, subject, relation and id, as they are written.
pub open spec fn record_before(left: RecordView, right: RecordView) -> bool {
    if left.status != right.status {
        text_less(left.status, right.status)
    } else if left.kind != right.kind {
        text_less(left.kind, right.kind)
    } else if left.scope != right.scope {
        text_less(left.scope, right.scope)
    } else if left.subject_id != right.subject_id {
        order::optional_less(left.subject_id, right.subject_id)
    } else if left.relation != right.relation {
        order::optional_less(left.relation, right.relation)
    } else {
        text_less(left.id, right.id)
    }
}

impl Ranked for StoredConflict {
    open spec fn ranks_before(left: StoredView, right: StoredView) -> bool {
        record_before(left.record, right.record)
    }

    fn is_before(&self, other: &Self) -> (before: bool) {
        let left = &self.record;
        let right = &other.record;
        if left.status != right.status {
            order::is_less(left.status.as_str(), right.status.as_str())
        } else if left.kind != right.kind {
            order::is_less(left.kind.as_str(), right.kind.as_str())
        } else if left.scope != right.scope {
            order::is_less(left.scope.as_str(), right.scope.as_str())
        } else if !text::same_optional(&left.subject_id, &right.subject_id) {
            order::is_optional_less(&left.subject_id, &right.subject_id)
        } else if !text::same_optional(&left.relation, &right.relation) {
            order::is_optional_less(&left.relation, &right.relation)
        } else {
            order::is_less(left.id.as_str(), right.id.as_str())
        }
    }
}

/// The conflicts that the filters let through, or what is wrong with the first
/// bad one.
pub open spec fn conflicts_in(
    stored: Seq<StoredView>,
    kind: Option<ConflictKind>,
    scope: Option<MemoryScope>,
    include_accepted: bool,
) -> Result<Seq<ConflictView>, Seq<char>>
    decreases stored.len(),
{
    if stored.len() == 0 {
        Ok(seq![])
    } else {
        match conflicts_in(stored.drop_last(), kind, scope, include_accepted) {
            Err(message) => Err(message),
            Ok(conflicts) => match conflict_in(stored.last(), kind, scope, include_accepted) {
                Err(message) => Err(message),
                Ok(None) => Ok(conflicts),
                Ok(Some(conflict)) => Ok(conflicts.push(conflict)),
            },
        }
    }
}

/// What a query answers: the stored conflicts in order, through the filters.
pub open spec fn queried(
    stored: Seq<StoredView>,
    kind: Option<ConflictKind>,
    scope: Option<MemoryScope>,
    include_accepted: bool,
) -> Result<Seq<ConflictView>, Seq<char>> {
    conflicts_in(order::ranked::<StoredConflict>(stored), kind, scope, include_accepted)
}

proof fn lemma_conflicts_prefix(
    stored: Seq<StoredView>,
    kind: Option<ConflictKind>,
    scope: Option<MemoryScope>,
    include_accepted: bool,
    n: int,
)
    requires
        0 <= n <= stored.len(),
        conflicts_in(stored.take(n), kind, scope, include_accepted) is Err,
    ensures
        conflicts_in(stored, kind, scope, include_accepted) == conflicts_in(
            stored.take(n),
            kind,
            scope,
            include_accepted,
        ),
    decreases stored.len(),
{
    if n == stored.len() {
        assert(stored.take(n) =~= stored);
    } else {
        assert(stored.drop_last().take(n) =~= stored.take(n));
        lemma_conflicts_prefix(stored.drop_last(), kind, scope, include_accepted, n);
    }
}

fn query_with_accepted(
    stored: Vec<StoredConflict>,
    kind: Option<ConflictKind>,
    scope: Option<MemoryScope>,
    include_accepted: bool,
) -> (conflicts: Result<Vec<Conflict>, Error>)
    ensures
        match conflicts {
            Ok(conflicts) => queried(stored.deep_view(), kind, scope, include_accepted) == Ok::<
                _,
                Seq<char>,
            >(conflicts.deep_view()),
            Err(error) => queried(stored.deep_view(), kind, scope, include_accepted) == Err::<
                Seq<ConflictView>,
                _,
            >(error@),
        },
{
    let rows = order::sort(stored);
    let mut conflicts: Vec<Conflict> = Vec::new();
    let ghost all = rows.deep_view();
    let mut i: usize = 0;
    assert(conflicts.deep_view() =~= seq![]);
    while i < rows.len()
        invariant
            i <= rows.len(),
            all == rows.deep_view(),
            conflicts_in(all.take(i as int), kind, scope, include_accepted) == Ok::<_, Seq<char>>(
                conflicts.deep_view(),
            ),
            all == order::ranked::<StoredConflict>(stored.deep_view()),
        decreases rows.len() - i,
    {
        assert(all.take(i + 1).drop_last() =~= all.take(i as int));
        assert(all.take(i + 1).last() == rows[i as int]@);
        match read_conflict(&rows[i], kind, scope, include_accepted) {
            Err(error) => {
                proof {
                    lemma_conflicts_prefix(all, kind, scope, include_accepted, i + 1);
                }
                return Err(error);
            },
            Ok(None) => {},
            Ok(Some(conflict)) => {
                let ghost before = conflicts.deep_view();
                let ghost model = conflict@;
                conflicts.push(conflict);
                assert(conflicts.deep_view() =~= before.push(model));
            },
        }
        i = i + 1;
    }
    assert(all.take(i as int) =~= all);
    Ok(conflicts)
}

/// The stored conflicts that are not accepted.
pub fn query(
    stored: Vec<StoredConflict>,
    kind: Option<ConflictKind>,
    scope: Option<MemoryScope>,
) -> (conflicts: Result<Vec<Conflict>, Error>)
    ensures
        match conflicts {
            Ok(conflicts) => queried(stored.deep_view(), kind, scope, false) == Ok::<_, Seq<char>>(
                conflicts.deep_view(),
            ),
            Err(error) => queried(stored.deep_view(), kind, scope, false) == Err::<
                Seq<ConflictView>,
                _,
            >(error@),
        },
{
    query_with_accepted(stored, kind, scope, false)
}

/// The stored conflicts, accepted ones too.
pub fn query_all(
    stored: Vec<StoredConflict>,
    kind: Option<ConflictKind>,
    scope: Option<MemoryScope>,
) -> (conflicts: Result<Vec<Conflict>, Error>)
    ensures
        match conflicts {
            Ok(conflicts) => queried(stored.deep_view(), kind, scope, true) == Ok::<_, Seq<char>>(
                conflicts.deep_view(),
            ),
            Err(error) => queried(stored.deep_view(), kind, scope, true) == Err::<
                Seq<ConflictView>,
                _,
            >(error@),
        },
{
    query_with_accepted(stored, kind, scope, true)
}

/// The rows about conflicts that are not accepted.
pub open spec fn unaccepted(stored: Seq<StoredView>) -> Seq<StoredView> {
    stored.filter(|row: StoredView| row.record.status != "accepted"@)
}

/// How many of the stored conflicts are not accepted.
pub fn count(stored: &Vec<StoredConflict>) -> (total: usize)
    ensures
        total == unaccepted(stored.deep_view()).len(),
{
    let ghost all = stored.deep_view();
    let mut total: usize = 0;
    let mut i: usize = 0;
    proof {
        reveal(Seq::filter);
        assert(unaccepted(all.take(0)) =~= seq![]);
    }
    while i < stored.len()
        invariant
            i <= stored.len(),
            all == stored.deep_view(),
            total <= i,
            total == unaccepted(all.take(i as int)).len(),
        decreases stored.len() - i,
    {
        proof {
            reveal(Seq::filter);
            assert(all.take(i + 1).drop_last() =~= all.take(i as int));
            assert(all.take(i + 1).last() == stored[i as int]@);
        }
        if !text::same(stored[i].record.status.as_str(), "accepted") {
            total = total + 1;
        }
        i = i + 1;
    }
    assert(all.take(i as int) =~= all);
    total
}

/// The first of the conflicts with that id.
pub open spec fn with_id(conflicts: Seq<ConflictView>, id: Seq<char>) -> Option<ConflictView>
    decreases conflicts.len(),
{
    if conflicts.len() == 0 {
        None
    } else if conflicts[0].id == id {
        Some(conflicts[0])
    } else {
        with_id(conflicts.drop_first(), id)
    }
}

/// Where the conflicts whose ids begin with a text stand, in order.
pub open spec fn begins_with(conflicts: Seq<ConflictView>, prefix: Seq<char>) -> Seq<ConflictView> {
    conflicts.filter(|conflict: ConflictView| prefix.is_prefix_of(conflict.id))
}

/// The conflict that an id names, or the beginning of one.
pub open spec fn named(conflicts: Seq<ConflictView>, id_or_prefix: Seq<char>) -> Result<
    ConflictView,
    Seq<char>,
> {
    let matches = begins_with(conflicts, id_or_prefix);
    if with_id(conflicts, id_or_prefix) is Some {
        Ok(with_id(conflicts, id_or_prefix)->Some_0)
    } else if matches.len() == 0 {
        Err("no semantic conflict found for "@ + text::quoted_form(id_or_prefix))
    } else if matches.len() == 1 {
        Ok(matches[0])
    } else {
        Err(
            "semantic conflict prefix "@ + text::quoted_form(id_or_prefix) + " is ambiguous across "@
                + decimal(matches.len()) + " conflicts"@,
        )
    }
}

/// What looking for a conflict comes to.
pub open spec fn found(stored: Seq<StoredView>, id_or_prefix: Seq<char>) -> Result<
    ConflictView,
    Seq<char>,
> {
    if text::trimmed(id_or_prefix).len() == 0 {
        Err("conflict id or prefix cannot be empty"@)
    } else {
        match queried(stored, None, None, true) {
            Err(message) => Err(message),
            Ok(conflicts) => named(conflicts, id_or_prefix),
        }
    }
}

fn position_of(conflicts: &Vec<Conflict>, id: &str) -> (at: usize)
    ensures
        at <= conflicts.len(),
        at < conflicts.len() ==> with_id(conflicts.deep_view(), id@) == Some(
            conflicts.deep_view()[at as int],
        ),
        at == conflicts.len() ==> with_id(conflicts.deep_view(), id@) is None,
{
    let ghost all = conflicts.deep_view();
    let mut i: usize = 0;
    assert(all.skip(0) =~= all);
    while i < conflicts.len()
        invariant
            i <= conflicts.len(),
            all == conflicts.deep_view(),
            with_id(all, id@) == with_id(all.skip(i as int), id@),
        decreases conflicts.len() - i,
    {
        if text::same(conflicts[i].id.as_str(), id) {
            return i;
        }
        assert(all.skip(i as int).drop_first() =~= all.skip(i + 1));
        i = i + 1;
    }
    i
}

/// Finds the conflict that an id names, or the beginning of one.
pub fn find(stored: Vec<StoredConflict>, id_or_prefix: &str) -> (conflict: Result<Conflict, Error>)
    ensures
        crate::error::agrees(conflict, found(stored.deep_view(), id_or_prefix@)),
{
    if text::trim(id_or_prefix).is_empty() {
        return Err(Error::of("conflict id or prefix cannot be empty"));
    }
    let conflicts = query_all(stored, None, None)?;
    let at = position_of(&conflicts, id_or_prefix);
    if at < conflicts.len() {
        return Ok(conflicts[at].clone());
    }
    let ghost all = conflicts.deep_view();
    let ghost wanted = |conflict: ConflictView| id_or_prefix@.is_prefix_of(conflict.id);
    let mut count: usize = 0;
    let mut first: usize = 0;
    let mut i: usize = 0;
    proof {
        reveal(Seq::filter);
        assert(all.take(0).filter(wanted) =~= seq![]);
    }
    while i < conflicts.len()
        invariant
            i <= conflicts.len(),
            count <= i,
            all == conflicts.deep_view(),
            wanted == (|conflict: ConflictView| id_or_prefix@.is_prefix_of(conflict.id)),
            count == all.take(i as int).filter(wanted).len(),
            count > 0 ==> first < i && all.take(i as int).filter(wanted)[0] == all[first as int],
        decreases conflicts.len() - i,
    {
        proof {
            reveal(Seq::filter);
            assert(all.take(i + 1).drop_last() =~= all.take(i as int));
        }
        if text::starts_with(conflicts[i].id.as_str(), id_or_prefix) {
            if count == 0 {
                first = i;
            }
            count = count + 1;
        }
        i = i + 1;
    }
    assert(all.take(i as int) =~= all);
    if count == 0 {
        return Err(
            Error::new(
                text::concat2(
                    "no semantic conflict found for ",
                    text::quoted(id_or_prefix).as_str(),
                ),
            ),
        );
    }
    if count == 1 {
        return Ok(conflicts[first].clone());
    }
    let mut message = "semantic conflict prefix ".to_owned();
    message.append(text::quoted(id_or_prefix).as_str());
    message.append(" is ambiguous across ");
    message.append(decimal_usize(count).as_str());
    message.append(" conflicts");
    Err(Error::new(message))
}

/// Finds the conflict with that id.
pub fn find_exact(stored: Vec<StoredConflict>, id: &str) -> (conflict: Result<
    Option<Conflict>,
    Error,
>)
    ensures
        match queried(stored.deep_view(), None, None, true) {
            Ok(conflicts) => conflict is Ok && conflict->Ok_0.deep_view() == with_id(
                conflicts,
                id@,
            ),
            Err(message) => conflict is Err && conflict->Err_0@ == message,
        },
{
    let conflicts = query_all(stored, None, None)?;
    let at = position_of(&conflicts, id);
    if at < conflicts.len() {
        Ok(Some(conflicts[at].clone()))
    } else {
        Ok(None)
    }
}

// The tables.

/// The columns that decisions need.
pub open spec fn decision_columns() -> Seq<Seq<char>> {
    seq![
        "status"@,
        "evidence_hash"@,
        "decision"@,
        "accepted_evidence_hash"@,
        "accepted_at"@,
        "reason"@,
    ]
}

/// Whether an index can hold conflicts and the decisions about them, by which
/// tables it has and what the columns of the first are.
pub fn index_has_schema(has_conflicts: bool, has_members: bool, columns: &Vec<String>) -> (has: bool)
    ensures
        has == (has_conflicts && has_members && forall|i: int|
            0 <= i < decision_columns().len() ==> columns.deep_view().contains(
                #[trigger] decision_columns()[i],
            )),
{
    let all = has_conflicts && has_members && memory::contains_text(columns, "status")
        && memory::contains_text(columns, "evidence_hash") && memory::contains_text(
        columns,
        "decision",
    ) && memory::contains_text(columns, "accepted_evidence_hash") && memory::contains_text(
        columns,
        "accepted_at",
    ) && memory::contains_text(columns, "reason");
    proof {
        let wanted = decision_columns();
        assert(wanted[0] == "status"@);
        assert(wanted[1] == "evidence_hash"@);
        assert(wanted[2] == "decision"@);
        assert(wanted[3] == "accepted_evidence_hash"@);
        assert(wanted[4] == "accepted_at"@);
        assert(wanted[5] == "reason"@);
    }
    all
}

/// Refuses an index that is not there or does not hold conflicts.
pub fn open_index(path: &str, is_file: bool, has_schema: bool) -> (usable: Result<(), Error>)
    ensures
        match usable {
            Ok(_) => is_file && has_schema,
            Err(error) => if !is_file {
                error@ == "semantic conflict index missing at "@ + path@ + "; run `rem rebuild`"@
            } else {
                !has_schema && error@
                    == "semantic conflict cache schema missing; run `rem rebuild`"@
            },
        },
{
    if !is_file {
        return Err(
            Error::new(
                text::concat3("semantic conflict index missing at ", path, "; run `rem rebuild`"),
            ),
        );
    }
    if !has_schema {
        return Err(Error::of("semantic conflict cache schema missing; run `rem rebuild`"));
    }
    Ok(())
}

// Laws.

/// Whether a conflict is one that the rows can hold: at least two members, a
/// status that its decision brings about, and evidence of its kind.
pub open spec fn is_storable(conflict: ConflictView) -> bool {
    &&& 2 <= conflict.members.len() <= i64::MAX
    &&& conflict.members.len() <= usize::MAX
    &&& digest::id_problem(conflict.evidence_hash, "evidence"@) is None
    &&& conflict.acceptance matches Some(acceptance) ==> {
        &&& digest::id_problem(acceptance.evidence_hash, "evidence"@) is None
        &&& i64_of(acceptance.accepted_at) is Some
        &&& acceptance.reason matches Some(reason) ==> is_reason(reason)
    }
    &&& status_fits(conflict.status, conflict.acceptance, conflict.evidence_hash)
    &&& match conflict.kind {
        ConflictKind::ExactActiveDuplicate => {
            &&& conflict.subject_id is None && conflict.subject is None && conflict.relation is None
            &&& !some_member(conflict.members, true)
        },
        ConflictKind::ExclusiveCurrent => {
            &&& conflict.subject_id is Some && conflict.subject is Some && conflict.relation is Some
            &&& !some_member(conflict.members, false)
        },
    }
    &&& forall|i: int|
        0 <= i < conflict.members.len() ==> ((#[trigger] conflict.members[i]).fact matches Some(
            fact,
        ) ==> 1 <= fact.line_number <= i64::MAX && fact.line_number <= usize::MAX)
}

/// A conflict that is stored is read back as it was.
pub proof fn stored_conflict_reads_back(conflict: ConflictView)
    requires
        is_storable(conflict),
    ensures
        conflict_in(stored_of(conflict), None, None, true) == Ok::<_, Seq<char>>(Some(conflict)),
{
    conflict::conflict_kind_reads_back(conflict.kind);
    conflict::conflict_status_reads_back(conflict.status);
    memory::memory_scope_reads_back(conflict.scope);
    lemma_members_read_back(conflict, conflict.members.len());
    let records = member_records_of(conflict.members);
    assert(records.take(conflict.members.len() as int) =~= records);
    assert(conflict.members.take(conflict.members.len() as int) =~= conflict.members);
    assert(members_in(records, conflict.id) == Ok::<_, Seq<char>>(conflict.members));
    let record = record_of(conflict);
    assert(acceptance_in(record) == Ok::<_, Seq<char>>(conflict.acceptance));
    assert(record.member_count == conflict.members.len());
}

proof fn lemma_members_read_back(conflict: ConflictView, n: nat)
    requires
        is_storable(conflict),
        n <= conflict.members.len(),
    ensures
        members_in(member_records_of(conflict.members).take(n as int), conflict.id) == Ok::<
            _,
            Seq<char>,
        >(conflict.members.take(n as int)),
    decreases n,
{
    let records = member_records_of(conflict.members);
    if n > 0 {
        let i = (n - 1) as nat;
        lemma_members_read_back(conflict, i);
        assert(records.take(n as int).drop_last() =~= records.take(i as int));
        assert(records.take(n as int).last() == member_record_of(
            conflict.members[i as int],
            i,
        ));
        let member = conflict.members[i as int];
        let record = member_record_of(member, i);
        assert(record.ordinal == i);
        assert(member_in(record, conflict.id, i) == Ok::<_, Seq<char>>(member));
        assert(conflict.members.take(n as int) =~= conflict.members.take(i as int).push(member));
    } else {
        assert(records.take(0) =~= seq![]);
        assert(conflict.members.take(0) =~= seq![]);
    }
}

/// An id names its own conflict, even where other ids begin with it.
pub proof fn exact_id_wins(conflicts: Seq<ConflictView>, at: int)
    requires
        0 <= at < conflicts.len(),
        forall|i: int| 0 <= i < at ==> (#[trigger] conflicts[i]).id != conflicts[at].id,
    ensures
        named(conflicts, conflicts[at].id) == Ok::<_, Seq<char>>(conflicts[at]),
{
    lemma_with_id(conflicts, at);
}

proof fn lemma_with_id(conflicts: Seq<ConflictView>, at: int)
    requires
        0 <= at < conflicts.len(),
        forall|i: int| 0 <= i < at ==> (#[trigger] conflicts[i]).id != conflicts[at].id,
    ensures
        with_id(conflicts, conflicts[at].id) == Some(conflicts[at]),
    decreases conflicts.len(),
{
    if at > 0 {
        let rest = conflicts.drop_first();
        assert(conflicts[0].id != conflicts[at].id);
        assert forall|i: int| 0 <= i < at - 1 implies (#[trigger] rest[i]).id != rest[at - 1].id by {
            assert(rest[i] == conflicts[i + 1]);
        }
        lemma_with_id(rest, at - 1);
    }
}

} // verus!
