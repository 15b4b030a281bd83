//! The entities shared by the embedder, the index and the reconciliation
//! pipeline.

use vstd::prelude::*;

verus! {

/// A JSON document, `serde_json::Value`. The library carries it through and
/// never looks inside.
#[verifier::external_type_specification]
#[verifier::external_body]
pub struct ExJsonValue(serde_json::Value);

/// `serde_json::Value::clone` builds a document equal to the one it is given.
pub assume_specification[ <serde_json::Value as Clone>::clone ](
    value: &serde_json::Value,
) -> (out: serde_json::Value)
    ensures
        out == *value,
;

/// An instant in UTC: whole seconds since the Unix epoch and the nanoseconds
/// into that second.
#[derive(Debug, Clone, Copy, PartialEq, Eq)]
pub struct Timestamp {
    pub seconds: i64,
    pub nanos: u32,
}

/// A stored unit of text with its metadata and optional scoping.
#[derive(Debug, PartialEq)]
pub struct MemoryRecord {
    /// Identity, as the text of a UUID; fixed at creation.
    pub id: String,
    pub content: String,
    /// Open key-value document, passed through untouched.
    pub metadata: serde_json::Value,
    /// Set once at creation.
    pub created_at: Timestamp,
    pub user_id: Option<String>,
    pub agent_id: Option<String>,
    pub run_id: Option<String>,
}

/// The mathematical content of a [`MemoryRecord`].
pub struct RecordView {
    pub id: Seq<char>,
    pub content: Seq<char>,
    pub metadata: serde_json::Value,
    pub created_at: Timestamp,
    pub user_id: Option<Seq<char>>,
    pub agent_id: Option<Seq<char>>,
    pub run_id: Option<Seq<char>>,
}

/// The characters of an optional string.
pub open spec fn text_of(value: Option<String>) -> Option<Seq<char>> {
    match value {
        Some(text) => Some(text@),
        None => None,
    }
}

/// A copy of an optional string.
pub fn copy_text(value: &Option<String>) -> (out: Option<String>)
    ensures
        text_of(out) == text_of(*value),
{
    match value {
        Some(text) => Some(text.clone()),
        None => None,
    }
}

impl View for MemoryRecord {
    type V = RecordView;

    open spec fn view(&self) -> RecordView {
        RecordView {
            id: self.id@,
            content: self.content@,
            metadata: self.metadata,
            created_at: self.created_at,
            user_id: text_of(self.user_id),
            agent_id: text_of(self.agent_id),
            run_id: text_of(self.run_id),
        }
    }
}

/// A digit of lower-case hexadecimal notation.
pub open spec fn is_hex_digit(c: char) -> bool {
    ('0' <= c && c <= '9') || ('a' <= c && c <= 'f')
}

/// The hyphenated form of a UUID: 36 characters, hyphens at 8, 13, 18 and
/// 23, lower-case hexadecimal digits elsewhere.
pub open spec fn is_uuid_text(text: Seq<char>) -> bool {
    &&& text.len() == 36
    &&& forall|i: int|
        0 <= i < 36 ==> if i == 8 || i == 13 || i == 18 || i == 23 {
            #[trigger] text[i] == '-'
        } else {
            is_hex_digit(#[trigger] text[i])
        }
}

/// The hyphenated form of a random UUID: version 4, variant 1.
pub open spec fn is_random_uuid_text(text: Seq<char>) -> bool {
    &&& is_uuid_text(text)
    &&& text[14] == '4'
    &&& (text[19] == '8' || text[19] == '9' || text[19] == 'a' || text[19] == 'b')
}

/// A new identity: `uuid::Uuid::new_v4` draws a random UUID of version 4,
/// and its `to_string` writes it in hyphenated lower-case form. Which UUID
/// comes is left open. The draw fails only where the system has no source
/// of randomness.
#[verifier::external_body]
fn fresh_id() -> (id: String)
    ensures
        is_random_uuid_text(id@),
{
    uuid::Uuid::new_v4().to_string()
}

/// An instant as the clock gives it: not before the epoch, the nanoseconds
/// below two seconds.
pub open spec fn is_clock_time(instant: Timestamp) -> bool {
    instant.seconds >= 0 && instant.nanos < 2_000_000_000
}

/// The present instant by `chrono::Utc::now`, as seconds and nanoseconds
/// since the Unix epoch. The instant is not before the epoch, and the
/// nanoseconds stay below two seconds (a leap second counts on from one);
/// no more is claimed. The call fails only where the system clock stands
/// before the epoch.
#[verifier::external_body]
fn current_time() -> (now: Timestamp)
    ensures
        is_clock_time(now),
{
    let now = chrono::Utc::now();
    Timestamp { seconds: now.timestamp(), nanos: now.timestamp_subsec_nanos() }
}

/// What makes a record new: its identity and its time of creation.
#[derive(Debug, PartialEq, Eq)]
pub struct Stamp {
    pub id: String,
    pub created_at: Timestamp,
}

/// The mathematical content of a [`Stamp`].
pub struct StampView {
    pub id: Seq<char>,
    pub created_at: Timestamp,
}

impl View for Stamp {
    type V = StampView;

    open spec fn view(&self) -> StampView {
        StampView { id: self.id@, created_at: self.created_at }
    }
}

impl Clone for Stamp {
    fn clone(&self) -> (out: Stamp)
        ensures
            out@ == self@,
    {
        Stamp { id: self.id.clone(), created_at: self.created_at }
    }
}

/// The contents of a list of stamps.
pub open spec fn stamp_views(stamps: Seq<Stamp>) -> Seq<StampView> {
    stamps.map_values(|s: Stamp| s@)
}

/// A stamp as a draw gives it: the text of a random UUID and an instant of
/// the clock.
pub open spec fn is_drawn(stamp: StampView) -> bool {
    is_random_uuid_text(stamp.id) && is_clock_time(stamp.created_at)
}

/// Every stamp is as a draw gives it.
pub open spec fn are_drawn(stamps: Seq<StampView>) -> bool {
    forall|i: int| 0 <= i < stamps.len() ==> is_drawn(#[trigger] stamps[i])
}

impl Stamp {
    /// A fresh identity and the present time.
    pub fn draw() -> (stamp: Stamp)
        ensures
            is_drawn(stamp@),
    {
        Stamp { id: fresh_id(), created_at: current_time() }
    }

    /// As many stamps as asked for, each drawn in turn.
    pub fn draw_many(n: usize) -> (stamps: Vec<Stamp>)
        ensures
            stamps@.len() == n,
            are_drawn(stamp_views(stamps@)),
    {
        let mut stamps: Vec<Stamp> = Vec::new();
        let mut i: usize = 0;
        while i < n
            invariant
                i <= n,
                stamps@.len() == i,
                forall|j: int| 0 <= j < i ==> is_drawn(#[trigger] stamp_views(stamps@)[j]),
            decreases n - i,
        {
            let ghost before = stamp_views(stamps@);
            let stamp = Stamp::draw();
            let ghost drawn = stamp@;
            stamps.push(stamp);
            assert(stamp_views(stamps@) =~= before.push(drawn));
            i = i + 1;
        }
        stamps
    }
}

impl MemoryRecord {
    /// A record put together from its parts.
    pub fn assemble(
        id: String,
        created_at: Timestamp,
        content: &str,
        metadata: serde_json::Value,
        user_id: Option<String>,
        agent_id: Option<String>,
        run_id: Option<String>,
    ) -> (record: MemoryRecord)
        ensures
            record@ == (RecordView {
                id: id@,
                content: content@,
                metadata,
                created_at,
                user_id: text_of(user_id),
                agent_id: text_of(agent_id),
                run_id: text_of(run_id),
            }),
    {
        MemoryRecord {
            id,
            content: content.to_owned(),
            metadata,
            created_at,
            user_id,
            agent_id,
            run_id,
        }
    }

    /// A new record without scoping, with a fresh identity and the present
    /// time.
    pub fn new(content: &str, metadata: serde_json::Value) -> (record: MemoryRecord)
        ensures
            is_random_uuid_text(record@.id),
            is_clock_time(record@.created_at),
            record@ == (RecordView {
                id: record@.id,
                content: content@,
                metadata,
                created_at: record@.created_at,
                user_id: None,
                agent_id: None,
                run_id: None,
            }),
    {
        let stamp = Stamp::draw();
        MemoryRecord::assemble(stamp.id, stamp.created_at, content, metadata, None, None, None)
    }

    /// A new record with scoping, with a fresh identity and the present
    /// time.
    pub fn with_scoping(
        content: &str,
        metadata: serde_json::Value,
        user_id: Option<String>,
        agent_id: Option<String>,
        run_id: Option<String>,
    ) -> (record: MemoryRecord)
        ensures
            is_random_uuid_text(record@.id),
            is_clock_time(record@.created_at),
            record@ == (RecordView {
                id: record@.id,
                content: content@,
                metadata,
                created_at: record@.created_at,
                user_id: text_of(user_id),
                agent_id: text_of(agent_id),
                run_id: text_of(run_id),
            }),
    {
        let stamp = Stamp::draw();
        MemoryRecord::assemble(
            stamp.id,
            stamp.created_at,
            content,
            metadata,
            user_id,
            agent_id,
            run_id,
        )
    }

    /// Replaces the content; identity, creation time, metadata and scoping
    /// stay.
    pub fn update_content(&mut self, content: &str)
        ensures
            final(self)@ == (RecordView { content: content@, ..old(self)@ }),
    {
        self.content = content.to_owned();
    }
}

impl Clone for MemoryRecord {
    fn clone(&self) -> (out: MemoryRecord)
        ensures
            out@ == self@,
    {
        MemoryRecord {
            id: self.id.clone(),
            content: self.content.clone(),
            metadata: self.metadata.clone(),
            created_at: self.created_at,
            user_id: copy_text(&self.user_id),
            agent_id: copy_text(&self.agent_id),
            run_id: copy_text(&self.run_id),
        }
    }
}

/// A record with its similarity to a query, in millionths.
#[derive(Debug, PartialEq)]
pub struct ScoredMemory {
    pub record: MemoryRecord,
    pub score: i32,
}

/// The mathematical content of a [`ScoredMemory`].
pub struct ScoredView {
    pub record: RecordView,
    pub score: int,
}

impl View for ScoredMemory {
    type V = ScoredView;

    open spec fn view(&self) -> ScoredView {
        ScoredView { record: self.record@, score: self.score as int }
    }
}

impl Clone for ScoredMemory {
    fn clone(&self) -> (out: ScoredMemory)
        ensures
            out@ == self@,
    {
        ScoredMemory { record: self.record.clone(), score: self.score }
    }
}

/// The contents of a list of records.
pub open spec fn record_views(records: Seq<MemoryRecord>) -> Seq<RecordView> {
    records.map_values(|r: MemoryRecord| r@)
}

/// The contents of a list of scored records.
pub open spec fn scored_views(items: Seq<ScoredMemory>) -> Seq<ScoredView> {
    items.map_values(|m: ScoredMemory| m@)
}

/// One scoping condition: equality on one of the three scoping attributes.
#[derive(Debug, Clone, PartialEq, Eq)]
pub enum Condition {
    UserId(String),
    AgentId(String),
    RunId(String),
}

/// The mathematical content of a [`Condition`].
pub enum ConditionView {
    UserId(Seq<char>),
    AgentId(Seq<char>),
    RunId(Seq<char>),
}

impl View for Condition {
    type V = ConditionView;

    open spec fn view(&self) -> ConditionView {
        match *self {
            Condition::UserId(id) => ConditionView::UserId(id@),
            Condition::AgentId(id) => ConditionView::AgentId(id@),
            Condition::RunId(id) => ConditionView::RunId(id@),
        }
    }
}

/// How the conditions of a filter combine.
#[derive(Debug, Clone, Copy, PartialEq, Eq)]
pub enum FilterLogic {
    /// Every condition must hold; no condition at all lets every record pass.
    And,
    /// At least one condition must hold; no condition at all lets none pass.
    Or,
}

/// A set of scoping conditions.
#[derive(Debug, Clone, PartialEq, Eq)]
pub struct Filters {
    pub conditions: Vec<Condition>,
    pub logic: FilterLogic,
}

/// The mathematical content of a [`Filters`].
pub struct FiltersView {
    pub conditions: Seq<ConditionView>,
    pub logic: FilterLogic,
}

impl View for Filters {
    type V = FiltersView;

    open spec fn view(&self) -> FiltersView {
        FiltersView {
            conditions: self.conditions@.map_values(|c: Condition| c@),
            logic: self.logic,
        }
    }
}

/// The record meets the condition.
pub open spec fn condition_holds(condition: ConditionView, record: RecordView) -> bool {
    match condition {
        ConditionView::UserId(id) => record.user_id == Some(id),
        ConditionView::AgentId(id) => record.agent_id == Some(id),
        ConditionView::RunId(id) => record.run_id == Some(id),
    }
}

/// The record meets the filter.
pub open spec fn filters_match(filters: FiltersView, record: RecordView) -> bool {
    match filters.logic {
        FilterLogic::And => forall|i: int|
            0 <= i < filters.conditions.len() ==> condition_holds(
                #[trigger] filters.conditions[i],
                record,
            ),
        FilterLogic::Or => exists|i: int|
            0 <= i < filters.conditions.len() && condition_holds(
                #[trigger] filters.conditions[i],
                record,
            ),
    }
}

/// The record meets the filter, or there is no filter.
pub open spec fn passes(filter: Option<FiltersView>, record: RecordView) -> bool {
    match filter {
        Some(filters) => filters_match(filters, record),
        None => true,
    }
}

/// The content of an optional filter.
pub open spec fn filter_view(filter: Option<&Filters>) -> Option<FiltersView> {
    match filter {
        Some(filters) => Some(filters@),
        None => None,
    }
}

/// `value` is present and spells `wanted`.
pub fn text_is(value: &Option<String>, wanted: &String) -> (same: bool)
    ensures
        same == (text_of(*value) == Some(wanted@)),
{
    match value {
        Some(text) => *text == *wanted,
        None => false,
    }
}

impl Condition {
    /// Whether the record meets this condition.
    pub fn holds(&self, record: &MemoryRecord) -> (held: bool)
        ensures
            held == condition_holds(self@, record@),
    {
        match self {
            Condition::UserId(id) => text_is(&record.user_id, id),
            Condition::AgentId(id) => text_is(&record.agent_id, id),
            Condition::RunId(id) => text_is(&record.run_id, id),
        }
    }
}

impl Filters {
    /// Whether the record meets this filter.
    pub fn matches(&self, record: &MemoryRecord) -> (met: bool)
        ensures
            met == filters_match(self@, record@),
    {
        let n: usize = self.conditions.len();
        let mut i: usize = 0;
        match self.logic {
            FilterLogic::And => {
                while i < n
                    invariant
                        n == self.conditions.len(),
                        i <= n,
                        self.logic == FilterLogic::And,
                        forall|j: int|
                            0 <= j < i ==> condition_holds(#[trigger] self@.conditions[j], record@),
                    decreases n - i,
                {
                    if !self.conditions[i].holds(record) {
                        assert(!condition_holds(self@.conditions[i as int], record@));
                        return false;
                    }
                    i = i + 1;
                }
                true
            },
            FilterLogic::Or => {
                while i < n
                    invariant
                        n == self.conditions.len(),
                        i <= n,
                        self.logic == FilterLogic::Or,
                        forall|j: int|
                            0 <= j < i ==> !condition_holds(#[trigger] self@.conditions[j], record@),
                    decreases n - i,
                {
                    if self.conditions[i].holds(record) {
                        assert(condition_holds(self@.conditions[i as int], record@));
                        return true;
                    }
                    i = i + 1;
                }
                false
            },
        }
    }
}

/// Whether the record meets the filter, or there is no filter.
pub fn passes_filter(filter: Option<&Filters>, record: &MemoryRecord) -> (met: bool)
    ensures
        met == passes(filter_view(filter), record@),
{
    match filter {
        Some(filters) => filters.matches(record),
        None => true,
    }
}

} // verus!
