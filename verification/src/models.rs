//! Entities of a vault and the response records built from them.

use vstd::prelude::*;

verus! {

/// The characters of each string.
pub open spec fn strs(v: Seq<String>) -> Seq<Seq<char>> {
    v.map_values(|s: String| s@)
}

pub proof fn lemma_strs_push(s: Seq<String>, x: String)
    ensures
        strs(s.push(x)) == strs(s).push(x@),
{
    assert(strs(s.push(x)) =~= strs(s).push(x@));
}

pub proof fn lemma_strs_take_push(s: Seq<String>, i: int)
    requires
        0 <= i < s.len(),
    ensures
        strs(s).take(i + 1) == strs(s).take(i).push(s[i]@),
{
    assert(strs(s).take(i + 1) =~= strs(s).take(i).push(s[i]@));
}

/// The characters of an optional string.
pub open spec fn opt_str(o: Option<String>) -> Option<Seq<char>> {
    match o {
        Some(s) => Some(s@),
        None => None,
    }
}

/// Where an event came from and how it was last synchronised.
#[derive(Debug, Clone, PartialEq, Eq)]
pub struct EventMetadata {
    pub source_platform: String,
    pub source_account: String,
    pub source_event_id: String,
    pub source_calendar_id: String,
    pub etag: String,
    pub last_synced_at: Option<String>,
    pub recurring_event_id: String,
    pub source_updated_at: Option<String>,
}

/// A calendar event; `from_` and `to` are ISO-8601 date-times.
#[derive(Debug, Clone, PartialEq, Eq)]
pub struct EventEntity {
    pub id: String,
    pub source: String,
    pub from_: String,
    pub to: String,
    pub name: String,
    pub description: String,
    pub participants: Vec<String>,
    pub location: String,
    pub metadata: EventMetadata,
}

/// A markdown note under `notes/`.
#[derive(Debug, Clone, PartialEq, Eq)]
pub struct NoteEntity {
    pub filename: String,
    pub title: String,
    pub body_preview: String,
    pub event_ids: Vec<String>,
    pub project_ids: Vec<String>,
    pub raw_content: String,
}

/// A markdown project under `projects/`; `id` is the file stem.
#[derive(Debug, Clone, PartialEq, Eq)]
pub struct ProjectEntity {
    pub id: String,
    pub filename: String,
    pub title: String,
    pub body_preview: String,
    pub event_ids: Vec<String>,
    pub raw_content: String,
}

/// A reference such as `@before[30m]:event-id`.
#[derive(Debug, Clone, PartialEq, Eq)]
pub struct TimeReference {
    pub modifier: String,
    pub amount: i64,
    pub unit: String,
    pub target_id: String,
}

/// A markdown checkbox task. The resolved name lists hold `(id, name)` pairs with
/// distinct ids.
#[derive(Debug, Clone, PartialEq, Eq)]
pub struct TaskEntity {
    pub text: String,
    pub completed: bool,
    pub raw_line: String,
    pub source_file: String,
    pub line_number: i64,
    pub deadline: Option<String>,
    pub event_ids: Vec<String>,
    pub project_ids: Vec<String>,
    pub time_references: Vec<TimeReference>,
    pub resolved_event_names: Vec<(String, String)>,
    pub resolved_project_names: Vec<(String, String)>,
}

/// The characters of each `(id, name)` pair.
pub open spec fn pair_strs(v: Seq<(String, String)>) -> Seq<(Seq<char>, Seq<char>)> {
    v.map_values(|p: (String, String)| (p.0@, p.1@))
}

/// A time reference by its characters.
pub struct TimeRefView {
    pub modifier: Seq<char>,
    pub amount: i64,
    pub unit: Seq<char>,
    pub target_id: Seq<char>,
}

impl View for TimeReference {
    type V = TimeRefView;

    open spec fn view(&self) -> TimeRefView {
        TimeRefView {
            modifier: self.modifier@,
            amount: self.amount,
            unit: self.unit@,
            target_id: self.target_id@,
        }
    }
}

pub open spec fn time_ref_views(v: Seq<TimeReference>) -> Seq<TimeRefView> {
    v.map_values(|r: TimeReference| r@)
}

/// A task by the characters of its fields.
pub struct TaskView {
    pub text: Seq<char>,
    pub completed: bool,
    pub raw_line: Seq<char>,
    pub source_file: Seq<char>,
    pub line_number: i64,
    pub deadline: Option<Seq<char>>,
    pub event_ids: Seq<Seq<char>>,
    pub project_ids: Seq<Seq<char>>,
    pub time_references: Seq<TimeRefView>,
    pub resolved_event_names: Seq<(Seq<char>, Seq<char>)>,
    pub resolved_project_names: Seq<(Seq<char>, Seq<char>)>,
}

impl View for TaskEntity {
    type V = TaskView;

    open spec fn view(&self) -> TaskView {
        TaskView {
            text: self.text@,
            completed: self.completed,
            raw_line: self.raw_line@,
            source_file: self.source_file@,
            line_number: self.line_number,
            deadline: opt_str(self.deadline),
            event_ids: strs(self.event_ids@),
            project_ids: strs(self.project_ids@),
            time_references: time_ref_views(self.time_references@),
            resolved_event_names: pair_strs(self.resolved_event_names@),
            resolved_project_names: pair_strs(self.resolved_project_names@),
        }
    }
}

pub open spec fn task_views(v: Seq<TaskEntity>) -> Seq<TaskView> {
    v.map_values(|t: TaskEntity| t@)
}

/// Event metadata by the characters of its fields.
pub struct MetadataView {
    pub source_platform: Seq<char>,
    pub source_account: Seq<char>,
    pub source_event_id: Seq<char>,
    pub source_calendar_id: Seq<char>,
    pub etag: Seq<char>,
    pub last_synced_at: Option<Seq<char>>,
    pub recurring_event_id: Seq<char>,
    pub source_updated_at: Option<Seq<char>>,
}

impl View for EventMetadata {
    type V = MetadataView;

    open spec fn view(&self) -> MetadataView {
        MetadataView {
            source_platform: self.source_platform@,
            source_account: self.source_account@,
            source_event_id: self.source_event_id@,
            source_calendar_id: self.source_calendar_id@,
            etag: self.etag@,
            last_synced_at: opt_str(self.last_synced_at),
            recurring_event_id: self.recurring_event_id@,
            source_updated_at: opt_str(self.source_updated_at),
        }
    }
}

/// An event by the characters of its fields.
pub struct EventView {
    pub id: Seq<char>,
    pub source: Seq<char>,
    pub from_: Seq<char>,
    pub to: Seq<char>,
    pub name: Seq<char>,
    pub description: Seq<char>,
    pub participants: Seq<Seq<char>>,
    pub location: Seq<char>,
    pub metadata: MetadataView,
}

impl View for EventEntity {
    type V = EventView;

    open spec fn view(&self) -> EventView {
        EventView {
            id: self.id@,
            source: self.source@,
            from_: self.from_@,
            to: self.to@,
            name: self.name@,
            description: self.description@,
            participants: strs(self.participants@),
            location: self.location@,
            metadata: self.metadata@,
        }
    }
}

/// A page of events and the cursor of the next page.
#[derive(Debug)]
pub struct EventList {
    pub events: Vec<EventEntity>,
    pub next_cursor: Option<String>,
}

#[derive(Debug)]
pub struct NoteList {
    pub notes: Vec<NoteEntity>,
    pub next_cursor: Option<String>,
}

#[derive(Debug)]
pub struct ProjectList {
    pub projects: Vec<ProjectEntity>,
    pub next_cursor: Option<String>,
}

#[derive(Debug)]
pub struct TaskList {
    pub tasks: Vec<TaskEntity>,
    pub next_cursor: Option<String>,
}

#[derive(Debug)]
pub struct NoteContentResponse {
    pub filename: String,
    pub raw_content: String,
    pub html: String,
    pub title: String,
    pub event_ids: Vec<String>,
    pub project_ids: Vec<String>,
}

/// The vault root and the health of each expected entry, as `(name, present)` pairs.
#[derive(Debug)]
pub struct DataRootStatus {
    pub path: String,
    pub structure: Vec<(String, bool)>,
}

#[derive(Debug, Clone, PartialEq, Eq)]
pub struct VaultInfo {
    pub path: String,
    pub name: String,
}

#[derive(Debug)]
pub struct VaultStatus {
    pub current: String,
    pub recent: Vec<VaultInfo>,
}

#[derive(Debug)]
pub struct CreateEventResponse {
    pub event: EventEntity,
}

#[derive(Debug)]
pub struct UpdateEventResponse {
    pub event: EventEntity,
}

#[derive(Debug)]
pub struct CreateNoteResponse {
    pub note: NoteEntity,
}

#[derive(Debug)]
pub struct CreateTaskResponse {
    pub task: TaskEntity,
}

#[derive(Debug)]
pub struct EventSearchResponse {
    pub events: Vec<EventEntity>,
}

#[derive(Debug)]
pub struct NotesSearchResponse {
    pub notes: Vec<NoteEntity>,
}

#[derive(Debug)]
pub struct ProjectsSearchResponse {
    pub projects: Vec<ProjectEntity>,
}

#[derive(Debug)]
pub struct TasksSearchResponse {
    pub tasks: Vec<TaskEntity>,
}

#[derive(Debug, Clone, Copy, PartialEq, Eq)]
pub struct SyncGoogleCalendarResponse {
    pub created: i64,
    pub updated: i64,
    pub skipped: i64,
    pub stale: i64,
}

} // verus!
