//! The vault index: the in-memory SQLite tables that the list pages query, the rows a
//! page query returns, and reading those rows back into entities.

use rusqlite::params_from_iter;
use vstd::prelude::*;
use crate::events::empty_metadata;
use crate::json::{json_document, member_of, parse_json, JsonValue};
use crate::models::{
    lemma_strs_push, opt_str, pair_strs, strs, time_ref_views, EventEntity, EventMetadata, NoteEntity, ProjectEntity,
    EventView, MetadataView, TaskEntity, TaskView, TimeRefView, TimeReference,
};
use crate::numbers::{int_text, parse_i64, parsed_i64};
use crate::queries::{events_binds, events_page_query, events_sql, notes_binds, notes_page_query, notes_sql, projects_page_query, projects_sql, quoted, tasks_binds, tasks_page_query, tasks_sql, IndexQuery};
use crate::repository::{cursor_offset, normalize_page_size, page_of, page_size_of, parse_cursor};
use crate::watcher::lex_lt;
use crate::text::chars_of;

verus! {

/// The strings of a JSON array whose items are all strings; none for any other value.
pub open spec fn json_str_list(v: JsonValue) -> Option<Seq<Seq<char>>> {
    match v {
        JsonValue::Array(xs) => if forall|i: int| 0 <= i < xs@.len() ==> (#[trigger] xs@[i]) is Str {
            Some(xs@.map_values(|x: JsonValue| x->Str_0@))
        } else {
            None
        },
        _ => None,
    }
}

/// A stored list of strings read back: empty when the text is not such a list.
pub open spec fn stored_strings(text: Seq<char>) -> Seq<Seq<char>> {
    match json_document(text) {
        Some(v) => match json_str_list(v) {
            Some(l) => l,
            None => Seq::empty(),
        },
        None => Seq::empty(),
    }
}

fn str_list_of(v: &JsonValue) -> (r: Option<Vec<String>>)
    ensures
        match json_str_list(*v) {
            Some(l) => r matches Some(x) && strs(x@) == l,
            None => r is None,
        },
{
    match v {
        JsonValue::Array(xs) => {
            let mut out: Vec<String> = Vec::new();
            let mut i: usize = 0;
            while i < xs.len()
                invariant
                    i <= xs.len(),
                    *v == JsonValue::Array(*xs),
                    forall|j: int| 0 <= j < i ==> (#[trigger] xs@[j]) is Str,
                    strs(out@) == xs@.take(i as int).map_values(|x: JsonValue| x->Str_0@),
                decreases xs.len() - i,
            {
                match &xs[i] {
                    JsonValue::Str(s) => {
                        let ghost old = out@;
                        out.push(s.clone());
                        proof {
                            lemma_strs_push(old, out@.last());
                        }
                        assert(xs@.take(i + 1).map_values(|x: JsonValue| x->Str_0@) =~= xs@.take(
                            i as int,
                        ).map_values(|x: JsonValue| x->Str_0@).push(s@));
                    },
                    _ => {
                        return None;
                    },
                }
                i = i + 1;
            }
            assert(xs@.take(xs@.len() as int) =~= xs@);
            Some(out)
        },
        _ => None,
    }
}

/// Reads a stored list of strings.
pub fn read_strings(text: &String) -> (r: Vec<String>)
    ensures
        strs(r@) == stored_strings(text@),
{
    let none: Vec<String> = Vec::new();
    assert(strs(none@) =~= Seq::<Seq<char>>::empty());
    match parse_json(text.as_str()) {
        Some(v) => match str_list_of(&v) {
            Some(l) => l,
            None => none,
        },
        None => none,
    }
}

/// A JSON object as a time reference: the string members `modifier`, `unit` and
/// `target_id` and the integer member `amount`.
pub open spec fn json_time_ref(v: JsonValue) -> Option<TimeRefView> {
    match v {
        JsonValue::Object(m) => match (
            member_of(m@, "modifier"@),
            member_of(m@, "amount"@),
            member_of(m@, "unit"@),
            member_of(m@, "target_id"@),
        ) {
            (Some(JsonValue::Str(a)), Some(JsonValue::Number(n)), Some(JsonValue::Str(u)), Some(JsonValue::Str(t))) => {
                match parsed_i64(n@) {
                    Some(k) => Some(TimeRefView { modifier: a@, amount: k, unit: u@, target_id: t@ }),
                    None => None,
                }
            },
            _ => None,
        },
        _ => None,
    }
}

/// A JSON array of exactly two strings as a pair.
pub open spec fn json_pair(v: JsonValue) -> Option<(Seq<char>, Seq<char>)> {
    match v {
        JsonValue::Array(xs) => if xs@.len() == 2 && xs@[0] is Str && xs@[1] is Str {
            Some((xs@[0]->Str_0@, xs@[1]->Str_0@))
        } else {
            None
        },
        _ => None,
    }
}

/// A stored list of time references read back: empty unless every item reads as one.
pub open spec fn stored_time_refs(text: Seq<char>) -> Seq<TimeRefView> {
    match json_document(text) {
        Some(JsonValue::Array(xs)) => if forall|i: int| 0 <= i < xs@.len() ==> (#[trigger] json_time_ref(xs@[i])) is Some {
            xs@.map_values(|x: JsonValue| json_time_ref(x)->0)
        } else {
            Seq::empty()
        },
        _ => Seq::empty(),
    }
}

/// A stored list of `(id, name)` pairs read back: empty unless every item reads as one.
pub open spec fn stored_pairs(text: Seq<char>) -> Seq<(Seq<char>, Seq<char>)> {
    match json_document(text) {
        Some(JsonValue::Array(xs)) => if forall|i: int| 0 <= i < xs@.len() ==> (#[trigger] json_pair(xs@[i])) is Some {
            xs@.map_values(|x: JsonValue| json_pair(x)->0)
        } else {
            Seq::empty()
        },
        _ => Seq::empty(),
    }
}

fn member_text(m: &Vec<(String, JsonValue)>, key: &str) -> (r: Option<String>)
    ensures
        match member_of(m@, key@) {
            Some(JsonValue::Str(s)) => r matches Some(x) && x@ == s@,
            _ => r is None,
        },
{
    match get_member_of(m, key) {
        Some(JsonValue::Str(s)) => Some(s.clone()),
        _ => None,
    }
}

fn get_member_of<'a>(m: &'a Vec<(String, JsonValue)>, key: &str) -> (r: Option<&'a JsonValue>)
    ensures
        match member_of(m@, key@) {
            Some(x) => r matches Some(y) && *y == x,
            None => r is None,
        },
{
    let mut i: usize = 0;
    assert(m@.skip(0) =~= m@);
    while i < m.len()
        invariant
            i <= m.len(),
            member_of(m@, key@) == member_of(m@.skip(i as int), key@),
        decreases m.len() - i,
    {
        assert(m@.skip(i as int)[0] == m@[i as int]);
        assert(m@.skip(i as int).drop_first() =~= m@.skip(i + 1));
        if crate::storage::string_eq(&m[i].0, key) {
            return Some(&m[i].1);
        }
        i = i + 1;
    }
    None
}

fn time_ref_of(v: &JsonValue) -> (r: Option<TimeReference>)
    ensures
        match json_time_ref(*v) {
            Some(t) => r matches Some(x) && x@ == t,
            None => r is None,
        },
{
    match v {
        JsonValue::Object(m) => {
            let a = member_text(m, "modifier");
            let u = member_text(m, "unit");
            let t = member_text(m, "target_id");
            let k = match get_member_of(m, "amount") {
                Some(JsonValue::Number(n)) => parse_i64(&chars_of(n.as_str())),
                _ => None,
            };
            match (a, k, u, t) {
                (Some(a), Some(k), Some(u), Some(t)) => Some(TimeReference { modifier: a, amount: k, unit: u, target_id: t }),
                _ => None,
            }
        },
        _ => None,
    }
}

fn pair_of(v: &JsonValue) -> (r: Option<(String, String)>)
    ensures
        match json_pair(*v) {
            Some(p) => r matches Some(x) && x.0@ == p.0 && x.1@ == p.1,
            None => r is None,
        },
{
    match v {
        JsonValue::Array(xs) => {
            if xs.len() != 2 {
                return None;
            }
            match (&xs[0], &xs[1]) {
                (JsonValue::Str(a), JsonValue::Str(b)) => Some((a.clone(), b.clone())),
                _ => None,
            }
        },
        _ => None,
    }
}

/// Reads a stored list of time references.
pub fn read_time_refs(text: &String) -> (r: Vec<TimeReference>)
    ensures
        time_ref_views(r@) == stored_time_refs(text@),
{
    let none: Vec<TimeReference> = Vec::new();
    assert(time_ref_views(none@) =~= Seq::<TimeRefView>::empty());
    match parse_json(text.as_str()) {
        Some(JsonValue::Array(xs)) => {
            let mut out: Vec<TimeReference> = Vec::new();
            let mut i: usize = 0;
            while i < xs.len()
                invariant
                    i <= xs.len(),
                    time_ref_views(none@) == Seq::<TimeRefView>::empty(),
                    json_document(text@) == Some(JsonValue::Array(xs)),
                    forall|j: int| 0 <= j < i ==> (#[trigger] json_time_ref(xs@[j])) is Some,
                    time_ref_views(out@) == xs@.take(i as int).map_values(|x: JsonValue| json_time_ref(x)->0),
                decreases xs.len() - i,
            {
                match time_ref_of(&xs[i]) {
                    Some(t) => {
                        let ghost old = out@;
                        out.push(t);
                        assert(time_ref_views(out@) =~= time_ref_views(old).push(out@.last()@));
                        assert(xs@.take(i + 1).map_values(|x: JsonValue| json_time_ref(x)->0) =~= xs@.take(
                            i as int,
                        ).map_values(|x: JsonValue| json_time_ref(x)->0).push(json_time_ref(xs@[i as int])->0));
                    },
                    None => {
                        assert(json_time_ref(xs@[i as int]) is None);
                        return none;
                    },
                }
                i = i + 1;
            }
            assert(xs@.take(xs@.len() as int) =~= xs@);
            out
        },
        _ => none,
    }
}

/// Reads a stored list of `(id, name)` pairs.
pub fn read_pairs(text: &String) -> (r: Vec<(String, String)>)
    ensures
        pair_strs(r@) == stored_pairs(text@),
{
    let none: Vec<(String, String)> = Vec::new();
    assert(pair_strs(none@) =~= Seq::<(Seq<char>, Seq<char>)>::empty());
    match parse_json(text.as_str()) {
        Some(JsonValue::Array(xs)) => {
            let mut out: Vec<(String, String)> = Vec::new();
            let mut i: usize = 0;
            while i < xs.len()
                invariant
                    i <= xs.len(),
                    pair_strs(none@) == Seq::<(Seq<char>, Seq<char>)>::empty(),
                    json_document(text@) == Some(JsonValue::Array(xs)),
                    forall|j: int| 0 <= j < i ==> (#[trigger] json_pair(xs@[j])) is Some,
                    pair_strs(out@) == xs@.take(i as int).map_values(|x: JsonValue| json_pair(x)->0),
                decreases xs.len() - i,
            {
                match pair_of(&xs[i]) {
                    Some(p) => {
                        let ghost old = out@;
                        out.push(p);
                        assert(pair_strs(out@) =~= pair_strs(old).push((out@.last().0@, out@.last().1@)));
                        assert(xs@.take(i + 1).map_values(|x: JsonValue| json_pair(x)->0) =~= xs@.take(
                            i as int,
                        ).map_values(|x: JsonValue| json_pair(x)->0).push(json_pair(xs@[i as int])->0));
                    },
                    None => {
                        assert(json_pair(xs@[i as int]) is None);
                        return none;
                    },
                }
                i = i + 1;
            }
            assert(xs@.take(xs@.len() as int) =~= xs@);
            out
        },
        _ => none,
    }
}

/// The member `key` is absent or a string.
pub open spec fn text_ok(m: Seq<(String, JsonValue)>, key: Seq<char>) -> bool {
    match member_of(m, key) {
        None => true,
        Some(JsonValue::Str(_)) => true,
        _ => false,
    }
}

/// The member `key` is absent, null or a string.
pub open spec fn opt_ok(m: Seq<(String, JsonValue)>, key: Seq<char>) -> bool {
    match member_of(m, key) {
        None => true,
        Some(JsonValue::Null) => true,
        Some(JsonValue::Str(_)) => true,
        _ => false,
    }
}

/// The string member `key`, or `d` when it is absent.
pub open spec fn text_or(m: Seq<(String, JsonValue)>, key: Seq<char>, d: Seq<char>) -> Seq<char> {
    match member_of(m, key) {
        Some(JsonValue::Str(s)) => s@,
        _ => d,
    }
}

/// The string member `key`, if it is one.
pub open spec fn opt_text(m: Seq<(String, JsonValue)>, key: Seq<char>) -> Option<Seq<char>> {
    match member_of(m, key) {
        Some(JsonValue::Str(s)) => Some(s@),
        _ => None,
    }
}

/// Every member of stored metadata has its kind.
pub open spec fn metadata_ok(m: Seq<(String, JsonValue)>) -> bool {
    &&& text_ok(m, "source_platform"@) && text_ok(m, "source_account"@) && text_ok(m, "source_event_id"@)
    &&& text_ok(m, "source_calendar_id"@) && text_ok(m, "etag"@) && opt_ok(m, "last_synced_at"@)
    &&& text_ok(m, "recurring_event_id"@) && opt_ok(m, "source_updated_at"@)
}

/// Stored metadata read back: an object's members (the platform `local` when absent,
/// other texts empty); empty metadata when the text is not such an object.
pub open spec fn stored_metadata(text: Seq<char>) -> MetadataView {
    match json_document(text) {
        Some(JsonValue::Object(m)) => if metadata_ok(m@) {
            MetadataView {
                source_platform: text_or(m@, "source_platform"@, "local"@),
                source_account: text_or(m@, "source_account"@, Seq::empty()),
                source_event_id: text_or(m@, "source_event_id"@, Seq::empty()),
                source_calendar_id: text_or(m@, "source_calendar_id"@, Seq::empty()),
                etag: text_or(m@, "etag"@, Seq::empty()),
                last_synced_at: opt_text(m@, "last_synced_at"@),
                recurring_event_id: text_or(m@, "recurring_event_id"@, Seq::empty()),
                source_updated_at: opt_text(m@, "source_updated_at"@),
            }
        } else {
            empty_metadata()
        },
        _ => empty_metadata(),
    }
}

fn member_ok(m: &Vec<(String, JsonValue)>, key: &str, nullable: bool) -> (b: bool)
    ensures
        b == (if nullable { opt_ok(m@, key@) } else { text_ok(m@, key@) }),
{
    match get_member_of(m, key) {
        None => true,
        Some(JsonValue::Str(_)) => true,
        Some(JsonValue::Null) => nullable,
        _ => false,
    }
}

fn text_member_or(m: &Vec<(String, JsonValue)>, key: &str, d: &str) -> (r: String)
    ensures
        r@ == text_or(m@, key@, d@),
{
    match member_text(m, key) {
        Some(s) => s,
        None => crate::text::string_of(&chars_of(d)),
    }
}

/// Reads stored event metadata.
pub fn read_metadata(text: &String) -> (r: EventMetadata)
    ensures
        r@ == stored_metadata(text@),
{
    match parse_json(text.as_str()) {
        Some(JsonValue::Object(m)) => {
            if member_ok(&m, "source_platform", false) && member_ok(&m, "source_account", false)
                && member_ok(&m, "source_event_id", false) && member_ok(&m, "source_calendar_id", false)
                && member_ok(&m, "etag", false) && member_ok(&m, "last_synced_at", true)
                && member_ok(&m, "recurring_event_id", false) && member_ok(&m, "source_updated_at", true) {
                assert(""@ == Seq::<char>::empty()) by {
                    reveal_strlit("");
                }
                EventMetadata {
                    source_platform: text_member_or(&m, "source_platform", "local"),
                    source_account: text_member_or(&m, "source_account", ""),
                    source_event_id: text_member_or(&m, "source_event_id", ""),
                    source_calendar_id: text_member_or(&m, "source_calendar_id", ""),
                    etag: text_member_or(&m, "etag", ""),
                    last_synced_at: member_text(&m, "last_synced_at"),
                    recurring_event_id: text_member_or(&m, "recurring_event_id", ""),
                    source_updated_at: member_text(&m, "source_updated_at"),
                }
            } else {
                crate::events::default_metadata()
            }
        },
        _ => crate::events::default_metadata(),
    }
}

#[verifier::external_type_specification]
#[verifier::external_body]
pub struct ExConnection(rusqlite::Connection);

/// One row of the tasks table, its columns as stored (the lists as JSON text).
#[derive(Debug)]
pub struct TaskRow {
    pub rowid: i64,
    pub text: String,
    pub completed: i64,
    pub raw_line: String,
    pub source_file: String,
    pub line_number: i64,
    pub deadline: Option<String>,
    pub event_ids: String,
    pub project_ids: String,
    pub time_references: String,
    pub resolved_event_names: String,
    pub resolved_project_names: String,
}

/// One row of the events table, its columns as stored (participants and metadata as
/// JSON text).
#[derive(Debug)]
pub struct EventRow {
    pub id: String,
    pub source: String,
    pub from_: String,
    pub to: String,
    pub name: String,
    pub description: String,
    pub participants: String,
    pub location: String,
    pub metadata: String,
}

/// `p` occurs in `s`.
pub open spec fn has_sub(s: Seq<char>, p: Seq<char>) -> bool {
    exists|i: int| 0 <= i && i + p.len() <= s.len() && #[trigger] s.subrange(i, i + p.len()) == p
}

/// `a` comes no later than `b` in the tasks page order: by file (code-point order), then
/// line, then row id.
pub open spec fn task_row_le(a: TaskRow, b: TaskRow) -> bool {
    ||| lex_lt(a.source_file@, b.source_file@)
    ||| a.source_file@ == b.source_file@ && (a.line_number < b.line_number || (a.line_number == b.line_number
        && a.rowid <= b.rowid))
}

/// A row meets the tasks page filters: a deadline at or after `deadline_from` and at or
/// before `deadline_to` (code-point order), and the quoted ids in the stored id lists.
pub open spec fn task_row_selected(
    r: TaskRow,
    deadline_from: Option<&str>,
    deadline_to: Option<&str>,
    event_id: Option<&str>,
    project_id: Option<&str>,
) -> bool {
    &&& deadline_from matches Some(f) ==> (r.deadline matches Some(d) && !lex_lt(d@, f@))
    &&& deadline_to matches Some(t) ==> (r.deadline matches Some(d) && !lex_lt(t@, d@))
    &&& event_id matches Some(e) ==> has_sub(r.event_ids@, quoted(e@))
    &&& project_id matches Some(q) ==> has_sub(r.project_ids@, quoted(q@))
}

/// `a` comes no later than `b` in the events page order: by start, end, then id.
pub open spec fn event_row_le(a: EventRow, b: EventRow) -> bool {
    ||| lex_lt(a.from_@, b.from_@)
    ||| a.from_@ == b.from_@ && (lex_lt(a.to@, b.to@) || (a.to@ == b.to@ && !lex_lt(b.id@, a.id@)))
}

/// A row meets the events page filters: ending at or after `from_`, starting at or
/// before `to`.
pub open spec fn event_row_selected(r: EventRow, from_: Option<&str>, to: Option<&str>) -> bool {
    &&& from_ matches Some(f) ==> !lex_lt(r.to@, f@)
    &&& to matches Some(t) ==> !lex_lt(t@, r.from_@)
}

/// The rows of the index's tasks table.
pub uninterp spec fn task_table(c: rusqlite::Connection) -> Seq<TaskRow>;

/// The rows of the index's events table.
pub uninterp spec fn event_table(c: rusqlite::Connection) -> Seq<EventRow>;

/// The rows of `s` from position `offset` (a negative offset counts as 0), at most
/// `count` of them, as SQLite's `LIMIT` and `OFFSET` take them.
pub open spec fn window<T>(s: Seq<T>, offset: i64, count: int) -> Seq<T> {
    let a: int = if offset < 0 { 0 } else { offset as int };
    if a >= s.len() {
        Seq::empty()
    } else if a + count >= s.len() {
        s.skip(a)
    } else {
        s.subrange(a, a + count)
    }
}

/// `s` holds the table's rows that meet the tasks page filters, in the page order.
pub open spec fn tasks_in_order(
    s: Seq<TaskRow>,
    table: Seq<TaskRow>,
    deadline_from: Option<&str>,
    deadline_to: Option<&str>,
    event_id: Option<&str>,
    project_id: Option<&str>,
) -> bool {
    &&& s.to_multiset() == table.filter(|x: TaskRow| task_row_selected(x, deadline_from, deadline_to, event_id, project_id)).to_multiset()
    &&& forall|i: int, j: int| 0 <= i < j < s.len() ==> task_row_le(#[trigger] s[i], #[trigger] s[j])
}

/// `s` holds the table's rows that meet the events page filters, in the page order.
pub open spec fn events_in_order(s: Seq<EventRow>, table: Seq<EventRow>, from_: Option<&str>, to: Option<&str>) -> bool {
    &&& s.to_multiset() == table.filter(|x: EventRow| event_row_selected(x, from_, to)).to_multiset()
    &&& forall|i: int, j: int| 0 <= i < j < s.len() ==> event_row_le(#[trigger] s[i], #[trigger] s[j])
}

/// Runs the tasks page query `q` (built by `tasks_page_query` from the same arguments) on
/// the index: `Connection::prepare`, `Statement::query_map` and each row's columns read
/// as they are. The contract claims what SQLite's `WHERE`, `ORDER BY` and `LIMIT` give: at
/// most one row more than the page, in the page order, each meeting the filters (texts
/// compare by code point, as the BINARY collation compares UTF-8 bytes): the rows of the
/// table that meet the filters, in the page order, from the offset on.
#[verifier::external_body]
fn query_task_rows(
    c: &rusqlite::Connection,
    q: &IndexQuery,
    page_size: u32,
    offset: i64,
    deadline_from: Option<&str>,
    deadline_to: Option<&str>,
    event_id: Option<&str>,
    project_id: Option<&str>,
) -> (r: Result<Vec<TaskRow>, String>)
    requires
        q.sql@ == tasks_sql(page_size, offset, deadline_from, deadline_to, event_id, project_id),
        strs(q.binds@) == tasks_binds(deadline_from, deadline_to, event_id, project_id),
    ensures
        r matches Ok(rows) ==> {
            &&& rows@.len() <= page_size + 1
            &&& forall|i: int, j: int| 0 <= i < j < rows@.len() ==> task_row_le(#[trigger] rows@[i], #[trigger] rows@[j])
            &&& forall|i: int| 0 <= i < rows@.len() ==> task_row_selected(#[trigger] rows@[i], deadline_from, deadline_to, event_id, project_id)
            &&& exists|s: Seq<TaskRow>|
                tasks_in_order(s, task_table(*c), deadline_from, deadline_to, event_id, project_id) && rows@ == window(
                    s,
                    offset,
                    page_size + 1,
                )
        },
{
    let run = || -> rusqlite::Result<Vec<TaskRow>> {
        let mut st = c.prepare(&q.sql)?;
        let rows = st.query_map(params_from_iter(&q.binds), |r| Ok(TaskRow {
            rowid: r.get(0)?, text: r.get(1)?, completed: r.get(2)?, raw_line: r.get(3)?,
            source_file: r.get(4)?, line_number: r.get(5)?, deadline: r.get(6)?, event_ids: r.get(7)?,
            project_ids: r.get(8)?, time_references: r.get(9)?, resolved_event_names: r.get(10)?,
            resolved_project_names: r.get(11)?,
        }))?;
        rows.collect()
    };
    run().map_err(|e| e.to_string())
}

/// Runs the events page query `q` (built by `events_page_query` from the same arguments)
/// on the index; the contract claims, as for the tasks page, the rows of the table that
/// meet the filters, in the page order, from the offset on, at most one more than the
/// page.
#[verifier::external_body]
fn query_event_rows(
    c: &rusqlite::Connection,
    q: &IndexQuery,
    page_size: u32,
    offset: i64,
    from_: Option<&str>,
    to: Option<&str>,
) -> (r: Result<Vec<EventRow>, String>)
    requires
        q.sql@ == events_sql(page_size, offset, from_, to),
        strs(q.binds@) == events_binds(from_, to),
    ensures
        r matches Ok(rows) ==> {
            &&& rows@.len() <= page_size + 1
            &&& forall|i: int, j: int| 0 <= i < j < rows@.len() ==> event_row_le(#[trigger] rows@[i], #[trigger] rows@[j])
            &&& forall|i: int| 0 <= i < rows@.len() ==> event_row_selected(#[trigger] rows@[i], from_, to)
            &&& exists|s: Seq<EventRow>| events_in_order(s, event_table(*c), from_, to) && rows@ == window(
                s,
                offset,
                page_size + 1,
            )
        },
{
    let run = || -> rusqlite::Result<Vec<EventRow>> {
        let mut st = c.prepare(&q.sql)?;
        let rows = st.query_map(params_from_iter(&q.binds), |r| Ok(EventRow {
            id: r.get(0)?, source: r.get(1)?, from_: r.get(2)?, to: r.get(3)?, name: r.get(4)?,
            description: r.get(5)?, participants: r.get(6)?, location: r.get(7)?, metadata: r.get(8)?,
        }))?;
        rows.collect()
    };
    run().map_err(|e| e.to_string())
}

/// A task row read back as a task.
pub open spec fn task_of_row_view(r: TaskRow) -> TaskView {
    TaskView {
        text: r.text@,
        completed: r.completed != 0,
        raw_line: r.raw_line@,
        source_file: r.source_file@,
        line_number: r.line_number,
        deadline: opt_str(r.deadline),
        event_ids: stored_strings(r.event_ids@),
        project_ids: stored_strings(r.project_ids@),
        time_references: stored_time_refs(r.time_references@),
        resolved_event_names: stored_pairs(r.resolved_event_names@),
        resolved_project_names: stored_pairs(r.resolved_project_names@),
    }
}

/// Reads a task row back as a task.
pub fn task_of_row(r: TaskRow) -> (t: TaskEntity)
    ensures
        t@ == task_of_row_view(r),
{
    let event_ids = read_strings(&r.event_ids);
    let project_ids = read_strings(&r.project_ids);
    let time_references = read_time_refs(&r.time_references);
    let resolved_event_names = read_pairs(&r.resolved_event_names);
    let resolved_project_names = read_pairs(&r.resolved_project_names);
    TaskEntity {
        text: r.text,
        completed: r.completed != 0,
        raw_line: r.raw_line,
        source_file: r.source_file,
        line_number: r.line_number,
        deadline: r.deadline,
        event_ids,
        project_ids,
        time_references,
        resolved_event_names,
        resolved_project_names,
    }
}

/// An event row read back as an event.
pub open spec fn event_of_row_view(r: EventRow) -> EventView {
    EventView {
        id: r.id@,
        source: r.source@,
        from_: r.from_@,
        to: r.to@,
        name: r.name@,
        description: r.description@,
        participants: stored_strings(r.participants@),
        location: r.location@,
        metadata: stored_metadata(r.metadata@),
    }
}

/// Reads an event row back as an event.
pub fn event_of_row(r: EventRow) -> (e: EventEntity)
    ensures
        e@ == event_of_row_view(r),
{
    let participants = read_strings(&r.participants);
    let metadata = read_metadata(&r.metadata);
    EventEntity {
        id: r.id,
        source: r.source,
        from_: r.from_,
        to: r.to,
        name: r.name,
        description: r.description,
        participants,
        location: r.location,
        metadata,
    }
}

/// The number of items a page shows of `fetched` rows: all of them, at most a page.
pub open spec fn page_len(fetched: nat, limit: Option<u32>) -> int {
    if fetched > page_size_of(limit) {
        page_size_of(limit) as int
    } else {
        fetched as int
    }
}

/// With `id` given, `ids` were read from a stored id list whose text holds the quoted id.
pub open spec fn read_holding(ids: Seq<Seq<char>>, id: Option<&str>) -> bool {
    id matches Some(e) ==> exists|s: Seq<char>| has_sub(s, quoted(e@)) && ids == stored_strings(s)
}

/// The cursor as text.
pub open spec fn cursor_text(cursor: Option<&str>) -> Option<Seq<char>> {
    match cursor {
        Some(c) => Some(c@),
        None => None,
    }
}

/// `a` comes no later than `b` by file (code-point order) and line.
pub open spec fn file_line_le(a: TaskView, b: TaskView) -> bool {
    lex_lt(a.source_file, b.source_file) || (a.source_file == b.source_file && a.line_number <= b.line_number)
}

/// A task meets the tasks page filters: a deadline in the range, and each given id in the
/// stored id list that its ids were read from.
pub open spec fn task_selected(
    t: TaskView,
    deadline_from: Option<&str>,
    deadline_to: Option<&str>,
    event_id: Option<&str>,
    project_id: Option<&str>,
) -> bool {
    &&& deadline_from matches Some(f) ==> (t.deadline matches Some(d) && !lex_lt(d, f@))
    &&& deadline_to matches Some(u) ==> (t.deadline matches Some(d) && !lex_lt(u@, d))
    &&& read_holding(t.event_ids, event_id)
    &&& read_holding(t.project_ids, project_id)
}

/// The page and next cursor of a list: at most a page of items; a next cursor, the offset
/// after the page, only after a full page; none after a shorter one.
pub open spec fn page_shape<T>(p: Seq<T>, next: Option<String>, limit: Option<u32>, cursor: Option<&str>) -> bool {
    &&& p.len() <= page_size_of(limit)
    &&& next matches Some(x) ==> p.len() == page_size_of(limit) && x@ == int_text(
        cursor_offset(cursor_text(cursor)) + page_size_of(limit),
    )
    &&& p.len() < page_size_of(limit) ==> next is None
}

/// A page of the tasks, by file and line, that meet the filters. A cursor that is not a
/// decimal integer counts as 0. `Err` carries the index's error, or says that the offset
/// after the page does not fit in `i64`.
pub fn list_tasks_page(
    c: &rusqlite::Connection,
    limit: Option<u32>,
    cursor: Option<&str>,
    deadline_from: Option<&str>,
    deadline_to: Option<&str>,
    event_id: Option<&str>,
    project_id: Option<&str>,
) -> (r: Result<(Vec<TaskEntity>, Option<String>), String>)
    ensures
        r matches Ok((p, next)) ==> {
            &&& page_shape(p@, next, limit, cursor)
            &&& forall|i: int, j: int| 0 <= i < j < p@.len() ==> file_line_le(#[trigger] p@[i]@, #[trigger] p@[j]@)
            &&& forall|i: int|
                0 <= i < p@.len() ==> task_selected(#[trigger] p@[i]@, deadline_from, deadline_to, event_id, project_id)
            &&& exists|s: Seq<TaskRow>| {
                &&& tasks_in_order(s, task_table(*c), deadline_from, deadline_to, event_id, project_id)
                &&& p@.len() == page_len(window(s, cursor_offset(cursor_text(cursor)), page_size_of(limit) + 1).len(), limit)
                &&& forall|i: int| 0 <= i < p@.len() ==> (#[trigger] p@[i])@ == task_of_row_view(
                    window(s, cursor_offset(cursor_text(cursor)), page_size_of(limit) + 1)[i],
                )
            }
        },
{
    let n = normalize_page_size(limit);
    let off = parse_cursor(cursor);
    let q = tasks_page_query(n, off, deadline_from, deadline_to, event_id, project_id);
    let rows = query_task_rows(c, &q, n, off, deadline_from, deadline_to, event_id, project_id)?;
    let ghost orig = rows@;
    let mut rows = rows;
    let mut tasks: Vec<TaskEntity> = Vec::new();
    let ghost mut taken: int = 0;
    assert(orig.skip(0) =~= orig);
    while rows.len() > 0
        invariant
            0 <= taken <= orig.len(),
            taken + rows@.len() == orig.len(),
            rows@ == orig.skip(taken),
            tasks@.len() == taken,
            forall|k: int| 0 <= k < taken ==> #[trigger] tasks@[k]@ == task_of_row_view(orig[k]),
        decreases rows.len(),
    {
        let ghost before = rows@;
        let row = rows.remove(0);
        assert(orig[taken] == row) by {
            assert(orig.skip(taken)[0] == orig[taken]);
        }
        tasks.push(task_of_row(row));
        proof {
            taken = taken + 1;
        }
        assert(rows@ =~= orig.skip(taken)) by {
            assert(rows@ =~= before.drop_first());
        }
    }
    assert forall|i: int, j: int| 0 <= i < j < tasks@.len() implies file_line_le(#[trigger] tasks@[i]@, #[trigger] tasks@[j]@) by {
        assert(task_row_le(orig[i], orig[j]));
    }
    assert forall|i: int| 0 <= i < tasks@.len() implies task_selected(#[trigger] tasks@[i]@, deadline_from, deadline_to, event_id, project_id) by {
        assert(task_row_selected(orig[i], deadline_from, deadline_to, event_id, project_id));
        assert(tasks@[i]@ == task_of_row_view(orig[i]));
        if event_id is Some {
            assert(has_sub(orig[i].event_ids@, quoted(event_id->0@)));
        }
        if project_id is Some {
            assert(has_sub(orig[i].project_ids@, quoted(project_id->0@)));
        }
    }
    if tasks.len() > n as usize && off > i64::MAX - n as i64 {
        return Err(crate::text::string_of(&chars_of("attempt to add with overflow")));
    }
    let (p, next) = page_of(tasks, n, off);
    Ok((p, next))
}

/// `a` comes no later than `b` by start, end (code-point order) and id.
pub open spec fn start_end_le(a: EventView, b: EventView) -> bool {
    ||| lex_lt(a.from_, b.from_)
    ||| a.from_ == b.from_ && (lex_lt(a.to, b.to) || (a.to == b.to && !lex_lt(b.id, a.id)))
}

/// An event meets the events page filters: ending at or after `from_`, starting at or
/// before `to`.
pub open spec fn event_selected(e: EventView, from_: Option<&str>, to: Option<&str>) -> bool {
    &&& from_ matches Some(f) ==> !lex_lt(e.to, f@)
    &&& to matches Some(t) ==> !lex_lt(t@, e.from_)
}

/// A page of the events, by start, end and id, that overlap the range. `Err` carries the
/// index's error, or says that the offset after the page does not fit in `i64`.
pub fn list_events_page(
    c: &rusqlite::Connection,
    limit: Option<u32>,
    cursor: Option<&str>,
    from_: Option<&str>,
    to: Option<&str>,
) -> (r: Result<(Vec<EventEntity>, Option<String>), String>)
    ensures
        r matches Ok((p, next)) ==> {
            &&& page_shape(p@, next, limit, cursor)
            &&& forall|i: int, j: int| 0 <= i < j < p@.len() ==> start_end_le(#[trigger] p@[i]@, #[trigger] p@[j]@)
            &&& forall|i: int| 0 <= i < p@.len() ==> event_selected(#[trigger] p@[i]@, from_, to)
            &&& exists|s: Seq<EventRow>| {
                &&& events_in_order(s, event_table(*c), from_, to)
                &&& p@.len() == page_len(window(s, cursor_offset(cursor_text(cursor)), page_size_of(limit) + 1).len(), limit)
                &&& forall|i: int| 0 <= i < p@.len() ==> (#[trigger] p@[i])@ == event_of_row_view(
                    window(s, cursor_offset(cursor_text(cursor)), page_size_of(limit) + 1)[i],
                )
            }
        },
{
    let n = normalize_page_size(limit);
    let off = parse_cursor(cursor);
    let q = events_page_query(n, off, from_, to);
    let rows = query_event_rows(c, &q, n, off, from_, to)?;
    let ghost orig = rows@;
    let mut rows = rows;
    let mut events: Vec<EventEntity> = Vec::new();
    let ghost mut taken: int = 0;
    assert(orig.skip(0) =~= orig);
    while rows.len() > 0
        invariant
            0 <= taken <= orig.len(),
            taken + rows@.len() == orig.len(),
            rows@ == orig.skip(taken),
            events@.len() == taken,
            forall|k: int| 0 <= k < taken ==> #[trigger] events@[k]@ == event_of_row_view(orig[k]),
        decreases rows.len(),
    {
        let ghost before = rows@;
        let row = rows.remove(0);
        assert(orig[taken] == row) by {
            assert(orig.skip(taken)[0] == orig[taken]);
        }
        events.push(event_of_row(row));
        proof {
            taken = taken + 1;
        }
        assert(rows@ =~= orig.skip(taken)) by {
            assert(rows@ =~= before.drop_first());
        }
    }
    assert forall|i: int, j: int| 0 <= i < j < events@.len() implies start_end_le(#[trigger] events@[i]@, #[trigger] events@[j]@) by {
        assert(event_row_le(orig[i], orig[j]));
    }
    assert forall|i: int| 0 <= i < events@.len() implies event_selected(#[trigger] events@[i]@, from_, to) by {
        assert(event_row_selected(orig[i], from_, to));
    }
    if events.len() > n as usize && off > i64::MAX - n as i64 {
        return Err(crate::text::string_of(&chars_of("attempt to add with overflow")));
    }
    let (p, next) = page_of(events, n, off);
    Ok((p, next))
}

/// One row of the notes table, its columns as stored (the id lists as JSON text).
#[derive(Debug)]
pub struct NoteRow {
    pub filename: String,
    pub title: String,
    pub body_preview: String,
    pub event_ids: String,
    pub project_ids: String,
    pub raw_content: String,
}

/// One row of the projects table, its columns as stored (the event ids as JSON text).
#[derive(Debug)]
pub struct ProjectRow {
    pub id: String,
    pub filename: String,
    pub title: String,
    pub body_preview: String,
    pub event_ids: String,
    pub raw_content: String,
}

/// The rows of the index's notes table.
pub uninterp spec fn note_table(c: rusqlite::Connection) -> Seq<NoteRow>;

/// The rows of the index's projects table.
pub uninterp spec fn project_table(c: rusqlite::Connection) -> Seq<ProjectRow>;

/// A note row holds the quoted ids in its stored id lists.
pub open spec fn note_row_selected(r: NoteRow, event_id: Option<&str>, project_id: Option<&str>) -> bool {
    &&& event_id matches Some(e) ==> has_sub(r.event_ids@, quoted(e@))
    &&& project_id matches Some(q) ==> has_sub(r.project_ids@, quoted(q@))
}

/// `s` holds the table's notes that meet the filters, by file name.
pub open spec fn notes_in_order(s: Seq<NoteRow>, table: Seq<NoteRow>, event_id: Option<&str>, project_id: Option<&str>) -> bool {
    &&& s.to_multiset() == table.filter(|x: NoteRow| note_row_selected(x, event_id, project_id)).to_multiset()
    &&& forall|i: int, j: int| 0 <= i < j < s.len() ==> !lex_lt((#[trigger] s[j]).filename@, (#[trigger] s[i]).filename@)
}

/// `s` holds the table's projects, by id.
pub open spec fn projects_in_order(s: Seq<ProjectRow>, table: Seq<ProjectRow>) -> bool {
    &&& s.to_multiset() == table.to_multiset()
    &&& forall|i: int, j: int| 0 <= i < j < s.len() ==> !lex_lt((#[trigger] s[j]).id@, (#[trigger] s[i]).id@)
}

/// Runs the notes page query `q` (built by `notes_page_query` from the same arguments);
/// the contract claims the rows of the table that hold the quoted ids in their stored id
/// lists, by file name (code-point order), from the offset on, at most one more than the
/// page.
#[verifier::external_body]
fn query_note_rows(
    c: &rusqlite::Connection,
    q: &IndexQuery,
    page_size: u32,
    offset: i64,
    event_id: Option<&str>,
    project_id: Option<&str>,
) -> (r: Result<Vec<NoteRow>, String>)
    requires
        q.sql@ == notes_sql(page_size, offset, event_id, project_id),
        strs(q.binds@) == notes_binds(event_id, project_id),
    ensures
        r matches Ok(rows) ==> {
            &&& rows@.len() <= page_size + 1
            &&& forall|i: int, j: int|
                0 <= i < j < rows@.len() ==> !lex_lt((#[trigger] rows@[j]).filename@, (#[trigger] rows@[i]).filename@)
            &&& forall|i: int| 0 <= i < rows@.len() ==> (event_id matches Some(e) ==> has_sub((#[trigger] rows@[i]).event_ids@, quoted(e@)))
            &&& forall|i: int| 0 <= i < rows@.len() ==> (project_id matches Some(p) ==> has_sub((#[trigger] rows@[i]).project_ids@, quoted(p@)))
            &&& exists|s: Seq<NoteRow>|
                notes_in_order(s, note_table(*c), event_id, project_id) && rows@ == window(s, offset, page_size + 1)
        },
{
    let run = || -> rusqlite::Result<Vec<NoteRow>> {
        let mut st = c.prepare(&q.sql)?;
        let rows = st.query_map(params_from_iter(&q.binds), |r| Ok(NoteRow {
            filename: r.get(0)?, title: r.get(1)?, body_preview: r.get(2)?, event_ids: r.get(3)?,
            project_ids: r.get(4)?, raw_content: r.get(5)?,
        }))?;
        rows.collect()
    };
    run().map_err(|e| e.to_string())
}

/// Runs the projects page query `q` (built by `projects_page_query` from the same
/// arguments); the contract claims the rows of the table by id (code-point order), from
/// the offset on, at most one more than the page.
#[verifier::external_body]
fn query_project_rows(c: &rusqlite::Connection, q: &IndexQuery, page_size: u32, offset: i64) -> (r: Result<Vec<ProjectRow>, String>)
    requires
        q.sql@ == projects_sql(page_size, offset),
        q.binds@.len() == 0,
    ensures
        r matches Ok(rows) ==> {
            &&& rows@.len() <= page_size + 1
            &&& forall|i: int, j: int|
                0 <= i < j < rows@.len() ==> !lex_lt((#[trigger] rows@[j]).id@, (#[trigger] rows@[i]).id@)
            &&& exists|s: Seq<ProjectRow>| projects_in_order(s, project_table(*c)) && rows@ == window(s, offset, page_size + 1)
        },
{
    let run = || -> rusqlite::Result<Vec<ProjectRow>> {
        let mut st = c.prepare(&q.sql)?;
        let rows = st.query_map(params_from_iter(&q.binds), |r| Ok(ProjectRow {
            id: r.get(0)?, filename: r.get(1)?, title: r.get(2)?, body_preview: r.get(3)?,
            event_ids: r.get(4)?, raw_content: r.get(5)?,
        }))?;
        rows.collect()
    };
    run().map_err(|e| e.to_string())
}

/// A note row read back: its columns, the id lists read from their stored text.
pub open spec fn note_read_from(n: NoteEntity, r: NoteRow) -> bool {
    &&& n.filename@ == r.filename@ && n.title@ == r.title@ && n.body_preview@ == r.body_preview@
    &&& strs(n.event_ids@) == stored_strings(r.event_ids@)
    &&& strs(n.project_ids@) == stored_strings(r.project_ids@)
    &&& n.raw_content@ == r.raw_content@
}

/// A project row read back: its columns, the event ids read from their stored text.
pub open spec fn project_read_from(p: ProjectEntity, r: ProjectRow) -> bool {
    &&& p.id@ == r.id@ && p.filename@ == r.filename@ && p.title@ == r.title@ && p.body_preview@ == r.body_preview@
    &&& strs(p.event_ids@) == stored_strings(r.event_ids@)
    &&& p.raw_content@ == r.raw_content@
}

pub fn note_of_row(r: NoteRow) -> (n: NoteEntity)
    ensures
        note_read_from(n, r),
{
    let event_ids = read_strings(&r.event_ids);
    let project_ids = read_strings(&r.project_ids);
    NoteEntity {
        filename: r.filename,
        title: r.title,
        body_preview: r.body_preview,
        event_ids,
        project_ids,
        raw_content: r.raw_content,
    }
}

pub fn project_of_row(r: ProjectRow) -> (p: ProjectEntity)
    ensures
        project_read_from(p, r),
{
    let event_ids = read_strings(&r.event_ids);
    ProjectEntity {
        id: r.id,
        filename: r.filename,
        title: r.title,
        body_preview: r.body_preview,
        event_ids,
        raw_content: r.raw_content,
    }
}

/// A page of the notes, by file name, that list the event `event_id` and the project
/// `project_id` (each when given; each item's ids read from a stored list whose text holds
/// the quoted id). `Err` carries the index's error, or says that the offset after the page
/// does not fit in `i64`.
pub fn list_notes_page(
    c: &rusqlite::Connection,
    limit: Option<u32>,
    cursor: Option<&str>,
    event_id: Option<&str>,
    project_id: Option<&str>,
) -> (r: Result<(Vec<NoteEntity>, Option<String>), String>)
    ensures
        r matches Ok((p, next)) ==> {
            &&& page_shape(p@, next, limit, cursor)
            &&& forall|i: int, j: int| 0 <= i < j < p@.len() ==> !lex_lt((#[trigger] p@[j]).filename@, (#[trigger] p@[i]).filename@)
            &&& forall|i: int| 0 <= i < p@.len() ==> read_holding(strs((#[trigger] p@[i]).event_ids@), event_id)
            &&& forall|i: int| 0 <= i < p@.len() ==> read_holding(strs((#[trigger] p@[i]).project_ids@), project_id)
            &&& exists|s: Seq<NoteRow>| {
                &&& notes_in_order(s, note_table(*c), event_id, project_id)
                &&& p@.len() == page_len(window(s, cursor_offset(cursor_text(cursor)), page_size_of(limit) + 1).len(), limit)
                &&& forall|i: int| 0 <= i < p@.len() ==> note_read_from(
                    #[trigger] p@[i],
                    window(s, cursor_offset(cursor_text(cursor)), page_size_of(limit) + 1)[i],
                )
            }
        },
{
    let n = normalize_page_size(limit);
    let off = parse_cursor(cursor);
    let q = notes_page_query(n, off, event_id, project_id);
    let rows = query_note_rows(c, &q, n, off, event_id, project_id)?;
    let ghost orig = rows@;
    let mut rows = rows;
    let mut notes: Vec<NoteEntity> = Vec::new();
    let ghost mut taken: int = 0;
    assert(orig.skip(0) =~= orig);
    while rows.len() > 0
        invariant
            0 <= taken <= orig.len(),
            taken + rows@.len() == orig.len(),
            rows@ == orig.skip(taken),
            notes@.len() == taken,
            forall|k: int| 0 <= k < taken ==> note_read_from(#[trigger] notes@[k], orig[k]),
        decreases rows.len(),
    {
        let ghost before = rows@;
        let row = rows.remove(0);
        assert(orig[taken] == row) by {
            assert(orig.skip(taken)[0] == orig[taken]);
        }
        notes.push(note_of_row(row));
        proof {
            taken = taken + 1;
        }
        assert(rows@ =~= orig.skip(taken)) by {
            assert(rows@ =~= before.drop_first());
        }
    }
    assert forall|i: int, j: int| 0 <= i < j < notes@.len() implies !lex_lt((#[trigger] notes@[j]).filename@, (#[trigger] notes@[i]).filename@) by {
        assert(note_read_from(notes@[i], orig[i]) && note_read_from(notes@[j], orig[j]));
        assert(!lex_lt(orig[j].filename@, orig[i].filename@));
    }
    assert forall|i: int| 0 <= i < notes@.len() implies read_holding(strs((#[trigger] notes@[i]).event_ids@), event_id) by {
        assert(note_read_from(notes@[i], orig[i]));
        if event_id is Some {
            assert(has_sub(orig[i].event_ids@, quoted(event_id->0@)));
        }
    }
    assert forall|i: int| 0 <= i < notes@.len() implies read_holding(strs((#[trigger] notes@[i]).project_ids@), project_id) by {
        assert(note_read_from(notes@[i], orig[i]));
        if project_id is Some {
            assert(has_sub(orig[i].project_ids@, quoted(project_id->0@)));
        }
    }
    if notes.len() > n as usize && off > i64::MAX - n as i64 {
        return Err(crate::text::string_of(&chars_of("attempt to add with overflow")));
    }
    let ghost nv = notes@;
    let (p, next) = page_of(notes, n, off);
    assert forall|i: int| 0 <= i < p@.len() implies read_holding(strs((#[trigger] p@[i]).event_ids@), event_id) by {
        assert(p@[i] == nv[i]);
        if event_id is Some {
            assert(has_sub(orig[i].event_ids@, quoted(event_id->0@)));
            assert(note_read_from(nv[i], orig[i]));
        }
    }
    assert forall|i: int| 0 <= i < p@.len() implies read_holding(strs((#[trigger] p@[i]).project_ids@), project_id) by {
        assert(p@[i] == nv[i]);
        if project_id is Some {
            assert(has_sub(orig[i].project_ids@, quoted(project_id->0@)));
            assert(note_read_from(nv[i], orig[i]));
        }
    }
    assert forall|i: int, j: int| 0 <= i < j < p@.len() implies !lex_lt((#[trigger] p@[j]).filename@, (#[trigger] p@[i]).filename@) by {
        assert(p@[i] == nv[i] && p@[j] == nv[j]);
    }
    Ok((p, next))
}

/// A page of the projects, by id. `Err` carries the index's error, or says that the offset
/// after the page does not fit in `i64`.
pub fn list_projects_page(
    c: &rusqlite::Connection,
    limit: Option<u32>,
    cursor: Option<&str>,
) -> (r: Result<(Vec<ProjectEntity>, Option<String>), String>)
    ensures
        r matches Ok((p, next)) ==> {
            &&& page_shape(p@, next, limit, cursor)
            &&& forall|i: int, j: int| 0 <= i < j < p@.len() ==> !lex_lt((#[trigger] p@[j]).id@, (#[trigger] p@[i]).id@)
            &&& exists|s: Seq<ProjectRow>| {
                &&& projects_in_order(s, project_table(*c))
                &&& p@.len() == page_len(window(s, cursor_offset(cursor_text(cursor)), page_size_of(limit) + 1).len(), limit)
                &&& forall|i: int| 0 <= i < p@.len() ==> project_read_from(
                    #[trigger] p@[i],
                    window(s, cursor_offset(cursor_text(cursor)), page_size_of(limit) + 1)[i],
                )
            }
        },
{
    let n = normalize_page_size(limit);
    let off = parse_cursor(cursor);
    let q = projects_page_query(n, off);
    let rows = query_project_rows(c, &q, n, off)?;
    let ghost orig = rows@;
    let mut rows = rows;
    let mut projects: Vec<ProjectEntity> = Vec::new();
    let ghost mut taken: int = 0;
    assert(orig.skip(0) =~= orig);
    while rows.len() > 0
        invariant
            0 <= taken <= orig.len(),
            taken + rows@.len() == orig.len(),
            rows@ == orig.skip(taken),
            projects@.len() == taken,
            forall|k: int| 0 <= k < taken ==> project_read_from(#[trigger] projects@[k], orig[k]),
        decreases rows.len(),
    {
        let ghost before = rows@;
        let row = rows.remove(0);
        assert(orig[taken] == row) by {
            assert(orig.skip(taken)[0] == orig[taken]);
        }
        projects.push(project_of_row(row));
        proof {
            taken = taken + 1;
        }
        assert(rows@ =~= orig.skip(taken)) by {
            assert(rows@ =~= before.drop_first());
        }
    }
    assert forall|i: int, j: int| 0 <= i < j < projects@.len() implies !lex_lt((#[trigger] projects@[j]).id@, (#[trigger] projects@[i]).id@) by {
        assert(project_read_from(projects@[i], orig[i]) && project_read_from(projects@[j], orig[j]));
        assert(!lex_lt(orig[j].id@, orig[i].id@));
    }
    if projects.len() > n as usize && off > i64::MAX - n as i64 {
        return Err(crate::text::string_of(&chars_of("attempt to add with overflow")));
    }
    let (p, next) = page_of(projects, n, off);
    Ok((p, next))
}

} // verus!
