//! Google Calendar synchronisation: converting fetched calendar events into vault events
//! and reconciling them with the events already in the vault.

use vstd::prelude::*;
use crate::json::{get_member, member, JsonValue};
use crate::models::{
    EventEntity, EventMetadata, EventView, MetadataView, opt_str,
};
use crate::storage::{frontmatter_ids, string_eq, string_items_spec};
use crate::text::{chars_of, string_of};
use crate::time::{
    format_instant, iso_seconds_text, naive_date_seconds, parse_naive_date,
    parse_rfc3339, rfc3339_seconds,
};

verus! {

/// Counts of a synchronisation run.
#[derive(Debug, Clone, Copy, PartialEq, Eq)]
pub struct SyncResult {
    pub created: i64,
    pub updated: i64,
    pub skipped: i64,
    pub stale: i64,
}

pub open spec fn date_fmt() -> Seq<char> {
    seq!['%', 'Y', '-', '%', 'm', '-', '%', 'd']
}

/// A Google date-time (RFC 3339) or date (`%Y-%m-%d`, taken as midnight UTC), printed as
/// a UTC `%Y-%m-%dT%H:%M:%S`; nothing for an absent or empty value.
pub open spec fn gcal_time_text(v: Option<Seq<char>>) -> Option<Seq<char>> {
    match v {
        None => None,
        Some(s) => if s.len() == 0 {
            None
        } else {
            match rfc3339_seconds(s) {
                Some(t) => Some(iso_seconds_text(t as int)),
                None => match naive_date_seconds(s, date_fmt()) {
                    Some(t) => Some(iso_seconds_text(t as int)),
                    None => None,
                },
            }
        },
    }
}

pub fn parse_gcal_datetime(value: Option<&str>) -> (r: Option<String>)
    ensures
        opt_str(r) == gcal_time_text(match value {
            Some(s) => Some(s@),
            None => None,
        }),
{
    let s = match value {
        None => return None,
        Some(s) => s,
    };
    if chars_of(s).len() == 0 {
        return None;
    }
    if let Some(t) = parse_rfc3339(s) {
        return Some(format_instant(t));
    }
    let f = string_of(&vec!['%', 'Y', '-', '%', 'm', '-', '%', 'd']);
    match parse_naive_date(s, f.as_str()) {
        Some(t) => Some(format_instant(t)),
        None => None,
    }
}

/// What a fetched Google Calendar event holds, as plain values: each text field is
/// present only when the JSON value is a string; `start` / `end` are the `dateTime`
/// (else `date`) of the event's start and end; `attendees` lists each attendee's email.
#[derive(Debug, Clone, PartialEq, Eq)]
pub struct GCalEventFields {
    pub start: Option<String>,
    pub end: Option<String>,
    pub id: Option<String>,
    pub attendees: Option<Vec<Option<String>>>,
    pub etag: Option<String>,
    pub recurring_event_id: Option<String>,
    pub updated: Option<String>,
    pub summary: Option<String>,
    pub description: Option<String>,
    pub location: Option<String>,
}

pub open spec fn or_default(o: Option<String>, d: Seq<char>) -> Seq<char> {
    match o {
        Some(s) => s@,
        None => d,
    }
}

pub open spec fn google_calendar() -> Seq<char> {
    "google_calendar"@
}

pub open spec fn no_title() -> Seq<char> {
    "(No title)"@
}

/// The vault event for a fetched Google event; `None` when its start, end or id is
/// missing or its start or end does not parse.
pub open spec fn gcal_entity(g: GCalEventFields, account: Seq<char>, cal: Seq<char>, now: Seq<char>) -> Option<EventView> {
    let from_ = gcal_time_text(opt_str(g.start));
    let to = gcal_time_text(opt_str(g.end));
    if from_ is None || to is None || g.id is None {
        None
    } else {
        let id = g.id->0@;
        Some(
            EventView {
                id,
                source: google_calendar(),
                from_: from_->0,
                to: to->0,
                name: or_default(g.summary, no_title()),
                description: or_default(g.description, Seq::empty()),
                participants: match g.attendees {
                    Some(v) => string_items_spec(v@),
                    None => Seq::empty(),
                },
                location: or_default(g.location, Seq::empty()),
                metadata: MetadataView {
                    source_platform: google_calendar(),
                    source_account: account,
                    source_event_id: id,
                    source_calendar_id: cal,
                    etag: or_default(g.etag, Seq::empty()),
                    last_synced_at: Some(now),
                    recurring_event_id: or_default(g.recurring_event_id, Seq::empty()),
                    source_updated_at: gcal_time_text(opt_str(g.updated)),
                },
            },
        )
    }
}

fn text_or(o: &Option<String>, d: &str) -> (r: String)
    ensures
        r@ == or_default(*o, d@),
{
    match o {
        Some(s) => s.clone(),
        None => string_of(&chars_of(d)),
    }
}

fn opt_as_str(o: &Option<String>) -> (r: Option<&str>)
    ensures
        match r {
            Some(s) => Some(s@),
            None => None::<Seq<char>>,
        } == opt_str(*o),
{
    match o {
        Some(s) => Some(s.as_str()),
        None => None,
    }
}

/// Converts a fetched Google Calendar event into a vault event, stamped with `now` as its
/// last synchronisation time.
pub fn google_event_to_entity(g: &GCalEventFields, account_email: &str, calendar_id: &str, now: &str) -> (r: Option<EventEntity>)
    ensures
        match gcal_entity(*g, account_email@, calendar_id@, now@) {
            Some(ev) => r matches Some(e) && e@ == ev,
            None => r is None,
        },
{
    let from_ = match parse_gcal_datetime(opt_as_str(&g.start)) {
        Some(f) => f,
        None => return None,
    };
    let to = match parse_gcal_datetime(opt_as_str(&g.end)) {
        Some(t) => t,
        None => return None,
    };
    let id = match &g.id {
        Some(i) => i.clone(),
        None => return None,
    };
    let metadata = EventMetadata {
        source_platform: string_of(&chars_of("google_calendar")),
        source_account: string_of(&chars_of(account_email)),
        source_event_id: id.clone(),
        source_calendar_id: string_of(&chars_of(calendar_id)),
        etag: text_or(&g.etag, ""),
        last_synced_at: Some(string_of(&chars_of(now))),
        recurring_event_id: text_or(&g.recurring_event_id, ""),
        source_updated_at: parse_gcal_datetime(opt_as_str(&g.updated)),
    };
    assert(""@ == Seq::<char>::empty()) by {
        reveal_strlit("");
    }
    Some(
        EventEntity {
            id,
            source: string_of(&chars_of("google_calendar")),
            from_,
            to,
            name: text_or(&g.summary, "(No title)"),
            description: text_or(&g.description, ""),
            participants: frontmatter_ids(&g.attendees),
            location: text_or(&g.location, ""),
            metadata,
        },
    )
}

/// The vault events for a batch of fetched Google events, skipping those that do not
/// convert.
pub open spec fn gcal_entities(gs: Seq<GCalEventFields>, account: Seq<char>, cal: Seq<char>, now: Seq<char>) -> Seq<EventView>
    decreases gs.len(),
{
    if gs.len() == 0 {
        Seq::empty()
    } else {
        let rest = gcal_entities(gs.drop_last(), account, cal, now);
        match gcal_entity(gs.last(), account, cal, now) {
            Some(e) => rest.push(e),
            None => rest,
        }
    }
}

pub open spec fn event_views(v: Seq<EventEntity>) -> Seq<EventView> {
    v.map_values(|e: EventEntity| e@)
}

pub fn google_events_to_entities(gs: &Vec<GCalEventFields>, account_email: &str, calendar_id: &str, now: &str) -> (r: Vec<EventEntity>)
    ensures
        event_views(r@) == gcal_entities(gs@, account_email@, calendar_id@, now@),
{
    let mut r: Vec<EventEntity> = Vec::new();
    let mut i: usize = 0;
    assert(gs@.take(0) == Seq::<GCalEventFields>::empty());
    while i < gs.len()
        invariant
            i <= gs.len(),
            event_views(r@) == gcal_entities(gs@.take(i as int), account_email@, calendar_id@, now@),
        decreases gs.len() - i,
    {
        assert(gs@.take(i + 1).drop_last() == gs@.take(i as int));
        assert(gs@.take(i + 1).last() == gs@[i as int]);
        match google_event_to_entity(&gs[i], account_email, calendar_id, now) {
            Some(e) => {
                let ghost old = r@;
                r.push(e);
                assert(event_views(r@) =~= event_views(old).push(r@.last()@));
            },
            None => {},
        }
        i = i + 1;
    }
    assert(gs@.take(gs@.len() as int) == gs@);
    r
}

} // verus!

verus! {

/// What to do with one fetched event.
#[derive(Debug, Clone, Copy, PartialEq, Eq, Structural)]
pub enum SyncStep {
    /// create fetched event `i`
    Create(usize),
    /// overwrite existing event `existing` with fetched event `i` (keeping the existing id)
    Update(usize, usize),
    /// fetched event `i` is unchanged
    Skip(usize),
}

/// The steps of a synchronisation run and its counts.
#[derive(Debug)]
pub struct SyncPlan {
    pub steps: Vec<SyncStep>,
    pub result: SyncResult,
}

/// An existing event that came from this account's calendar.
pub open spec fn from_calendar(e: EventView, account: Seq<char>, cal: Seq<char>) -> bool {
    e.metadata.source_platform == google_calendar() && e.metadata.source_account == account
        && e.metadata.source_calendar_id == cal
}

/// Position of `key` in a keyed list.
pub open spec fn key_pos(m: Seq<(Seq<char>, int)>, key: Seq<char>) -> Option<int>
    decreases m.len(),
{
    if m.len() == 0 {
        None
    } else if m.last().0 == key {
        Some(m.len() - 1)
    } else {
        key_pos(m.drop_last(), key)
    }
}

/// The existing calendar events keyed by source event id; a later event with the same
/// key replaces an earlier one in place.
pub open spec fn existing_index(existing: Seq<EventView>, account: Seq<char>, cal: Seq<char>) -> Seq<(Seq<char>, int)>
    decreases existing.len(),
{
    if existing.len() == 0 {
        Seq::empty()
    } else {
        let m = existing_index(existing.drop_last(), account, cal);
        let e = existing.last();
        let i = existing.len() - 1;
        if from_calendar(e, account, cal) {
            let key = e.metadata.source_event_id;
            match key_pos(m, key) {
                Some(p) => m.update(p, (key, i)),
                None => m.push((key, i)),
            }
        } else {
            m
        }
    }
}

/// The steps for the fetched events so far and the keyed existing events left over.
pub open spec fn plan_state(fetched: Seq<EventView>, existing: Seq<EventView>, account: Seq<char>, cal: Seq<char>) -> (Seq<SyncStep>, Seq<(Seq<char>, int)>)
    decreases fetched.len(),
{
    if fetched.len() == 0 {
        (Seq::empty(), existing_index(existing, account, cal))
    } else {
        let (steps, rem) = plan_state(fetched.drop_last(), existing, account, cal);
        let f = fetched.last();
        let i = (fetched.len() - 1) as usize;
        match key_pos(rem, f.metadata.source_event_id) {
            Some(p) => {
                let ex = rem[p].1;
                if existing[ex].metadata.etag != f.metadata.etag {
                    (steps.push(SyncStep::Update(i, ex as usize)), rem.remove(p))
                } else {
                    (steps.push(SyncStep::Skip(i)), rem.remove(p))
                }
            },
            None => (steps.push(SyncStep::Create(i)), rem),
        }
    }
}

pub open spec fn count_steps(steps: Seq<SyncStep>, kind: int) -> int
    decreases steps.len(),
{
    if steps.len() == 0 {
        0
    } else {
        count_steps(steps.drop_last(), kind) + match steps.last() {
            SyncStep::Create(_) => if kind == 0 { 1int } else { 0int },
            SyncStep::Update(_, _) => if kind == 1 { 1int } else { 0int },
            SyncStep::Skip(_) => if kind == 2 { 1int } else { 0int },
        }
    }
}

proof fn lemma_count_le(steps: Seq<SyncStep>, kind: int)
    ensures
        0 <= count_steps(steps, kind) <= steps.len(),
    decreases steps.len(),
{
    if steps.len() > 0 {
        lemma_count_le(steps.drop_last(), kind);
    }
}

proof fn lemma_index_bounds(existing: Seq<EventView>, account: Seq<char>, cal: Seq<char>)
    ensures
        existing_index(existing, account, cal).len() <= existing.len(),
        forall|p: int| 0 <= p < existing_index(existing, account, cal).len() ==> 0 <= #[trigger] existing_index(existing, account, cal)[p].1 < existing.len(),
    decreases existing.len(),
{
    if existing.len() > 0 {
        lemma_index_bounds(existing.drop_last(), account, cal);
        let m = existing_index(existing.drop_last(), account, cal);
        match key_pos(m, existing.last().metadata.source_event_id) {
            Some(p) => lemma_key_pos(m, existing.last().metadata.source_event_id),
            None => {},
        }
    }
}

pub(crate) proof fn lemma_key_pos(m: Seq<(Seq<char>, int)>, key: Seq<char>)
    ensures
        match key_pos(m, key) {
            Some(p) => 0 <= p < m.len() && m[p].0 == key,
            None => forall|q: int| 0 <= q < m.len() ==> m[q].0 != key,
        },
    decreases m.len(),
{
    if m.len() > 0 {
        lemma_key_pos(m.drop_last(), key);
        if key_pos(m, key) is None {
            assert forall|q: int| 0 <= q < m.len() implies m[q].0 != key by {
                if q < m.len() - 1 {
                    assert(m.drop_last()[q] == m[q]);
                }
            }
        }
    }
}

proof fn lemma_plan_bounds(fetched: Seq<EventView>, existing: Seq<EventView>, account: Seq<char>, cal: Seq<char>)
    ensures
        plan_state(fetched, existing, account, cal).0.len() == fetched.len(),
        plan_state(fetched, existing, account, cal).1.len() <= existing.len(),
        forall|p: int| 0 <= p < plan_state(fetched, existing, account, cal).1.len() ==> 0 <= #[trigger] plan_state(fetched, existing, account, cal).1[p].1 < existing.len(),
    decreases fetched.len(),
{
    if fetched.len() == 0 {
        lemma_index_bounds(existing, account, cal);
    } else {
        lemma_plan_bounds(fetched.drop_last(), existing, account, cal);
        let (steps, rem) = plan_state(fetched.drop_last(), existing, account, cal);
        lemma_key_pos(rem, fetched.last().metadata.source_event_id);
        match key_pos(rem, fetched.last().metadata.source_event_id) {
            Some(p) => {
                assert forall|q: int| 0 <= q < rem.remove(p).len() implies 0 <= #[trigger] rem.remove(p)[q].1 < existing.len() by {
                    if q < p {
                        assert(rem.remove(p)[q] == rem[q]);
                    } else {
                        assert(rem.remove(p)[q] == rem[q + 1]);
                    }
                }
            },
            None => {},
        }
    }
}

fn find_key(m: &Vec<(String, usize)>, key: &String) -> (r: Option<usize>)
    ensures
        key_pos(m@.map_values(|e: (String, usize)| (e.0@, e.1 as int)), key@) == match r {
            Some(p) => Some(p as int),
            None => None::<int>,
        },
        r matches Some(p) ==> p < m.len(),
{
    let ghost mv = m@.map_values(|e: (String, usize)| (e.0@, e.1 as int));
    let mut k: usize = m.len();
    assert(mv.take(k as int) == mv);
    while k > 0
        invariant
            k <= m.len(),
            mv == m@.map_values(|e: (String, usize)| (e.0@, e.1 as int)),
            key_pos(mv, key@) == key_pos(mv.take(k as int), key@),
        decreases k,
    {
        assert(mv.take(k as int).last() == mv[k - 1]);
        assert(mv.take(k as int).drop_last() == mv.take(k - 1));
        if string_eq(&m[k - 1].0, key.as_str()) {
            return Some(k - 1);
        }
        k = k - 1;
    }
    None
}

/// Plans a synchronisation: each fetched event is created when no existing event of this
/// account's calendar has its source id, updated (keeping the existing id) when one does
/// with another etag, skipped when the etag is the same; existing calendar events that no
/// fetched event names are counted as stale.
pub fn plan_sync(fetched: &Vec<EventEntity>, existing: &Vec<EventEntity>, account_email: &str, calendar_id: &str) -> (r: SyncPlan)
    requires
        fetched.len() < i64::MAX,
        existing.len() < i64::MAX,
    ensures
        r.steps@ == plan_state(event_views(fetched@), event_views(existing@), account_email@, calendar_id@).0,
        r.result.created == count_steps(r.steps@, 0),
        r.result.updated == count_steps(r.steps@, 1),
        r.result.skipped == count_steps(r.steps@, 2),
        r.result.stale == plan_state(event_views(fetched@), event_views(existing@), account_email@, calendar_id@).1.len(),
{
    let ghost fv = event_views(fetched@);
    let ghost xv = event_views(existing@);
    let ghost acc = account_email@;
    let ghost cal = calendar_id@;
    let gc = string_of(&chars_of("google_calendar"));
    let mut m: Vec<(String, usize)> = Vec::new();
    let mut j: usize = 0;
    assert(xv.take(0) == Seq::<EventView>::empty());
    assert(m@.map_values(|e: (String, usize)| (e.0@, e.1 as int)) =~= Seq::<(Seq<char>, int)>::empty());
    while j < existing.len()
        invariant
            j <= existing.len(),
            xv == event_views(existing@),
            gc@ == google_calendar(),
            m@.map_values(|e: (String, usize)| (e.0@, e.1 as int)) == existing_index(xv.take(j as int), acc, cal),
            acc == account_email@,
            cal == calendar_id@,
        decreases existing.len() - j,
    {
        assert(xv.take(j + 1).drop_last() == xv.take(j as int));
        assert(xv.take(j + 1).last() == existing@[j as int]@);
        let e = &existing[j];
        if string_eq(&e.metadata.source_platform, gc.as_str()) && string_eq(&e.metadata.source_account, account_email) && string_eq(&e.metadata.source_calendar_id, calendar_id) {
            let key = e.metadata.source_event_id.clone();
            let ghost old = m@;
            match find_key(&m, &key) {
                Some(p) => {
                    m.set(p, (key, j));
                    assert(m@.map_values(|e: (String, usize)| (e.0@, e.1 as int)) =~= old.map_values(|e: (String, usize)| (e.0@, e.1 as int)).update(p as int, (existing@[j as int]@.metadata.source_event_id, j as int)));
                },
                None => {
                    m.push((key, j));
                    assert(m@.map_values(|e: (String, usize)| (e.0@, e.1 as int)) =~= old.map_values(|e: (String, usize)| (e.0@, e.1 as int)).push((existing@[j as int]@.metadata.source_event_id, j as int)));
                },
            }
        }
        j = j + 1;
    }
    assert(xv.take(existing@.len() as int) == xv);
    let mut steps: Vec<SyncStep> = Vec::new();
    let mut created: i64 = 0;
    let mut updated: i64 = 0;
    let mut skipped: i64 = 0;
    let mut i: usize = 0;
    assert(fv.take(0) == Seq::<EventView>::empty());
    proof {
        lemma_index_bounds(xv, acc, cal);
        assert forall|p: int| 0 <= p < m.len() implies #[trigger] m@[p].1 < existing.len() by {
            assert(m@.map_values(|e: (String, usize)| (e.0@, e.1 as int))[p].1 == m@[p].1 as int);
        }
        assert(fv.take(0) == Seq::<EventView>::empty());
    }
    while i < fetched.len()
        invariant
            i <= fetched.len(),
            fetched.len() < i64::MAX,
            fv == event_views(fetched@),
            xv == event_views(existing@),
            acc == account_email@,
            cal == calendar_id@,
            steps@ == plan_state(fv.take(i as int), xv, acc, cal).0,
            m@.map_values(|e: (String, usize)| (e.0@, e.1 as int)) == plan_state(fv.take(i as int), xv, acc, cal).1,
            forall|p: int| 0 <= p < m.len() ==> #[trigger] m@[p].1 < existing.len(),
            created == count_steps(steps@, 0),
            updated == count_steps(steps@, 1),
            skipped == count_steps(steps@, 2),
            steps.len() == i,
        decreases fetched.len() - i,
    {
        assert(fv.take(i + 1).drop_last() == fv.take(i as int));
        assert(fv.take(i + 1).last() == fetched@[i as int]@);
        assert(fv.take(i + 1).len() - 1 == i);
        proof {
            lemma_count_le(steps@, 0);
            lemma_count_le(steps@, 1);
            lemma_count_le(steps@, 2);
        }
        let f = &fetched[i];
        let ghost old_steps = steps@;
        let ghost old_m = m@;
        let ghost mv = old_m.map_values(|e: (String, usize)| (e.0@, e.1 as int));
        match find_key(&m, &f.metadata.source_event_id) {
            Some(p) => {
                let ex = m[p].1;
                assert(mv[p as int].1 == ex as int);
                m.remove(p);
                assert(m@.map_values(|e: (String, usize)| (e.0@, e.1 as int)) =~= mv.remove(p as int));
                assert forall|q: int| 0 <= q < m.len() implies #[trigger] m@[q].1 < existing.len() by {
                    if q < p {
                        assert(m@[q] == old_m[q]);
                    } else {
                        assert(m@[q] == old_m[q + 1]);
                    }
                }
                if !string_eq(&existing[ex].metadata.etag, f.metadata.etag.as_str()) {
                    steps.push(SyncStep::Update(i, ex));
                    updated = updated + 1;
                } else {
                    steps.push(SyncStep::Skip(i));
                    skipped = skipped + 1;
                }
            },
            None => {
                steps.push(SyncStep::Create(i));
                created = created + 1;
            },
        }
        assert(steps@.drop_last() == old_steps);
        i = i + 1;
    }
    assert(fv.take(fetched@.len() as int) == fv);
    assert(m@.map_values(|e: (String, usize)| (e.0@, e.1 as int)).len() == m.len());
    proof {
        lemma_plan_bounds(fv, xv, acc, cal);
    }
    let stale = m.len() as i64;
    SyncPlan { steps, result: SyncResult { created, updated, skipped, stale } }
}

/// The string member `key` of a JSON object.
pub open spec fn json_text_at(v: JsonValue, key: Seq<char>) -> Option<Seq<char>> {
    match member(v, key) {
        Some(JsonValue::Str(s)) => Some(s@),
        _ => None,
    }
}

/// The `dateTime` (else `date`) string of the object under `key`.
pub open spec fn json_time_at(v: JsonValue, key: Seq<char>) -> Option<Seq<char>> {
    match member(v, key) {
        Some(t) => {
            let x = if member(t, "dateTime"@) is Some {
                member(t, "dateTime"@)
            } else {
                member(t, "date"@)
            };
            match x {
                Some(JsonValue::Str(s)) => Some(s@),
                _ => None,
            }
        },
        None => None,
    }
}

/// The `email` strings of the `attendees` array, each a string or none.
pub open spec fn json_attendees(v: JsonValue) -> Option<Seq<Option<Seq<char>>>> {
    match member(v, "attendees"@) {
        Some(JsonValue::Array(xs)) => Some(xs@.map_values(|a: JsonValue| json_text_at(a, "email"@))),
        _ => None,
    }
}

fn text_at(v: &JsonValue, key: &str) -> (r: Option<String>)
    ensures
        opt_str(r) == json_text_at(*v, key@),
{
    match get_member(v, key) {
        Some(JsonValue::Str(s)) => Some(s.clone()),
        _ => None,
    }
}

fn time_at(v: &JsonValue, key: &str) -> (r: Option<String>)
    ensures
        opt_str(r) == json_time_at(*v, key@),
{
    match get_member(v, key) {
        Some(t) => {
            let x = match get_member(t, "dateTime") {
                Some(d) => Some(d),
                None => get_member(t, "date"),
            };
            match x {
                Some(JsonValue::Str(s)) => Some(s.clone()),
                _ => None,
            }
        },
        None => None,
    }
}

/// What the library reads of an event fetched from Google Calendar: its start and end
/// (`dateTime`, else `date`), id, attendees' emails, etag, recurring event id, update
/// time, summary, description and location, each when it is a string.
pub fn gcal_fields(raw: &JsonValue) -> (f: GCalEventFields)
    ensures
        opt_str(f.start) == json_time_at(*raw, "start"@),
        opt_str(f.end) == json_time_at(*raw, "end"@),
        opt_str(f.id) == json_text_at(*raw, "id"@),
        (match f.attendees {
            Some(v) => Some(v@.map_values(|x: Option<String>| opt_str(x))),
            None => None,
        }) == json_attendees(*raw),
        opt_str(f.etag) == json_text_at(*raw, "etag"@),
        opt_str(f.recurring_event_id) == json_text_at(*raw, "recurringEventId"@),
        opt_str(f.updated) == json_text_at(*raw, "updated"@),
        opt_str(f.summary) == json_text_at(*raw, "summary"@),
        opt_str(f.description) == json_text_at(*raw, "description"@),
        opt_str(f.location) == json_text_at(*raw, "location"@),
{
    let attendees = match get_member(raw, "attendees") {
        Some(JsonValue::Array(xs)) => {
            let mut out: Vec<Option<String>> = Vec::new();
            let mut i: usize = 0;
            while i < xs.len()
                invariant
                    i <= xs.len(),
                    out@.map_values(|x: Option<String>| opt_str(x)) == xs@.take(i as int).map_values(
                        |a: JsonValue| json_text_at(a, "email"@),
                    ),
                decreases xs.len() - i,
            {
                let t = text_at(&xs[i], "email");
                let ghost old = out@;
                out.push(t);
                assert(out@.map_values(|x: Option<String>| opt_str(x)) =~= old.map_values(|x: Option<String>| opt_str(x)).push(opt_str(t)));
                assert(xs@.take(i + 1).map_values(|a: JsonValue| json_text_at(a, "email"@)) =~= xs@.take(i as int).map_values(
                    |a: JsonValue| json_text_at(a, "email"@),
                ).push(json_text_at(xs@[i as int], "email"@)));
                i = i + 1;
            }
            assert(xs@.take(xs@.len() as int) =~= xs@);
            Some(out)
        },
        _ => None,
    };
    GCalEventFields {
        start: time_at(raw, "start"),
        end: time_at(raw, "end"),
        id: text_at(raw, "id"),
        attendees,
        etag: text_at(raw, "etag"),
        recurring_event_id: text_at(raw, "recurringEventId"),
        updated: text_at(raw, "updated"),
        summary: text_at(raw, "summary"),
        description: text_at(raw, "description"),
        location: text_at(raw, "location"),
    }
}

} // verus!
