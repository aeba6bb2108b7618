//! Laws that say what single operations give, stated against their inputs: the length of
//! a time reference's units, the fields a fetched calendar event carries over, the lines a
//! task deletion keeps, the rows an events page query selects, and the extent of a
//! `#project` reference.

use vstd::prelude::*;
use crate::gcal::{json_time_at, gcal_entities, gcal_entity, gcal_time_text, GCalEventFields};
use crate::models::EventView;
use crate::text::{is_ws, trim_end_seq, trim_seq, trim_start_seq};
use crate::models::opt_str;
use crate::storage::string_items_spec;
use crate::time::offset_secs;
use crate::laws::{lemma_pieces_of_join, lemma_pieces_sep_free};
use crate::repository::{page_size_of, delete_result, is_full_task, lead_ws, line_index, starts_as_task, toggle_result, update_result};
use crate::storage::sanitized;
use crate::text::{has_suffix, join_seq, split_pieces};
use crate::index::{event_row_selected, has_sub, note_row_selected, task_row_selected, EventRow, NoteRow, TaskRow};
use crate::queries::{bind_if, cond_if, events_binds, events_sql, notes_binds, notes_sql, page_sql, tasks_binds, tasks_sql};
use crate::watcher::lex_lt;
use crate::chars::{in_class, lemma_run_end_bounds, run_end, unicode_decimal_digit, unicode_word_char, CharClass};
use crate::tasks::{ref_deadline, name_lookup, resolved_events, resolved_projects, ref_at, ref_event_ids, relative_at, scan_refs, RefMatch, after_word, before_word, deadline_outcome, event_lookup, keys_distinct, resolved_task, scan_projects, task_from_line, EventRef};
use crate::models::{TaskView, TimeRefView};
use crate::time::{instant_in_range, iso_seconds_text, naive_date_seconds, rfc3339_seconds};
use crate::json::{member, JsonValue};

verus! {

/// Whether `s` seconds fit in a chrono `TimeDelta` (at most `i64::MAX` milliseconds).
pub open spec fn fits_delta(s: int) -> bool {
    -9223372036854775 <= s <= 9223372036854775
}

/// A time reference's offset counts its amount in the unit's length: a minute is 60
/// seconds, an hour 3600, a day 86400, a week seven days, a month thirty days, a year 365
/// days, and an unknown unit a day. The offset exists exactly when those seconds fit in a
/// duration.
pub proof fn law_offset_unit_lengths(n: i64, unit: Seq<char>)
    ensures
        offset_secs(n, seq!['m']) == (if fits_delta(n * 60) { Some(n * 60) } else { None::<int> }),
        offset_secs(n, seq!['h']) == (if fits_delta(n * 3600) { Some(n * 3600) } else { None::<int> }),
        offset_secs(n, seq!['d']) == (if fits_delta(n * 86400) { Some(n * 86400) } else { None::<int> }),
        offset_secs(n, seq!['W']) == (if fits_delta(n * 7 * 86400) { Some(n * 7 * 86400) } else { None::<int> }),
        offset_secs(n, seq!['M']) == (if fits_delta(n * 30 * 86400) { Some(n * 30 * 86400) } else { None::<int> }),
        offset_secs(n, seq!['Y']) == (if fits_delta(n * 365 * 86400) { Some(n * 365 * 86400) } else { None::<int> }),
        unit != seq!['m'] && unit != seq!['h'] && unit != seq!['d'] && unit != seq!['W'] && unit != seq!['M']
            && unit != seq!['Y'] ==> offset_secs(n, unit) == offset_secs(n, seq!['d']),
{
    assert(seq!['m'] != seq!['h'] && seq!['m'] != seq!['d'] && seq!['m'] != seq!['W']) by {
        assert(seq!['m'][0] != seq!['h'][0]);
        assert(seq!['m'][0] != seq!['d'][0]);
        assert(seq!['m'][0] != seq!['W'][0]);
    }
    assert(seq!['h'] != seq!['d'] && seq!['h'] != seq!['W'] && seq!['h'] != seq!['M']) by {
        assert(seq!['h'][0] != seq!['d'][0]);
        assert(seq!['h'][0] != seq!['W'][0]);
        assert(seq!['h'][0] != seq!['M'][0]);
    }
    assert(seq!['d'] != seq!['W'] && seq!['d'] != seq!['M'] && seq!['d'] != seq!['Y'] && seq!['d'] != seq!['m']) by {
        assert(seq!['d'][0] != seq!['W'][0]);
        assert(seq!['d'][0] != seq!['M'][0]);
        assert(seq!['d'][0] != seq!['Y'][0]);
        assert(seq!['d'][0] != seq!['m'][0]);
    }
    assert(seq!['W'] != seq!['M'] && seq!['W'] != seq!['Y'] && seq!['M'] != seq!['Y']) by {
        assert(seq!['W'][0] != seq!['M'][0]);
        assert(seq!['W'][0] != seq!['Y'][0]);
        assert(seq!['M'][0] != seq!['Y'][0]);
    }
    assert(seq!['m'] != seq!['M'] && seq!['m'] != seq!['Y'] && seq!['h'] != seq!['Y']) by {
        assert(seq!['m'][0] != seq!['M'][0]);
        assert(seq!['m'][0] != seq!['Y'][0]);
        assert(seq!['h'][0] != seq!['Y'][0]);
    }
}

/// The text of an optional field, or the empty text.
pub open spec fn text_or_empty(o: Option<String>) -> Seq<char> {
    match o {
        Some(s) => s@,
        None => Seq::empty(),
    }
}

/// A fetched calendar event converts exactly when it has an id and a start and an end
/// that parse; the vault event then carries the fetched id, times, description and
/// location each into its own field (a missing description or location as empty text),
/// the summary as its name (`(No title)` when missing), and is sourced from Google
/// Calendar under the given account and calendar.
pub proof fn law_gcal_fields_carried(g: GCalEventFields, account: Seq<char>, cal: Seq<char>, now: Seq<char>)
    ensures
        gcal_entity(g, account, cal, now) is Some <==> (g.id is Some && gcal_time_text(opt_str(g.start)) is Some
            && gcal_time_text(opt_str(g.end)) is Some),
        gcal_entity(g, account, cal, now) matches Some(e) ==> {
            &&& e.id == g.id->0@
            &&& e.from_ == gcal_time_text(opt_str(g.start))->0
            &&& e.to == gcal_time_text(opt_str(g.end))->0
            &&& e.description == text_or_empty(g.description)
            &&& e.location == text_or_empty(g.location)
            &&& e.name == (match g.summary {
                Some(s) => s@,
                None => "(No title)"@,
            })
            &&& e.source == "google_calendar"@
            &&& e.metadata.source_platform == "google_calendar"@
            &&& e.metadata.source_event_id == g.id->0@
            &&& e.metadata.source_account == account
            &&& e.metadata.source_calendar_id == cal
            &&& e.metadata.etag == text_or_empty(g.etag)
            &&& e.metadata.recurring_event_id == text_or_empty(g.recurring_event_id)
            &&& e.metadata.last_synced_at == Some(now)
            &&& g.attendees is None ==> e.participants.len() == 0
            &&& g.attendees matches Some(v) ==> (forall|i: int| 0 <= i < v@.len() ==> (#[trigger] v@[i]) is Some) ==> {
                &&& e.participants.len() == v@.len()
                &&& forall|i: int| 0 <= i < v@.len() ==> e.participants[i] == (#[trigger] v@[i])->0@
            }
        },
{
    if let Some(v) = g.attendees {
        lemma_items_all_present(v@);
    }
}

/// The events of one fetched event: the converted event, or none.
pub open spec fn converted_one(g: GCalEventFields, account: Seq<char>, cal: Seq<char>, now: Seq<char>) -> Seq<EventView> {
    match gcal_entity(g, account, cal, now) {
        Some(e) => seq![e],
        None => Seq::empty(),
    }
}

/// Converting a batch of fetched events converts each on its own and keeps their order:
/// the batch `a` then `b` gives what `a` gives then what `b` gives, and one event gives
/// its conversion, or nothing when it does not convert.
pub proof fn law_gcal_batch(a: Seq<GCalEventFields>, b: Seq<GCalEventFields>, g: GCalEventFields, account: Seq<char>, cal: Seq<char>, now: Seq<char>)
    ensures
        gcal_entities(a + b, account, cal, now) == gcal_entities(a, account, cal, now) + gcal_entities(b, account, cal, now),
        gcal_entities(seq![g], account, cal, now) == converted_one(g, account, cal, now),
    decreases b.len(),
{
    assert(seq![g].drop_last() =~= Seq::<GCalEventFields>::empty());
    assert(seq![g].last() == g);
    assert(gcal_entities(Seq::<GCalEventFields>::empty(), account, cal, now) == Seq::<EventView>::empty());
    if let Some(e) = gcal_entity(g, account, cal, now) {
        assert(Seq::<EventView>::empty().push(e) =~= seq![e]);
    }
    if b.len() == 0 {
        assert(a + b =~= a);
    } else {
        law_gcal_batch(a, b.drop_last(), g, account, cal, now);
        assert((a + b).drop_last() =~= a + b.drop_last());
        assert((a + b).last() == b.last());
    }
}

proof fn lemma_items_all_present(items: Seq<Option<String>>)
    ensures
        (forall|i: int| 0 <= i < items.len() ==> (#[trigger] items[i]) is Some) ==> {
            &&& string_items_spec(items).len() == items.len()
            &&& forall|i: int| 0 <= i < items.len() ==> string_items_spec(items)[i] == (#[trigger] items[i])->0@
        },
    decreases items.len(),
{
    if items.len() > 0 {
        let d = items.drop_last();
        lemma_items_all_present(d);
        if forall|i: int| 0 <= i < items.len() ==> (#[trigger] items[i]) is Some {
            assert forall|i: int| 0 <= i < d.len() implies (#[trigger] d[i]) is Some by {
                assert(d[i] == items[i]);
            }
            assert(items.last() == items[items.len() - 1]);
            assert forall|i: int| 0 <= i < items.len() implies string_items_spec(items)[i] == (#[trigger] items[i])->0@ by {
                if i < d.len() {
                    assert(d[i] == items[i]);
                }
            }
        }
    }
}

/// Deleting the task on line `n` (counted from 1) succeeds exactly when the file has that
/// line and it starts as a checkbox item, and then takes out that line and nothing else:
/// before sanitising, the new text is the other lines in their order, joined by line
/// breaks, with the file's final line break kept (and empty when the line was the only
/// one). (A line number is taken as a `usize` index, hence the bound.)
pub proof fn law_delete_removes_one_line(text: Seq<char>, n: i64)
    requires
        1 <= n <= usize::MAX,
    ensures
        delete_result(text, n) is Ok <==> (n <= split_pieces(text, '\n').len() && starts_as_task(
            split_pieces(text, '\n')[n - 1],
        )),
        delete_result(text, n) matches Ok(c) ==> exists|d: Seq<char>|
            {
                &&& c == sanitized(if has_suffix(text, seq!['\n']) { d.push('\n') } else { d })
                &&& split_pieces(text, '\n').len() > 1 ==> split_pieces(d, '\n') == split_pieces(text, '\n').remove(n - 1)
                &&& split_pieces(text, '\n').len() == 1 ==> d.len() == 0
            },
{
    let ls = split_pieces(text, '\n');
    assert(line_index(n) as int == n - 1);
    if delete_result(text, n) is Ok {
        let rest = ls.remove(n - 1);
        let d = join_seq(rest, seq!['\n']);
        if ls.len() > 1 {
            lemma_pieces_sep_free(text, '\n');
            assert forall|j: int, i: int| 0 <= j < rest.len() && 0 <= i < rest[j].len() implies #[trigger] rest[j][i]
                != '\n' by {
                if j < n - 1 {
                    assert(rest[j] == ls[j]);
                } else {
                    assert(rest[j] == ls[j + 1]);
                }
            }
            lemma_pieces_of_join(rest, '\n');
        } else {
            assert(rest.len() == 0);
        }
        assert(delete_result(text, n) == Ok::<Seq<char>, Seq<char>>(
            sanitized(if has_suffix(text, seq!['\n']) { d.push('\n') } else { d }),
        ));
    }
}

/// What a condition on the events table, with its `?` bound to `v`, says of a row: the
/// comparisons of the `from_` and `to_` columns with `v` (text compares by code point, as
/// SQLite's BINARY collation compares UTF-8 bytes); a condition text outside these holds
/// of no row here.
pub open spec fn event_cond_holds(cond: Seq<char>, v: Seq<char>, r: EventRow) -> bool {
    if cond == "to_ >= ?"@ {
        !lex_lt(r.to@, v)
    } else if cond == "to_ <= ?"@ {
        !lex_lt(v, r.to@)
    } else if cond == "from_ >= ?"@ {
        !lex_lt(r.from_@, v)
    } else if cond == "from_ <= ?"@ {
        !lex_lt(v, r.from_@)
    } else {
        false
    }
}

/// Every condition holds of the row, each with the value bound to its parameter.
pub open spec fn event_conds_hold(conds: Seq<Seq<char>>, binds: Seq<Seq<char>>, r: EventRow) -> bool {
    &&& conds.len() == binds.len()
    &&& forall|i: int| 0 <= i < conds.len() ==> event_cond_holds(#[trigger] conds[i], binds[i], r)
}

/// An event overlaps the range: it ends at or after `from_` and starts at or before `to`
/// (a missing bound does not limit).
pub open spec fn overlaps_range(r: EventRow, from_: Option<&str>, to: Option<&str>) -> bool {
    &&& from_ matches Some(f) ==> !lex_lt(r.to@, f@)
    &&& to matches Some(t) ==> !lex_lt(t@, r.from_@)
}

/// The events page query filters as the listing promises: its SQL is a select on the
/// events table whose `WHERE` conditions, with the bound values, hold of a row exactly
/// when the event overlaps the range (ends at or after `from_`, starts at or before `to`);
/// and that is the selection the page's rows are held to.
pub proof fn law_events_query_selects(page_size: u32, offset: i64, from_: Option<&str>, to: Option<&str>)
    ensures
        exists|conds: Seq<Seq<char>>|
            {
                &&& events_sql(page_size, offset, from_, to) == page_sql(
                    "events"@,
                    conds,
                    "from_ ASC, to_ ASC, id ASC"@,
                    page_size,
                    offset,
                )
                &&& forall|r: EventRow| #[trigger] event_conds_hold(conds, events_binds(from_, to), r) <==> overlaps_range(r, from_, to)
            },
        forall|r: EventRow| #[trigger] event_row_selected(r, from_, to) <==> overlaps_range(r, from_, to),
{
    reveal_strlit("to_ >= ?");
    reveal_strlit("to_ <= ?");
    reveal_strlit("from_ >= ?");
    reveal_strlit("from_ <= ?");
    let a = "to_ >= ?"@;
    let b = "from_ <= ?"@;
    assert(b != "to_ >= ?"@ && b != "to_ <= ?"@ && b != "from_ >= ?"@) by {
        assert(b[0] != "to_ >= ?"@[0]);
        assert(b[0] != "to_ <= ?"@[0]);
        assert(b[6] != "from_ >= ?"@[6]);
    }
    let conds = cond_if(from_, a) + cond_if(to, b);
    let binds = events_binds(from_, to);
    assert(binds == bind_if(from_, false) + bind_if(to, false));
    assert forall|r: EventRow| #[trigger] event_conds_hold(conds, binds, r) <==> overlaps_range(r, from_, to) by {
        match from_ {
            Some(f) => {
                assert(conds[0] == a && binds[0] == f@);
                match to {
                    Some(t) => {
                        assert(conds[1] == b && binds[1] == t@);
                    },
                    None => {},
                }
            },
            None => {
                match to {
                    Some(t) => {
                        assert(conds[0] == b && binds[0] == t@);
                    },
                    None => {},
                }
            },
        }
        if overlaps_range(r, from_, to) {
            assert forall|i: int| 0 <= i < conds.len() implies event_cond_holds(#[trigger] conds[i], binds[i], r) by {}
        }
    }
    assert(events_sql(page_size, offset, from_, to) == page_sql(
        "events"@,
        conds,
        "from_ ASC, to_ ASC, id ASC"@,
        page_size,
        offset,
    ));
}

/// A character that a project reference may hold: a word character (`\\w`) or `-`.
pub open spec fn project_char(c: char) -> bool {
    unicode_word_char(c) || c == '-'
}

/// `t` has at `k` a `#` followed by the project id `p`: a non-empty run of project
/// characters that goes on as far as such characters go.
pub open spec fn is_project_ref_at(t: Seq<char>, k: int, p: Seq<char>) -> bool {
    &&& 0 <= k && k + 1 + p.len() <= t.len()
    &&& t[k] == '#'
    &&& p.len() > 0
    &&& t.subrange(k + 1, k + 1 + p.len()) == p
    &&& forall|x: int| 0 <= x < p.len() ==> project_char(#[trigger] p[x])
    &&& k + 1 + p.len() < t.len() ==> !project_char(t[k + 1 + p.len()])
}

proof fn lemma_run_end_at(t: Seq<char>, j: int, m: int)
    requires
        0 <= j <= m <= t.len(),
        forall|x: int| j <= x < m ==> project_char(#[trigger] t[x]),
        m < t.len() ==> !project_char(t[m]),
    ensures
        run_end(t, j, CharClass::ProjectId) == m,
    decreases m - j,
{
    if j < m {
        assert(project_char(t[j]));
        lemma_run_end_at(t, j + 1, m);
    }
}

/// `t` has somewhere a `#` followed by the whole project id `p`.
pub open spec fn has_project_ref(t: Seq<char>, p: Seq<char>) -> bool {
    exists|k: int| #[trigger] is_project_ref_at(t, k, p)
}

spec fn ref_from(t: Seq<char>, j: int, p: Seq<char>) -> bool {
    exists|k: int| j <= k && #[trigger] is_project_ref_at(t, k, p)
}

proof fn lemma_scan_sound(t: Seq<char>, j: int)
    requires
        0 <= j,
    ensures
        forall|i: int| 0 <= i < scan_projects(t, j).len() ==> ref_from(t, j, #[trigger] scan_projects(t, j)[i]),
    decreases t.len() - j,
{
    if j < t.len() {
        let e = run_end(t, j + 1, CharClass::ProjectId);
        let r = scan_projects(t, j);
        if t[j] == '#' && j + 1 < e <= t.len() {
            lemma_scan_sound(t, e);
            lemma_run_end_bounds(t, j + 1, CharClass::ProjectId);
            let p = t.subrange(j + 1, e);
            assert(r == seq![p] + scan_projects(t, e));
            assert forall|i: int| 0 <= i < r.len() implies ref_from(t, j, #[trigger] r[i]) by {
                if i == 0 {
                    assert forall|x: int| 0 <= x < p.len() implies project_char(#[trigger] p[x]) by {
                        assert(p[x] == t[j + 1 + x]);
                        assert(in_class(CharClass::ProjectId, t[j + 1 + x]));
                    }
                    assert(t.subrange(j + 1, j + 1 + p.len()) == p);
                    if e < t.len() {
                        assert(!in_class(CharClass::ProjectId, t[e]));
                    }
                    assert(is_project_ref_at(t, j, r[0]));
                } else {
                    assert(r[i] == scan_projects(t, e)[i - 1]);
                    assert(ref_from(t, e, scan_projects(t, e)[i - 1]));
                    let k = choose|k: int| e <= k && #[trigger] is_project_ref_at(t, k, r[i]);
                    assert(is_project_ref_at(t, k, r[i]));
                }
            }
        } else {
            lemma_scan_sound(t, j + 1);
            assert(r == scan_projects(t, j + 1));
            assert forall|i: int| 0 <= i < r.len() implies ref_from(t, j, #[trigger] r[i]) by {
                assert(ref_from(t, j + 1, scan_projects(t, j + 1)[i]));
                let k = choose|k: int| j + 1 <= k && #[trigger] is_project_ref_at(t, k, r[i]);
                assert(is_project_ref_at(t, k, r[i]));
            }
        }
    }
}

proof fn lemma_scan_complete(t: Seq<char>, j: int, k: int)
    requires
        0 <= j <= k,
        k + 1 < t.len(),
        t[k] == '#',
        project_char(t[k + 1]),
        !unicode_word_char('#'),
    ensures
        scan_projects(t, j).contains(t.subrange(k + 1, run_end(t, k + 1, CharClass::ProjectId))),
    decreases t.len() - j,
{
    let e = run_end(t, j + 1, CharClass::ProjectId);
    let r = scan_projects(t, j);
    let q = t.subrange(k + 1, run_end(t, k + 1, CharClass::ProjectId));
    lemma_run_end_bounds(t, j + 1, CharClass::ProjectId);
    if t[j] == '#' && j + 1 < e <= t.len() {
        assert(r == seq![t.subrange(j + 1, e)] + scan_projects(t, e));
        if k == j {
            assert(r[0] == q);
        } else {
            if k < e {
                assert(in_class(CharClass::ProjectId, t[k]));
                assert(false);
            }
            lemma_scan_complete(t, e, k);
            let i = choose|i: int| 0 <= i < scan_projects(t, e).len() && scan_projects(t, e)[i] == q;
            assert(r[i + 1] == q);
        }
    } else {
        if k == j {
            assert(in_class(CharClass::ProjectId, t[j + 1]));
            assert(run_end(t, j + 1, CharClass::ProjectId) == run_end(t, j + 2, CharClass::ProjectId));
            lemma_run_end_bounds(t, j + 2, CharClass::ProjectId);
            assert(false);
        }
        lemma_scan_complete(t, j + 1, k);
        assert(r == scan_projects(t, j + 1));
    }
}

/// The project ids a task names are exactly its text's whole `#` references: each is a
/// non-empty run of word characters and `-` right after a `#`, running on as far as such
/// characters go (so `#q3-launch` names `q3-launch`); and, `#` not being a word
/// character, every such reference in the text is named.
pub proof fn law_project_refs_whole(line: Seq<char>, src: Seq<char>, n: int)
    ensures
        task_from_line(line, src, n) matches Some(t) ==> {
            &&& forall|i: int| 0 <= i < t.project_ids.len() ==> has_project_ref(t.text, #[trigger] t.project_ids[i])
            &&& !unicode_word_char('#') ==> forall|k: int, p: Seq<char>| #[trigger] is_project_ref_at(t.text, k, p) ==> t.project_ids.contains(p)
        },
{
    if let Some(t) = task_from_line(line, src, n) {
        let x = t.text;
        assert(task_from_line(line, src, n)->0 == t);
        assert(t.project_ids == scan_projects(x, 0));
        lemma_scan_sound(x, 0);
        assert forall|i: int| 0 <= i < t.project_ids.len() implies has_project_ref(t.text, #[trigger] t.project_ids[i]) by {
            assert(ref_from(x, 0, scan_projects(x, 0)[i]));
            let k = choose|k: int| 0 <= k && #[trigger] is_project_ref_at(x, k, t.project_ids[i]);
            assert(is_project_ref_at(x, k, t.project_ids[i]));
        }

        if !unicode_word_char('#') {
            assert forall|k: int, p: Seq<char>| #[trigger] is_project_ref_at(t.text, k, p) implies t.project_ids.contains(p) by {
                let m = k + 1 + p.len();
                assert forall|y: int| k + 1 <= y < m implies project_char(#[trigger] x[y]) by {
                    assert(x[y] == p[y - k - 1]);
                }
                lemma_run_end_at(x, k + 1, m);
                assert(project_char(p[0]));
                assert(x[k + 1] == p[0]);
                lemma_scan_complete(x, 0, k);
            }
        }
    }
}

proof fn lemma_lookup_found(m: Seq<(String, EventRef)>, k: int)
    requires
        keys_distinct(m),
        0 <= k < m.len(),
    ensures
        event_lookup(m, m[k].0@) == Some(m[k].1),
    decreases m.len(),
{
    if k > 0 {
        let d = m.drop_first();
        assert(m[0].0@ != m[k].0@);
        assert(d[k - 1] == m[k]);
        assert forall|i: int, j: int| 0 <= i < j < d.len() implies d[i].0@ != d[j].0@ by {
            assert(d[i] == m[i + 1] && d[j] == m[j + 1]);
        }
        lemma_lookup_found(d, k - 1);
    }
}

proof fn lemma_lookup_missing(m: Seq<(String, EventRef)>, id: Seq<char>)
    requires
        forall|k: int| 0 <= k < m.len() ==> (#[trigger] m[k]).0@ != id,
    ensures
        event_lookup(m, id) is None,
    decreases m.len(),
{
    if m.len() > 0 {
        let d = m.drop_first();
        assert(m[0].0@ != id);
        assert forall|k: int| 0 <= k < d.len() implies (#[trigger] d[k]).0@ != id by {
            assert(d[k] == m[k + 1]);
        }
        lemma_lookup_missing(d, id);
    }
}

/// What a condition on the tasks table, with its `?` bound to `v`, says of a row: a
/// comparison of the deadline with `v` (a row without a deadline meets none, as SQL's
/// `NULL` compares to nothing), or `instr(column, ?) > 0`, that `v` occurs in the stored
/// id list; a condition text outside these holds of no row here.
pub open spec fn task_cond_holds(cond: Seq<char>, v: Seq<char>, r: TaskRow) -> bool {
    if cond == "deadline IS NOT NULL AND deadline >= ?"@ || cond == "deadline >= ?"@ {
        r.deadline matches Some(d) && !lex_lt(d@, v)
    } else if cond == "deadline IS NOT NULL AND deadline <= ?"@ || cond == "deadline <= ?"@ {
        r.deadline matches Some(d) && !lex_lt(v, d@)
    } else if cond == "instr(event_ids, ?) > 0"@ {
        has_sub(r.event_ids@, v)
    } else if cond == "instr(project_ids, ?) > 0"@ {
        has_sub(r.project_ids@, v)
    } else {
        false
    }
}

pub open spec fn task_conds_hold(conds: Seq<Seq<char>>, binds: Seq<Seq<char>>, r: TaskRow) -> bool {
    &&& conds.len() == binds.len()
    &&& forall|i: int| 0 <= i < conds.len() ==> task_cond_holds(#[trigger] conds[i], binds[i], r)
}

/// An id as a JSON list stores it: in double quotes.
pub open spec fn json_quoted(s: Seq<char>) -> Seq<char> {
    seq!['"'] + s + seq!['"']
}

/// A task meets the listing's filters: it has a deadline at or after `deadline_from` and at
/// or before `deadline_to`, and its stored event and project lists hold the quoted ids.
pub open spec fn task_meets_filters(
    r: TaskRow,
    deadline_from: Option<&str>,
    deadline_to: Option<&str>,
    event_id: Option<&str>,
    project_id: Option<&str>,
) -> bool {
    &&& deadline_from matches Some(f) ==> (r.deadline matches Some(d) && !lex_lt(d@, f@))
    &&& deadline_to matches Some(t) ==> (r.deadline matches Some(d) && !lex_lt(t@, d@))
    &&& event_id matches Some(e) ==> has_sub(r.event_ids@, json_quoted(e@))
    &&& project_id matches Some(q) ==> has_sub(r.project_ids@, json_quoted(q@))
}

/// The tasks page query filters as the listing promises: its SQL is a select on the tasks
/// table, by file, line and row id, whose `WHERE` conditions with the bound values hold of
/// a row exactly when the task meets the filters; and that is the selection the page's
/// rows are held to.
pub proof fn law_tasks_query_selects(
    page_size: u32,
    offset: i64,
    deadline_from: Option<&str>,
    deadline_to: Option<&str>,
    event_id: Option<&str>,
    project_id: Option<&str>,
)
    ensures
        exists|conds: Seq<Seq<char>>|
            {
                &&& tasks_sql(page_size, offset, deadline_from, deadline_to, event_id, project_id) == page_sql(
                    "tasks"@,
                    conds,
                    "source_file ASC, line_number ASC, rowid ASC"@,
                    page_size,
                    offset,
                )
                &&& forall|r: TaskRow| #[trigger] task_conds_hold(conds, tasks_binds(deadline_from, deadline_to, event_id, project_id), r)
                    <==> task_meets_filters(r, deadline_from, deadline_to, event_id, project_id)
            },
        forall|r: TaskRow| #[trigger] task_row_selected(r, deadline_from, deadline_to, event_id, project_id)
            <==> task_meets_filters(r, deadline_from, deadline_to, event_id, project_id),
{
    reveal_strlit("deadline IS NOT NULL AND deadline >= ?");
    reveal_strlit("deadline >= ?");
    reveal_strlit("deadline IS NOT NULL AND deadline <= ?");
    reveal_strlit("deadline <= ?");
    reveal_strlit("instr(event_ids, ?) > 0");
    reveal_strlit("instr(project_ids, ?) > 0");
    let c1 = "deadline IS NOT NULL AND deadline >= ?"@;
    let c2 = "deadline IS NOT NULL AND deadline <= ?"@;
    let c3 = "instr(event_ids, ?) > 0"@;
    let c4 = "instr(project_ids, ?) > 0"@;
    assert(c2 != c1 && c2 != "deadline >= ?"@) by {
        assert(c2[34] != c1[34]);
        assert(c2.len() != "deadline >= ?"@.len());
    }
    assert(c3 != c1 && c3 != "deadline >= ?"@ && c3 != c2 && c3 != "deadline <= ?"@) by {
        assert(c3[0] != c1[0]);
        assert(c3[0] != "deadline >= ?"@[0]);
        assert(c3[0] != c2[0]);
        assert(c3[0] != "deadline <= ?"@[0]);
    }
    assert(c4 != c1 && c4 != "deadline >= ?"@ && c4 != c2 && c4 != "deadline <= ?"@ && c4 != c3) by {
        assert(c4[0] != c1[0]);
        assert(c4[0] != "deadline >= ?"@[0]);
        assert(c4[0] != c2[0]);
        assert(c4[0] != "deadline <= ?"@[0]);
        assert(c4[6] != c3[6]);
    }
    let conds = cond_if(deadline_from, c1) + cond_if(deadline_to, c2) + cond_if(event_id, c3) + cond_if(project_id, c4);
    let binds = tasks_binds(deadline_from, deadline_to, event_id, project_id);
    let bs = bind_if(deadline_from, false) + bind_if(deadline_to, false) + bind_if(event_id, true) + bind_if(project_id, true);
    assert(binds == bs);
    let a1 = cond_if(deadline_from, c1);
    let a2 = cond_if(deadline_to, c2);
    let a3 = cond_if(event_id, c3);
    let a4 = cond_if(project_id, c4);
    let b1 = bind_if(deadline_from, false);
    let b2 = bind_if(deadline_to, false);
    let b3 = bind_if(event_id, true);
    let b4 = bind_if(project_id, true);
    assert(a1.len() == b1.len() && a2.len() == b2.len() && a3.len() == b3.len() && a4.len() == b4.len());
    assert forall|r: TaskRow| #[trigger] task_conds_hold(conds, binds, r)
        <==> task_meets_filters(r, deadline_from, deadline_to, event_id, project_id) by {
        let n1 = a1.len() as int;
        let n2 = n1 + a2.len();
        let n3 = n2 + a3.len();
        assert(conds.len() == binds.len());
        assert forall|i: int| 0 <= i < conds.len() implies (#[trigger] conds[i]) == (if i < n1 {
            a1[i]
        } else if i < n2 {
            a2[i - n1]
        } else if i < n3 {
            a3[i - n2]
        } else {
            a4[i - n3]
        }) && binds[i] == (if i < n1 {
            b1[i]
        } else if i < n2 {
            b2[i - n1]
        } else if i < n3 {
            b3[i - n2]
        } else {
            b4[i - n3]
        }) by {}
        if task_conds_hold(conds, binds, r) {
            if deadline_from is Some {
                assert(task_cond_holds(conds[0], binds[0], r));
            }
            if deadline_to is Some {
                assert(task_cond_holds(conds[n1], binds[n1], r));
            }
            if event_id is Some {
                assert(task_cond_holds(conds[n2], binds[n2], r));
            }
            if project_id is Some {
                assert(task_cond_holds(conds[n3], binds[n3], r));
            }
        }
    }
    assert(tasks_sql(page_size, offset, deadline_from, deadline_to, event_id, project_id) == page_sql(
        "tasks"@,
        conds,
        "source_file ASC, line_number ASC, rowid ASC"@,
        page_size,
        offset,
    ));
}

/// What a condition on the notes table, with its `?` bound to `v`, says of a row:
/// `instr(column, ?) > 0`, that `v` occurs in the stored id list; a condition text outside
/// these holds of no row here.
pub open spec fn note_cond_holds(cond: Seq<char>, v: Seq<char>, r: NoteRow) -> bool {
    if cond == "instr(event_ids, ?) > 0"@ {
        has_sub(r.event_ids@, v)
    } else if cond == "instr(project_ids, ?) > 0"@ {
        has_sub(r.project_ids@, v)
    } else {
        false
    }
}

pub open spec fn note_conds_hold(conds: Seq<Seq<char>>, binds: Seq<Seq<char>>, r: NoteRow) -> bool {
    &&& conds.len() == binds.len()
    &&& forall|i: int| 0 <= i < conds.len() ==> note_cond_holds(#[trigger] conds[i], binds[i], r)
}

/// A note meets the listing's filters: its stored event and project lists hold the quoted
/// ids.
pub open spec fn note_meets_filters(r: NoteRow, event_id: Option<&str>, project_id: Option<&str>) -> bool {
    &&& event_id matches Some(e) ==> has_sub(r.event_ids@, json_quoted(e@))
    &&& project_id matches Some(q) ==> has_sub(r.project_ids@, json_quoted(q@))
}

/// The notes page query filters as the listing promises: its SQL is a select on the notes
/// table by file name whose `WHERE` conditions with the bound values hold of a row exactly
/// when the note meets the filters; and that is the selection the page's rows are held to.
pub proof fn law_notes_query_selects(page_size: u32, offset: i64, event_id: Option<&str>, project_id: Option<&str>)
    ensures
        exists|conds: Seq<Seq<char>>|
            {
                &&& notes_sql(page_size, offset, event_id, project_id) == page_sql(
                    "notes"@,
                    conds,
                    "filename ASC"@,
                    page_size,
                    offset,
                )
                &&& forall|r: NoteRow| #[trigger] note_conds_hold(conds, notes_binds(event_id, project_id), r)
                    <==> note_meets_filters(r, event_id, project_id)
            },
        forall|r: NoteRow| #[trigger] note_row_selected(r, event_id, project_id) <==> note_meets_filters(r, event_id, project_id),
{
    reveal_strlit("instr(event_ids, ?) > 0");
    reveal_strlit("instr(project_ids, ?) > 0");
    let c3 = "instr(event_ids, ?) > 0"@;
    let c4 = "instr(project_ids, ?) > 0"@;
    assert(c4 != c3) by {
        assert(c4[6] != c3[6]);
    }
    let conds = cond_if(event_id, c3) + cond_if(project_id, c4);
    let binds = notes_binds(event_id, project_id);
    assert(binds == bind_if(event_id, true) + bind_if(project_id, true));
    assert forall|r: NoteRow| #[trigger] note_conds_hold(conds, binds, r) <==> note_meets_filters(r, event_id, project_id) by {
        match event_id {
            Some(e) => {
                assert(conds[0] == c3 && binds[0] == json_quoted(e@));
                match project_id {
                    Some(q) => {
                        assert(conds[1] == c4 && binds[1] == json_quoted(q@));
                    },
                    None => {},
                }
            },
            None => {
                match project_id {
                    Some(q) => {
                        assert(conds[0] == c4 && binds[0] == json_quoted(q@));
                    },
                    None => {},
                }
            },
        }
        if note_meets_filters(r, event_id, project_id) {
            assert forall|i: int| 0 <= i < conds.len() implies note_cond_holds(#[trigger] conds[i], binds[i], r) by {}
        }
    }
    assert(notes_sql(page_size, offset, event_id, project_id) == page_sql(
        "notes"@,
        conds,
        "filename ASC"@,
        page_size,
        offset,
    ));
}

/// A character of a plain `@event` reference: a word character, `-` or `.`.
pub open spec fn event_id_char(c: char) -> bool {
    unicode_word_char(c) || c == '-' || c == '.'
}

/// A character of a relative reference's target: a word character, `-`, `.` or `:`.
pub open spec fn target_char(c: char) -> bool {
    unicode_word_char(c) || c == '-' || c == '.' || c == ':'
}

/// `t` holds `w` from `a` on, as a non-empty run of `ok` characters that ends where such
/// characters end.
pub open spec fn whole_run_at(t: Seq<char>, a: int, w: Seq<char>, ok: spec_fn(char) -> bool) -> bool {
    &&& 0 <= a && a + w.len() <= t.len()
    &&& w.len() > 0
    &&& t.subrange(a, a + w.len()) == w
    &&& forall|x: int| 0 <= x < w.len() ==> ok(#[trigger] w[x])
    &&& a + w.len() < t.len() ==> !ok(t[a + w.len()])
}

pub open spec fn all_digits(w: Seq<char>) -> bool {
    forall|x: int| 0 <= x < w.len() ==> unicode_decimal_digit(#[trigger] w[x])
}

/// `m` is a well-formed reference at the `@` at `k` of `t`: a date-time `@YYYY-MM-DDTHH:MM`
/// (digits in the digit places), a relative `@modifier[<digits><unit>]:target` with a
/// word modifier, one of the units `YMWdhm` and a whole target run, or a plain `@id` whose
/// id is a whole run of event-id characters.
pub open spec fn ref_found_at(t: Seq<char>, k: int, m: RefMatch) -> bool {
    &&& 0 <= k < t.len()
    &&& t[k] == '@'
    &&& match m {
        RefMatch::Deadline(d) => {
            &&& d.len() == 16 && k + 17 <= t.len() && t.subrange(k + 1, k + 17) == d
            &&& all_digits(d.take(4)) && d[4] == '-' && all_digits(d.subrange(5, 7)) && d[7] == '-'
            &&& all_digits(d.subrange(8, 10)) && d[10] == 'T' && all_digits(d.subrange(11, 13))
            &&& d[13] == ':' && all_digits(d.subrange(14, 16))
        },
        RefMatch::Relative { modifier, digits, unit, target } => {
            let b = k + 1 + modifier.len();
            let c = b + 1 + digits.len();
            &&& modifier.len() > 0 && c + 3 <= t.len()
            &&& t.subrange(k + 1, b) == modifier
            &&& forall|x: int| 0 <= x < modifier.len() ==> unicode_word_char(#[trigger] modifier[x])
            &&& t[b] == '['
            &&& digits.len() > 0 && t.subrange(b + 1, c) == digits && all_digits(digits)
            &&& t[c] == unit
            &&& (unit == 'Y' || unit == 'M' || unit == 'W' || unit == 'd' || unit == 'h' || unit == 'm')
            &&& t[c + 1] == ']' && t[c + 2] == ':'
            &&& whole_run_at(t, c + 3, target, |ch: char| target_char(ch))
        },
        RefMatch::Plain(id) => whole_run_at(t, k + 1, id, |ch: char| event_id_char(ch)),
    }
}

spec fn found_from(t: Seq<char>, j: int, m: RefMatch) -> bool {
    exists|k: int| j <= k && #[trigger] ref_found_at(t, k, m)
}

proof fn lemma_ref_at_found(t: Seq<char>, j: int)
    ensures
        match ref_at(t, j) {
            Some((m, e)) => ref_found_at(t, j, m) && e > j,
            None => true,
        },
{
    if ref_at(t, j) is None {
    } else if crate::tasks::datetime_at(t, j) {
        let d = t.subrange(j + 1, j + 17);
        assert(all_digits(d.take(4))) by {
            assert forall|x: int| 0 <= x < 4 implies unicode_decimal_digit(#[trigger] d.take(4)[x]) by {
                assert(d.take(4)[x] == t[j + 1 + x]);
            }
        }
        assert(all_digits(d.subrange(5, 7))) by {
            assert forall|x: int| 0 <= x < 2 implies unicode_decimal_digit(#[trigger] d.subrange(5, 7)[x]) by {
                assert(d.subrange(5, 7)[x] == t[j + 6 + x]);
            }
        }
        assert(all_digits(d.subrange(8, 10))) by {
            assert forall|x: int| 0 <= x < 2 implies unicode_decimal_digit(#[trigger] d.subrange(8, 10)[x]) by {
                assert(d.subrange(8, 10)[x] == t[j + 9 + x]);
            }
        }
        assert(all_digits(d.subrange(11, 13))) by {
            assert forall|x: int| 0 <= x < 2 implies unicode_decimal_digit(#[trigger] d.subrange(11, 13)[x]) by {
                assert(d.subrange(11, 13)[x] == t[j + 12 + x]);
            }
        }
        assert(all_digits(d.subrange(14, 16))) by {
            assert forall|x: int| 0 <= x < 2 implies unicode_decimal_digit(#[trigger] d.subrange(14, 16)[x]) by {
                assert(d.subrange(14, 16)[x] == t[j + 15 + x]);
            }
        }
    } else if relative_at(t, j) is Some {
        let (p, q, r) = relative_at(t, j)->0;
        lemma_run_end_bounds(t, j + 1, CharClass::Word);
        lemma_run_end_bounds(t, p + 1, CharClass::Digit);
        lemma_run_end_bounds(t, q + 3, CharClass::Target);
        let modifier = t.subrange(j + 1, p);
        let digits = t.subrange(p + 1, q);
        let target = t.subrange(q + 3, r);
        assert forall|x: int| 0 <= x < modifier.len() implies unicode_word_char(#[trigger] modifier[x]) by {
            assert(modifier[x] == t[j + 1 + x]);
            assert(in_class(CharClass::Word, t[j + 1 + x]));
        }
        assert forall|x: int| 0 <= x < digits.len() implies unicode_decimal_digit(#[trigger] digits[x]) by {
            assert(digits[x] == t[p + 1 + x]);
            assert(in_class(CharClass::Digit, t[p + 1 + x]));
        }
        let f = |ch: char| target_char(ch);
        assert forall|x: int| 0 <= x < target.len() implies f(#[trigger] target[x]) by {
            assert(target[x] == t[q + 3 + x]);
            assert(in_class(CharClass::Target, t[q + 3 + x]));
        }
        if r < t.len() {
            assert(!in_class(CharClass::Target, t[r]));
        }
        assert(t.subrange(q + 3, q + 3 + target.len()) == target);
        assert(whole_run_at(t, q + 3, target, f));
    } else {
        let e = run_end(t, j + 1, CharClass::EventId);
        lemma_run_end_bounds(t, j + 1, CharClass::EventId);
        let id = t.subrange(j + 1, e);
        let f = |ch: char| event_id_char(ch);
        assert forall|x: int| 0 <= x < id.len() implies f(#[trigger] id[x]) by {
            assert(id[x] == t[j + 1 + x]);
            assert(in_class(CharClass::EventId, t[j + 1 + x]));
        }
        if e < t.len() {
            assert(!in_class(CharClass::EventId, t[e]));
        }
        assert(t.subrange(j + 1, j + 1 + id.len()) == id);
        assert(whole_run_at(t, j + 1, id, f));
    }
}

proof fn lemma_refs_sound(t: Seq<char>, j: int)
    requires
        0 <= j,
    ensures
        forall|i: int| 0 <= i < scan_refs(t, j).len() ==> found_from(t, j, #[trigger] scan_refs(t, j)[i]),
    decreases t.len() - j,
{
    if j < t.len() {
        let r = scan_refs(t, j);
        match ref_at(t, j) {
            Some((m, e)) => {
                if j < e <= t.len() {
                    lemma_ref_at_found(t, j);
                    lemma_refs_sound(t, e);
                    assert(r == seq![m] + scan_refs(t, e));
                    assert forall|i: int| 0 <= i < r.len() implies found_from(t, j, #[trigger] r[i]) by {
                        if i == 0 {
                            assert(ref_found_at(t, j, r[0]));
                        } else {
                            assert(r[i] == scan_refs(t, e)[i - 1]);
                            assert(found_from(t, e, scan_refs(t, e)[i - 1]));
                            let k = choose|k: int| e <= k && #[trigger] ref_found_at(t, k, r[i]);
                            assert(ref_found_at(t, k, r[i]));
                        }
                    }
                }
            },
            None => {
                lemma_refs_sound(t, j + 1);
                assert(r == scan_refs(t, j + 1));
                assert forall|i: int| 0 <= i < r.len() implies found_from(t, j, #[trigger] r[i]) by {
                    assert(found_from(t, j + 1, scan_refs(t, j + 1)[i]));
                    let k = choose|k: int| j + 1 <= k && #[trigger] ref_found_at(t, k, r[i]);
                    assert(ref_found_at(t, k, r[i]));
                }
            },
        }
    }
}

/// `t` has a well-formed reference somewhere.
pub open spec fn has_ref(t: Seq<char>, m: RefMatch) -> bool {
    exists|k: int| #[trigger] ref_found_at(t, k, m)
}

/// `t` has a reference naming the event `id`: a plain `@id`, or a relative reference with
/// target `id`.
pub open spec fn names_event(t: Seq<char>, id: Seq<char>) -> bool {
    exists|k: int, m: RefMatch|
        #[trigger] ref_found_at(t, k, m) && (m == RefMatch::Plain(id) || (m is Relative && m->target == id))
}

proof fn lemma_ids_named(ms: Seq<RefMatch>, t: Seq<char>)
    requires
        forall|i: int| 0 <= i < ms.len() ==> has_ref(t, #[trigger] ms[i]),
    ensures
        forall|i: int| 0 <= i < ref_event_ids(ms).len() ==> names_event(t, #[trigger] ref_event_ids(ms)[i]),
    decreases ms.len(),
{
    if ms.len() > 0 {
        let d = ms.drop_last();
        assert forall|i: int| 0 <= i < d.len() implies has_ref(t, #[trigger] d[i]) by {
            assert(d[i] == ms[i]);
        }
        lemma_ids_named(d, t);
        let ids = ref_event_ids(ms);
        let m = ms.last();
        assert(has_ref(t, ms[ms.len() - 1]));
        assert forall|i: int| 0 <= i < ids.len() implies names_event(t, #[trigger] ids[i]) by {
            if i < ref_event_ids(d).len() {
                assert(ids[i] == ref_event_ids(d)[i]);
            } else {
                let k = choose|k: int| #[trigger] ref_found_at(t, k, m);
                assert(ref_found_at(t, k, m));
            }
        }
    }
}

/// Each reference found in task text is a well-formed reference at one of its `@`s (a
/// date-time with digits in the digit places; a relative reference with a word modifier,
/// digits, a unit among `YMWdhm` and a whole target run; or a plain id that is a whole run
/// of word characters, `-` and `.`); and each event id a task names is the id of a plain
/// reference or the target of a relative reference in its text.
pub proof fn law_references_well_formed(text: Seq<char>, line: Seq<char>, src: Seq<char>, n: int)
    ensures
        forall|i: int| 0 <= i < scan_refs(text, 0).len() ==> has_ref(text, #[trigger] scan_refs(text, 0)[i]),
        task_from_line(line, src, n) matches Some(t) ==> forall|i: int|
            0 <= i < t.event_ids.len() ==> names_event(t.text, #[trigger] t.event_ids[i]),
{
    lemma_refs_sound(text, 0);
    assert forall|i: int| 0 <= i < scan_refs(text, 0).len() implies has_ref(text, #[trigger] scan_refs(text, 0)[i]) by {
        assert(found_from(text, 0, scan_refs(text, 0)[i]));
    }
    if let Some(t) = task_from_line(line, src, n) {
        let x = t.text;
        lemma_refs_sound(x, 0);
        let ms = scan_refs(x, 0);
        assert forall|i: int| 0 <= i < ms.len() implies has_ref(x, #[trigger] ms[i]) by {
            assert(found_from(x, 0, ms[i]));
        }
        lemma_ids_named(ms, x);
        assert(t.event_ids == ref_event_ids(ms));
    }
}

/// A checkbox line `- [m] text` (after trimming; bullet `-`, `*` or `+`, marker ` `, `x` or
/// `X`, non-empty text) gives a task, and any task comes from such a line: its text is
/// what follows `] `, it is completed exactly when the marker is `x` or `X`, and it keeps
/// the raw line, the file and the line number.
pub proof fn law_task_line_fields(line: Seq<char>, src: Seq<char>, n: int)
    ensures
        ({
            let s = trim_seq(line);
            &&& task_from_line(line, src, n) is Some <==> (s.len() >= 7 && (s[0] == '-' || s[0] == '*' || s[0] == '+')
                && s[1] == ' ' && s[2] == '[' && (s[3] == ' ' || s[3] == 'x' || s[3] == 'X') && s[4] == ']' && s[5]
                == ' ')
            &&& task_from_line(line, src, n) matches Some(t) ==> {
                &&& t.text == s.subrange(6, s.len() as int)
                &&& t.completed <==> (s[3] == 'x' || s[3] == 'X')
                &&& t.raw_line == line
                &&& t.source_file == src
                &&& (i64::MIN <= n <= i64::MAX ==> t.line_number == n)
            }
        }),
{
}

proof fn lemma_lookup_name(m: Seq<(String, EventRef)>, id: Seq<char>)
    ensures
        event_lookup(m, id) matches Some(ev) ==> exists|k: int| 0 <= k < m.len() && (#[trigger] m[k]).0@ == id && m[k].1 == ev,
        event_lookup(m, id) is None ==> forall|k: int| 0 <= k < m.len() ==> (#[trigger] m[k]).0@ != id,
    decreases m.len(),
{
    if m.len() > 0 {
        let d = m.drop_first();
        lemma_lookup_name(d, id);
        if m[0].0@ != id {
            if event_lookup(m, id) is Some {
                let k = choose|k: int| 0 <= k < d.len() && (#[trigger] d[k]).0@ == id && d[k].1 == event_lookup(d, id)->0;
                assert(m[k + 1] == d[k]);
            } else {
                assert forall|k: int| 0 <= k < m.len() implies (#[trigger] m[k]).0@ != id by {
                    if k > 0 {
                        assert(m[k] == d[k - 1]);
                    }
                }
            }
        }
    }
}

/// Naming a task's events: each id the events map knows is named once, with the name of
/// its event in the map; the named ids are the task's ids, each once; an id the map does
/// not know is not named.
pub proof fn law_resolved_event_names(ids: Seq<Seq<char>>, m: Seq<(String, EventRef)>)
    ensures
        ({
            let r = resolved_events(ids, m);
            &&& forall|i: int| 0 <= i < r.len() ==> ids.contains((#[trigger] r[i]).0) && exists|k: int|
                0 <= k < m.len() && (#[trigger] m[k]).0@ == r[i].0 && m[k].1.name@ == r[i].1
            &&& forall|i: int, j: int| 0 <= i < j < r.len() ==> (#[trigger] r[i]).0 != (#[trigger] r[j]).0
            &&& forall|x: int, k: int| 0 <= x < ids.len() && 0 <= k < m.len() && (#[trigger] m[k]).0@ == #[trigger] ids[x]
                ==> exists|i: int| 0 <= i < r.len() && (#[trigger] r[i]).0 == ids[x]
        }),
    decreases ids.len(),
{
    if ids.len() > 0 {
        let d = ids.drop_last();
        law_resolved_event_names(d, m);
        let id = ids.last();
        let rest = resolved_events(d, m);
        let r = resolved_events(ids, m);
        lemma_lookup_name(m, id);
        assert forall|x: int| 0 <= x < d.len() implies ids.contains(#[trigger] d[x]) by {
            assert(ids[x] == d[x]);
        }
        assert(ids[ids.len() - 1] == id);
        assert forall|i: int| 0 <= i < r.len() implies ids.contains((#[trigger] r[i]).0) && exists|k: int|
            0 <= k < m.len() && (#[trigger] m[k]).0@ == r[i].0 && m[k].1.name@ == r[i].1 by {
            if i < rest.len() {
                assert(r[i] == rest[i]);
                assert(d.contains(rest[i].0));
            }
        }
        assert forall|x: int, k: int| 0 <= x < ids.len() && 0 <= k < m.len() && (#[trigger] m[k]).0@ == #[trigger] ids[x]
            implies exists|i: int| 0 <= i < r.len() && (#[trigger] r[i]).0 == ids[x] by {
            if x < d.len() {
                assert(ids[x] == d[x]);
                let i = choose|i: int| 0 <= i < rest.len() && (#[trigger] rest[i]).0 == d[x];
                assert(r[i] == rest[i]);
            } else {
                if event_lookup(m, id) is None {
                    assert(m[k].0@ != id);
                }
                if crate::tasks::has_key(rest, id) {
                    let i = choose|i: int| 0 <= i < rest.len() && rest[i].0 == id;
                    assert(r[i] == rest[i]);
                } else {
                    assert(r[rest.len() as int].0 == id);
                }
            }
        }
        assert forall|i: int, j: int| 0 <= i < j < r.len() implies (#[trigger] r[i]).0 != (#[trigger] r[j]).0 by {
            if j < rest.len() {
                assert(r[i] == rest[i] && r[j] == rest[j]);
            } else {
                assert(r[i] == rest[i]);
                if rest[i].0 == id {
                    assert(crate::tasks::has_key(rest, id));
                }
            }
        }
    }
}

proof fn lemma_lookup_title(m: Seq<(String, String)>, id: Seq<char>)
    ensures
        name_lookup(m, id) matches Some(ev) ==> exists|k: int| 0 <= k < m.len() && (#[trigger] m[k]).0@ == id && m[k].1@ == ev,
        name_lookup(m, id) is None ==> forall|k: int| 0 <= k < m.len() ==> (#[trigger] m[k]).0@ != id,
    decreases m.len(),
{
    if m.len() > 0 {
        let d = m.drop_first();
        lemma_lookup_title(d, id);
        if m[0].0@ != id {
            if name_lookup(m, id) is Some {
                let k = choose|k: int| 0 <= k < d.len() && (#[trigger] d[k]).0@ == id && d[k].1@ == name_lookup(d, id)->0;
                assert(m[k + 1] == d[k]);
            } else {
                assert forall|k: int| 0 <= k < m.len() implies (#[trigger] m[k]).0@ != id by {
                    if k > 0 {
                        assert(m[k] == d[k - 1]);
                    }
                }
            }
        }
    }
}

/// Naming a task's projects: each id the projects map knows is named once, with its title
/// in the map; the named ids are the task's ids, each once; an id the map does not know is
/// not named.
pub proof fn law_resolved_project_names(ids: Seq<Seq<char>>, m: Seq<(String, String)>)
    ensures
        ({
            let r = resolved_projects(ids, m);
            &&& forall|i: int| 0 <= i < r.len() ==> ids.contains((#[trigger] r[i]).0) && exists|k: int|
                0 <= k < m.len() && (#[trigger] m[k]).0@ == r[i].0 && m[k].1@ == r[i].1
            &&& forall|i: int, j: int| 0 <= i < j < r.len() ==> (#[trigger] r[i]).0 != (#[trigger] r[j]).0
            &&& forall|x: int, k: int| 0 <= x < ids.len() && 0 <= k < m.len() && (#[trigger] m[k]).0@ == #[trigger] ids[x]
                ==> exists|i: int| 0 <= i < r.len() && (#[trigger] r[i]).0 == ids[x]
        }),
    decreases ids.len(),
{
    if ids.len() > 0 {
        let d = ids.drop_last();
        law_resolved_project_names(d, m);
        let id = ids.last();
        let rest = resolved_projects(d, m);
        let r = resolved_projects(ids, m);
        lemma_lookup_title(m, id);
        assert forall|x: int| 0 <= x < d.len() implies ids.contains(#[trigger] d[x]) by {
            assert(ids[x] == d[x]);
        }
        assert(ids[ids.len() - 1] == id);
        assert forall|i: int| 0 <= i < r.len() implies ids.contains((#[trigger] r[i]).0) && exists|k: int|
            0 <= k < m.len() && (#[trigger] m[k]).0@ == r[i].0 && m[k].1@ == r[i].1 by {
            if i < rest.len() {
                assert(r[i] == rest[i]);
                assert(d.contains(rest[i].0));
            }
        }
        assert forall|x: int, k: int| 0 <= x < ids.len() && 0 <= k < m.len() && (#[trigger] m[k]).0@ == #[trigger] ids[x]
            implies exists|i: int| 0 <= i < r.len() && (#[trigger] r[i]).0 == ids[x] by {
            if x < d.len() {
                assert(ids[x] == d[x]);
                let i = choose|i: int| 0 <= i < rest.len() && (#[trigger] rest[i]).0 == d[x];
                assert(r[i] == rest[i]);
            } else {
                if name_lookup(m, id) is None {
                    assert(m[k].0@ != id);
                }
                if crate::tasks::has_key(rest, id) {
                    let i = choose|i: int| 0 <= i < rest.len() && rest[i].0 == id;
                    assert(r[i] == rest[i]);
                } else {
                    assert(r[rest.len() as int].0 == id);
                }
            }
        }
        assert forall|i: int, j: int| 0 <= i < j < r.len() implies (#[trigger] r[i]).0 != (#[trigger] r[j]).0 by {
            if j < rest.len() {
                assert(r[i] == rest[i] && r[j] == rest[j]);
            } else {
                assert(r[i] == rest[i]);
                if rest[i].0 == id {
                    assert(crate::tasks::has_key(rest, id));
                }
            }
        }
    }
}

proof fn lemma_trim_start_no_nl(s: Seq<char>)
    requires
        forall|x: int| 0 <= x < s.len() ==> s[x] != '\n',
    ensures
        forall|x: int| 0 <= x < trim_start_seq(s).len() ==> trim_start_seq(s)[x] != '\n',
    decreases s.len(),
{
    if s.len() > 0 && is_ws(s[0]) {
        let d = s.drop_first();
        assert forall|x: int| 0 <= x < d.len() implies d[x] != '\n' by {
            assert(d[x] == s[x + 1]);
        }
        lemma_trim_start_no_nl(d);
        assert(trim_start_seq(s) == trim_start_seq(d));
    } else {
        assert(trim_start_seq(s) == s);
    }
}

proof fn lemma_trim_end_no_nl(s: Seq<char>)
    requires
        forall|x: int| 0 <= x < s.len() ==> s[x] != '\n',
    ensures
        forall|x: int| 0 <= x < trim_end_seq(s).len() ==> trim_end_seq(s)[x] != '\n',
    decreases s.len(),
{
    if s.len() > 0 && is_ws(s.last()) {
        let d = s.drop_last();
        assert forall|x: int| 0 <= x < d.len() implies d[x] != '\n' by {
            assert(d[x] == s[x]);
        }
        lemma_trim_end_no_nl(d);
        assert(trim_end_seq(s) == trim_end_seq(d));
    } else {
        assert(trim_end_seq(s) == s);
    }
}

proof fn lemma_trim_inside(s: Seq<char>)
    requires
        forall|x: int| 0 <= x < s.len() ==> s[x] != '\n',
    ensures
        forall|x: int| 0 <= x < trim_seq(s).len() ==> trim_seq(s)[x] != '\n',
{
    lemma_trim_start_no_nl(s);
    lemma_trim_end_no_nl(trim_start_seq(s));
}

proof fn lemma_pieces_replaced(text: Seq<char>, i: int, e: Seq<char>)
    requires
        0 <= i < split_pieces(text, '\n').len(),
        forall|x: int| 0 <= x < e.len() ==> e[x] != '\n',
    ensures
        split_pieces(join_seq(split_pieces(text, '\n').update(i, e), seq!['\n']), '\n') == split_pieces(text, '\n').update(i, e),
{
    let ls = split_pieces(text, '\n');
    let u = ls.update(i, e);
    lemma_pieces_sep_free(text, '\n');
    assert forall|j: int, x: int| 0 <= j < u.len() && 0 <= x < u[j].len() implies #[trigger] u[j][x] != '\n' by {
        if j != i {
            assert(u[j] == ls[j]);
        }
    }
    lemma_pieces_of_join(u, '\n');
}

/// Toggling the task on line `n` (counted from 1) succeeds exactly when the file has that
/// line and it is a checkbox item with text, and then changes that line's marker and
/// nothing else: before sanitising, the new text is the file's lines with only line `n`
/// changed, its marker (`x` or `X` to a space, anything else to `x`) replaced, joined by
/// line breaks, with the file's final line break kept. (A line number is taken as a
/// `usize` index, hence the bound.)
pub proof fn law_toggle_changes_one_line(text: Seq<char>, n: i64)
    requires
        1 <= n <= usize::MAX,
    ensures
        toggle_result(text, n) is Ok <==> (n <= split_pieces(text, '\n').len() && is_full_task(
            split_pieces(text, '\n')[n - 1],
        )),
        toggle_result(text, n) matches Ok(c) ==> exists|d: Seq<char>|
            #![trigger split_pieces(d, '\n')]
            {
                let l = split_pieces(text, '\n')[n - 1];
                let k = lead_ws(l) as int;
                &&& c == sanitized(if has_suffix(text, seq!['\n']) { d.push('\n') } else { d })
                &&& split_pieces(d, '\n') == split_pieces(text, '\n').update(
                    n - 1,
                    l.update(k + 3, if l[k + 3] == 'x' || l[k + 3] == 'X' { ' ' } else { 'x' }),
                )
            },
{
    let ls = split_pieces(text, '\n');
    assert(line_index(n) as int == n - 1);
    if toggle_result(text, n) is Ok {
        let i = n - 1;
        let l = ls[i];
        let k = lead_ws(l) as int;
        let e = crate::repository::toggled_line(l);
        let mk = if l[k + 3] == 'x' || l[k + 3] == 'X' { ' ' } else { 'x' };
        assert(e =~= l.update(k + 3, mk));
        lemma_pieces_sep_free(text, '\n');
        assert forall|x: int| 0 <= x < e.len() implies e[x] != '\n' by {
            if x != k + 3 {
                assert(e[x] == l[x]);
                assert(ls[i][x] != '\n');
            }
        }
        lemma_pieces_replaced(text, i, e);
        let d = join_seq(ls.update(i, e), seq!['\n']);
        assert(toggle_result(text, n) == Ok::<Seq<char>, Seq<char>>(
            sanitized(if has_suffix(text, seq!['\n']) { d.push('\n') } else { d }),
        ));
    }
}

/// Editing the text of the task on line `n` (counted from 1) to `new_text` (which holds
/// no line break) succeeds exactly when the trimmed text is not empty and the file has
/// that line and it is a checkbox item with text, and then changes that line and nothing
/// else: before sanitising, the new text is the file's lines with only line `n` changed,
/// keeping its indent, bullet and marker (`- [ ] `) and then the trimmed new text, joined
/// by line breaks, with the file's final line break kept. (A line number is taken as a
/// `usize` index, hence the bound.)
pub proof fn law_update_changes_one_line(text: Seq<char>, n: i64, new_text: Seq<char>)
    requires
        1 <= n <= usize::MAX,
        forall|x: int| 0 <= x < new_text.len() ==> new_text[x] != '\n',
    ensures
        update_result(text, n, new_text) is Ok <==> (trim_seq(new_text).len() > 0 && n <= split_pieces(text, '\n').len()
            && is_full_task(split_pieces(text, '\n')[n - 1])),
        update_result(text, n, new_text) matches Ok(c) ==> exists|d: Seq<char>|
            #![trigger split_pieces(d, '\n')]
            {
                let l = split_pieces(text, '\n')[n - 1];
                &&& c == sanitized(if has_suffix(text, seq!['\n']) { d.push('\n') } else { d })
                &&& split_pieces(d, '\n') == split_pieces(text, '\n').update(
                    n - 1,
                    l.take(lead_ws(l) + 6int) + trim_seq(new_text),
                )
            },
{
    let ls = split_pieces(text, '\n');
    assert(line_index(n) as int == n - 1);
    if update_result(text, n, new_text) is Ok {
        let i = n - 1;
        let l = ls[i];
        let k = lead_ws(l) as int;
        let t = trim_seq(new_text);
        let e = l.take(k + 6) + t;
        assert(e == crate::repository::retexted_line(l, t));
        lemma_pieces_sep_free(text, '\n');
        lemma_trim_inside(new_text);
        assert forall|x: int| 0 <= x < e.len() implies e[x] != '\n' by {
            if x < k + 6 {
                assert(e[x] == l[x]);
                assert(ls[i][x] != '\n');
            } else {
                assert(e[x] == t[x - k - 6]);
            }
        }
        lemma_pieces_replaced(text, i, e);
        let d = join_seq(ls.update(i, e), seq!['\n']);
        assert(update_result(text, n, new_text) == Ok::<Seq<char>, Seq<char>>(
            sanitized(if has_suffix(text, seq!['\n']) { d.push('\n') } else { d }),
        ));
    }
}

/// A page holds 100 items when no limit is given, else the limit brought into `1..=500`.
pub proof fn law_page_size(l: u32)
    ensures
        page_size_of(None) == 100,
        1 <= page_size_of(Some(l)) <= 500,
        1 <= l <= 500 ==> page_size_of(Some(l)) == l,
        l > 500 ==> page_size_of(Some(l)) == 500,
        l == 0 ==> page_size_of(Some(l)) == 1,
{
}

/// The deadline written in task text is the last `@YYYY-MM-DDTHH:MM` reference with `:00`
/// seconds appended: a later date-time reference replaces it, other references leave it,
/// and text without one has none.
pub proof fn law_written_deadline(ms: Seq<RefMatch>, d: Seq<char>, other: RefMatch)
    requires
        !(other is Deadline),
    ensures
        ref_deadline(Seq::empty()) is None,
        ref_deadline(ms.push(RefMatch::Deadline(d))) == Some(d + seq![':', '0', '0']),
        ref_deadline(ms.push(other)) == ref_deadline(ms),
{
    assert(ms.push(RefMatch::Deadline(d)).drop_last() == ms);
    assert(ms.push(other).drop_last() == ms);
}

/// A fetched event's start or end: the object's `dateTime` string when it has a
/// `dateTime` member, else its `date` string; read as an RFC 3339 date-time when it is
/// one, else as a `%Y-%m-%d` date at midnight UTC, and printed as `%Y-%m-%dT%H:%M:%S`; an
/// empty text gives nothing.
pub proof fn law_gcal_times(v: JsonValue, key: Seq<char>, t: JsonValue, s: Seq<char>)
    requires
        member(v, key) == Some(t),
    ensures
        member(t, "dateTime"@) matches Some(x) ==> json_time_at(v, key) == (match x {
            JsonValue::Str(d) => Some(d@),
            _ => None::<Seq<char>>,
        }),
        member(t, "dateTime"@) is None ==> json_time_at(v, key) == (match member(t, "date"@) {
            Some(JsonValue::Str(d)) => Some(d@),
            _ => None::<Seq<char>>,
        }),
        gcal_time_text(Some(s)) == (if s.len() == 0 {
            None
        } else if rfc3339_seconds(s) is Some {
            Some(iso_seconds_text(rfc3339_seconds(s)->0 as int))
        } else if naive_date_seconds(s, "%Y-%m-%d"@) is Some {
            Some(iso_seconds_text(naive_date_seconds(s, "%Y-%m-%d"@)->0 as int))
        } else {
            None
        }),
{
    reveal_strlit("%Y-%m-%d");
    assert("%Y-%m-%d"@ =~= crate::gcal::date_fmt());
}

/// How a task without an explicit deadline gets one from its first time reference `r`
/// when the events map (`id -> event`, each id once) holds `r`'s target at entry `k`: with
/// `@before[..]` the deadline is that event's start minus the offset, with `@after[..]`
/// its end plus the offset, printed as a date-time; a reference with another modifier is
/// passed over.
pub proof fn law_deadline_from_reference(t: TaskView, m: Seq<(String, EventRef)>, pm: Seq<(String, String)>, k: int)
    requires
        keys_distinct(m),
        t.deadline is None,
        t.time_references.len() > 0,
        0 <= k < m.len(),
        m[k].0@ == t.time_references[0].target_id,
    ensures
        offset_secs(t.time_references[0].amount, t.time_references[0].unit) matches Some(off) ==> (
        t.time_references[0].modifier == "before"@ && instant_in_range(m[k].1.from_ - off)
            ==> resolved_task(t, m, pm).deadline == Some(iso_seconds_text(m[k].1.from_ - off))),
        offset_secs(t.time_references[0].amount, t.time_references[0].unit) matches Some(off) ==> (
        t.time_references[0].modifier == "after"@ && instant_in_range(m[k].1.to + off)
            ==> resolved_task(t, m, pm).deadline == Some(iso_seconds_text(m[k].1.to + off))),
        offset_secs(t.time_references[0].amount, t.time_references[0].unit) is Some
            && t.time_references[0].modifier != "before"@ && t.time_references[0].modifier != "after"@
            ==> resolved_task(t, m, pm).deadline == resolved_task(
                TaskView { time_references: t.time_references.drop_first(), ..t },
                m,
                pm,
            ).deadline,
{
    reveal_strlit("before");
    reveal_strlit("after");
    assert("before"@ =~= before_word());
    assert("after"@ =~= after_word());
    lemma_lookup_found(m, k);
}

/// A time reference whose target event the map does not know is passed over: the
/// deadline is what the remaining references give. An explicit deadline is kept as it is.
pub proof fn law_deadline_skips_unknown(t: TaskView, m: Seq<(String, EventRef)>, pm: Seq<(String, String)>)
    requires
        t.time_references.len() > 0,
        forall|j: int| 0 <= j < m.len() ==> (#[trigger] m[j]).0@ != t.time_references[0].target_id,
    ensures
        t.deadline is Some ==> resolved_task(t, m, pm).deadline == t.deadline,
        resolved_task(t, m, pm).deadline == resolved_task(
            TaskView { time_references: t.time_references.drop_first(), ..t },
            m,
            pm,
        ).deadline,
{
    lemma_lookup_missing(m, t.time_references[0].target_id);
}

} // verus!
