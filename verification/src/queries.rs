//! The page queries on the vault index: which filters apply, in what order the rows come,
//! and which page is fetched, as the SQL text and the values bound to its parameters.

use vstd::prelude::*;
use crate::models::{lemma_strs_push, strs};
use crate::numbers::{i64_chars, int_text};
use crate::text::{append_chars, chars_of, join_chars, join_seq, string_of, views};

verus! {

/// A query on the index: its SQL and the texts bound to its `?` parameters, in order.
#[derive(Debug)]
pub struct IndexQuery {
    pub sql: String,
    pub binds: Vec<String>,
}

/// The `WHERE` clause that joins the conditions with `AND`; empty without conditions.
pub open spec fn where_text(conds: Seq<Seq<char>>) -> Seq<char> {
    if conds.len() == 0 {
        Seq::empty()
    } else {
        "WHERE "@ + join_seq(conds, " AND "@)
    }
}

/// The SQL of a page query on `table`: the conditions, the order, and a limit of one row
/// more than the page (to tell whether another page follows) from the page's offset.
pub open spec fn page_sql(table: Seq<char>, conds: Seq<Seq<char>>, order: Seq<char>, page_size: u32, offset: i64) -> Seq<char> {
    "SELECT * FROM "@ + table + " "@ + where_text(conds) + " ORDER BY "@ + order + " LIMIT "@
        + int_text(page_size + 1) + " OFFSET "@ + int_text(offset as int)
}

/// The condition `cond` when the filter `o` is given.
pub open spec fn cond_if(o: Option<&str>, cond: Seq<char>) -> Seq<Seq<char>> {
    match o {
        Some(_) => seq![cond],
        None => Seq::empty(),
    }
}

/// A filter value in double quotes, as an id is stored in a JSON list.
pub open spec fn quoted(s: Seq<char>) -> Seq<char> {
    seq!['"'] + s + seq!['"']
}

/// The value bound for the filter `o` (quoted when `quote`).
pub open spec fn bind_if(o: Option<&str>, quote: bool) -> Seq<Seq<char>> {
    match o {
        Some(s) => seq![if quote { quoted(s@) } else { s@ }],
        None => Seq::empty(),
    }
}

fn add_filter(conds: &mut Vec<Vec<char>>, binds: &mut Vec<String>, o: Option<&str>, cond: &str, quote: bool)
    ensures
        views(final(conds)@) == views(old(conds)@) + cond_if(o, cond@),
        strs(final(binds)@) == strs(old(binds)@) + bind_if(o, quote),
{
    match o {
        Some(s) => {
            let c = chars_of(cond);
            let ghost before = conds@;
            conds.push(c);
            assert(views(conds@) =~= views(before) + seq![cond@]);
            let b = if quote {
                let mut v: Vec<char> = vec!['"'];
                append_chars(&mut v, &chars_of(s));
                v.push('"');
                assert(v@ =~= quoted(s@));
                string_of(&v)
            } else {
                string_of(&chars_of(s))
            };
            let ghost old_b = binds@;
            binds.push(b);
            proof {
                lemma_strs_push(old_b, binds@.last());
            }
            assert(strs(binds@) =~= strs(old_b) + bind_if(o, quote));
        },
        None => {
            assert(views(conds@) =~= views(conds@) + Seq::<Seq<char>>::empty());
            assert(strs(binds@) =~= strs(binds@) + Seq::<Seq<char>>::empty());
        },
    }
}

fn page_query(table: &str, conds: &Vec<Vec<char>>, order: &str, binds: Vec<String>, page_size: u32, offset: i64) -> (q: IndexQuery)
    ensures
        q.sql@ == page_sql(table@, views(conds@), order@, page_size, offset),
        q.binds@ == binds@,
{
    let mut v = chars_of("SELECT * FROM ");
    append_chars(&mut v, &chars_of(table));
    append_chars(&mut v, &chars_of(" "));
    if conds.len() > 0 {
        append_chars(&mut v, &chars_of("WHERE "));
        append_chars(&mut v, &join_chars(conds, &chars_of(" AND ")));
    }
    append_chars(&mut v, &chars_of(" ORDER BY "));
    append_chars(&mut v, &chars_of(order));
    append_chars(&mut v, &chars_of(" LIMIT "));
    append_chars(&mut v, &i64_chars(page_size as i64 + 1));
    append_chars(&mut v, &chars_of(" OFFSET "));
    append_chars(&mut v, &i64_chars(offset));
    proof {
        if views(conds@).len() == 0 {
            assert(where_text(views(conds@)) =~= Seq::<char>::empty());
        }
    }
    assert(v@ =~= page_sql(table@, views(conds@), order@, page_size, offset));
    IndexQuery { sql: string_of(&v), binds }
}

/// The SQL of the events page query.
pub open spec fn events_sql(page_size: u32, offset: i64, from_: Option<&str>, to: Option<&str>) -> Seq<char> {
    page_sql(
        "events"@,
        cond_if(from_, "to_ >= ?"@) + cond_if(to, "from_ <= ?"@),
        "from_ ASC, to_ ASC, id ASC"@,
        page_size,
        offset,
    )
}

/// The values bound to the events page query.
pub open spec fn events_binds(from_: Option<&str>, to: Option<&str>) -> Seq<Seq<char>> {
    bind_if(from_, false) + bind_if(to, false)
}

/// The SQL of the tasks page query.
pub open spec fn tasks_sql(
    page_size: u32,
    offset: i64,
    deadline_from: Option<&str>,
    deadline_to: Option<&str>,
    event_id: Option<&str>,
    project_id: Option<&str>,
) -> Seq<char> {
    page_sql(
        "tasks"@,
        cond_if(deadline_from, "deadline IS NOT NULL AND deadline >= ?"@) + cond_if(
            deadline_to,
            "deadline IS NOT NULL AND deadline <= ?"@,
        ) + cond_if(event_id, "instr(event_ids, ?) > 0"@) + cond_if(project_id, "instr(project_ids, ?) > 0"@),
        "source_file ASC, line_number ASC, rowid ASC"@,
        page_size,
        offset,
    )
}

/// The values bound to the tasks page query.
pub open spec fn tasks_binds(
    deadline_from: Option<&str>,
    deadline_to: Option<&str>,
    event_id: Option<&str>,
    project_id: Option<&str>,
) -> Seq<Seq<char>> {
    bind_if(deadline_from, false) + bind_if(deadline_to, false) + bind_if(event_id, true) + bind_if(project_id, true)
}

/// The page of events that overlap the range: ending at or after `from_` and starting at
/// or before `to`, by start, end and id.
pub fn events_page_query(page_size: u32, offset: i64, from_: Option<&str>, to: Option<&str>) -> (q: IndexQuery)
    ensures
        q.sql@ == events_sql(page_size, offset, from_, to),
        strs(q.binds@) == events_binds(from_, to),
{
    let mut conds: Vec<Vec<char>> = Vec::new();
    let mut binds: Vec<String> = Vec::new();
    assert(views(conds@) =~= Seq::<Seq<char>>::empty());
    assert(strs(binds@) =~= Seq::<Seq<char>>::empty());
    add_filter(&mut conds, &mut binds, from_, "to_ >= ?", false);
    add_filter(&mut conds, &mut binds, to, "from_ <= ?", false);
    page_query("events", &conds, "from_ ASC, to_ ASC, id ASC", binds, page_size, offset)
}

/// The SQL of the notes page query.
pub open spec fn notes_sql(page_size: u32, offset: i64, event_id: Option<&str>, project_id: Option<&str>) -> Seq<char> {
    page_sql(
        "notes"@,
        cond_if(event_id, "instr(event_ids, ?) > 0"@) + cond_if(project_id, "instr(project_ids, ?) > 0"@),
        "filename ASC"@,
        page_size,
        offset,
    )
}

/// The values bound to the notes page query.
pub open spec fn notes_binds(event_id: Option<&str>, project_id: Option<&str>) -> Seq<Seq<char>> {
    bind_if(event_id, true) + bind_if(project_id, true)
}

/// The SQL of the projects page query.
pub open spec fn projects_sql(page_size: u32, offset: i64) -> Seq<char> {
    page_sql("projects"@, Seq::empty(), "id ASC"@, page_size, offset)
}

/// The page of notes that list the event `event_id` and the project `project_id` (each
/// when given), by file name.
pub fn notes_page_query(page_size: u32, offset: i64, event_id: Option<&str>, project_id: Option<&str>) -> (q: IndexQuery)
    ensures
        q.sql@ == notes_sql(page_size, offset, event_id, project_id),
        strs(q.binds@) == notes_binds(event_id, project_id),
{
    let mut conds: Vec<Vec<char>> = Vec::new();
    let mut binds: Vec<String> = Vec::new();
    assert(views(conds@) =~= Seq::<Seq<char>>::empty());
    assert(strs(binds@) =~= Seq::<Seq<char>>::empty());
    add_filter(&mut conds, &mut binds, event_id, "instr(event_ids, ?) > 0", true);
    add_filter(&mut conds, &mut binds, project_id, "instr(project_ids, ?) > 0", true);
    page_query("notes", &conds, "filename ASC", binds, page_size, offset)
}

/// The page of projects, by id.
pub fn projects_page_query(page_size: u32, offset: i64) -> (q: IndexQuery)
    ensures
        q.sql@ == projects_sql(page_size, offset),
        q.binds@.len() == 0,
{
    let conds: Vec<Vec<char>> = Vec::new();
    assert(views(conds@) =~= Seq::<Seq<char>>::empty());
    page_query("projects", &conds, "id ASC", Vec::new(), page_size, offset)
}

/// The page of tasks with a deadline in the range (each bound when given) that list the
/// event `event_id` and the project `project_id` (each when given), by file, line and
/// insertion order.
pub fn tasks_page_query(
    page_size: u32,
    offset: i64,
    deadline_from: Option<&str>,
    deadline_to: Option<&str>,
    event_id: Option<&str>,
    project_id: Option<&str>,
) -> (q: IndexQuery)
    ensures
        q.sql@ == tasks_sql(page_size, offset, deadline_from, deadline_to, event_id, project_id),
        strs(q.binds@) == tasks_binds(deadline_from, deadline_to, event_id, project_id),
{
    let mut conds: Vec<Vec<char>> = Vec::new();
    let mut binds: Vec<String> = Vec::new();
    assert(views(conds@) =~= Seq::<Seq<char>>::empty());
    assert(strs(binds@) =~= Seq::<Seq<char>>::empty());
    add_filter(&mut conds, &mut binds, deadline_from, "deadline IS NOT NULL AND deadline >= ?", false);
    add_filter(&mut conds, &mut binds, deadline_to, "deadline IS NOT NULL AND deadline <= ?", false);
    add_filter(&mut conds, &mut binds, event_id, "instr(event_ids, ?) > 0", true);
    add_filter(&mut conds, &mut binds, project_id, "instr(project_ids, ?) > 0", true);
    page_query("tasks", &conds, "source_file ASC, line_number ASC, rowid ASC", binds, page_size, offset)
}

/// The `LIKE` pattern of the search fallback: the query anywhere in the text.
pub fn like_pattern(query: &str) -> (r: String)
    ensures
        r@ == seq!['%'] + query@ + seq!['%'],
{
    let mut v: Vec<char> = vec!['%'];
    append_chars(&mut v, &chars_of(query));
    v.push('%');
    string_of(&v)
}

} // verus!
