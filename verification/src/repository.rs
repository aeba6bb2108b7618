//! The decisions of the vault repository: paging, editing task lines in markdown files,
//! routing a changed task file to its reload, classifying watcher changes, and tasks
//! inheriting the ids of their note or project.

use vstd::prelude::*;
use crate::models::{lemma_strs_push, strs, TaskEntity};
use crate::numbers::{i64_chars, int_text, parse_i64, parsed_i64};
use crate::storage::{sanitize_content, sanitized};
use crate::text::{
    append_chars, chars_of, ends_with, has_prefix, has_suffix, is_ws, is_whitespace, join_chars,
    join_seq, split_chars, split_pieces, starts_with, string_of, sub_chars, trim_chars, trim_seq,
    views,
};

verus! {

/// A requested page size clamped to `1..=500`, 100 when absent.
pub open spec fn page_size_of(limit: Option<u32>) -> u32 {
    match limit {
        Some(l) => if l > 500 {
            500
        } else if l < 1 {
            1
        } else {
            l
        },
        None => 100,
    }
}

pub fn normalize_page_size(limit: Option<u32>) -> (r: u32)
    ensures
        r == page_size_of(limit),
        1 <= r <= 500,
{
    match limit {
        Some(l) => if l > 500 {
            500
        } else if l < 1 {
            1
        } else {
            l
        },
        None => 100,
    }
}

/// A cursor is a decimal offset; anything else starts at 0.
pub open spec fn cursor_offset(cursor: Option<Seq<char>>) -> i64 {
    match cursor {
        Some(c) => match parsed_i64(c) {
            Some(v) => v,
            None => 0,
        },
        None => 0,
    }
}

pub fn parse_cursor(cursor: Option<&str>) -> (r: i64)
    ensures
        r == cursor_offset(match cursor {
            Some(c) => Some(c@),
            None => None,
        }),
{
    match cursor {
        Some(c) => match parse_i64(&chars_of(c)) {
            Some(v) => v,
            None => 0,
        },
        None => 0,
    }
}

/// Cuts one page out of the rows fetched for it (the query fetches one row more than the
/// page): the first `page_size` rows, and the next cursor `offset + page_size` when rows
/// remain.
pub fn page_of<T>(rows: Vec<T>, page_size: u32, offset: i64) -> (r: (Vec<T>, Option<String>))
    requires
        rows.len() > page_size ==> offset + page_size <= i64::MAX,
    ensures
        rows.len() > page_size ==> (r.0@ == rows@.subrange(0, page_size as int) && (r.1 matches Some(
            c) && c@ == int_text(offset + page_size))),
        rows.len() <= page_size ==> r.0@ == rows@ && r.1 is None,
{
    let has_more = rows.len() > page_size as usize;
    let mut page = rows;
    if has_more {
        page.truncate(page_size as usize);
        let next = offset + page_size as i64;
        (page, Some(string_of(&i64_chars(next))))
    } else {
        (page, None)
    }
}

/// Number of leading `White_Space` characters of `l`.
pub open spec fn lead_ws(l: Seq<char>) -> nat
    decreases l.len(),
{
    if l.len() > 0 && is_ws(l[0]) {
        1 + lead_ws(l.drop_first())
    } else {
        0
    }
}

pub open spec fn is_bullet(c: char) -> bool {
    c == '-' || c == '*' || c == '+'
}

pub open spec fn is_marker(c: char) -> bool {
    c == ' ' || c == 'x' || c == 'X'
}

/// `^\s*[-*+] \[[ xX]\] `: the line starts as a checkbox item.
pub open spec fn starts_as_task(l: Seq<char>) -> bool {
    let k = lead_ws(l) as int;
    &&& l.len() >= k + 6
    &&& is_bullet(l[k]) && l[k + 1] == ' ' && l[k + 2] == '[' && is_marker(l[k + 3])
    &&& l[k + 4] == ']' && l[k + 5] == ' '
}

/// `^(\s*)([-*+]) \[([ xX])\] (.+)$`: a checkbox item with text.
pub open spec fn is_full_task(l: Seq<char>) -> bool {
    starts_as_task(l) && l.len() >= lead_ws(l) + 7
}

/// The line with its marker toggled: `x`/`X` becomes a space, anything else `x`.
pub open spec fn toggled_line(l: Seq<char>) -> Seq<char> {
    let k = lead_ws(l) as int;
    let m = if l[k + 3] == 'x' || l[k + 3] == 'X' {
        ' '
    } else {
        'x'
    };
    l.take(k + 3) + seq![m] + l.skip(k + 4)
}

/// The line with its text replaced by `text`, indent, bullet and marker kept.
pub open spec fn retexted_line(l: Seq<char>, text: Seq<char>) -> Seq<char> {
    let k = lead_ws(l) as int;
    l.take(k + 6) + text
}

/// The 0-based line index that a 1-based line number names, as `(n - 1) as usize`.
pub open spec fn line_index(n: i64) -> usize {
    (n - 1) as usize
}

pub open spec fn out_of_range_msg(n: i64) -> Seq<char> {
    "Line "@ + int_text(n as int) + " out of range"@
}

pub open spec fn not_a_task_msg(n: i64) -> Seq<char> {
    "Line "@ + int_text(n as int) + " is not a task"@
}

pub open spec fn empty_text_msg() -> Seq<char> {
    "Task text must not be empty"@
}

/// The pieces of a file joined back with `'\n'`, with one more `'\n'` when the file
/// ended in one, and sanitised.
pub open spec fn rejoined(pieces: Seq<Seq<char>>, text: Seq<char>) -> Seq<char> {
    let c = join_seq(pieces, seq!['\n']);
    sanitized(
        if has_suffix(text, seq!['\n']) {
            c.push('\n')
        } else {
            c
        },
    )
}

/// The file text after toggling the task on line `n`, or the error message.
pub open spec fn toggle_result(text: Seq<char>, n: i64) -> Result<Seq<char>, Seq<char>> {
    let ls = split_pieces(text, '\n');
    let i = line_index(n) as int;
    if i >= ls.len() {
        Err(out_of_range_msg(n))
    } else if !is_full_task(ls[i]) {
        Err(not_a_task_msg(n))
    } else {
        Ok(rejoined(ls.update(i, toggled_line(ls[i])), text))
    }
}

/// The file text after deleting the task on line `n`, or the error message.
pub open spec fn delete_result(text: Seq<char>, n: i64) -> Result<Seq<char>, Seq<char>> {
    let ls = split_pieces(text, '\n');
    let i = line_index(n) as int;
    if i >= ls.len() {
        Err(out_of_range_msg(n))
    } else if !starts_as_task(ls[i]) {
        Err(not_a_task_msg(n))
    } else {
        Ok(rejoined(ls.remove(i), text))
    }
}

/// The file text after replacing the text of the task on line `n`, or the error message.
pub open spec fn update_result(text: Seq<char>, n: i64, new_text: Seq<char>) -> Result<
    Seq<char>,
    Seq<char>,
> {
    let t = trim_seq(new_text);
    let ls = split_pieces(text, '\n');
    let i = line_index(n) as int;
    if t.len() == 0 {
        Err(empty_text_msg())
    } else if i >= ls.len() {
        Err(out_of_range_msg(n))
    } else if !is_full_task(ls[i]) {
        Err(not_a_task_msg(n))
    } else {
        Ok(rejoined(ls.update(i, retexted_line(ls[i], t)), text))
    }
}

/// The text of `tasks.md` after appending an open task with `text`, or the error message.
pub open spec fn create_result(existing: Seq<char>, text: Seq<char>) -> Result<Seq<char>, Seq<char>> {
    let t = trim_seq(text);
    if t.len() == 0 {
        Err(empty_text_msg())
    } else {
        let base = if existing.len() > 0 && !has_suffix(existing, seq!['\n']) {
            existing.push('\n')
        } else {
            existing
        };
        Ok(sanitized(base + "- [ ] "@ + t + seq!['\n']))
    }
}

fn lead_ws_count(l: &Vec<char>) -> (k: usize)
    ensures
        k == lead_ws(l@),
        k <= l.len(),
{
    let mut k: usize = 0;
    assert(l@.skip(0) == l@);
    while k < l.len() && is_whitespace(l[k])
        invariant
            k <= l.len(),
            lead_ws(l@) == k + lead_ws(l@.skip(k as int)),
        decreases l.len() - k,
    {
        assert(l@.skip(k as int).drop_first() == l@.skip(k + 1));
        k = k + 1;
    }
    k
}

fn starts_as_task_exec(l: &Vec<char>) -> (b: bool)
    ensures
        b == starts_as_task(l@),
{
    let k = lead_ws_count(l);
    l.len() - k >= 6 && (l[k] == '-' || l[k] == '*' || l[k] == '+') && l[k + 1] == ' ' && l[k + 2]
        == '[' && (l[k + 3] == ' ' || l[k + 3] == 'x' || l[k + 3] == 'X') && l[k + 4] == ']' && l[k
        + 5] == ' '
}

fn line_msg(n: i64, tail: &str) -> (r: String)
    ensures
        r@ == "Line "@ + int_text(n as int) + tail@,
{
    let mut v = chars_of("Line ");
    append_chars(&mut v, &i64_chars(n));
    append_chars(&mut v, &chars_of(tail));
    string_of(&v)
}

fn rejoin(ls: &Vec<Vec<char>>, text: &Vec<char>) -> (r: String)
    ensures
        r@ == rejoined(views(ls@), text@),
{
    let nl = vec!['\n'];
    assert(nl@ == seq!['\n']);
    let mut c = join_chars(ls, &nl);
    if ends_with(text, &nl) {
        c.push('\n');
    }
    let s = string_of(&c);
    sanitize_content(s.as_str())
}

/// Toggles the checkbox of the task on line `line_number` (1-based) of a file's text and
/// returns the new, sanitised text.
pub fn toggle_task_in_text(text: &str, line_number: i64) -> (r: Result<String, String>)
    requires
        line_number > i64::MIN,
    ensures
        match toggle_result(text@, line_number) {
            Ok(c) => r matches Ok(s) && s@ == c,
            Err(e) => r matches Err(s) && s@ == e,
        },
{
    let v = chars_of(text);
    let mut ls = split_chars(&v, '\n');
    let idx = (line_number - 1) as usize;
    if idx >= ls.len() {
        return Err(line_msg(line_number, " out of range"));
    }
    let l = sub_chars(&ls[idx], 0, ls[idx].len());
    assert(l@ == views(ls@)[idx as int]);
    let k = lead_ws_count(&l);
    if !(starts_as_task_exec(&l) && l.len() - k >= 7) {
        return Err(line_msg(line_number, " is not a task"));
    }
    let m = if l[k + 3] == 'x' || l[k + 3] == 'X' {
        ' '
    } else {
        'x'
    };
    let mut nl = sub_chars(&l, 0, k + 3);
    nl.push(m);
    let rest = sub_chars(&l, k + 4, l.len());
    append_chars(&mut nl, &rest);
    assert(nl@ == toggled_line(l@));
    let ghost old = ls@;
    ls.set(idx, nl);
    assert(views(ls@) =~= views(old).update(idx as int, toggled_line(l@)));
    Ok(rejoin(&ls, &v))
}

/// Removes the task on line `line_number` (1-based) from a file's text and returns the new,
/// sanitised text.
pub fn delete_task_in_text(text: &str, line_number: i64) -> (r: Result<String, String>)
    requires
        line_number > i64::MIN,
    ensures
        match delete_result(text@, line_number) {
            Ok(c) => r matches Ok(s) && s@ == c,
            Err(e) => r matches Err(s) && s@ == e,
        },
{
    let v = chars_of(text);
    let mut ls = split_chars(&v, '\n');
    let idx = (line_number - 1) as usize;
    if idx >= ls.len() {
        return Err(line_msg(line_number, " out of range"));
    }
    assert(ls@[idx as int]@ == views(ls@)[idx as int]);
    if !starts_as_task_exec(&ls[idx]) {
        return Err(line_msg(line_number, " is not a task"));
    }
    let ghost old = ls@;
    ls.remove(idx);
    assert(views(ls@) =~= views(old).remove(idx as int));
    Ok(rejoin(&ls, &v))
}

/// Replaces the text of the task on line `line_number` (1-based) of a file's text with
/// the trimmed `new_text` and returns the new, sanitised text.
pub fn update_task_in_text(text: &str, line_number: i64, new_text: &str) -> (r: Result<
    String,
    String,
>)
    requires
        trim_seq(new_text@).len() > 0 ==> line_number > i64::MIN,
    ensures
        match update_result(text@, line_number, new_text@) {
            Ok(c) => r matches Ok(s) && s@ == c,
            Err(e) => r matches Err(s) && s@ == e,
        },
{
    let t = trim_chars(&chars_of(new_text));
    if t.len() == 0 {
        return Err(string_of(&chars_of("Task text must not be empty")));
    }
    let v = chars_of(text);
    let mut ls = split_chars(&v, '\n');
    let idx = (line_number - 1) as usize;
    if idx >= ls.len() {
        return Err(line_msg(line_number, " out of range"));
    }
    let l = sub_chars(&ls[idx], 0, ls[idx].len());
    assert(l@ == views(ls@)[idx as int]);
    let k = lead_ws_count(&l);
    if !(starts_as_task_exec(&l) && l.len() - k >= 7) {
        return Err(line_msg(line_number, " is not a task"));
    }
    let mut nl = sub_chars(&l, 0, k + 6);
    append_chars(&mut nl, &t);
    assert(nl@ == retexted_line(l@, trim_seq(new_text@)));
    let ghost old = ls@;
    ls.set(idx, nl);
    assert(views(ls@) =~= views(old).update(idx as int, retexted_line(l@, trim_seq(new_text@))));
    Ok(rejoin(&ls, &v))
}

/// Appends an open task with the trimmed `text` to the text of `tasks.md` and returns the
/// new, sanitised text.
pub fn create_task_in_text(existing: &str, text: &str) -> (r: Result<String, String>)
    ensures
        match create_result(existing@, text@) {
            Ok(c) => r matches Ok(s) && s@ == c,
            Err(e) => r matches Err(s) && s@ == e,
        },
{
    let t = trim_chars(&chars_of(text));
    if t.len() == 0 {
        return Err(string_of(&chars_of("Task text must not be empty")));
    }
    let mut c = chars_of(existing);
    let nl = vec!['\n'];
    assert(nl@ == seq!['\n']);
    if c.len() > 0 && !ends_with(&c, &nl) {
        c.push('\n');
    }
    let ghost base = c@;
    let prefix = chars_of("- [ ] ");
    append_chars(&mut c, &prefix);
    append_chars(&mut c, &t);
    c.push('\n');
    assert(c@ == base + "- [ ] "@ + trim_seq(text@) + seq!['\n']);
    let s = string_of(&c);
    Ok(sanitize_content(s.as_str()))
}

} // verus!

verus! {

/// Which reload a task edit in `source_file` needs.
#[derive(Debug, Clone, PartialEq, Eq)]
pub enum ReloadTarget {
    /// a note, by its file name under `notes/`
    Note(String),
    /// a project, by its file name under `projects/`
    Project(String),
    /// `tasks.md`
    Tasks,
}

pub open spec fn notes_prefix() -> Seq<char> {
    "notes/"@
}

pub open spec fn projects_prefix() -> Seq<char> {
    "projects/"@
}

/// `notes/<f>` reloads note `f`, `projects/<f>` reloads project `f` (every leading
/// repetition of the prefix removed), anything else reloads `tasks.md`.
pub open spec fn reload_target_of(sf: Seq<char>) -> (Option<Seq<char>>, Option<Seq<char>>) {
    if has_prefix(sf, notes_prefix()) {
        (Some(crate::storage::strip_all_prefix(sf, notes_prefix())), None)
    } else if has_prefix(sf, projects_prefix()) {
        (None, Some(crate::storage::strip_all_prefix(sf, projects_prefix())))
    } else {
        (None, None)
    }
}

pub open spec fn reload_target_view(t: ReloadTarget) -> (Option<Seq<char>>, Option<Seq<char>>) {
    match t {
        ReloadTarget::Note(f) => (Some(f@), None),
        ReloadTarget::Project(f) => (None, Some(f@)),
        ReloadTarget::Tasks => (None, None),
    }
}

pub fn task_reload_target(source_file: &str) -> (r: ReloadTarget)
    ensures
        reload_target_view(r) == reload_target_of(source_file@),
{
    let v = chars_of(source_file);
    let np = chars_of("notes/");
    let pp = chars_of("projects/");
    assert(np@.len() > 0) by {
        reveal_strlit("notes/");
    }
    assert(pp@.len() > 0) by {
        reveal_strlit("projects/");
    }
    if starts_with(&v, &np) {
        ReloadTarget::Note(string_of(&crate::storage::strip_all_prefix_chars(&v, &np)))
    } else if starts_with(&v, &pp) {
        ReloadTarget::Project(string_of(&crate::storage::strip_all_prefix_chars(&v, &pp)))
    } else {
        ReloadTarget::Tasks
    }
}

/// The components of a relative or absolute path as `Path::components` yields them on
/// Unix, each as text: `/` for the root, `.` only as a leading component, empty and
/// inner `.` components dropped.
pub open spec fn path_components(p: Seq<char>) -> Seq<Seq<char>> {
    let pieces = split_pieces(p, '/');
    let rooted = p.len() > 0 && p[0] == '/';
    let cur = !rooted && pieces[0] == seq!['.'];
    let head: Seq<Seq<char>> = if rooted {
        seq![seq!['/']]
    } else if cur {
        seq![seq!['.']]
    } else {
        Seq::empty()
    };
    let tail = if rooted || cur {
        pieces.drop_first()
    } else {
        pieces
    };
    head + tail.filter(|x: Seq<char>| x.len() > 0 && x != seq!['.'])
}

fn components_of(p: &Vec<char>) -> (r: Vec<Vec<char>>)
    ensures
        views(r@) == path_components(p@),
{
    let pieces = split_chars(p, '/');
    proof {
        crate::text::lemma_pieces_nonempty(p@, '/');
    }
    let rooted = p.len() > 0 && p[0] == '/';
    let dot = vec!['.'];
    assert(dot@ == seq!['.']);
    let cur = !rooted && pieces[0].len() == 1 && pieces[0][0] == '.';
    assert(cur == (!rooted && views(pieces@)[0] == seq!['.'])) by {
        if views(pieces@)[0] == seq!['.'] {
            assert(pieces@[0]@ == seq!['.']);
        }
        if !rooted && pieces@[0]@.len() == 1 && pieces@[0]@[0] == '.' {
            assert(pieces@[0]@ == seq!['.']);
        }
    }
    let mut r: Vec<Vec<char>> = Vec::new();
    if rooted {
        let sl = vec!['/'];
        assert(sl@ == seq!['/']);
        r.push(sl);
        assert(views(r@) =~= seq![seq!['/']]);
    } else if cur {
        let d = vec!['.'];
        assert(d@ == seq!['.']);
        r.push(d);
        assert(views(r@) =~= seq![seq!['.']]);
    } else {
        assert(views(r@) =~= Seq::<Seq<char>>::empty());
    }
    let ghost head = views(r@);
    let start: usize = if rooted || cur {
        1
    } else {
        0
    };
    let ghost tail = views(pieces@).skip(start as int);
    let ghost f = |x: Seq<char>| x.len() > 0 && x != seq!['.'];
    let mut i: usize = start;
    assert(tail.take(0) == Seq::<Seq<char>>::empty());
    assert(head == (if rooted {
        seq![seq!['/']]
    } else if cur {
        seq![seq!['.']]
    } else {
        Seq::<Seq<char>>::empty()
    }));
    while i < pieces.len()
        invariant
            start <= i <= pieces.len(),
            tail == views(pieces@).skip(start as int),
            f == (|x: Seq<char>| x.len() > 0 && x != seq!['.']),
            views(r@) == head + tail.take(i - start).filter(f),
        decreases pieces.len() - i,
    {
        assert(tail.take(i - start + 1).drop_last() == tail.take(i - start));
        assert(tail.take(i - start + 1).last() == pieces@[i as int]@);
        reveal_with_fuel(Seq::filter, 1);
        let keep = pieces[i].len() > 0 && !(pieces[i].len() == 1 && pieces[i][0] == '.');
        assert(keep == f(pieces@[i as int]@)) by {
            if pieces@[i as int]@ == seq!['.'] {
                assert(pieces@[i as int]@.len() == 1);
            }
            if pieces@[i as int]@.len() == 1 && pieces@[i as int]@[0] == '.' {
                assert(pieces@[i as int]@ == seq!['.']);
            }
        }
        let ghost n = i - start;
        assert(tail.take(n + 1).filter(f) == (if f(tail.take(n + 1).last()) {
            tail.take(n).filter(f).push(tail.take(n + 1).last())
        } else {
            tail.take(n).filter(f)
        }));
        if keep {
            let x = sub_chars(&pieces[i], 0, pieces[i].len());
            assert(x@ == pieces@[i as int]@);
            let ghost old = r@;
            r.push(x);
            assert(views(r@) =~= views(old).push(x@));
            assert(head + tail.take(n).filter(f).push(x@) =~= (head + tail.take(n).filter(f)).push(x@));
        }
        i = i + 1;
    }
    assert(tail.take(i - start) == tail);
    if start == 1 {
        assert(tail == views(pieces@).drop_first());
    } else {
        assert(tail == views(pieces@));
    }
    r
}

/// The components of a path given as text.
pub fn components_of_str(p: &str) -> (r: Vec<Vec<char>>)
    ensures
        views(r@) == path_components(p@),
{
    components_of(&chars_of(p))
}

/// What a changed path (relative to the vault root) asks to reload.
pub enum ChangeKind {
    Events,
    Tasks,
    Note(Seq<char>),
    Project(Seq<char>),
    Ignored,
}

pub open spec fn change_kind(p: Seq<char>) -> ChangeKind {
    let cs = path_components(p);
    if cs.len() == 0 {
        ChangeKind::Ignored
    } else if cs[0] == "events.yaml"@ || cs[0] == "events.yml"@ {
        ChangeKind::Events
    } else if cs[0] == "tasks.md"@ {
        ChangeKind::Tasks
    } else if cs[0] == "notes"@ && cs.len() > 1 {
        ChangeKind::Note(join_seq(cs.drop_first(), seq!['/']))
    } else if cs[0] == "projects"@ && cs.len() > 1 {
        ChangeKind::Project(join_seq(cs.drop_first(), seq!['/']))
    } else {
        ChangeKind::Ignored
    }
}

/// The reloads that a batch of changed paths asks for.
#[derive(Debug)]
pub struct ChangePlan {
    pub events: bool,
    pub notes: bool,
    pub note_files: Vec<String>,
    pub projects: bool,
    pub project_files: Vec<String>,
    pub tasks: bool,
    /// The entities to announce as changed, sorted and without repeats; `tasks` always
    /// (task resolution runs after every reload).
    pub affected: Vec<String>,
}

pub open spec fn note_files_of(ps: Seq<Seq<char>>) -> Seq<Seq<char>>
    decreases ps.len(),
{
    if ps.len() == 0 {
        Seq::empty()
    } else {
        let rest = note_files_of(ps.drop_last());
        match change_kind(ps.last()) {
            ChangeKind::Note(f) => rest.push(f),
            _ => rest,
        }
    }
}

pub open spec fn project_files_of(ps: Seq<Seq<char>>) -> Seq<Seq<char>>
    decreases ps.len(),
{
    if ps.len() == 0 {
        Seq::empty()
    } else {
        let rest = project_files_of(ps.drop_last());
        match change_kind(ps.last()) {
            ChangeKind::Project(f) => rest.push(f),
            _ => rest,
        }
    }
}

pub open spec fn any_events(ps: Seq<Seq<char>>) -> bool {
    exists|i: int| 0 <= i < ps.len() && change_kind(ps[i]) is Events
}

pub open spec fn any_tasks(ps: Seq<Seq<char>>) -> bool {
    exists|i: int| 0 <= i < ps.len() && change_kind(ps[i]) is Tasks
}

/// The announced entities for the reloads done.
pub open spec fn affected_of(events: bool, notes: bool, projects: bool) -> Seq<Seq<char>> {
    (if events {
        seq!["events"@]
    } else {
        Seq::empty()
    }) + (if notes {
        seq!["notes"@]
    } else {
        Seq::empty()
    }) + (if projects {
        seq!["projects"@]
    } else {
        Seq::empty()
    }) + seq!["tasks"@]
}

/// The plan for a batch of changed paths; `None` when no path concerns vault data.
pub open spec fn plan_holds(ps: Seq<Seq<char>>, r: Option<ChangePlan>) -> bool {
    let ev = any_events(ps);
    let tk = any_tasks(ps);
    let nf = note_files_of(ps);
    let pf = project_files_of(ps);
    if !ev && !tk && nf.len() == 0 && pf.len() == 0 {
        r is None
    } else {
        (r matches Some(p) && p.events == ev && p.tasks == tk && p.notes == (nf.len() > 0)
            && strs(p.note_files@) == nf && p.projects == (pf.len() > 0) && strs(p.project_files@)
            == pf && strs(p.affected@) == affected_of(ev, nf.len() > 0, pf.len() > 0))
    }
}

fn eq_chars_str(v: &Vec<char>, s: &str) -> (b: bool)
    ensures
        b == (v@ == s@),
{
    let w = chars_of(s);
    if v.len() != w.len() {
        return false;
    }
    assert(v@.take(w@.len() as int) =~= v@);
    starts_with(v, &w)
}

fn kind_of(p: &String) -> (r: (u8, Option<String>))
    ensures
        match change_kind(p@) {
            ChangeKind::Events => r.0 == 1,
            ChangeKind::Tasks => r.0 == 2,
            ChangeKind::Note(f) => r.0 == 3 && (r.1 matches Some(s) && s@ == f),
            ChangeKind::Project(f) => r.0 == 4 && (r.1 matches Some(s) && s@ == f),
            ChangeKind::Ignored => r.0 == 0,
        },
{
    let cs = components_of(&chars_of(p.as_str()));
    if cs.len() == 0 {
        return (0, None);
    }
    assert(cs@[0]@ == path_components(p@)[0]);
    if eq_chars_str(&cs[0], "events.yaml") || eq_chars_str(&cs[0], "events.yml") {
        return (1, None);
    }
    if eq_chars_str(&cs[0], "tasks.md") {
        return (2, None);
    }
    let is_notes = eq_chars_str(&cs[0], "notes");
    let is_projects = eq_chars_str(&cs[0], "projects");
    if (is_notes || is_projects) && cs.len() > 1 {
        let mut rest: Vec<Vec<char>> = Vec::new();
        let mut i: usize = 1;
        while i < cs.len()
            invariant
                1 <= i <= cs.len(),
                views(rest@) == views(cs@).subrange(1, i as int),
            decreases cs.len() - i,
        {
            let x = sub_chars(&cs[i], 0, cs[i].len());
            assert(x@ == cs@[i as int]@);
            let ghost old = rest@;
            rest.push(x);
            assert(views(rest@) =~= views(old).push(x@));
            assert(views(cs@).subrange(1, i + 1) =~= views(cs@).subrange(1, i as int).push(
                views(cs@)[i as int],
            ));
            i = i + 1;
        }
        assert(views(cs@).subrange(1, cs@.len() as int) == views(cs@).drop_first());
        let slash = vec!['/'];
        assert(slash@ == seq!['/']);
        let joined = string_of(&join_chars(&rest, &slash));
        if is_notes {
            return (3, Some(joined));
        } else {
            return (4, Some(joined));
        }
    }
    (0, None)
}

/// Whether a reload re-resolves the tasks: always when it re-parsed tasks (a note, a
/// project or `tasks.md` changed), since re-parsed tasks are stored unresolved; after an
/// `events.yaml` change alone, not when the last resolution was less than 600 ms ago
/// (`since_last_ms`, none when there was none): the command that wrote the file has
/// just resolved against it.
pub fn should_resolve(plan: &ChangePlan, since_last_ms: Option<u64>) -> (b: bool)
    ensures
        b == (plan.notes || plan.projects || plan.tasks || match since_last_ms {
            Some(ms) => ms >= 600,
            None => true,
        }),
{
    if plan.notes || plan.projects || plan.tasks {
        return true;
    }
    match since_last_ms {
        Some(ms) => ms >= 600,
        None => true,
    }
}

/// Classifies the paths that changed under the vault root into the reloads they need.
pub fn classify_changes(paths: &Vec<String>) -> (r: Option<ChangePlan>)
    ensures
        plan_holds(strs(paths@), r),
{
    let mut events = false;
    let mut tasks = false;
    let mut note_files: Vec<String> = Vec::new();
    let mut project_files: Vec<String> = Vec::new();
    let ghost ps = strs(paths@);
    let mut i: usize = 0;
    assert(ps.take(0) == Seq::<Seq<char>>::empty());
    while i < paths.len()
        invariant
            i <= paths.len(),
            ps == strs(paths@),
            events == any_events(ps.take(i as int)),
            tasks == any_tasks(ps.take(i as int)),
            strs(note_files@) == note_files_of(ps.take(i as int)),
            strs(project_files@) == project_files_of(ps.take(i as int)),
        decreases paths.len() - i,
    {
        let ghost pre = ps.take(i as int);
        let ghost cur = ps.take(i + 1);
        assert(cur.drop_last() == pre);
        assert(cur.last() == paths@[i as int]@);
        let (k, f) = kind_of(&paths[i]);
        assert(any_events(cur) == (any_events(pre) || change_kind(cur.last()) is Events)) by {
            if change_kind(cur.last()) is Events {
                assert(cur[i as int] == cur.last());
            }
            if any_events(cur) {
                let w = choose|w: int| 0 <= w < cur.len() && change_kind(cur[w]) is Events;
                if w < i {
                    assert(pre[w] == cur[w]);
                }
            }
            if any_events(pre) {
                let w = choose|w: int| 0 <= w < pre.len() && change_kind(pre[w]) is Events;
                assert(pre[w] == cur[w]);
            }
        }
        assert(any_tasks(cur) == (any_tasks(pre) || change_kind(cur.last()) is Tasks)) by {
            if change_kind(cur.last()) is Tasks {
                assert(cur[i as int] == cur.last());
            }
            if any_tasks(cur) {
                let w = choose|w: int| 0 <= w < cur.len() && change_kind(cur[w]) is Tasks;
                if w < i {
                    assert(pre[w] == cur[w]);
                }
            }
            if any_tasks(pre) {
                let w = choose|w: int| 0 <= w < pre.len() && change_kind(pre[w]) is Tasks;
                assert(pre[w] == cur[w]);
            }
        }
        if k == 1 {
            events = true;
        } else if k == 2 {
            tasks = true;
        } else if k == 3 {
            let s = f.unwrap();
            let ghost old = note_files@;
            note_files.push(s);
            proof {
                lemma_strs_push(old, note_files@.last());
            }
        } else if k == 4 {
            let s = f.unwrap();
            let ghost old = project_files@;
            project_files.push(s);
            proof {
                lemma_strs_push(old, project_files@.last());
            }
        }
        i = i + 1;
    }
    assert(ps.take(paths@.len() as int) == ps);
    let notes = note_files.len() > 0;
    let projects = project_files.len() > 0;
    if !events && !tasks && !notes && !projects {
        return None;
    }
    let mut affected: Vec<String> = Vec::new();
    if events {
        affected.push(string_of(&chars_of("events")));
    }
    if notes {
        affected.push(string_of(&chars_of("notes")));
    }
    if projects {
        affected.push(string_of(&chars_of("projects")));
    }
    affected.push(string_of(&chars_of("tasks")));
    assert(strs(affected@) =~= affected_of(events, notes, projects));
    Some(ChangePlan { events, notes, note_files, projects, project_files, tasks, affected })
}

} // verus!

verus! {

/// `ids` with each id of `inherited` appended, in order, unless already present.
pub open spec fn merged_ids(ids: Seq<Seq<char>>, inherited: Seq<Seq<char>>) -> Seq<Seq<char>>
    decreases inherited.len(),
{
    if inherited.len() == 0 {
        ids
    } else {
        let m = merged_ids(ids, inherited.drop_last());
        let x = inherited.last();
        if m.contains(x) {
            m
        } else {
            m.push(x)
        }
    }
}

fn strings_contain(v: &Vec<String>, s: &String) -> (b: bool)
    ensures
        b == strs(v@).contains(s@),
{
    let mut k: usize = 0;
    while k < v.len()
        invariant
            k <= v.len(),
            forall|i: int| 0 <= i < k ==> strs(v@)[i] != s@,
        decreases v.len() - k,
    {
        if crate::storage::string_eq(&v[k], s.as_str()) {
            assert(strs(v@)[k as int] == s@);
            return true;
        }
        k = k + 1;
    }
    false
}

/// Appends each inherited id that `ids` lacks.
pub fn merge_ids(ids: &mut Vec<String>, inherited: &Vec<String>)
    ensures
        strs(final(ids)@) == merged_ids(strs(old(ids)@), strs(inherited@)),
{
    let ghost start = strs(ids@);
    let mut i: usize = 0;
    assert(strs(inherited@).take(0) == Seq::<Seq<char>>::empty());
    while i < inherited.len()
        invariant
            i <= inherited.len(),
            strs(ids@) == merged_ids(start, strs(inherited@).take(i as int)),
        decreases inherited.len() - i,
    {
        let ghost inh = strs(inherited@);
        assert(inh.take(i + 1).drop_last() == inh.take(i as int));
        assert(inh.take(i + 1).last() == inherited@[i as int]@);
        if !strings_contain(ids, &inherited[i]) {
            let ghost old_ids = ids@;
            ids.push(inherited[i].clone());
            proof {
                lemma_strs_push(old_ids, ids@.last());
            }
        }
        i = i + 1;
    }
    assert(strs(inherited@).take(inherited@.len() as int) == strs(inherited@));
}

/// A task of a note: the note's event and project ids merged into its own.
pub open spec fn note_task(t: crate::models::TaskView, events: Seq<Seq<char>>, projects: Seq<Seq<char>>) -> crate::models::TaskView {
    crate::models::TaskView {
        event_ids: merged_ids(t.event_ids, events),
        project_ids: merged_ids(t.project_ids, projects),
        ..t
    }
}

/// A task of a project: the project's event ids and the project's own id merged into its
/// own.
pub open spec fn project_task(t: crate::models::TaskView, events: Seq<Seq<char>>, project_id: Seq<char>) -> crate::models::TaskView {
    crate::models::TaskView {
        event_ids: merged_ids(t.event_ids, events),
        project_ids: merged_ids(t.project_ids, seq![project_id]),
        ..t
    }
}

/// The tasks of a note, each inheriting the note's front-matter event and project ids.
pub fn inherit_note_ids(tasks: Vec<TaskEntity>, event_ids: &Vec<String>, project_ids: &Vec<String>) -> (r: Vec<TaskEntity>)
    ensures
        r.len() == tasks.len(),
        forall|k: int| 0 <= k < tasks.len() ==> #[trigger] r@[k]@ == note_task(tasks@[k]@, strs(event_ids@), strs(project_ids@)),
{
    let mut tasks = tasks;
    let ghost orig = tasks@;
    let mut r: Vec<TaskEntity> = Vec::new();
    while tasks.len() > 0
        invariant
            r.len() + tasks.len() == orig.len(),
            tasks@ == orig.skip(r.len() as int),
            forall|k: int| 0 <= k < r.len() ==> #[trigger] r@[k]@ == note_task(orig[k]@, strs(event_ids@), strs(project_ids@)),
        decreases tasks.len(),
    {
        let ghost idx = r.len() as int;
        assert(tasks@[0] == orig[idx]);
        let mut t = tasks.remove(0);
        assert(tasks@ == orig.skip(idx + 1));
        merge_ids(&mut t.event_ids, event_ids);
        merge_ids(&mut t.project_ids, project_ids);
        r.push(t);
    }
    r
}

/// The tasks of a project, each inheriting the project's front-matter event ids and the
/// project's id.
pub fn inherit_project_ids(tasks: Vec<TaskEntity>, event_ids: &Vec<String>, project_id: &String) -> (r: Vec<TaskEntity>)
    ensures
        r.len() == tasks.len(),
        forall|k: int| 0 <= k < tasks.len() ==> #[trigger] r@[k]@ == project_task(tasks@[k]@, strs(event_ids@), project_id@),
{
    let mut one: Vec<String> = Vec::new();
    one.push(project_id.clone());
    assert(strs(one@) =~= seq![project_id@]);
    let mut tasks = tasks;
    let ghost orig = tasks@;
    let mut r: Vec<TaskEntity> = Vec::new();
    while tasks.len() > 0
        invariant
            r.len() + tasks.len() == orig.len(),
            tasks@ == orig.skip(r.len() as int),
            strs(one@) == seq![project_id@],
            forall|k: int| 0 <= k < r.len() ==> #[trigger] r@[k]@ == project_task(orig[k]@, strs(event_ids@), project_id@),
        decreases tasks.len(),
    {
        let ghost idx = r.len() as int;
        assert(tasks@[0] == orig[idx]);
        let mut t = tasks.remove(0);
        assert(tasks@ == orig.skip(idx + 1));
        merge_ids(&mut t.event_ids, event_ids);
        merge_ids(&mut t.project_ids, &one);
        r.push(t);
    }
    r
}

} // verus!

verus! {

/// A note of the vault: its file name under `notes/`, title and preview of its body,
/// front-matter ids and raw text.
pub fn note_entity(
    filename: String,
    raw: String,
    body: &str,
    event_ids: Vec<String>,
    project_ids: Vec<String>,
) -> (n: crate::models::NoteEntity)
    ensures
        n.filename == filename && n.raw_content == raw && n.event_ids == event_ids
            && n.project_ids == project_ids,
        n.title@ == crate::storage::title_of(body@),
        n.body_preview@ == crate::storage::preview_of(body@),
{
    crate::models::NoteEntity {
        filename,
        title: crate::storage::extract_title(body),
        body_preview: crate::storage::body_preview(body),
        event_ids,
        project_ids,
        raw_content: raw,
    }
}

/// A project of the vault: its id (the file stem), file name under `projects/`, title and
/// preview of its body, front-matter event ids and raw text.
pub fn project_entity(
    filename: String,
    raw: String,
    body: &str,
    event_ids: Vec<String>,
) -> (r: Option<crate::models::ProjectEntity>)
    ensures
        match crate::paths::file_stem_of(filename@) {
            Some(id) => r matches Some(p) && p.id@ == id && p.filename == filename
                && p.raw_content == raw && p.event_ids == event_ids && p.title@
                == crate::storage::title_of(body@) && p.body_preview@ == crate::storage::preview_of(
                body@,
            ),
            None => r is None,
        },
{
    let id = match crate::paths::file_stem(filename.as_str()) {
        Some(id) => id,
        None => return None,
    };
    Some(
        crate::models::ProjectEntity {
            id,
            filename,
            title: crate::storage::extract_title(body),
            body_preview: crate::storage::body_preview(body),
            event_ids,
            raw_content: raw,
        },
    )
}

} // verus!
