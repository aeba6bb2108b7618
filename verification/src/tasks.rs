//! Markdown checkbox tasks: the task-line grammar, the `@` / `#` reference grammar
//! inside task text, and deadline resolution against events.

use vstd::prelude::*;
use crate::chars::{CharClass, class_has, lemma_run_end_bounds, run_end, run_end_of, unicode_decimal_digit};
use crate::models::{
    TaskEntity, TaskView, TimeRefView, TimeReference, lemma_strs_push, opt_str, pair_strs, strs,
    task_views, time_ref_views,
};
use crate::numbers::{parse_i64, parsed_i64};
use crate::time::{compute_offset, instant_in_range, iso_seconds_text, offset_secs};
use crate::text::{
    append_chars, chars_of, lines_chars, lines_of, string_of, sub_chars, trim_chars, trim_seq,
    views,
};

verus! {

/// One reference found in task text.
pub enum RefMatch {
    /// `@YYYY-MM-DDTHH:MM`: the sixteen characters after `@`
    Deadline(Seq<char>),
    /// `@modifier[<digits><unit>]:target`
    Relative { modifier: Seq<char>, digits: Seq<char>, unit: char, target: Seq<char> },
    /// `@event-id`
    Plain(Seq<char>),
}

pub open spec fn digit_at(t: Seq<char>, i: int) -> bool {
    0 <= i < t.len() && unicode_decimal_digit(t[i])
}

/// `\d{4}-\d{2}-\d{2}T\d{2}:\d{2}` right after the `@` at `j`.
pub open spec fn datetime_at(t: Seq<char>, j: int) -> bool {
    &&& j + 16 < t.len()
    &&& digit_at(t, j + 1) && digit_at(t, j + 2) && digit_at(t, j + 3) && digit_at(t, j + 4)
    &&& t[j + 5] == '-'
    &&& digit_at(t, j + 6) && digit_at(t, j + 7)
    &&& t[j + 8] == '-'
    &&& digit_at(t, j + 9) && digit_at(t, j + 10)
    &&& t[j + 11] == 'T'
    &&& digit_at(t, j + 12) && digit_at(t, j + 13)
    &&& t[j + 14] == ':'
    &&& digit_at(t, j + 15) && digit_at(t, j + 16)
}

pub open spec fn is_unit(c: char) -> bool {
    c == 'Y' || c == 'M' || c == 'W' || c == 'd' || c == 'h' || c == 'm'
}

/// The split points `(p, q, r)` of `(\w+?)\[(\d+)([YMWdhm])\]:([\w\-\.:]+)` right after the
/// `@` at `j`: the modifier ends at `p`, the digits run from `p + 1` to `q`, the unit is at
/// `q`, and the target runs from `q + 3` to `r`.
pub open spec fn relative_at(t: Seq<char>, j: int) -> Option<(int, int, int)> {
    let p = run_end(t, j + 1, CharClass::Word);
    let q = run_end(t, p + 1, CharClass::Digit);
    let r = run_end(t, q + 3, CharClass::Target);
    if p > j + 1 && p < t.len() && t[p] == '[' && q > p + 1 && q + 2 < t.len() && is_unit(t[q])
        && t[q + 1] == ']' && t[q + 2] == ':' && r > q + 3 {
        Some((p, q, r))
    } else {
        None
    }
}

/// The reference that the time pattern matches at `j` (leftmost-first over its three
/// alternatives), and where the match ends.
pub open spec fn ref_at(t: Seq<char>, j: int) -> Option<(RefMatch, int)> {
    if !(0 <= j < t.len() && t[j] == '@') {
        None
    } else if datetime_at(t, j) {
        Some((RefMatch::Deadline(t.subrange(j + 1, j + 17)), j + 17))
    } else {
        match relative_at(t, j) {
            Some((p, q, r)) => Some(
                (
                    RefMatch::Relative {
                        modifier: t.subrange(j + 1, p),
                        digits: t.subrange(p + 1, q),
                        unit: t[q],
                        target: t.subrange(q + 3, r),
                    },
                    r,
                ),
            ),
            None => {
                let e = run_end(t, j + 1, CharClass::EventId);
                if e > j + 1 {
                    Some((RefMatch::Plain(t.subrange(j + 1, e)), e))
                } else {
                    None
                }
            },
        }
    }
}

/// All non-overlapping references of `t` from `j` on, left to right.
pub open spec fn scan_refs(t: Seq<char>, j: int) -> Seq<RefMatch>
    decreases t.len() - j,
{
    if j < 0 || j >= t.len() {
        Seq::empty()
    } else {
        match ref_at(t, j) {
            Some((m, e)) => if j < e <= t.len() {
                seq![m] + scan_refs(t, e)
            } else {
                Seq::empty()
            },
            None => scan_refs(t, j + 1),
        }
    }
}

/// The event ids that references name, in order.
pub open spec fn ref_event_ids(ms: Seq<RefMatch>) -> Seq<Seq<char>>
    decreases ms.len(),
{
    if ms.len() == 0 {
        Seq::empty()
    } else {
        let rest = ref_event_ids(ms.drop_last());
        match ms.last() {
            RefMatch::Relative { target, .. } => rest.push(target),
            RefMatch::Plain(id) => rest.push(id),
            RefMatch::Deadline(_) => rest,
        }
    }
}

/// The time references, in order; an amount that does not parse as `i64` counts as 0.
pub open spec fn ref_time_refs(ms: Seq<RefMatch>) -> Seq<TimeRefView>
    decreases ms.len(),
{
    if ms.len() == 0 {
        Seq::empty()
    } else {
        let rest = ref_time_refs(ms.drop_last());
        match ms.last() {
            RefMatch::Relative { modifier, digits, unit, target } => rest.push(
                TimeRefView {
                    modifier,
                    amount: match parsed_i64(digits) {
                        Some(v) => v,
                        None => 0,
                    },
                    unit: seq![unit],
                    target_id: target,
                },
            ),
            _ => rest,
        }
    }
}

pub open spec fn seconds_suffix() -> Seq<char> {
    seq![':', '0', '0']
}

/// The last absolute date-time reference, with `:00` seconds appended.
pub open spec fn ref_deadline(ms: Seq<RefMatch>) -> Option<Seq<char>>
    decreases ms.len(),
{
    if ms.len() == 0 {
        None
    } else {
        match ms.last() {
            RefMatch::Deadline(d) => Some(d + seconds_suffix()),
            _ => ref_deadline(ms.drop_last()),
        }
    }
}

/// The project ids of `#id` references from `j` on, left to right.
pub open spec fn scan_projects(t: Seq<char>, j: int) -> Seq<Seq<char>>
    decreases t.len() - j,
{
    if j < 0 || j >= t.len() {
        Seq::empty()
    } else {
        let e = run_end(t, j + 1, CharClass::ProjectId);
        if t[j] == '#' && j + 1 < e <= t.len() {
            seq![t.subrange(j + 1, e)] + scan_projects(t, e)
        } else {
            scan_projects(t, j + 1)
        }
    }
}

/// A reference as the executable code holds it.
pub enum FoundRef {
    Deadline(Vec<char>),
    Relative { modifier: Vec<char>, digits: Vec<char>, unit: char, target: Vec<char> },
    Plain(Vec<char>),
}

impl View for FoundRef {
    type V = RefMatch;

    open spec fn view(&self) -> RefMatch {
        match self {
            FoundRef::Deadline(d) => RefMatch::Deadline(d@),
            FoundRef::Relative { modifier, digits, unit, target } => RefMatch::Relative {
                modifier: modifier@,
                digits: digits@,
                unit: *unit,
                target: target@,
            },
            FoundRef::Plain(id) => RefMatch::Plain(id@),
        }
    }
}

fn digit_at_exec(t: &Vec<char>, i: usize) -> (b: bool)
    ensures
        b == digit_at(t@, i as int),
{
    i < t.len() && class_has(CharClass::Digit, t[i])
}

fn datetime_at_exec(t: &Vec<char>, j: usize) -> (b: bool)
    requires
        j < t.len(),
    ensures
        b == datetime_at(t@, j as int),
{
    if t.len() - j <= 16 {
        return false;
    }
    digit_at_exec(t, j + 1) && digit_at_exec(t, j + 2) && digit_at_exec(t, j + 3)
        && digit_at_exec(t, j + 4) && t[j + 5] == '-' && digit_at_exec(t, j + 6)
        && digit_at_exec(t, j + 7) && t[j + 8] == '-' && digit_at_exec(t, j + 9)
        && digit_at_exec(t, j + 10) && t[j + 11] == 'T' && digit_at_exec(t, j + 12)
        && digit_at_exec(t, j + 13) && t[j + 14] == ':' && digit_at_exec(t, j + 15)
        && digit_at_exec(t, j + 16)
}

fn relative_at_exec(t: &Vec<char>, j: usize) -> (r: Option<(usize, usize, usize)>)
    requires
        j < t.len(),
    ensures
        match relative_at(t@, j as int) {
            Some((p, q, e)) => r matches Some((a, b, c)) && a == p && b == q && c == e,
            None => r is None,
        },
{
    let p = run_end_of(t, j + 1, CharClass::Word);
    if !(p > j + 1 && p < t.len() && t[p] == '[') {
        return None;
    }
    let q = run_end_of(t, p + 1, CharClass::Digit);
    if !(q > p + 1 && q < t.len() && t.len() - q > 2) {
        return None;
    }
    let u = t[q];
    if !(u == 'Y' || u == 'M' || u == 'W' || u == 'd' || u == 'h' || u == 'm') {
        return None;
    }
    if !(t[q + 1] == ']' && t[q + 2] == ':') {
        return None;
    }
    let r = run_end_of(t, q + 3, CharClass::Target);
    if r > q + 3 {
        Some((p, q, r))
    } else {
        None
    }
}

fn ref_at_exec(t: &Vec<char>, j: usize) -> (r: Option<(FoundRef, usize)>)
    requires
        j < t.len(),
    ensures
        match ref_at(t@, j as int) {
            Some((m, e)) => r matches Some((x, f)) && x@ == m && f == e,
            None => r is None,
        },
{
    if t[j] != '@' {
        return None;
    }
    if datetime_at_exec(t, j) {
        return Some((FoundRef::Deadline(sub_chars(t, j + 1, j + 17)), j + 17));
    }
    match relative_at_exec(t, j) {
        Some((p, q, e)) => {
            proof {
                lemma_relative_bounds(t@, j as int);
            }
            Some(
                (
                    FoundRef::Relative {
                        modifier: sub_chars(t, j + 1, p),
                        digits: sub_chars(t, p + 1, q),
                        unit: t[q],
                        target: sub_chars(t, q + 3, e),
                    },
                    e,
                ),
            )
        },
        None => {
            let e = run_end_of(t, j + 1, CharClass::EventId);
            if e > j + 1 {
                Some((FoundRef::Plain(sub_chars(t, j + 1, e)), e))
            } else {
                None
            }
        },
    }
}

proof fn lemma_relative_bounds(t: Seq<char>, j: int)
    requires
        0 <= j < t.len(),
        relative_at(t, j) is Some,
    ensures
        ({
            let (p, q, r) = relative_at(t, j)->0;
            j + 1 < p < q && q + 3 < r <= t.len()
        }),
{
    lemma_run_end_bounds(t, j + 1, CharClass::Word);
    let p = run_end(t, j + 1, CharClass::Word);
    lemma_run_end_bounds(t, p + 1, CharClass::Digit);
    let q = run_end(t, p + 1, CharClass::Digit);
    lemma_run_end_bounds(t, q + 3, CharClass::Target);
}

/// The deadline, event ids and time references that the references in a task's text give.
pub struct TextRefs {
    pub deadline: Option<String>,
    pub event_ids: Vec<String>,
    pub time_references: Vec<TimeReference>,
}

fn refs_of_text(t: &Vec<char>) -> (r: TextRefs)
    ensures
        opt_str(r.deadline) == ref_deadline(scan_refs(t@, 0)),
        strs(r.event_ids@) == ref_event_ids(scan_refs(t@, 0)),
        time_ref_views(r.time_references@) == ref_time_refs(scan_refs(t@, 0)),
{
    let mut deadline: Option<String> = None;
    let mut event_ids: Vec<String> = Vec::new();
    let mut time_refs: Vec<TimeReference> = Vec::new();
    let ghost mut done: Seq<RefMatch> = Seq::empty();
    let mut j: usize = 0;
    assert(done + scan_refs(t@, 0) == scan_refs(t@, 0));
    while j < t.len()
        invariant
            j <= t.len(),
            scan_refs(t@, 0) == done + scan_refs(t@, j as int),
            opt_str(deadline) == ref_deadline(done),
            strs(event_ids@) == ref_event_ids(done),
            time_ref_views(time_refs@) == ref_time_refs(done),
        decreases t.len() - j,
    {
        match ref_at_exec(t, j) {
            Some((m, e)) => {
                proof {
                    if !(datetime_at(t@, j as int)) && relative_at(t@, j as int) is Some {
                        lemma_relative_bounds(t@, j as int);
                    }
                    if !(datetime_at(t@, j as int)) && relative_at(t@, j as int) is None {
                        lemma_run_end_bounds(t@, j + 1, CharClass::EventId);
                    }
                }
                let ghost mv = m@;
                assert(e > j);
                assert(scan_refs(t@, j as int) == seq![mv] + scan_refs(t@, e as int));
                assert(done + scan_refs(t@, j as int) == done.push(mv) + scan_refs(t@, e as int));
                let ghost nd = done.push(mv);
                assert(nd.drop_last() == done);
                assert(nd.last() == mv);
                match m {
                    FoundRef::Deadline(d) => {
                        let mut full = d;
                        append_chars(&mut full, &vec![':', '0', '0']);
                        deadline = Some(string_of(&full));
                    },
                    FoundRef::Relative { modifier, digits, unit, target } => {
                        let amount = match parse_i64(&digits) {
                            Some(v) => v,
                            None => 0,
                        };
                        let tid = string_of(&target);
                        let uv = vec![unit];
                        assert(uv@ == seq![unit]);
                        let ghost old_e = event_ids@;
                        event_ids.push(string_of(&target));
                        proof {
                            lemma_strs_push(old_e, event_ids@.last());
                        }
                        let tr = TimeReference {
                            modifier: string_of(&modifier),
                            amount,
                            unit: string_of(&uv),
                            target_id: tid,
                        };
                        let ghost old_t = time_refs@;
                        assert(tr@ == TimeRefView {
                            modifier: modifier@,
                            amount: match parsed_i64(digits@) {
                                Some(v) => v,
                                None => 0,
                            },
                            unit: seq![unit],
                            target_id: target@,
                        });
                        time_refs.push(tr);
                        assert(time_ref_views(time_refs@) =~= time_ref_views(old_t).push(tr@));
                        assert(ref_time_refs(nd) == ref_time_refs(done).push(tr@));
                    },
                    FoundRef::Plain(id) => {
                        let ghost old_e = event_ids@;
                        event_ids.push(string_of(&id));
                        proof {
                            lemma_strs_push(old_e, event_ids@.last());
                        }
                    },
                }
                proof {
                    done = nd;
                }
                j = e;
            },
            None => {
                j = j + 1;
            },
        }
    }
    r_refs(deadline, event_ids, time_refs)
}

fn r_refs(deadline: Option<String>, event_ids: Vec<String>, time_references: Vec<TimeReference>) -> (r: TextRefs)
    ensures
        r.deadline == deadline,
        r.event_ids == event_ids,
        r.time_references == time_references,
{
    TextRefs { deadline, event_ids, time_references }
}

fn projects_of_text(t: &Vec<char>) -> (r: Vec<String>)
    ensures
        strs(r@) == scan_projects(t@, 0),
{
    let mut r: Vec<String> = Vec::new();
    let mut j: usize = 0;
    while j < t.len()
        invariant
            j <= t.len(),
            scan_projects(t@, 0) == strs(r@) + scan_projects(t@, j as int),
        decreases t.len() - j,
    {
        let e = run_end_of(t, j + 1, CharClass::ProjectId);
        if t[j] == '#' && e > j + 1 {
            let id = sub_chars(t, j + 1, e);
            let ghost old = r@;
            r.push(string_of(&id));
            proof {
                lemma_strs_push(old, r@.last());
            }
            assert(strs(old) + scan_projects(t@, j as int) == strs(r@) + scan_projects(t@, e as int));
            j = e;
        } else {
            j = j + 1;
        }
    }
    assert(strs(r@) + scan_projects(t@, j as int) == strs(r@));
    r
}

} // verus!

verus! {

/// A trimmed line matching `^[-*+] \[([ xX])\] (.+)`.
pub open spec fn is_task_line(s: Seq<char>) -> bool {
    &&& s.len() >= 7
    &&& (s[0] == '-' || s[0] == '*' || s[0] == '+')
    &&& s[1] == ' ' && s[2] == '['
    &&& (s[3] == ' ' || s[3] == 'x' || s[3] == 'X')
    &&& s[4] == ']' && s[5] == ' '
}

/// The task on line number `n` (counted from 1) of `src`, if the line is a checkbox item.
pub open spec fn task_from_line(line: Seq<char>, src: Seq<char>, n: int) -> Option<TaskView> {
    let s = trim_seq(line);
    if !is_task_line(s) {
        None
    } else {
        let text = s.skip(6);
        let ms = scan_refs(text, 0);
        Some(
            TaskView {
                text,
                completed: s[3] == 'x' || s[3] == 'X',
                raw_line: line,
                source_file: src,
                line_number: n as i64,
                deadline: ref_deadline(ms),
                event_ids: ref_event_ids(ms),
                project_ids: scan_projects(text, 0),
                time_references: ref_time_refs(ms),
                resolved_event_names: Seq::empty(),
                resolved_project_names: Seq::empty(),
            },
        )
    }
}

/// The tasks of the lines `ls`, in line order.
pub open spec fn tasks_of_lines(ls: Seq<Seq<char>>, src: Seq<char>) -> Seq<TaskView>
    decreases ls.len(),
{
    if ls.len() == 0 {
        Seq::empty()
    } else {
        let rest = tasks_of_lines(ls.drop_last(), src);
        match task_from_line(ls.last(), src, ls.len() as int) {
            Some(t) => rest.push(t),
            None => rest,
        }
    }
}

/// The tasks of a markdown text.
pub open spec fn tasks_in(text: Seq<char>, src: Seq<char>) -> Seq<TaskView> {
    tasks_of_lines(lines_of(text), src)
}

fn task_of_line(line: &Vec<char>, src: &str, n: i64) -> (r: Option<TaskEntity>)
    ensures
        match task_from_line(line@, src@, n as int) {
            Some(tv) => r matches Some(t) && t@ == tv,
            None => r is None,
        },
{
    let s = trim_chars(line);
    if !(s.len() >= 7 && (s[0] == '-' || s[0] == '*' || s[0] == '+') && s[1] == ' ' && s[2] == '['
        && (s[3] == ' ' || s[3] == 'x' || s[3] == 'X') && s[4] == ']' && s[5] == ' ') {
        return None;
    }
    let text = sub_chars(&s, 6, s.len());
    assert(text@ == s@.skip(6));
    let refs = refs_of_text(&text);
    let projects = projects_of_text(&text);
    let t = TaskEntity {
        text: string_of(&text),
        completed: s[3] == 'x' || s[3] == 'X',
        raw_line: string_of(line),
        source_file: string_of(&chars_of(src)),
        line_number: n,
        deadline: refs.deadline,
        event_ids: refs.event_ids,
        project_ids: projects,
        time_references: refs.time_references,
        resolved_event_names: Vec::new(),
        resolved_project_names: Vec::new(),
    };
    assert(pair_strs(t.resolved_event_names@) =~= Seq::empty());
    assert(pair_strs(t.resolved_project_names@) =~= Seq::empty());
    Some(t)
}

/// Parses the checkbox tasks (`- [ ] text`, `* [x] text`, ...) of a markdown text, with
/// the deadlines, event ids, time references and project ids that their text names.
pub fn parse_tasks_from_markdown(text: &str, source_file: &str) -> (r: Vec<TaskEntity>)
    ensures
        task_views(r@) == tasks_in(text@, source_file@),
{
    let v = chars_of(text);
    let ls = lines_chars(&v);
    let mut r: Vec<TaskEntity> = Vec::new();
    let mut i: usize = 0;
    assert(views(ls@).take(0) == Seq::<Seq<char>>::empty());
    while i < ls.len()
        invariant
            i <= ls.len(),
            task_views(r@) == tasks_of_lines(views(ls@).take(i as int), source_file@),
        decreases ls.len() - i,
    {
        let ghost lv = views(ls@);
        assert(lv.take(i + 1).drop_last() == lv.take(i as int));
        assert(lv.take(i + 1).last() == ls@[i as int]@);
        assert(lv.take(i + 1).len() == i + 1);
        let n = (i + 1) as i64;
        match task_of_line(&ls[i], source_file, n) {
            Some(t) => {
                let ghost old = r@;
                r.push(t);
                assert(task_views(r@) =~= task_views(old).push(t@));
            },
            None => {},
        }
        i = i + 1;
    }
    assert(views(ls@).take(ls@.len() as int) == views(ls@));
    r
}

} // verus!

verus! {

/// An event as deadline resolution needs it: its name and its start and end instants
/// (seconds since the Unix epoch, UTC).
#[derive(Debug, Clone, PartialEq, Eq)]
pub struct EventRef {
    pub name: String,
    pub from_: i64,
    pub to: i64,
}

/// The entry of `m` under `id`.
pub open spec fn event_lookup(m: Seq<(String, EventRef)>, id: Seq<char>) -> Option<EventRef>
    decreases m.len(),
{
    if m.len() == 0 {
        None
    } else if m[0].0@ == id {
        Some(m[0].1)
    } else {
        event_lookup(m.drop_first(), id)
    }
}

/// The name under `id` in a list of `(id, name)` pairs.
pub open spec fn name_lookup(m: Seq<(String, String)>, id: Seq<char>) -> Option<Seq<char>>
    decreases m.len(),
{
    if m.len() == 0 {
        None
    } else if m[0].0@ == id {
        Some(m[0].1@)
    } else {
        name_lookup(m.drop_first(), id)
    }
}

/// No two entries of a keyed list share a key (the list stands for a map).
pub open spec fn keys_distinct<V>(m: Seq<(String, V)>) -> bool {
    forall|i: int, j: int| 0 <= i < j < m.len() ==> m[i].0@ != m[j].0@
}

/// Whether no two entries of `m` share a key.
pub fn has_distinct_keys<V>(m: &Vec<(String, V)>) -> (b: bool)
    ensures
        b == keys_distinct(m@),
{
    let mut j: usize = 0;
    while j < m.len()
        invariant
            j <= m.len(),
            forall|a: int, b: int| 0 <= a < b < j ==> m@[a].0@ != m@[b].0@,
        decreases m.len() - j,
    {
        let mut i: usize = 0;
        while i < j
            invariant
                i <= j < m.len(),
                forall|a: int, b: int| 0 <= a < b < j ==> m@[a].0@ != m@[b].0@,
                forall|a: int| 0 <= a < i ==> m@[a].0@ != m@[j as int].0@,
            decreases j - i,
        {
            if crate::storage::string_eq(&m[i].0, m[j].0.as_str()) {
                assert(!keys_distinct(m@)) by {
                    assert(m@[i as int].0@ == m@[j as int].0@);
                }
                return false;
            }
            i = i + 1;
        }
        j = j + 1;
    }
    true
}

/// Whether a list of `(id, name)` pairs has an entry for `id`.
pub open spec fn has_key(v: Seq<(Seq<char>, Seq<char>)>, id: Seq<char>) -> bool {
    exists|i: int| 0 <= i < v.len() && v[i].0 == id
}

/// The `(id, name)` pairs of the ids that the map knows, each id once, in first-mention
/// order.
pub open spec fn resolved_events(ids: Seq<Seq<char>>, m: Seq<(String, EventRef)>) -> Seq<
    (Seq<char>, Seq<char>),
>
    decreases ids.len(),
{
    if ids.len() == 0 {
        Seq::empty()
    } else {
        let rest = resolved_events(ids.drop_last(), m);
        let id = ids.last();
        match event_lookup(m, id) {
            Some(ev) => if has_key(rest, id) {
                rest
            } else {
                rest.push((id, ev.name@))
            },
            None => rest,
        }
    }
}

/// The `(id, title)` pairs of the project ids that the map knows, each id once, in
/// first-mention order.
pub open spec fn resolved_projects(ids: Seq<Seq<char>>, m: Seq<(String, String)>) -> Seq<
    (Seq<char>, Seq<char>),
>
    decreases ids.len(),
{
    if ids.len() == 0 {
        Seq::empty()
    } else {
        let rest = resolved_projects(ids.drop_last(), m);
        let id = ids.last();
        match name_lookup(m, id) {
            Some(name) => if has_key(rest, id) {
                rest
            } else {
                rest.push((id, name))
            },
            None => rest,
        }
    }
}

/// The outcome of computing a deadline from time references.
pub enum DeadlineOutcome {
    /// chrono would panic building the offset or shifting the instant
    Fails,
    /// no reference gives a deadline
    Unset,
    /// the deadline instant
    At(int),
}

pub open spec fn before_word() -> Seq<char> {
    seq!['b', 'e', 'f', 'o', 'r', 'e']
}

pub open spec fn after_word() -> Seq<char> {
    seq!['a', 'f', 't', 'e', 'r']
}

/// The first reference whose target event is known and whose modifier is `before`
/// (event start minus offset) or `after` (event end plus offset) gives the deadline.
pub open spec fn deadline_outcome(refs: Seq<TimeRefView>, m: Seq<(String, EventRef)>) -> DeadlineOutcome
    decreases refs.len(),
{
    if refs.len() == 0 {
        DeadlineOutcome::Unset
    } else {
        let r = refs[0];
        match event_lookup(m, r.target_id) {
            None => deadline_outcome(refs.drop_first(), m),
            Some(ev) => match offset_secs(r.amount, r.unit) {
                None => DeadlineOutcome::Fails,
                Some(off) => if r.modifier == before_word() {
                    let t = ev.from_ - off;
                    if instant_in_range(t) {
                        DeadlineOutcome::At(t)
                    } else {
                        DeadlineOutcome::Fails
                    }
                } else if r.modifier == after_word() {
                    let t = ev.to + off;
                    if instant_in_range(t) {
                        DeadlineOutcome::At(t)
                    } else {
                        DeadlineOutcome::Fails
                    }
                } else {
                    deadline_outcome(refs.drop_first(), m)
                },
            },
        }
    }
}

/// Resolution is defined on a task unless computing its deadline fails.
pub open spec fn resolvable(t: TaskView, m: Seq<(String, EventRef)>) -> bool {
    t.deadline is Some || !(deadline_outcome(t.time_references, m) is Fails)
}

/// A task with its resolved names and its deadline: an explicit deadline stays; else
/// the deadline that its time references give, printed as `%Y-%m-%dT%H:%M:%S`.
pub open spec fn resolved_task(
    t: TaskView,
    m: Seq<(String, EventRef)>,
    pm: Seq<(String, String)>,
) -> TaskView {
    TaskView {
        deadline: if t.deadline is Some {
            t.deadline
        } else {
            match deadline_outcome(t.time_references, m) {
                DeadlineOutcome::At(s) => Some(iso_seconds_text(s)),
                _ => None,
            }
        },
        resolved_event_names: resolved_events(t.event_ids, m),
        resolved_project_names: resolved_projects(t.project_ids, pm),
        ..t
    }
}

fn find_event(m: &Vec<(String, EventRef)>, id: &String) -> (r: Option<usize>)
    ensures
        match event_lookup(m@, id@) {
            Some(ev) => r matches Some(k) && k < m.len() && m@[k as int].1 == ev,
            None => r is None,
        },
{
    let mut k: usize = 0;
    assert(m@.skip(0) == m@);
    while k < m.len()
        invariant
            k <= m.len(),
            event_lookup(m@, id@) == event_lookup(m@.skip(k as int), id@),
        decreases m.len() - k,
    {
        assert(m@.skip(k as int)[0] == m@[k as int]);
        assert(m@.skip(k as int).drop_first() == m@.skip(k + 1));
        if crate::storage::string_eq(&m[k].0, id.as_str()) {
            return Some(k);
        }
        k = k + 1;
    }
    None
}

fn find_name(m: &Vec<(String, String)>, id: &String) -> (r: Option<usize>)
    ensures
        match name_lookup(m@, id@) {
            Some(n) => r matches Some(k) && k < m.len() && m@[k as int].1@ == n,
            None => r is None,
        },
{
    let mut k: usize = 0;
    assert(m@.skip(0) == m@);
    while k < m.len()
        invariant
            k <= m.len(),
            name_lookup(m@, id@) == name_lookup(m@.skip(k as int), id@),
        decreases m.len() - k,
    {
        assert(m@.skip(k as int)[0] == m@[k as int]);
        assert(m@.skip(k as int).drop_first() == m@.skip(k + 1));
        if crate::storage::string_eq(&m[k].0, id.as_str()) {
            return Some(k);
        }
        k = k + 1;
    }
    None
}

fn pairs_have_key(v: &Vec<(String, String)>, id: &String) -> (b: bool)
    ensures
        b == has_key(pair_strs(v@), id@),
{
    let mut k: usize = 0;
    while k < v.len()
        invariant
            k <= v.len(),
            forall|i: int| 0 <= i < k ==> pair_strs(v@)[i].0 != id@,
        decreases v.len() - k,
    {
        if crate::storage::string_eq(&v[k].0, id.as_str()) {
            assert(pair_strs(v@)[k as int].0 == id@);
            return true;
        }
        k = k + 1;
    }
    false
}

fn resolve_event_names(ids: &Vec<String>, m: &Vec<(String, EventRef)>) -> (r: Vec<(String, String)>)
    ensures
        pair_strs(r@) == resolved_events(strs(ids@), m@),
{
    let mut r: Vec<(String, String)> = Vec::new();
    let mut i: usize = 0;
    assert(strs(ids@).take(0) == Seq::<Seq<char>>::empty());
    while i < ids.len()
        invariant
            i <= ids.len(),
            pair_strs(r@) == resolved_events(strs(ids@).take(i as int), m@),
        decreases ids.len() - i,
    {
        let ghost sv = strs(ids@);
        assert(sv.take(i + 1).drop_last() == sv.take(i as int));
        assert(sv.take(i + 1).last() == ids@[i as int]@);
        match find_event(m, &ids[i]) {
            Some(k) => {
                if !pairs_have_key(&r, &ids[i]) {
                    let ghost old = r@;
                    r.push((ids[i].clone(), m[k].1.name.clone()));
                    assert(pair_strs(r@) =~= pair_strs(old).push((ids@[i as int]@, m@[k as int].1.name@)));
                }
            },
            None => {},
        }
        i = i + 1;
    }
    assert(strs(ids@).take(ids@.len() as int) == strs(ids@));
    r
}

fn resolve_project_names(ids: &Vec<String>, m: &Vec<(String, String)>) -> (r: Vec<(String, String)>)
    ensures
        pair_strs(r@) == resolved_projects(strs(ids@), m@),
{
    let mut r: Vec<(String, String)> = Vec::new();
    let mut i: usize = 0;
    assert(strs(ids@).take(0) == Seq::<Seq<char>>::empty());
    while i < ids.len()
        invariant
            i <= ids.len(),
            pair_strs(r@) == resolved_projects(strs(ids@).take(i as int), m@),
        decreases ids.len() - i,
    {
        let ghost sv = strs(ids@);
        assert(sv.take(i + 1).drop_last() == sv.take(i as int));
        assert(sv.take(i + 1).last() == ids@[i as int]@);
        match find_name(m, &ids[i]) {
            Some(k) => {
                if !pairs_have_key(&r, &ids[i]) {
                    let ghost old = r@;
                    r.push((ids[i].clone(), m[k].1.clone()));
                    assert(pair_strs(r@) =~= pair_strs(old).push((ids@[i as int]@, m@[k as int].1@)));
                }
            },
            None => {},
        }
        i = i + 1;
    }
    assert(strs(ids@).take(ids@.len() as int) == strs(ids@));
    r
}

/// The outcome of the deadline that `refs` give: `None` when computing it fails,
/// `Some(None)` when no reference gives one.
fn deadline_outcome_of(refs: &Vec<TimeReference>, m: &Vec<(String, EventRef)>) -> (r: Option<Option<i64>>)
    ensures
        match deadline_outcome(time_ref_views(refs@), m@) {
            DeadlineOutcome::At(s) => r == Some(Some(s as i64)) && instant_in_range(s),
            DeadlineOutcome::Unset => r == Some(None::<i64>),
            DeadlineOutcome::Fails => r is None,
        },
{
    let mut i: usize = 0;
    let before = vec!['b', 'e', 'f', 'o', 'r', 'e'];
    let after = vec!['a', 'f', 't', 'e', 'r'];
    assert(before@ == before_word());
    assert(after@ == after_word());
    assert(time_ref_views(refs@).skip(0) == time_ref_views(refs@));
    while i < refs.len()
        invariant
            i <= refs.len(),
            before@ == before_word(),
            after@ == after_word(),
            deadline_outcome(time_ref_views(refs@), m@) == deadline_outcome(
                time_ref_views(refs@).skip(i as int),
                m@,
            ),
        decreases refs.len() - i,
    {
        let ghost rs = time_ref_views(refs@).skip(i as int);
        assert(rs[0] == refs@[i as int]@);
        assert(rs.drop_first() == time_ref_views(refs@).skip(i + 1));
        let r = &refs[i];
        match find_event(m, &r.target_id) {
            None => {},
            Some(k) => {
                let ev = &m[k].1;
                let off = match compute_offset(r.amount, r.unit.as_str()) {
                    Some(o) => o,
                    None => return None,
                };
                let md = chars_of(r.modifier.as_str());
                if md.len() == 6 && crate::text::starts_with(&md, &before) {
                    assert(md@.take(6) == md@);
                    let t = (ev.from_ as i128) - (off as i128);
                    if t < -8334601315200 || t > 8210266876799 {
                        return None;
                    }
                    return Some(Some(t as i64));
                } else if md.len() == 5 && crate::text::starts_with(&md, &after) {
                    assert(md@.take(5) == md@);
                    assert(md@ != before_word());
                    let t = (ev.to as i128) + (off as i128);
                    if t < -8334601315200 || t > 8210266876799 {
                        return None;
                    }
                    return Some(Some(t as i64));
                } else {
                    assert(md@ != before_word()) by {
                        if md@ == before_word() {
                            assert(md@.take(6) == md@);
                        }
                    }
                    assert(md@ != after_word()) by {
                        if md@ == after_word() {
                            assert(md@.take(5) == md@);
                        }
                    }
                }
            },
        }
        i = i + 1;
    }
    Some(None)
}

/// Whether `resolve_tasks` can resolve `t`: an explicit deadline, or time references
/// whose deadline can be computed (or that give none).
pub fn task_resolvable(t: &TaskEntity, event_map: &Vec<(String, EventRef)>) -> (b: bool)
    ensures
        b == resolvable(t@, event_map@),
{
    t.deadline.is_some() || deadline_outcome_of(&t.time_references, event_map).is_some()
}

/// The tasks of `tasks` with their event and project names resolved and, where no
/// explicit deadline is set, the deadline that their time references give.
pub fn resolve_tasks(
    tasks: Vec<TaskEntity>,
    event_map: &Vec<(String, EventRef)>,
    project_map: &Vec<(String, String)>,
) -> (r: Vec<TaskEntity>)
    requires
        keys_distinct(event_map@),
        keys_distinct(project_map@),
        forall|k: int| 0 <= k < tasks.len() ==> resolvable(#[trigger] tasks@[k]@, event_map@),
    ensures
        r.len() == tasks.len(),
        forall|k: int|
            0 <= k < tasks.len() ==> #[trigger] r@[k]@ == resolved_task(
                tasks@[k]@,
                event_map@,
                project_map@,
            ),
{
    let mut tasks = tasks;
    let ghost orig = tasks@;
    let mut r: Vec<TaskEntity> = Vec::new();
    while tasks.len() > 0
        invariant
            r.len() + tasks.len() == orig.len(),
            tasks@ == orig.skip(r.len() as int),
            forall|k: int| 0 <= k < orig.len() ==> resolvable(#[trigger] orig[k]@, event_map@),
            forall|k: int|
                0 <= k < r.len() ==> #[trigger] r@[k]@ == resolved_task(
                    orig[k]@,
                    event_map@,
                    project_map@,
                ),
        decreases tasks.len(),
    {
        let ghost idx = r.len() as int;
        assert(tasks@[0] == orig[idx]);
        let t = tasks.remove(0);
        assert(tasks@ == orig.skip(idx + 1));
        assert(resolvable(orig[idx]@, event_map@));
        let ev_names = resolve_event_names(&t.event_ids, event_map);
        let pr_names = resolve_project_names(&t.project_ids, project_map);
        let deadline = match t.deadline {
            Some(d) => Some(d),
            None => match deadline_outcome_of(&t.time_references, event_map) {
                Some(Some(s)) => Some(crate::time::format_instant(s)),
                _ => None,
            },
        };
        let nt = TaskEntity {
            text: t.text,
            completed: t.completed,
            raw_line: t.raw_line,
            source_file: t.source_file,
            line_number: t.line_number,
            deadline,
            event_ids: t.event_ids,
            project_ids: t.project_ids,
            time_references: t.time_references,
            resolved_event_names: ev_names,
            resolved_project_names: pr_names,
        };
        r.push(nt);
    }
    r
}

} // verus!
